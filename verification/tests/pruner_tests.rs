use regmove::pruner::delete_empty_dirs_recursively;
use regmove::tree::Node;

fn file(name: &str) -> Node {
    Node::File { name: String::from(name) }
}

fn dir(name: &str, entries: Vec<Node>) -> Node {
    Node::Dir { name: String::from(name), entries }
}

fn names(entries: &[Node]) -> Vec<&str> {
    entries
        .iter()
        .map(|n| match n {
            Node::File { name } => name.as_str(),
            Node::Dir { name, .. } => name.as_str(),
        })
        .collect()
}

#[test]
fn deletes_a_directory_left_empty() {
    let tree = vec![dir(
        "a",
        vec![dir("b", vec![]), dir("c", vec![file("file2.log")])],
    )];
    let root = String::from(".");
    let (kept, deleted) = delete_empty_dirs_recursively(&tree, &root);
    assert_eq!(deleted, vec!["./a/b"]);
    assert_eq!(kept.len(), 1);
    match &kept[0] {
        Node::Dir { name, entries } => {
            assert_eq!(name.as_str(), "a");
            assert_eq!(names(entries), vec!["c"]);
        }
        Node::File { .. } => panic!("expected a directory"),
    }
}

#[test]
fn cascades_upward_through_emptied_parents() {
    let tree = vec![dir("a", vec![dir("b", vec![dir("c", vec![])])])];
    let root = String::from(".");
    let (kept, deleted) = delete_empty_dirs_recursively(&tree, &root);
    assert!(kept.is_empty());
    assert_eq!(deleted, vec!["./a/b/c", "./a/b", "./a"]);
}

#[test]
fn descendants_are_listed_before_their_parent() {
    let tree = vec![dir("a", vec![dir("b", vec![]), dir("c", vec![])])];
    let root = String::from(".");
    let (_, deleted) = delete_empty_dirs_recursively(&tree, &root);
    assert_eq!(deleted, vec!["./a/b", "./a/c", "./a"]);
}

#[test]
fn files_are_never_deleted() {
    let tree = vec![file("keep.txt"), dir("d", vec![file("also.txt")])];
    let root = String::from(".");
    let (kept, deleted) = delete_empty_dirs_recursively(&tree, &root);
    assert!(deleted.is_empty());
    assert_eq!(names(&kept), vec!["keep.txt", "d"]);
}

#[test]
fn empty_root_deletes_nothing() {
    let tree: Vec<Node> = vec![];
    let root = String::from(".");
    let (kept, deleted) = delete_empty_dirs_recursively(&tree, &root);
    assert!(kept.is_empty());
    assert!(deleted.is_empty());
}

#[test]
fn second_run_deletes_nothing() {
    let tree = vec![dir(
        "a",
        vec![dir("b", vec![]), dir("c", vec![file("file2.log")])],
    )];
    let root = String::from(".");
    let (kept, deleted) = delete_empty_dirs_recursively(&tree, &root);
    assert!(!deleted.is_empty());
    let (kept2, deleted2) = delete_empty_dirs_recursively(&kept, &root);
    assert!(deleted2.is_empty());
    assert_eq!(names(&kept2), names(&kept));
}
