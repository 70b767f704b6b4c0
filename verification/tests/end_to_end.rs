use regmove::matcher::find_files_matching_regex;
use regmove::mover::move_files_to_directory;
use regmove::pattern::compile_pattern;
use regmove::pruner::delete_empty_dirs_recursively;
use regmove::tree::Node;

fn file(name: &str) -> Node {
    Node::File { name: String::from(name) }
}

fn dir(name: &str, entries: Vec<Node>) -> Node {
    Node::Dir { name: String::from(name), entries }
}

// The tree `./a/b/file1.txt`, `./a/c/file2.log`, pattern `\.txt$`,
// destination `./out`: file1.txt is moved to `./out`, `./a/b` is left empty
// and pruned, `./a/c/file2.log` is untouched, `./a` survives because of `c`.
#[test]
fn txt_file_is_moved_and_emptied_directory_pruned() {
    let tree = vec![dir(
        "a",
        vec![
            dir("b", vec![file("file1.txt")]),
            dir("c", vec![file("file2.log")]),
        ],
    )];
    let root = String::from(".");

    let pat = compile_pattern(r"\.txt$").unwrap();
    let found = find_files_matching_regex(&tree, &root, &pat);
    assert_eq!(found.len(), 1);
    assert_eq!(found[0].path, "./a/b/file1.txt");

    let dest = String::from("./out");
    let ops = move_files_to_directory(&found, &dest);
    assert_eq!(ops.len(), 1);
    assert_eq!(ops[0].src, "./a/b/file1.txt");
    assert_eq!(ops[0].dest, "./out/file1.txt");

    // The tree as the rename leaves it: file1.txt is gone from `./a/b`.
    let after_move = vec![
        dir(
            "a",
            vec![dir("b", vec![]), dir("c", vec![file("file2.log")])],
        ),
        dir("out", vec![file("file1.txt")]),
    ];
    let (kept, deleted) = delete_empty_dirs_recursively(&after_move, &root);
    assert_eq!(deleted, vec!["./a/b"]);

    // `./a` survives (c is non-empty), `./a/c/file2.log` is untouched, and
    // `./out/file1.txt` is in place.
    assert_eq!(kept.len(), 2);
    match &kept[0] {
        Node::Dir { name, entries } => {
            assert_eq!(name.as_str(), "a");
            assert_eq!(entries.len(), 1);
            match &entries[0] {
                Node::Dir { name, entries } => {
                    assert_eq!(name.as_str(), "c");
                    assert_eq!(entries.len(), 1);
                    match &entries[0] {
                        Node::File { name } => assert_eq!(name.as_str(), "file2.log"),
                        Node::Dir { .. } => panic!("expected a file"),
                    }
                }
                Node::File { .. } => panic!("expected a directory"),
            }
        }
        Node::File { .. } => panic!("expected a directory"),
    }
    match &kept[1] {
        Node::Dir { name, entries } => {
            assert_eq!(name.as_str(), "out");
            assert_eq!(entries.len(), 1);
        }
        Node::File { .. } => panic!("expected a directory"),
    }
}

// Two matched files named `dup.txt` in different source directories: the
// planned renames share one destination, so the one listed last is the one
// whose content ends up there.
#[test]
fn duplicate_names_collapse_to_one_destination() {
    let tree = vec![
        dir("one", vec![file("dup.txt")]),
        dir("two", vec![file("dup.txt")]),
    ];
    let root = String::from(".");
    let pat = compile_pattern(r"dup\.txt$").unwrap();
    let found = find_files_matching_regex(&tree, &root, &pat);
    assert_eq!(found.len(), 2);

    let dest = String::from("./out");
    let ops = move_files_to_directory(&found, &dest);
    assert_eq!(ops.len(), 2);
    assert_eq!(ops[0].dest, "./out/dup.txt");
    assert_eq!(ops[1].dest, "./out/dup.txt");
    assert_eq!(ops[0].src, "./one/dup.txt");
    assert_eq!(ops[1].src, "./two/dup.txt");
}
