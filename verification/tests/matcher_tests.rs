use regmove::matcher::find_files_matching_regex;
use regmove::pattern::compile_pattern;
use regmove::tree::Node;

fn file(name: &str) -> Node {
    Node::File { name: String::from(name) }
}

fn dir(name: &str, entries: Vec<Node>) -> Node {
    Node::Dir { name: String::from(name), entries }
}

#[test]
fn matches_txt_files_by_extension() {
    let tree = vec![dir(
        "a",
        vec![
            dir("b", vec![file("file1.txt")]),
            dir("c", vec![file("file2.log")]),
        ],
    )];
    let pat = compile_pattern(r"\.txt$").unwrap();
    let root = String::from(".");
    let found = find_files_matching_regex(&tree, &root, &pat);
    assert_eq!(found.len(), 1);
    assert_eq!(found[0].path, "./a/b/file1.txt");
    assert_eq!(found[0].name, "file1.txt");
}

#[test]
fn matches_against_full_path_not_just_filename() {
    let tree = vec![
        dir("logs", vec![file("report")]),
        dir("data", vec![file("report")]),
    ];
    let pat = compile_pattern("logs/").unwrap();
    let root = String::from(".");
    let found = find_files_matching_regex(&tree, &root, &pat);
    assert_eq!(found.len(), 1);
    assert_eq!(found[0].path, "./logs/report");
}

#[test]
fn directories_are_never_collected() {
    let tree = vec![dir("match_me", vec![file("other")])];
    let pat = compile_pattern("match_me$").unwrap();
    let root = String::from(".");
    let found = find_files_matching_regex(&tree, &root, &pat);
    assert!(found.is_empty());
}

#[test]
fn no_match_returns_empty() {
    let tree = vec![dir("a", vec![file("file1.txt")])];
    let pat = compile_pattern("zzz").unwrap();
    let root = String::from(".");
    let found = find_files_matching_regex(&tree, &root, &pat);
    assert!(found.is_empty());
}

#[test]
fn collects_in_depth_first_entry_order() {
    let tree = vec![
        dir("a", vec![file("one.txt"), dir("b", vec![file("two.txt")])]),
        file("three.txt"),
    ];
    let pat = compile_pattern(r"\.txt$").unwrap();
    let root = String::from(".");
    let found = find_files_matching_regex(&tree, &root, &pat);
    let paths: Vec<&str> = found.iter().map(|f| f.path.as_str()).collect();
    assert_eq!(paths, vec!["./a/one.txt", "./a/b/two.txt", "./three.txt"]);
}

#[test]
fn invalid_regex_is_rejected() {
    assert!(compile_pattern("foo(bar").is_err());
}

#[test]
fn valid_regex_is_accepted() {
    assert!(compile_pattern(r"\.txt$").is_ok());
}
