use regmove::matcher::MatchedFile;
use regmove::mover::move_files_to_directory;

fn matched(path: &str, name: &str) -> MatchedFile {
    MatchedFile { path: String::from(path), name: String::from(name) }
}

#[test]
fn each_file_goes_to_destination_under_its_own_name() {
    let files = vec![
        matched("./a/b/file1.txt", "file1.txt"),
        matched("./a/c/notes.txt", "notes.txt"),
    ];
    let dest = String::from("./out");
    let ops = move_files_to_directory(&files, &dest);
    assert_eq!(ops.len(), 2);
    assert_eq!(ops[0].src, "./a/b/file1.txt");
    assert_eq!(ops[0].dest, "./out/file1.txt");
    assert_eq!(ops[1].src, "./a/c/notes.txt");
    assert_eq!(ops[1].dest, "./out/notes.txt");
}

#[test]
fn duplicate_names_share_one_destination_last_one_wins() {
    let files = vec![
        matched("./a/dup.txt", "dup.txt"),
        matched("./b/dup.txt", "dup.txt"),
    ];
    let dest = String::from("./out");
    let ops = move_files_to_directory(&files, &dest);
    assert_eq!(ops.len(), 2);
    assert_eq!(ops[0].dest, "./out/dup.txt");
    assert_eq!(ops[1].dest, "./out/dup.txt");
    // The renames are carried out in list order, so the file from `./b`
    // overwrites the one from `./a` at the shared destination.
    assert_eq!(ops[1].src, "./b/dup.txt");
}

#[test]
fn empty_list_plans_nothing() {
    let files: Vec<MatchedFile> = vec![];
    let dest = String::from("./out");
    let ops = move_files_to_directory(&files, &dest);
    assert!(ops.is_empty());
}
