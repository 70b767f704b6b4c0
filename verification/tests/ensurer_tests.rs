use regmove::ensurer::DirSet;

fn path(components: &[&str]) -> Vec<String> {
    components.iter().map(|c| String::from(*c)).collect()
}

#[test]
fn creates_target_and_missing_ancestors_shortest_first() {
    let mut fs = DirSet::new();
    let created = fs.create_dir_recursively(&path(&["out", "sub"]));
    assert_eq!(created, vec![path(&["out"]), path(&["out", "sub"])]);
    assert!(fs.contains_path(&path(&["out"])));
    assert!(fs.contains_path(&path(&["out", "sub"])));
}

#[test]
fn existing_ancestors_are_not_created_again() {
    let mut fs = DirSet::new();
    fs.create_dir_recursively(&path(&["out"]));
    let created = fs.create_dir_recursively(&path(&["out", "sub", "deep"]));
    assert_eq!(created, vec![path(&["out", "sub"]), path(&["out", "sub", "deep"])]);
}

#[test]
fn existing_target_is_a_no_op() {
    let mut fs = DirSet::new();
    fs.create_dir_recursively(&path(&["out"]));
    let created = fs.create_dir_recursively(&path(&["out"]));
    assert!(created.is_empty());
}

#[test]
fn running_twice_is_idempotent() {
    let mut fs = DirSet::new();
    let first = fs.create_dir_recursively(&path(&["a", "b", "c"]));
    assert_eq!(first.len(), 3);
    let second = fs.create_dir_recursively(&path(&["a", "b", "c"]));
    assert!(second.is_empty());
    assert!(fs.contains_path(&path(&["a"])));
    assert!(fs.contains_path(&path(&["a", "b"])));
    assert!(fs.contains_path(&path(&["a", "b", "c"])));
}
