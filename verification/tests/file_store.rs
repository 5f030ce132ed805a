use charizard::file_system::FileSystem;

#[test]
fn create_file_then_read_round_trip() {
    let mut fs = FileSystem::new();
    assert_eq!(fs.create_file("/", "a", "hello"), Ok(()));
    assert_eq!(fs.read_file("/", "a"), Ok("hello"));
}

#[test]
fn create_directory_lists_with_slash_prefix() {
    let mut fs = FileSystem::new();
    assert_eq!(fs.create_directory("/", "docs"), Ok(()));
    assert_eq!(fs.create_file("/", "notes", "x"), Ok(()));
    assert_eq!(
        fs.list_directory("/"),
        Ok(vec![String::from("/docs"), String::from("notes")])
    );
}

#[test]
fn duplicate_file_name_is_rejected() {
    let mut fs = FileSystem::new();
    assert_eq!(fs.create_file("/", "a", "hello"), Ok(()));
    assert_eq!(
        fs.create_file("/", "a", "other"),
        Err(String::from("A file with the name 'a' already exists"))
    );
    assert_eq!(fs.read_file("/", "a"), Ok("hello"));
}

#[test]
fn duplicate_directory_name_is_rejected() {
    let mut fs = FileSystem::new();
    assert_eq!(fs.create_directory("/", "d"), Ok(()));
    assert_eq!(
        fs.create_directory("/", "d"),
        Err(String::from("A directory with the name 'd' already exists"))
    );
}

#[test]
fn file_and_directory_may_share_a_name() {
    let mut fs = FileSystem::new();
    assert_eq!(fs.create_file("/", "n", "content"), Ok(()));
    assert_eq!(fs.create_directory("/", "n"), Ok(()));
    assert_eq!(
        fs.list_directory("/"),
        Ok(vec![String::from("n"), String::from("/n")])
    );
}

#[test]
fn nested_paths_resolve() {
    let mut fs = FileSystem::new();
    assert_eq!(fs.create_directory("/", "a"), Ok(()));
    assert_eq!(fs.create_directory("a", "b"), Ok(()));
    assert_eq!(fs.create_file("a/b", "f", "v"), Ok(()));
    assert_eq!(fs.read_file("a/b", "f"), Ok("v"));
}

#[test]
fn redundant_slashes_collapse() {
    let mut fs = FileSystem::new();
    assert_eq!(fs.create_directory("/", "a"), Ok(()));
    assert_eq!(fs.create_directory("a", "b"), Ok(()));
    assert_eq!(fs.create_file("//a///b/", "f", "v"), Ok(()));
    assert_eq!(fs.read_file("a/b", "f"), Ok("v"));
    assert_eq!(fs.list_directory("a//b"), fs.list_directory("/a/b/"));
    assert_eq!(fs.list_directory(""), fs.list_directory("///"));
}

#[test]
fn missing_directory_is_reported() {
    let fs = FileSystem::new();
    assert!(fs.find_directory("nope").is_err());
    assert_eq!(
        fs.list_directory("nope"),
        Err(String::from("Directory 'nope' not found"))
    );
}

#[test]
fn missing_file_is_reported() {
    let mut fs = FileSystem::new();
    assert_eq!(fs.create_directory("/", "d"), Ok(()));
    assert_eq!(
        fs.read_file("/", "x"),
        Err(String::from("File 'x' not found in '/'"))
    );
    assert_eq!(
        fs.read_file("d", "x"),
        Err(String::from("File 'x' not found in 'd'"))
    );
}

#[test]
fn delete_non_empty_directory_fails() {
    let mut fs = FileSystem::new();
    assert_eq!(fs.create_directory("/", "b"), Ok(()));
    assert_eq!(fs.create_directory("b", "x"), Ok(()));
    assert_eq!(
        fs.delete_node("/", "b"),
        Err(String::from("Directory 'b' is not empty"))
    );
    assert_eq!(fs.delete_node("b", "x"), Ok(()));
    assert_eq!(fs.delete_node("/", "b"), Ok(()));
}

#[test]
fn delete_keeps_sibling_order() {
    let mut fs = FileSystem::new();
    assert_eq!(fs.create_directory("/", "a"), Ok(()));
    assert_eq!(fs.create_file("/", "m", ""), Ok(()));
    assert_eq!(fs.create_directory("/", "c"), Ok(()));
    assert_eq!(fs.delete_node("/", "m"), Ok(()));
    assert_eq!(
        fs.list_directory("/"),
        Ok(vec![String::from("/a"), String::from("/c")])
    );
}

#[test]
fn delete_missing_node_fails() {
    let mut fs = FileSystem::new();
    assert_eq!(
        fs.delete_node("/", "ghost"),
        Err(String::from("Node 'ghost' not found in '/'"))
    );
}

#[test]
fn rename_collides_with_any_kind() {
    let mut fs = FileSystem::new();
    assert_eq!(fs.create_file("/", "n", ""), Ok(()));
    assert_eq!(fs.create_directory("/", "d"), Ok(()));
    assert_eq!(
        fs.rename_node("/", "d", "n"),
        Err(String::from("A node with the name 'n' already exists"))
    );
    assert_eq!(
        fs.rename_node("/", "n", "d"),
        Err(String::from("A node with the name 'd' already exists"))
    );
}

#[test]
fn rename_missing_node_is_a_silent_no_op() {
    let mut fs = FileSystem::new();
    assert_eq!(fs.create_file("/", "keep", ""), Ok(()));
    assert_eq!(fs.rename_node("/", "ghost", "fresh"), Ok(()));
    assert_eq!(fs.list_directory("/"), Ok(vec![String::from("keep")]));
}

#[test]
fn rename_changes_the_name_in_place() {
    let mut fs = FileSystem::new();
    assert_eq!(fs.create_file("/", "before", "body"), Ok(()));
    assert_eq!(fs.create_file("/", "z", ""), Ok(()));
    assert_eq!(fs.rename_node("/", "before", "after"), Ok(()));
    assert_eq!(
        fs.list_directory("/"),
        Ok(vec![String::from("after"), String::from("z")])
    );
    assert_eq!(fs.read_file("/", "after"), Ok("body"));
}

#[test]
fn find_directory_mut_resolves_and_reports() {
    let mut fs = FileSystem::new();
    assert_eq!(fs.create_directory("/", "a"), Ok(()));
    assert!(fs.find_directory_mut("a").is_ok());
    assert_eq!(
        fs.find_directory_mut("zz").err(),
        Some(String::from("Directory 'zz' not found"))
    );
}
