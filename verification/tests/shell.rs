use charizard::command::parse_and_execute_command;
use charizard::file_system::FileSystem;

#[test]
fn mkdir_then_touch_same_name() {
    let mut fs = FileSystem::new();
    assert_eq!(
        parse_and_execute_command("mkdir docs", &mut fs),
        Ok(String::from("Directory 'docs' created"))
    );
    // touch checks only sibling *files*, so the directory name is free
    assert_eq!(
        parse_and_execute_command("touch docs", &mut fs),
        Ok(String::from("File 'docs' created"))
    );
    assert_eq!(
        parse_and_execute_command("ls /", &mut fs),
        Ok(String::from("Contents of '/': [\"/docs\", \"docs\"]"))
    );
}

#[test]
fn touch_collision_is_swallowed() {
    let mut fs = FileSystem::new();
    assert_eq!(
        parse_and_execute_command("touch a first", &mut fs),
        Ok(String::from("File 'a' created"))
    );
    assert_eq!(
        parse_and_execute_command("touch a second", &mut fs),
        Ok(String::from("File 'a' created"))
    );
    assert_eq!(
        parse_and_execute_command("cat a", &mut fs),
        Ok(String::from("first"))
    );
}

#[test]
fn empty_line_is_no_command() {
    let mut fs = FileSystem::new();
    assert_eq!(
        parse_and_execute_command("", &mut fs),
        Err(String::from("No command entered"))
    );
    assert_eq!(
        parse_and_execute_command("   ", &mut fs),
        Err(String::from("No command entered"))
    );
}

#[test]
fn usage_lines() {
    let mut fs = FileSystem::new();
    assert_eq!(
        parse_and_execute_command("mkdir", &mut fs),
        Err(String::from("Usage: mkdir <path>"))
    );
    assert_eq!(
        parse_and_execute_command("touch", &mut fs),
        Err(String::from("Usage: touch <path>"))
    );
    assert_eq!(
        parse_and_execute_command("ls", &mut fs),
        Err(String::from("Usage: ls <path>"))
    );
    assert_eq!(
        parse_and_execute_command("cat", &mut fs),
        Err(String::from("Usage: cat <path>"))
    );
    assert_eq!(
        parse_and_execute_command("rm", &mut fs),
        Err(String::from("Usage: rm <path>"))
    );
    assert_eq!(
        parse_and_execute_command("rename old", &mut fs),
        Err(String::from("Usage: rename <path> <new_name>"))
    );
}

#[test]
fn unknown_command_names_the_token() {
    let mut fs = FileSystem::new();
    assert_eq!(
        parse_and_execute_command("frobnicate x", &mut fs),
        Err(String::from("Unknown command: frobnicate"))
    );
}

#[test]
fn touch_without_content_makes_an_empty_file() {
    let mut fs = FileSystem::new();
    assert_eq!(
        parse_and_execute_command("touch empty", &mut fs),
        Ok(String::from("File 'empty' created"))
    );
    assert_eq!(
        parse_and_execute_command("cat empty", &mut fs),
        Ok(String::from(""))
    );
}

#[test]
fn cat_missing_file() {
    let mut fs = FileSystem::new();
    assert_eq!(
        parse_and_execute_command("cat ghost", &mut fs),
        Err(String::from("File 'ghost' not found in '/'"))
    );
}

#[test]
fn rm_deletes_and_reports() {
    let mut fs = FileSystem::new();
    parse_and_execute_command("touch a x", &mut fs).unwrap();
    assert_eq!(
        parse_and_execute_command("rm a", &mut fs),
        Ok(String::from("Node 'a' deleted"))
    );
    assert_eq!(
        parse_and_execute_command("cat a", &mut fs),
        Err(String::from("File 'a' not found in '/'"))
    );
    assert_eq!(
        parse_and_execute_command("rm a", &mut fs),
        Err(String::from("Node 'a' not found in '/'"))
    );
}

#[test]
fn rename_through_the_shell() {
    let mut fs = FileSystem::new();
    parse_and_execute_command("touch a body", &mut fs).unwrap();
    assert_eq!(
        parse_and_execute_command("rename a b", &mut fs),
        Ok(String::from("Node 'a' renamed to 'b'"))
    );
    assert_eq!(
        parse_and_execute_command("cat b", &mut fs),
        Ok(String::from("body"))
    );
}

#[test]
fn ls_of_empty_root() {
    let mut fs = FileSystem::new();
    assert_eq!(
        parse_and_execute_command("ls /", &mut fs),
        Ok(String::from("Contents of '/': []"))
    );
}

#[test]
fn ls_missing_path() {
    let mut fs = FileSystem::new();
    assert_eq!(
        parse_and_execute_command("ls nope", &mut fs),
        Err(String::from("Directory 'nope' not found"))
    );
}

#[test]
fn extra_whitespace_is_ignored() {
    let mut fs = FileSystem::new();
    assert_eq!(
        parse_and_execute_command("  mkdir   docs  ", &mut fs),
        Ok(String::from("Directory 'docs' created"))
    );
}
