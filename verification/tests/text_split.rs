use charizard::text::{split_path, split_words, str_eq};

#[test]
fn path_splitting_collapses_slashes() {
    assert_eq!(split_path(""), Vec::<String>::new());
    assert_eq!(split_path("/"), Vec::<String>::new());
    assert_eq!(split_path("///"), Vec::<String>::new());
    assert_eq!(split_path("a/b"), vec![String::from("a"), String::from("b")]);
    assert_eq!(
        split_path("//a///b/"),
        vec![String::from("a"), String::from("b")]
    );
}

#[test]
fn word_splitting_ignores_extra_blanks() {
    assert_eq!(
        split_words("  touch   a\tb  "),
        vec![String::from("touch"), String::from("a"), String::from("b")]
    );
    assert_eq!(split_words("   "), Vec::<String>::new());
}

#[test]
fn string_equality_by_characters() {
    assert!(str_eq("mkdir", "mkdir"));
    assert!(!str_eq("mkdir", "mkdif"));
    assert!(!str_eq("mkdir", "mkdir "));
    assert!(str_eq("", ""));
}
