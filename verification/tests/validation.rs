use hunters_mark::global::is_valid_mark_name;

#[test]
fn test_valid_mark_names() {
    assert!(is_valid_mark_name("myproject"));
    assert!(is_valid_mark_name("my-project"));
    assert!(is_valid_mark_name("my_project"));
    assert!(is_valid_mark_name("project123"));
    assert!(is_valid_mark_name("123project"));
}

#[test]
fn test_invalid_mark_names() {
    assert!(!is_valid_mark_name(""));
    assert!(!is_valid_mark_name("my project"));
    assert!(!is_valid_mark_name("my.project"));
    assert!(!is_valid_mark_name("my/project"));
    assert!(!is_valid_mark_name("my@project"));
}

#[test]
fn unicode_letters_are_valid_name_characters() {
    assert!(is_valid_mark_name("café"));
    assert!(is_valid_mark_name("проект"));
    assert!(!is_valid_mark_name("café!"));
}
