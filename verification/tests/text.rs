use language_server::text::{str_ends_with, str_equals};

#[test]
fn ends_with_compares_the_tail() {
    assert!(str_ends_with("schema.baml", ".baml"));
    assert!(str_ends_with(".baml", ".baml"));
    assert!(!str_ends_with("baml", ".baml"));
    assert!(!str_ends_with("schema.baml.txt", ".baml"));
    assert!(str_ends_with("anything", ""));
    assert!(str_ends_with("ünïcödé.baml", ".baml"));
}

#[test]
fn equals_compares_all_characters() {
    assert!(str_equals("utf-8", "utf-8"));
    assert!(!str_equals("utf-8", "utf-16"));
    assert!(!str_equals("utf-8", "UTF-8"));
    assert!(str_equals("", ""));
}
