use i18n_gen::json::{parse_top_level, Leaf};
use i18n_gen::propagate::{add_key_to_object, add_key_to_text, KeyUpdate};

fn s(x: &str) -> String {
    x.to_string()
}

#[test]
fn add_key_inserts_then_reports_exists() {
    let text = "{\n  \"greet\": \"Hi\"\n}";
    let first = match add_key_to_text(text, &s("newKey"), &s("Hello")) {
        Some(KeyUpdate::Inserted(t)) => t,
        other => panic!("expected an insertion, got {:?}", other),
    };
    assert_eq!(first, "{\n  \"greet\": \"Hi\",\n  \"newKey\": \"Hello\"\n}");
    assert!(matches!(add_key_to_text(&first, &s("newKey"), &s("Hello")), Some(KeyUpdate::Exists)));
}

#[test]
fn add_key_keeps_an_existing_string() {
    let text = r#"{"greet":"Hi"}"#;
    assert!(matches!(add_key_to_text(text, &s("greet"), &s("Other")), Some(KeyUpdate::Exists)));
}

#[test]
fn add_key_replaces_a_non_string_value() {
    let text = r#"{"greet":{"a":"b"},"n":1}"#;
    match add_key_to_text(text, &s("greet"), &s("Hello")) {
        Some(KeyUpdate::Inserted(t)) => assert_eq!(t, "{\n  \"greet\": \"Hello\",\n  \"n\": 1\n}"),
        other => panic!("expected an insertion, got {:?}", other),
    }
}

#[test]
fn add_key_rejects_invalid_files() {
    assert!(add_key_to_text("{oops", &s("k"), &s("v")).is_none());
    assert!(add_key_to_text("[]", &s("k"), &s("v")).is_none());
}

#[test]
fn add_key_to_object_twice_changes_nothing_more() {
    let mut entries = parse_top_level(r#"{"a":"x"}"#).unwrap();
    assert!(add_key_to_object(&mut entries, &s("b"), &s("y")));
    assert_eq!(entries.len(), 2);
    assert!(!add_key_to_object(&mut entries, &s("b"), &s("y")));
    assert_eq!(entries.len(), 2);
    match &entries[1] {
        (k, Leaf::Text(v)) => {
            assert_eq!(k, "b");
            assert_eq!(v, "y");
        }
        other => panic!("unexpected entry {:?}", other),
    }
}
