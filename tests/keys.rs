use i18n_gen::error::GenError;
use i18n_gen::flatten::flatten_json;
use i18n_gen::json::parse_object;
use i18n_gen::keys::{constant_name, generate_constants, identifier_from_upper, render_constants};
use i18n_gen::order::{sorted_unique, str_less};

#[test]
fn identifier_of_a_dotted_dashed_path() {
    assert_eq!(constant_name("auth.login-button"), "AUTH_LOGIN_BUTTON");
}

#[test]
fn identifier_uppercases_letters() {
    assert_eq!(constant_name("greet"), "GREET");
    assert_eq!(constant_name("straße"), "STRASSE");
}

#[test]
fn identifier_from_upper_replaces_separators_only() {
    assert_eq!(identifier_from_upper("A.B-C_D"), "A_B_C_D");
    assert_eq!(identifier_from_upper("abc"), "abc");
    assert_eq!(identifier_from_upper(""), "");
}

#[test]
fn colliding_identifiers_are_an_error() {
    let flat = flatten_json(&parse_object(r#"{"a":{"b":"1"},"a-b":"2"}"#).unwrap());
    match generate_constants(&flat) {
        Err(GenError::IdentifierCollision { first, second }) => {
            assert_eq!(first, "a-b");
            assert_eq!(second, "a.b");
        }
        other => panic!("expected a collision, got {:?}", other),
    }
}

#[test]
fn constants_are_sorted_and_unique() {
    let flat = flatten_json(&parse_object(r#"{"b":"1","a":{"c":"2","b":"3"}}"#).unwrap());
    let text = generate_constants(&flat).unwrap();
    assert_eq!(
        text,
        "export const I18N_TRANSLATIONS = {\n\tA_B: \"a.b\",\n\tA_C: \"a.c\",\n\tB: \"b\",\n} as const;"
    );
}

#[test]
fn constants_of_an_empty_object() {
    assert_eq!(generate_constants(&Vec::new()).unwrap(), "export const I18N_TRANSLATIONS = {\n} as const;");
}

#[test]
fn render_constants_keeps_given_order() {
    let text = render_constants(&vec!["z".to_string(), "a.b".to_string()]);
    assert_eq!(text, "export const I18N_TRANSLATIONS = {\n\tZ: \"z\",\n\tA_B: \"a.b\",\n} as const;");
}

#[test]
fn sorted_unique_sorts_and_dedups() {
    let v: Vec<String> = ["b", "a", "b", "ab", "", "a"].iter().map(|s| s.to_string()).collect();
    assert_eq!(sorted_unique(&v), vec!["", "a", "ab", "b"]);
    assert!(sorted_unique(&Vec::new()).is_empty());
}

#[test]
fn string_order_by_code_points() {
    assert!(str_less("a", "b"));
    assert!(str_less("a", "ab"));
    assert!(!str_less("ab", "a"));
    assert!(!str_less("a", "a"));
    assert!(str_less("a-b", "a.b"));
    assert!(str_less("Z", "a"));
    assert!(str_less("z", "é"));
}
