use i18n_gen::error::GenError;
use i18n_gen::flatten::flatten_json;
use i18n_gen::index::{
    generate, get_translations_keys, merge_json_files, render_aggregate, DomainSource, Generated,
    LocaleSource,
};
use i18n_gen::json::{parse_object, parse_top_level, Json, Leaf};
use i18n_gen::merge::merge_objects;

fn pretty_json(entries: &[(String, Leaf)]) -> String {
    let mut map = serde_json::Map::new();
    for (k, l) in entries {
        let v = match l {
            Leaf::Text(s) => serde_json::Value::String(s.clone()),
            Leaf::Other(v) => v.clone(),
        };
        map.insert(k.clone(), v);
    }
    serde_json::to_string_pretty(&serde_json::Value::Object(map)).unwrap()
}

fn object(text: &str) -> Vec<(String, Json)> {
    parse_object(text).expect("a JSON object")
}

fn flat_text(text: &str) -> String {
    pretty_json(&flatten_json(&object(text)))
}

fn keys(flat: &[(String, Leaf)]) -> Vec<String> {
    flat.iter().map(|(k, _)| k.clone()).collect()
}

fn domain(name: &str, text: &str) -> DomainSource {
    DomainSource { name: name.to_string(), text: text.to_string() }
}

fn locale(name: &str, domains: Vec<DomainSource>) -> LocaleSource {
    LocaleSource { name: name.to_string(), domains }
}

fn constants(g: &Generated) -> String {
    match &g.constants {
        Ok(t) => t.clone(),
        Err(e) => panic!("constants failed: {:?}", e),
    }
}

fn run(locales: &Vec<LocaleSource>) -> Generated {
    match generate(locales) {
        Ok(g) => g,
        Err(e) => panic!("generation failed: {:?}", e),
    }
}

#[test]
fn flatten_nested_object() {
    let flat = flatten_json(&object(r#"{"auth":{"login":{"title":"Login","button":"Go"}},"home":"Home"}"#));
    assert_eq!(keys(&flat), vec!["auth.login.button".to_string(), "auth.login.title".to_string(), "home".to_string()]);
}

#[test]
fn flatten_already_flat_is_unchanged() {
    let text = r#"{"a":"x","b":1,"c":[1,{"d":2}],"e":null}"#;
    assert_eq!(flat_text(text), pretty_json(&parse_top_level(text).unwrap()));
    let flat = flatten_json(&object(text));
    assert_eq!(keys(&flat), vec!["a", "b", "c", "e"]);
}

#[test]
fn flatten_drops_empty_objects_and_keeps_arrays() {
    let flat = flatten_json(&object(r#"{"a":{},"b":{"c":{}},"d":[{"e":1}]}"#));
    assert_eq!(keys(&flat), vec!["d"]);
    assert_eq!(pretty_json(&flat), "{\n  \"d\": [\n    {\n      \"e\": 1\n    }\n  ]\n}");
}

#[test]
fn flatten_keeps_every_leaf_with_its_path() {
    let flat = flatten_json(&object(r#"{"x":{"y":{"z":"deep"},"w":true},"v":"top"}"#));
    assert_eq!(pretty_json(&flat), "{\n  \"v\": \"top\",\n  \"x.w\": true,\n  \"x.y.z\": \"deep\"\n}");
}

#[test]
fn merge_later_domain_wins() {
    let merged = merge_objects(vec![object(r#"{"a":{"x":1}}"#), object(r#"{"a":{"y":2}}"#)]);
    assert_eq!(merged.len(), 1);
    assert_eq!(pretty_json(&flatten_json(&merged)), "{\n  \"a.y\": 2\n}");
}

#[test]
fn merge_keeps_distinct_keys() {
    let l = locale("en", vec![domain("z", r#"{"b":"B"}"#), domain("y", r#"{"a":{"c":"C"}}"#)]);
    let (text, flat) = merge_json_files(&l).unwrap();
    assert_eq!(keys(&flat), vec!["a.c", "b"]);
    assert_eq!(text, "{\n  \"a.c\": \"C\",\n  \"b\": \"B\"\n}");
}

#[test]
fn merge_takes_domains_in_name_order() {
    let a = locale("en", vec![domain("b", r#"{"k":"from b"}"#), domain("a", r#"{"k":"from a"}"#)]);
    let b = locale("en", vec![domain("a", r#"{"k":"from a"}"#), domain("b", r#"{"k":"from b"}"#)]);
    let (ta, _) = merge_json_files(&a).unwrap();
    let (tb, _) = merge_json_files(&b).unwrap();
    assert_eq!(ta, tb);
    assert_eq!(ta, "{\n  \"k\": \"from b\"\n}");
}

#[test]
fn merge_reports_a_bad_domain() {
    let l = locale("en", vec![domain("good", r#"{"k":"v"}"#), domain("bad", "[1]")]);
    match merge_json_files(&l) {
        Err(GenError::Parse { locale, domain }) => {
            assert_eq!(locale, "en");
            assert_eq!(domain, "bad");
        }
        other => panic!("expected a parse error, got {:?}", other.err()),
    }
    let l = locale("en", vec![domain("broken", "{oops")]);
    assert!(matches!(merge_json_files(&l), Err(GenError::Parse { .. })));
}

#[test]
fn merge_dotted_key_meets_nested_path_in_key_order() {
    let l = locale("en", vec![domain("d1", r#"{"a.b":"1"}"#), domain("d2", r#"{"a":{"b":"2"}}"#)]);
    let (text, _) = merge_json_files(&l).unwrap();
    assert_eq!(text, "{\n  \"a.b\": \"1\"\n}");
}

#[test]
fn merged_object_is_in_key_order() {
    let merged = merge_objects(vec![object(r#"{"z":"1","m":"2"}"#), object(r#"{"b":"3","z":"4"}"#)]);
    let names: Vec<String> = merged.iter().map(|(k, _)| k.clone()).collect();
    assert_eq!(names, vec!["b", "m", "z"]);
}

#[test]
fn parse_rejects_non_objects() {
    assert!(parse_object("[1,2]").is_none());
    assert!(parse_object("\"text\"").is_none());
    assert!(parse_object("{not json").is_none());
    assert!(parse_top_level("").is_none());
    assert!(parse_object("{}").unwrap().is_empty());
}

#[test]
fn translations_keys_are_joined() {
    assert_eq!(get_translations_keys(&vec!["en".to_string(), "es".to_string()]), "en, es");
    assert_eq!(get_translations_keys(&vec!["en".to_string()]), "en");
    assert_eq!(get_translations_keys(&Vec::new()), "");
    let unsorted: Vec<String> = ["es", "en", "fr", "en"].iter().map(|x| x.to_string()).collect();
    assert_eq!(get_translations_keys(&unsorted), "en, es, fr");
}

#[test]
fn aggregate_module_text() {
    let text = render_aggregate(&vec!["en".to_string(), "es".to_string()]);
    assert_eq!(
        text,
        "import en from './en/_index.json';\nimport es from './es/_index.json';\n\nexport const translations = { en, es };\n"
    );
}

#[test]
fn generate_two_locales() {
    let locales = vec![
        locale("es", vec![domain("common", r#"{"greet":"Hola"}"#)]),
        locale("en", vec![domain("common", r#"{"greet":"Hi"}"#)]),
    ];
    let g = run(&locales);
    assert_eq!(g.indexes.len(), 2);
    assert_eq!(g.indexes[0].name, "en");
    assert_eq!(g.indexes[0].text, "{\n  \"greet\": \"Hi\"\n}");
    assert_eq!(g.indexes[1].name, "es");
    assert_eq!(g.indexes[1].text, "{\n  \"greet\": \"Hola\"\n}");
    assert!(g.aggregate.contains("export const translations = { en, es };"));
    assert_eq!(constants(&g), "export const I18N_TRANSLATIONS = {\n\tGREET: \"greet\",\n} as const;");
}

#[test]
fn generate_twice_gives_the_same_output() {
    let locales = vec![
        locale("en", vec![domain("home", r#"{"title":{"main":"Main"}}"#), domain("auth", r#"{"login-button":"Go"}"#)]),
        locale("fr", vec![domain("home", r#"{"title":{"main":"Principal"}}"#)]),
    ];
    let a = run(&locales);
    let b = run(&locales);
    assert_eq!(a.aggregate, b.aggregate);
    assert_eq!(constants(&a), constants(&b));
    assert_eq!(a.indexes.len(), b.indexes.len());
    for (x, y) in a.indexes.iter().zip(b.indexes.iter()) {
        assert_eq!(x.name, y.name);
        assert_eq!(x.text, y.text);
    }
    assert_eq!(
        constants(&a),
        "export const I18N_TRANSLATIONS = {\n\tLOGIN_BUTTON: \"login-button\",\n\tTITLE_MAIN: \"title.main\",\n} as const;"
    );
}

#[test]
fn generate_skips_locales_without_domains() {
    let locales = vec![
        locale("de", Vec::new()),
        locale("en", vec![domain("common", r#"{"greet":"Hi"}"#)]),
    ];
    let g = run(&locales);
    assert_eq!(g.indexes.len(), 1);
    assert_eq!(g.aggregate, "import en from './en/_index.json';\n\nexport const translations = { en };\n");
}

#[test]
fn generate_domains_in_name_order() {
    let locales = vec![locale(
        "en",
        vec![domain("zeta", r#"{"a":"from zeta"}"#), domain("alpha", r#"{"a":"from alpha"}"#)],
    )];
    let g = run(&locales);
    assert_eq!(g.indexes[0].text, "{\n  \"a\": \"from zeta\"\n}");
}

#[test]
fn generate_takes_the_first_non_empty_locale_as_reference() {
    let locales = vec![
        locale("aa", vec![domain("common", r#"{"empty":{}}"#)]),
        locale("bb", vec![domain("common", r#"{"k":"v"}"#)]),
    ];
    let g = run(&locales);
    assert_eq!(constants(&g), "export const I18N_TRANSLATIONS = {\n\tK: \"k\",\n} as const;");
}

#[test]
fn generate_reports_a_parse_error() {
    let locales = vec![locale("en", vec![domain("common", "{broken")])];
    match generate(&locales) {
        Err(GenError::Parse { locale, domain }) => {
            assert_eq!(locale, "en");
            assert_eq!(domain, "common");
        }
        other => panic!("expected a parse error, got {:?}", other.err()),
    }
    let locales = vec![locale("en", vec![domain("list", "[1]")])];
    assert!(matches!(generate(&locales), Err(GenError::Parse { .. })));
}

#[test]
fn generate_reports_an_identifier_collision() {
    let locales = vec![locale("en", vec![domain("common", r#"{"a":{"b":"x"},"a-b":"y"}"#)])];
    let g = run(&locales);
    assert_eq!(g.indexes.len(), 1);
    assert_eq!(g.indexes[0].text, "{\n  \"a-b\": \"y\",\n  \"a.b\": \"x\"\n}");
    assert!(g.aggregate.contains("export const translations = { en };"));
    match &g.constants {
        Err(GenError::IdentifierCollision { first, second }) => {
            assert_eq!(first, "a-b");
            assert_eq!(second, "a.b");
        }
        other => panic!("expected a collision, got {:?}", other),
    }
}
