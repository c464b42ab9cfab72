use i18n_gen::setting;
use i18n_gen::utils::{find_project_root, get_project_lib};

#[test]
fn project_lib_is_src_lib() {
    assert_eq!(setting::get_project_lib(), "src/lib");
}

#[test]
fn project_lib_under_a_root() {
    assert_eq!(get_project_lib("/home/app"), "/home/app/src/lib");
    assert_eq!(get_project_lib("/home/app/"), "/home/app/src/lib");
}

#[test]
fn project_root_is_the_nearest_marked_directory() {
    let candidates = vec![
        ("/a/b/c".to_string(), false),
        ("/a/b".to_string(), true),
        ("/a".to_string(), true),
    ];
    assert_eq!(find_project_root(&candidates), Some("/a/b".to_string()));
    let none = vec![("/a".to_string(), false)];
    assert_eq!(find_project_root(&none), None);
    assert_eq!(find_project_root(&Vec::new()), None);
}

#[test]
fn domain_files_are_json_files_but_the_index() {
    assert_eq!(setting::domain_name_of("common.json"), Some("common".to_string()));
    assert_eq!(setting::domain_name_of("auth.login.json"), Some("auth.login".to_string()));
    assert_eq!(setting::domain_name_of("_index.json"), None);
    assert_eq!(setting::domain_name_of("notes.txt"), None);
    assert_eq!(setting::domain_name_of("json"), None);
    assert_eq!(setting::domain_name_of(".json"), Some(String::new()));
}
