use codegraph::detect::{detect_language, file_stem, get_supported_extensions};
use codegraph::languages::detect_language_from_extension;
use codegraph::strutil::{extract_module_name_from_path, str_eq, str_starts_with};

#[test]
fn module_name_takes_last_component() {
    assert_eq!(extract_module_name_from_path("foo/bar/baz"), "baz");
    assert_eq!(extract_module_name_from_path("foo.bar.baz"), "baz");
    assert_eq!(extract_module_name_from_path("a::b::c"), "c");
    assert_eq!(extract_module_name_from_path("plain"), "plain");
}

#[test]
fn module_name_strips_quotes_and_noise() {
    assert_eq!(extract_module_name_from_path("\"./util/helpers\""), "helpers");
    assert_eq!(extract_module_name_from_path("'lodash'"), "lodash");
    assert_eq!(extract_module_name_from_path("`mod-name`"), "modname");
    assert_eq!(extract_module_name_from_path("snake_case"), "snake_case");
    assert_eq!(extract_module_name_from_path(""), "");
    assert_eq!(extract_module_name_from_path("trailing/"), "");
}

#[test]
fn str_helpers_compare_by_characters() {
    assert!(str_eq("abc", "abc"));
    assert!(!str_eq("abc", "abd"));
    assert!(!str_eq("abc", "abcd"));
    assert!(str_starts_with("Widget::draw", "Widget::"));
    assert!(!str_starts_with("Widget", "Widget::"));
    assert!(str_starts_with("anything", ""));
}

#[test]
fn languages_detected_from_extensions() {
    assert_eq!(detect_language_from_extension("rs").as_deref(), Some("rust"));
    assert_eq!(detect_language_from_extension("py").as_deref(), Some("python"));
    assert_eq!(detect_language_from_extension("jsx").as_deref(), Some("javascript"));
    assert_eq!(detect_language_from_extension("tsx").as_deref(), Some("tsx"));
    assert_eq!(detect_language_from_extension("cc").as_deref(), Some("cpp"));
    assert_eq!(detect_language_from_extension("h").as_deref(), Some("c"));
    assert_eq!(detect_language_from_extension("zig"), None);
}

#[test]
fn language_detected_from_paths() {
    assert_eq!(detect_language("src/main.rs").as_deref(), Some("rust"));
    assert_eq!(detect_language("a/b/app.test.js").as_deref(), Some("javascript"));
    assert_eq!(detect_language("Makefile"), None);
    assert_eq!(detect_language("dir.with.dots/readme"), None);
    assert_eq!(detect_language(".hidden"), None);
}

#[test]
fn file_stem_drops_only_the_extension() {
    assert_eq!(file_stem("lib/helpers.js"), "helpers");
    assert_eq!(file_stem("helpers"), "helpers");
    assert_eq!(file_stem("a/b/c.test.ts"), "c.test");
    assert_eq!(file_stem(".bashrc"), ".bashrc");
}

#[test]
fn extension_allow_lists_are_fixed() {
    let wide = get_supported_extensions();
    assert_eq!(wide.len(), 20);
    assert!(wide.contains(&"swift"));
    let parsed = codegraph::languages::get_supported_extensions();
    assert_eq!(parsed.len(), 16);
    assert!(parsed.contains(&"rs"));
    assert!(!parsed.contains(&"swift"));
}
