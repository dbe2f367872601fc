use node_duplicates::lookup::{is_node_modules_path, is_path_ignored};

#[test]
fn it_should_return_true_for_node_modules() {
    assert!(is_node_modules_path("some/path/node_modules"));
}

#[test]
fn it_should_return_false_for_not_node_modules() {
    assert!(!is_node_modules_path("some/path/no_node_modules"));
}

#[test]
fn it_should_detect_nested_node_modules() {
    assert!(is_node_modules_path("a/node_modules/b/package.json"));
    assert!(is_node_modules_path("node_modules"));
    assert!(!is_node_modules_path("a/node_modulesx/b"));
    assert!(!is_node_modules_path(""));
}

#[test]
fn it_should_ignore_path_with_separator_fragment() {
    let ignores = vec!["/src/data".to_string()];
    assert!(is_path_ignored("./src/data/package.json", &ignores));
    assert!(!is_path_ignored("./lib/package.json", &ignores));
}

#[test]
fn it_should_not_ignore_path_without_separator() {
    let ignores = vec!["src".to_string()];
    assert!(!is_path_ignored("./src/data/package.json", &ignores));
}
