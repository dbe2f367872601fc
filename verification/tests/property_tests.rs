use node_duplicates::lookup::is_path_ignored;
use node_duplicates::parser::{
    add_manifest, find_duplicate_dependencies, is_new_version_higher, Aggregate, PackageValue,
};
use node_duplicates::version::{clean_version, get_versions};

#[test]
fn comparator_never_ranks_equal_versions_higher() {
    let entry = vec![PackageValue::new("a", "1.2.3", "p")];
    assert!(!is_new_version_higher("1.2.3", &entry));
    let entry = vec![PackageValue::new("a", "0.0.0", "p")];
    assert!(!is_new_version_higher("0.0.0", &entry));
    assert!(!is_new_version_higher("1.0.0", &vec![]));
}

#[test]
fn inserting_a_name_again_replaces_its_records() {
    let mut map = Aggregate::new();
    map.insert("a", vec![PackageValue::new("a", "1.0.0", "p1")]);
    map.insert(
        "a",
        vec![
            PackageValue::new("a", "2.0.0", "p2"),
            PackageValue::new("a", "3.0.0", "p3"),
        ],
    );
    assert_eq!(map.len(), 1);
    assert_eq!(
        map.get("a"),
        Some(&vec![
            PackageValue::new("a", "2.0.0", "p2"),
            PackageValue::new("a", "3.0.0", "p3"),
        ])
    );
}

#[test]
fn normalizing_is_idempotent() {
    let once = clean_version("^1.0.0");
    assert_eq!(once, "1.0.0");
    assert_eq!(clean_version(&once), once);
    let once = clean_version(">=2.1");
    assert_eq!(once, "2.1");
    assert_eq!(clean_version(&once), once);
    assert_eq!(clean_version(""), "");
}

#[test]
fn versions_read_numerically() {
    assert_eq!(get_versions("1.10.0"), (1, 10, 0));
    assert_eq!(get_versions("2"), (2, 0, 0));
    assert_eq!(get_versions("1..2"), (1, 0, 2));
    assert_eq!(get_versions(""), (0, 0, 0));
    assert_eq!(get_versions("1.2.3.4"), (1, 2, 3));
    assert_eq!(get_versions("99999999999.1"), (0, 1, 0));
    assert_eq!(get_versions("4294967295.4294967296"), (4294967295, 0, 0));
}

#[test]
fn decorated_strings_with_equal_normal_form_make_one_record() {
    let json1 = r#"{ "dependencies": { "mongoose": "^1.0.0" } }"#;
    let json2 = r#"{ "dependencies": { "mongoose": "1.0.0" } }"#;
    let mut map = Aggregate::new();
    add_manifest(&mut map, json1, "first").unwrap();
    add_manifest(&mut map, json2, "second").unwrap();

    assert_eq!(
        map.get("mongoose"),
        Some(&vec![PackageValue::new("mongoose", "1.0.0", "first")])
    );
}

#[test]
fn name_ignore_removes_group_with_three_versions() {
    let manifests = vec![
        ("a".to_string(), r#"{ "dependencies": { "mongoose": "1.0.0" } }"#.to_string()),
        ("b".to_string(), r#"{ "dependencies": { "mongoose": "2.0.0" } }"#.to_string()),
        ("c".to_string(), r#"{ "dependencies": { "mongoose": "3.0.0" } }"#.to_string()),
    ];
    let result = find_duplicate_dependencies(manifests, "mongoose\n").unwrap();
    assert_eq!(result.len(), 0);
}

#[test]
fn path_ignore_without_separator_is_inert() {
    let ignores = vec!["data".to_string(), "package".to_string()];
    assert!(!is_path_ignored("./src/data/package.json", &ignores));
}

#[test]
fn singleton_names_never_reach_the_report() {
    let manifests = vec![
        ("a".to_string(), r#"{ "dependencies": { "express": "4.0.0" } }"#.to_string()),
        ("b".to_string(), r#"{ "devDependencies": { "express": "^4.0.0" } }"#.to_string()),
    ];
    let result = find_duplicate_dependencies(manifests, "").unwrap();
    assert!(result.get("express").is_none());
    assert_eq!(result.len(), 0);
}

#[test]
fn end_to_end_numeric_ordering() {
    let manifests = vec![
        (
            "./a/package.json".to_string(),
            r#"{ "dependencies": { "mongoose": "^1.3.0" } }"#.to_string(),
        ),
        (
            "./b/package.json".to_string(),
            r#"{ "dependencies": { "mongoose": "1.10.0" } }"#.to_string(),
        ),
    ];
    let result = find_duplicate_dependencies(manifests, "").unwrap();

    assert_eq!(result.len(), 1);
    assert_eq!(result.name_at(0), "mongoose");
    assert_eq!(
        result.get("mongoose"),
        Some(&vec![
            PackageValue::new("mongoose", "1.10.0", "./b/package.json"),
            PackageValue::new("mongoose", "1.3.0", "./a/package.json"),
        ])
    );
}

#[test]
fn unparsable_manifest_aborts_with_its_path() {
    let manifests = vec![
        ("good".to_string(), r#"{ "dependencies": { "a": "1.0.0" } }"#.to_string()),
        ("bad".to_string(), "{ not json".to_string()),
    ];
    let err = find_duplicate_dependencies(manifests, "").unwrap_err();
    assert_eq!(err.path, "bad");
}

#[test]
fn non_object_and_non_string_values_contribute_nothing() {
    let json = r#"{ "dependencies": { "a": 5, "b": "1.0.0" }, "devDependencies": [1, 2] }"#;
    let mut map = Aggregate::new();
    add_manifest(&mut map, json, "").unwrap();
    assert_eq!(map.len(), 1);
    assert_eq!(map.get("b"), Some(&vec![PackageValue::new("b", "1.0.0", "")]));
}

#[test]
fn ignore_lines_are_trimmed() {
    let parsed = node_duplicates::parser::parse_ignores(" mongoose \n\texpress\t\r\n");
    assert_eq!(parsed, vec!["mongoose", "express"]);
}
