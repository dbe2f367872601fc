use node_duplicates::parser::{
    add_manifest, find_duplicate_dependencies, keep_bad_values, parse_ignores, Aggregate,
    PackageValue,
};

#[test]
fn it_should_build_hash_map() {
    let json = r#"{
      "dependencies": {
        "mongoose": "^1.0.0"
      }
    }"#;
    let mut map = Aggregate::new();
    add_manifest(&mut map, json, "").unwrap();

    assert_eq!(map.len(), 1);
    assert_eq!(
        map.get("mongoose"),
        Some(&vec![PackageValue::new("mongoose", "1.0.0", "")])
    );
}

#[test]
fn it_should_add_two_values() {
    let json1 = r#"{
      "dependencies": {
        "mongoose": "^1.0.0"
      }
    }"#;
    let json2 = r#"{
      "dependencies": {
        "mongoose": "2.0.0"
      }
    }"#;
    let mut map = Aggregate::new();
    add_manifest(&mut map, json1, "").unwrap();
    add_manifest(&mut map, json2, "").unwrap();

    assert_eq!(map.len(), 1);
    assert_eq!(
        map.get("mongoose"),
        Some(&vec![
            PackageValue::new("mongoose", "2.0.0", ""),
            PackageValue::new("mongoose", "1.0.0", ""),
        ])
    );
}

#[test]
fn it_should_call_all_together() {
    let json = r#"{
      "dependencies": {
        "mongoose": "^1.0.0"
      }
    }"#;
    let path = "./src/data/package.json".to_string();
    let result = find_duplicate_dependencies(vec![(path, json.to_string())], "").unwrap();

    assert_eq!(result.len(), 0);
}

#[test]
fn it_should_also_parse_dev_dependencies() {
    let json1 = r#"{
      "dependencies": {
        "mongoose": "^1.0.0"
      }
    }"#;
    let json2 = r#"{
      "devDependencies": {
        "mongoose": "2.0.0"
      }
    }"#;
    let mut map = Aggregate::new();
    add_manifest(&mut map, json1, "").unwrap();
    add_manifest(&mut map, json2, "").unwrap();

    assert_eq!(map.len(), 1);
    assert_eq!(
        map.get("mongoose"),
        Some(&vec![
            PackageValue::new("mongoose", "2.0.0", ""),
            PackageValue::new("mongoose", "1.0.0", ""),
        ])
    );
}

#[test]
fn it_should_return_struct_with_path() {
    let json = r#"{
      "dependencies": {
        "mongoose": "^1.0.0"
      }
    }"#;
    let path = "./src/data/package.json";
    let mut map = Aggregate::new();
    add_manifest(&mut map, json, path).unwrap();

    assert_eq!(map.len(), 1);
    assert_eq!(
        map.get("mongoose"),
        Some(&vec![PackageValue::new("mongoose", "1.0.0", path)])
    );
}

#[test]
fn it_should_sort_correctly() {
    let jsons = [
        r#"{ "dependencies": { "mongoose": "^1.0.0" } }"#,
        r#"{ "devDependencies": { "mongoose": "2.0.0" } }"#,
        r#"{ "devDependencies": { "mongoose": "2.1.0" } }"#,
        r#"{ "devDependencies": { "mongoose": "2.1.1" } }"#,
        r#"{ "devDependencies": { "mongoose": "2.0.1" } }"#,
    ];
    let mut map = Aggregate::new();
    for json in jsons.iter() {
        add_manifest(&mut map, json, "").unwrap();
    }

    assert_eq!(map.len(), 1);
    assert_eq!(
        map.get("mongoose"),
        Some(&vec![
            PackageValue::new("mongoose", "2.1.1", ""),
            PackageValue::new("mongoose", "2.1.0", ""),
            PackageValue::new("mongoose", "2.0.0", ""),
            PackageValue::new("mongoose", "1.0.0", ""),
            PackageValue::new("mongoose", "2.0.1", ""),
        ])
    );
}

#[test]
fn it_should_skip_same_versions() {
    let json1 = r#"{
      "dependencies": {
        "mongoose": "^1.0.0"
      }
    }"#;
    let json2 = r#"{
      "devDependencies": {
        "mongoose": "1.0.0"
      }
    }"#;
    let mut map = Aggregate::new();
    add_manifest(&mut map, json1, "").unwrap();
    add_manifest(&mut map, json2, "").unwrap();

    assert_eq!(map.len(), 1);
    assert_eq!(
        map.get("mongoose"),
        Some(&vec![PackageValue::new("mongoose", "1.0.0", "")])
    );
}

#[test]
fn it_should_correctly_sort_versions() {
    let json1 = r#"{
      "dependencies": {
        "mongoose": "^1.3.0"
      }
    }"#;
    let json2 = r#"{
      "devDependencies": {
        "mongoose": "1.10.0"
      }
    }"#;
    let mut map = Aggregate::new();
    add_manifest(&mut map, json1, "").unwrap();
    add_manifest(&mut map, json2, "").unwrap();

    assert_eq!(map.len(), 1);
    assert_eq!(
        map.get("mongoose"),
        Some(&vec![
            PackageValue::new("mongoose", "1.10.0", ""),
            PackageValue::new("mongoose", "1.3.0", ""),
        ])
    );
}

#[test]
fn it_should_parse_ignore() {
    let parsed = parse_ignores("mongoose\nexpress\n");
    assert_eq!(parsed, vec!["mongoose", "express"]);
}

#[test]
fn it_should_return_empty_ignore() {
    let parsed = parse_ignores("");
    assert!(parsed.is_empty());
}

#[test]
fn it_should_remove_valid_deps() {
    let mut map = Aggregate::new();
    map.insert(
        "mongoose",
        vec![
            PackageValue::new("mongoose", "2.0.0", "path/to/mongoose"),
            PackageValue::new("mongoose", "1.0.0", "path/to/mongoose"),
        ],
    );
    map.insert(
        "test",
        vec![PackageValue::new("test", "2.0.0", "path/to/mongoose")],
    );

    keep_bad_values(&mut map, vec![]);

    assert_eq!(map.len(), 1);
    assert_eq!(
        map.get("mongoose"),
        Some(&vec![
            PackageValue::new("mongoose", "2.0.0", "path/to/mongoose"),
            PackageValue::new("mongoose", "1.0.0", "path/to/mongoose"),
        ])
    );
    assert!(map.get("test").is_none());
}

#[test]
fn it_should_ignore() {
    let mut map = Aggregate::new();
    map.insert(
        "mongoose",
        vec![
            PackageValue::new("mongoose", "2.0.0", "path/to/mongoose"),
            PackageValue::new("mongoose", "1.0.0", "path/to/mongoose"),
        ],
    );

    keep_bad_values(&mut map, vec!["mongoose".to_string()]);

    assert_eq!(map.len(), 0);
}

#[test]
fn it_should_ignore_more_than_one_value() {
    let mut map = Aggregate::new();
    map.insert(
        "mongoose",
        vec![
            PackageValue::new("mongoose", "2.0.0", "path/to/mongoose"),
            PackageValue::new("mongoose1", "2.0.0", "path/to/mongoose"),
            PackageValue::new("mongoose1", "1.0.0", "path/to/mongoose"),
            PackageValue::new("mongoose", "1.0.0", "path/to/mongoose"),
        ],
    );

    keep_bad_values(
        &mut map,
        vec!["mongoose".to_string(), "mongoose1".to_string()],
    );

    assert_eq!(map.len(), 0);
}

#[test]
fn it_should_return_empty_vec_for_good_values() {
    let mut map = Aggregate::new();
    map.insert(
        "mongoose",
        vec![PackageValue::new("mongoose", "1.0.0", "")],
    );

    keep_bad_values(&mut map, vec![]);

    assert_eq!(map.len(), 0);
}
