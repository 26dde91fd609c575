use csrc::error::ConfigError;
use csrc::merge::{apply_override, apply_overrides};
use csrc::value::{ConfigValue, Mapping};
use csrc::yaml::parse_value;

fn path(items: &[&str]) -> Vec<String> {
    items.iter().map(|s| s.to_string()).collect()
}

fn overrides(items: &[(&[&str], &str)]) -> Vec<(Vec<String>, String)> {
    items.iter().map(|(p, v)| (path(p), v.to_string())).collect()
}

fn mapping(literal: &str) -> Mapping {
    match parse_value(literal) {
        Ok(ConfigValue::Mapping(map)) => map,
        other => panic!("not a mapping: {:?}", other),
    }
}

fn text(s: &str) -> ConfigValue {
    ConfigValue::String(s.to_string())
}

#[test]
fn a_single_key_is_set() {
    let mut map = Mapping::new();
    assert_eq!(apply_override(&mut map, &path(&["a"]), &text("v")), Ok(()));
    assert_eq!(map, mapping("{a: v}"));
}

#[test]
fn a_single_key_is_replaced_whole() {
    let mut map = mapping("{a: {x: 1, y: 2}, b: 3}");
    let value = ConfigValue::Mapping(mapping("{z: 9}"));
    assert_eq!(apply_override(&mut map, &path(&["a"]), &value), Ok(()));
    assert_eq!(map, mapping("{a: {z: 9}, b: 3}"));
}

#[test]
fn missing_keys_on_the_way_get_mappings() {
    let mut map = mapping("{k: 1}");
    assert_eq!(apply_override(&mut map, &path(&["a", "b", "c"]), &text("v")), Ok(()));
    assert_eq!(map, mapping("{k: 1, a: {b: {c: v}}}"));
}

#[test]
fn a_mapping_on_the_way_is_entered() {
    let mut map = mapping("{a: {b: {x: 1}, c: 2}}");
    assert_eq!(apply_override(&mut map, &path(&["a", "b", "y"]), &text("v")), Ok(()));
    assert_eq!(map, mapping("{a: {b: {x: 1, y: v}, c: 2}}"));
}

#[test]
fn the_empty_path_writes_nothing() {
    let mut map = mapping("{a: 1}");
    assert_eq!(apply_override(&mut map, &path(&[]), &text("v")), Ok(()));
    assert_eq!(map, mapping("{a: 1}"));
}

#[test]
fn a_scalar_on_the_way_is_a_conflict() {
    let mut map = mapping("{a: {b: 5}, c: 1}");
    let error = apply_override(&mut map, &path(&["a", "b", "c"]), &text("v")).unwrap_err();
    assert_eq!(
        error,
        ConfigError::Conflict {
            field: "a.b.c".to_string(),
            existing: ConfigValue::Number("5".to_string()),
        }
    );
    assert_eq!(map, mapping("{a: {b: 5}, c: 1}"));
    let mut top = mapping("{a: [1]}");
    let error = apply_override(&mut top, &path(&["a", "b"]), &text("v")).unwrap_err();
    assert!(matches!(error, ConfigError::Conflict { .. }));
    assert_eq!(top, mapping("{a: [1]}"));
}

#[test]
fn null_on_the_way_is_a_conflict() {
    let mut map = mapping("{a: ~}");
    let error = apply_override(&mut map, &path(&["a", "b"]), &text("v")).unwrap_err();
    assert_eq!(
        error,
        ConfigError::Conflict { field: "a.b".to_string(), existing: ConfigValue::Null }
    );
}

#[test]
fn overrides_are_applied_in_order() {
    let mut map = mapping("{a: {b: 1}}");
    let list = overrides(&[(&["a", "b"], "2"), (&["a", "c"], "x"), (&["a", "b"], "[3]")]);
    assert_eq!(apply_overrides(&mut map, &list), Ok(()));
    assert_eq!(map, mapping("{a: {b: [3], c: x}}"));
}

#[test]
fn no_overrides_change_nothing() {
    let mut map = mapping("{a: 1}");
    assert_eq!(apply_overrides(&mut map, &[]), Ok(()));
    assert_eq!(map, mapping("{a: 1}"));
}

#[test]
fn override_values_carry_their_kinds() {
    let mut map = Mapping::new();
    let list = overrides(&[
        (&["flag"], "true"),
        (&["count"], "42"),
        (&["name"], "foo"),
        (&["none"], "~"),
        (&["list"], "[a, b]"),
        (&["sub"], "{k: v}"),
    ]);
    assert_eq!(apply_overrides(&mut map, &list), Ok(()));
    assert_eq!(
        map,
        mapping("{flag: true, count: 42, name: foo, none: ~, list: [a, b], sub: {k: v}}")
    );
}

#[test]
fn a_broken_override_value_is_an_invalid_value() {
    let mut map = Mapping::new();
    let list = overrides(&[(&["a"], "1"), (&["cache", "enabled"], "[1, 2"), (&["b"], "2")]);
    let error = apply_overrides(&mut map, &list).unwrap_err();
    match error {
        ConfigError::InvalidValue { field, value, details } => {
            assert_eq!(field, "cache.enabled");
            assert_eq!(value, "[1, 2");
            assert!(details.starts_with("failed to parse override value: "));
            assert!(details.len() > "failed to parse override value: ".len());
        }
        other => panic!("unexpected error: {:?}", other),
    }
    assert_eq!(map, mapping("{a: 1}"));
}

#[test]
fn a_conflicting_override_stops_the_list() {
    let mut map = Mapping::new();
    let list = overrides(&[(&["a"], "1"), (&["a", "b"], "2"), (&["c"], "3")]);
    let error = apply_overrides(&mut map, &list).unwrap_err();
    assert_eq!(
        error,
        ConfigError::Conflict {
            field: "a.b".to_string(),
            existing: ConfigValue::Number("1".to_string()),
        }
    );
    assert_eq!(map, mapping("{a: 1}"));
}

#[test]
fn merging_a_list_twice_is_merging_it_once() {
    let list = overrides(&[
        (&["a", "x"], "1"),
        (&["a", "y"], "2"),
        (&["a"], "{y: 0}"),
        (&["a", "x"], "3"),
        (&["b", "c", "d"], "true"),
        (&["e"], "[1]"),
    ]);
    let mut once = mapping("{e: 0, a: {q: 1}}");
    assert_eq!(apply_overrides(&mut once, &list), Ok(()));
    let mut twice = once.clone();
    assert_eq!(apply_overrides(&mut twice, &list), Ok(()));
    assert_eq!(twice, once);
    assert_eq!(once, mapping("{e: [1], a: {y: 0, x: 3}, b: {c: {d: true}}}"));
}

#[test]
fn a_second_merge_may_run_into_what_the_first_left() {
    let list = overrides(&[(&["a", "b"], "1"), (&["a"], "2")]);
    let mut map = Mapping::new();
    assert_eq!(apply_overrides(&mut map, &list), Ok(()));
    assert_eq!(map, mapping("{a: 2}"));
    assert!(matches!(apply_overrides(&mut map, &list), Err(ConfigError::Conflict { .. })));
}

#[test]
fn an_override_leaves_its_siblings_alone() {
    let mut map = mapping("{a: {b: 1, c: {deep: [1, 2]}}, z: 0}");
    let before = map.clone();
    assert_eq!(apply_override(&mut map, &path(&["a", "b"]), &text("new")), Ok(()));
    let a = match map.get("a") {
        Some(ConfigValue::Mapping(a)) => a.clone(),
        other => panic!("unexpected: {:?}", other),
    };
    let old_a = match before.get("a") {
        Some(ConfigValue::Mapping(a)) => a.clone(),
        other => panic!("unexpected: {:?}", other),
    };
    assert_eq!(a.get("c"), old_a.get("c"));
    assert_eq!(a.get("b"), Some(&text("new")));
    assert_eq!(map.get("z"), before.get("z"));
}

#[test]
fn the_last_override_of_a_path_wins() {
    let mut map = mapping("{cache: {location: /file}}");
    let list = overrides(&[
        (&["cache", "location"], "/env"),
        (&["cache", "location"], "/first"),
        (&["cache", "enabled"], "true"),
        (&["cache", "location"], "/last"),
    ]);
    assert_eq!(apply_overrides(&mut map, &list), Ok(()));
    assert_eq!(map, mapping("{cache: {location: /last, enabled: true}}"));
}
