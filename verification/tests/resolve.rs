use csrc::conf::{load_config, CacheConfig, CacheLocation, Config, SourceRoot};
use csrc::error::{ConfigError, Kind};
use csrc::value::{ConfigValue, Mapping};

fn pairs(items: &[(&str, &str)]) -> Vec<(String, String)> {
    items.iter().map(|(k, v)| (k.to_string(), v.to_string())).collect()
}

fn resolve(
    file: Option<&str>,
    env: &[(&str, &str)],
    cache_home: Option<&str>,
    overrides: &[(&str, &str)],
) -> Result<Config, ConfigError> {
    load_config(file.map(|f| f.as_bytes()), &pairs(env), cache_home, &pairs(overrides))
}

fn config(root: &str, enabled: bool, location: &str) -> Config {
    Config {
        source_root: SourceRoot(root.to_string()),
        cache: CacheConfig { enabled, location: CacheLocation(location.to_string()) },
    }
}

#[test]
fn all_three_sources_are_merged() {
    let config = resolve(
        Some("sourceRoot: /repos\n"),
        &[("CSRC__CACHE__ENABLED", "true"), ("HOME", "/home/me")],
        None,
        &[("cache.location", "/tmp/c")],
    )
    .unwrap();
    assert_eq!(config.source_root.0, "/repos");
    assert!(config.cache.enabled);
    assert_eq!(config.cache.location.0, "/tmp/c");
}

#[test]
fn no_source_gives_the_defaults() {
    assert_eq!(resolve(None, &[], None, &[]), Ok(config("~", false, "~/.cache/csrc")));
    assert_eq!(resolve(None, &[], Some("/var/cache"), &[]), Ok(config("~", false, "/var/cache/csrc")));
    assert_eq!(resolve(Some(""), &[("PATH", "/bin")], None, &[]), Ok(config("~", false, "~/.cache/csrc")));
}

#[test]
fn an_override_of_the_wrong_kind_is_an_invalid_value() {
    let error = resolve(None, &[], None, &[("cache.enabled", "notabool")]).unwrap_err();
    assert_eq!(
        error,
        ConfigError::InvalidValue {
            field: "cache.enabled".to_string(),
            value: "notabool".to_string(),
            details: "found a string, expected a boolean".to_string(),
        }
    );
    assert_eq!(
        error.message(),
        "invalid value for field 'cache.enabled': 'notabool' - found a string, expected a boolean"
    );
}

#[test]
fn the_command_line_wins_over_the_environment_and_the_file() {
    let file = "sourceRoot: /file\ncache:\n  enabled: false\n  location: /file\n";
    let env = [("CSRC__SOURCE_ROOT", "/env"), ("CSRC__CACHE__LOCATION", "/env")];
    assert_eq!(
        resolve(Some(file), &env, None, &[("sourceRoot", "/cli")]),
        Ok(config("/cli", false, "/env"))
    );
    assert_eq!(resolve(Some(file), &env, None, &[]), Ok(config("/env", false, "/env")));
    assert_eq!(resolve(Some(file), &[], None, &[]), Ok(config("/file", false, "/file")));
    assert_eq!(
        resolve(Some(file), &env, None, &[("cache.enabled", "true"), ("cache.enabled", "false"), ("cache.enabled", "true")]),
        Ok(config("/env", true, "/env"))
    );
}

#[test]
fn a_wrong_kind_in_the_file_is_a_schema_error() {
    let error = resolve(Some("cache:\n  enabled: 3\n"), &[], None, &[]).unwrap_err();
    assert_eq!(
        error,
        ConfigError::SchemaError {
            field: "cache.enabled".to_string(),
            found: ConfigValue::Number("3".to_string()),
            expected: Kind::Bool,
        }
    );
    assert_eq!(
        error.message(),
        "invalid type for field 'cache.enabled': found a number, expected a boolean"
    );
}

#[test]
fn a_scalar_of_the_wrong_kind_from_the_environment_is_an_invalid_value() {
    let error = resolve(None, &[("CSRC__CACHE__ENABLED", "5")], None, &[]).unwrap_err();
    assert_eq!(
        error,
        ConfigError::InvalidValue {
            field: "cache.enabled".to_string(),
            value: "5".to_string(),
            details: "found a number, expected a boolean".to_string(),
        }
    );
    let error = resolve(None, &[], None, &[("sourceRoot", "true")]).unwrap_err();
    assert_eq!(
        error,
        ConfigError::InvalidValue {
            field: "sourceRoot".to_string(),
            value: "true".to_string(),
            details: "found a boolean, expected a string".to_string(),
        }
    );
}

#[test]
fn a_sequence_from_the_environment_is_a_schema_error() {
    let error = resolve(None, &[("CSRC__SOURCE_ROOT", "[a]")], None, &[]).unwrap_err();
    assert_eq!(
        error,
        ConfigError::SchemaError {
            field: "sourceRoot".to_string(),
            found: ConfigValue::Sequence(vec![ConfigValue::String("a".to_string())]),
            expected: Kind::String,
        }
    );
}

#[test]
fn a_mapping_for_a_scalar_field_is_a_schema_error() {
    let error = resolve(None, &[], None, &[("sourceRoot", "{a: 1}")]).unwrap_err();
    let mut found = Mapping::new();
    found.insert("a".to_string(), ConfigValue::Number("1".to_string()));
    assert_eq!(
        error,
        ConfigError::SchemaError {
            field: "sourceRoot".to_string(),
            found: ConfigValue::Mapping(found),
            expected: Kind::String,
        }
    );
    assert_eq!(
        error.message(),
        "invalid type for field 'sourceRoot': found a mapping, expected a string"
    );
    let error = resolve(None, &[], None, &[("cache.enabled", "{}")]).unwrap_err();
    assert_eq!(
        error,
        ConfigError::SchemaError {
            field: "cache.enabled".to_string(),
            found: ConfigValue::Mapping(Mapping::new()),
            expected: Kind::Bool,
        }
    );
    let error = resolve(Some("sourceRoot: {a: 1}\n"), &[], None, &[]).unwrap_err();
    assert!(matches!(error, ConfigError::SchemaError { .. }));
}

#[test]
fn a_scalar_for_the_cache_is_a_schema_error() {
    let expected = ConfigError::SchemaError {
        field: "cache".to_string(),
        found: ConfigValue::Number("5".to_string()),
        expected: Kind::Mapping,
    };
    assert_eq!(resolve(None, &[], None, &[("cache", "5")]).unwrap_err(), expected);
    assert_eq!(resolve(None, &[("CSRC__CACHE", "5")], None, &[]).unwrap_err(), expected);
    assert_eq!(resolve(Some("cache: 5\n"), &[], None, &[]).unwrap_err(), expected);
    let error = resolve(None, &[], None, &[("cache", "[1]")]).unwrap_err();
    assert!(matches!(error, ConfigError::SchemaError { .. }));
}

#[test]
fn a_later_override_of_the_right_kind_mends_an_earlier_one() {
    assert_eq!(
        resolve(None, &[("CSRC__CACHE__ENABLED", "notabool")], None, &[("cache.enabled", "true")]),
        Ok(config("~", true, "~/.cache/csrc"))
    );
}

#[test]
fn a_broken_file_stops_the_resolution() {
    let error = resolve(Some("a: [1"), &[], None, &[("sourceRoot", "/x")]).unwrap_err();
    assert!(matches!(error, ConfigError::ParseError(_)));
}

#[test]
fn a_broken_override_stops_the_resolution() {
    let error = resolve(None, &[], None, &[("sourceRoot", "{a")]).unwrap_err();
    match error {
        ConfigError::InvalidValue { field, value, details } => {
            assert_eq!(field, "sourceRoot");
            assert_eq!(value, "{a");
            assert!(details.starts_with("failed to parse override value: "));
        }
        other => panic!("unexpected error: {:?}", other),
    }
}

#[test]
fn an_override_through_a_scalar_is_a_conflict() {
    let error = resolve(Some("cache: 5\n"), &[], None, &[("cache.enabled", "true")]).unwrap_err();
    assert_eq!(
        error,
        ConfigError::Conflict {
            field: "cache.enabled".to_string(),
            existing: ConfigValue::Number("5".to_string()),
        }
    );
}

#[test]
fn unknown_settings_do_no_harm() {
    assert_eq!(
        resolve(Some("future: {x: 1}\n"), &[("CSRC__OTHER__THING", "1")], None, &[("more", "[1]")]),
        Ok(config("~", false, "~/.cache/csrc"))
    );
    assert_eq!(
        resolve(Some("1: x\ntrue: {2: y}\n"), &[], None, &[("more", "{3: z}")]),
        Ok(config("~", false, "~/.cache/csrc"))
    );
}

#[test]
fn a_wrong_kind_from_an_override_above_the_field_is_a_schema_error() {
    let expected = ConfigError::SchemaError {
        field: "cache.enabled".to_string(),
        found: ConfigValue::Number("5".to_string()),
        expected: Kind::Bool,
    };
    let error =
        resolve(None, &[], None, &[("cache.enabled", "true"), ("cache", "{enabled: 5}")])
            .unwrap_err();
    assert_eq!(error, expected);
    let error =
        resolve(None, &[], None, &[("cache.enabled", "5"), ("cache", "{enabled: 5}")])
            .unwrap_err();
    assert_eq!(error, expected);
    let error =
        resolve(None, &[("CSRC__CACHE__ENABLED", "5")], None, &[("cache", "{enabled: 5}")])
            .unwrap_err();
    assert_eq!(error, expected);
}

#[test]
fn the_last_override_of_a_field_is_the_one_that_is_named() {
    let error = resolve(
        None,
        &[("CSRC__CACHE__LOCATION", "1")],
        None,
        &[("cache.location", "/ok"), ("cache.location", "2")],
    )
    .unwrap_err();
    assert_eq!(
        error,
        ConfigError::InvalidValue {
            field: "cache.location".to_string(),
            value: "2".to_string(),
            details: "found a number, expected a string".to_string(),
        }
    );
    let error = resolve(
        None,
        &[("CSRC__CACHE__LOCATION", "1")],
        None,
        &[("cache.location", "/ok"), ("cache.location", "[2]")],
    )
    .unwrap_err();
    assert_eq!(
        error,
        ConfigError::SchemaError {
            field: "cache.location".to_string(),
            found: ConfigValue::Sequence(vec![ConfigValue::Number("2".to_string())]),
            expected: Kind::String,
        }
    );
}
