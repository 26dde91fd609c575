use csrc::conf::{
    bind_config, config_file_candidates, join_path, load_config_from_file, read_step,
    CacheConfig, CacheLocation, Config, Field, FileStep, ReadOutcome, SourceRoot,
};
use csrc::error::{ConfigError, Kind};
use csrc::value::{ConfigValue, Mapping};
use csrc::yaml::parse_value;

fn mapping(literal: &str) -> Mapping {
    match parse_value(literal) {
        Ok(ConfigValue::Mapping(map)) => map,
        other => panic!("not a mapping: {:?}", other),
    }
}

fn config(root: &str, enabled: bool, location: &str) -> Config {
    Config {
        source_root: SourceRoot(root.to_string()),
        cache: CacheConfig { enabled, location: CacheLocation(location.to_string()) },
    }
}

#[test]
fn paths_are_joined_with_one_slash() {
    assert_eq!(join_path("/x", "csrc"), "/x/csrc");
    assert_eq!(join_path("/x/", "csrc"), "/x/csrc");
    assert_eq!(join_path("", "csrc"), "csrc");
    assert_eq!(join_path("/", ".csrc.yaml"), "/.csrc.yaml");
    assert_eq!(join_path("rel", "a/b"), "rel/a/b");
}

#[test]
fn the_defaults_are_as_documented() {
    assert_eq!(SourceRoot::default(), SourceRoot("~".to_string()));
    assert_eq!(CacheLocation::default_in(None), CacheLocation("~/.cache/csrc".to_string()));
    assert_eq!(
        CacheLocation::default_in(Some("/var/cache")),
        CacheLocation("/var/cache/csrc".to_string())
    );
    assert_eq!(CacheLocation::default_in(Some("")), CacheLocation("csrc".to_string()));
    assert_eq!(Config::default_in(None), config("~", false, "~/.cache/csrc"));
    assert_eq!(Config::default_in(Some("/c/")), config("~", false, "/c/csrc"));
}

#[test]
fn the_candidates_come_in_order() {
    assert_eq!(
        config_file_candidates(Some("/xdg"), Some("/home/me")),
        vec![
            "/xdg/csrc/config.yaml".to_string(),
            "/xdg/csrc.yaml".to_string(),
            "/home/me/.config/csrc/config.yaml".to_string(),
            "/home/me/.config/csrc.yaml".to_string(),
            "/home/me/.csrc.yaml".to_string(),
        ]
    );
    assert_eq!(
        config_file_candidates(None, Some("/home/me/")),
        vec![
            "/home/me/.config/csrc/config.yaml".to_string(),
            "/home/me/.config/csrc.yaml".to_string(),
            "/home/me/.csrc.yaml".to_string(),
        ]
    );
    assert_eq!(
        config_file_candidates(Some("/xdg"), None),
        vec!["/xdg/csrc/config.yaml".to_string(), "/xdg/csrc.yaml".to_string()]
    );
    assert_eq!(config_file_candidates(None, None), Vec::<String>::new());
}

#[test]
fn the_first_file_that_is_there_counts() {
    assert_eq!(read_step(ReadOutcome::Missing), FileStep::TryNext);
    assert_eq!(read_step(ReadOutcome::Found(vec![1, 2])), FileStep::Use(vec![1, 2]));
    assert_eq!(
        read_step(ReadOutcome::Failed("denied".to_string())),
        FileStep::Fail(ConfigError::ReadError("denied".to_string()))
    );
}

#[test]
fn no_file_is_an_empty_mapping() {
    assert_eq!(load_config_from_file(None), Ok(Mapping::new()));
}

#[test]
fn a_file_gives_its_mapping() {
    assert_eq!(
        load_config_from_file(Some(b"sourceRoot: /repos\n")),
        Ok(mapping("{sourceRoot: /repos}"))
    );
}

#[test]
fn a_broken_file_is_a_parse_error() {
    let error = load_config_from_file(Some(b"sourceRoot: [1")).unwrap_err();
    match &error {
        ConfigError::ParseError(cause) => assert!(!cause.is_empty()),
        other => panic!("unexpected error: {:?}", other),
    }
    assert!(error.message().starts_with("failed to parse config file: "));
    assert_eq!(
        load_config_from_file(Some(b"- a")).map_err(|e| matches!(e, ConfigError::ParseError(_))),
        Err(true)
    );
}

#[test]
fn an_empty_mapping_binds_to_the_defaults() {
    assert_eq!(bind_config(&Mapping::new(), None), Ok(config("~", false, "~/.cache/csrc")));
    assert_eq!(bind_config(&Mapping::new(), Some("/c")), Ok(config("~", false, "/c/csrc")));
}

#[test]
fn every_field_is_taken_from_its_key() {
    let map = mapping("{cache: {location: /l, enabled: true}, sourceRoot: /r}");
    assert_eq!(bind_config(&map, Some("/c")), Ok(config("/r", true, "/l")));
    let part = mapping("{cache: {enabled: true}}");
    assert_eq!(bind_config(&part, Some("/c")), Ok(config("~", true, "/c/csrc")));
}

#[test]
fn unknown_keys_are_passed_over() {
    let map = mapping("{other: [1, 2], cache: {more: {x: 1}, enabled: true}, source_root: 5}");
    assert_eq!(bind_config(&map, None), Ok(config("~", true, "~/.cache/csrc")));
}

#[test]
fn a_null_cache_is_all_defaults() {
    let map = mapping("{cache: ~, sourceRoot: /r}");
    assert_eq!(bind_config(&map, None), Ok(config("/r", false, "~/.cache/csrc")));
    assert_eq!(bind_config(&mapping("{cache: {}}"), None), Ok(config("~", false, "~/.cache/csrc")));
}

#[test]
fn a_value_of_the_wrong_kind_is_named_with_its_field() {
    assert_eq!(
        bind_config(&mapping("{sourceRoot: 42}"), None),
        Err((Field::SourceRoot, ConfigValue::Number("42".to_string())))
    );
    assert_eq!(
        bind_config(&mapping("{sourceRoot: ~}"), None),
        Err((Field::SourceRoot, ConfigValue::Null))
    );
    assert_eq!(
        bind_config(&mapping("{cache: yes}"), None),
        Err((Field::Cache, ConfigValue::String("yes".to_string())))
    );
    assert_eq!(
        bind_config(&mapping("{cache: [1]}"), None),
        Err((Field::Cache, parse_value("[1]").unwrap()))
    );
    assert_eq!(
        bind_config(&mapping("{cache: {enabled: notabool}}"), None),
        Err((Field::CacheEnabled, ConfigValue::String("notabool".to_string())))
    );
    assert_eq!(
        bind_config(&mapping("{cache: {location: {a: 1}}}"), None),
        Err((Field::CacheLocation, parse_value("{a: 1}").unwrap()))
    );
    assert_eq!(
        bind_config(&mapping("{cache: {enabled: ~}}"), None),
        Err((Field::CacheEnabled, ConfigValue::Null))
    );
}

#[test]
fn the_first_wrong_field_in_the_order_of_the_entries_is_named() {
    assert_eq!(
        bind_config(&mapping("{sourceRoot: 1, cache: 2}"), None).unwrap_err().0,
        Field::SourceRoot
    );
    assert_eq!(
        bind_config(&mapping("{cache: 2, sourceRoot: 1}"), None).unwrap_err().0,
        Field::Cache
    );
    assert_eq!(
        bind_config(&mapping("{cache: {location: 1, enabled: 2}, sourceRoot: 1}"), None)
            .unwrap_err()
            .0,
        Field::CacheLocation
    );
    assert_eq!(
        bind_config(&mapping("{cache: {enabled: 2, location: 1}}"), None).unwrap_err().0,
        Field::CacheEnabled
    );
}

#[test]
fn fields_know_their_names_paths_and_kinds() {
    assert_eq!(Field::SourceRoot.name(), "sourceRoot");
    assert_eq!(Field::Cache.name(), "cache");
    assert_eq!(Field::CacheEnabled.name(), "cache.enabled");
    assert_eq!(Field::CacheLocation.name(), "cache.location");
    assert_eq!(Field::SourceRoot.path(), vec!["sourceRoot".to_string()]);
    assert_eq!(Field::Cache.path(), vec!["cache".to_string()]);
    assert_eq!(Field::CacheEnabled.path(), vec!["cache".to_string(), "enabled".to_string()]);
    assert_eq!(Field::CacheLocation.path(), vec!["cache".to_string(), "location".to_string()]);
    assert_eq!(Field::SourceRoot.kind(), Kind::String);
    assert_eq!(Field::Cache.kind(), Kind::Mapping);
    assert_eq!(Field::CacheEnabled.kind(), Kind::Bool);
    assert_eq!(Field::CacheLocation.kind(), Kind::String);
}
