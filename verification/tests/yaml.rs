use csrc::value::{ConfigValue, Mapping};
use csrc::yaml::{key_from_node, parse_mapping, parse_value, value_from_node, Node};

fn number(s: &str) -> ConfigValue {
    ConfigValue::Number(s.to_string())
}

fn text(s: &str) -> ConfigValue {
    ConfigValue::String(s.to_string())
}

#[test]
fn true_is_a_boolean() {
    assert_eq!(parse_value("true"), Ok(ConfigValue::Bool(true)));
    assert_eq!(parse_value("false"), Ok(ConfigValue::Bool(false)));
}

#[test]
fn forty_two_is_a_number() {
    assert_eq!(parse_value("42"), Ok(number("42")));
    assert_eq!(parse_value("-7"), Ok(number("-7")));
    assert_eq!(parse_value("3.14"), Ok(number("3.14")));
}

#[test]
fn a_bare_word_is_a_string() {
    assert_eq!(parse_value("foo"), Ok(text("foo")));
    assert_eq!(parse_value("/tmp/c"), Ok(text("/tmp/c")));
    assert_eq!(parse_value("notabool"), Ok(text("notabool")));
}

#[test]
fn a_quoted_number_is_a_string() {
    assert_eq!(parse_value("\"42\""), Ok(text("42")));
    assert_eq!(parse_value("'true'"), Ok(text("true")));
}

#[test]
fn a_tilde_and_nothing_are_null() {
    assert_eq!(parse_value("~"), Ok(ConfigValue::Null));
    assert_eq!(parse_value("null"), Ok(ConfigValue::Null));
    assert_eq!(parse_value(""), Ok(ConfigValue::Null));
}

#[test]
fn brackets_make_a_sequence() {
    assert_eq!(
        parse_value("[1, a, true]"),
        Ok(ConfigValue::Sequence(vec![number("1"), text("a"), ConfigValue::Bool(true)]))
    );
    assert_eq!(parse_value("[]"), Ok(ConfigValue::Sequence(vec![])));
}

#[test]
fn braces_make_a_mapping_in_order() {
    let mut inner = Mapping::new();
    inner.insert("z".to_string(), number("1"));
    let mut expected = Mapping::new();
    expected.insert("b".to_string(), ConfigValue::Mapping(inner));
    expected.insert("a".to_string(), text("x"));
    assert_eq!(parse_value("{b: {z: 1}, a: x}"), Ok(ConfigValue::Mapping(expected)));
}

#[test]
fn a_broken_literal_is_an_error() {
    let error = parse_value("[1, 2").unwrap_err();
    assert!(!error.is_empty());
    assert!(parse_value("{a: 1").is_err());
}

#[test]
fn a_scalar_key_is_taken_by_its_text() {
    let mut expected = Mapping::new();
    expected.insert("1".to_string(), text("x"));
    assert_eq!(parse_value("{1: x}"), Ok(ConfigValue::Mapping(expected)));
    let mut expected = Mapping::new();
    expected.insert("true".to_string(), text("x"));
    expected.insert("null".to_string(), text("y"));
    expected.insert("2.5".to_string(), text("z"));
    assert_eq!(
        parse_value("[{true: x, ~: y, 2.5: z}]"),
        Ok(ConfigValue::Sequence(vec![ConfigValue::Mapping(expected)]))
    );
    let mut expected = Mapping::new();
    expected.insert("1".to_string(), text("b"));
    assert_eq!(parse_value("{1: a, '1': b}"), Ok(ConfigValue::Mapping(expected)));
}

#[test]
fn a_key_that_is_no_scalar_is_an_error() {
    assert_eq!(parse_value("{[a]: x}"), Err("mapping key is not a scalar".to_string()));
    assert_eq!(parse_value("[{{a: b}: x}]"), Err("mapping key is not a scalar".to_string()));
}

#[test]
fn the_key_of_a_document_is_its_text() {
    assert_eq!(key_from_node(&Node::String("a b".to_string())), Some("a b".to_string()));
    assert_eq!(key_from_node(&Node::Number("42".to_string())), Some("42".to_string()));
    assert_eq!(key_from_node(&Node::Bool(true)), Some("true".to_string()));
    assert_eq!(key_from_node(&Node::Bool(false)), Some("false".to_string()));
    assert_eq!(key_from_node(&Node::Null), Some("null".to_string()));
    let tagged = Node::Tagged("!t".to_string(), Box::new(Node::String("k".to_string())));
    assert_eq!(key_from_node(&tagged), Some("k".to_string()));
    assert_eq!(key_from_node(&Node::Sequence(vec![])), None);
    assert_eq!(key_from_node(&Node::Mapping(vec![])), None);
    let tagged = Node::Tagged("!t".to_string(), Box::new(Node::Sequence(vec![])));
    assert_eq!(key_from_node(&tagged), None);
}

#[test]
fn a_tag_is_dropped() {
    assert_eq!(parse_value("!thing 5"), Ok(number("5")));
    assert_eq!(parse_value("[!thing a]"), Ok(ConfigValue::Sequence(vec![text("a")])));
}

#[test]
fn a_document_becomes_the_value_it_stands_for() {
    let node = Node::Mapping(vec![
        (Node::String("a".to_string()), Node::Number("1".to_string())),
        (Node::String("b".to_string()), Node::Tagged("!t".to_string(), Box::new(Node::Null))),
        (Node::String("a".to_string()), Node::Bool(true)),
    ]);
    let mut expected = Mapping::new();
    expected.insert("a".to_string(), ConfigValue::Bool(true));
    expected.insert("b".to_string(), ConfigValue::Null);
    assert_eq!(value_from_node(&node), Some(ConfigValue::Mapping(expected)));
    let bad = Node::Sequence(vec![
        Node::Null,
        Node::Mapping(vec![(Node::Sequence(vec![]), Node::Null)]),
    ]);
    assert_eq!(value_from_node(&bad), None);
    let bad_value = Node::Mapping(vec![(
        Node::String("k".to_string()),
        Node::Mapping(vec![(Node::Mapping(vec![]), Node::Null)]),
    )]);
    assert_eq!(value_from_node(&bad_value), None);
    let plain = Node::Mapping(vec![
        (Node::Bool(true), Node::Null),
        (Node::Number("1".to_string()), Node::Bool(false)),
        (Node::String("true".to_string()), Node::Bool(true)),
    ]);
    let mut expected = Mapping::new();
    expected.insert("true".to_string(), ConfigValue::Bool(true));
    expected.insert("1".to_string(), ConfigValue::Bool(false));
    assert_eq!(value_from_node(&plain), Some(ConfigValue::Mapping(expected)));
}

#[test]
fn a_file_is_read_as_a_mapping() {
    let map = parse_mapping(b"sourceRoot: /repos\ncache:\n  enabled: true\n").unwrap();
    assert_eq!(map.len(), 2);
    assert_eq!(map.get("sourceRoot"), Some(&text("/repos")));
    let mut cache = Mapping::new();
    cache.insert("enabled".to_string(), ConfigValue::Bool(true));
    assert_eq!(map.get("cache"), Some(&ConfigValue::Mapping(cache)));
}

#[test]
fn an_empty_file_is_an_empty_mapping() {
    assert_eq!(parse_mapping(b""), Ok(Mapping::new()));
    assert_eq!(parse_mapping(b"# nothing here\n"), Ok(Mapping::new()));
}

#[test]
fn a_file_that_holds_no_mapping_is_an_error() {
    assert!(parse_mapping(b"- a\n- b\n").is_err());
    assert!(parse_mapping(b"just text").is_err());
    assert!(parse_mapping(b"a: [1").is_err());
    assert!(parse_mapping(&[0xff, 0xfe, 0x00]).is_err());
    assert_eq!(parse_mapping(b"[a]: x\n"), Err("mapping key is not a scalar".to_string()));
}

#[test]
fn a_file_with_a_key_that_is_no_string_is_read() {
    let map = parse_mapping(b"1: x\nsourceRoot: /repos\n").unwrap();
    assert_eq!(map.len(), 2);
    assert_eq!(map.get("1"), Some(&text("x")));
    assert_eq!(map.get("sourceRoot"), Some(&text("/repos")));
}
