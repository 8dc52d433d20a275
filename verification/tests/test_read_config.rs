use std::collections::HashMap;

use argot_cli::read_config::{ConfigFileError, JsonValue, parse_entries_field, parse_value};
use argot_cli::strmap::StrMap;
use argot_cli::types::ConfigEntry;

fn s(text: &str) -> JsonValue {
    JsonValue::String(text.to_string())
}

fn obj(fields: Vec<(&str, JsonValue)>) -> JsonValue {
    JsonValue::Object(fields.into_iter().map(|(k, v)| (k.to_string(), v)).collect())
}

fn as_map(m: &StrMap<ConfigEntry>) -> HashMap<String, ConfigEntry> {
    m.iter().iter().map(|(k, v)| (k.clone(), v.clone())).collect()
}

fn expected_entries() -> HashMap<String, ConfigEntry> {
    HashMap::from([
        ("quiet".to_string(), ConfigEntry::Flag),
        ("q".to_string(), ConfigEntry::Alias { target: "quiet".to_string() }),
        ("verbose".to_string(), ConfigEntry::Count),
        ("j".to_string(), ConfigEntry::Int { default: Some(0) }),
        ("browser".to_string(), ConfigEntry::Text { default: None }),
        ("hints".to_string(), ConfigEntry::List { sep: Some(":".to_string()) }),
    ])
}

#[test]
fn read_object_document() {
    let doc = obj(vec![
        ("quiet", obj(vec![("type", s("flag"))])),
        ("q", obj(vec![("type", s("alias")), ("target", s("quiet"))])),
        ("verbose", obj(vec![("type", s("count"))])),
        ("j", obj(vec![("type", s("int")), ("default", JsonValue::Number(Some(0)))])),
        ("browser", obj(vec![("type", s("text"))])),
        ("hints", obj(vec![("type", s("list")), ("sep", s(":"))])),
    ]);
    let map = parse_value(&doc).unwrap();
    assert_eq!(as_map(&map), expected_entries());
}

#[test]
fn read_array_document() {
    let doc = JsonValue::Array(vec![
        obj(vec![("option", s("quiet")), ("type", s("flag"))]),
        obj(vec![("option", s("q")), ("type", s("alias")), ("target", s("quiet"))]),
        obj(vec![("option", s("verbose")), ("type", s("count"))]),
        obj(vec![("option", s("j")), ("type", s("int")), ("default", JsonValue::Number(Some(0)))]),
        obj(vec![("option", s("browser")), ("type", s("text"))]),
        obj(vec![("option", s("hints")), ("type", s("list")), ("sep", s(":"))]),
    ]);
    let map = parse_value(&doc).unwrap();
    assert_eq!(as_map(&map), expected_entries());
}

#[test]
fn non_integer_default_reads_as_none() {
    let doc = obj(vec![("j", obj(vec![("type", s("int")), ("default", JsonValue::Number(None))]))]);
    let map = parse_value(&doc).unwrap();
    assert_eq!(map.get("j"), Some(&ConfigEntry::Int { default: None }));
}

#[test]
fn reject_unexpected_structures() {
    let bad = [
        JsonValue::Null,
        JsonValue::Bool(true),
        s("flag"),
        obj(vec![("x", s("flag"))]),
        obj(vec![("x", obj(vec![]))]),
        obj(vec![("x", obj(vec![("type", s("number"))]))]),
        obj(vec![("x", obj(vec![("type", s("text")), ("default", JsonValue::Number(Some(1)))]))]),
        obj(vec![("x", obj(vec![("type", s("int")), ("default", s("1"))]))]),
        obj(vec![("x", obj(vec![("type", s("alias"))]))]),
        obj(vec![("x", obj(vec![("type", s("list")), ("sep", JsonValue::Bool(false))]))]),
        JsonValue::Array(vec![obj(vec![("type", s("flag"))])]),
        JsonValue::Array(vec![s("quiet")]),
    ];
    for doc in bad.iter() {
        assert_eq!(parse_value(doc).unwrap_err(), ConfigFileError::UnexpectedStructure, "{:?}", doc);
    }
    assert_eq!(
        ConfigFileError::UnexpectedStructure.to_string(),
        "configuration file has an unexpected structure",
    );
}

#[test]
fn read_entries_field() {
    let doc = obj(vec![("entries", obj(vec![("quiet", obj(vec![("type", s("flag"))]))]))]);
    let map = parse_entries_field(&doc).unwrap();
    assert_eq!(map.get("quiet"), Some(&ConfigEntry::Flag));

    let missing = obj(vec![("other", obj(vec![]))]);
    assert_eq!(parse_entries_field(&missing).unwrap_err(), ConfigFileError::MissingEntries);
    assert_eq!(ConfigFileError::MissingEntries.to_string(), "'entries' key not found");
}

#[test]
fn later_entry_replaces_earlier_in_array() {
    let doc = JsonValue::Array(vec![
        obj(vec![("option", s("a")), ("type", s("flag"))]),
        obj(vec![("option", s("a")), ("type", s("count"))]),
    ]);
    let map = parse_value(&doc).unwrap();
    assert_eq!(map.len(), 1);
    assert_eq!(map.get("a"), Some(&ConfigEntry::Count));
}

fn seven_entries() -> HashMap<String, ConfigEntry> {
    HashMap::from([
        ("quiet".to_string(), ConfigEntry::Flag),
        ("q".to_string(), ConfigEntry::Alias { target: "quiet".to_string() }),
        ("verbose".to_string(), ConfigEntry::Count),
        ("v".to_string(), ConfigEntry::Alias { target: "verbose".to_string() }),
        ("dry-run".to_string(), ConfigEntry::Flag),
        ("n".to_string(), ConfigEntry::Alias { target: "dry-run".to_string() }),
        ("j".to_string(), ConfigEntry::Int { default: Some(0) }),
    ])
}

fn nine_entries() -> HashMap<String, ConfigEntry> {
    let mut m = seven_entries();
    m.insert("browser".to_string(), ConfigEntry::Text { default: None });
    m.insert("hints".to_string(), ConfigEntry::List { sep: None });
    m
}

/// The option entries of the example configuration, as `(option, description)` pairs.
fn example_fields(with_text_and_list: bool) -> Vec<(&'static str, JsonValue)> {
    let mut fields = vec![
        ("quiet", obj(vec![("type", s("flag"))])),
        ("q", obj(vec![("type", s("alias")), ("target", s("quiet"))])),
        ("verbose", obj(vec![("type", s("count"))])),
        ("v", obj(vec![("type", s("alias")), ("target", s("verbose"))])),
        ("dry-run", obj(vec![("type", s("flag"))])),
        ("n", obj(vec![("type", s("alias")), ("target", s("dry-run"))])),
        ("j", obj(vec![("type", s("int")), ("default", JsonValue::Number(Some(0)))])),
    ];
    if with_text_and_list {
        fields.push(("browser", obj(vec![("type", s("text"))])));
        fields.push(("hints", obj(vec![("type", s("list"))])));
    }
    fields
}

/// The same entries as a list, each naming its option.
fn example_items(with_text_and_list: bool) -> JsonValue {
    JsonValue::Array(
        example_fields(with_text_and_list)
            .into_iter()
            .map(|(option, entry)| match entry {
                JsonValue::Object(mut fields) => {
                    fields.insert(0, ("option".to_string(), s(option)));
                    JsonValue::Object(fields)
                },
                other => other,
            })
            .collect(),
    )
}

#[test]
fn read_json_object() {
    let map = parse_value(&obj(example_fields(true))).unwrap();
    assert_eq!(as_map(&map), nine_entries());
}

#[test]
fn read_json_array() {
    let map = parse_value(&example_items(false)).unwrap();
    assert_eq!(as_map(&map), seven_entries());
}

#[test]
fn read_toml_table() {
    let doc = obj(vec![("entries", obj(example_fields(true)))]);
    let map = parse_entries_field(&doc).unwrap();
    assert_eq!(as_map(&map), nine_entries());
}

#[test]
fn read_toml_array() {
    let doc = obj(vec![("entries", example_items(false))]);
    let map = parse_entries_field(&doc).unwrap();
    assert_eq!(as_map(&map), seven_entries());
}
