use argot_cli::strmap::StrMap;
use argot_cli::types::{ConfigEntries, ConfigEntry, LabeledEntry, OptionValue, ParseResult};

#[test]
fn detect_empty_entries() {
    let entries = ConfigEntries::Table(StrMap::new());
    assert!(entries.is_empty());
}

#[test]
fn add_int_option_value() {
    let value = OptionValue::Int(27);
    let expected = OptionValue::Int(43);
    assert_eq!(value + 16, expected);
}

#[test]
fn test_unwrap_text() {
    let value = OptionValue::Text("doc.txt".to_string());
    let expected = "doc.txt".to_string();
    assert_eq!(value.unwrap_text(), expected);
}

#[test]
fn test_unwrap_int() {
    let value = OptionValue::Int(14);
    let expected = 14;
    assert_eq!(value.unwrap_int(), expected);
}

#[test]
fn test_unwrap_list() {
    let value = OptionValue::List(vec!["build".to_string(), "test".to_string()]);
    let expected = vec!["build".to_string(), "test".to_string()];
    assert_eq!(value.unwrap_list(), expected);
}

#[test]
#[should_panic]
fn test_unwrap_text_on_flag_value() {
    let value = OptionValue::Flag;
    value.unwrap_text();
}

#[test]
#[should_panic]
fn test_unwrap_text_on_int_value() {
    let value = OptionValue::Int(14);
    value.unwrap_text();
}

#[test]
#[should_panic]
fn test_unwrap_text_on_list_value() {
    let value = OptionValue::List(vec!["build".to_string(), "test".to_string()]);
    value.unwrap_text();
}

#[test]
#[should_panic]
fn test_unwrap_int_on_flag_value() {
    let value = OptionValue::Flag;
    value.unwrap_int();
}

#[test]
#[should_panic]
fn test_unwrap_int_on_text_value() {
    let value = OptionValue::Text("doc.txt".to_string());
    value.unwrap_int();
}

#[test]
#[should_panic]
fn test_unwrap_int_on_list_value() {
    let value = OptionValue::List(vec!["build".to_string(), "test".to_string()]);
    value.unwrap_int();
}

#[test]
#[should_panic]
fn test_unwrap_list_on_flag_value() {
    let value = OptionValue::Flag;
    value.unwrap_list();
}

#[test]
#[should_panic]
fn test_unwrap_list_on_text_value() {
    let value = OptionValue::Text("doc.txt".to_string());
    value.unwrap_list();
}

#[test]
#[should_panic]
fn test_unwrap_list_on_int_value() {
    let value = OptionValue::Int(14);
    value.unwrap_list();
}

#[test]
fn deserialize_config_entry_count() {
}

#[test]
fn entries_count_for_table_and_list() {
    let mut table = StrMap::new();
    table.insert("quiet".to_string(), ConfigEntry::Flag);
    table.insert("q".to_string(), ConfigEntry::Alias { target: "quiet".to_string() });
    table.insert("quiet".to_string(), ConfigEntry::Count);
    let entries = ConfigEntries::Table(table);
    assert_eq!(entries.len(), 2);
    assert!(!entries.is_empty());

    let list = ConfigEntries::List(vec![
        LabeledEntry { option: "a".to_string(), entry: ConfigEntry::Flag },
        LabeledEntry { option: "a".to_string(), entry: ConfigEntry::Count },
    ]);
    assert_eq!(list.len(), 2);
}

#[test]
fn add_negative_amount() {
    assert_eq!(OptionValue::Int(-3) + (-4), OptionValue::Int(-7));
}

#[test]
fn parse_result_accessors() {
    let mut options = StrMap::new();
    options.insert("verbose".to_string(), OptionValue::Int(2));
    let mut parameters = StrMap::new();
    parameters.insert("CC".to_string(), "gcc".to_string());
    let result = ParseResult::new(options, parameters, vec!["a".to_string(), "b".to_string()]);
    assert_eq!(result.options().get("verbose"), Some(&OptionValue::Int(2)));
    assert_eq!(result.parameters().get("CC"), Some(&"gcc".to_string()));
    assert_eq!(result.operands(), ["a", "b"]);
}

#[test]
fn strmap_read_after_write() {
    let mut map: StrMap<String> = StrMap::new();
    assert!(map.is_empty());
    map.insert("k".to_string(), "one".to_string());
    map.insert("m".to_string(), "two".to_string());
    map.insert("k".to_string(), "three".to_string());
    assert_eq!(map.get("k"), Some(&"three".to_string()));
    assert_eq!(map.get_key_value("m"), Some(("m", &"two".to_string())));
    assert_eq!(map.get("z"), None);
    assert!(map.contains_key("m"));
    assert!(!map.contains_key("z"));
    assert_eq!(map.len(), 2);
    let keys: Vec<&String> = map.keys();
    assert_eq!(keys, vec!["k", "m"]);
    let values: Vec<&String> = map.values();
    assert_eq!(values, vec!["three", "two"]);
    let pairs = map.into_pairs();
    assert_eq!(pairs, vec![("k".to_string(), "three".to_string()), ("m".to_string(), "two".to_string())]);
}
