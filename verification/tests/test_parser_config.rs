use std::collections::HashMap;

use argot_cli::errors::ArgotError;
use argot_cli::parser_config::ParserConfig;
use argot_cli::strmap::StrMap;
use argot_cli::types::{ConfigEntries, ConfigEntry, LabeledEntry};

fn labeled(option: &str, entry: ConfigEntry) -> LabeledEntry {
    LabeledEntry { option: option.to_string(), entry }
}

fn text_entry() -> ConfigEntry {
    ConfigEntry::Text { default: None }
}

fn alias_of(target: &str) -> ConfigEntry {
    ConfigEntry::Alias { target: target.to_string() }
}

fn parser_config() -> ParserConfig {
    let mut table = StrMap::new();
    table.insert("strict".to_string(), ConfigEntry::Flag);
    table.insert("output".to_string(), text_entry());
    table.insert("loglevel".to_string(), ConfigEntry::Count);
    table.insert("tasks".to_string(), ConfigEntry::List { sep: None });
    table.insert("u".to_string(), text_entry());
    table.insert("U".to_string(), alias_of("u"));
    table.insert("g".to_string(), text_entry());
    table.insert("G".to_string(), alias_of("g"));
    table.insert("user".to_string(), alias_of("u"));
    table.insert("group".to_string(), alias_of("g"));
    ParserConfig::new(ConfigEntries::Table(table)).unwrap()
}

#[test]
fn test_contains_key() {
    let config = parser_config();
    assert!(config.contains_key("strict"));
    assert!(!config.contains_key("quiet"));
}

#[test]
fn test_get() {
    let config = parser_config();
    let expected = Some(ConfigEntry::Text { default: None });
    assert_eq!(config.get("output"), expected.as_ref());
}

#[test]
fn test_get_key_value() {
    let config = parser_config();
    let expected = ("output", &ConfigEntry::Text { default: None });
    assert_eq!(config.get_key_value("output"), Some(expected));
}

#[test]
fn test_is_empty() {
    let config = parser_config();
    let empty_config = ParserConfig::new(ConfigEntries::Table(StrMap::new())).unwrap();
    assert!(!config.is_empty());
    assert!(empty_config.is_empty());
}

#[test]
fn test_iter() {
    let config = parser_config();

    let expected: HashMap<String, ConfigEntry> = HashMap::from([
        ("strict".to_string(), ConfigEntry::Flag),
        ("output".to_string(), ConfigEntry::Text { default: None }),
        ("loglevel".to_string(), ConfigEntry::Count),
        ("tasks".to_string(), ConfigEntry::List { sep: None }),
        ("u".to_string(), ConfigEntry::Text { default: None }),
        ("U".to_string(), ConfigEntry::Alias { target: "u".to_string() }),
        ("g".to_string(), ConfigEntry::Text { default: None }),
        ("G".to_string(), ConfigEntry::Alias { target: "g".to_string() }),
        ("user".to_string(), ConfigEntry::Alias { target: "u".to_string() }),
        ("group".to_string(), ConfigEntry::Alias { target: "g".to_string() }),
    ]);

    for (option, entry) in config.iter() {
        assert_eq!(Some(entry), expected.get(option));
    }
}

#[test]
fn test_keys() {
    let config = parser_config();

    for key in config.keys() {
        assert!(config.contains_key(key));
    }
}

#[test]
fn test_len() {
    let config = parser_config();

    assert_eq!(config.len(), 10);
}

#[test]
fn test_values() {
    let config = parser_config();
    let values: Vec<ConfigEntry> = Vec::from([
        ConfigEntry::Flag,
        ConfigEntry::Text { default: None },
        ConfigEntry::Count,
        ConfigEntry::List { sep: None },
        ConfigEntry::Text { default: None },
        ConfigEntry::Alias { target: "u".to_string() },
        ConfigEntry::Text { default: None },
        ConfigEntry::Alias { target: "g".to_string() },
        ConfigEntry::Alias { target: "u".to_string() },
        ConfigEntry::Alias { target: "g".to_string() },
    ]);

    for value in config.values() {
        assert!(values.contains(value));
    }
}

#[test]
fn return_error_on_missing_alias_target() {
    let config_result = ParserConfig::new(ConfigEntries::List(vec![
        labeled("tasks", ConfigEntry::List { sep: None }),
        labeled("T", alias_of("Tasks")),
    ]));
    let error = config_result.unwrap_err();
    let expected =
        ArgotError::AliasTargetNotFound { option: "T".to_string(), target: "Tasks".to_string() };

    assert_eq!(error, expected);
    assert_eq!(error.to_string(), expected.to_string());
}

#[test]
fn return_error_on_invalid_alias_target() {
    let config_result = ParserConfig::new(ConfigEntries::List(vec![
        labeled("tasks", ConfigEntry::List { sep: None }),
        labeled("Tasks", alias_of("tasks")),
        labeled("T", alias_of("Tasks")),
    ]));
    let error = config_result.unwrap_err();
    let expected =
        ArgotError::InvalidAliasTarget { option: "T".to_string(), target: "Tasks".to_string() };

    assert_eq!(error, expected);
    assert_eq!(error.to_string(), expected.to_string());
}

fn nine_entries() -> Vec<LabeledEntry> {
    vec![
        labeled("quiet", ConfigEntry::Flag),
        labeled("q", alias_of("quiet")),
        labeled("verbose", ConfigEntry::Count),
        labeled("v", alias_of("verbose")),
        labeled("dry-run", ConfigEntry::Flag),
        labeled("n", alias_of("dry-run")),
        labeled("j", ConfigEntry::Int { default: Some(0) }),
        labeled("browser", ConfigEntry::Text { default: None }),
        labeled("hints", ConfigEntry::List { sep: None }),
    ]
}

fn expected_nine() -> HashMap<String, ConfigEntry> {
    HashMap::from([
        ("quiet".to_string(), ConfigEntry::Flag),
        ("q".to_string(), ConfigEntry::Alias { target: "quiet".to_string() }),
        ("verbose".to_string(), ConfigEntry::Count),
        ("v".to_string(), ConfigEntry::Alias { target: "verbose".to_string() }),
        ("dry-run".to_string(), ConfigEntry::Flag),
        ("n".to_string(), ConfigEntry::Alias { target: "dry-run".to_string() }),
        ("j".to_string(), ConfigEntry::Int { default: Some(0) }),
        ("browser".to_string(), ConfigEntry::Text { default: None }),
        ("hints".to_string(), ConfigEntry::List { sep: None }),
    ])
}

fn config_as_map(config: &ParserConfig) -> HashMap<String, ConfigEntry> {
    config.iter().iter().map(|(k, v)| (k.clone(), v.clone())).collect()
}

#[test]
fn read_config_entries_macro() {
    let config = ParserConfig::new(ConfigEntries::List(nine_entries())).unwrap();
    assert_eq!(config_as_map(&config), expected_nine());
}

#[test]
fn mod_entries_macro() {
    let mut table = StrMap::new();
    for LabeledEntry { option, entry } in nine_entries() {
        table.insert(option, entry);
    }
    let config = ParserConfig::new(ConfigEntries::Table(table)).unwrap();
    assert_eq!(config_as_map(&config), expected_nine());
    assert_eq!(config.len(), 9);
}

#[test]
fn later_entry_for_an_option_replaces_earlier_one() {
    let config = ParserConfig::new(ConfigEntries::List(vec![
        labeled("a", alias_of("b")),
        labeled("b", ConfigEntry::Flag),
        labeled("a", ConfigEntry::Count),
    ]))
    .unwrap();
    assert_eq!(config.len(), 2);
    assert_eq!(config.get("a"), Some(&ConfigEntry::Count));
}

#[test]
fn first_bad_alias_in_entry_order_is_reported() {
    let error = ParserConfig::new(ConfigEntries::List(vec![
        labeled("x", alias_of("y")),
        labeled("y", alias_of("z")),
        labeled("w", alias_of("missing")),
    ]))
    .unwrap_err();
    assert_eq!(
        error,
        ArgotError::InvalidAliasTarget { option: "x".to_string(), target: "y".to_string() },
    );
}

#[test]
fn alias_targets_resolve_in_built_config() {
    let config = parser_config();
    for (option, entry) in config.iter() {
        if let ConfigEntry::Alias { target } = entry {
            let target_entry = config.get(target);
            assert!(target_entry.is_some(), "{} points nowhere", option);
            assert!(!matches!(target_entry, Some(ConfigEntry::Alias { .. })));
        }
    }
}

fn example_labeled() -> Vec<LabeledEntry> {
    vec![
        labeled("quiet", ConfigEntry::Flag),
        labeled("q", ConfigEntry::Alias { target: "quiet".to_string() }),
        labeled("j", ConfigEntry::Int { default: Some(0) }),
        labeled("hints", ConfigEntry::List { sep: None }),
    ]
}

#[test]
fn valid_table_builds_a_config_equal_to_it() {
    let mut table: StrMap<ConfigEntry> = StrMap::new();
    for e in example_labeled() {
        table.insert(e.option, e.entry);
    }
    let len = table.len();
    let pairs: HashMap<String, ConfigEntry> =
        table.iter().iter().map(|(k, v)| (k.clone(), v.clone())).collect();
    let config = ParserConfig::new(ConfigEntries::Table(table)).unwrap();
    assert_eq!(config.len(), len);
    assert_eq!(config_as_map(&config), pairs);
}

#[test]
fn list_and_table_of_the_same_entries_agree() {
    let from_list = ParserConfig::new(ConfigEntries::List(example_labeled())).unwrap();
    let mut table: StrMap<ConfigEntry> = StrMap::new();
    for e in example_labeled().into_iter().rev() {
        table.insert(e.option, e.entry);
    }
    let from_table = ParserConfig::new(ConfigEntries::Table(table)).unwrap();
    assert_eq!(from_list, from_table);

    let bad = vec![labeled("q", ConfigEntry::Alias { target: "nope".to_string() })];
    let mut bad_table: StrMap<ConfigEntry> = StrMap::new();
    bad_table.insert("q".to_string(), ConfigEntry::Alias { target: "nope".to_string() });
    assert!(ParserConfig::new(ConfigEntries::List(bad)).is_err());
    assert!(ParserConfig::new(ConfigEntries::Table(bad_table)).is_err());
}

#[test]
fn cloned_config_is_equal() {
    let config = ParserConfig::new(ConfigEntries::List(example_labeled())).unwrap();
    let copy = config.clone();
    assert_eq!(copy, config);
    let other = ParserConfig::new(ConfigEntries::List(vec![labeled("quiet", ConfigEntry::Count)])).unwrap();
    assert_ne!(other, config);
}
