use re_queue::config::Config;
use re_queue::config_store::{ConfigStore, ConfigStoreError};

#[test]
fn empty_config_text() {
    let config = Config::new();
    assert_eq!(
        ConfigStore::to_str(&config),
        "active_storage: \"\"\nstorage_list: []"
    );
}

#[test]
fn config_text_of_two_names() {
    let mut config = Config::new();
    config.add_storage("x").unwrap();
    config.add_storage("y").unwrap();
    config.set_active_storage("x").unwrap();
    assert_eq!(
        ConfigStore::to_str(&config),
        "active_storage: \"x\"\nstorage_list: [\"x\",\"y\"]"
    );
}

#[test]
fn registry_round_trip() {
    let mut config = Config::new();
    config.add_storage("x").unwrap();
    config.add_storage("y").unwrap();
    config.set_active_storage("x").unwrap();
    let text = ConfigStore::to_str(&config);
    let loaded = ConfigStore::from_str(&text).unwrap();
    assert_eq!(loaded.get_active_storage(), Some("x".to_string()));
    assert_eq!(loaded.get_storage_list(), &["x".to_string(), "y".to_string()]);
}

#[test]
fn empty_registry_round_trip() {
    let text = ConfigStore::to_str(&Config::new());
    let loaded = ConfigStore::from_str(&text).unwrap();
    assert_eq!(loaded.get_active_storage(), None);
    assert!(!loaded.has_storages());
}

#[test]
fn keys_in_either_order_with_blank_lines_and_spaces() {
    let text = "\n  storage_list: [ \"a\" , \"b\" ]  \r\n\n active_storage:   \"b\"\n";
    let loaded = ConfigStore::from_str(text).unwrap();
    assert_eq!(loaded.get_active_storage(), Some("b".to_string()));
    assert_eq!(loaded.get_storage_list(), &["a".to_string(), "b".to_string()]);
}

#[test]
fn multi_byte_names_are_kept() {
    let text = "active_storage: \"é\"\nstorage_list: [\"é\",\"日本\"]";
    let loaded = ConfigStore::from_str(text).unwrap();
    assert_eq!(loaded.get_active_storage(), Some("é".to_string()));
    assert_eq!(loaded.get_storage_list(), &["é".to_string(), "日本".to_string()]);
}

fn is_invalid(text: &str) -> bool {
    matches!(ConfigStore::from_str(text), Err(ConfigStoreError::InvalidFormat))
}

#[test]
fn one_line_is_invalid() {
    assert!(is_invalid("active_storage: \"\""));
}

#[test]
fn three_lines_are_invalid() {
    assert!(is_invalid("active_storage: \"\"\nstorage_list: []\nextra: 1"));
}

#[test]
fn unknown_key_is_invalid() {
    assert!(is_invalid("active_storage: \"\"\nstorages: []"));
}

#[test]
fn missing_colon_is_invalid() {
    assert!(is_invalid("active_storage \"\"\nstorage_list: []"));
}

#[test]
fn unbalanced_brackets_are_invalid() {
    assert!(is_invalid("active_storage: \"\"\nstorage_list: [\"a\""));
    assert!(is_invalid("active_storage: \"\"\nstorage_list: \"a\"]"));
    assert!(is_invalid("active_storage: \"\"\nstorage_list: ["));
}

#[test]
fn same_key_twice_is_invalid() {
    assert!(is_invalid("storage_list: []\nstorage_list: []"));
}

#[test]
fn duplicate_names_are_invalid() {
    assert!(is_invalid("active_storage: \"\"\nstorage_list: [\"a\",\"a\"]"));
}

#[test]
fn unregistered_active_name_is_invalid() {
    assert!(is_invalid("active_storage: \"z\"\nstorage_list: [\"a\"]"));
}

#[test]
fn names_with_inner_spaces_round_trip() {
    let mut config = Config::new();
    config.add_storage("my queue").unwrap();
    config.add_storage(" padded ").unwrap();
    config.set_active_storage(" padded ").unwrap();
    let loaded = ConfigStore::from_str(&ConfigStore::to_str(&config)).unwrap();
    assert_eq!(loaded.get_active_storage(), Some(" padded ".to_string()));
    assert_eq!(
        loaded.get_storage_list(),
        &["my queue".to_string(), " padded ".to_string()]
    );
}
