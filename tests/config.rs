use re_queue::config::{Config, ConfigError};

#[test]
fn new_config_has_no_storages_and_no_active() {
    let config = Config::new();

    assert!(!config.has_storages());
    assert_eq!(config.get_active_storage(), None)
}

#[test]
fn add_storage_works() {
    let mut config = Config::new();

    assert!(config.add_storage("test").is_ok());
    assert_eq!(config.get_storage_list(), &["test".to_string()]);
}

#[test]
fn add_storage_duplicate_fails() {
    let mut config = Config::new();
    config.add_storage("test").unwrap();

    assert_eq!(
        config.add_storage("test"),
        Err(ConfigError::StorageAlreadyExists)
    );
}

#[test]
fn set_active_storage_requires_existing_storage() {
    let mut config = Config::new();
    assert_eq!(
        config.set_active_storage("test"),
        Err(ConfigError::StorageNotFound)
    );
}

#[test]
fn set_active_storage_works() {
    let mut config = Config::new();
    config.add_storage("test").unwrap();
    config.set_active_storage("test").unwrap();

    assert_eq!(config.get_active_storage(), Some("test".to_string()));
}

#[test]
fn set_storage_list_rejects_duplicates() {
    let mut config = Config::new();
    let result = config.set_storage_list(vec!["test".to_string(), "test".to_string()]);
    assert!(result.is_err());
}

#[test]
fn add_same_name_twice_then_missing_active_then_activate() {
    let mut config = Config::new();
    assert_eq!(config.add_storage("a"), Ok(()));
    assert_eq!(config.add_storage("a"), Err(ConfigError::StorageAlreadyExists));
    assert_eq!(config.set_active_storage("missing"), Err(ConfigError::StorageNotFound));
    assert_eq!(config.set_active_storage("a"), Ok(()));
    assert_eq!(config.get_active_storage(), Some("a".to_string()));
}

#[test]
fn set_storage_list_is_all_or_nothing() {
    let mut config = Config::new();
    config.add_storage("b").unwrap();
    let result = config.set_storage_list(vec!["a".to_string(), "b".to_string(), "c".to_string()]);
    assert_eq!(result, Err(ConfigError::StorageAlreadyExists));
    assert_eq!(config.get_storage_list(), &["b".to_string()]);

    assert_eq!(config.set_storage_list(vec!["a".to_string(), "c".to_string()]), Ok(()));
    assert_eq!(
        config.get_storage_list(),
        &["b".to_string(), "a".to_string(), "c".to_string()]
    );
}

#[test]
fn list_keeps_insertion_order() {
    let mut config = Config::new();
    config.add_storage("z").unwrap();
    config.add_storage("a").unwrap();
    config.add_storage("m").unwrap();
    assert_eq!(
        config.get_storage_list(),
        &["z".to_string(), "a".to_string(), "m".to_string()]
    );
    assert!(config.has_storages());
}

#[test]
fn create_storage_registers_and_activates() {
    let mut config = Config::new();
    assert_eq!(config.create_storage("q1"), Ok(()));
    assert_eq!(config.get_active_storage(), Some("q1".to_string()));
    assert_eq!(config.get_storage_list(), &["q1".to_string()]);
    assert_eq!(config.create_storage("q1"), Err(ConfigError::StorageAlreadyExists));
    assert_eq!(config.get_storage_list(), &["q1".to_string()]);
}
