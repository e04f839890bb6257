use expense_manager::BuildMode;
use expense_manager::config::ConfigManager;

fn open_fresh() -> ConfigManager {
    let (cm, init) = ConfigManager::new(
        None,
        "/tmp/expense-manager/config",
        "/data/expense.db",
        BuildMode::Development,
        0,
    )
    .expect("Failed to create config manager");
    assert!(init.is_some());
    cm
}

#[test]
fn test_config_manager() {
    let mut manager = open_fresh();

    manager.set("test", "key1", "value1").unwrap();
    assert_eq!(manager.get("test", "key1"), Some("value1".to_string()));

    manager.set_bool("test", "bool_key", true).unwrap();
    assert_eq!(manager.get_bool("test", "bool_key", false), true);

    manager.set_int("test", "int_key", 42).unwrap();
    assert_eq!(manager.get_int("test", "int_key", 0), 42);

    let db_path = manager.get_database_path();
    assert!(!db_path.is_empty());
}

#[test]
fn test_get_all() {
    let mut manager = open_fresh();
    manager.set("section1", "key1", "value1").unwrap();
    manager.set("section2", "key2", "value2").unwrap();

    let all = manager.get_all();
    assert!(all.iter().any(|s| s.name == "section1"));
    assert!(all.iter().any(|s| s.name == "section2"));
}

#[test]
fn set_then_get_returns_value_unchanged() {
    let mut cm = open_fresh();
    cm.set("a b", "key with spaces", "value = with [ odd ] text").unwrap();
    assert_eq!(
        cm.get("a b", "key with spaces"),
        Some("value = with [ odd ] text".to_string())
    );
    cm.set("a b", "key with spaces", "second").unwrap();
    assert_eq!(cm.get("a b", "key with spaces"), Some("second".to_string()));
}

#[test]
fn int_round_trip_preserves_value() {
    let mut cm = open_fresh();
    cm.set_int("nums", "neg", -9223372036854775808i64).unwrap();
    assert_eq!(cm.get_int("nums", "neg", 0), -9223372036854775808i64);
    cm.set_int("nums", "max", 9223372036854775807i64).unwrap();
    assert_eq!(cm.get_int("nums", "max", 0), 9223372036854775807i64);
    cm.set_int("nums", "zero", 0).unwrap();
    assert_eq!(cm.get_int("nums", "zero", 7), 0);
}

#[test]
fn bool_round_trip_preserves_value() {
    let mut cm = open_fresh();
    cm.set_bool("flags", "on", true).unwrap();
    cm.set_bool("flags", "off", false).unwrap();
    assert_eq!(cm.get_bool("flags", "on", false), true);
    assert_eq!(cm.get_bool("flags", "off", true), false);
    assert_eq!(cm.get("flags", "on"), Some("true".to_string()));
    assert_eq!(cm.get("flags", "off"), Some("false".to_string()));
}

#[test]
fn remove_then_get_is_absent_and_typed_defaults_apply() {
    let mut cm = open_fresh();
    cm.set("s", "k", "12").unwrap();
    assert_eq!(cm.get("s", "k"), Some("12".to_string()));
    cm.remove("s", "k").unwrap();
    assert_eq!(cm.get("s", "k"), None);
    assert_eq!(cm.get_int("s", "k", 99), 99);
    assert_eq!(cm.get_bool("s", "k", true), true);
}

#[test]
fn typed_getters_fall_back_on_garbage() {
    let mut cm = open_fresh();
    cm.set("s", "k", "not a number").unwrap();
    assert_eq!(cm.get_int("s", "k", -3), -3);
    assert_eq!(cm.get_bool("s", "k", false), false);
    cm.set("s", "k", "True").unwrap();
    assert_eq!(cm.get_bool("s", "k", false), false);
}

#[test]
fn fresh_store_writes_default_database_path() {
    let (cm, init) = ConfigManager::new(
        None,
        "/cfg/config",
        "/data/expense.db",
        BuildMode::Development,
        0,
    )
    .unwrap();
    let text = init.expect("a first launch must hand back file text");
    assert!(!text.is_empty());
    assert!(text.contains("/data/expense.db"));
    assert!(text.contains("[app]"));
    // The ephemeral port lives in memory only, never in the initial text.
    assert!(!text.contains("port"));
    assert_eq!(cm.get_database_path(), "/data/expense.db".to_string());
}

#[test]
fn debug_mode_port_is_exactly_8000() {
    let (cm, _) =
        ConfigManager::new(None, "/cfg/config", "/d.db", BuildMode::Development, 12345).unwrap();
    assert_eq!(cm.get_port().unwrap(), 8000);
}

#[test]
fn production_port_is_base_plus_entropy_offset() {
    let (a, _) =
        ConfigManager::new(None, "/cfg/config", "/d.db", BuildMode::Production, 0).unwrap();
    let (b, _) =
        ConfigManager::new(None, "/cfg/config", "/d.db", BuildMode::Production, 999).unwrap();
    let (c, _) =
        ConfigManager::new(None, "/cfg/config", "/d.db", BuildMode::Production, 1000).unwrap();
    assert_eq!(a.get_port().unwrap(), 8000);
    assert_eq!(b.get_port().unwrap(), 8999);
    assert_eq!(c.get_port().unwrap(), 8000);
    assert_ne!(a.get_port().unwrap(), b.get_port().unwrap());
}

#[test]
fn stored_port_is_respected_over_generation() {
    let (cm, init) = ConfigManager::new(
        Some("[app]\nport=9005\n"),
        "/cfg/config",
        "/d.db",
        BuildMode::Production,
        777,
    )
    .unwrap();
    assert!(init.is_none());
    assert_eq!(cm.get_port().unwrap(), 9005);
}

#[test]
fn set_port_stores_the_value() {
    let mut cm = open_fresh();
    cm.set_port(8443).unwrap();
    assert_eq!(cm.get_port().unwrap(), 8443);
    assert_eq!(cm.get("app", "port"), Some("8443".to_string()));
}

#[test]
fn out_of_range_port_is_folded_to_sixteen_bits() {
    let mut cm = open_fresh();
    cm.set_int("app", "port", 70000).unwrap();
    assert_eq!(cm.get_port().unwrap(), (70000 % 65536) as u16);
    cm.set_int("app", "port", -1).unwrap();
    assert_eq!(cm.get_port().unwrap(), 65535);
}

#[test]
fn save_then_open_reproduces_every_pair() {
    let mut cm = open_fresh();
    cm.set("alpha", "one", "1").unwrap();
    cm.set("alpha", "two", "a longer value with spaces").unwrap();
    cm.set("beta", "three", "").unwrap();
    cm.remove("alpha", "one").unwrap();
    let text = cm.save_text();

    let (reopened, init) =
        ConfigManager::new(Some(text.as_str()), "/cfg/config", "/d.db", BuildMode::Development, 0)
            .unwrap();
    assert!(init.is_none());
    assert_eq!(reopened.get("alpha", "one"), None);
    assert_eq!(
        reopened.get("alpha", "two"),
        Some("a longer value with spaces".to_string())
    );
    assert_eq!(reopened.get("beta", "three"), Some("".to_string()));
    assert_eq!(reopened.get_database_path(), cm.get_database_path());
}

#[test]
fn reload_replaces_state_and_rejects_bad_text() {
    let mut cm = open_fresh();
    cm.set("s", "k", "v").unwrap();
    cm.reload("[other]\nx=1\n").unwrap();
    assert_eq!(cm.get("s", "k"), None);
    assert_eq!(cm.get("other", "x"), Some("1".to_string()));

    let before = cm.save_text();
    assert!(cm.reload("key before any header\n").is_err());
    assert_eq!(cm.save_text(), before);
}

#[test]
fn remove_agrees_with_snapshot_on_duplicate_key_file() {
    // A file with a repeated key collapses at load (last value wins),
    // so a removal clears the key everywhere the store shows it.
    let (mut cm, _) = ConfigManager::new(
        Some("[s]\nk=1\nk=2\n"),
        "/cfg/config",
        "/d.db",
        BuildMode::Development,
        0,
    )
    .unwrap();
    assert_eq!(cm.get("s", "k"), Some("2".to_string()));
    cm.remove("s", "k").unwrap();
    assert_eq!(cm.get("s", "k"), None);
    let all = cm.get_all();
    let s_section = all.iter().find(|sec| sec.name == "s").expect("section stays");
    assert!(s_section.items.iter().all(|it| it.key != "k"));
}

#[test]
fn set_database_path_updates_and_restart_uses_same_port() {
    let mut cm = open_fresh();
    let port_before = cm.get_port().unwrap();
    cm.set_database_path("/elsewhere/data.db").unwrap();
    assert_eq!(cm.get_database_path(), "/elsewhere/data.db".to_string());
    assert_eq!(cm.get_port().unwrap(), port_before);
}
