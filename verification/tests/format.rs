use expense_manager::ini::{Item, Section, parse_ini, to_ini_text};
use expense_manager::num::{bool_to_string, i64_to_string, parse_bool, parse_i64, u64_to_string};
use expense_manager::paths::{Platform, get_config_path, get_default_db_path, get_logs_dir};

#[test]
fn test_config_paths() {
    let config_path = get_config_path(Platform::Linux, "/home/user/.config");
    assert!(config_path.contains("expense-manager"));

    let db_path = get_default_db_path(Platform::Linux, "/home/user/.local/share");
    assert!(db_path.contains("expense.db"));
}

#[test]
fn platform_paths_are_exact() {
    assert_eq!(
        get_config_path(Platform::Linux, "/home/u/.config"),
        "/home/u/.config/expense-manager/config".to_string()
    );
    assert_eq!(
        get_config_path(Platform::MacOs, "/Users/u"),
        "/Users/u/Library/Application Support/com.ngocphat.expense-manager/config".to_string()
    );
    assert_eq!(
        get_config_path(Platform::Windows, "C:\\Users\\u\\AppData\\Roaming"),
        "C:\\Users\\u\\AppData\\Roaming\\com.ngocphat.expense-manager\\config.ini".to_string()
    );
    assert_eq!(
        get_default_db_path(Platform::MacOs, "/Users/u"),
        "/Users/u/Library/Application Support/com.ngocphat.expense-manager/expense.db".to_string()
    );
    assert_eq!(
        get_logs_dir(Platform::Linux, "/home/u/.local/share"),
        "/home/u/.local/share/expense-manager/logs".to_string()
    );
    assert_eq!(
        get_logs_dir(Platform::MacOs, "/Users/u"),
        "/Users/u/Library/Logs/com.ngocphat.expense-manager".to_string()
    );
}

#[test]
fn serializer_emits_headers_and_pairs() {
    let sections = vec![
        Section {
            name: "app".to_string(),
            items: vec![
                Item { key: "database_path".to_string(), value: Some("/d.db".to_string()) },
                Item { key: "cleared".to_string(), value: None },
            ],
        },
        Section { name: "other".to_string(), items: vec![] },
    ];
    let text = to_ini_text(&sections);
    assert_eq!(text, "[app]\ndatabase_path=/d.db\ncleared\n[other]\n");
}

#[test]
fn parser_round_trips_serialized_text() {
    let sections = vec![Section {
        name: "s".to_string(),
        items: vec![
            Item { key: "k".to_string(), value: Some("v=with=equals".to_string()) },
            Item { key: "empty".to_string(), value: Some("".to_string()) },
            Item { key: "gone".to_string(), value: None },
        ],
    }];
    let text = to_ini_text(&sections);
    let parsed = parse_ini(&text).expect("serialized text must parse");
    assert_eq!(parsed.len(), 1);
    assert_eq!(parsed[0].name, "s");
    assert_eq!(parsed[0].items.len(), 3);
    assert_eq!(parsed[0].items[0].key, "k");
    assert_eq!(parsed[0].items[0].value, Some("v=with=equals".to_string()));
    assert_eq!(parsed[0].items[1].value, Some("".to_string()));
    assert_eq!(parsed[0].items[2].key, "gone");
    assert_eq!(parsed[0].items[2].value, None);
}

#[test]
fn parser_rejects_malformed_lines() {
    // An item before any section header.
    assert!(parse_ini("key=value\n").is_err());
    // A line that opens like a header but never closes.
    assert!(parse_ini("[app]\n[broken\n").is_err());
    // A separator with no key before it.
    assert!(parse_ini("[app]\n=value\n").is_err());
}

#[test]
fn parser_skips_blank_and_comment_lines_and_trims() {
    let text = "; a comment\n\n[app]\n  port = 9000  \n# another note\n\t[ data ]\nkey=  spaced out  \n";
    let parsed = parse_ini(text).expect("lenient dialect must parse");
    assert_eq!(parsed.len(), 2);
    assert_eq!(parsed[0].name, "app");
    assert_eq!(parsed[0].items[0].key, "port");
    assert_eq!(parsed[0].items[0].value, Some("9000".to_string()));
    assert_eq!(parsed[1].name, "data");
    assert_eq!(parsed[1].items[0].value, Some("spaced out".to_string()));
}

#[test]
fn parser_collapses_duplicate_keys_last_wins() {
    let parsed = parse_ini("[s]\nk=1\nk=2\n").expect("must parse");
    assert_eq!(parsed.len(), 1);
    assert_eq!(parsed[0].items.len(), 1);
    assert_eq!(parsed[0].items[0].key, "k");
    assert_eq!(parsed[0].items[0].value, Some("2".to_string()));
}

#[test]
fn parser_merges_repeated_sections() {
    let parsed = parse_ini("[a]\nx=1\n[b]\ny=2\n[a]\nz=3\nx=9\n").expect("must parse");
    assert_eq!(parsed.len(), 2);
    assert_eq!(parsed[0].name, "a");
    assert_eq!(parsed[0].items.len(), 2);
    assert_eq!(parsed[0].items[0].key, "x");
    assert_eq!(parsed[0].items[0].value, Some("9".to_string()));
    assert_eq!(parsed[0].items[1].key, "z");
    assert_eq!(parsed[1].name, "b");
}

#[test]
fn parser_accepts_missing_trailing_newline() {
    let parsed = parse_ini("[app]\nport=9000").expect("must parse");
    assert_eq!(parsed[0].items[0].value, Some("9000".to_string()));
}

#[test]
fn decimal_formatting_is_canonical() {
    assert_eq!(u64_to_string(0), "0".to_string());
    assert_eq!(u64_to_string(18446744073709551615), "18446744073709551615".to_string());
    assert_eq!(i64_to_string(0), "0".to_string());
    assert_eq!(i64_to_string(-42), "-42".to_string());
    assert_eq!(i64_to_string(9223372036854775807), "9223372036854775807".to_string());
    assert_eq!(i64_to_string(-9223372036854775808), "-9223372036854775808".to_string());
    assert_eq!(bool_to_string(true), "true".to_string());
    assert_eq!(bool_to_string(false), "false".to_string());
}

#[test]
fn integer_parsing_matches_the_grammar() {
    assert_eq!(parse_i64("0"), Some(0));
    assert_eq!(parse_i64("+17"), Some(17));
    assert_eq!(parse_i64("-42"), Some(-42));
    assert_eq!(parse_i64("9223372036854775807"), Some(9223372036854775807));
    assert_eq!(parse_i64("-9223372036854775808"), Some(-9223372036854775808));
    assert_eq!(parse_i64("9223372036854775808"), None);
    assert_eq!(parse_i64("-9223372036854775809"), None);
    assert_eq!(parse_i64(""), None);
    assert_eq!(parse_i64("-"), None);
    assert_eq!(parse_i64("12a"), None);
    assert_eq!(parse_i64(" 12"), None);
}

#[test]
fn boolean_parsing_is_exact() {
    assert_eq!(parse_bool("true"), Some(true));
    assert_eq!(parse_bool("false"), Some(false));
    assert_eq!(parse_bool("True"), None);
    assert_eq!(parse_bool("1"), None);
    assert_eq!(parse_bool(""), None);
}
