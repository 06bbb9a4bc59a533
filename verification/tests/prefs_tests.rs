use nordconf::errors::ConfigError;
use nordconf::model::UserConfig;
use nordconf::prefs::{build_user_config, is_yes, output_dir_name, parse_i32, trim_input};

#[test]
fn prefs_trim_strips_ascii_whitespace() {
    assert_eq!(trim_input("  hello \t\r\n"), "hello");
    assert_eq!(trim_input(""), "");
    assert_eq!(trim_input("   "), "");
    assert_eq!(trim_input("a b"), "a b");
}

#[test]
fn prefs_parse_i32_reads_signed_numerals() {
    assert_eq!(parse_i32("25"), Some(25));
    assert_eq!(parse_i32("+7"), Some(7));
    assert_eq!(parse_i32("-3"), Some(-3));
    assert_eq!(parse_i32("2147483647"), Some(2147483647));
    assert_eq!(parse_i32("-2147483648"), Some(-2147483648));
    assert_eq!(parse_i32("2147483648"), None);
    assert_eq!(parse_i32("-2147483649"), None);
    assert_eq!(parse_i32(""), None);
    assert_eq!(parse_i32("12a"), None);
    assert_eq!(parse_i32("-"), None);
    assert_eq!(parse_i32("99999999999999999999"), None);
}

#[test]
fn prefs_is_yes_accepts_single_y() {
    assert!(is_yes("y"));
    assert!(is_yes("Y"));
    assert!(is_yes("  y "));
    assert!(!is_yes("yes"));
    assert!(!is_yes("n"));
    assert!(!is_yes(""));
}

#[test]
fn prefs_defaults_when_nothing_entered() {
    let c = build_user_config(None, None, None).unwrap();
    assert_eq!(c.dns, "103.86.96.100");
    assert!(!c.use_ip);
    assert_eq!(c.keepalive, 25);
    assert!(c.is_valid());
}

#[test]
fn prefs_entered_values_are_taken() {
    let c = build_user_config(
        Some("8.8.8.8".to_string()),
        Some("y".to_string()),
        Some("60".to_string()),
    )
    .unwrap();
    assert_eq!(c.dns, "8.8.8.8");
    assert!(c.use_ip);
    assert_eq!(c.keepalive, 60);
}

#[test]
fn prefs_blank_dns_and_bad_keepalive_fall_back() {
    let c = build_user_config(
        Some("   ".to_string()),
        Some("no".to_string()),
        Some("500".to_string()),
    )
    .unwrap();
    assert_eq!(c.dns, "103.86.96.100");
    assert!(!c.use_ip);
    assert_eq!(c.keepalive, 25);
    let c2 = build_user_config(None, None, Some("abc".to_string())).unwrap();
    assert_eq!(c2.keepalive, 25);
}

#[test]
fn prefs_bad_dns_is_an_input_error() {
    let r = build_user_config(Some("dns.example".to_string()), None, None);
    match r {
        Err(ConfigError::InputError(m)) => assert_eq!(m, "Invalid configuration values"),
        _ => panic!("expected an input error"),
    }
}

#[test]
fn prefs_is_valid_checks_dns_and_keepalive() {
    let good = UserConfig {
        dns: "1.2.3.4".to_string(),
        use_ip: false,
        keepalive: 15,
    };
    assert!(good.is_valid());
    let bad_dns = UserConfig {
        dns: "a.b".to_string(),
        use_ip: false,
        keepalive: 25,
    };
    assert!(!bad_dns.is_valid());
    let bad_keepalive = UserConfig {
        dns: "1.2.3.4".to_string(),
        use_ip: false,
        keepalive: 121,
    };
    assert!(!bad_keepalive.is_valid());
}

#[test]
fn prefs_output_dir_name_is_zero_padded() {
    assert_eq!(
        output_dir_name(2024, 1, 5, 9, 7, 3),
        "nordvpn_configs_20240105_090703"
    );
    assert_eq!(
        output_dir_name(2025, 12, 31, 23, 59, 59),
        "nordvpn_configs_20251231_235959"
    );
}
