use nordconf::errors::ConfigError;

#[test]
fn errors_from_string_is_input_error() {
    let e = ConfigError::from("bad value".to_string());
    match e {
        ConfigError::InputError(m) => assert_eq!(m, "bad value"),
        _ => panic!("expected an input error"),
    }
}

#[test]
fn errors_message_carries_category_and_detail() {
    assert_eq!(
        ConfigError::InputError("x".to_string()).message(),
        "Input error: x"
    );
    assert_eq!(
        ConfigError::NetworkError("down".to_string()).message(),
        "Network error: down"
    );
    assert_eq!(
        ConfigError::AccessTokenError("nope".to_string()).message(),
        "Access token error: nope"
    );
    assert_eq!(
        ConfigError::IoError("disk".to_string()).message(),
        "IO error: disk"
    );
    assert_eq!(
        ConfigError::TimeoutError("slow".to_string()).message(),
        "Timeout error: slow"
    );
    assert_eq!(
        ConfigError::SerdeError("json".to_string()).message(),
        "Serde JSON error: json"
    );
}

#[test]
fn errors_fatal_categories_stop_the_run() {
    assert!(ConfigError::InputError(String::new()).is_fatal());
    assert!(ConfigError::NetworkError(String::new()).is_fatal());
    assert!(ConfigError::AccessTokenError(String::new()).is_fatal());
    assert!(ConfigError::SerdeError(String::new()).is_fatal());
    assert!(!ConfigError::IoError(String::new()).is_fatal());
    assert!(!ConfigError::TimeoutError(String::new()).is_fatal());
}
