use cex_v1::config::{optional_positive_usize, required_string, AppConfig, ConfigError};

#[test]
fn optional_positive_usize_returns_default_when_missing() {
    let name = "CEX_TEST_MISSING_NUMBER";
    assert_eq!(optional_positive_usize(name, None, 7).unwrap(), 7);
}

#[test]
fn optional_positive_usize_rejects_zero() {
    let name = "CEX_TEST_ZERO_NUMBER";
    assert!(matches!(
        optional_positive_usize(name, Some("0"), 7),
        Err(ConfigError::InvalidPositiveInteger { .. })
    ));
}

#[test]
fn optional_positive_usize_reads_trimmed_digits() {
    assert_eq!(optional_positive_usize("N", Some("  12\n"), 7).unwrap(), 12);
    assert_eq!(optional_positive_usize("N", Some("+5"), 7).unwrap(), 5);
}

#[test]
fn optional_positive_usize_rejects_non_numbers() {
    for bad in ["", "   ", "abc", "-3", "1 2", "+", "99999999999999999999999999"] {
        match optional_positive_usize("BAD_NUMBER", Some(bad), 7) {
            Err(ConfigError::InvalidPositiveInteger { name }) => assert_eq!(name, "BAD_NUMBER"),
            other => panic!("unexpected result for {:?}: {:?}", bad, other),
        }
    }
}

#[test]
fn required_string_trims_and_rejects_blank_or_missing() {
    assert_eq!(required_string("URL", Some("  redis://x/ \t")).unwrap(), "redis://x/");
    match required_string("URL", Some(" \u{3000} ")) {
        Err(ConfigError::EmptyVar { name }) => assert_eq!(name, "URL"),
        other => panic!("unexpected: {:?}", other),
    }
    match required_string("URL", None) {
        Err(ConfigError::MissingVar { name }) => assert_eq!(name, "URL"),
        other => panic!("unexpected: {:?}", other),
    }
}

#[test]
fn app_config_from_values() {
    let config = AppConfig::from_values(Some("redis://127.0.0.1/"), Some(" exchange-requests "), None).unwrap();
    assert_eq!(config.redis_url, "redis://127.0.0.1/");
    assert_eq!(config.redis_request_queue, "exchange-requests");
    assert_eq!(config.redis_brpop_timeout_seconds, 5);

    let config = AppConfig::from_values(Some("u"), Some("q"), Some("9")).unwrap();
    assert_eq!(config.redis_brpop_timeout_seconds, 9);

    match AppConfig::from_values(None, None, None) {
        Err(ConfigError::MissingVar { name }) => assert_eq!(name, "REDIS_URL"),
        other => panic!("unexpected: {:?}", other),
    }
    match AppConfig::from_values(Some("u"), Some(""), None) {
        Err(ConfigError::EmptyVar { name }) => assert_eq!(name, "REDIS_REQUEST_QUEUE"),
        other => panic!("unexpected: {:?}", other),
    }
    match AppConfig::from_values(Some("u"), Some("q"), Some("0")) {
        Err(ConfigError::InvalidPositiveInteger { name }) => assert_eq!(name, "REDIS_BRPOP_TIMEOUT_SECONDS"),
        other => panic!("unexpected: {:?}", other),
    }
}
