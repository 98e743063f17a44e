use aboss_task::config::{clean_urls, split_urls, AppConfig, ConfigError};
use aboss_task::dto::parse_price;
use aboss_task::data_processor::DataProcessor;
use aboss_task::digits::parse_u64;
use aboss_task::rpc_manager::poll_step;

#[test]
fn test_parse_u64_values() {
    assert_eq!(parse_u64("0"), Some(0));
    assert_eq!(parse_u64("123"), Some(123));
    assert_eq!(parse_u64("007"), Some(7));
    assert_eq!(parse_u64("18446744073709551615"), Some(u64::MAX));
    assert_eq!(parse_u64("18446744073709551616"), None);
    assert_eq!(parse_u64(""), None);
    assert_eq!(parse_u64("12a"), None);
    assert_eq!(parse_u64("-1"), None);
    assert_eq!(parse_u64("1.5"), None);
}

#[test]
fn test_clean_urls_trims_brackets() {
    assert_eq!(clean_urls("[http://a]"), "http://a");
    assert_eq!(clean_urls("http://a"), "http://a");
    assert_eq!(clean_urls("[[]]"), "");
    assert_eq!(clean_urls("]odd["), "odd");
    assert_eq!(clean_urls(""), "");
}

#[test]
fn test_split_urls_on_commas() {
    assert_eq!(split_urls("a,b,c"), vec!["a", "b", "c"]);
    assert_eq!(split_urls("one"), vec!["one"]);
    assert_eq!(split_urls("x,"), vec!["x", ""]);
    assert_eq!(split_urls(""), vec![""]);
}

#[test]
fn test_from_env_missing_required() {
    assert_eq!(
        AppConfig::from_env(None, Some("100"), Some("4"), None, None, None).unwrap_err(),
        ConfigError::MissingUrls
    );
    assert_eq!(
        AppConfig::from_env(Some("u"), None, Some("4"), None, None, None).unwrap_err(),
        ConfigError::MissingInterval
    );
    assert_eq!(
        AppConfig::from_env(Some("u"), Some("100"), None, None, None, None).unwrap_err(),
        ConfigError::MissingSmaN
    );
}

#[test]
fn test_from_env_rejects_bad_numbers() {
    assert_eq!(
        AppConfig::from_env(Some("u"), Some("soon"), Some("4"), None, None, None).unwrap_err(),
        ConfigError::BadInterval
    );
    assert_eq!(
        AppConfig::from_env(Some("u"), Some("0"), Some("4"), None, None, None).unwrap_err(),
        ConfigError::BadInterval
    );
    assert_eq!(
        AppConfig::from_env(Some("u"), Some("100"), Some("zero"), None, None, None).unwrap_err(),
        ConfigError::BadSmaN
    );
    assert_eq!(
        AppConfig::from_env(Some("u"), Some("100"), Some("0"), None, None, None).unwrap_err(),
        ConfigError::BadSmaN
    );
}

#[test]
fn test_from_env_full_configuration() {
    let c = AppConfig::from_env(
        Some("[http://h/p?symbol=BTCUSDT],[http://h/p?symbol=ETHUSDT]"),
        Some("250"),
        Some("16"),
        Some("500"),
        Some("0.0.0.0"),
        Some("9000"),
    )
    .unwrap();
    assert_eq!(
        c.urls,
        vec![
            "http://h/p?symbol=BTCUSDT".to_string(),
            "http://h/p?symbol=ETHUSDT".to_string()
        ]
    );
    assert_eq!(c.interval_ms, 250);
    assert_eq!(c.sma_n, 16);
    assert_eq!(c.time_out_ms, 500);
    assert_eq!(c.ip, "0.0.0.0");
    assert_eq!(c.port, 9000);
}

#[test]
fn test_from_env_optional_defaults() {
    let c = AppConfig::from_env(Some("u"), Some("100"), Some("4"), None, None, None).unwrap();
    assert_eq!(c.time_out_ms, 1000);
    assert_eq!(c.ip, "127.0.0.1");
    assert_eq!(c.port, 8000);

    // malformed optional values also fall back to the defaults
    let c2 = AppConfig::from_env(
        Some("u"),
        Some("100"),
        Some("4"),
        Some("later"),
        None,
        Some("70000"),
    )
    .unwrap();
    assert_eq!(c2.time_out_ms, 1000);
    assert_eq!(c2.port, 8000);
}

#[test]
fn test_poll_step_writes_only_good_prices() {
    let mut p = DataProcessor::split(4, 10);
    assert!(!poll_step(&mut p, None));
    assert_eq!(p.read().data_point, 1);

    assert!(poll_step(&mut p, Some(20)));
    let s = p.read();
    assert_eq!(s.data_point, 2);
    assert_eq!(s.max, 20);

    // a price outside the representable range is a transient error: skipped
    assert!(!poll_step(&mut p, Some(i64::MAX)));
    assert_eq!(p.read().data_point, 2);
}

#[test]
fn test_parse_price_values() {
    assert_eq!(parse_price("0"), Some(0));
    assert_eq!(parse_price("1"), Some(100_000_000));
    assert_eq!(parse_price("1.25"), Some(125_000_000));
    assert_eq!(parse_price("-3.5"), Some(-350_000_000));
    assert_eq!(parse_price("007.1"), Some(710_000_000));
    assert_eq!(parse_price("0.00000001"), Some(1));
    assert_eq!(parse_price("1."), Some(100_000_000));
    assert_eq!(parse_price(".5"), Some(50_000_000));
    assert_eq!(parse_price("-.25"), Some(-25_000_000));
    assert_eq!(parse_price("10000000000"), Some(1_000_000_000_000_000_000));
}

#[test]
fn test_parse_price_rejections() {
    assert_eq!(parse_price(""), None);
    assert_eq!(parse_price("-"), None);
    assert_eq!(parse_price("."), None);
    assert_eq!(parse_price("-."), None);
    assert_eq!(parse_price("1e5"), None);
    assert_eq!(parse_price("0.000000001"), None); // nine fractional digits
    assert_eq!(parse_price("10000000000.00000001"), None); // beyond the range
    assert_eq!(parse_price("1.2.3"), None);
    assert_eq!(parse_price("--1"), None);
}
