use aboss_task::data_processor::{DataProcessor, RawData, Ratio};
use aboss_task::dto::{
    parse_stats_json, render_stats_json, BinancePrice, GetPrice, HealthResponse, StatsResponse,
};
use aboss_task::dto::AllStatesResponse;
use aboss_task::models::MapData;
use aboss_task::routes::{stat_reply, stats_reply};

#[test]
fn test_health_status_json_string_default() {
    let json_str = HealthResponse::health_status_json_string_default();
    assert_eq!(json_str, r#"{"status":"ok"}"#);
}

#[test]
fn test_get_price_returns_price_field() {
    let p = BinancePrice { symbol: "BTCUSDT".to_string(), price: 12_345 };
    assert_eq!(p.get_price(), 12_345);
}

#[test]
fn test_render_initial_snapshot_json_text() {
    // seeded with a whole price of 1: every aggregate reads 1.00000000
    let p = DataProcessor::split(4, 100_000_000);
    let resp = StatsResponse::from(p.read());
    let body = render_stats_json(&resp);
    assert_eq!(
        String::from_utf8(body).unwrap(),
        r#"{"min":1.00000000,"max":1.00000000,"curr_avg":1.00000000,"sma":1.00000000,"data_point":1}"#
    );
}

#[test]
fn test_render_fixed_point_values_json_text() {
    let d = StatsResponse {
        min: -2_550_000_000,
        max: 9_000_000_000,
        curr_avg: -7,
        sma: 12_345_678_900,
        data_point: 3,
    };
    let body = render_stats_json(&d);
    assert_eq!(
        String::from_utf8(body).unwrap(),
        r#"{"min":-25.50000000,"max":90.00000000,"curr_avg":-0.00000007,"sma":123.45678900,"data_point":3}"#
    );
}

#[test]
fn test_mean_rounding_ties_away_from_zero() {
    let base = DataProcessor::split(1, 0).read();
    let with = |num: i128, den: u64| RawData { curr_avg: Ratio { num, den }, ..base };
    assert_eq!(StatsResponse::from(with(10, 3)).curr_avg, 3); // 3.33 rounds down
    assert_eq!(StatsResponse::from(with(11, 3)).curr_avg, 4); // 3.67 rounds up
    assert_eq!(StatsResponse::from(with(7, 2)).curr_avg, 4); // tie goes away from zero
    assert_eq!(StatsResponse::from(with(-7, 2)).curr_avg, -4);
    assert_eq!(StatsResponse::from(with(-10, 3)).curr_avg, -3);
}

#[test]
fn test_snapshot_wire_round_trip() {
    let mut p = DataProcessor::split(3, 2);
    p.write(4);
    p.write(0);
    p.write(10);
    let d = StatsResponse::from(p.read());
    let body = render_stats_json(&d);
    let back = parse_stats_json(&body).expect("rendered snapshot must parse");
    assert_eq!(back, d);
}

#[test]
fn test_snapshot_wire_round_trip_extremes() {
    let d = StatsResponse {
        min: -i64::MAX,
        max: i64::MAX,
        curr_avg: -1,
        sma: 0,
        data_point: u64::MAX,
    };
    let body = render_stats_json(&d);
    let back = parse_stats_json(&body).expect("rendered snapshot must parse");
    assert_eq!(back, d);
}

#[test]
fn test_parse_rejects_malformed_json() {
    assert!(parse_stats_json(b"").is_none());
    assert!(parse_stats_json(b"{}").is_none());
    assert!(parse_stats_json(br#"{"min":1.00000000}"#).is_none());
    // plain integers are not the fixed-point number shape
    assert!(parse_stats_json(
        br#"{"min":1,"max":1,"curr_avg":1,"sma":1,"data_point":1}"#
    )
    .is_none());
    // seven fractional digits instead of eight
    assert!(parse_stats_json(
        br#"{"min":1.0000000,"max":1.00000000,"curr_avg":1.00000000,"sma":1.00000000,"data_point":1}"#
    )
    .is_none());
    // a redundant leading zero is not canonical
    assert!(parse_stats_json(
        br#"{"min":01.00000000,"max":1.00000000,"curr_avg":1.00000000,"sma":1.00000000,"data_point":1}"#
    )
    .is_none());
    // negative zero is not canonical
    assert!(parse_stats_json(
        br#"{"min":-0.00000000,"max":1.00000000,"curr_avg":1.00000000,"sma":1.00000000,"data_point":1}"#
    )
    .is_none());
    // trailing garbage
    assert!(parse_stats_json(
        br#"{"min":1.00000000,"max":1.00000000,"curr_avg":1.00000000,"sma":1.00000000,"data_point":1} "#
    )
    .is_none());
}

#[test]
fn test_stat_reply_for_known_symbol() {
    let p = DataProcessor::split(4, 100_000_000);
    let snap = p.read();
    let r = stat_reply(Some(&snap));
    assert_eq!(r.status, 200);
    assert_eq!(
        String::from_utf8(r.body).unwrap(),
        r#"{"min":1.00000000,"max":1.00000000,"curr_avg":1.00000000,"sma":1.00000000,"data_point":1}"#
    );
}

#[test]
fn test_stat_reply_unknown_symbol_on_empty_registry() {
    // an empty registry knows no symbol, and the reply is 204 with a short
    // textual body
    let registry = MapData::new();
    let looked_up = registry.lookup(&"UNKNOWN".to_string());
    assert!(looked_up.is_none());
    let r = stat_reply(None);
    assert_eq!(r.status, 204);
    assert_eq!(
        String::from_utf8(r.body).unwrap(),
        "The content you search does not exist"
    );
}

#[test]
fn test_registry_insert_and_lookup() {
    let mut registry = MapData::new();
    let a = registry.insert("BTCUSDT".to_string());
    let b = registry.insert("ETHUSDT".to_string());
    let a_again = registry.insert("BTCUSDT".to_string());
    assert_eq!(a, 0);
    assert_eq!(b, 1);
    assert_eq!(a_again, 0);
    assert_eq!(registry.lookup(&"BTCUSDT".to_string()), Some(0));
    assert_eq!(registry.lookup(&"ETHUSDT".to_string()), Some(1));
    assert_eq!(registry.lookup(&"DOGEUSDT".to_string()), None);
}

#[test]
fn test_stats_reply_all_symbols_json_text() {
    let p1 = DataProcessor::split(4, 100_000_000);
    let p2 = DataProcessor::split(2, 300_000_000);
    let items = vec![
        AllStatesResponse { symbol: "BTCUSDT".to_string(), stats: StatsResponse::from(p1.read()) },
        AllStatesResponse { symbol: "ETHUSDT".to_string(), stats: StatsResponse::from(p2.read()) },
    ];
    let r = stats_reply(&items);
    assert_eq!(r.status, 200);
    let first = r#"{"BTCUSDT":{"min":1.00000000,"max":1.00000000,"curr_avg":1.00000000,"sma":1.00000000,"data_point":1}}"#;
    let second = r#"{"ETHUSDT":{"min":3.00000000,"max":3.00000000,"curr_avg":3.00000000,"sma":3.00000000,"data_point":1}}"#;
    let expected = format!("[{},{}]", first, second);
    assert_eq!(String::from_utf8(r.body).unwrap(), expected);
}

#[test]
fn test_stats_reply_escapes_symbol_names() {
    // a symbol with a quote, a backslash and a control byte appears escaped,
    // never dropped
    let p = DataProcessor::split(1, 100_000_000);
    let items = vec![AllStatesResponse {
        symbol: "A\"B\\C\u{0a}".to_string(),
        stats: StatsResponse::from(p.read()),
    }];
    let r = stats_reply(&items);
    let stats = r#"{"min":1.00000000,"max":1.00000000,"curr_avg":1.00000000,"sma":1.00000000,"data_point":1}"#;
    let expected = format!("[{{\"A\\\"B\\\\C\\u000a\":{}}}]", stats);
    assert_eq!(String::from_utf8(r.body).unwrap(), expected);
}

#[test]
fn test_stats_reply_keeps_non_ascii_symbols() {
    let p = DataProcessor::split(1, 100_000_000);
    let items = vec![AllStatesResponse {
        symbol: "caf\u{e9}".to_string(),
        stats: StatsResponse::from(p.read()),
    }];
    let r = stats_reply(&items);
    let stats = r#"{"min":1.00000000,"max":1.00000000,"curr_avg":1.00000000,"sma":1.00000000,"data_point":1}"#;
    let expected = format!("[{{\"caf\u{e9}\":{}}}]", stats);
    assert_eq!(r.body, expected.as_bytes());
}

#[test]
fn test_stats_reply_empty_registry_is_empty_array() {
    let items: Vec<AllStatesResponse> = Vec::new();
    let r = stats_reply(&items);
    assert_eq!(r.status, 200);
    assert_eq!(String::from_utf8(r.body).unwrap(), "[]");
}
