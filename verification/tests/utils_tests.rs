use aboss_task::utils::{bound_index, calculate_stream_mean, extract_symbol, isize2usize};
use aboss_task::data_processor::Ratio;

fn ratio_f64(r: Ratio) -> f64 {
    r.num as f64 / r.den as f64
}

#[test]
fn test_bound_index_within_bounds() {
    assert_eq!(bound_index(0, 5), 0);
    assert_eq!(bound_index(4, 5), 4);
    assert_eq!(bound_index(3, 10), 3);
}

#[test]
fn test_bound_index_out_of_bounds() {
    assert_eq!(bound_index(5, 5), 0);
    assert_eq!(bound_index(10, 5), 0);
    assert_eq!(bound_index(100, 99), 0);
}

#[test]
fn test_bound_index_modulus_like_usage() {
    let denom = 4;
    assert_eq!(bound_index(3, denom + 1), 3);
    assert_eq!(bound_index(4, denom + 1), 4);
    assert_eq!(bound_index(5, denom + 1), 0); // like modulus reset
}

#[test]
fn test_isize2usize_positive() {
    assert_eq!(isize2usize(0), 0);
    assert_eq!(isize2usize(42), 42);
    assert_eq!(isize2usize(isize::MAX), isize::MAX as usize);
}

#[test]
fn test_isize2usize_negative() {
    assert_eq!(isize2usize(-1), usize::MAX);
    assert_eq!(isize2usize(-2), usize::MAX - 1);
    assert_eq!(isize2usize(isize::MIN), isize::MIN as usize);
}

#[test]
fn test_calculate_stream_mean() {
    // the stream 5, 7, 9, -3 has the running means 5, 6, 7, 4.5
    let mut avg = Ratio { num: 0, den: 0 };
    avg = calculate_stream_mean(avg, 5, 1);
    assert!((ratio_f64(avg) - 5.0).abs() < 1e-10);

    avg = calculate_stream_mean(avg, 7, 2);
    assert!((ratio_f64(avg) - 6.0).abs() < 1e-10);

    avg = calculate_stream_mean(avg, 9, 3);
    assert!((ratio_f64(avg) - 7.0).abs() < 1e-10);

    avg = calculate_stream_mean(avg, -3, 4);
    assert!((ratio_f64(avg) - 4.5).abs() < 1e-10);
}

#[test]
fn test_extract_symbol_present() {
    let url = "https://api.example.com/v3/ticker/price?symbol=BTCUSDT";
    assert_eq!(extract_symbol(url), Some("BTCUSDT".to_string()));
}

#[test]
fn test_extract_symbol_absent() {
    assert_eq!(extract_symbol("https://api.example.com/v3/ping"), None);
    assert_eq!(extract_symbol(""), None);
    assert_eq!(extract_symbol("symbol"), None);
}

#[test]
fn test_extract_symbol_takes_suffix_after_first_marker() {
    assert_eq!(extract_symbol("x?symbol="), Some(String::new()));
    assert_eq!(
        extract_symbol("a?symbol=ETHUSDT&depth=5"),
        Some("ETHUSDT&depth=5".to_string())
    );
}
