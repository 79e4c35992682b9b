use wavemark::time::{format_millis, range_fields, timestamp_fields};

/// Whole milliseconds of `seconds`, rounded; zero for anything not finite or
/// negative.
fn millis(seconds: f64) -> u64 {
    if seconds.is_finite() && seconds >= 0.0 {
        (seconds * 1000.0).round() as u64
    } else {
        0
    }
}

fn format_ms(seconds: f64) -> String {
    format_millis(millis(seconds))
}

fn parse_ts(s: &str) -> Option<f64> {
    let fields = timestamp_fields(s)?;
    let nums: Vec<f64> = fields
        .iter()
        .map(|p| p.parse::<f64>())
        .collect::<Result<_, _>>()
        .ok()?;
    match nums.len() {
        1 => Some(nums[0]),
        2 => Some(nums[0] * 60.0 + nums[1]),
        3 => Some(nums[0] * 3600.0 + nums[1] * 60.0 + nums[2]),
        _ => None,
    }
}

#[test]
fn formats_minutes_seconds_millis() {
    assert_eq!(format_ms(0.0), "0:00.000");
    assert_eq!(format_ms(5.4), "0:05.400");
    assert_eq!(format_ms(75.0), "1:15.000");
    assert_eq!(format_ms(3661.5), "1:01:01.500");
}

#[test]
fn parses_back() {
    for v in [0.0, 5.4, 75.0, 3661.5] {
        assert!((parse_ts(&format_ms(v)).unwrap() - v).abs() < 0.002, "{v}");
    }
}

// ---- further cases ----

#[test]
fn format_millis_exact_values() {
    assert_eq!(format_millis(0), "0:00.000");
    assert_eq!(format_millis(999), "0:00.999");
    assert_eq!(format_millis(59_999), "0:59.999");
    assert_eq!(format_millis(3_599_999), "59:59.999");
    assert_eq!(format_millis(3_600_000), "1:00:00.000");
    assert_eq!(format_millis(36_000_000 * 10 + 1), "100:00:00.001");
}

#[test]
fn formatted_fields_read_back() {
    for ms in [0u64, 1, 999, 61_001, 3_599_999, 3_661_500, 123_456_789] {
        let text = format_millis(ms);
        let fields = timestamp_fields(&text).unwrap();
        let n: Vec<u64> = fields
            .iter()
            .map(|f| f.replace('.', "").parse::<u64>().unwrap())
            .collect();
        let back = match n.len() {
            2 => n[0] * 60_000 + n[1],
            3 => n[0] * 3_600_000 + n[1] * 60_000 + n[2],
            _ => panic!("{text}"),
        };
        assert_eq!(back, ms, "{text}");
    }
}

#[test]
fn timestamp_fields_cases() {
    assert_eq!(timestamp_fields("  1:02.5 "), Some(vec!["1".to_string(), "02.5".to_string()]));
    assert_eq!(timestamp_fields("12.345"), Some(vec!["12.345".to_string()]));
    assert_eq!(timestamp_fields("1:2:3"), Some(vec!["1".to_string(), "2".to_string(), "3".to_string()]));
    assert_eq!(timestamp_fields("   "), None);
    assert_eq!(timestamp_fields(""), None);
    assert_eq!(timestamp_fields("1:2:3:4"), None);
    assert_eq!(timestamp_fields(":"), Some(vec![String::new(), String::new()]));
}

#[test]
fn range_fields_cases() {
    assert_eq!(range_fields("1.5 - 0:02.25"), Some(("1.5".to_string(), "0:02.25".to_string())));
    assert_eq!(range_fields("1-2-3"), Some(("1".to_string(), "2-3".to_string())));
    assert_eq!(range_fields("12.5"), None);
}
