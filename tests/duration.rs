use vodcatalog::duration::{is_admitted, parse_duration_flex, parse_seconds, serialize_duration, Span};
use vodcatalog::json::Scalar;

fn encode(secs: u64) -> String {
    serialize_duration(&Span { secs, nanos: 0 })
}

#[test]
fn encodes_zero() {
    assert_eq!(encode(0), "0s");
}

#[test]
fn encodes_minute_and_second() {
    assert_eq!(encode(61), "1m1s");
}

#[test]
fn encodes_whole_hour() {
    assert_eq!(encode(3600), "1h0m0s");
}

#[test]
fn encodes_hours_minutes_seconds() {
    assert_eq!(encode(7325), "2h2m5s");
    assert_eq!(encode(90), "1m30s");
    assert_eq!(encode(3661), "1h1m1s");
}

#[test]
fn encoding_drops_nanoseconds() {
    assert_eq!(serialize_duration(&Span { secs: 59, nanos: 999_999_999 }), "59s");
}

#[test]
fn encodes_largest_span() {
    assert_eq!(encode(u64::MAX), "5124095576030431h0m15s");
}

#[test]
fn reads_whole_seconds() {
    assert_eq!(parse_seconds("90"), Some(Span { secs: 90, nanos: 0 }));
    assert_eq!(parse_seconds("0"), Some(Span { secs: 0, nanos: 0 }));
}

#[test]
fn reads_fractional_seconds() {
    assert_eq!(parse_seconds("90.0"), Some(Span { secs: 90, nanos: 0 }));
    assert_eq!(parse_seconds("1.5"), Some(Span { secs: 1, nanos: 500_000_000 }));
    assert_eq!(parse_seconds("2.0000000019"), Some(Span { secs: 2, nanos: 1 }));
}

#[test]
fn rejects_malformed_seconds() {
    assert_eq!(parse_seconds(""), None);
    assert_eq!(parse_seconds("-3"), None);
    assert_eq!(parse_seconds("1."), None);
    assert_eq!(parse_seconds(".5"), None);
    assert_eq!(parse_seconds("1.2.3"), None);
    assert_eq!(parse_seconds("18446744073709551616"), None);
    assert_eq!(parse_seconds("18446744073709551615"), Some(Span { secs: u64::MAX, nanos: 0 }));
}

#[test]
fn number_and_compact_text_agree() {
    let a = parse_duration_flex(&Scalar::Number("90.0".to_string()));
    let b = parse_duration_flex(&Scalar::Text("1m30s".to_string()));
    assert_eq!(a, Some(Span { secs: 90, nanos: 0 }));
    assert_eq!(a, b);
}

#[test]
fn round_trip_keeps_whole_seconds() {
    for secs in [0u64, 1, 59, 60, 61, 3599, 3600, 7325, 86_399, 1_000_000] {
        let d = Span { secs, nanos: 250 };
        let back = parse_duration_flex(&Scalar::Text(serialize_duration(&d)));
        assert_eq!(back, Some(Span { secs, nanos: 0 }));
    }
}

#[test]
fn reads_loose_duration_text() {
    assert_eq!(
        parse_duration_flex(&Scalar::Text("2h 37min".to_string())),
        Some(Span { secs: 9420, nanos: 0 })
    );
    assert_eq!(
        parse_duration_flex(&Scalar::Text("32ms".to_string())),
        Some(Span { secs: 0, nanos: 32_000_000 })
    );
}

#[test]
fn rejects_bad_duration_values() {
    assert_eq!(parse_duration_flex(&Scalar::Text("soon".to_string())), None);
    assert_eq!(parse_duration_flex(&Scalar::Bool(true)), None);
    assert_eq!(parse_duration_flex(&Scalar::Null), None);
    assert_eq!(parse_duration_flex(&Scalar::Nested), None);
}

#[test]
fn refuses_text_whose_total_could_overflow() {
    let t = Scalar::Text("18446744073709551615s500ms500ms".to_string());
    assert_eq!(parse_duration_flex(&t), None);
    assert!(!is_admitted("18446744073709551615s500ms500ms"));
    assert!(is_admitted("2h 37min"));
    assert!(is_admitted("4.2s"));
}

#[test]
fn whole_second_text_at_the_limit() {
    let t = Scalar::Text("18446744073709551615s".to_string());
    assert_eq!(parse_duration_flex(&t), Some(Span { secs: u64::MAX, nanos: 0 }));
    let back = parse_duration_flex(&Scalar::Text(encode(u64::MAX)));
    assert_eq!(back, Some(Span { secs: u64::MAX, nanos: 0 }));
}

#[test]
fn empty_or_letter_first_text_is_refused() {
    assert_eq!(parse_duration_flex(&Scalar::Text(String::new())), None);
    assert_eq!(parse_duration_flex(&Scalar::Text("abc".to_string())), None);
}
