use rustic::time::{push_text_json, push_time_json, rfc3339};
use rustic::tree::Timestamp;

fn text(secs: i64, nanos: u32) -> String {
    String::from_utf8(rfc3339(&Timestamp { secs, nanos }).unwrap()).unwrap()
}

fn json(t: Option<Timestamp>) -> String {
    let mut out = b">".to_vec();
    push_time_json(&mut out, &t);
    assert_eq!(out[0], b'>');
    String::from_utf8(out[1..].to_vec()).unwrap()
}

#[test]
fn epoch_is_the_first_of_january_1970() {
    assert_eq!(text(0, 0), "1970-01-01T00:00:00.000000000Z");
    assert_eq!(text(1, 2), "1970-01-01T00:00:01.000000002Z");
    assert_eq!(text(-1, 999_999_999), "1969-12-31T23:59:59.999999999Z");
    assert_eq!(text(86399, 0), "1970-01-01T23:59:59.000000000Z");
    assert_eq!(text(86400, 0), "1970-01-02T00:00:00.000000000Z");
}

#[test]
fn known_times_are_written_as_the_calendar_has_them() {
    assert_eq!(text(1_700_000_000, 0), "2023-11-14T22:13:20.000000000Z");
    assert_eq!(text(946_684_799, 0), "1999-12-31T23:59:59.000000000Z");
    assert_eq!(text(1_234_567_890, 123_456_789), "2009-02-13T23:31:30.123456789Z");
}

#[test]
fn leap_years_have_their_day() {
    assert_eq!(text(68_169_599, 0), "1972-02-28T23:59:59.000000000Z");
    assert_eq!(text(68_255_999, 0), "1972-02-29T23:59:59.000000000Z");
    assert_eq!(text(951_782_400, 0), "2000-02-29T00:00:00.000000000Z");
    assert_eq!(text(1_709_164_800, 0), "2024-02-29T00:00:00.000000000Z");
    // 2100 is no leap year
    assert_eq!(text(4_107_542_400 - 86400, 0), "2100-02-28T00:00:00.000000000Z");
    assert_eq!(text(4_107_542_400, 0), "2100-03-01T00:00:00.000000000Z");
}

#[test]
fn years_beyond_four_digits_carry_a_sign() {
    assert_eq!(text(253_402_300_799, 0), "9999-12-31T23:59:59.000000000Z");
    assert_eq!(text(253_402_300_800, 0), "+10000-01-01T00:00:00.000000000Z");
    assert_eq!(text(-62_167_219_200, 0), "0000-01-01T00:00:00.000000000Z");
    assert_eq!(text(-62_167_219_201, 0), "-0001-12-31T23:59:59.000000000Z");
}

#[test]
fn times_beyond_the_calendar_have_no_text() {
    assert_eq!(rfc3339(&Timestamp { secs: i64::MAX, nanos: 0 }), None);
    assert_eq!(rfc3339(&Timestamp { secs: i64::MIN, nanos: 0 }), None);
    // a second has no more than its nanoseconds, but for a leap second
    assert_eq!(rfc3339(&Timestamp { secs: 0, nanos: 1_000_000_000 }), None);
    assert_eq!(rfc3339(&Timestamp { secs: 59, nanos: 2_000_000_000 }), None);
    assert_eq!(text(59, 1_500_000_000), "1970-01-01T00:00:60.500000000Z");
}

#[test]
fn a_time_is_stored_between_quotes_or_as_null() {
    assert_eq!(json(Some(Timestamp { secs: 0, nanos: 7 })), "\"1970-01-01T00:00:00.000000007Z\"");
    assert_eq!(json(None), "null");
    assert_eq!(json(Some(Timestamp { secs: i64::MAX, nanos: 0 })), "null");
}

#[test]
fn a_text_is_stored_between_quotes_or_as_null() {
    let mut out = b"t=".to_vec();
    push_text_json(&mut out, &Some(b"now".to_vec()));
    assert_eq!(out, b"t=\"now\"".to_vec());
    push_text_json(&mut out, &None);
    assert_eq!(out, b"t=\"now\"null".to_vec());
    let mut out = Vec::new();
    push_text_json(&mut out, &Some(Vec::new()));
    assert_eq!(out, b"\"\"".to_vec());
}
