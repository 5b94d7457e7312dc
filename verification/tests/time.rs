use nanobyte::calendar::{parse_rfc3339_to_unix, ts_to_iso};
use nanobyte::timeline::{bounds, chronological, push_dwell, span_seconds};

#[test]
fn timestamps_render() {
    assert_eq!(ts_to_iso(0), "1970-01-01T00:00:00Z");
    assert_eq!(ts_to_iso(-1), "1969-12-31T23:59:59Z");
    assert_eq!(ts_to_iso(1776189584), "2026-04-14T17:59:44Z");
    assert_eq!(ts_to_iso(951825600), "2000-02-29T12:00:00Z");
    assert_eq!(ts_to_iso(253402300799), "9999-12-31T23:59:59Z");
    assert_eq!(ts_to_iso(253402300800), "10000-01-01T00:00:00Z");
}

#[test]
fn extreme_timestamps_render() {
    assert_eq!(ts_to_iso(i64::MAX), "292277026596-12-04T15:30:07Z");
    assert_eq!(ts_to_iso(i64::MIN), "-292277022657-01-27T08:29:52Z");
}

#[test]
fn timestamps_parse() {
    assert_eq!(parse_rfc3339_to_unix("1970-01-01T00:00:00Z"), Some(0));
    assert_eq!(parse_rfc3339_to_unix("2026-04-14T17:59:44.1Z"), Some(1776189584));
    assert_eq!(parse_rfc3339_to_unix("2000-02-29T12:00:00Z"), Some(951825600));
    assert_eq!(parse_rfc3339_to_unix("1969-12-31T23:59:59Z"), Some(-1));
}

#[test]
fn trailing_z_is_not_required() {
    assert_eq!(parse_rfc3339_to_unix("1970-01-01T00:00:05"), Some(5));
    assert_eq!(parse_rfc3339_to_unix("1970-01-01T00:00:05.25"), Some(5));
}

#[test]
fn malformed_timestamps_are_refused() {
    assert_eq!(parse_rfc3339_to_unix(""), None);
    assert_eq!(parse_rfc3339_to_unix("1970-01-01T00:00"), None);
    assert_eq!(parse_rfc3339_to_unix("197x-01-01T00:00:00Z"), None);
    assert_eq!(parse_rfc3339_to_unix("1970-01-01T00:00:-1Z"), None);
    assert_eq!(parse_rfc3339_to_unix("197\u{e9}-01-01T00:00:00Z"), None);
}

#[test]
fn rendering_reads_back() {
    let mut ts: i64 = -30_000_000_000;
    while ts < 200_000_000_000 {
        assert_eq!(parse_rfc3339_to_unix(&ts_to_iso(ts)), Some(ts));
        ts += 1_234_567_891;
    }
}

#[test]
fn bounds_of_instants() {
    assert_eq!(bounds(&vec![5, -3, 9, 7], &vec![0, 1, 3]), (-3, 7));
}

#[test]
fn chronological_order_is_stable() {
    assert_eq!(chronological(&vec![5, 1, 5, 1], &vec![0, 1, 2, 3]), vec![1, 3, 0, 2]);
    assert_eq!(chronological(&vec![5, 1], &vec![]), Vec::<usize>::new());
}

#[test]
fn spans_and_dwells() {
    assert_eq!(span_seconds(3, 3), 1);
    assert_eq!(span_seconds(-2, 3), 5);
    assert_eq!(span_seconds(i64::MIN, i64::MAX), u64::MAX);
    let mut out = String::from("dwell ");
    push_dwell(&mut out, 3 * 3600 + 4 * 60 + 59);
    assert_eq!(out, "dwell 3h04m");
}
