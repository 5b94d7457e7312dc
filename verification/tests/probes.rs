use nanobyte::probe::{
    first_chars, parse_ipv4, parse_line, strip_ansi, IpAddr, ProbeEvent, ProbeReason,
};
use nanobyte::probes::{
    dwell_ips, find_probes, ip_rows, probe_stats, render_dwell, render_dwell_heading, render_ip,
    render_stats, render_top, render_top_heading, top_ips, IpRow,
};
use nanobyte::store::{AsnInfo, GeoInfo};

const LINE: &str = "\u{1b}[2m2026-04-14T17:59:44.1Z\u{1b}[0m \u{1b}[33mWARN\u{1b}[0m \u{1b}[2mapprouter_acme::proxy\u{1b}[0m\u{1b}[2m:\u{1b}[0m tls accept from 194.36.25.40:51234: received corrupt message of type InvalidContentType";

fn v4(a: u32, b: u32, c: u32, d: u32) -> IpAddr {
    IpAddr::V4(a * 0x100_0000 + b * 0x1_0000 + c * 0x100 + d)
}

fn ev(ts_unix: i64, ip: IpAddr, reason: ProbeReason) -> ProbeEvent {
    ProbeEvent { ts_unix, ip, reason }
}

#[test]
fn reasons_and_labels() {
    let sig = ProbeReason::from_line("x SignatureAlgorithmsExtensionRequired InvalidContentType");
    assert!(matches!(sig, ProbeReason::SigAlgRequired));
    assert_eq!(sig.label(), "sigalg-required");
    let content = ProbeReason::from_line("InvalidContentType tls handshake eof");
    assert!(matches!(content, ProbeReason::InvalidContentType));
    assert_eq!(content.label(), "invalid-content-type");
    let eof = ProbeReason::from_line("tls handshake eof");
    assert!(matches!(eof, ProbeReason::HandshakeEof));
    assert_eq!(eof.label(), "handshake-eof");
    let long = "é".repeat(100);
    let other = ProbeReason::from_line(&long);
    assert_eq!(other.label(), "other");
    match other {
        ProbeReason::Other(s) => assert_eq!(s, "é".repeat(80)),
        _ => panic!("not other"),
    }
}

#[test]
fn colour_sequences_are_stripped() {
    assert_eq!(strip_ansi("\u{1b}[2ma\u{1b}[0m b\u{1b}[Kc"), "a bc");
    assert_eq!(strip_ansi("plain"), "plain");
    assert_eq!(strip_ansi("\u{1b}x"), "\u{1b}x");
    assert_eq!(strip_ansi("a\u{1b}"), "a\u{1b}");
    assert_eq!(strip_ansi("a\u{1b}[31"), "a");
}

#[test]
fn a_log_line_gives_an_event() {
    let (ts, ip, reason) = parse_line(LINE).expect("event");
    assert_eq!(ts, 1776189584);
    assert_eq!(ip, v4(194, 36, 25, 40));
    assert!(matches!(reason, ProbeReason::InvalidContentType));
}

#[test]
fn other_lines_give_none() {
    assert!(parse_line("").is_none());
    assert!(parse_line("2026-04-14T17:59:44Z nothing here").is_none());
    assert!(parse_line("2026-04-14T17:59:44Z tls accept from 1.2.3.4").is_none());
    assert!(parse_line("2026-04-14T17:59:44Z tls accept from 1.2.3.256:1: x").is_none());
    assert!(parse_line("2026-04-14T17:59:44Z tls accept from ::1: x").is_none());
    assert!(parse_line("not a dateZ tls accept from 1.2.3.4:1: x").is_none());
}

#[test]
fn dotted_quads() {
    assert_eq!(parse_ipv4("0.0.0.0"), Some(0));
    assert_eq!(parse_ipv4("255.255.255.255"), Some(u32::MAX));
    assert_eq!(parse_ipv4("1.2.3.4"), Some(0x0102_0304));
    for bad in [
        "01.2.3.4", "1.2.3", "1.2.3.4.5", "1.2.3.256", "1..3.4", " 1.2.3.4", "+1.2.3.4",
        "1.2.3.0004", "", "a.b.c.d",
    ] {
        assert_eq!(parse_ipv4(bad), None, "{bad}");
    }
}

#[test]
fn first_chars_cuts_at_characters() {
    assert_eq!(first_chars("→→→", 2), "→→");
    assert_eq!(first_chars("ab", 2), "ab");
}

fn sample() -> Vec<ProbeEvent> {
    let a = v4(1, 1, 1, 1);
    let b = v4(2, 2, 2, 2);
    let c = IpAddr::V6(1);
    vec![
        ev(100, a, ProbeReason::HandshakeEof),
        ev(50, b, ProbeReason::SigAlgRequired),
        ev(7300, b, ProbeReason::HandshakeEof),
        ev(90, a, ProbeReason::Other(String::from("x"))),
        ev(60, b, ProbeReason::HandshakeEof),
        ev(70, c, ProbeReason::InvalidContentType),
    ]
}

#[test]
fn rows_by_address() {
    let rows = ip_rows(&sample());
    assert_eq!(
        rows,
        vec![
            IpRow { ip: v4(1, 1, 1, 1), hits: 2, first: 90, last: 100 },
            IpRow { ip: v4(2, 2, 2, 2), hits: 3, first: 50, last: 7300 },
            IpRow { ip: IpAddr::V6(1), hits: 1, first: 70, last: 70 },
        ]
    );
    assert_eq!(rows.iter().map(|r| r.hits).sum::<usize>(), 6);
}

#[test]
fn most_active_addresses() {
    let rows = top_ips(&sample(), 2);
    assert_eq!(rows.iter().map(|r| r.hits).collect::<Vec<_>>(), vec![3, 2]);
    assert_eq!(top_ips(&sample(), 0), vec![]);
    assert_eq!(top_ips(&sample(), 9).len(), 3);
    assert_eq!(
        render_top_heading(),
        format!("{:>5}  {:<17}  {:<20}  {:<20}  dwell", "hits", "ip", "first", "last")
    );
    assert_eq!(
        render_top(&rows[0], "2.2.2.2"),
        "    3  2.2.2.2            1970-01-01T00:00:50Z  1970-01-01T02:01:40Z  2h00m"
    );
}

#[test]
fn longest_dwelling_addresses() {
    let rows = dwell_ips(&sample(), 2);
    assert_eq!(rows.len(), 2);
    assert_eq!(rows[0].ip, v4(2, 2, 2, 2));
    assert_eq!(dwell_ips(&sample(), 3).len(), 1);
    assert_eq!(dwell_ips(&sample(), 4).len(), 0);
    assert_eq!(
        render_dwell_heading(),
        format!("{:>5}  {:<17}  {:>8}  {}", "hits", "ip", "dwell", "span")
    );
    assert_eq!(
        render_dwell(&rows[0], "2.2.2.2"),
        "    3  2.2.2.2                2h00m  1970-01-01T00:00:50Z → 1970-01-01T02:01:40Z"
    );
}

#[test]
fn dwell_report_is_cut() {
    let mut events = Vec::new();
    for i in 0..60u32 {
        events.push(ev(0, IpAddr::V4(i), ProbeReason::HandshakeEof));
        events.push(ev(i as i64, IpAddr::V4(i), ProbeReason::HandshakeEof));
    }
    let rows = dwell_ips(&events, 1);
    assert_eq!(rows.len(), 50);
    assert_eq!(rows[0].ip, IpAddr::V4(59));
    assert_eq!(rows[49].ip, IpAddr::V4(10));
}

#[test]
fn statistics() {
    assert!(probe_stats(&vec![]).is_none());
    let stats = probe_stats(&sample()).expect("stats");
    assert_eq!((stats.probes, stats.unique_ips), (6, 3));
    assert_eq!((stats.first, stats.last), (50, 7300));
    assert_eq!(stats.reasons.iter().map(|r| r.count).sum::<usize>(), stats.probes);
    assert_eq!(
        render_stats(&stats, "3"),
        vec![
            "probes         : 6",
            "unique ips     : 3",
            "first seen     : 1970-01-01T00:00:50Z UTC",
            "last seen      : 1970-01-01T02:01:40Z UTC",
            "window         : 2h 0m",
            "probes / hour  : 3",
            "reasons:",
            "      3  handshake-eof",
            "      1  sigalg-required",
            "      1  other",
            "      1  invalid-content-type",
        ]
    );
}

#[test]
fn events_of_an_address_in_order() {
    assert_eq!(find_probes(&sample(), v4(2, 2, 2, 2)), vec![1, 4, 2]);
    assert_eq!(find_probes(&sample(), v4(9, 9, 9, 9)), Vec::<usize>::new());
}

#[test]
fn report_on_an_address() {
    let asn = AsnInfo {
        asn: 15169,
        country: String::from("US"),
        org: String::from("GOOGLE"),
        looked_up_at: 0,
    };
    let mut geo = GeoInfo::default();
    geo.city = String::from("Ashburn");
    geo.region = String::from("Virginia");
    geo.country_code = String::from("US");
    geo.isp = String::from("isp");
    geo.org = String::from("org");
    geo.as_field = String::from("AS15169 Google LLC");
    let head = vec![
        "== 2.2.2.2 ==",
        "  ASN    : AS15169  GOOGLE (US)",
        "  geo    : Ashburn / Virginia / US",
        "  ISP    : isp",
        "  org    : org",
        "  as_str : AS15169 Google LLC",
    ];
    let mut full = head.clone();
    full.extend([
        "  probes : 3 events, dwell 2h00m",
        "  first  : 1970-01-01T00:00:50Z",
        "  last   : 1970-01-01T02:01:40Z",
        "  recent :",
        "    1970-01-01T02:01:40Z  handshake-eof",
        "    1970-01-01T00:01:00Z  handshake-eof",
        "    1970-01-01T00:00:50Z  sigalg-required",
    ]);
    assert_eq!(render_ip(&sample(), v4(2, 2, 2, 2), "2.2.2.2", &asn, &geo), full);
    let mut none = head;
    none[0] = "== 9.9.9.9 ==";
    none.push("  probes : 0 (no direct-path TLS handshake events)");
    assert_eq!(render_ip(&sample(), v4(9, 9, 9, 9), "9.9.9.9", &asn, &geo), none);
}

#[test]
fn recent_list_is_cut() {
    let ip = v4(1, 1, 1, 1);
    let events: Vec<ProbeEvent> =
        (0..15).map(|t| ev(t, ip, ProbeReason::HandshakeEof)).collect();
    let lines = render_ip(&events, ip, "1.1.1.1", &AsnInfo::default(), &GeoInfo::default());
    assert_eq!(lines.len(), 6 + 4 + 10);
    assert_eq!(lines[10], "    1970-01-01T00:00:14Z  handshake-eof");
    assert_eq!(lines[19], "    1970-01-01T00:00:05Z  handshake-eof");
    assert_eq!(lines[1], "  ASN    : AS0   ()");
}
