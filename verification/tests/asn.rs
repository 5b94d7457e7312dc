use nanobyte::asn::{
    asn_table, description_query, origin_query, proceed, read_org, read_origin, record_text,
    render_asn, render_asn_heading, start, Answer, AsnError, Pending, Step, ASN_IPS,
};
use nanobyte::probe::{IpAddr, ProbeEvent, ProbeReason};
use nanobyte::probes::{top_ips, IpRow};
use nanobyte::store::AsnInfo;

#[test]
fn queries() {
    assert_eq!(
        origin_query(&IpAddr::V4(0x0808_0404)).expect("name"),
        "4.4.8.8.origin.asn.cymru.com"
    );
    assert!(matches!(origin_query(&IpAddr::V6(1)), Err(AsnError::NotIpv4)));
    assert_eq!(AsnError::NotIpv4.message(), "v6 lookup not implemented");
    assert_eq!(description_query(15169).as_deref(), Some("AS15169.asn.cymru.com"));
    assert_eq!(description_query(0), None);
}

#[test]
fn records_are_joined() {
    assert_eq!(record_text(&vec![b"15169 | ".to_vec(), "é".as_bytes().to_vec()]), "15169 | é");
    assert_eq!(record_text(&vec![vec![0x61, 0xFF, 0x62]]), "a\u{fffd}b");
    assert_eq!(record_text(&vec![]), "");
}

#[test]
fn origins() {
    let o = read_origin("n", Some("15169 | 8.8.8.0/24 | US | arin | 2014-03-14")).expect("origin");
    assert_eq!((o.asn, o.country.as_str()), (15169, "US"));
    let several = read_origin("n", Some("701 702 | x | DE")).expect("origin");
    assert_eq!(several.asn, 701);
    for bad in ["NA | x | DE", " | x | DE", "4294967296 | x | DE", "-1 | x | DE"] {
        assert_eq!(read_origin("n", Some(bad)).expect("origin").asn, 0);
    }
    assert_eq!(read_origin("n", Some("4294967295|x|DE")).expect("origin").asn, u32::MAX);
    match read_origin("4.4.8.8.origin.asn.cymru.com", None) {
        Err(e) => assert_eq!(e.message(), "no TXT for 4.4.8.8.origin.asn.cymru.com"),
        _ => panic!("record"),
    }
    match read_origin("n", Some("15169 | US")) {
        Err(e) => assert_eq!(e.message(), "bad cymru TXT: 15169 | US"),
        _ => panic!("record"),
    }
}

#[test]
fn organisations() {
    assert_eq!(
        read_org(Some("15169 | US | arin | 2000-03-30 | GOOGLE, US | more")),
        "GOOGLE, US"
    );
    assert_eq!(read_org(Some("15169 | US | last ")), "last");
    assert_eq!(read_org(Some("")), "");
    assert_eq!(read_org(None), "");
}

#[test]
fn a_lookup_asks_twice() {
    let (name, pending) = match start(&IpAddr::V4(0x0808_0808)) {
        Step::Ask(name, pending) => (name, pending),
        _ => panic!("step"),
    };
    assert_eq!(name, "8.8.8.8.origin.asn.cymru.com");
    let record = vec![b"15169 | 8.8.8.0/24 | US | arin | 2014-03-14".to_vec()];
    let (name, pending) = match proceed(pending, Answer::Record(record), 5) {
        Step::Ask(name, pending) => (name, pending),
        _ => panic!("step"),
    };
    assert_eq!(name, "AS15169.asn.cymru.com");
    let record = vec![b"15169 | US | arin | 2000-03-30 | ".to_vec(), b"GOOGLE, US".to_vec()];
    match proceed(pending, Answer::Record(record), 6) {
        Step::Known(i) => {
            assert_eq!((i.asn, i.looked_up_at), (15169, 6));
            assert_eq!((i.country.as_str(), i.org.as_str()), ("US", "GOOGLE, US"));
        }
        _ => panic!("step"),
    }
}

#[test]
fn a_lookup_may_end_early() {
    assert!(matches!(start(&IpAddr::V6(7)), Step::Failed(AsnError::NotIpv4)));
    let origin = || Pending::Origin(String::from("n"));
    match proceed(origin(), Answer::Failed, 0) {
        Step::Failed(e) => assert_eq!(e.message(), "cymru origin txt"),
        _ => panic!("step"),
    }
    match proceed(origin(), Answer::Nothing, 0) {
        Step::Failed(e) => assert_eq!(e.message(), "no TXT for n"),
        _ => panic!("step"),
    }
    match proceed(origin(), Answer::Record(vec![b"1|2".to_vec()]), 0) {
        Step::Failed(e) => assert_eq!(e.message(), "bad cymru TXT: 1|2"),
        _ => panic!("step"),
    }
    match proceed(origin(), Answer::Record(vec![b"NA|x|DE".to_vec()]), 9) {
        Step::Known(i) => {
            assert_eq!((i.asn, i.looked_up_at), (0, 9));
            assert_eq!((i.country.as_str(), i.org.as_str()), ("DE", ""));
        }
        _ => panic!("step"),
    }
}

#[test]
fn a_missing_description_leaves_the_organisation_empty() {
    for answer in [Answer::Failed, Answer::Nothing] {
        let o = read_origin("n", Some("1|x|DE")).expect("origin");
        match proceed(Pending::Org(o), answer, 3) {
            Step::Known(i) => assert_eq!((i.asn, i.org.as_str()), (1, "")),
            _ => panic!("step"),
        }
    }
}

fn info(asn: u32, country: &str, org: &str) -> AsnInfo {
    AsnInfo { asn, country: country.to_string(), org: org.to_string(), looked_up_at: 0 }
}

fn row(ip: u32, hits: usize) -> IpRow {
    IpRow { ip: IpAddr::V4(ip), hits, first: 0, last: 0 }
}

#[test]
fn report_by_system() {
    let rows = vec![row(1, 5), row(2, 4), row(3, 3)];
    let infos = vec![info(7, "DE", "first"), info(8, "US", "big"), info(8, "XX", "later")];
    let table = asn_table(&rows, &infos, 10);
    assert_eq!(table.len(), 2);
    assert_eq!((table[0].asn, table[0].hits), (8, 7));
    assert_eq!((table[0].country.as_str(), table[0].org.as_str()), ("US", "big"));
    assert_eq!((table[1].asn, table[1].hits), (7, 5));
    assert_eq!(asn_table(&rows, &infos, 1).len(), 1);
    assert_eq!(
        render_asn_heading(),
        format!("{:>6}  {:>8}  {:<3}  org", "hits", "asn", "cc")
    );
    assert_eq!(render_asn(&table[0]), "     7  AS8       US   big");
}

#[test]
fn top_hits_are_at_most_the_events() {
    let events: Vec<ProbeEvent> = (0..50u32)
        .map(|i| ProbeEvent {
            ts_unix: 0,
            ip: IpAddr::V4(i % 7),
            reason: ProbeReason::HandshakeEof,
        })
        .collect();
    assert_eq!(top_ips(&events, ASN_IPS).iter().map(|r| r.hits).sum::<usize>(), 50);
    assert!(top_ips(&events, 3).iter().map(|r| r.hits).sum::<usize>() <= 50);
}
