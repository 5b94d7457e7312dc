use nanobyte::geo::{
    batches, candidates, city_table, needed, needs_lookup, org_table, pause_after, read_answer,
    render_city, render_city_heading, render_org, render_org_heading, render_plan,
    render_resolved, Cached, GeoEntry,
};
use nanobyte::probe::{IpAddr, ProbeEvent, ProbeReason};
use nanobyte::store::GeoInfo;

fn probe(ip: u32) -> ProbeEvent {
    ProbeEvent { ts_unix: 0, ip: IpAddr::V4(ip), reason: ProbeReason::HandshakeEof }
}

#[test]
fn candidates_need_enough_hits() {
    let events = vec![probe(1), probe(2), probe(1), probe(3), probe(3)];
    assert_eq!(candidates(&events, 2), vec![IpAddr::V4(1), IpAddr::V4(3)]);
    assert_eq!(candidates(&events, 0).len(), 3);
}

#[test]
fn stale_entries_are_looked_up() {
    assert!(needs_lookup(None, 1000, 30));
    assert!(!needs_lookup(Some(86400), 2 * 86400, 1));
    assert!(needs_lookup(Some(86399), 2 * 86400, 1));
    assert!(!needs_lookup(Some(i64::MIN), i64::MIN, i64::MAX));
    let ips = vec![IpAddr::V4(1), IpAddr::V4(2), IpAddr::V4(3)];
    assert_eq!(
        needed(&ips, &vec![None, Some(5), Some(4)], 5, 0),
        vec![IpAddr::V4(1), IpAddr::V4(3)]
    );
}

#[test]
fn batches_of_one_hundred() {
    let ips: Vec<IpAddr> = (0..250).map(IpAddr::V4).collect();
    let all = batches(&ips);
    assert_eq!(all.iter().map(|b| b.len()).collect::<Vec<_>>(), vec![100, 100, 50]);
    assert_eq!(all.concat(), ips);
    assert_eq!(all.iter().map(pause_after).collect::<Vec<_>>(), vec![true, true, false]);
    assert_eq!(batches(&ips[..100].to_vec()).len(), 1);
    assert!(batches(&vec![]).is_empty());
}

fn answer(status: &str, ip: Option<IpAddr>) -> GeoEntry {
    GeoEntry {
        status: status.to_string(),
        country: String::from("United States"),
        country_code: String::from("US"),
        region: String::from("Virginia"),
        city: String::from("Ashburn"),
        isp: String::from("isp"),
        org: String::from("org"),
        as_field: String::from("AS1"),
        ip,
    }
}

#[test]
fn answers_are_filtered() {
    let entries = vec![
        answer("fail", Some(IpAddr::V4(1))),
        answer("success", None),
        answer("success", Some(IpAddr::V4(2))),
    ];
    let got = read_answer(&entries, 99);
    assert_eq!(got.len(), 1);
    assert_eq!(got[0].0, IpAddr::V4(2));
    let g = &got[0].1;
    assert_eq!((g.country.as_str(), g.country_code.as_str()), ("United States", "US"));
    assert_eq!((g.region.as_str(), g.city.as_str()), ("Virginia", "Ashburn"));
    assert_eq!((g.isp.as_str(), g.org.as_str(), g.as_field.as_str()), ("isp", "org", "AS1"));
    assert_eq!(g.looked_up_at, 99);
}

fn cached(ip: Option<u32>, city: &str, org: &str, isp: &str) -> Cached {
    let mut geo = GeoInfo::default();
    geo.country_code = String::from("US");
    geo.region = String::from("A region with a very long name");
    geo.city = city.to_string();
    geo.org = org.to_string();
    geo.isp = isp.to_string();
    Cached { ip: ip.map(IpAddr::V4), geo }
}

#[test]
fn report_by_city() {
    let cache = vec![
        cached(None, "Paris", "", ""),
        cached(Some(1), "Paris", "", ""),
        cached(Some(2), "Ashburn", "", ""),
        cached(Some(3), "Ashburn", "", ""),
    ];
    let rows = city_table(&cache, 9);
    assert_eq!(rows.len(), 2);
    assert_eq!((rows[0].place.city.as_str(), rows[0].ips), ("Ashburn", 2));
    assert_eq!(rows[0].sample, IpAddr::V4(2));
    assert_eq!((rows[1].place.city.as_str(), rows[1].ips), ("Paris", 1));
    assert_eq!(city_table(&cache, 1).len(), 1);
    assert_eq!(
        render_city_heading(),
        format!("{:>5}  {:<3}  {:<20}  {:<25}  sample_ip", "ips", "cc", "region", "city")
    );
    assert_eq!(
        render_city(&rows[0], "0.0.0.2"),
        "    2  US   A region with a very  Ashburn                    0.0.0.2"
    );
}

#[test]
fn report_by_organisation() {
    let cache = vec![
        cached(Some(1), "", "acme", "isp"),
        cached(Some(2), "", "", "isp"),
        cached(Some(3), "", "", "isp"),
        cached(None, "", "acme", "isp"),
    ];
    let rows = org_table(&cache, 9);
    assert_eq!(rows.len(), 2);
    assert_eq!((rows[0].org.as_str(), rows[0].ips), ("isp", 2));
    assert_eq!((rows[1].org.as_str(), rows[1].ips), ("acme", 1));
    assert_eq!(render_org_heading(), "  ips  org");
    assert_eq!(render_org(&rows[0]), "    2  isp");
}

#[test]
fn progress_lines() {
    assert_eq!(
        render_plan(3, 14),
        "resolving 3 IPs via ip-api.com batch (cache has 14 already)"
    );
    assert_eq!(render_resolved(2, 16), "resolved=2  total_geo_cache=16");
}
