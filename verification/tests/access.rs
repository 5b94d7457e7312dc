use nanobyte::access::{
    access_stats, find_visits, render_stats, render_session, render_session_heading, render_visitor, sessions,
};
use nanobyte::store::AccessEvent;

fn visit(ts_unix: i64, ip_hash: &str, path: &str) -> AccessEvent {
    AccessEvent {
        ts_unix,
        host: String::from("example.org"),
        path: path.to_string(),
        method: String::from("GET"),
        status: 200,
        duration_ms: 3,
        country: String::new(),
        city: String::new(),
        region: String::new(),
        ua_family: String::new(),
        is_bot: false,
        ip_hash: ip_hash.to_string(),
    }
}

#[test]
fn visits_in_order() {
    let events = vec![visit(9, "a", "/"), visit(1, "b", "/"), visit(3, "a", "/x")];
    assert_eq!(find_visits(&events, "a"), vec![2, 0]);
    assert_eq!(find_visits(&events, "c"), Vec::<usize>::new());
}

#[test]
fn report_on_a_visitor() {
    let mut early = visit(3, "a", "/a/path/that/is/longer/than/forty/characters/indeed");
    early.country = String::from("US");
    early.city = String::from("Ashburn");
    early.region = String::from("Virginia");
    early.ua_family = String::from("Firefox");
    early.is_bot = true;
    let events = vec![visit(7263, "a", "/"), visit(1, "b", "/"), early, visit(5, "a", "/")];
    assert_eq!(
        render_visitor(&events, "a"),
        vec![
            "== ip_hash a ==",
            "  events  : 3  unique paths: 2",
            "  dwell   : 2h01m  (1970-01-01T00:00:03Z → 1970-01-01T02:01:03Z)",
            "  country : US  city: Ashburn  region: Virginia",
            "  ua      : Firefox  bot: true",
            "  timeline (first 40 hits):",
            "    1970-01-01T00:00:03Z  200 GET    /a/path/that/is/longer/than/forty/charac  host=example.org",
            "    1970-01-01T00:00:05Z  200 GET    /                                         host=example.org",
            "    1970-01-01T02:01:03Z  200 GET    /                                         host=example.org",
        ]
    );
    assert_eq!(
        render_visitor(&events, "nobody"),
        vec!["no access events for ip_hash nobody"]
    );
}

#[test]
fn long_timelines_are_cut() {
    let events: Vec<AccessEvent> = (0..43).map(|t| visit(t, "a", "/")).collect();
    let lines = render_visitor(&events, "a");
    assert_eq!(lines.len(), 6 + 40 + 1);
    assert_eq!(lines[46], "    ... (3 more)");
    let exact: Vec<AccessEvent> = (0..40).map(|t| visit(t, "a", "/")).collect();
    assert_eq!(render_visitor(&exact, "a").len(), 46);
}

#[test]
fn sessions_are_summarised() {
    let mut second = visit(4000, "long", "/x");
    second.country = String::from("DE");
    second.ua_family = String::from("A very long user agent");
    second.is_bot = true;
    let mut third = visit(10, "long", "/x");
    third.country = String::from("FR");
    third.city = String::from("Paris");
    third.region = String::from("IDF");
    let events = vec![
        visit(0, "short", "/"),
        visit(5, "short", "/"),
        visit(1, "long", "/"),
        second,
        third,
    ];
    let all = sessions(&events, 0, false);
    assert_eq!(all.len(), 2);
    assert_eq!(all.iter().map(|s| s.hits).sum::<usize>(), events.len());
    let s = &all[0];
    assert_eq!(s.ip_hash, "long");
    assert_eq!((s.first, s.last, s.hits, s.paths), (1, 4000, 3, 2));
    assert_eq!((s.country.as_str(), s.city.as_str(), s.region.as_str()), ("DE", "Paris", "IDF"));
    assert!(s.bot);
    assert_eq!(
        render_session(s),
        "  1h06m39s       3       2  DE   true   A very long us  long"
    );
    assert_eq!(
        render_session(&all[1]),
        "  0h00m05s       2       1       false                  short"
    );
}

#[test]
fn sessions_are_filtered() {
    let mut bot = visit(9000, "bot", "/");
    bot.is_bot = true;
    let events = vec![visit(0, "bot", "/"), bot, visit(0, "a", "/"), visit(3600, "a", "/")];
    let hashes = |v: Vec<nanobyte::access::Session>| {
        v.into_iter().map(|s| s.ip_hash).collect::<Vec<_>>()
    };
    assert_eq!(hashes(sessions(&events, 3600, false)), vec!["bot", "a"]);
    assert_eq!(hashes(sessions(&events, 3601, false)), vec!["bot"]);
    assert_eq!(hashes(sessions(&events, 0, true)), vec!["a"]);
    let many: Vec<AccessEvent> = (0..50).map(|i| visit(0, &format!("v{i}"), "/")).collect();
    let shown = hashes(sessions(&many, 0, false));
    assert_eq!(shown.len(), 40);
    assert_eq!((shown[0].as_str(), shown[39].as_str()), ("v0", "v39"));
}

#[test]
fn session_heading_has_a_rule() {
    assert_eq!(
        render_session_heading(),
        vec![
            format!(
                "{:>9}  {:>6}  {:>6}  {:<3}  {:<5}  {:<14}  ip_hash",
                "dwell", "hits", "paths", "cc", "bot", "ua"
            ),
            "-".repeat(90),
        ]
    );
}

#[test]
fn access_statistics() {
    assert!(access_stats(&vec![]).is_none());
    let events = vec![visit(9, "a", "/"), visit(1, "b", "/"), visit(3, "a", "/x")];
    let s = access_stats(&events).expect("stats");
    assert_eq!((s.events, s.visitors, s.first, s.last), (3, 2, 1, 9));
    assert_eq!(
        render_stats(&s),
        vec![
            "access events  : 3",
            "visitors       : 2",
            "first access   : 1970-01-01T00:00:01Z UTC",
            "last access    : 1970-01-01T00:00:09Z UTC",
        ]
    );
}
