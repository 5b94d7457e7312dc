//! Reports on requests: statistics, one visitor's timeline, and the visitors'
//! sessions.

use vstd::prelude::*;
use crate::calendar;
use crate::groups;
use crate::probe;
use crate::rank;
use crate::store::AccessEvent;
use crate::text;
use crate::timeline;

verus! {

/// The visitors of events.
pub open spec fn visitors(events: Seq<AccessEvent>) -> Seq<Seq<char>> {
    events.map_values(|e: AccessEvent| e.ip_hash@)
}

/// The instants of events.
pub open spec fn times(events: Seq<AccessEvent>) -> Seq<int> {
    events.map_values(|e: AccessEvent| e.ts_unix as int)
}

/// The paths of the events at some positions.
pub open spec fn paths_at(events: Seq<AccessEvent>, at: Seq<int>) -> Seq<Seq<char>> {
    at.map_values(|i: int| events[i].path@)
}

/// The text of a truth value.
pub open spec fn yes_no(b: bool) -> Seq<char> {
    if b {
        "true"@
    } else {
        "false"@
    }
}

fn bool_text(b: bool) -> (r: &'static str)
    ensures
        r@ == yes_no(b),
{
    if b {
        "true"
    } else {
        "false"
    }
}

/// Counts the different paths of the events at some positions.
fn count_paths(events: &Vec<AccessEvent>, at: &Vec<usize>) -> (r: usize)
    requires
        forall|i: int| 0 <= i < at@.len() ==> #[trigger] at@[i] < events@.len(),
    ensures
        r == groups::distinct(paths_at(events@, rank::positions(at@))).len(),
{
    let mut keys: Vec<String> = Vec::new();
    let mut i: usize = 0;
    while i < at.len()
        invariant
            i <= at@.len(),
            forall|k: int| 0 <= k < at@.len() ==> #[trigger] at@[k] < events@.len(),
            keys@.len() == i,
            forall|k: int| 0 <= k < i ==> (#[trigger] keys@[k])@ == events@[at@[k] as int].path@,
        decreases at@.len() - i,
    {
        keys.push(events[at[i]].path.clone());
        i = i + 1;
    }
    assert(groups::views(keys@) =~= paths_at(events@, rank::positions(at@)));
    groups::group(&keys).len()
}

// ---------------------------------------------------------------------------
// Statistics
// ---------------------------------------------------------------------------

/// What all events amount to.
#[derive(Copy, Clone, Debug, PartialEq, Eq, Structural)]
pub struct AccessStats {
    /// How many events there are.
    pub events: usize,
    /// How many visitors they come from.
    pub visitors: usize,
    /// The first of their instants.
    pub first: i64,
    /// The last of their instants.
    pub last: i64,
}

/// Summarises all events; nothing where there are none.
pub fn access_stats(events: &Vec<AccessEvent>) -> (r: Option<AccessStats>)
    ensures
        match r {
            Some(s) => {
                let all = timeline::everywhere(events@.len());
                &&& events@.len() > 0
                &&& s.events == events@.len()
                &&& s.visitors == groups::distinct(visitors(events@)).len()
                &&& s.first == timeline::earliest(times(events@), all)
                &&& s.last == timeline::latest(times(events@), all)
                &&& s.first <= s.last
                &&& s.visitors == visitors(events@).to_set().len()
                &&& forall|i: int|
                    0 <= i < events@.len() ==> s.first <= (#[trigger] events@[i]).ts_unix <= s.last
                &&& exists|i: int|
                    0 <= i < events@.len() && (#[trigger] events@[i]).ts_unix == s.first
                &&& exists|i: int|
                    0 <= i < events@.len() && (#[trigger] events@[i]).ts_unix == s.last
            },
            None => events@.len() == 0,
        },
{
    let n: usize = events.len();
    if n == 0 {
        return None;
    }
    let mut keys: Vec<String> = Vec::new();
    let mut ts: Vec<i64> = Vec::new();
    let mut at: Vec<usize> = Vec::new();
    let mut i: usize = 0;
    while i < n
        invariant
            i <= n == events@.len(),
            keys@.len() == i,
            ts@.len() == i,
            at@.len() == i,
            forall|k: int| 0 <= k < i ==> (#[trigger] keys@[k])@ == events@[k].ip_hash@,
            forall|k: int| 0 <= k < i ==> #[trigger] ts@[k] == events@[k].ts_unix,
            forall|k: int| 0 <= k < i ==> #[trigger] at@[k] == k,
        decreases n - i,
    {
        keys.push(events[i].ip_hash.clone());
        ts.push(events[i].ts_unix);
        at.push(i);
        i = i + 1;
    }
    assert(groups::views(keys@) =~= visitors(events@));
    assert(ts@.map_values(|t: i64| t as int) =~= times(events@));
    assert(rank::positions(at@) =~= timeline::everywhere(events@.len()));
    let (first, last) = timeline::bounds(&ts, &at);
    proof {
        let all = timeline::everywhere(events@.len());
        groups::law_distinct_counts_the_values(visitors(events@));
        timeline::law_earliest_and_latest_are_bounds(times(events@), all);
        assert forall|i: int| 0 <= i < events@.len() implies first <= (#[trigger] events@[i]).ts_unix
            <= last by {
            assert(all[i] == i);
            assert(times(events@)[all[i]] == events@[i].ts_unix);
        }
        let a = choose|i: int| 0 <= i < all.len() && times(events@)[#[trigger] all[i]] == first;
        let b = choose|i: int| 0 <= i < all.len() && times(events@)[#[trigger] all[i]] == last;
        assert(events@[a].ts_unix == first && events@[b].ts_unix == last);
    }
    Some(AccessStats { events: n, visitors: groups::group(&keys).len(), first, last })
}

/// The lines of the statistics.
pub open spec fn stats_text(s: AccessStats) -> Seq<Seq<char>> {
    seq![
        "access events  : "@ + text::dec(s.events as nat),
        "visitors       : "@ + text::dec(s.visitors as nat),
        "first access   : "@ + calendar::iso_of(s.first as int) + " UTC"@,
        "last access    : "@ + calendar::iso_of(s.last as int) + " UTC"@,
    ]
}

/// Renders the statistics.
pub fn render_stats(s: &AccessStats) -> (r: Vec<String>)
    ensures
        text::texts(r@) == stats_text(*s),
{
    let mut a = "access events  : ".to_owned();
    text::push_dec(&mut a, s.events as u64);
    let mut b = "visitors       : ".to_owned();
    text::push_dec(&mut b, s.visitors as u64);
    let mut c = "first access   : ".to_owned();
    c.append(calendar::ts_to_iso(s.first).as_str());
    c.append(" UTC");
    let mut d = "last access    : ".to_owned();
    d.append(calendar::ts_to_iso(s.last).as_str());
    d.append(" UTC");
    let mut out: Vec<String> = Vec::new();
    out.push(a);
    out.push(b);
    out.push(c);
    out.push(d);
    assert(text::texts(out@) =~= stats_text(*s));
    out
}

// ---------------------------------------------------------------------------
// One visitor
// ---------------------------------------------------------------------------

/// How many events the report on a visitor lists.
pub const TIMELINE: usize = 40;

/// The positions of a visitor's events, in chronological order.
pub open spec fn visits_of(events: Seq<AccessEvent>, visitor: Seq<char>) -> Seq<int> {
    timeline::chronicle(times(events), groups::members(visitors(events), visitor))
}

/// Finds the events of a visitor; gives their positions in chronological
/// order.
pub fn find_visits(events: &Vec<AccessEvent>, visitor: &str) -> (r: Vec<usize>)
    ensures
        rank::positions(r@) == visits_of(events@, visitor@),
        forall|i: int| 0 <= i < r@.len() ==> #[trigger] r@[i] < events@.len(),
        forall|i: int, j: int|
            0 <= i <= j < r@.len() ==> events@[#[trigger] r@[i] as int].ts_unix
                <= events@[#[trigger] r@[j] as int].ts_unix,
{
    let n: usize = events.len();
    let mut ts: Vec<i64> = Vec::new();
    let mut at: Vec<usize> = Vec::new();
    let ghost keys = visitors(events@);
    let mut i: usize = 0;
    assert(keys.take(0) =~= Seq::<Seq<char>>::empty());
    assert(rank::positions(at@) =~= groups::members(keys.take(0), visitor@));
    while i < n
        invariant
            i <= n == events@.len(),
            keys == visitors(events@),
            ts@.len() == i,
            forall|k: int| 0 <= k < i ==> #[trigger] ts@[k] == events@[k].ts_unix,
            forall|k: int| 0 <= k < at@.len() ==> #[trigger] at@[k] < i,
            rank::positions(at@) == groups::members(keys.take(i as int), visitor@),
        decreases n - i,
    {
        ts.push(events[i].ts_unix);
        assert(keys.take(i + 1).drop_last() =~= keys.take(i as int));
        assert(keys.take(i + 1).last() == events@[i as int].ip_hash@);
        let ghost before = at@;
        if text::same_text(events[i].ip_hash.as_str(), visitor) {
            at.push(i);
            assert(rank::positions(at@) =~= rank::positions(before).push(i as int));
        }
        i = i + 1;
    }
    assert(keys.take(n as int) =~= keys);
    assert(ts@.map_values(|t: i64| t as int) =~= times(events@));
    let order = timeline::chronological(&ts, &at);
    assert forall|i: int, j: int| 0 <= i <= j < order@.len() implies events@[
        #[trigger] order@[i] as int].ts_unix <= events@[#[trigger] order@[j] as int].ts_unix by {
        assert(ts@[order@[i] as int] <= ts@[order@[j] as int]);
    }
    order
}

/// A line of a visitor's timeline.
pub open spec fn visit_line(e: AccessEvent) -> Seq<char> {
    "    "@ + calendar::iso_of(e.ts_unix as int) + "  "@ + text::pad_left(
        text::dec(e.status as nat),
        3,
        ' ',
    ) + " "@ + text::pad_right(e.method@, 6) + " "@ + text::pad_right(
        probe::at_most(e.path@, 40),
        40,
    ) + "  host="@ + e.host@
}

/// A line of a timeline shows the instant, the status in three columns, the
/// method in six, no more than forty characters of the path in forty, and the
/// whole host.
pub proof fn law_visit_line_shows_the_request(e: AccessEvent)
    requires
        text::dec(e.status as nat).len() <= 3,
        e.method@.len() <= 6,
    ensures
        ({
            let line = visit_line(e);
            let at = 4 + calendar::iso_of(e.ts_unix as int).len() as int;
            let path = e.path@;
            &&& line.subrange(4, at) == calendar::iso_of(e.ts_unix as int)
            &&& text::shows_right(line, at + 2, 3, text::dec(e.status as nat))
            &&& text::shows_left(line, at + 6, 6, e.method@)
            &&& path.len() <= 40 ==> text::shows_left(line, at + 13, 40, path)
            &&& path.len() > 40 ==> line.subrange(at + 13, at + 53) == path.take(40)
            &&& line.skip(at + 53) == "  host="@ + e.host@
        }),
{
    reveal_strlit("    ");
    reveal_strlit("  ");
    reveal_strlit(" ");
    let line = visit_line(e);
    let iso = calendar::iso_of(e.ts_unix as int);
    let at = 4 + iso.len() as int;
    let status = text::dec(e.status as nat);
    let path = probe::at_most(e.path@, 40);
    let end = "  host="@ + e.host@;
    let a = "    "@ + iso + "  "@;
    let b = a + text::pad_left(status, 3, ' ') + " "@;
    let c = b + text::pad_right(e.method@, 6) + " "@;
    text::law_padding_fills_the_column(status, 3, ' ');
    text::law_padding_fills_the_column(e.method@, 6, ' ');
    text::law_padding_fills_the_column(path, 40, ' ');
    assert(line =~= c + text::pad_right(path, 40) + end);
    text::lemma_shows_left(c, path, 40, end);
    let d = " "@ + text::pad_right(path, 40) + end;
    assert(line =~= b + text::pad_right(e.method@, 6) + d);
    text::lemma_shows_left(b, e.method@, 6, d);
    let f = " "@ + text::pad_right(e.method@, 6) + d;
    assert(line =~= a + text::pad_left(status, 3, ' ') + f);
    text::lemma_shows_right(a, status, 3, f);
    assert(line.subrange(4, at) =~= iso);
    assert(line.skip(at + 53) =~= end);
}

/// Renders a line of a visitor's timeline.
fn render_visit(e: &AccessEvent) -> (r: String)
    ensures
        r@ == visit_line(*e),
{
    let mut out = "    ".to_owned();
    out.append(calendar::ts_to_iso(e.ts_unix).as_str());
    out.append("  ");
    text::push_dec_right(&mut out, e.status as u64, 3);
    out.append(" ");
    text::push_padded_right(&mut out, e.method.as_str(), 6);
    out.append(" ");
    let path = probe::first_chars(e.path.as_str(), 40);
    text::push_padded_right(&mut out, path.as_str(), 40);
    out.append("  host=");
    out.append(e.host.as_str());
    out
}

/// The lines of the report on a visitor.
pub open spec fn visitor_text(events: Seq<AccessEvent>, visitor: Seq<char>) -> Seq<Seq<char>> {
    let at = visits_of(events, visitor);
    if at.len() == 0 {
        seq!["no access events for ip_hash "@ + visitor]
    } else {
        let sample = events[at[0]];
        let first = times(events)[at[0]];
        let last = times(events)[at.last()];
        seq![
            "== ip_hash "@ + visitor + " =="@,
            "  events  : "@ + text::dec(at.len()) + "  unique paths: "@ + text::dec(
                groups::distinct(paths_at(events, at)).len(),
            ),
            "  dwell   : "@ + timeline::dwell_text((last - first) as nat) + "  ("@
                + calendar::iso_of(first) + " → "@ + calendar::iso_of(last) + ")"@,
            "  country : "@ + sample.country@ + "  city: "@ + sample.city@ + "  region: "@
                + sample.region@,
            "  ua      : "@ + sample.ua_family@ + "  bot: "@ + yes_no(sample.is_bot),
            "  timeline (first 40 hits):"@,
        ] + rank::leading(at, TIMELINE as nat).map_values(|i: int| visit_line(events[i]))
            + if at.len() > TIMELINE {
            seq!["    ... ("@ + text::dec((at.len() - TIMELINE) as nat) + " more)"@]
        } else {
            Seq::empty()
        }
    }
}

/// The report on a visitor lists the first events, earliest first, at most
/// forty, under how many there are; it says how many more there are; and it
/// describes the visitor as the first event does.
pub proof fn law_visitor_report_lists_the_first(events: Seq<AccessEvent>, visitor: Seq<char>)
    ensures
        exists|at: Seq<int>|
            {
                let report = visitor_text(events, visitor);
                &&& #[trigger] timeline::is_timeline(times(events), visitors(events), visitor, at)
                &&& at.len() == of_visitor(events, visitor).len()
                &&& at.len() == 0 ==> report == seq!["no access events for ip_hash "@ + visitor]
                &&& at.len() > 0 ==> {
                    let first = events[at[0]];
                    &&& report.len() == if at.len() <= 40 {
                        6 + at.len()
                    } else {
                        47
                    }
                    &&& report[1] == "  events  : "@ + text::dec(at.len()) + "  unique paths: "@
                        + text::dec(paths_of(events, visitor).len())
                    &&& report[0] == "== ip_hash "@ + visitor + " =="@
                    &&& report[2] == "  dwell   : "@ + timeline::dwell_text(
                        (events[at.last()].ts_unix - first.ts_unix) as nat,
                    ) + "  ("@ + calendar::iso_of(first.ts_unix as int) + " → "@
                        + calendar::iso_of(events[at.last()].ts_unix as int) + ")"@
                    &&& report[4] == "  ua      : "@ + first.ua_family@ + "  bot: "@
                        + yes_no(first.is_bot)
                    &&& report[3] == "  country : "@ + first.country@ + "  city: "@ + first.city@
                        + "  region: "@ + first.region@
                    &&& forall|l: int|
                        6 <= l < 46 && l < 6 + at.len() ==> #[trigger] report[l] == visit_line(
                            events[at[l - 6]],
                        )
                    &&& at.len() > 40 ==> report[46] == "    ... ("@ + text::dec(
                        (at.len() - 40) as nat,
                    ) + " more)"@
                }
            },
{
    let at = visits_of(events, visitor);
    let keys = visitors(events);
    let members = groups::members(keys, visitor);
    let visits = of_visitor(events, visitor);
    let report = visitor_text(events, visitor);
    timeline::law_chronicle_is_the_timeline(times(events), keys, visitor);
    lemma_visits(events, visitor);
    if at.len() > 0 {
        let listed = rank::leading(at, TIMELINE as nat);
        assert forall|l: int| 6 <= l < 46 && l < 6 + at.len() implies #[trigger] report[l]
            == visit_line(events[at[l - 6]]) by {
            assert(listed[l - 6] == at[l - 6]);
        }
        groups::law_distinct_counts_the_values(paths_at(events, at));
        assert(paths_at(events, at).to_set() =~= paths_of(events, visitor)) by {
            let all = visits.map_values(|e: AccessEvent| e.path@);
            let some = paths_at(events, at);
            assert forall|p: Seq<char>| some.to_set().contains(p) == all.to_set().contains(p) by {
                if some.contains(p) {
                    let i = choose|i: int| 0 <= i < some.len() && some[i] == p;
                    assert(keys[at[i]] == visitor);
                    groups::law_members_are_the_positions(keys, visitor);
                    assert(members.contains(at[i]));
                    let j = choose|j: int| 0 <= j < members.len() && members[j] == at[i];
                    assert(visits[j] == events[members[j]]);
                    assert(all[j] == p);
                }
                if all.contains(p) {
                    let j = choose|j: int| 0 <= j < all.len() && all[j] == p;
                    assert(visits[j] == events[members[j]]);
                    groups::lemma_members(keys, visitor);
                    assert(keys[members[j]] == visitor);
                    let i = choose|i: int| 0 <= i < at.len() && at[i] == members[j];
                    assert(some[i] == p);
                }
            }
        }
        assert(report.len() == if at.len() <= 40 { 6 + at.len() } else { 47 });
        assert(at.len() > 40 ==> report[46] == "    ... ("@ + text::dec(
            (at.len() - 40) as nat,
        ) + " more)"@);
        assert(report[1] == "  events  : "@ + text::dec(at.len()) + "  unique paths: "@
            + text::dec(paths_of(events, visitor).len()));
    }
    assert(timeline::is_timeline(times(events), keys, visitor, at));
    assert(at.len() == visits.len());
}

/// Renders the report on a visitor.
pub fn render_visitor(events: &Vec<AccessEvent>, visitor: &str) -> (r: Vec<String>)
    ensures
        text::texts(r@) == visitor_text(events@, visitor@),
{
    let at = find_visits(events, visitor);
    let n: usize = at.len();
    let ghost p = rank::positions(at@);
    let ghost full = visitor_text(events@, visitor@);
    let mut out: Vec<String> = Vec::new();
    if n == 0 {
        let mut a = "no access events for ip_hash ".to_owned();
        a.append(visitor);
        out.push(a);
        assert(text::texts(out@) =~= full);
        return out;
    }
    let sample = &events[at[0]];
    let first: i64 = sample.ts_unix;
    let last: i64 = events[at[n - 1]].ts_unix;
    assert(events@[at@[0] as int].ts_unix <= events@[at@[n - 1] as int].ts_unix);
    assert(p[0] == at@[0] && p.last() == at@[n - 1]);
    let mut a = "== ip_hash ".to_owned();
    a.append(visitor);
    a.append(" ==");
    out.push(a);
    let mut b = "  events  : ".to_owned();
    text::push_dec(&mut b, n as u64);
    b.append("  unique paths: ");
    let paths: usize = count_paths(events, &at);
    text::push_dec(&mut b, paths as u64);
    out.push(b);
    let mut c = "  dwell   : ".to_owned();
    timeline::push_dwell(&mut c, (last as i128 - first as i128) as u64);
    c.append("  (");
    c.append(calendar::ts_to_iso(first).as_str());
    c.append(" → ");
    c.append(calendar::ts_to_iso(last).as_str());
    c.append(")");
    out.push(c);
    let mut d = "  country : ".to_owned();
    d.append(sample.country.as_str());
    d.append("  city: ");
    d.append(sample.city.as_str());
    d.append("  region: ");
    d.append(sample.region.as_str());
    out.push(d);
    let mut e = "  ua      : ".to_owned();
    e.append(sample.ua_family.as_str());
    e.append("  bot: ");
    e.append(bool_text(sample.is_bot));
    out.push(e);
    out.push("  timeline (first 40 hits):".to_owned());
    assert(text::texts(out@) =~= full.take(6));
    let shown: usize = if n < TIMELINE {
        n
    } else {
        TIMELINE
    };
    let ghost listed = rank::leading(p, TIMELINE as nat);
    assert(listed.len() == shown);
    let mut k: usize = 0;
    while k < shown
        invariant
            k <= shown <= n == at@.len(),
            p == rank::positions(at@),
            listed == rank::leading(p, TIMELINE as nat),
            listed.len() == shown,
            full.len() >= 6 + shown,
            forall|j: int| 0 <= j < shown ==> full[6 + j] == visit_line(events@[#[trigger] listed[j]]),
            forall|i: int| 0 <= i < at@.len() ==> #[trigger] at@[i] < events@.len(),
            text::texts(out@) == full.take(6 + k),
        decreases shown - k,
    {
        assert(listed[k as int] == at@[k as int]);
        let l = render_visit(&events[at[k]]);
        let ghost before = out@;
        out.push(l);
        k = k + 1;
        assert(text::texts(out@) =~= text::texts(before).push(l@));
        assert(text::texts(out@) =~= full.take(6 + k));
    }
    if n > TIMELINE {
        let mut m = "    ... (".to_owned();
        text::push_dec(&mut m, (n - TIMELINE) as u64);
        m.append(" more)");
        let ghost before = out@;
        out.push(m);
        assert(text::texts(out@) =~= text::texts(before).push(m@));
    }
    assert(text::texts(out@) =~= full);
    out
}

// ---------------------------------------------------------------------------
// Sessions
// ---------------------------------------------------------------------------

/// How many sessions the report shows.
pub const SESSIONS: usize = 40;

/// What the events of one visitor amount to.
#[derive(Debug)]
pub struct Session {
    /// The visitor.
    pub ip_hash: String,
    /// The first instant.
    pub first: i64,
    /// The last instant.
    pub last: i64,
    /// How many events there are.
    pub hits: usize,
    /// How many different paths they ask for.
    pub paths: usize,
    /// The first country stated.
    pub country: String,
    /// The first city stated.
    pub city: String,
    /// The first region stated.
    pub region: String,
    /// The first user agent stated.
    pub ua: String,
    /// Whether any event comes from a bot.
    pub bot: bool,
}

/// The mathematical value of a `Session`.
pub struct SessionView {
    pub ip_hash: Seq<char>,
    pub first: int,
    pub last: int,
    pub hits: int,
    pub paths: int,
    pub country: Seq<char>,
    pub city: Seq<char>,
    pub region: Seq<char>,
    pub ua: Seq<char>,
    pub bot: bool,
}

impl View for Session {
    type V = SessionView;

    open spec fn view(&self) -> SessionView {
        SessionView {
            ip_hash: self.ip_hash@,
            first: self.first as int,
            last: self.last as int,
            hits: self.hits as int,
            paths: self.paths as int,
            country: self.country@,
            city: self.city@,
            region: self.region@,
            ua: self.ua@,
            bot: self.bot,
        }
    }
}

/// The first text that is not empty among those at some positions; empty where
/// there is none.
pub open spec fn first_filled(texts: Seq<Seq<char>>, at: Seq<int>) -> Seq<char>
    decreases at.len(),
{
    if at.len() == 0 {
        Seq::empty()
    } else {
        let before = first_filled(texts, at.drop_last());
        if before.len() > 0 {
            before
        } else {
            texts[at.last()]
        }
    }
}

/// The countries of events.
pub open spec fn countries(events: Seq<AccessEvent>) -> Seq<Seq<char>> {
    events.map_values(|e: AccessEvent| e.country@)
}

/// The cities of events.
pub open spec fn cities(events: Seq<AccessEvent>) -> Seq<Seq<char>> {
    events.map_values(|e: AccessEvent| e.city@)
}

/// The regions of events.
pub open spec fn regions(events: Seq<AccessEvent>) -> Seq<Seq<char>> {
    events.map_values(|e: AccessEvent| e.region@)
}

/// The user agents of events.
pub open spec fn agents(events: Seq<AccessEvent>) -> Seq<Seq<char>> {
    events.map_values(|e: AccessEvent| e.ua_family@)
}

/// What the events of one visitor amount to.
pub open spec fn session_of(events: Seq<AccessEvent>, visitor: Seq<char>) -> SessionView {
    let at = groups::members(visitors(events), visitor);
    SessionView {
        ip_hash: visitor,
        first: timeline::earliest(times(events), at),
        last: timeline::latest(times(events), at),
        hits: at.len() as int,
        paths: groups::distinct(paths_at(events, at)).len() as int,
        country: first_filled(countries(events), at),
        city: first_filled(cities(events), at),
        region: first_filled(regions(events), at),
        ua: first_filled(agents(events), at),
        bot: exists|i: int| 0 <= i < at.len() && (#[trigger] events[at[i]]).is_bot,
    }
}

/// One session for each visitor, in the order in which they first appear.
pub open spec fn sessions_of(events: Seq<AccessEvent>) -> Seq<SessionView> {
    groups::distinct(visitors(events)).map_values(|v: Seq<char>| session_of(events, v))
}

/// Every event belongs to exactly one session: the sessions' events add up to
/// all events.
pub proof fn law_sessions_cover_events(events: Seq<AccessEvent>)
    ensures
        rank::sum(sessions_of(events).map_values(|s: SessionView| s.hits)) == events.len(),
{
    groups::law_groups_cover_events(visitors(events));
    assert(sessions_of(events).map_values(|s: SessionView| s.hits) =~= groups::counts(
        visitors(events),
    ));
}

/// How long a session went on, in seconds.
pub open spec fn session_dwell(s: SessionView) -> int {
    s.last - s.first
}

/// Whether the report shows a session.
pub open spec fn reported(s: SessionView, min_seconds: int, humans_only: bool) -> bool {
    session_dwell(s) >= min_seconds && !(humans_only && s.bot)
}

/// The sessions that the report shows: longest first, those that are too short
/// or unwanted left out, at most `SESSIONS`.
pub open spec fn shown_sessions(
    events: Seq<AccessEvent>,
    min_seconds: int,
    humans_only: bool,
) -> Seq<SessionView> {
    let all = sessions_of(events);
    let ranked = rank::top(all, all.map_values(|s: SessionView| session_dwell(s)), all.len());
    rank::leading(
        ranked.filter(|s: SessionView| reported(s, min_seconds, humans_only)),
        SESSIONS as nat,
    )
}

/// The events of a visitor, in the order of the log.
pub open spec fn of_visitor(events: Seq<AccessEvent>, visitor: Seq<char>) -> Seq<AccessEvent> {
    events.filter(|e: AccessEvent| e.ip_hash@ == visitor)
}

/// The paths that a visitor asked for.
pub open spec fn paths_of(events: Seq<AccessEvent>, visitor: Seq<char>) -> Set<Seq<char>> {
    of_visitor(events, visitor).map_values(|e: AccessEvent| e.path@).to_set()
}

/// `chosen` is the first text that is not empty; empty where there is none.
pub open spec fn first_stated(texts: Seq<Seq<char>>, chosen: Seq<char>) -> bool {
    ||| chosen.len() == 0 && forall|i: int| 0 <= i < texts.len() ==> (#[trigger] texts[i]).len() == 0
    ||| chosen.len() > 0 && exists|i: int|
        0 <= i < texts.len() && #[trigger] texts[i] == chosen && forall|j: int|
            0 <= j < i ==> (#[trigger] texts[j]).len() == 0
}

/// A session states of its visitor how many events there are, between which
/// instants they lie, how many different paths they ask for, what is first
/// stated of the visitor, and whether any event comes from a bot.
pub open spec fn describes(events: Seq<AccessEvent>, s: SessionView) -> bool {
    let visits = of_visitor(events, s.ip_hash);
    &&& visits.len() > 0
    &&& s.hits == visits.len()
    &&& s.paths == paths_of(events, s.ip_hash).len()
    &&& forall|i: int| 0 <= i < visits.len() ==> s.first <= (#[trigger] visits[i]).ts_unix <= s.last
    &&& exists|i: int| 0 <= i < visits.len() && (#[trigger] visits[i]).ts_unix == s.first
    &&& exists|i: int| 0 <= i < visits.len() && (#[trigger] visits[i]).ts_unix == s.last
    &&& first_stated(visits.map_values(|e: AccessEvent| e.country@), s.country)
    &&& first_stated(visits.map_values(|e: AccessEvent| e.city@), s.city)
    &&& first_stated(visits.map_values(|e: AccessEvent| e.region@), s.region)
    &&& first_stated(visits.map_values(|e: AccessEvent| e.ua_family@), s.ua)
    &&& s.bot <==> exists|i: int| 0 <= i < visits.len() && (#[trigger] visits[i]).is_bot
}

/// The members of a visitor are that visitor's events.
proof fn lemma_visits(events: Seq<AccessEvent>, visitor: Seq<char>)
    ensures
        groups::members(visitors(events), visitor).len() == of_visitor(events, visitor).len(),
        forall|i: int|
            0 <= i < of_visitor(events, visitor).len() ==> 0 <= #[trigger] groups::members(
                visitors(events),
                visitor,
            )[i] < events.len(),
        forall|i: int|
            0 <= i < of_visitor(events, visitor).len() ==> #[trigger] of_visitor(events, visitor)[i]
                == events[groups::members(visitors(events), visitor)[i]],
    decreases events.len(),
{
    reveal(Seq::filter);
    groups::lemma_members(visitors(events), visitor);
    let at = groups::members(visitors(events), visitor);
    let visits = of_visitor(events, visitor);
    if events.len() > 0 {
        let e = events.drop_last();
        lemma_visits(e, visitor);
        assert(visitors(events).drop_last() =~= visitors(e));
        let before = of_visitor(e, visitor);
        let earlier = groups::members(visitors(e), visitor);
        let last = events.len() - 1;
        assert(visitors(events).last() == events[last].ip_hash@);
        assert forall|i: int| 0 <= i < visits.len() implies #[trigger] visits[i] == events[at[i]] by {
            if i < before.len() {
                assert(visits[i] == before[i]);
                assert(at[i] == earlier[i]);
                assert(0 <= earlier[i] < e.len());
                assert(e[earlier[i]] == events[earlier[i]]);
            }
        }
    }
}

proof fn lemma_first_filled(texts: Seq<Seq<char>>, at: Seq<int>)
    ensures
        first_stated(at.map_values(|i: int| texts[i]), first_filled(texts, at)),
    decreases at.len(),
{
    let chosen = first_filled(texts, at);
    let all = at.map_values(|i: int| texts[i]);
    if at.len() > 0 {
        let rest = at.drop_last();
        lemma_first_filled(texts, rest);
        let before = first_filled(texts, rest);
        let some = rest.map_values(|i: int| texts[i]);
        assert forall|i: int| 0 <= i < rest.len() implies some[i] == #[trigger] all[i] by {}
        assert(all[at.len() - 1] == texts[at.last()]);
        if before.len() > 0 {
            let i = choose|i: int|
                0 <= i < some.len() && #[trigger] some[i] == before && forall|j: int|
                    0 <= j < i ==> (#[trigger] some[j]).len() == 0;
            assert(all[i] == chosen);
            assert forall|j: int| 0 <= j < i implies (#[trigger] all[j]).len() == 0 by {
                assert(some[j].len() == 0);
            }
        } else {
            assert forall|i: int| 0 <= i < rest.len() implies (#[trigger] all[i]).len() == 0 by {
                assert(some[i].len() == 0);
            }
            if chosen.len() > 0 {
                assert(all[at.len() - 1] == chosen);
            }
        }
    }
}

proof fn lemma_session(events: Seq<AccessEvent>, visitor: Seq<char>)
    requires
        visitors(events).contains(visitor),
    ensures
        describes(events, session_of(events, visitor)),
{
    let keys = visitors(events);
    let ts = times(events);
    let at = groups::members(keys, visitor);
    let visits = of_visitor(events, visitor);
    let s = session_of(events, visitor);
    lemma_visits(events, visitor);
    groups::lemma_members(keys, visitor);
    timeline::law_earliest_and_latest_are_bounds(ts, at);
    let a = choose|i: int| 0 <= i < at.len() && ts[#[trigger] at[i]] == timeline::earliest(ts, at);
    let b = choose|i: int| 0 <= i < at.len() && ts[#[trigger] at[i]] == timeline::latest(ts, at);
    assert(visits[a].ts_unix == s.first);
    assert(visits[b].ts_unix == s.last);
    assert forall|i: int| 0 <= i < visits.len() implies s.first <= (#[trigger] visits[i]).ts_unix
        <= s.last by {
        assert(ts[at[i]] == visits[i].ts_unix);
    }
    assert(paths_at(events, at) =~= visits.map_values(|e: AccessEvent| e.path@));
    groups::law_distinct_counts_the_values(paths_at(events, at));
    lemma_first_filled(countries(events), at);
    lemma_first_filled(cities(events), at);
    lemma_first_filled(regions(events), at);
    lemma_first_filled(agents(events), at);
    assert(at.map_values(|i: int| countries(events)[i]) =~= visits.map_values(
        |e: AccessEvent| e.country@,
    ));
    assert(at.map_values(|i: int| cities(events)[i]) =~= visits.map_values(
        |e: AccessEvent| e.city@,
    ));
    assert(at.map_values(|i: int| regions(events)[i]) =~= visits.map_values(
        |e: AccessEvent| e.region@,
    ));
    assert(at.map_values(|i: int| agents(events)[i]) =~= visits.map_values(
        |e: AccessEvent| e.ua_family@,
    ));
    if s.bot {
        let i = choose|i: int| 0 <= i < at.len() && (#[trigger] events[at[i]]).is_bot;
        assert(visits[i].is_bot);
    } else {
        assert forall|i: int| 0 <= i < visits.len() implies !(#[trigger] visits[i]).is_bot by {
            assert(visits[i] == events[at[i]]);
        }
    }
}

/// There is exactly one session for each visitor, and it describes that
/// visitor's events.
pub proof fn law_sessions_describe_visitors(events: Seq<AccessEvent>)
    ensures
        forall|k: int|
            0 <= k < sessions_of(events).len() ==> describes(
                events,
                #[trigger] sessions_of(events)[k],
            ),
        forall|i: int|
            0 <= i < events.len() ==> exists|k: int|
                0 <= k < sessions_of(events).len() && (#[trigger] sessions_of(events)[k]).ip_hash
                    == (#[trigger] events[i]).ip_hash@,
        forall|i: int, j: int|
            0 <= i < j < sessions_of(events).len() ==> (#[trigger] sessions_of(events)[i]).ip_hash
                != (#[trigger] sessions_of(events)[j]).ip_hash,
{
    let keys = visitors(events);
    let d = groups::distinct(keys);
    let all = sessions_of(events);
    groups::lemma_distinct(keys);
    assert forall|k: int| 0 <= k < all.len() implies describes(events, #[trigger] all[k]) by {
        assert(d.contains(d[k]));
        lemma_session(events, d[k]);
    }
    assert forall|i: int| 0 <= i < events.len() implies exists|k: int|
        0 <= k < all.len() && (#[trigger] all[k]).ip_hash == (#[trigger] events[i]).ip_hash@ by {
        assert(keys[i] == events[i].ip_hash@);
        assert(keys.contains(keys[i]));
        assert(d.contains(keys[i]));
        let k = choose|k: int| 0 <= k < d.len() && d[k] == keys[i];
        assert(all[k].ip_hash == keys[i]);
    }
    assert forall|i: int, j: int| 0 <= i < j < all.len() implies (#[trigger] all[i]).ip_hash != (
    #[trigger] all[j]).ip_hash by {
        assert(d[i] != d[j]);
    }
}

/// The longest sessions lead: each one shown describes its visitor, lasts long
/// enough and is no unwanted bot; sessions come by falling time between first
/// and last event, at most forty, no visitor twice; and a session that passes
/// and is not shown lasts no longer than any that is, and is left out only
/// where forty are shown.
pub proof fn law_longest_sessions_lead(
    events: Seq<AccessEvent>,
    min_seconds: int,
    humans_only: bool,
)
    ensures
        ({
            let shown = shown_sessions(events, min_seconds, humans_only);
            &&& shown.len() <= 40
            &&& forall|i: int|
                0 <= i < shown.len() ==> describes(events, #[trigger] shown[i]) && shown[i].last
                    - shown[i].first >= min_seconds && !(humans_only && shown[i].bot)
            &&& forall|i: int, j: int|
                0 <= i < j < shown.len() ==> (#[trigger] shown[i]).ip_hash != (
                #[trigger] shown[j]).ip_hash && shown[i].last - shown[i].first >= shown[j].last
                    - shown[j].first
            &&& forall|k: int|
                0 <= k < sessions_of(events).len() && (#[trigger] sessions_of(events)[k]).last
                    - sessions_of(events)[k].first >= min_seconds && !(humans_only && sessions_of(
                    events,
                )[k].bot) ==> shown.contains(sessions_of(events)[k]) || (shown.len() == 40
                    && forall|i: int|
                    0 <= i < shown.len() ==> (#[trigger] shown[i]).last - shown[i].first
                        >= sessions_of(events)[k].last - sessions_of(events)[k].first)
        }),
{
    let all = sessions_of(events);
    let measure = |s: SessionView| session_dwell(s);
    let keep = |s: SessionView| reported(s, min_seconds, humans_only);
    let ranked = rank::top(all, all.map_values(measure), all.len());
    let kept = ranked.filter(keep);
    let shown = shown_sessions(events, min_seconds, humans_only);
    law_sessions_describe_visitors(events);
    assert(all.no_duplicates()) by {
        assert forall|i: int, j: int| 0 <= i < all.len() && 0 <= j < all.len() && i != j implies all[i]
            != all[j] by {
            if i < j {
                assert(all[i].ip_hash != all[j].ip_hash);
            } else {
                assert(all[j].ip_hash != all[i].ip_hash);
            }
        }
    }
    rank::law_top_shows_the_largest(all, measure, all.len());
    rank::lemma_top_is_distinct(all, all.map_values(measure), all.len());
    rank::lemma_filter_keeps_order(ranked, keep, measure);
    assert forall|i: int| 0 <= i < shown.len() implies #[trigger] shown[i] == kept[i] by {}
    assert forall|i: int| 0 <= i < shown.len() implies all.contains(#[trigger] shown[i]) && keep(
        shown[i],
    ) by {
        assert(ranked.contains(kept[i]));
        let r = choose|r: int| 0 <= r < ranked.len() && ranked[r] == kept[i];
        assert(all.contains(ranked[r]));
    }
    assert forall|i: int| 0 <= i < shown.len() implies describes(events, #[trigger] shown[i])
        && shown[i].last - shown[i].first >= min_seconds && !(humans_only && shown[i].bot) by {
        let k = choose|k: int| 0 <= k < all.len() && all[k] == shown[i];
        assert(describes(events, all[k]));
        assert(keep(shown[i]));
    }
    assert forall|i: int, j: int| 0 <= i < j < shown.len() implies (#[trigger] shown[i]).ip_hash != (
    #[trigger] shown[j]).ip_hash && shown[i].last - shown[i].first >= shown[j].last
        - shown[j].first by {
        assert(measure(kept[i]) >= measure(kept[j]));
        let a = choose|k: int| 0 <= k < all.len() && all[k] == shown[i];
        let b = choose|k: int| 0 <= k < all.len() && all[k] == shown[j];
        assert(kept[i] != kept[j]);
        if a < b {
            assert(all[a].ip_hash != all[b].ip_hash);
        } else {
            assert(all[b].ip_hash != all[a].ip_hash);
        }
    }
    assert forall|k: int|
        0 <= k < all.len() && (#[trigger] all[k]).last - all[k].first >= min_seconds && !(humans_only
            && all[k].bot) implies shown.contains(all[k]) || (shown.len() == 40 && forall|i: int|
        0 <= i < shown.len() ==> (#[trigger] shown[i]).last - shown[i].first >= all[k].last
            - all[k].first) by {
        assert(ranked.len() == all.len());
        rank::law_ranking_exists(all.map_values(measure));
        let order = rank::ranking(all.map_values(measure));
        assert(order.contains(k));
        let p = choose|p: int| 0 <= p < order.len() && order[p] == k;
        assert(ranked[p] == all[k]);
        assert(keep(ranked[p]));
        assert(kept.contains(ranked[p]));
        let q = choose|q: int| 0 <= q < kept.len() && kept[q] == all[k];
        if q < shown.len() {
            assert(shown[q] == all[k]);
        } else {
            assert forall|i: int| 0 <= i < shown.len() implies (#[trigger] shown[i]).last
                - shown[i].first >= all[k].last - all[k].first by {
                assert(measure(kept[i]) >= measure(kept[q]));
            }
        }
    }
}

/// Takes a text where none has been taken yet.
fn take_filled(taken: &mut String, candidate: &String)
    ensures
        final(taken)@ == if old(taken)@.len() > 0 {
            old(taken)@
        } else {
            candidate@
        },
{
    if taken.as_str().unicode_len() == 0 {
        *taken = candidate.clone();
    }
}

/// Summarises the events of one visitor.
fn summarise(events: &Vec<AccessEvent>, ts: &Vec<i64>, at: &Vec<usize>) -> (r: Session)
    requires
        at@.len() > 0,
        ts@.len() == events@.len(),
        ts@.map_values(|t: i64| t as int) == times(events@),
        forall|i: int| 0 <= i < at@.len() ==> #[trigger] at@[i] < events@.len(),
        rank::positions(at@) == groups::members(
            visitors(events@),
            events@[at@[0] as int].ip_hash@,
        ),
    ensures
        r@ == session_of(events@, events@[at@[0] as int].ip_hash@),
        r.first <= r.last,
{
    let ghost p = rank::positions(at@);
    let (first, last) = timeline::bounds(ts, at);
    let mut country = String::new();
    let mut city = String::new();
    let mut region = String::new();
    let mut ua = String::new();
    let mut bot = false;
    let mut i: usize = 0;
    assert(p.take(0) =~= Seq::<int>::empty());
    while i < at.len()
        invariant
            i <= at@.len(),
            p == rank::positions(at@),
            forall|k: int| 0 <= k < at@.len() ==> #[trigger] at@[k] < events@.len(),
            country@ == first_filled(countries(events@), p.take(i as int)),
            city@ == first_filled(cities(events@), p.take(i as int)),
            region@ == first_filled(regions(events@), p.take(i as int)),
            ua@ == first_filled(agents(events@), p.take(i as int)),
            bot <==> exists|k: int| 0 <= k < i && (#[trigger] events@[p[k]]).is_bot,
        decreases at@.len() - i,
    {
        let e = &events[at[i]];
        assert(p.take(i + 1).drop_last() =~= p.take(i as int));
        assert(p.take(i + 1).last() == at@[i as int]);
        assert(events@[p[i as int]] == *e);
        take_filled(&mut country, &e.country);
        take_filled(&mut city, &e.city);
        take_filled(&mut region, &e.region);
        take_filled(&mut ua, &e.ua_family);
        bot = bot || e.is_bot;
        i = i + 1;
    }
    assert(p.take(at@.len() as int) =~= p);
    Session {
        ip_hash: events[at[0]].ip_hash.clone(),
        first,
        last,
        hits: at.len(),
        paths: count_paths(events, at),
        country,
        city,
        region,
        ua,
        bot,
    }
}

/// The sessions that the report shows; see `shown_sessions`.
pub fn sessions(events: &Vec<AccessEvent>, min_seconds: i64, humans_only: bool) -> (r: Vec<Session>)
    ensures
        groups::views(r@) == shown_sessions(events@, min_seconds as int, humans_only),
        forall|i: int| 0 <= i < r@.len() ==> (#[trigger] r@[i]).first <= r@[i].last,
        r@.len() <= 40,
        forall|i: int|
            0 <= i < r@.len() ==> describes(events@, (#[trigger] r@[i])@) && r@[i].last - r@[i].first
                >= min_seconds && !(humans_only && r@[i].bot),
        forall|i: int, j: int|
            0 <= i < j < r@.len() ==> (#[trigger] r@[i]).ip_hash@ != (#[trigger] r@[j]).ip_hash@
                && r@[i].last - r@[i].first >= r@[j].last - r@[j].first,
{
    let n: usize = events.len();
    let ghost keys_of = visitors(events@);
    let ghost d = groups::distinct(keys_of);
    let ghost all = sessions_of(events@);
    let mut keys: Vec<String> = Vec::new();
    let mut ts: Vec<i64> = Vec::new();
    let mut i: usize = 0;
    while i < n
        invariant
            i <= n == events@.len(),
            keys@.len() == i,
            ts@.len() == i,
            forall|k: int| 0 <= k < i ==> (#[trigger] keys@[k])@ == events@[k].ip_hash@,
            forall|k: int| 0 <= k < i ==> #[trigger] ts@[k] == events@[k].ts_unix,
        decreases n - i,
    {
        keys.push(events[i].ip_hash.clone());
        ts.push(events[i].ts_unix);
        i = i + 1;
    }
    assert(groups::views(keys@) =~= keys_of);
    assert(ts@.map_values(|t: i64| t as int) =~= times(events@));
    let parts = groups::group(&keys);
    proof {
        groups::lemma_grouping(keys_of, parts@);
    }
    let mut measures: Vec<i128> = Vec::new();
    let mut g: usize = 0;
    while g < parts.len()
        invariant
            ts@.len() == events@.len() == keys_of.len(),
            ts@.map_values(|t: i64| t as int) == times(events@),
            keys_of == visitors(events@),
            d == groups::distinct(keys_of),
            all == sessions_of(events@),
            groups::is_grouping(keys_of, parts@),
            forall|p: int| 0 <= p < parts@.len() ==> (#[trigger] parts@[p])@.len() > 0,
            forall|p: int, j: int|
                0 <= p < parts@.len() && 0 <= j < parts@[p]@.len() ==> (
                #[trigger] parts@[p]@[j]) < keys_of.len() && keys_of[parts@[p]@[j] as int] == d[p],
            g <= parts@.len(),
            measures@.len() == g,
            forall|p: int| 0 <= p < g ==> #[trigger] measures@[p] == session_dwell(all[p]),
        decreases parts@.len() - g,
    {
        assert(parts@[g as int]@.len() > 0);
        assert(rank::positions(parts@[g as int]@) == groups::members(keys_of, d[g as int]));
        let (first, last) = timeline::bounds(&ts, &parts[g]);
        measures.push(last as i128 - first as i128);
        g = g + 1;
    }
    let ghost dwells = all.map_values(|s: SessionView| session_dwell(s));
    assert(rank::values(measures@) =~= dwells);
    let order = rank::rank_top(&measures, measures.len());
    let ghost ranked = rank::top(all, dwells, all.len());
    let ghost keep = |s: SessionView| reported(s, min_seconds as int, humans_only);
    let mut out: Vec<Session> = Vec::new();
    let mut i: usize = 0;
    assert(groups::views(out@) =~= ranked.take(0).filter(keep)) by {
        reveal(Seq::filter);
    }
    while i < order.len()
        invariant
            i <= order@.len() == ranked.len(),
            ts@.len() == events@.len() == keys_of.len(),
            ts@.map_values(|t: i64| t as int) == times(events@),
            keys_of == visitors(events@),
            d == groups::distinct(keys_of),
            all == sessions_of(events@),
            dwells == all.map_values(|s: SessionView| session_dwell(s)),
            ranked == rank::top(all, dwells, all.len()),
            rank::positions(order@) == rank::leading(rank::ranking(dwells), all.len()),
            keep == (|s: SessionView| reported(s, min_seconds as int, humans_only)),
            groups::is_grouping(keys_of, parts@),
            measures@.len() == parts@.len(),
            forall|p: int| 0 <= p < parts@.len() ==> (#[trigger] parts@[p])@.len() > 0,
            forall|p: int, j: int|
                0 <= p < parts@.len() && 0 <= j < parts@[p]@.len() ==> (
                #[trigger] parts@[p]@[j]) < keys_of.len() && keys_of[parts@[p]@[j] as int] == d[p],
            forall|k: int| 0 <= k < order@.len() ==> #[trigger] order@[k] < measures@.len(),
            groups::views(out@) == ranked.take(i as int).filter(keep),
            forall|k: int| 0 <= k < out@.len() ==> (#[trigger] out@[k]).first <= out@[k].last,
        decreases order@.len() - i,
    {
        let p: usize = order[i];
        assert(parts@[p as int]@.len() > 0);
        assert(parts@[p as int]@[0] < keys_of.len());
        assert(rank::positions(parts@[p as int]@) == groups::members(keys_of, d[p as int]));
        assert(keys_of[parts@[p as int]@[0] as int] == d[p as int]);
        let s = summarise(events, &ts, &parts[p]);
        let ghost view = s@;
        assert(rank::positions(order@)[i as int] == p);
        assert(ranked[i as int] == all[p as int]);
        assert(view == all[p as int]);
        assert(ranked.take(i + 1).drop_last() =~= ranked.take(i as int));
        assert(ranked.take(i + 1).last() == view);
        reveal(Seq::filter);
        let ghost before = out@;
        let dwell: i128 = s.last as i128 - s.first as i128;
        if dwell >= min_seconds as i128 && !(humans_only && s.bot) {
            out.push(s);
            assert(groups::views(out@) =~= groups::views(before).push(view));
        }
        i = i + 1;
    }
    assert(ranked.take(order@.len() as int) =~= ranked);
    if out.len() > SESSIONS {
        let ghost before = out@;
        out.truncate(SESSIONS);
        assert(groups::views(out@) =~= groups::views(before).take(SESSIONS as int));
    }
    proof {
        law_longest_sessions_lead(events@, min_seconds as int, humans_only);
        let shown = shown_sessions(events@, min_seconds as int, humans_only);
        assert forall|i: int| 0 <= i < out@.len() implies describes(events@, (#[trigger] out@[i])@)
            && out@[i].last - out@[i].first >= min_seconds && !(humans_only && out@[i].bot) by {
            assert(shown[i] == out@[i]@);
        }
        assert forall|i: int, j: int| 0 <= i < j < out@.len() implies (#[trigger] out@[i]).ip_hash@
            != (#[trigger] out@[j]).ip_hash@ && out@[i].last - out@[i].first >= out@[j].last
            - out@[j].first by {
            assert(shown[i] == out@[i]@ && shown[j] == out@[j]@);
        }
    }
    out
}

// ---------------------------------------------------------------------------
// Text
// ---------------------------------------------------------------------------

/// The heading of the report on sessions.
pub open spec fn session_heading() -> Seq<char> {
    text::pad_left("dwell"@, 9, ' ') + "  "@ + text::pad_left("hits"@, 6, ' ') + "  "@
        + text::pad_left("paths"@, 6, ' ') + "  "@ + text::pad_right("cc"@, 3) + "  "@
        + text::pad_right("bot"@, 5) + "  "@ + text::pad_right("ua"@, 14) + "  ip_hash"@
}

/// Renders the heading of the report on sessions: the columns and a rule.
pub fn render_session_heading() -> (r: Vec<String>)
    ensures
        text::texts(r@) == seq![session_heading(), text::fill('-', 90)],
{
    let mut a = String::new();
    text::push_padded_left(&mut a, "dwell", 9, ' ');
    assert(a@ =~= text::pad_left("dwell"@, 9, ' '));
    a.append("  ");
    text::push_padded_left(&mut a, "hits", 6, ' ');
    a.append("  ");
    text::push_padded_left(&mut a, "paths", 6, ' ');
    a.append("  ");
    text::push_padded_right(&mut a, "cc", 3);
    a.append("  ");
    text::push_padded_right(&mut a, "bot", 5);
    a.append("  ");
    text::push_padded_right(&mut a, "ua", 14);
    a.append("  ip_hash");
    let mut b = String::new();
    text::push_fill(&mut b, '-', 90);
    assert(b@ =~= text::fill('-', 90));
    let mut out: Vec<String> = Vec::new();
    out.push(a);
    out.push(b);
    assert(text::texts(out@) =~= seq![session_heading(), text::fill('-', 90)]);
    out
}

/// A line of the report on sessions.
pub open spec fn session_line(s: SessionView) -> Seq<char> {
    let dwell = session_dwell(s);
    "  "@ + text::dec((dwell / 3600) as nat) + "h"@ + text::zero_padded((dwell % 3600) / 60, 2)
        + "m"@ + text::zero_padded(dwell % 60, 2) + "s  "@ + text::pad_left(
        text::dec(s.hits as nat),
        6,
        ' ',
    ) + "  "@ + text::pad_left(text::dec(s.paths as nat), 6, ' ') + "  "@ + text::pad_right(
        s.country,
        3,
    ) + "  "@ + text::pad_right(yes_no(s.bot), 5) + "  "@ + text::pad_right(
        probe::at_most(s.ua, 14),
        14,
    ) + "  "@ + s.ip_hash
}

/// A line of the report on sessions states the time between the first event and
/// the last in hours, minutes and seconds, then the number of events and of
/// paths, the country, whether the visitor is a bot, no more than fourteen
/// characters of the user agent, and the visitor.
pub proof fn law_session_line_shows_the_session(s: SessionView, h: nat, m: nat, sec: nat)
    requires
        m < 60,
        sec < 60,
        h * 3600 + m * 60 + sec == s.last - s.first,
        0 <= s.hits && text::dec(s.hits as nat).len() <= 6,
        0 <= s.paths && text::dec(s.paths as nat).len() <= 6,
        s.country.len() <= 3,
    ensures
        ({
            let line = session_line(s);
            let at = 11 + text::dec(h).len() as int;
            &&& line.take(at) == "  "@ + text::dec(h) + "h"@ + text::zero_padded(
                m as int,
                2,
            ) + "m"@ + text::zero_padded(sec as int, 2) + "s  "@
            &&& text::shows_right(line, at, 6, text::dec(s.hits as nat))
            &&& text::shows_right(line, at + 8, 6, text::dec(s.paths as nat))
            &&& text::shows_left(line, at + 16, 3, s.country)
            &&& text::shows_left(line, at + 21, 5, if s.bot {
                "true"@
            } else {
                "false"@
            })
            &&& s.ua.len() <= 14 ==> text::shows_left(line, at + 28, 14, s.ua)
            &&& s.ua.len() > 14 ==> line.subrange(at + 28, at + 42) == s.ua.take(14)
            &&& line.skip(at + 42) == "  "@ + s.ip_hash
        }),
{
    reveal_strlit("  ");
    reveal_strlit("h");
    reveal_strlit("m");
    reveal_strlit("s  ");
    reveal_strlit("true");
    reveal_strlit("false");
    let line = session_line(s);
    let dwell = s.last - s.first;
    assert(dwell / 3600 == h && (dwell % 3600) / 60 == m && dwell % 60 == sec);
    let at = 11 + text::dec(h).len() as int;
    let hits = text::dec(s.hits as nat);
    let paths = text::dec(s.paths as nat);
    let bot = yes_no(s.bot);
    let ua = probe::at_most(s.ua, 14);
    text::lemma_dec_len(m);
    text::lemma_dec_len(sec);
    text::law_padding_fills_the_column(hits, 6, ' ');
    text::law_padding_fills_the_column(paths, 6, ' ');
    text::law_padding_fills_the_column(s.country, 3, ' ');
    text::law_padding_fills_the_column(bot, 5, ' ');
    text::law_padding_fills_the_column(ua, 14, ' ');
    let a = "  "@ + text::dec(h) + "h"@ + text::zero_padded(m as int, 2) + "m"@ + text::zero_padded(
        sec as int,
        2,
    ) + "s  "@;
    let b = a + text::pad_left(hits, 6, ' ') + "  "@;
    let c = b + text::pad_left(paths, 6, ' ') + "  "@;
    let d = c + text::pad_right(s.country, 3) + "  "@;
    let e = d + text::pad_right(bot, 5) + "  "@;
    let end = "  "@ + s.ip_hash;
    assert(a.len() == at);
    assert(line =~= e + text::pad_right(ua, 14) + end);
    text::lemma_shows_left(e, ua, 14, end);
    let t = "  "@ + text::pad_right(ua, 14) + end;
    assert(line =~= d + text::pad_right(bot, 5) + t);
    text::lemma_shows_left(d, bot, 5, t);
    let u = "  "@ + text::pad_right(bot, 5) + t;
    assert(line =~= c + text::pad_right(s.country, 3) + u);
    text::lemma_shows_left(c, s.country, 3, u);
    let v = "  "@ + text::pad_right(s.country, 3) + u;
    assert(line =~= b + text::pad_left(paths, 6, ' ') + v);
    text::lemma_shows_right(b, paths, 6, v);
    let w = "  "@ + text::pad_left(paths, 6, ' ') + v;
    assert(line =~= a + text::pad_left(hits, 6, ' ') + w);
    text::lemma_shows_right(a, hits, 6, w);
    assert(line.take(at) =~= a);
    assert(line.skip(at + 42) =~= end);
}

/// Renders a row of the report on sessions.
pub fn render_session(s: &Session) -> (r: String)
    requires
        s.first <= s.last,
    ensures
        r@ == session_line(s@),
{
    let dwell: u64 = (s.last as i128 - s.first as i128) as u64;
    let mut out = "  ".to_owned();
    text::push_dec(&mut out, dwell / 3600);
    out.append("h");
    text::push_zero_padded(&mut out, ((dwell % 3600) / 60) as i64, 2);
    out.append("m");
    text::push_zero_padded(&mut out, (dwell % 60) as i64, 2);
    out.append("s  ");
    text::push_dec_right(&mut out, s.hits as u64, 6);
    out.append("  ");
    text::push_dec_right(&mut out, s.paths as u64, 6);
    out.append("  ");
    text::push_padded_right(&mut out, s.country.as_str(), 3);
    out.append("  ");
    text::push_padded_right(&mut out, bool_text(s.bot), 5);
    out.append("  ");
    let ua = probe::first_chars(s.ua.as_str(), 14);
    text::push_padded_right(&mut out, ua.as_str(), 14);
    out.append("  ");
    out.append(s.ip_hash.as_str());
    out
}

} // verus!
