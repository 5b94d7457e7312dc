//! Reports on probe events.

use vstd::prelude::*;
use crate::calendar;
use crate::groups;
use crate::probe::{IpAddr, ProbeEvent};
use crate::rank;
use crate::store::{AsnInfo, GeoInfo};
use crate::text;
use crate::timeline;

verus! {

/// The addresses of events.
pub open spec fn ips(events: Seq<ProbeEvent>) -> Seq<IpAddr> {
    events.map_values(|e: ProbeEvent| e.ip)
}

/// The instants of events.
pub open spec fn times(events: Seq<ProbeEvent>) -> Seq<int> {
    events.map_values(|e: ProbeEvent| e.ts_unix as int)
}

/// What the events of one address amount to.
#[derive(Copy, Clone, Debug, PartialEq, Eq, Structural)]
pub struct IpRow {
    /// The address.
    pub ip: IpAddr,
    /// How many events there are.
    pub hits: usize,
    /// The first of their instants.
    pub first: i64,
    /// The last of their instants.
    pub last: i64,
}

/// What the events of one address amount to.
pub open spec fn row_of(events: Seq<ProbeEvent>, ip: IpAddr) -> IpRow {
    let at = groups::members(ips(events), ip);
    IpRow {
        ip,
        hits: at.len() as usize,
        first: timeline::earliest(times(events), at) as i64,
        last: timeline::latest(times(events), at) as i64,
    }
}

/// One row for each address, in the order in which they first appear.
pub open spec fn rows_of(events: Seq<ProbeEvent>) -> Seq<IpRow> {
    groups::distinct(ips(events)).map_values(|ip: IpAddr| row_of(events, ip))
}

/// How many events come from an address.
pub open spec fn count_of(events: Seq<ProbeEvent>, ip: IpAddr) -> nat {
    events.filter(|e: ProbeEvent| e.ip == ip).len()
}

/// A row states of its address how many events there are, and between which
/// instants they lie.
pub open spec fn summarises(events: Seq<ProbeEvent>, row: IpRow) -> bool {
    &&& row.hits == count_of(events, row.ip)
    &&& row.hits > 0
    &&& forall|i: int|
        0 <= i < events.len() && (#[trigger] events[i]).ip == row.ip ==> row.first
            <= events[i].ts_unix <= row.last
    &&& exists|i: int|
        0 <= i < events.len() && (#[trigger] events[i]).ip == row.ip && events[i].ts_unix
            == row.first
    &&& exists|i: int|
        0 <= i < events.len() && (#[trigger] events[i]).ip == row.ip && events[i].ts_unix
            == row.last
}

/// Whether an address has a row.
pub open spec fn has_row(rows: Seq<IpRow>, ip: IpAddr) -> bool {
    exists|k: int| 0 <= k < rows.len() && (#[trigger] rows[k]).ip == ip
}

proof fn lemma_count(events: Seq<ProbeEvent>, ip: IpAddr)
    ensures
        groups::members(ips(events), ip).len() == count_of(events, ip),
    decreases events.len(),
{
    reveal(Seq::filter);
    if events.len() > 0 {
        lemma_count(events.drop_last(), ip);
        assert(ips(events).drop_last() =~= ips(events.drop_last()));
    }
}

proof fn lemma_row(events: Seq<ProbeEvent>, ip: IpAddr)
    requires
        events.len() <= usize::MAX,
        ips(events).contains(ip),
    ensures
        summarises(events, row_of(events, ip)),
{
    let keys = ips(events);
    let ts = times(events);
    let at = groups::members(keys, ip);
    let row = row_of(events, ip);
    lemma_count(events, ip);
    groups::lemma_members(keys, ip);
    groups::law_members_are_the_positions(keys, ip);
    timeline::law_earliest_and_latest_are_bounds(ts, at);
    let a = choose|i: int| 0 <= i < at.len() && ts[#[trigger] at[i]] == timeline::earliest(ts, at);
    let b = choose|i: int| 0 <= i < at.len() && ts[#[trigger] at[i]] == timeline::latest(ts, at);
    assert(events[at[a]].ip == ip && events[at[a]].ts_unix == row.first);
    assert(events[at[b]].ip == ip && events[at[b]].ts_unix == row.last);
    assert forall|i: int| 0 <= i < events.len() && (#[trigger] events[i]).ip == ip implies row.first
        <= events[i].ts_unix <= row.last by {
        assert(keys[i] == ip);
        let j = choose|j: int| 0 <= j < at.len() && at[j] == i;
        assert(ts[at[j]] == events[i].ts_unix);
    }
}

/// There is exactly one row for each address that events come from, and it
/// summarises them.
pub proof fn law_rows_describe_addresses(events: Seq<ProbeEvent>)
    requires
        events.len() <= usize::MAX,
    ensures
        forall|k: int| 0 <= k < rows_of(events).len() ==> summarises(events, #[trigger] rows_of(events)[k]),
        forall|i: int|
            0 <= i < events.len() ==> has_row(rows_of(events), (#[trigger] events[i]).ip),
        forall|i: int, j: int|
            0 <= i < j < rows_of(events).len() ==> (#[trigger] rows_of(events)[i]).ip != (
            #[trigger] rows_of(events)[j]).ip,
{
    let keys = ips(events);
    let d = groups::distinct(keys);
    let rows = rows_of(events);
    groups::lemma_distinct(keys);
    assert forall|k: int| 0 <= k < rows.len() implies summarises(events, #[trigger] rows[k]) by {
        assert(d.contains(d[k]));
        lemma_row(events, d[k]);
    }
    assert forall|i: int| 0 <= i < events.len() implies has_row(rows, (#[trigger] events[i]).ip) by {
        assert(keys[i] == events[i].ip);
        assert(keys.contains(events[i].ip));
        assert(d.contains(events[i].ip));
        let k = choose|k: int| 0 <= k < d.len() && d[k] == events[i].ip;
        assert(rows[k].ip == events[i].ip);
    }
    assert forall|i: int, j: int| 0 <= i < j < rows.len() implies (#[trigger] rows[i]).ip != (
    #[trigger] rows[j]).ip by {
        assert(d[i] != d[j]);
    }
}

/// The rows of the `n` addresses with the most events, most first.
pub open spec fn top_rows(events: Seq<ProbeEvent>, n: nat) -> Seq<IpRow> {
    rank::top(rows_of(events), rows_of(events).map_values(|row: IpRow| row.hits as int), n)
}

/// The most active addresses lead: each row shown summarises its address, rows
/// come by falling number of events, at most `n`, none twice; and an address
/// that is not shown has no more events than any that is, and is left out only
/// where `n` are shown.
pub proof fn law_most_active_addresses_lead(events: Seq<ProbeEvent>, n: nat)
    requires
        events.len() <= usize::MAX,
    ensures
        ({
            let shown = top_rows(events, n);
            &&& shown.len() <= n
            &&& forall|i: int| 0 <= i < shown.len() ==> summarises(events, #[trigger] shown[i])
            &&& forall|i: int, j: int|
                0 <= i < j < shown.len() ==> (#[trigger] shown[i]).ip != (#[trigger] shown[j]).ip
                    && shown[i].hits >= shown[j].hits
            &&& forall|k: int|
                0 <= k < events.len() ==> has_row(shown, (#[trigger] events[k]).ip) || (shown.len()
                    == n && forall|i: int|
                    0 <= i < shown.len() ==> (#[trigger] shown[i]).hits >= count_of(
                        events,
                        events[k].ip,
                    ))
        }),
{
    let rows = rows_of(events);
    let measure = |row: IpRow| row.hits as int;
    let shown = top_rows(events, n);
    law_rows_describe_addresses(events);
    rank::law_top_shows_the_largest(rows, measure, n);
    assert(rows.no_duplicates()) by {
        assert forall|i: int, j: int| 0 <= i < rows.len() && 0 <= j < rows.len() && i != j implies rows[i]
            != rows[j] by {
            if i < j {
                assert(rows[i].ip != rows[j].ip);
            } else {
                assert(rows[j].ip != rows[i].ip);
            }
        }
    }
    rank::lemma_top_is_distinct(rows, rows.map_values(measure), n);
    lemma_shown(events, rows, shown);
    assert forall|i: int, j: int| 0 <= i < j < shown.len() implies (#[trigger] shown[i]).ip != (
    #[trigger] shown[j]).ip && shown[i].hits >= shown[j].hits by {
        assert(measure(shown[i]) >= measure(shown[j]));
    }
    assert forall|k: int| 0 <= k < events.len() implies has_row(shown, (#[trigger] events[k]).ip)
        || (shown.len() == n && forall|i: int|
        0 <= i < shown.len() ==> (#[trigger] shown[i]).hits >= count_of(events, events[k].ip)) by {
        assert(has_row(rows, events[k].ip));
        let r = choose|r: int| 0 <= r < rows.len() && (#[trigger] rows[r]).ip == events[k].ip;
        assert(summarises(events, rows[r]));
        if shown.contains(rows[r]) {
            let i = choose|i: int| 0 <= i < shown.len() && shown[i] == rows[r];
            assert(shown[i].ip == events[k].ip);
        } else {
            assert forall|i: int| 0 <= i < shown.len() implies (#[trigger] shown[i]).hits >= count_of(
                events,
                events[k].ip,
            ) by {
                assert(measure(shown[i]) >= measure(rows[r]));
            }
        }
    }
}

/// Rows picked from those of the addresses describe theirs, and none is picked
/// twice.
proof fn lemma_shown(events: Seq<ProbeEvent>, rows: Seq<IpRow>, shown: Seq<IpRow>)
    requires
        forall|k: int| 0 <= k < rows.len() ==> summarises(events, #[trigger] rows[k]),
        forall|i: int, j: int|
            0 <= i < j < rows.len() ==> (#[trigger] rows[i]).ip != (#[trigger] rows[j]).ip,
        forall|i: int| 0 <= i < shown.len() ==> rows.contains(#[trigger] shown[i]),
        shown.no_duplicates(),
    ensures
        forall|i: int| 0 <= i < shown.len() ==> summarises(events, #[trigger] shown[i]),
        forall|i: int, j: int|
            0 <= i < j < shown.len() ==> (#[trigger] shown[i]).ip != (#[trigger] shown[j]).ip,
{
    assert forall|i: int| 0 <= i < shown.len() implies summarises(events, #[trigger] shown[i]) by {
        assert(rows.contains(shown[i]));
        let k = choose|k: int| 0 <= k < rows.len() && rows[k] == shown[i];
        assert(summarises(events, rows[k]));
    }
    assert forall|i: int, j: int| 0 <= i < j < shown.len() implies (#[trigger] shown[i]).ip != (
    #[trigger] shown[j]).ip by {
        assert(rows.contains(shown[i]) && rows.contains(shown[j]));
        let a = choose|k: int| 0 <= k < rows.len() && rows[k] == shown[i];
        let b = choose|k: int| 0 <= k < rows.len() && rows[k] == shown[j];
        assert(shown[i] != shown[j]);
        if a < b {
            assert(rows[a].ip != rows[b].ip);
        } else {
            assert(rows[b].ip != rows[a].ip);
        }
    }
}

/// The rows of the addresses with enough events, longest dwell first.
pub open spec fn dwell_rows(events: Seq<ProbeEvent>, min_hits: usize) -> Seq<IpRow> {
    let candidates = rows_of(events).filter(|row: IpRow| row.hits >= min_hits);
    rank::top(candidates, candidates.map_values(|row: IpRow| dwell_of(row)), DWELL_ROWS as nat)
}

/// The addresses that dwell longest lead: each row shown summarises an address
/// with at least `min_hits` events, rows come by falling time between first and
/// last event, at most fifty, none twice; and an address with enough events
/// that is not shown lies no wider than any that is, and is left out only where
/// fifty are shown.
pub proof fn law_longest_dwelling_addresses_lead(events: Seq<ProbeEvent>, min_hits: usize)
    requires
        events.len() <= usize::MAX,
    ensures
        ({
            let shown = dwell_rows(events, min_hits);
            &&& shown.len() <= 50
            &&& forall|i: int|
                0 <= i < shown.len() ==> summarises(events, #[trigger] shown[i]) && shown[i].hits
                    >= min_hits
            &&& forall|i: int, j: int|
                0 <= i < j < shown.len() ==> (#[trigger] shown[i]).ip != (#[trigger] shown[j]).ip
                    && shown[i].last - shown[i].first >= shown[j].last - shown[j].first
            &&& forall|a: int, b: int|
                #![trigger events[a], events[b]]
                0 <= a < events.len() && 0 <= b < events.len() && events[a].ip == events[b].ip
                    && count_of(events, events[a].ip) >= min_hits ==> has_row(shown, events[a].ip)
                    || (shown.len() == 50 && forall|i: int|
                    0 <= i < shown.len() ==> (#[trigger] shown[i]).last - shown[i].first
                        >= events[b].ts_unix - events[a].ts_unix)
        }),
{
    let rows = rows_of(events);
    let enough = |row: IpRow| row.hits >= min_hits;
    let kept = rows.filter(enough);
    let measure = |row: IpRow| dwell_of(row);
    let shown = dwell_rows(events, min_hits);
    law_rows_describe_addresses(events);
    lemma_filtered_rows(rows, enough);
    rank::law_top_shows_the_largest(kept, measure, 50);
    assert(kept.no_duplicates()) by {
        assert forall|i: int, j: int| 0 <= i < kept.len() && 0 <= j < kept.len() && i != j implies kept[i]
            != kept[j] by {
            if i < j {
                assert(kept[i].ip != kept[j].ip);
            } else {
                assert(kept[j].ip != kept[i].ip);
            }
        }
    }
    rank::lemma_top_is_distinct(kept, kept.map_values(measure), 50);
    assert forall|k: int| 0 <= k < kept.len() implies summarises(events, #[trigger] kept[k]) by {
        assert(rows.contains(kept[k]));
        let r = choose|r: int| 0 <= r < rows.len() && rows[r] == kept[k];
        assert(summarises(events, rows[r]));
    }
    lemma_shown(events, kept, shown);
    assert forall|i: int| 0 <= i < shown.len() implies summarises(events, #[trigger] shown[i])
        && shown[i].hits >= min_hits by {
        assert(kept.contains(shown[i]));
        let k = choose|k: int| 0 <= k < kept.len() && kept[k] == shown[i];
        assert(enough(kept[k]));
    }
    assert forall|i: int, j: int| 0 <= i < j < shown.len() implies (#[trigger] shown[i]).ip != (
    #[trigger] shown[j]).ip && shown[i].last - shown[i].first >= shown[j].last - shown[j].first by {
        assert(measure(shown[i]) >= measure(shown[j]));
    }
    assert forall|a: int, b: int|
        #![trigger events[a], events[b]]
        0 <= a < events.len() && 0 <= b < events.len() && events[a].ip == events[b].ip && count_of(
            events,
            events[a].ip,
        ) >= min_hits implies has_row(shown, events[a].ip) || (shown.len() == 50 && forall|i: int|
        0 <= i < shown.len() ==> (#[trigger] shown[i]).last - shown[i].first >= events[b].ts_unix
            - events[a].ts_unix) by {
        assert(has_row(rows, events[a].ip));
        let r = choose|r: int| 0 <= r < rows.len() && (#[trigger] rows[r]).ip == events[a].ip;
        assert(summarises(events, rows[r]));
        assert(enough(rows[r]));
        assert(kept.contains(rows[r]));
        let k = choose|k: int| 0 <= k < kept.len() && kept[k] == rows[r];
        if shown.contains(kept[k]) {
            let i = choose|i: int| 0 <= i < shown.len() && shown[i] == kept[k];
            assert(shown[i].ip == events[a].ip);
        } else {
            assert forall|i: int| 0 <= i < shown.len() implies (#[trigger] shown[i]).last
                - shown[i].first >= events[b].ts_unix - events[a].ts_unix by {
                assert(measure(shown[i]) >= measure(kept[k]));
            }
        }
    }
}

/// Filtering keeps exactly the rows that pass, and their order.
pub proof fn lemma_filtered_rows(rows: Seq<IpRow>, pass: spec_fn(IpRow) -> bool)
    requires
        forall|i: int, j: int|
            0 <= i < j < rows.len() ==> (#[trigger] rows[i]).ip != (#[trigger] rows[j]).ip,
    ensures
        forall|i: int|
            0 <= i < rows.filter(pass).len() ==> pass(#[trigger] rows.filter(pass)[i])
                && rows.contains(rows.filter(pass)[i]),
        forall|k: int|
            0 <= k < rows.len() && pass(#[trigger] rows[k]) ==> rows.filter(pass).contains(rows[k]),
        forall|i: int, j: int|
            0 <= i < j < rows.filter(pass).len() ==> (#[trigger] rows.filter(pass)[i]).ip != (
            #[trigger] rows.filter(pass)[j]).ip,
    decreases rows.len(),
{
    reveal(Seq::filter);
    if rows.len() > 0 {
        let t = rows.drop_last();
        let last = rows.last();
        assert(rows[rows.len() - 1] == last);
        lemma_filtered_rows(t, pass);
        let before = t.filter(pass);
        let after = rows.filter(pass);
        assert forall|i: int| 0 <= i < after.len() implies pass(#[trigger] after[i])
            && rows.contains(after[i]) by {
            if i < before.len() {
                assert(after[i] == before[i]);
                let k = choose|k: int| 0 <= k < t.len() && t[k] == before[i];
                assert(rows[k] == after[i]);
            } else {
                assert(rows[rows.len() - 1] == after[i]);
            }
        }
        assert forall|k: int| 0 <= k < rows.len() && pass(#[trigger] rows[k]) implies after.contains(
            rows[k],
        ) by {
            if k < t.len() {
                assert(t[k] == rows[k]);
                let i = choose|i: int| 0 <= i < before.len() && before[i] == t[k];
                assert(after[i] == rows[k]);
            } else {
                assert(after[after.len() - 1] == rows[k]);
            }
        }
        assert forall|i: int, j: int| 0 <= i < j < after.len() implies (#[trigger] after[i]).ip != (
        #[trigger] after[j]).ip by {
            assert(after[i] == before[i]);
            if j < before.len() {
                assert(after[j] == before[j]);
            } else {
                let k = choose|k: int| 0 <= k < t.len() && t[k] == before[i];
                assert(rows[k].ip != rows[rows.len() - 1].ip);
            }
        }
    }
}

/// Every event counts for exactly one address: the rows' events add up to all
/// events.
pub proof fn law_rows_cover_events(events: Seq<ProbeEvent>)
    requires
        events.len() <= usize::MAX,
    ensures
        rank::sum(rows_of(events).map_values(|row: IpRow| row.hits as int)) == events.len(),
{
    let keys = ips(events);
    groups::law_groups_cover_events(keys);
    let hits = rows_of(events).map_values(|row: IpRow| row.hits as int);
    assert forall|i: int| 0 <= i < hits.len() implies #[trigger] hits[i] == groups::counts(
        keys,
    )[i] by {
        groups::lemma_members(keys, groups::distinct(keys)[i]);
    }
    assert(hits =~= groups::counts(keys));
}

/// Every row of a report states the exact number of events of its address.
pub proof fn law_rows_count_events(events: Seq<ProbeEvent>, ip: IpAddr)
    ensures
        groups::members(ips(events), ip).len() == ips(events).to_multiset().count(ip),
    decreases events.len(),
{
    broadcast use vstd::seq_lib::group_to_multiset_ensures;

    let keys = ips(events);
    if events.len() > 0 {
        let e = events.drop_last();
        law_rows_count_events(e, ip);
        assert(keys.drop_last() =~= ips(e));
        assert(keys =~= ips(e).push(keys.last()));
    }
}

/// Summarises events by address.
pub fn ip_rows(events: &Vec<ProbeEvent>) -> (r: Vec<IpRow>)
    ensures
        r@ == rows_of(events@),
        forall|i: int| 0 <= i < r@.len() ==> (#[trigger] r@[i]).first <= r@[i].last,
{
    let n: usize = events.len();
    let mut keys: Vec<IpAddr> = Vec::new();
    let mut ts: Vec<i64> = Vec::new();
    let mut i: usize = 0;
    while i < n
        invariant
            i <= n == events@.len(),
            keys@.len() == i,
            ts@.len() == i,
            forall|k: int| 0 <= k < i ==> #[trigger] keys@[k] == events@[k].ip,
            forall|k: int| 0 <= k < i ==> #[trigger] ts@[k] == events@[k].ts_unix,
        decreases n - i,
    {
        keys.push(events[i].ip);
        ts.push(events[i].ts_unix);
        i = i + 1;
    }
    assert(groups::views(keys@) =~= ips(events@));
    assert(ts@.map_values(|t: i64| t as int) =~= times(events@));
    let parts = groups::group(&keys);
    let ghost d = groups::distinct(ips(events@));
    proof {
        groups::lemma_grouping(ips(events@), parts@);
    }
    let mut rows: Vec<IpRow> = Vec::new();
    let mut g: usize = 0;
    while g < parts.len()
        invariant
            keys@.len() == ts@.len() == events@.len(),
            forall|k: int| 0 <= k < keys@.len() ==> #[trigger] keys@[k] == events@[k].ip,
            ts@.map_values(|t: i64| t as int) == times(events@),
            d == groups::distinct(ips(events@)),
            groups::is_grouping(ips(events@), parts@),
            forall|h: int| 0 <= h < parts@.len() ==> (#[trigger] parts@[h])@.len() > 0,
            forall|h: int, j: int|
                0 <= h < parts@.len() && 0 <= j < parts@[h]@.len() ==> (
                #[trigger] parts@[h]@[j]) < events@.len() && ips(events@)[parts@[h]@[j] as int]
                    == d[h],
            g <= parts@.len(),
            rows@.len() == g,
            forall|h: int| 0 <= h < g ==> #[trigger] rows@[h] == row_of(events@, d[h]),
            forall|h: int| 0 <= h < g ==> (#[trigger] rows@[h]).first <= rows@[h].last,
        decreases parts@.len() - g,
    {
        assert(parts@[g as int]@.len() > 0);
        assert(parts@[g as int]@[0] < events@.len());
        assert(rank::positions(parts@[g as int]@) == groups::members(ips(events@), d[g as int]));
        let (first, last) = timeline::bounds(&ts, &parts[g]);
        let ip: IpAddr = keys[parts[g][0]];
        assert(ip == ips(events@)[parts@[g as int]@[0] as int]);
        rows.push(IpRow { ip, hits: parts[g].len(), first, last });
        g = g + 1;
    }
    assert(rows@ =~= rows_of(events@));
    rows
}

/// How long the events of an address went on, in seconds.
pub open spec fn dwell_of(row: IpRow) -> int {
    row.last - row.first
}

/// Picks rows by position.
fn pick(rows: &Vec<IpRow>, order: &Vec<usize>) -> (r: Vec<IpRow>)
    requires
        forall|i: int| 0 <= i < order@.len() ==> #[trigger] order@[i] < rows@.len(),
    ensures
        r@ == rank::positions(order@).map_values(|i: int| rows@[i]),
{
    let mut out: Vec<IpRow> = Vec::new();
    let mut i: usize = 0;
    while i < order.len()
        invariant
            i <= order@.len(),
            out@.len() == i,
            forall|k: int| 0 <= k < order@.len() ==> #[trigger] order@[k] < rows@.len(),
            forall|k: int| 0 <= k < i ==> #[trigger] out@[k] == rows@[order@[k] as int],
        decreases order@.len() - i,
    {
        out.push(rows[order[i]]);
        i = i + 1;
    }
    assert(out@ =~= rank::positions(order@).map_values(|i: int| rows@[i]));
    out
}

/// The `n` addresses with the most events, most first. Addresses with equally
/// many stand in the order in which they first appear.
pub fn top_ips(events: &Vec<ProbeEvent>, n: usize) -> (r: Vec<IpRow>)
    ensures
        r@ == top_rows(events@, n as nat),
        forall|i: int| 0 <= i < r@.len() ==> (#[trigger] r@[i]).first <= r@[i].last,
        forall|i: int| 0 <= i < r@.len() ==> summarises(events@, #[trigger] r@[i]),
        forall|i: int, j: int|
            0 <= i < j < r@.len() ==> (#[trigger] r@[i]).ip != (#[trigger] r@[j]).ip && r@[i].hits
                >= r@[j].hits,
        r@.len() <= n,
        forall|k: int|
            0 <= k < events@.len() ==> has_row(r@, (#[trigger] events@[k]).ip) || (r@.len() == n
                && forall|i: int|
                0 <= i < r@.len() ==> (#[trigger] r@[i]).hits >= count_of(events@, events@[k].ip)),
{
    proof {
        let m: usize = events.len();
        law_most_active_addresses_lead(events@, n as nat);
    }
    let rows = ip_rows(events);
    let mut measures: Vec<i128> = Vec::new();
    let mut i: usize = 0;
    while i < rows.len()
        invariant
            i <= rows@.len(),
            measures@.len() == i,
            forall|k: int| 0 <= k < i ==> #[trigger] measures@[k] == rows@[k].hits,
        decreases rows@.len() - i,
    {
        measures.push(rows[i].hits as i128);
        i = i + 1;
    }
    assert(rank::values(measures@) =~= rows@.map_values(|row: IpRow| row.hits as int));
    let order = rank::rank_top(&measures, n);
    let out = pick(&rows, &order);
    assert forall|i: int| 0 <= i < out@.len() implies (#[trigger] out@[i]).first
        <= out@[i].last by {
        assert(out@[i] == rows@[order@[i] as int]);
    }
    out
}

/// How many rows the dwell report shows.
pub const DWELL_ROWS: usize = 50;

/// The addresses with at least `min_hits` events whose events went on longest,
/// longest first.
pub fn dwell_ips(events: &Vec<ProbeEvent>, min_hits: usize) -> (r: Vec<IpRow>)
    ensures
        r@ == dwell_rows(events@, min_hits),
        forall|i: int| 0 <= i < r@.len() ==> (#[trigger] r@[i]).first <= r@[i].last,
        forall|i: int|
            0 <= i < r@.len() ==> summarises(events@, #[trigger] r@[i]) && r@[i].hits >= min_hits,
        forall|i: int, j: int|
            0 <= i < j < r@.len() ==> (#[trigger] r@[i]).ip != (#[trigger] r@[j]).ip && r@[i].last
                - r@[i].first >= r@[j].last - r@[j].first,
        r@.len() <= 50,
{
    proof {
        let m: usize = events.len();
        law_longest_dwelling_addresses_lead(events@, min_hits);
    }
    let rows = ip_rows(events);
    let mut kept: Vec<IpRow> = Vec::new();
    let mut measures: Vec<i128> = Vec::new();
    let ghost enough = |row: IpRow| row.hits >= min_hits;
    let mut i: usize = 0;
    assert(rows@.take(0) =~= Seq::<IpRow>::empty());
    assert(rows@.take(0).filter(enough) =~= Seq::<IpRow>::empty()) by {
        reveal(Seq::filter);
    }
    while i < rows.len()
        invariant
            i <= rows@.len(),
            enough == (|row: IpRow| row.hits >= min_hits),
            kept@ == rows@.take(i as int).filter(enough),
            measures@.len() == kept@.len(),
            forall|k: int| 0 <= k < rows@.len() ==> (#[trigger] rows@[k]).first <= rows@[k].last,
            forall|k: int| 0 <= k < kept@.len() ==> (#[trigger] kept@[k]).first <= kept@[k].last,
            forall|k: int| 0 <= k < kept@.len() ==> #[trigger] measures@[k] == dwell_of(kept@[k]),
        decreases rows@.len() - i,
    {
        let row: IpRow = rows[i];
        assert(rows@.take(i + 1).drop_last() =~= rows@.take(i as int));
        assert(rows@.take(i + 1).last() == row);
        reveal(Seq::filter);
        if row.hits >= min_hits {
            kept.push(row);
            measures.push(row.last as i128 - row.first as i128);
        }
        i = i + 1;
    }
    assert(rows@.take(rows@.len() as int) =~= rows@);
    assert(rank::values(measures@) =~= kept@.map_values(|row: IpRow| dwell_of(row)));
    let order = rank::rank_top(&measures, DWELL_ROWS);
    let out = pick(&kept, &order);
    assert forall|i: int| 0 <= i < out@.len() implies (#[trigger] out@[i]).first
        <= out@[i].last by {
        assert(out@[i] == kept@[order@[i] as int]);
    }
    out
}

// ---------------------------------------------------------------------------
// Statistics
// ---------------------------------------------------------------------------

/// How often a reason occurs.
#[derive(Copy, Clone, Debug)]
pub struct ReasonRow {
    /// Label of the reason.
    pub label: &'static str,
    /// How many events have it.
    pub count: usize,
}

/// What all events amount to.
#[derive(Debug)]
pub struct ProbeStats {
    /// How many events there are.
    pub probes: usize,
    /// How many addresses they come from.
    pub unique_ips: usize,
    /// The first of their instants.
    pub first: i64,
    /// The last of their instants.
    pub last: i64,
    /// The reasons, most frequent first.
    pub reasons: Vec<ReasonRow>,
}

/// The labels of the reasons of events.
pub open spec fn labels(events: Seq<ProbeEvent>) -> Seq<Seq<char>> {
    events.map_values(|e: ProbeEvent| e.reason.label_text())
}

/// How often each label occurs, in the order in which they first appear.
pub open spec fn label_counts(events: Seq<ProbeEvent>) -> Seq<(Seq<char>, int)> {
    groups::distinct(labels(events)).map_values(
        |l: Seq<char>| (l, groups::members(labels(events), l).len() as int),
    )
}

/// Every event counts for exactly one label.
pub proof fn law_labels_cover_events(events: Seq<ProbeEvent>)
    ensures
        rank::sum(label_counts(events).map_values(|c: (Seq<char>, int)| c.1)) == events.len(),
{
    groups::law_groups_cover_events(labels(events));
    assert(label_counts(events).map_values(|c: (Seq<char>, int)| c.1) =~= groups::counts(
        labels(events),
    ));
}

/// Labels and counts, most frequent first.
pub open spec fn ranked_labels(events: Seq<ProbeEvent>) -> Seq<(Seq<char>, int)> {
    rank::top(
        label_counts(events),
        label_counts(events).map_values(|c: (Seq<char>, int)| c.1),
        label_counts(events).len(),
    )
}

/// The mathematical values of rows.
pub open spec fn reason_views(rows: Seq<ReasonRow>) -> Seq<(Seq<char>, int)> {
    rows.map_values(|r: ReasonRow| (r.label@, r.count as int))
}

fn reason_rows(events: &Vec<ProbeEvent>) -> (r: Vec<ReasonRow>)
    ensures
        reason_views(r@) == ranked_labels(events@),
{
    let n: usize = events.len();
    let mut keys: Vec<String> = Vec::new();
    let mut i: usize = 0;
    while i < n
        invariant
            i <= n == events@.len(),
            keys@.len() == i,
            forall|k: int| 0 <= k < i ==> (#[trigger] keys@[k])@ == events@[k].reason.label_text(),
        decreases n - i,
    {
        keys.push(events[i].reason.label().to_owned());
        i = i + 1;
    }
    assert(groups::views(keys@) =~= labels(events@));
    let parts = groups::group(&keys);
    let ghost d = groups::distinct(labels(events@));
    proof {
        groups::lemma_grouping(labels(events@), parts@);
    }
    let mut rows: Vec<ReasonRow> = Vec::new();
    let mut measures: Vec<i128> = Vec::new();
    let mut g: usize = 0;
    while g < parts.len()
        invariant
            d == groups::distinct(labels(events@)),
            groups::is_grouping(labels(events@), parts@),
            forall|h: int| 0 <= h < parts@.len() ==> (#[trigger] parts@[h])@.len() > 0,
            forall|h: int, j: int|
                0 <= h < parts@.len() && 0 <= j < parts@[h]@.len() ==> (
                #[trigger] parts@[h]@[j]) < events@.len() && labels(events@)[parts@[h]@[j] as int]
                    == d[h],
            g <= parts@.len(),
            rows@.len() == g,
            measures@.len() == g,
            forall|h: int|
                0 <= h < g ==> (#[trigger] rows@[h]).label@ == d[h] && rows@[h].count
                    == groups::members(labels(events@), d[h]).len(),
            forall|h: int| 0 <= h < g ==> #[trigger] measures@[h] == rows@[h].count,
        decreases parts@.len() - g,
    {
        assert(parts@[g as int]@.len() > 0);
        assert(parts@[g as int]@[0] < events@.len());
        assert(rank::positions(parts@[g as int]@) == groups::members(labels(events@), d[g as int]));
        let label: &'static str = events[parts[g][0]].reason.label();
        assert(label@ == labels(events@)[parts@[g as int]@[0] as int]);
        let count: usize = parts[g].len();
        rows.push(ReasonRow { label, count });
        measures.push(count as i128);
        g = g + 1;
    }
    let ghost counts = label_counts(events@);
    assert(reason_views(rows@) =~= counts);
    assert(rank::values(measures@) =~= counts.map_values(|c: (Seq<char>, int)| c.1));
    let order = rank::rank_top(&measures, measures.len());
    let mut out: Vec<ReasonRow> = Vec::new();
    let mut i: usize = 0;
    while i < order.len()
        invariant
            i <= order@.len(),
            out@.len() == i,
            rows@.len() == measures@.len(),
            forall|k: int| 0 <= k < order@.len() ==> #[trigger] order@[k] < measures@.len(),
            forall|k: int| 0 <= k < i ==> #[trigger] out@[k] == rows@[order@[k] as int],
        decreases order@.len() - i,
    {
        out.push(rows[order[i]]);
        i = i + 1;
    }
    proof {
        assert forall|k: int| 0 <= k < out@.len() implies #[trigger] reason_views(out@)[k]
            == counts[order@[k] as int] by {
            assert(reason_views(rows@)[order@[k] as int] == counts[order@[k] as int]);
        }
        assert(rank::positions(order@).map_values(|i: int| counts[i]) =~= reason_views(out@));
    }
    out
}

/// Summarises all events; nothing where there are none.
pub fn probe_stats(events: &Vec<ProbeEvent>) -> (r: Option<ProbeStats>)
    ensures
        match r {
            Some(s) => {
                &&& events@.len() > 0
                &&& s.probes == events@.len()
                &&& s.unique_ips == groups::distinct(ips(events@)).len()
                &&& s.first == timeline::earliest(times(events@), timeline::everywhere(events@.len()))
                &&& s.last == timeline::latest(times(events@), timeline::everywhere(events@.len()))
                &&& s.first <= s.last
                &&& s.unique_ips == ips(events@).to_set().len()
                &&& forall|i: int|
                    0 <= i < events@.len() ==> s.first <= (#[trigger] events@[i]).ts_unix <= s.last
                &&& exists|i: int|
                    0 <= i < events@.len() && (#[trigger] events@[i]).ts_unix == s.first
                &&& exists|i: int|
                    0 <= i < events@.len() && (#[trigger] events@[i]).ts_unix == s.last
                &&& reason_views(s.reasons@) == ranked_labels(events@)
            },
            None => events@.len() == 0,
        },
{
    let n: usize = events.len();
    if n == 0 {
        return None;
    }
    let mut ts: Vec<i64> = Vec::new();
    let mut at: Vec<usize> = Vec::new();
    let mut i: usize = 0;
    while i < n
        invariant
            i <= n == events@.len(),
            ts@.len() == i,
            at@.len() == i,
            forall|k: int| 0 <= k < i ==> #[trigger] ts@[k] == events@[k].ts_unix,
            forall|k: int| 0 <= k < i ==> #[trigger] at@[k] == k,
        decreases n - i,
    {
        ts.push(events[i].ts_unix);
        at.push(i);
        i = i + 1;
    }
    assert(ts@.map_values(|t: i64| t as int) =~= times(events@));
    assert(rank::positions(at@) =~= timeline::everywhere(events@.len()));
    let (first, last) = timeline::bounds(&ts, &at);
    proof {
        let all = timeline::everywhere(events@.len());
        groups::law_distinct_counts_the_values(ips(events@));
        timeline::law_earliest_and_latest_are_bounds(times(events@), all);
        assert forall|i: int| 0 <= i < events@.len() implies first <= (#[trigger] events@[i]).ts_unix
            <= last by {
            assert(all[i] == i);
            assert(times(events@)[all[i]] == events@[i].ts_unix);
        }
        let a = choose|i: int| 0 <= i < all.len() && times(events@)[#[trigger] all[i]] == first;
        let b = choose|i: int| 0 <= i < all.len() && times(events@)[#[trigger] all[i]] == last;
        assert(events@[a].ts_unix == first && events@[b].ts_unix == last);
    }
    let rows = ip_rows(events);
    let reasons = reason_rows(events);
    Some(ProbeStats { probes: n, unique_ips: rows.len(), first, last, reasons })
}

// ---------------------------------------------------------------------------
// Text
// ---------------------------------------------------------------------------

/// A line of the report on the most active addresses.
pub open spec fn top_line(row: IpRow, ip_text: Seq<char>) -> Seq<char> {
    text::pad_left(text::dec(row.hits as nat), 5, ' ') + "  "@ + text::pad_right(ip_text, 17) + "  "@
        + text::pad_right(calendar::iso_of(row.first as int), 20) + "  "@ + text::pad_right(
        calendar::iso_of(row.last as int),
        20,
    ) + "  "@ + timeline::dwell_text(dwell_of(row) as nat)
}

/// A line of the report on the most active addresses shows the number of events,
/// the address and the first and the last instant, each in its column, and the
/// time in between.
pub proof fn law_top_line_shows_the_address(row: IpRow, ip_text: Seq<char>)
    requires
        row.first <= row.last,
        text::dec(row.hits as nat).len() <= 5,
        ip_text.len() <= 17,
        calendar::iso_of(row.first as int).len() <= 20,
        calendar::iso_of(row.last as int).len() <= 20,
    ensures
        ({
            let line = top_line(row, ip_text);
            &&& text::shows_right(line, 0, 5, text::dec(row.hits as nat))
            &&& text::shows_left(line, 7, 17, ip_text)
            &&& text::shows_left(line, 26, 20, calendar::iso_of(row.first as int))
            &&& text::shows_left(line, 48, 20, calendar::iso_of(row.last as int))
            &&& line.skip(68) == "  "@ + timeline::dwell_text((row.last - row.first) as nat)
        }),
{
    lemma_top_columns(
        top_line(row, ip_text),
        text::dec(row.hits as nat),
        ip_text,
        calendar::iso_of(row.first as int),
        calendar::iso_of(row.last as int),
        timeline::dwell_text((row.last - row.first) as nat),
    );
}

proof fn lemma_top_columns(
    line: Seq<char>,
    hits: Seq<char>,
    ip_text: Seq<char>,
    first: Seq<char>,
    last: Seq<char>,
    dwell: Seq<char>,
)
    requires
        line == text::pad_left(hits, 5, ' ') + "  "@ + text::pad_right(ip_text, 17) + "  "@
            + text::pad_right(first, 20) + "  "@ + text::pad_right(last, 20) + "  "@ + dwell,
        hits.len() <= 5,
        ip_text.len() <= 17,
        first.len() <= 20,
        last.len() <= 20,
    ensures
        text::shows_right(line, 0, 5, hits),
        text::shows_left(line, 7, 17, ip_text),
        text::shows_left(line, 26, 20, first),
        text::shows_left(line, 48, 20, last),
        line.skip(68) == "  "@ + dwell,
{
    reveal_strlit("  ");
    text::law_padding_fills_the_column(hits, 5, ' ');
    text::law_padding_fills_the_column(ip_text, 17, ' ');
    text::law_padding_fills_the_column(first, 20, ' ');
    text::law_padding_fills_the_column(last, 20, ' ');
    let a = Seq::<char>::empty();
    let b = text::pad_left(hits, 5, ' ') + "  "@;
    let c = b + text::pad_right(ip_text, 17) + "  "@;
    let d = c + text::pad_right(first, 20) + "  "@;
    let end = "  "@ + dwell;
    assert(line =~= d + text::pad_right(last, 20) + end);
    text::lemma_shows_left(d, last, 20, end);
    let t = "  "@ + text::pad_right(last, 20) + end;
    assert(line =~= c + text::pad_right(first, 20) + t);
    text::lemma_shows_left(c, first, 20, t);
    let u = "  "@ + text::pad_right(first, 20) + t;
    assert(line =~= b + text::pad_right(ip_text, 17) + u);
    text::lemma_shows_left(b, ip_text, 17, u);
    let v = "  "@ + text::pad_right(ip_text, 17) + u;
    assert(line =~= a + text::pad_left(hits, 5, ' ') + v);
    text::lemma_shows_right(a, hits, 5, v);
    assert(line.skip(68) =~= end);
}

/// Renders a row of the report on the most active addresses.
pub fn render_top(row: &IpRow, ip_text: &str) -> (r: String)
    requires
        row.first <= row.last,
    ensures
        r@ == top_line(*row, ip_text@),
{
    let mut out = String::new();
    text::push_dec_right(&mut out, row.hits as u64, 5);
    assert(out@ =~= text::pad_left(text::dec(row.hits as nat), 5, ' '));
    out.append("  ");
    text::push_padded_right(&mut out, ip_text, 17);
    out.append("  ");
    let first = calendar::ts_to_iso(row.first);
    text::push_padded_right(&mut out, first.as_str(), 20);
    out.append("  ");
    let last = calendar::ts_to_iso(row.last);
    text::push_padded_right(&mut out, last.as_str(), 20);
    out.append("  ");
    timeline::push_dwell(&mut out, (row.last as i128 - row.first as i128) as u64);
    out
}

/// A line of the dwell report.
pub open spec fn dwell_line(row: IpRow, ip_text: Seq<char>) -> Seq<char> {
    text::pad_left(text::dec(row.hits as nat), 5, ' ') + "  "@ + text::pad_right(ip_text, 17) + "  "@
        + text::pad_left(text::dec((dwell_of(row) / 3600) as nat), 5, ' ') + "h"@
        + text::zero_padded((dwell_of(row) % 3600) / 60, 2) + "m  "@ + calendar::iso_of(
        row.first as int,
    ) + " → "@ + calendar::iso_of(row.last as int)
}

/// A line of the dwell report shows the number of events, the address and the
/// time between the first instant and the last in hours and minutes, each in
/// its column, and both instants.
pub proof fn law_dwell_line_shows_the_dwell(row: IpRow, ip_text: Seq<char>, h: nat, m: nat)
    requires
        m < 60,
        h * 3600 + m * 60 <= row.last - row.first < h * 3600 + m * 60 + 60,
        text::dec(row.hits as nat).len() <= 5,
        text::dec(h).len() <= 5,
        ip_text.len() <= 17,
    ensures
        ({
            let line = dwell_line(row, ip_text);
            &&& text::shows_right(line, 0, 5, text::dec(row.hits as nat))
            &&& text::shows_left(line, 7, 17, ip_text)
            &&& text::shows_right(line, 26, 5, text::dec(h))
            &&& line.skip(31) == "h"@ + text::zero_padded(m as int, 2) + "m  "@ + calendar::iso_of(
                row.first as int,
            ) + " → "@ + calendar::iso_of(row.last as int)
        }),
{
    reveal_strlit("  ");
    reveal_strlit("h");
    let line = dwell_line(row, ip_text);
    let dwell = row.last - row.first;
    assert(dwell / 3600 == h && (dwell % 3600) / 60 == m);
    let hits = text::dec(row.hits as nat);
    text::law_padding_fills_the_column(hits, 5, ' ');
    text::law_padding_fills_the_column(ip_text, 17, ' ');
    text::law_padding_fills_the_column(text::dec(h), 5, ' ');
    let a = Seq::<char>::empty();
    let b = text::pad_left(hits, 5, ' ') + "  "@;
    let c = b + text::pad_right(ip_text, 17) + "  "@;
    let end = "h"@ + text::zero_padded(m as int, 2) + "m  "@ + calendar::iso_of(row.first as int)
        + " → "@ + calendar::iso_of(row.last as int);
    assert(line =~= c + text::pad_left(text::dec(h), 5, ' ') + end);
    text::lemma_shows_right(c, text::dec(h), 5, end);
    let t = "  "@ + text::pad_left(text::dec(h), 5, ' ') + end;
    assert(line =~= b + text::pad_right(ip_text, 17) + t);
    text::lemma_shows_left(b, ip_text, 17, t);
    let u = "  "@ + text::pad_right(ip_text, 17) + t;
    assert(line =~= a + text::pad_left(hits, 5, ' ') + u);
    text::lemma_shows_right(a, hits, 5, u);
    assert(line.skip(31) =~= end);
}

/// Renders a row of the dwell report.
pub fn render_dwell(row: &IpRow, ip_text: &str) -> (r: String)
    requires
        row.first <= row.last,
    ensures
        r@ == dwell_line(*row, ip_text@),
{
    let d: u64 = (row.last as i128 - row.first as i128) as u64;
    let mut out = String::new();
    text::push_dec_right(&mut out, row.hits as u64, 5);
    assert(out@ =~= text::pad_left(text::dec(row.hits as nat), 5, ' '));
    out.append("  ");
    text::push_padded_right(&mut out, ip_text, 17);
    out.append("  ");
    text::push_dec_right(&mut out, d / 3600, 5);
    out.append("h");
    text::push_zero_padded(&mut out, ((d % 3600) / 60) as i64, 2);
    out.append("m  ");
    let first = calendar::ts_to_iso(row.first);
    out.append(first.as_str());
    out.append(" → ");
    let last = calendar::ts_to_iso(row.last);
    out.append(last.as_str());
    out
}

/// The lines of the statistics, given the text of the hourly rate.
pub open spec fn stats_text(s: ProbeStats, rate: Seq<char>) -> Seq<Seq<char>> {
    let d = timeline::span(s.first as int, s.last as int);
    seq![
        "probes         : "@ + text::dec(s.probes as nat),
        "unique ips     : "@ + text::dec(s.unique_ips as nat),
        "first seen     : "@ + calendar::iso_of(s.first as int) + " UTC"@,
        "last seen      : "@ + calendar::iso_of(s.last as int) + " UTC"@,
        "window         : "@ + text::dec((d / 3600) as nat) + "h "@ + text::dec(
            ((d % 3600) / 60) as nat,
        ) + "m"@,
        "probes / hour  : "@ + rate,
        "reasons:"@,
    ] + s.reasons@.map_values(
        |r: ReasonRow|
            "  "@ + text::pad_left(text::dec(r.count as nat), 5, ' ') + "  "@ + r.label@,
    )
}

/// The statistics state the window between the first instant and the last in
/// whole hours and minutes; a window of nothing counts as a second.
pub proof fn law_stats_state_the_window(s: ProbeStats, rate: Seq<char>, h: nat, m: nat)
    requires
        s.first <= s.last,
        m < 60,
        h * 3600 + m * 60 <= s.last - s.first < h * 3600 + m * 60 + 60,
    ensures
        stats_text(s, rate).len() == 7 + s.reasons@.len(),
        stats_text(s, rate)[4] == "window         : "@ + text::dec(h) + "h "@ + text::dec(m) + "m"@,
        stats_text(s, rate)[0] == "probes         : "@ + text::dec(s.probes as nat),
        stats_text(s, rate)[1] == "unique ips     : "@ + text::dec(s.unique_ips as nat),
        stats_text(s, rate)[2] == "first seen     : "@ + calendar::iso_of(s.first as int) + " UTC"@,
        stats_text(s, rate)[3] == "last seen      : "@ + calendar::iso_of(s.last as int) + " UTC"@,
        forall|i: int|
            7 <= i < stats_text(s, rate).len() ==> #[trigger] stats_text(s, rate)[i] == "  "@
                + text::pad_left(text::dec(s.reasons@[i - 7].count as nat), 5, ' ') + "  "@
                + s.reasons@[i - 7].label@,
{
    let d = timeline::span(s.first as int, s.last as int);
    assert(d / 3600 == h && (d % 3600) / 60 == m);
}

/// Renders the statistics.
pub fn render_stats(s: &ProbeStats, rate: &str) -> (r: Vec<String>)
    requires
        s.first <= s.last,
    ensures
        text::texts(r@) == stats_text(*s, rate@),
{
    let d: u64 = timeline::span_seconds(s.first, s.last);
    let mut out: Vec<String> = Vec::new();
    let mut a = "probes         : ".to_owned();
    text::push_dec(&mut a, s.probes as u64);
    out.push(a);
    let mut b = "unique ips     : ".to_owned();
    text::push_dec(&mut b, s.unique_ips as u64);
    out.push(b);
    let mut c = "first seen     : ".to_owned();
    c.append(calendar::ts_to_iso(s.first).as_str());
    c.append(" UTC");
    out.push(c);
    let mut e = "last seen      : ".to_owned();
    e.append(calendar::ts_to_iso(s.last).as_str());
    e.append(" UTC");
    out.push(e);
    let mut f = "window         : ".to_owned();
    text::push_dec(&mut f, d / 3600);
    f.append("h ");
    text::push_dec(&mut f, (d % 3600) / 60);
    f.append("m");
    out.push(f);
    let mut g = "probes / hour  : ".to_owned();
    g.append(rate);
    out.push(g);
    out.push("reasons:".to_owned());
    let ghost line = |r: ReasonRow|
        "  "@ + text::pad_left(text::dec(r.count as nat), 5, ' ') + "  "@ + r.label@;
    let ghost head = text::texts(out@);
    let ghost full = stats_text(*s, rate@);
    assert(head =~= full.take(7));
    let mut i: usize = 0;
    while i < s.reasons.len()
        invariant
            i <= s.reasons@.len(),
            head.len() == 7,
            line == (|r: ReasonRow|
                "  "@ + text::pad_left(text::dec(r.count as nat), 5, ' ') + "  "@ + r.label@),
            text::texts(out@) == head + s.reasons@.take(i as int).map_values(line),
        decreases s.reasons@.len() - i,
    {
        let mut l = "  ".to_owned();
        text::push_dec_right(&mut l, s.reasons[i].count as u64, 5);
        l.append("  ");
        l.append(s.reasons[i].label);
        let ghost before = out@;
        out.push(l);
        i = i + 1;
        assert(text::texts(out@) =~= text::texts(before).push(l@));
        assert(text::texts(out@) =~= head + s.reasons@.take(i as int).map_values(line));
    }
    assert(s.reasons@.take(s.reasons@.len() as int) =~= s.reasons@);
    assert(full =~= head + s.reasons@.map_values(line));
    out
}

/// The heading of the report on the most active addresses.
pub open spec fn top_heading() -> Seq<char> {
    text::pad_left("hits"@, 5, ' ') + "  "@ + text::pad_right("ip"@, 17) + "  "@ + text::pad_right(
        "first"@,
        20,
    ) + "  "@ + text::pad_right("last"@, 20) + "  dwell"@
}

/// Renders the heading of the report on the most active addresses.
pub fn render_top_heading() -> (r: String)
    ensures
        r@ == top_heading(),
{
    let mut out = String::new();
    text::push_padded_left(&mut out, "hits", 5, ' ');
    assert(out@ =~= text::pad_left("hits"@, 5, ' '));
    out.append("  ");
    text::push_padded_right(&mut out, "ip", 17);
    out.append("  ");
    text::push_padded_right(&mut out, "first", 20);
    out.append("  ");
    text::push_padded_right(&mut out, "last", 20);
    out.append("  dwell");
    out
}

/// The heading of the dwell report.
pub open spec fn dwell_heading() -> Seq<char> {
    text::pad_left("hits"@, 5, ' ') + "  "@ + text::pad_right("ip"@, 17) + "  "@ + text::pad_left(
        "dwell"@,
        8,
        ' ',
    ) + "  span"@
}

/// Renders the heading of the dwell report.
pub fn render_dwell_heading() -> (r: String)
    ensures
        r@ == dwell_heading(),
{
    let mut out = String::new();
    text::push_padded_left(&mut out, "hits", 5, ' ');
    assert(out@ =~= text::pad_left("hits"@, 5, ' '));
    out.append("  ");
    text::push_padded_right(&mut out, "ip", 17);
    out.append("  ");
    text::push_padded_left(&mut out, "dwell", 8, ' ');
    out.append("  span");
    out
}

// ---------------------------------------------------------------------------
// One address
// ---------------------------------------------------------------------------

/// How many of the latest events the report on an address lists.
pub const RECENT: usize = 10;

/// The positions of the events of an address, in chronological order.
pub open spec fn probes_of(events: Seq<ProbeEvent>, ip: IpAddr) -> Seq<int> {
    timeline::chronicle(times(events), groups::members(ips(events), ip))
}

/// Finds the events of an address; gives their positions in chronological
/// order.
pub fn find_probes(events: &Vec<ProbeEvent>, ip: IpAddr) -> (r: Vec<usize>)
    ensures
        rank::positions(r@) == probes_of(events@, ip),
        forall|i: int| 0 <= i < r@.len() ==> #[trigger] r@[i] < events@.len(),
        forall|i: int, j: int|
            0 <= i <= j < r@.len() ==> events@[#[trigger] r@[i] as int].ts_unix
                <= events@[#[trigger] r@[j] as int].ts_unix,
{
    let n: usize = events.len();
    let mut ts: Vec<i64> = Vec::new();
    let mut at: Vec<usize> = Vec::new();
    let ghost keys = ips(events@);
    let mut i: usize = 0;
    assert(keys.take(0) =~= Seq::<IpAddr>::empty());
    assert(rank::positions(at@) =~= groups::members(keys.take(0), ip));
    while i < n
        invariant
            i <= n == events@.len(),
            keys == ips(events@),
            ts@.len() == i,
            forall|k: int| 0 <= k < i ==> #[trigger] ts@[k] == events@[k].ts_unix,
            forall|k: int| 0 <= k < at@.len() ==> #[trigger] at@[k] < i,
            rank::positions(at@) == groups::members(keys.take(i as int), ip),
        decreases n - i,
    {
        ts.push(events[i].ts_unix);
        assert(keys.take(i + 1).drop_last() =~= keys.take(i as int));
        assert(keys.take(i + 1).last() == events@[i as int].ip);
        let ghost before = at@;
        if events[i].ip == ip {
            at.push(i);
            assert(rank::positions(at@) =~= rank::positions(before).push(i as int));
        }
        i = i + 1;
    }
    assert(keys.take(n as int) =~= keys);
    assert(ts@.map_values(|t: i64| t as int) =~= times(events@));
    let order = timeline::chronological(&ts, &at);
    assert forall|i: int, j: int| 0 <= i <= j < order@.len() implies events@[
        #[trigger] order@[i] as int].ts_unix <= events@[#[trigger] order@[j] as int].ts_unix by {
        assert(ts@[order@[i] as int] <= ts@[order@[j] as int]);
    }
    order
}

/// A line of the list of the latest events.
pub open spec fn recent_line(e: ProbeEvent) -> Seq<char> {
    "    "@ + calendar::iso_of(e.ts_unix as int) + "  "@ + e.reason.label_text()
}

/// What the report on an address says of its events: how many, over how long,
/// and the latest, last first.
pub open spec fn probes_text(events: Seq<ProbeEvent>, at: Seq<int>) -> Seq<Seq<char>> {
    if at.len() == 0 {
        seq!["  probes : 0 (no direct-path TLS handshake events)"@]
    } else {
        let first = times(events)[at[0]];
        let last = times(events)[at.last()];
        seq![
            "  probes : "@ + text::dec(at.len()) + " events, dwell "@ + timeline::dwell_text(
                (last - first) as nat,
            ),
            "  first  : "@ + calendar::iso_of(first),
            "  last   : "@ + calendar::iso_of(last),
            "  recent :"@,
        ] + rank::leading(at.reverse(), RECENT as nat).map_values(
            |i: int| recent_line(events[i]),
        )
    }
}

/// The lines of the report on an address.
pub open spec fn ip_text(
    events: Seq<ProbeEvent>,
    ip: IpAddr,
    name: Seq<char>,
    asn: AsnInfo,
    geo: GeoInfo,
) -> Seq<Seq<char>> {
    seq![
        "== "@ + name + " =="@,
        "  ASN    : AS"@ + text::dec(asn.asn as nat) + "  "@ + asn.org@ + " ("@ + asn.country@
            + ")"@,
        "  geo    : "@ + geo.city@ + " / "@ + geo.region@ + " / "@ + geo.country_code@,
        "  ISP    : "@ + geo.isp@,
        "  org    : "@ + geo.org@,
        "  as_str : "@ + geo.as_field@,
    ] + probes_text(events, probes_of(events, ip))
}

fn render_probes(events: &Vec<ProbeEvent>, at: &Vec<usize>) -> (r: Vec<String>)
    requires
        forall|i: int| 0 <= i < at@.len() ==> #[trigger] at@[i] < events@.len(),
        forall|i: int, j: int|
            0 <= i <= j < at@.len() ==> events@[#[trigger] at@[i] as int].ts_unix
                <= events@[#[trigger] at@[j] as int].ts_unix,
    ensures
        text::texts(r@) == probes_text(events@, rank::positions(at@)),
{
    let ghost full = probes_text(events@, rank::positions(at@));
    let n: usize = at.len();
    let mut out: Vec<String> = Vec::new();
    if n == 0 {
        out.push("  probes : 0 (no direct-path TLS handshake events)".to_owned());
        assert(text::texts(out@) =~= full);
        return out;
    }
    let first: i64 = events[at[0]].ts_unix;
    let last: i64 = events[at[n - 1]].ts_unix;
    assert(events@[at@[0] as int].ts_unix <= events@[at@[n - 1] as int].ts_unix);
    assert(times(events@)[rank::positions(at@)[0]] == first);
    assert(times(events@)[rank::positions(at@).last()] == last);
    let mut a = "  probes : ".to_owned();
    text::push_dec(&mut a, n as u64);
    a.append(" events, dwell ");
    timeline::push_dwell(&mut a, (last as i128 - first as i128) as u64);
    out.push(a);
    let mut b = "  first  : ".to_owned();
    b.append(calendar::ts_to_iso(first).as_str());
    out.push(b);
    let mut c = "  last   : ".to_owned();
    c.append(calendar::ts_to_iso(last).as_str());
    out.push(c);
    out.push("  recent :".to_owned());
    assert(text::texts(out@) =~= full.take(4));
    let shown: usize = if n < RECENT {
        n
    } else {
        RECENT
    };
    let ghost p = rank::positions(at@);
    let ghost rest = rank::leading(p.reverse(), RECENT as nat);
    assert(rest.len() == shown);
    let mut k: usize = 0;
    while k < shown
        invariant
            k <= shown <= n == at@.len(),
            p == rank::positions(at@),
            rest == rank::leading(p.reverse(), RECENT as nat),
            rest.len() == shown,
            full.len() == 4 + shown,
            forall|j: int| 0 <= j < shown ==> full[4 + j] == recent_line(events@[#[trigger] rest[j]]),
            forall|i: int| 0 <= i < at@.len() ==> #[trigger] at@[i] < events@.len(),
            text::texts(out@) == full.take(4 + k),
        decreases shown - k,
    {
        assert(rest[k as int] == at@[n - 1 - k]);
        let e = &events[at[n - 1 - k]];
        let mut l = "    ".to_owned();
        l.append(calendar::ts_to_iso(e.ts_unix).as_str());
        l.append("  ");
        l.append(e.reason.label());
        let ghost before = out@;
        out.push(l);
        k = k + 1;
        assert(text::texts(out@) =~= text::texts(before).push(l@));
        assert(text::texts(out@) =~= full.take(4 + k));
    }
    assert(full.take(full.len() as int) =~= full);
    out
}

/// Renders the report on an address: what is known of it, and its events. The
/// address comes with its text.
pub fn render_ip(
    events: &Vec<ProbeEvent>,
    ip: IpAddr,
    name: &str,
    asn: &AsnInfo,
    geo: &GeoInfo,
) -> (r: Vec<String>)
    ensures
        text::texts(r@) == ip_text(events@, ip, name@, *asn, *geo),
{
    let mut out: Vec<String> = Vec::new();
    let mut a = "== ".to_owned();
    a.append(name);
    a.append(" ==");
    out.push(a);
    let mut b = "  ASN    : AS".to_owned();
    text::push_dec(&mut b, asn.asn as u64);
    b.append("  ");
    b.append(asn.org.as_str());
    b.append(" (");
    b.append(asn.country.as_str());
    b.append(")");
    out.push(b);
    let mut c = "  geo    : ".to_owned();
    c.append(geo.city.as_str());
    c.append(" / ");
    c.append(geo.region.as_str());
    c.append(" / ");
    c.append(geo.country_code.as_str());
    out.push(c);
    let mut d = "  ISP    : ".to_owned();
    d.append(geo.isp.as_str());
    out.push(d);
    let mut e = "  org    : ".to_owned();
    e.append(geo.org.as_str());
    out.push(e);
    let mut f = "  as_str : ".to_owned();
    f.append(geo.as_field.as_str());
    out.push(f);
    let ghost head = text::texts(out@);
    let at = find_probes(events, ip);
    let mut rest = render_probes(events, &at);
    let ghost tail = rest@;
    let ghost before = out@;
    out.append(&mut rest);
    assert(text::texts(out@) =~= head + text::texts(tail));
    assert(text::texts(out@) =~= ip_text(events@, ip, name@, *asn, *geo));
    out
}

// ---------------------------------------------------------------------------
// Laws of the reports
// ---------------------------------------------------------------------------

/// The report on an address lists its latest events, last first, at most ten,
/// under how many there are and when the first and the last came.
pub proof fn law_ip_report_lists_the_latest(
    events: Seq<ProbeEvent>,
    ip: IpAddr,
    name: Seq<char>,
    asn: AsnInfo,
    geo: GeoInfo,
)
    ensures
        exists|at: Seq<int>|
            {
                let report = ip_text(events, ip, name, asn, geo);
                &&& #[trigger] timeline::is_timeline(times(events), ips(events), ip, at)
                &&& at.len() == count_of(events, ip)
                &&& at.len() == 0 ==> report.len() == 7
                &&& at.len() > 0 ==> {
                    &&& report.len() == 10 + if at.len() < 10 {
                        at.len() as int
                    } else {
                        10
                    }
                    &&& report[6] == "  probes : "@ + text::dec(at.len()) + " events, dwell "@
                        + timeline::dwell_text(
                        (events[at.last()].ts_unix - events[at[0]].ts_unix) as nat,
                    )
                    &&& report[7] == "  first  : "@ + calendar::iso_of(
                        events[at[0]].ts_unix as int,
                    )
                    &&& report[8] == "  last   : "@ + calendar::iso_of(
                        events[at.last()].ts_unix as int,
                    )
                    &&& forall|k: int|
                        0 <= k < 10 && k < at.len() ==> #[trigger] report[10 + k] == "    "@
                            + calendar::iso_of(events[at[at.len() - 1 - k]].ts_unix as int) + "  "@
                            + events[at[at.len() - 1 - k]].reason.label_text()
                }
            },
{
    let at = probes_of(events, ip);
    let report = ip_text(events, ip, name, asn, geo);
    timeline::law_chronicle_is_the_timeline(times(events), ips(events), ip);
    lemma_count(events, ip);
    if at.len() > 0 {
        let shown = rank::leading(at.reverse(), RECENT as nat);
        assert forall|k: int| 0 <= k < 10 && k < at.len() implies #[trigger] report[10 + k] == "    "@
            + calendar::iso_of(events[at[at.len() - 1 - k]].ts_unix as int) + "  "@
            + events[at[at.len() - 1 - k]].reason.label_text() by {
            assert(shown[k] == at[at.len() - 1 - k]);
        }
        assert(at[at.len() - 1] == at.last());
    }
}

/// The report on an address starts with its name, its system, its place, its
/// service provider, its organisation and its system as one text, whatever its
/// events are.
pub proof fn law_ip_report_names_the_address(
    events: Seq<ProbeEvent>,
    ip: IpAddr,
    name: Seq<char>,
    asn: AsnInfo,
    geo: GeoInfo,
)
    ensures
        ip_text(events, ip, name, asn, geo).take(6) == seq![
            "== "@ + name + " =="@,
            "  ASN    : AS"@ + text::dec(asn.asn as nat) + "  "@ + asn.org@ + " ("@ + asn.country@
                + ")"@,
            "  geo    : "@ + geo.city@ + " / "@ + geo.region@ + " / "@ + geo.country_code@,
            "  ISP    : "@ + geo.isp@,
            "  org    : "@ + geo.org@,
            "  as_str : "@ + geo.as_field@,
        ],
        count_of(events, ip) == 0 ==> ip_text(events, ip, name, asn, geo).skip(6) == seq![
            "  probes : 0 (no direct-path TLS handshake events)"@,
        ],
{
    let report = ip_text(events, ip, name, asn, geo);
    timeline::law_chronicle_is_the_timeline(times(events), ips(events), ip);
    lemma_count(events, ip);
    assert(report.take(6) =~= seq![
        "== "@ + name + " =="@,
        "  ASN    : AS"@ + text::dec(asn.asn as nat) + "  "@ + asn.org@ + " ("@ + asn.country@ + ")"@,
        "  geo    : "@ + geo.city@ + " / "@ + geo.region@ + " / "@ + geo.country_code@,
        "  ISP    : "@ + geo.isp@,
        "  org    : "@ + geo.org@,
        "  as_str : "@ + geo.as_field@,
    ]);
    if count_of(events, ip) == 0 {
        assert(report.skip(6) =~= seq!["  probes : 0 (no direct-path TLS handshake events)"@]);
    }
}

/// How many events have a reason of this label.
pub open spec fn count_of_label(events: Seq<ProbeEvent>, label: Seq<char>) -> nat {
    events.filter(|e: ProbeEvent| e.reason.label_text() == label).len()
}

proof fn lemma_label_count(events: Seq<ProbeEvent>, label: Seq<char>)
    ensures
        groups::members(labels(events), label).len() == count_of_label(events, label),
    decreases events.len(),
{
    reveal(Seq::filter);
    if events.len() > 0 {
        lemma_label_count(events.drop_last(), label);
        assert(labels(events).drop_last() =~= labels(events.drop_last()));
    }
}

/// The statistics list every reason that occurs, with the number of its events,
/// most frequent first.
pub proof fn law_reasons_are_counted(events: Seq<ProbeEvent>)
    ensures
        ({
            let rows = ranked_labels(events);
            &&& forall|i: int|
                0 <= i < rows.len() ==> (#[trigger] rows[i]).1 == count_of_label(events, rows[i].0)
            &&& forall|i: int, j: int|
                0 <= i <= j < rows.len() ==> (#[trigger] rows[i]).1 >= (#[trigger] rows[j]).1
            &&& forall|k: int|
                0 <= k < events.len() ==> exists|i: int|
                    0 <= i < rows.len() && (#[trigger] rows[i]).0 == (
                    #[trigger] events[k]).reason.label_text()
        }),
{
    let keys = labels(events);
    let d = groups::distinct(keys);
    let all = label_counts(events);
    let measure = |c: (Seq<char>, int)| c.1;
    let rows = ranked_labels(events);
    rank::law_top_shows_the_largest(all, measure, all.len());
    groups::lemma_distinct(keys);
    assert forall|i: int| 0 <= i < rows.len() implies (#[trigger] rows[i]).1 == count_of_label(
        events,
        rows[i].0,
    ) by {
        assert(all.contains(rows[i]));
        let k = choose|k: int| 0 <= k < all.len() && all[k] == rows[i];
        lemma_label_count(events, d[k]);
    }
    assert forall|i: int, j: int| 0 <= i <= j < rows.len() implies (#[trigger] rows[i]).1 >= (
    #[trigger] rows[j]).1 by {
        assert(measure(rows[i]) >= measure(rows[j]));
    }
    rank::law_ranking_exists(all.map_values(measure));
    assert forall|k: int| 0 <= k < events.len() implies exists|i: int|
        0 <= i < rows.len() && (#[trigger] rows[i]).0 == (
        #[trigger] events[k]).reason.label_text() by {
        assert(keys[k] == events[k].reason.label_text());
        assert(keys.contains(keys[k]));
        assert(d.contains(keys[k]));
        let p = choose|p: int| 0 <= p < d.len() && d[p] == keys[k];
        assert(all[p].0 == keys[k]);
        let order = rank::ranking(all.map_values(measure));
        assert(order.contains(p));
        let i = choose|i: int| 0 <= i < order.len() && order[i] == p;
        assert(rows[i] == all[p]);
    }
}

} // verus!
