//! Places of addresses: which to look up, in which batches, what the answers
//! say, and the reports by city and by organisation.

use vstd::prelude::*;
use crate::groups::{self, Place};
use crate::probe::{self, IpAddr, ProbeEvent};
use crate::probes::{self, IpRow};
use crate::rank;
use crate::store::GeoInfo;
use crate::text;

verus! {

// ---------------------------------------------------------------------------
// What to look up
// ---------------------------------------------------------------------------

/// The addresses with at least `min_hits` events, in the order in which they
/// first appear.
pub open spec fn candidates_of(events: Seq<ProbeEvent>, min_hits: usize) -> Seq<IpAddr> {
    probes::rows_of(events).filter(|row: IpRow| row.hits >= min_hits).map_values(
        |row: IpRow| row.ip,
    )
}

/// An address is looked up exactly if it has an event and at least `min_hits` of
/// them, and only once.
pub proof fn law_candidates_have_enough_events(
    events: Seq<ProbeEvent>,
    min_hits: usize,
    ip: IpAddr,
)
    requires
        events.len() <= usize::MAX,
    ensures
        candidates_of(events, min_hits).contains(ip) <==> (probes::count_of(events, ip) >= min_hits
            && exists|i: int| 0 <= i < events.len() && (#[trigger] events[i]).ip == ip),
        candidates_of(events, min_hits).no_duplicates(),
{
    let rows = probes::rows_of(events);
    let pass = |row: IpRow| row.hits >= min_hits;
    let kept = rows.filter(pass);
    let shown = candidates_of(events, min_hits);
    probes::law_rows_describe_addresses(events);
    probes::lemma_filtered_rows(rows, pass);
    assert forall|i: int, j: int| 0 <= i < shown.len() && 0 <= j < shown.len() && i != j implies shown[i]
        != shown[j] by {
        if i < j {
            assert(kept[i].ip != kept[j].ip);
        } else {
            assert(kept[j].ip != kept[i].ip);
        }
    }
    if shown.contains(ip) {
        let i = choose|i: int| 0 <= i < shown.len() && shown[i] == ip;
        assert(pass(kept[i]));
        assert(rows.contains(kept[i]));
        let k = choose|k: int| 0 <= k < rows.len() && rows[k] == kept[i];
        assert(probes::summarises(events, rows[k]));
    }
    if probes::count_of(events, ip) >= min_hits && exists|i: int|
        0 <= i < events.len() && (#[trigger] events[i]).ip == ip {
        let i = choose|i: int| 0 <= i < events.len() && (#[trigger] events[i]).ip == ip;
        assert(probes::has_row(rows, events[i].ip));
        let k = choose|k: int| 0 <= k < rows.len() && (#[trigger] rows[k]).ip == ip;
        assert(probes::summarises(events, rows[k]));
        assert(pass(rows[k]));
        let j = choose|j: int| 0 <= j < kept.len() && kept[j] == rows[k];
        assert(shown[j] == ip);
    }
}

/// The addresses with at least `min_hits` events.
pub fn candidates(events: &Vec<ProbeEvent>, min_hits: usize) -> (r: Vec<IpAddr>)
    ensures
        r@ == candidates_of(events@, min_hits),
{
    let rows = probes::ip_rows(events);
    let ghost enough = |row: IpRow| row.hits >= min_hits;
    let ghost ip_of = |row: IpRow| row.ip;
    let mut out: Vec<IpAddr> = Vec::new();
    let mut i: usize = 0;
    assert(rows@.take(0).filter(enough).map_values(ip_of) =~= out@) by {
        reveal(Seq::filter);
    }
    while i < rows.len()
        invariant
            i <= rows@.len(),
            enough == (|row: IpRow| row.hits >= min_hits),
            ip_of == (|row: IpRow| row.ip),
            out@ == rows@.take(i as int).filter(enough).map_values(ip_of),
        decreases rows@.len() - i,
    {
        let row: IpRow = rows[i];
        assert(rows@.take(i + 1).drop_last() =~= rows@.take(i as int));
        assert(rows@.take(i + 1).last() == row);
        reveal(Seq::filter);
        let ghost before = rows@.take(i as int).filter(enough);
        if row.hits >= min_hits {
            out.push(row.ip);
            assert(before.push(row).map_values(ip_of) =~= before.map_values(ip_of).push(row.ip));
        }
        i = i + 1;
    }
    assert(rows@.take(rows@.len() as int) =~= rows@);
    out
}

/// Whether an address has to be looked up: nothing is known of it, or what is
/// known was looked up more than `refresh_days` days before `now`.
pub open spec fn stale(looked_up_at: Option<i64>, now: i64, refresh_days: i64) -> bool {
    match looked_up_at {
        Some(at) => at < now - refresh_days * 86400,
        None => true,
    }
}

/// What was looked up stays good for as many days as are asked for, to the
/// second; what was never looked up is not good.
pub proof fn law_lookups_go_stale_after_days(at: i64, now: i64, refresh_days: i64)
    ensures
        stale(None, now, refresh_days),
        now - at <= refresh_days * 24 * 60 * 60 ==> !stale(Some(at), now, refresh_days),
        now - at > refresh_days * 24 * 60 * 60 ==> stale(Some(at), now, refresh_days),
{
}

/// Whether an address has to be looked up; see `stale`.
pub fn needs_lookup(looked_up_at: Option<i64>, now: i64, refresh_days: i64) -> (r: bool)
    ensures
        r == stale(looked_up_at, now, refresh_days),
{
    match looked_up_at {
        Some(at) => (at as i128) < (now as i128) - (refresh_days as i128) * 86400,
        None => true,
    }
}

/// The addresses that have to be looked up.
pub open spec fn stale_ips(
    ips: Seq<IpAddr>,
    looked_up: Seq<Option<i64>>,
    now: i64,
    refresh_days: i64,
) -> Seq<IpAddr>
    decreases ips.len(),
{
    if ips.len() == 0 {
        Seq::empty()
    } else {
        let before = stale_ips(ips.drop_last(), looked_up.drop_last(), now, refresh_days);
        if stale(looked_up.last(), now, refresh_days) {
            before.push(ips.last())
        } else {
            before
        }
    }
}

/// `at` are the positions of the addresses to be looked up, in order: those that
/// were never looked up and those whose look-up is too old.
pub open spec fn are_stale_positions(
    at: Seq<int>,
    looked_up: Seq<Option<i64>>,
    now: i64,
    refresh_days: i64,
) -> bool {
    &&& forall|i: int|
        0 <= i < at.len() ==> 0 <= #[trigger] at[i] < looked_up.len() && (looked_up[at[i]] is None || now
            - looked_up[at[i]]->0 > refresh_days * 86400)
    &&& forall|i: int, j: int| 0 <= i < j < at.len() ==> #[trigger] at[i] < #[trigger] at[j]
    &&& forall|k: int|
        0 <= k < looked_up.len() && (#[trigger] looked_up[k] is None || now - looked_up[k]->0
            > refresh_days * 86400) ==> at.contains(k)
}

/// Exactly the addresses that are stale are looked up, in their order.
pub proof fn law_stale_addresses_are_looked_up(
    ips: Seq<IpAddr>,
    looked_up: Seq<Option<i64>>,
    now: i64,
    refresh_days: i64,
)
    requires
        ips.len() == looked_up.len(),
    ensures
        exists|at: Seq<int>|
            #[trigger] are_stale_positions(at, looked_up, now, refresh_days) && stale_ips(
                ips,
                looked_up,
                now,
                refresh_days,
            ) == at.map_values(|i: int| ips[i]),
    decreases ips.len(),
{
    let shown = stale_ips(ips, looked_up, now, refresh_days);
    if ips.len() == 0 {
        let none = Seq::<int>::empty();
        assert(are_stale_positions(none, looked_up, now, refresh_days));
        assert(shown =~= none.map_values(|i: int| ips[i]));
    } else {
        let p = ips.drop_last();
        let l = looked_up.drop_last();
        law_stale_addresses_are_looked_up(p, l, now, refresh_days);
        let before = choose|at: Seq<int>|
            #[trigger] are_stale_positions(at, l, now, refresh_days) && stale_ips(
                p,
                l,
                now,
                refresh_days,
            ) == at.map_values(|i: int| p[i]);
        let last = looked_up.len() - 1;
        let at = if stale(looked_up.last(), now, refresh_days) {
            before.push(last)
        } else {
            before
        };
        assert forall|i: int| 0 <= i < at.len() implies 0 <= #[trigger] at[i] < looked_up.len() && (
        looked_up[at[i]] is None || now - looked_up[at[i]]->0 > refresh_days * 86400) by {
            if i < before.len() {
                assert(at[i] == before[i]);
                assert(l[before[i]] == looked_up[at[i]]);
            }
        }
        assert forall|i: int, j: int| 0 <= i < j < at.len() implies #[trigger] at[i] < #[trigger] at[j] by {
            assert(at[i] == before[i]);
            if j < before.len() {
                assert(at[j] == before[j]);
            }
        }
        assert forall|k: int|
            0 <= k < looked_up.len() && (#[trigger] looked_up[k] is None || now - looked_up[k]->0
                > refresh_days * 86400) implies at.contains(k) by {
            if k < last {
                assert(l[k] == looked_up[k]);
                assert(before.contains(k));
                let i = choose|i: int| 0 <= i < before.len() && before[i] == k;
                assert(at[i] == k);
            } else {
                assert(at[at.len() - 1] == k);
            }
        }
        assert(are_stale_positions(at, looked_up, now, refresh_days));
        assert(shown =~= at.map_values(|i: int| ips[i])) by {
            assert forall|i: int| 0 <= i < before.len() implies p[before[i]] == ips[before[i]] by {
                assert(0 <= before[i] < l.len());
            }
        }
    }
}

/// Picks the addresses that have to be looked up. `looked_up` tells of each
/// address when it was looked up, if ever.
pub fn needed(
    ips: &Vec<IpAddr>,
    looked_up: &Vec<Option<i64>>,
    now: i64,
    refresh_days: i64,
) -> (r: Vec<IpAddr>)
    requires
        ips@.len() == looked_up@.len(),
    ensures
        r@ == stale_ips(ips@, looked_up@, now, refresh_days),
{
    let mut out: Vec<IpAddr> = Vec::new();
    let mut i: usize = 0;
    assert(ips@.take(0) =~= Seq::<IpAddr>::empty());
    while i < ips.len()
        invariant
            i <= ips@.len() == looked_up@.len(),
            out@ == stale_ips(
                ips@.take(i as int),
                looked_up@.take(i as int),
                now,
                refresh_days,
            ),
        decreases ips@.len() - i,
    {
        assert(ips@.take(i + 1).drop_last() =~= ips@.take(i as int));
        assert(looked_up@.take(i + 1).drop_last() =~= looked_up@.take(i as int));
        if needs_lookup(looked_up[i], now, refresh_days) {
            out.push(ips[i]);
        }
        i = i + 1;
    }
    assert(ips@.take(ips@.len() as int) =~= ips@);
    assert(looked_up@.take(ips@.len() as int) =~= looked_up@);
    out
}

/// How many addresses the service takes in one request.
pub const BATCH: usize = 100;

/// How long to wait after a full batch, in milliseconds.
pub const PAUSE_MS: u64 = 4200;

/// The addresses in batches: all full, but for the last.
pub open spec fn batches_of(ips: Seq<IpAddr>) -> Seq<Seq<IpAddr>>
    decreases ips.len(),
{
    if ips.len() == 0 {
        Seq::empty()
    } else if ips.len() <= BATCH {
        seq![ips]
    } else {
        seq![ips.take(BATCH as int)] + batches_of(ips.skip(BATCH as int))
    }
}

/// Batches lose no address and keep the order.
pub proof fn law_batches_hold_all(ips: Seq<IpAddr>)
    ensures
        batches_of(ips).flatten() == ips,
        forall|i: int|
            0 <= i < batches_of(ips).len() ==> 0 < (#[trigger] batches_of(ips)[i]).len() <= 100,
        forall|i: int|
            0 <= i < batches_of(ips).len() - 1 ==> (#[trigger] batches_of(ips)[i]).len() == 100,
    decreases ips.len(),
{
    let all = batches_of(ips);
    if ips.len() == 0 {
        assert(all.flatten() =~= ips);
    } else if ips.len() <= BATCH {
        assert(all.drop_first() =~= Seq::<Seq<IpAddr>>::empty());
        assert(all.drop_first().flatten() =~= Seq::<IpAddr>::empty());
        assert(all.flatten() =~= ips);
    } else {
        let rest = ips.skip(BATCH as int);
        law_batches_hold_all(rest);
        assert(all.drop_first() =~= batches_of(rest));
        assert(ips.take(BATCH as int) + rest =~= ips);
        assert forall|i: int| 0 <= i < all.len() implies 0 < (#[trigger] all[i]).len() <= BATCH by {
            if i > 0 {
                assert(all[i] == batches_of(rest)[i - 1]);
            }
        }
        assert forall|i: int| 0 <= i < all.len() - 1 implies (#[trigger] all[i]).len() == BATCH by {
            if i > 0 {
                assert(all[i] == batches_of(rest)[i - 1]);
            }
        }
    }
}

/// Cuts addresses into batches.
pub fn batches(ips: &Vec<IpAddr>) -> (r: Vec<Vec<IpAddr>>)
    ensures
        groups::views(r@) == batches_of(ips@),
        groups::views(r@).flatten() == ips@,
        forall|i: int| 0 <= i < r@.len() ==> 0 < (#[trigger] r@[i])@.len() <= 100,
        forall|i: int| 0 <= i < r@.len() - 1 ==> (#[trigger] r@[i])@.len() == 100,
{
    let n: usize = ips.len();
    let mut out: Vec<Vec<IpAddr>> = Vec::new();
    let mut lo: usize = 0;
    assert(ips@.skip(0) =~= ips@);
    assert(groups::views(out@) + batches_of(ips@) =~= batches_of(ips@));
    while lo < n
        invariant
            lo <= n == ips@.len(),
            batches_of(ips@) == groups::views(out@) + batches_of(ips@.skip(lo as int)),
        decreases n - lo,
    {
        let hi: usize = if n - lo <= BATCH {
            n
        } else {
            lo + BATCH
        };
        let mut batch: Vec<IpAddr> = Vec::new();
        let mut i: usize = lo;
        while i < hi
            invariant
                lo <= i <= hi <= n == ips@.len(),
                batch@ == ips@.subrange(lo as int, i as int),
            decreases hi - i,
        {
            batch.push(ips[i]);
            i = i + 1;
            assert(batch@ =~= ips@.subrange(lo as int, i as int));
        }
        let ghost rest = ips@.skip(lo as int);
        let ghost before = out@;
        let ghost b = batch@;
        assert(b =~= rest.take(hi - lo));
        assert(rest.skip(hi - lo) =~= ips@.skip(hi as int));
        out.push(batch);
        assert(groups::views(out@) =~= groups::views(before).push(b));
        proof {
            if n - lo <= BATCH {
                assert(rest.take(hi - lo) =~= rest);
                assert(ips@.skip(hi as int) =~= Seq::<IpAddr>::empty());
            }
            assert(batches_of(rest) =~= seq![b] + batches_of(ips@.skip(hi as int)));
            assert(groups::views(before) + (seq![b] + batches_of(ips@.skip(hi as int)))
                =~= groups::views(out@) + batches_of(ips@.skip(hi as int)));
        }
        lo = hi;
    }
    assert(ips@.skip(n as int) =~= Seq::<IpAddr>::empty());
    assert(batches_of(ips@) =~= groups::views(out@));
    proof {
        law_batches_hold_all(ips@);
        assert forall|i: int| 0 <= i < out@.len() implies 0 < (#[trigger] out@[i])@.len() <= 100 && (i
            < out@.len() - 1 ==> out@[i]@.len() == 100) by {
            assert(batches_of(ips@)[i] == out@[i]@);
        }
    }
    out
}

/// Whether to wait after a batch: only a full one may have a successor.
pub fn pause_after(batch: &Vec<IpAddr>) -> (r: bool)
    ensures
        r == (batch@.len() == BATCH),
        r <==> batch@.len() == 100,
{
    batch.len() == BATCH
}

// ---------------------------------------------------------------------------
// Answers
// ---------------------------------------------------------------------------

/// One entry of the service's answer.
#[derive(Debug)]
pub struct GeoEntry {
    /// `success` where the address was found.
    pub status: String,
    /// Country.
    pub country: String,
    /// Code of the country.
    pub country_code: String,
    /// Region.
    pub region: String,
    /// City.
    pub city: String,
    /// Internet service provider.
    pub isp: String,
    /// Organisation.
    pub org: String,
    /// Autonomous system as one text.
    pub as_field: String,
    /// The address that the entry is about, where it reads as one.
    pub ip: Option<IpAddr>,
}

/// Whether an entry tells the place of an address.
pub open spec fn usable(e: GeoEntry) -> bool {
    e.status@ == "success"@ && e.ip is Some
}

/// `g` holds what an entry says.
pub open spec fn states(e: GeoEntry, now: i64, g: GeoInfo) -> bool {
    &&& g.country@ == e.country@
    &&& g.country_code@ == e.country_code@
    &&& g.region@ == e.region@
    &&& g.city@ == e.city@
    &&& g.isp@ == e.isp@
    &&& g.org@ == e.org@
    &&& g.as_field@ == e.as_field@
    &&& g.looked_up_at == now
}

/// An entry counts exactly if its status is success and its address could be
/// read, and each of its fields is kept under its own name.
pub proof fn law_entries_are_kept_by_name(e: GeoEntry, now: i64, g: GeoInfo)
    ensures
        usable(e) <==> e.status@ == "success"@ && e.ip is Some,
        states(e, now, g) <==> (g.country@, g.country_code@, g.region@, g.city@) == (
            e.country@,
            e.country_code@,
            e.region@,
            e.city@,
        ) && (g.isp@, g.org@, g.as_field@) == (e.isp@, e.org@, e.as_field@) && g.looked_up_at == now,
{
}

/// Reads the service's answer: every usable entry, in order.
pub fn read_answer(entries: &Vec<GeoEntry>, now: i64) -> (r: Vec<(IpAddr, GeoInfo)>)
    ensures
        r@.len() == entries@.filter(|e: GeoEntry| usable(e)).len(),
        forall|i: int|
            #![trigger r@[i]]
            0 <= i < r@.len() ==> {
                let e = entries@.filter(|e: GeoEntry| usable(e))[i];
                e.ip == Some(r@[i].0) && states(e, now, r@[i].1)
            },
{
    let ghost good = |e: GeoEntry| usable(e);
    let mut out: Vec<(IpAddr, GeoInfo)> = Vec::new();
    let mut i: usize = 0;
    assert(entries@.take(0).filter(good).len() == 0) by {
        reveal(Seq::filter);
    }
    while i < entries.len()
        invariant
            i <= entries@.len(),
            good == (|e: GeoEntry| usable(e)),
            out@.len() == entries@.take(i as int).filter(good).len(),
            forall|k: int|
                #![trigger out@[k]]
                0 <= k < out@.len() ==> entries@.take(i as int).filter(good)[k].ip == Some(
                    out@[k].0,
                ) && states(entries@.take(i as int).filter(good)[k], now, out@[k].1),
        decreases entries@.len() - i,
    {
        let e = &entries[i];
        assert(entries@.take(i + 1).drop_last() =~= entries@.take(i as int));
        assert(entries@.take(i + 1).last() == entries@[i as int]);
        reveal(Seq::filter);
        if text::same_text(e.status.as_str(), "success") {
            if let Some(ip) = e.ip {
                out.push(
                    (
                        ip,
                        GeoInfo {
                            country: e.country.clone(),
                            country_code: e.country_code.clone(),
                            region: e.region.clone(),
                            city: e.city.clone(),
                            isp: e.isp.clone(),
                            org: e.org.clone(),
                            as_field: e.as_field.clone(),
                            looked_up_at: now,
                        },
                    ),
                );
            }
        }
        i = i + 1;
    }
    assert(entries@.take(entries@.len() as int) =~= entries@);
    out
}

// ---------------------------------------------------------------------------
// Reports
// ---------------------------------------------------------------------------

/// An entry of the cache of places.
#[derive(Debug)]
pub struct Cached {
    /// The address of the entry, where its key reads as one.
    pub ip: Option<IpAddr>,
    /// What is known of the address.
    pub geo: GeoInfo,
}

/// The entries whose key is an address.
pub open spec fn known(cache: Seq<Cached>) -> Seq<Cached> {
    cache.filter(|c: Cached| c.ip is Some)
}

/// Finds the entries whose key is an address.
fn find_known(cache: &Vec<Cached>) -> (at: Vec<usize>)
    ensures
        at@.len() == known(cache@).len(),
        forall|k: int|
            #![trigger at@[k]]
            0 <= k < at@.len() ==> at@[k] < cache@.len() && cache@[at@[k] as int] == known(
                cache@,
            )[k] && cache@[at@[k] as int].ip is Some,
{
    let ghost addressed = |c: Cached| c.ip is Some;
    let mut at: Vec<usize> = Vec::new();
    let mut i: usize = 0;
    assert(cache@.take(0).filter(addressed).len() == 0) by {
        reveal(Seq::filter);
    }
    while i < cache.len()
        invariant
            i <= cache@.len(),
            addressed == (|c: Cached| c.ip is Some),
            at@.len() == cache@.take(i as int).filter(addressed).len(),
            forall|k: int|
                #![trigger at@[k]]
                0 <= k < at@.len() ==> at@[k] < i && cache@[at@[k] as int] == cache@.take(
                    i as int,
                ).filter(addressed)[k] && cache@[at@[k] as int].ip is Some,
        decreases cache@.len() - i,
    {
        assert(cache@.take(i + 1).drop_last() =~= cache@.take(i as int));
        assert(cache@.take(i + 1).last() == cache@[i as int]);
        reveal(Seq::filter);
        if cache[i].ip.is_some() {
            at.push(i);
        }
        i = i + 1;
    }
    assert(cache@.take(cache@.len() as int) =~= cache@);
    at
}

/// The places of entries.
pub open spec fn places(cache: Seq<Cached>) -> Seq<(Seq<char>, Seq<char>, Seq<char>)> {
    cache.map_values(|c: Cached| (c.geo.country_code@, c.geo.region@, c.geo.city@))
}

/// The organisation of an entry; the service provider where there is none.
pub open spec fn org_of(c: Cached) -> Seq<char> {
    if c.geo.org@.len() > 0 {
        c.geo.org@
    } else {
        c.geo.isp@
    }
}

/// The organisations of entries.
pub open spec fn orgs(cache: Seq<Cached>) -> Seq<Seq<char>> {
    cache.map_values(|c: Cached| org_of(c))
}

/// A place and the addresses there.
pub struct CityRow {
    /// The place.
    pub place: Place,
    /// How many addresses are there.
    pub ips: usize,
    /// The first of them.
    pub sample: IpAddr,
}

/// The mathematical value of a `CityRow`.
pub type CityTuple = ((Seq<char>, Seq<char>, Seq<char>), int, IpAddr);

/// The mathematical values of rows.
pub open spec fn city_views(rows: Seq<CityRow>) -> Seq<CityTuple> {
    rows.map_values(|r: CityRow| (r.place@, r.ips as int, r.sample))
}

/// One row for each place, in the order in which they first appear.
pub open spec fn city_rows(cache: Seq<Cached>) -> Seq<CityTuple> {
    groups::distinct(places(known(cache))).map_values(
        |p: (Seq<char>, Seq<char>, Seq<char>)|
            {
                let at = groups::members(places(known(cache)), p);
                (p, at.len() as int, known(cache)[at[0]].ip->0)
            },
    )
}

/// The entries whose key is an address and of which `k` holds under `key`.
pub open spec fn addressed_with<K>(
    cache: Seq<Cached>,
    key: spec_fn(Cached) -> K,
    k: K,
) -> Seq<Cached> {
    cache.filter(|c: Cached| c.ip is Some && key(c) == k)
}

/// The entries of addresses at a place.
pub open spec fn at_place(
    cache: Seq<Cached>,
    place: (Seq<char>, Seq<char>, Seq<char>),
) -> Seq<Cached> {
    addressed_with(cache, |c: Cached| (c.geo.country_code@, c.geo.region@, c.geo.city@), place)
}

/// The entries of addresses of an organisation. An address without one counts
/// for its service provider.
pub open spec fn of_org(cache: Seq<Cached>, org: Seq<char>) -> Seq<Cached> {
    addressed_with(
        cache,
        |c: Cached|
            if c.geo.org@.len() == 0 {
                c.geo.isp@
            } else {
                c.geo.org@
            },
        org,
    )
}

proof fn lemma_addressed<K>(cache: Seq<Cached>, key: spec_fn(Cached) -> K, k: K)
    ensures
        ({
            let good = known(cache);
            let at = groups::members(good.map_values(key), k);
            let with = addressed_with(cache, key, k);
            &&& at.len() == with.len()
            &&& forall|i: int| 0 <= i < at.len() ==> with[i] == good[#[trigger] at[i]]
        }),
    decreases cache.len(),
{
    reveal(Seq::filter);
    let good = known(cache);
    let keys = good.map_values(key);
    let at = groups::members(keys, k);
    let with = addressed_with(cache, key, k);
    if cache.len() > 0 {
        let t = cache.drop_last();
        let earlier = known(t);
        let before = groups::members(earlier.map_values(key), k);
        lemma_addressed(t, key, k);
        if cache.last().ip is Some {
            assert(good.drop_last() =~= earlier);
            assert(good.last() == cache.last());
            assert(keys.drop_last() =~= earlier.map_values(key));
            assert(keys.last() == key(cache.last()));
            groups::lemma_members(earlier.map_values(key), k);
            assert forall|i: int| 0 <= i < at.len() implies with[i] == good[#[trigger] at[i]] by {
                if i < before.len() {
                    assert(at[i] == before[i]);
                    assert(good[before[i]] == earlier[before[i]]);
                }
            }
        }
    } else {
        assert(good.len() == 0);
    }
}

/// An entry whose key is an address is among the known ones.
proof fn lemma_known(cache: Seq<Cached>, i: int)
    requires
        0 <= i < cache.len(),
        cache[i].ip is Some,
    ensures
        known(cache).contains(cache[i]),
    decreases cache.len(),
{
    reveal(Seq::filter);
    let good = known(cache);
    let earlier = known(cache.drop_last());
    if i == cache.len() - 1 {
        assert(good.last() == cache[i]);
    } else {
        lemma_known(cache.drop_last(), i);
        assert(cache.drop_last()[i] == cache[i]);
        let k = choose|k: int| 0 <= k < earlier.len() && earlier[k] == cache[i];
        assert(good[k] == cache[i]);
    }
}

/// The `n` places with the most addresses, most first.
pub open spec fn city_top(cache: Seq<Cached>, n: nat) -> Seq<CityTuple> {
    rank::top(city_rows(cache), city_rows(cache).map_values(|t: CityTuple| t.1), n)
}

/// There is exactly one row for each place of a known address. It states how
/// many addresses are there, and the first of them.
pub proof fn law_rows_describe_places(cache: Seq<Cached>)
    ensures
        forall|k: int|
            0 <= k < city_rows(cache).len() ==> {
                let t = #[trigger] city_rows(cache)[k];
                &&& t.1 == at_place(cache, t.0).len() > 0
                &&& at_place(cache, t.0)[0].ip == Some(t.2)
            },
        forall|i: int|
            0 <= i < cache.len() && (#[trigger] cache[i]).ip is Some ==> exists|k: int|
                0 <= k < city_rows(cache).len() && (#[trigger] city_rows(cache)[k]).0 == (
                cache[i].geo.country_code@,
                cache[i].geo.region@,
                cache[i].geo.city@,
                ),
        forall|i: int, j: int|
            0 <= i < j < city_rows(cache).len() ==> (#[trigger] city_rows(cache)[i]).0 != (
            #[trigger] city_rows(cache)[j]).0,
{
    let place = |c: Cached| (c.geo.country_code@, c.geo.region@, c.geo.city@);
    let good = known(cache);
    let keys = places(good);
    let d = groups::distinct(keys);
    let all = city_rows(cache);
    assert(keys =~= good.map_values(place));
    groups::lemma_distinct(keys);
    assert forall|k: int| 0 <= k < all.len() implies ({
        let t = #[trigger] all[k];
        &&& t.1 == at_place(cache, t.0).len() > 0
        &&& at_place(cache, t.0)[0].ip == Some(t.2)
    }) by {
        let at = groups::members(keys, d[k]);
        assert(d.contains(d[k]));
        groups::lemma_members(keys, d[k]);
        lemma_addressed(cache, place, d[k]);
        assert(at_place(cache, d[k]) == addressed_with(cache, place, d[k]));
        lemma_known_have_ips(cache);
        assert(at_place(cache, d[k])[0] == good[at[0]]);
    }
    assert forall|i: int| 0 <= i < cache.len() && (#[trigger] cache[i]).ip is Some implies exists|k: int|
        0 <= k < all.len() && (#[trigger] all[k]).0 == (
        cache[i].geo.country_code@,
        cache[i].geo.region@,
        cache[i].geo.city@,
        ) by {
        lemma_known(cache, i);
        let g = choose|g: int| 0 <= g < good.len() && good[g] == cache[i];
        assert(keys[g] == place(cache[i]));
        assert(keys.contains(keys[g]));
        assert(d.contains(keys[g]));
        let k = choose|k: int| 0 <= k < d.len() && d[k] == keys[g];
        assert(all[k].0 == keys[g]);
    }
    assert forall|i: int, j: int| 0 <= i < j < all.len() implies (#[trigger] all[i]).0 != (
    #[trigger] all[j]).0 by {
        assert(d[i] != d[j]);
    }
}

proof fn lemma_known_have_ips(cache: Seq<Cached>)
    ensures
        forall|i: int| 0 <= i < known(cache).len() ==> (#[trigger] known(cache)[i]).ip is Some,
    decreases cache.len(),
{
    reveal(Seq::filter);
    if cache.len() > 0 {
        let good = known(cache);
        let earlier = known(cache.drop_last());
        lemma_known_have_ips(cache.drop_last());
        assert forall|i: int| 0 <= i < good.len() implies (#[trigger] good[i]).ip is Some by {
            if i < earlier.len() {
                assert(good[i] == earlier[i]);
            }
        }
    }
}

/// The places with the most addresses lead: rows come by falling number of
/// addresses, no place twice; and a place that is not shown has no more
/// addresses than any that is, and is left out only where `n` are shown.
pub proof fn law_largest_places_lead(cache: Seq<Cached>, n: nat)
    ensures
        ({
            let shown = city_top(cache, n);
            let all = city_rows(cache);
            &&& shown.len() <= n
            &&& forall|i: int, j: int|
                0 <= i < j < shown.len() ==> (#[trigger] shown[i]).1 >= (#[trigger] shown[j]).1
                    && shown[i].0 != shown[j].0
            &&& forall|i: int|
                0 <= i < shown.len() ==> {
                    let t = #[trigger] shown[i];
                    &&& t.1 == at_place(cache, t.0).len() > 0
                    &&& at_place(cache, t.0)[0].ip == Some(t.2)
                }
            &&& forall|k: int|
                0 <= k < all.len() ==> shown.contains(#[trigger] all[k]) || (shown.len() == n
                    && forall|i: int| 0 <= i < shown.len() ==> (#[trigger] shown[i]).1 >= all[k].1)
        }),
{
    let all = city_rows(cache);
    let measure = |t: CityTuple| t.1;
    let key = |t: CityTuple| t.0;
    let shown = city_top(cache, n);
    law_rows_describe_places(cache);
    assert forall|i: int, j: int| 0 <= i < j < all.len() implies key(#[trigger] all[i]) != key(
        #[trigger] all[j],
    ) by {
        assert(all[i].0 != all[j].0);
    }
    assert(shown == rank::top(all, all.map_values(measure), n));
    rank::law_top_shows_the_largest(all, measure, n);
    rank::lemma_top_keeps_keys_apart(all, measure, key, n);
    assert forall|i: int, j: int| 0 <= i < j < shown.len() implies (#[trigger] shown[i]).1 >= (
    #[trigger] shown[j]).1 && shown[i].0 != shown[j].0 by {
        assert(measure(shown[i]) >= measure(shown[j]));
        assert(key(shown[i]) != key(shown[j]));
    }
    assert forall|i: int| 0 <= i < shown.len() implies ({
        let t = #[trigger] shown[i];
        &&& t.1 == at_place(cache, t.0).len() > 0
        &&& at_place(cache, t.0)[0].ip == Some(t.2)
    }) by {
        assert(all.contains(shown[i]));
        let k = choose|k: int| 0 <= k < all.len() && all[k] == shown[i];
        assert(all[k].1 > 0);
    }
    assert forall|k: int| 0 <= k < all.len() implies shown.contains(#[trigger] all[k]) || (shown.len()
        == n && forall|i: int| 0 <= i < shown.len() ==> (#[trigger] shown[i]).1 >= all[k].1) by {
        if !shown.contains(all[k]) {
            assert forall|i: int| 0 <= i < shown.len() implies (#[trigger] shown[i]).1 >= all[k].1 by {
                assert(measure(shown[i]) >= measure(all[k]));
            }
        }
    }
}

/// The sizes of groups as measures.
fn sizes(parts: &Vec<Vec<usize>>) -> (r: Vec<i128>)
    ensures
        r@.len() == parts@.len(),
        forall|g: int| 0 <= g < r@.len() ==> #[trigger] r@[g] == parts@[g]@.len(),
{
    let mut out: Vec<i128> = Vec::new();
    let mut g: usize = 0;
    while g < parts.len()
        invariant
            g <= parts@.len(),
            out@.len() == g,
            forall|h: int| 0 <= h < g ==> #[trigger] out@[h] == parts@[h]@.len(),
        decreases parts@.len() - g,
    {
        out.push(parts[g].len() as i128);
        g = g + 1;
    }
    out
}

/// The `n` places with the most addresses, most first.
pub fn city_table(cache: &Vec<Cached>, n: usize) -> (r: Vec<CityRow>)
    ensures
        city_views(r@) == city_top(cache@, n as nat),
        r@.len() <= n,
        forall|i: int, j: int| 0 <= i < j < r@.len() ==> (#[trigger] r@[i]).ips >= (#[trigger] r@[j]).ips,
        forall|i: int|
            0 <= i < r@.len() ==> (#[trigger] r@[i]).ips == at_place(cache@, r@[i].place@).len()
                && Some(r@[i].sample) == at_place(cache@, r@[i].place@)[0].ip,
{
    let ghost good = known(cache@);
    let ghost all = places(good);
    let ghost d = groups::distinct(all);
    let ghost full = city_rows(cache@);
    let at = find_known(cache);
    let mut keys: Vec<Place> = Vec::new();
    let mut i: usize = 0;
    while i < at.len()
        invariant
            i <= at@.len() == good.len(),
            all == places(good),
            forall|k: int|
                #![trigger at@[k]]
                0 <= k < at@.len() ==> at@[k] < cache@.len() && cache@[at@[k] as int] == good[k],
            keys@.len() == i,
            forall|k: int| 0 <= k < i ==> (#[trigger] keys@[k])@ == all[k],
        decreases at@.len() - i,
    {
        let g = &cache[at[i]].geo;
        keys.push(
            Place {
                country_code: g.country_code.clone(),
                region: g.region.clone(),
                city: g.city.clone(),
            },
        );
        i = i + 1;
    }
    assert(groups::views(keys@) =~= all);
    let parts = groups::group(&keys);
    proof {
        groups::lemma_grouping(all, parts@);
    }
    let measures = sizes(&parts);
    assert(rank::values(measures@) =~= full.map_values(|t: CityTuple| t.1)) by {
        assert forall|g: int| 0 <= g < parts@.len() implies measures@[g] == full[g].1 by {
            assert(rank::positions(parts@[g]@) == groups::members(all, d[g]));
        }
    }
    let order = rank::rank_top(&measures, n);
    let mut out: Vec<CityRow> = Vec::new();
    let mut i: usize = 0;
    while i < order.len()
        invariant
            i <= order@.len(),
            out@.len() == i,
            good == known(cache@),
            all == places(good),
            d == groups::distinct(all),
            full == city_rows(cache@),
            at@.len() == good.len() == keys@.len(),
            forall|k: int|
                #![trigger at@[k]]
                0 <= k < at@.len() ==> at@[k] < cache@.len() && cache@[at@[k] as int] == good[k]
                    && cache@[at@[k] as int].ip is Some,
            groups::is_grouping(all, parts@),
            measures@.len() == parts@.len(),
            forall|p: int| 0 <= p < parts@.len() ==> (#[trigger] parts@[p])@.len() > 0,
            forall|p: int, j: int|
                0 <= p < parts@.len() && 0 <= j < parts@[p]@.len() ==> (
                #[trigger] parts@[p]@[j]) < all.len() && all[parts@[p]@[j] as int] == d[p],
            forall|k: int| 0 <= k < order@.len() ==> #[trigger] order@[k] < measures@.len(),
            forall|k: int| 0 <= k < i ==> #[trigger] city_views(out@)[k] == full[order@[k] as int],
        decreases order@.len() - i,
    {
        let p: usize = order[i];
        assert(parts@[p as int]@.len() > 0);
        assert(parts@[p as int]@[0] < all.len());
        assert(rank::positions(parts@[p as int]@) == groups::members(all, d[p as int]));
        let first: usize = parts[p][0];
        let entry = &cache[at[first]];
        let ghost before = out@;
        if let Some(sample) = entry.ip {
            out.push(
                CityRow {
                    place: Place {
                        country_code: entry.geo.country_code.clone(),
                        region: entry.geo.region.clone(),
                        city: entry.geo.city.clone(),
                    },
                    ips: parts[p].len(),
                    sample,
                },
            );
        }
        assert(city_views(out@) =~= city_views(before).push(full[p as int])) by {
            assert(groups::members(all, d[p as int])[0] == first);
            assert(places(good)[first as int] == d[p as int]);
        }
        i = i + 1;
    }
    assert(rank::positions(order@).map_values(|i: int| full[i]) =~= city_views(out@)) by {
        assert forall|k: int| 0 <= k < out@.len() implies #[trigger] city_views(out@)[k]
            == full[rank::positions(order@)[k]] by {
            assert(rank::positions(order@)[k] == order@[k]);
        }
    }
    proof {
        law_largest_places_lead(cache@, n as nat);
        let shown = city_top(cache@, n as nat);
        assert(city_views(out@) == shown);
        assert forall|i: int| 0 <= i < out@.len() implies #[trigger] shown[i] == (
            out@[i].place@,
            out@[i].ips as int,
            out@[i].sample,
        ) by {}
        assert forall|i: int, j: int| 0 <= i < j < out@.len() implies (#[trigger] out@[i]).ips >= (
        #[trigger] out@[j]).ips by {
            assert(shown[i].1 >= shown[j].1);
        }
        assert forall|i: int| 0 <= i < out@.len() implies (#[trigger] out@[i]).ips == at_place(
            cache@,
            out@[i].place@,
        ).len() && Some(out@[i].sample) == at_place(cache@, out@[i].place@)[0].ip by {
            assert(shown[i].1 > 0);
        }
    }
    out
}

/// An organisation and how many addresses it has.
#[derive(Debug)]
pub struct OrgRow {
    /// The organisation.
    pub org: String,
    /// How many addresses it has.
    pub ips: usize,
}

/// The mathematical values of rows.
pub open spec fn org_views(rows: Seq<OrgRow>) -> Seq<(Seq<char>, int)> {
    rows.map_values(|r: OrgRow| (r.org@, r.ips as int))
}

/// One row for each organisation, in the order in which they first appear.
pub open spec fn org_rows(cache: Seq<Cached>) -> Seq<(Seq<char>, int)> {
    groups::distinct(orgs(known(cache))).map_values(
        |o: Seq<char>| (o, groups::members(orgs(known(cache)), o).len() as int),
    )
}

/// The `n` organisations with the most addresses, most first.
pub open spec fn org_top(cache: Seq<Cached>, n: nat) -> Seq<(Seq<char>, int)> {
    rank::top(org_rows(cache), org_rows(cache).map_values(|t: (Seq<char>, int)| t.1), n)
}

/// There is exactly one row for each organisation of a known address, and it
/// states how many addresses the organisation has.
pub proof fn law_rows_describe_organisations(cache: Seq<Cached>)
    ensures
        forall|k: int|
            0 <= k < org_rows(cache).len() ==> (#[trigger] org_rows(cache)[k]).1 == of_org(
                cache,
                org_rows(cache)[k].0,
            ).len() > 0,
        forall|i: int|
            0 <= i < cache.len() && (#[trigger] cache[i]).ip is Some ==> exists|k: int|
                0 <= k < org_rows(cache).len() && (#[trigger] org_rows(cache)[k]).0 == if cache[i].geo.org@.len()
                    == 0 {
                    cache[i].geo.isp@
                } else {
                    cache[i].geo.org@
                },
        forall|i: int, j: int|
            0 <= i < j < org_rows(cache).len() ==> (#[trigger] org_rows(cache)[i]).0 != (
            #[trigger] org_rows(cache)[j]).0,
{
    let org = |c: Cached|
        if c.geo.org@.len() == 0 {
            c.geo.isp@
        } else {
            c.geo.org@
        };
    let good = known(cache);
    let keys = orgs(good);
    let d = groups::distinct(keys);
    let all = org_rows(cache);
    assert(keys =~= good.map_values(org));
    groups::lemma_distinct(keys);
    assert forall|k: int| 0 <= k < all.len() implies (#[trigger] all[k]).1 == of_org(
        cache,
        all[k].0,
    ).len() > 0 by {
        assert(d.contains(d[k]));
        groups::lemma_members(keys, d[k]);
        lemma_addressed(cache, org, d[k]);
        assert(of_org(cache, d[k]) == addressed_with(cache, org, d[k]));
    }
    assert forall|i: int| 0 <= i < cache.len() && (#[trigger] cache[i]).ip is Some implies exists|k: int|
        0 <= k < all.len() && (#[trigger] all[k]).0 == if cache[i].geo.org@.len() == 0 {
            cache[i].geo.isp@
        } else {
            cache[i].geo.org@
        } by {
        lemma_known(cache, i);
        let g = choose|g: int| 0 <= g < good.len() && good[g] == cache[i];
        assert(keys[g] == org(cache[i]));
        assert(keys.contains(keys[g]));
        assert(d.contains(keys[g]));
        let k = choose|k: int| 0 <= k < d.len() && d[k] == keys[g];
        assert(all[k].0 == keys[g]);
    }
    assert forall|i: int, j: int| 0 <= i < j < all.len() implies (#[trigger] all[i]).0 != (
    #[trigger] all[j]).0 by {
        assert(d[i] != d[j]);
    }
}

/// The organisations with the most addresses lead: rows come by falling number
/// of addresses, no organisation twice; and one that is not shown has no more
/// addresses than any that is, and is left out only where `n` are shown.
pub proof fn law_largest_organisations_lead(cache: Seq<Cached>, n: nat)
    ensures
        ({
            let shown = org_top(cache, n);
            let all = org_rows(cache);
            &&& shown.len() <= n
            &&& forall|i: int, j: int|
                0 <= i < j < shown.len() ==> (#[trigger] shown[i]).1 >= (#[trigger] shown[j]).1
                    && shown[i].0 != shown[j].0
            &&& forall|i: int|
                0 <= i < shown.len() ==> (#[trigger] shown[i]).1 == of_org(cache, shown[i].0).len() > 0
            &&& forall|k: int|
                0 <= k < all.len() ==> shown.contains(#[trigger] all[k]) || (shown.len() == n
                    && forall|i: int| 0 <= i < shown.len() ==> (#[trigger] shown[i]).1 >= all[k].1)
        }),
{
    let all = org_rows(cache);
    let measure = |t: (Seq<char>, int)| t.1;
    let key = |t: (Seq<char>, int)| t.0;
    let shown = org_top(cache, n);
    law_rows_describe_organisations(cache);
    assert forall|i: int, j: int| 0 <= i < j < all.len() implies key(#[trigger] all[i]) != key(
        #[trigger] all[j],
    ) by {
        assert(all[i].0 != all[j].0);
    }
    assert(shown == rank::top(all, all.map_values(measure), n));
    rank::law_top_shows_the_largest(all, measure, n);
    rank::lemma_top_keeps_keys_apart(all, measure, key, n);
    assert forall|i: int, j: int| 0 <= i < j < shown.len() implies (#[trigger] shown[i]).1 >= (
    #[trigger] shown[j]).1 && shown[i].0 != shown[j].0 by {
        assert(measure(shown[i]) >= measure(shown[j]));
        assert(key(shown[i]) != key(shown[j]));
    }
    assert forall|i: int| 0 <= i < shown.len() implies (#[trigger] shown[i]).1 == of_org(
        cache,
        shown[i].0,
    ).len() > 0 by {
        assert(all.contains(shown[i]));
        let k = choose|k: int| 0 <= k < all.len() && all[k] == shown[i];
        assert(all[k].1 > 0);
    }
    assert forall|k: int| 0 <= k < all.len() implies shown.contains(#[trigger] all[k]) || (shown.len()
        == n && forall|i: int| 0 <= i < shown.len() ==> (#[trigger] shown[i]).1 >= all[k].1) by {
        if !shown.contains(all[k]) {
            assert forall|i: int| 0 <= i < shown.len() implies (#[trigger] shown[i]).1 >= all[k].1 by {
                assert(measure(shown[i]) >= measure(all[k]));
            }
        }
    }
}

/// The organisation of an entry; the service provider where there is none.
fn org_name(c: &Cached) -> (r: String)
    ensures
        r@ == org_of(*c),
{
    if c.geo.org.as_str().unicode_len() > 0 {
        c.geo.org.clone()
    } else {
        c.geo.isp.clone()
    }
}

/// The `n` organisations with the most addresses, most first.
pub fn org_table(cache: &Vec<Cached>, n: usize) -> (r: Vec<OrgRow>)
    ensures
        org_views(r@) == org_top(cache@, n as nat),
        r@.len() <= n,
        forall|i: int, j: int| 0 <= i < j < r@.len() ==> (#[trigger] r@[i]).ips >= (#[trigger] r@[j]).ips,
        forall|i: int|
            0 <= i < r@.len() ==> (#[trigger] r@[i]).ips == of_org(cache@, r@[i].org@).len(),
{
    let ghost good = known(cache@);
    let ghost all = orgs(good);
    let ghost d = groups::distinct(all);
    let ghost full = org_rows(cache@);
    let at = find_known(cache);
    let mut keys: Vec<String> = Vec::new();
    let mut i: usize = 0;
    while i < at.len()
        invariant
            i <= at@.len() == good.len(),
            all == orgs(good),
            forall|k: int|
                #![trigger at@[k]]
                0 <= k < at@.len() ==> at@[k] < cache@.len() && cache@[at@[k] as int] == good[k],
            keys@.len() == i,
            forall|k: int| 0 <= k < i ==> (#[trigger] keys@[k])@ == all[k],
        decreases at@.len() - i,
    {
        keys.push(org_name(&cache[at[i]]));
        i = i + 1;
    }
    assert(groups::views(keys@) =~= all);
    let parts = groups::group(&keys);
    proof {
        groups::lemma_grouping(all, parts@);
    }
    let measures = sizes(&parts);
    assert(rank::values(measures@) =~= full.map_values(|t: (Seq<char>, int)| t.1)) by {
        assert forall|g: int| 0 <= g < parts@.len() implies measures@[g] == full[g].1 by {
            assert(rank::positions(parts@[g]@) == groups::members(all, d[g]));
        }
    }
    let order = rank::rank_top(&measures, n);
    let mut out: Vec<OrgRow> = Vec::new();
    let mut i: usize = 0;
    while i < order.len()
        invariant
            i <= order@.len(),
            out@.len() == i,
            all == orgs(good),
            good == known(cache@),
            d == groups::distinct(all),
            full == org_rows(cache@),
            keys@.len() == all.len(),
            forall|k: int| 0 <= k < keys@.len() ==> (#[trigger] keys@[k])@ == all[k],
            groups::is_grouping(all, parts@),
            measures@.len() == parts@.len(),
            forall|p: int| 0 <= p < parts@.len() ==> (#[trigger] parts@[p])@.len() > 0,
            forall|p: int, j: int|
                0 <= p < parts@.len() && 0 <= j < parts@[p]@.len() ==> (
                #[trigger] parts@[p]@[j]) < all.len() && all[parts@[p]@[j] as int] == d[p],
            forall|k: int| 0 <= k < order@.len() ==> #[trigger] order@[k] < measures@.len(),
            forall|k: int| 0 <= k < i ==> #[trigger] org_views(out@)[k] == full[order@[k] as int],
        decreases order@.len() - i,
    {
        let p: usize = order[i];
        assert(parts@[p as int]@.len() > 0);
        assert(parts@[p as int]@[0] < all.len());
        assert(rank::positions(parts@[p as int]@) == groups::members(all, d[p as int]));
        let first: usize = parts[p][0];
        let ghost before = out@;
        out.push(OrgRow { org: keys[first].clone(), ips: parts[p].len() });
        assert(org_views(out@) =~= org_views(before).push(full[p as int]));
        i = i + 1;
    }
    assert(rank::positions(order@).map_values(|i: int| full[i]) =~= org_views(out@)) by {
        assert forall|k: int| 0 <= k < out@.len() implies #[trigger] org_views(out@)[k]
            == full[rank::positions(order@)[k]] by {
            assert(rank::positions(order@)[k] == order@[k]);
        }
    }
    proof {
        law_largest_organisations_lead(cache@, n as nat);
        let shown = org_top(cache@, n as nat);
        assert(org_views(out@) == shown);
        assert forall|i: int| 0 <= i < out@.len() implies #[trigger] shown[i] == (
            out@[i].org@,
            out@[i].ips as int,
        ) by {}
        assert forall|i: int, j: int| 0 <= i < j < out@.len() implies (#[trigger] out@[i]).ips >= (
        #[trigger] out@[j]).ips by {
            assert(shown[i].1 >= shown[j].1);
        }
        assert forall|i: int| 0 <= i < out@.len() implies (#[trigger] out@[i]).ips == of_org(
            cache@,
            out@[i].org@,
        ).len() by {
            assert(shown[i].1 > 0);
        }
    }
    out
}

// ---------------------------------------------------------------------------
// Text
// ---------------------------------------------------------------------------

/// The heading of the report by city.
pub open spec fn city_heading() -> Seq<char> {
    text::pad_left("ips"@, 5, ' ') + "  "@ + text::pad_right("cc"@, 3) + "  "@ + text::pad_right(
        "region"@,
        20,
    ) + "  "@ + text::pad_right("city"@, 25) + "  sample_ip"@
}

/// Renders the heading of the report by city.
pub fn render_city_heading() -> (r: String)
    ensures
        r@ == city_heading(),
{
    let mut out = String::new();
    text::push_padded_left(&mut out, "ips", 5, ' ');
    assert(out@ =~= text::pad_left("ips"@, 5, ' '));
    out.append("  ");
    text::push_padded_right(&mut out, "cc", 3);
    out.append("  ");
    text::push_padded_right(&mut out, "region", 20);
    out.append("  ");
    text::push_padded_right(&mut out, "city", 25);
    out.append("  sample_ip");
    out
}

/// A line of the report by city: region and city are cut to the width of their
/// columns.
pub open spec fn city_line(row: CityRow, sample: Seq<char>) -> Seq<char> {
    text::pad_left(text::dec(row.ips as nat), 5, ' ') + "  "@ + text::pad_right(
        row.place.country_code@,
        3,
    ) + "  "@ + text::pad_right(probe::at_most(row.place.region@, 20), 20) + "  "@
        + text::pad_right(probe::at_most(row.place.city@, 25), 25) + "  "@ + sample
}

/// A line of the report by city shows how many addresses there are, the code of
/// the country, no more than twenty characters of the region and twenty-five of
/// the city, each in its column, and the sample.
pub proof fn law_city_line_shows_the_place(row: CityRow, sample: Seq<char>)
    requires
        text::dec(row.ips as nat).len() <= 5,
        row.place.country_code@.len() <= 3,
    ensures
        ({
            let line = city_line(row, sample);
            let region = row.place.region@;
            let city = row.place.city@;
            &&& text::shows_right(line, 0, 5, text::dec(row.ips as nat))
            &&& text::shows_left(line, 7, 3, row.place.country_code@)
            &&& region.len() <= 20 ==> text::shows_left(line, 12, 20, region)
            &&& region.len() > 20 ==> line.subrange(12, 32) == region.take(20)
            &&& city.len() <= 25 ==> text::shows_left(line, 34, 25, city)
            &&& city.len() > 25 ==> line.subrange(34, 59) == city.take(25)
            &&& line.skip(59) == "  "@ + sample
        }),
{
    reveal_strlit("  ");
    let line = city_line(row, sample);
    let ips = text::dec(row.ips as nat);
    let cc = row.place.country_code@;
    let region = probe::at_most(row.place.region@, 20);
    let city = probe::at_most(row.place.city@, 25);
    text::law_padding_fills_the_column(ips, 5, ' ');
    text::law_padding_fills_the_column(cc, 3, ' ');
    text::law_padding_fills_the_column(region, 20, ' ');
    text::law_padding_fills_the_column(city, 25, ' ');
    let a = Seq::<char>::empty();
    let b = text::pad_left(ips, 5, ' ') + "  "@;
    let c = b + text::pad_right(cc, 3) + "  "@;
    let d = c + text::pad_right(region, 20) + "  "@;
    let end = "  "@ + sample;
    assert(line =~= d + text::pad_right(city, 25) + end);
    text::lemma_shows_left(d, city, 25, end);
    let t = "  "@ + text::pad_right(city, 25) + end;
    assert(line =~= c + text::pad_right(region, 20) + t);
    text::lemma_shows_left(c, region, 20, t);
    let u = "  "@ + text::pad_right(region, 20) + t;
    assert(line =~= b + text::pad_right(cc, 3) + u);
    text::lemma_shows_left(b, cc, 3, u);
    let v = "  "@ + text::pad_right(cc, 3) + u;
    assert(line =~= a + text::pad_left(ips, 5, ' ') + v);
    text::lemma_shows_right(a, ips, 5, v);
    assert(line.skip(59) =~= end);
}

/// Renders a row of the report by city, given the text of the sample address.
pub fn render_city(row: &CityRow, sample: &str) -> (r: String)
    ensures
        r@ == city_line(*row, sample@),
{
    let mut out = String::new();
    text::push_dec_right(&mut out, row.ips as u64, 5);
    assert(out@ =~= text::pad_left(text::dec(row.ips as nat), 5, ' '));
    out.append("  ");
    text::push_padded_right(&mut out, row.place.country_code.as_str(), 3);
    out.append("  ");
    let region = probe::first_chars(row.place.region.as_str(), 20);
    text::push_padded_right(&mut out, region.as_str(), 20);
    out.append("  ");
    let city = probe::first_chars(row.place.city.as_str(), 25);
    text::push_padded_right(&mut out, city.as_str(), 25);
    out.append("  ");
    out.append(sample);
    out
}

/// Renders the heading of the report by organisation.
pub fn render_org_heading() -> (r: String)
    ensures
        r@ == text::pad_left("ips"@, 5, ' ') + "  org"@,
{
    let mut out = String::new();
    text::push_padded_left(&mut out, "ips", 5, ' ');
    assert(out@ =~= text::pad_left("ips"@, 5, ' '));
    out.append("  org");
    out
}

/// Renders a row of the report by organisation.
pub fn render_org(row: &OrgRow) -> (r: String)
    ensures
        r@ == text::pad_left(text::dec(row.ips as nat), 5, ' ') + "  "@ + row.org@,
{
    let mut out = String::new();
    text::push_dec_right(&mut out, row.ips as u64, 5);
    assert(out@ =~= text::pad_left(text::dec(row.ips as nat), 5, ' '));
    out.append("  ");
    out.append(row.org.as_str());
    out
}

/// Renders what a run of look-ups starts from.
pub fn render_plan(needed: usize, cached: usize) -> (r: String)
    ensures
        r@ == "resolving "@ + text::dec(needed as nat) + " IPs via ip-api.com batch (cache has "@
            + text::dec(cached as nat) + " already)"@,
{
    let mut out = "resolving ".to_owned();
    text::push_dec(&mut out, needed as u64);
    out.append(" IPs via ip-api.com batch (cache has ");
    text::push_dec(&mut out, cached as u64);
    out.append(" already)");
    out
}

/// Renders what a run of look-ups came to.
pub fn render_resolved(resolved: usize, cached: usize) -> (r: String)
    ensures
        r@ == "resolved="@ + text::dec(resolved as nat) + "  total_geo_cache="@ + text::dec(
            cached as nat,
        ),
{
    let mut out = "resolved=".to_owned();
    text::push_dec(&mut out, resolved as u64);
    out.append("  total_geo_cache=");
    text::push_dec(&mut out, cached as u64);
    out
}

} // verus!
