//! Instants of events: bounds, order and durations.

use vstd::prelude::*;
use crate::rank;
use crate::text;

verus! {

/// The smallest of the values at some positions.
pub open spec fn earliest(ts: Seq<int>, at: Seq<int>) -> int
    decreases at.len(),
{
    if at.len() <= 1 {
        ts[at[0]]
    } else {
        let before = earliest(ts, at.drop_last());
        if ts[at.last()] < before {
            ts[at.last()]
        } else {
            before
        }
    }
}

/// The largest of the values at some positions.
pub open spec fn latest(ts: Seq<int>, at: Seq<int>) -> int
    decreases at.len(),
{
    if at.len() <= 1 {
        ts[at[0]]
    } else {
        let before = latest(ts, at.drop_last());
        if ts[at.last()] > before {
            ts[at.last()]
        } else {
            before
        }
    }
}

/// `earliest` and `latest` are the bounds of the values, and are attained.
pub proof fn law_earliest_and_latest_are_bounds(ts: Seq<int>, at: Seq<int>)
    requires
        at.len() > 0,
    ensures
        forall|i: int|
            0 <= i < at.len() ==> earliest(ts, at) <= ts[#[trigger] at[i]] <= latest(ts, at),
        exists|i: int| 0 <= i < at.len() && ts[#[trigger] at[i]] == earliest(ts, at),
        exists|i: int| 0 <= i < at.len() && ts[#[trigger] at[i]] == latest(ts, at),
    decreases at.len(),
{
    if at.len() == 1 {
        assert(ts[at[0]] == earliest(ts, at));
    } else {
        let s = at.drop_last();
        law_earliest_and_latest_are_bounds(ts, s);
        let i = choose|i: int| 0 <= i < s.len() && ts[#[trigger] s[i]] == earliest(ts, s);
        let j = choose|j: int| 0 <= j < s.len() && ts[#[trigger] s[j]] == latest(ts, s);
        assert(at[i] == s[i] && at[j] == s[j]);
        assert(at[at.len() - 1] == at.last());
        assert forall|k: int| 0 <= k < at.len() implies earliest(ts, at) <= ts[#[trigger] at[k]]
            <= latest(ts, at) by {
            if k < s.len() {
                assert(s[k] == at[k]);
            }
        }
        if ts[at.last()] < earliest(ts, s) {
            assert(ts[at[at.len() - 1]] == earliest(ts, at));
        } else {
            assert(ts[at[i]] == earliest(ts, at));
        }
        if ts[at.last()] > latest(ts, s) {
            assert(ts[at[at.len() - 1]] == latest(ts, at));
        } else {
            assert(ts[at[j]] == latest(ts, at));
        }
    }
}

/// The smallest and the largest of the values at some positions.
pub fn bounds(ts: &Vec<i64>, at: &Vec<usize>) -> (r: (i64, i64))
    requires
        at@.len() > 0,
        forall|i: int| 0 <= i < at@.len() ==> #[trigger] at@[i] < ts@.len(),
    ensures
        r.0 == earliest(ts@.map_values(|t: i64| t as int), rank::positions(at@)),
        r.1 == latest(ts@.map_values(|t: i64| t as int), rank::positions(at@)),
        r.0 <= r.1,
{
    let ghost values = ts@.map_values(|t: i64| t as int);
    let ghost all = rank::positions(at@);
    let mut first: i64 = ts[at[0]];
    let mut last: i64 = first;
    let mut i: usize = 1;
    assert(all.take(1)[0] == at@[0]);
    while i < at.len()
        invariant
            1 <= i <= at@.len(),
            values == ts@.map_values(|t: i64| t as int),
            all == rank::positions(at@),
            forall|k: int| 0 <= k < at@.len() ==> #[trigger] at@[k] < ts@.len(),
            first == earliest(values, all.take(i as int)),
            last == latest(values, all.take(i as int)),
            first <= last,
        decreases at@.len() - i,
    {
        let t: i64 = ts[at[i]];
        assert(all.take(i + 1).drop_last() =~= all.take(i as int));
        assert(all.take(i + 1).last() == at@[i as int]);
        assert(values[at@[i as int] as int] == t);
        if t < first {
            first = t;
        }
        if t > last {
            last = t;
        }
        i = i + 1;
    }
    assert(all.take(at@.len() as int) =~= all);
    (first, last)
}

/// The positions from zero to `n`.
pub open spec fn everywhere(n: nat) -> Seq<int> {
    Seq::new(n, |i: int| i)
}

/// The positions of `at` in chronological order. Positions of one instant stay
/// in the order of `at`.
pub open spec fn chronicle(ts: Seq<int>, at: Seq<int>) -> Seq<int> {
    rank::ranking(at.map_values(|i: int| -ts[i])).map_values(|j: int| at[j])
}

/// Puts positions in chronological order.
pub fn chronological(ts: &Vec<i64>, at: &Vec<usize>) -> (r: Vec<usize>)
    requires
        forall|i: int| 0 <= i < at@.len() ==> #[trigger] at@[i] < ts@.len(),
    ensures
        rank::positions(r@) == chronicle(
            ts@.map_values(|t: i64| t as int),
            rank::positions(at@),
        ),
        r@.len() == at@.len(),
        forall|i: int| 0 <= i < r@.len() ==> #[trigger] r@[i] < ts@.len(),
        forall|i: int, j: int|
            0 <= i <= j < r@.len() ==> ts@[#[trigger] r@[i] as int] <= ts@[#[trigger] r@[j] as int],
{
    let ghost values = ts@.map_values(|t: i64| t as int);
    let ghost all = rank::positions(at@);
    let mut measures: Vec<i128> = Vec::new();
    let mut i: usize = 0;
    while i < at.len()
        invariant
            i <= at@.len(),
            measures@.len() == i,
            forall|k: int| 0 <= k < at@.len() ==> #[trigger] at@[k] < ts@.len(),
            forall|k: int| 0 <= k < i ==> #[trigger] measures@[k] == -ts@[at@[k] as int],
        decreases at@.len() - i,
    {
        measures.push(-(ts[at[i]] as i128));
        i = i + 1;
    }
    let ghost m = all.map_values(|i: int| -values[i]);
    assert forall|k: int| 0 <= k < m.len() implies m[k] == measures@[k] by {
        assert(all[k] == at@[k]);
    }
    assert(rank::values(measures@) =~= m);
    let order = rank::rank(&measures);
    let ghost p = rank::positions(order@);
    let mut out: Vec<usize> = Vec::new();
    let mut i: usize = 0;
    assert forall|k: int| 0 <= k < order@.len() implies #[trigger] order@[k] < at@.len() by {
        assert(p[k] == order@[k]);
    }
    while i < order.len()
        invariant
            i <= order@.len(),
            out@.len() == i,
            forall|k: int| 0 <= k < order@.len() ==> #[trigger] order@[k] < at@.len(),
            forall|k: int| 0 <= k < i ==> #[trigger] out@[k] == at@[order@[k] as int],
        decreases order@.len() - i,
    {
        out.push(at[order[i]]);
        i = i + 1;
    }
    proof {
        assert(rank::positions(out@) =~= chronicle(values, all)) by {
            assert forall|k: int| 0 <= k < out@.len() implies rank::positions(out@)[k] == chronicle(
                values,
                all,
            )[k] by {
                assert(p[k] == order@[k]);
                assert(out@[k] == at@[order@[k] as int]);
            }
        }
        assert forall|i: int, j: int| 0 <= i <= j < out@.len() implies ts@[#[trigger] out@[i] as int]
            <= ts@[#[trigger] out@[j] as int] by {
            assert(out@[i] == at@[order@[i] as int] && out@[j] == at@[order@[j] as int]);
            assert(m[order@[i] as int] == -ts@[out@[i] as int]);
            assert(m[order@[j] as int] == -ts@[out@[j] as int]);
            if i < j {
                assert(rank::ahead(m, p[i], p[j]));
            }
        }
    }
    out
}

/// Positions of one instant stay in order.
pub proof fn law_chronicle_keeps_order(ts: Seq<int>, at: Seq<int>, i: int, j: int)
    requires
        forall|a: int, b: int| 0 <= a < b < at.len() ==> #[trigger] at[a] < #[trigger] at[b],
        0 <= i < j < at.len(),
        ts[chronicle(ts, at)[i]] == ts[chronicle(ts, at)[j]],
    ensures
        chronicle(ts, at)[i] < chronicle(ts, at)[j],
{
    let m = at.map_values(|i: int| -ts[i]);
    let p = rank::ranking(m);
    rank::law_ranking_exists(m);
    assert(rank::ahead(m, p[i], p[j]));
    assert(m[p[i]] == -ts[at[p[i]]] && m[p[j]] == -ts[at[p[j]]]);
    assert(at[p[i]] < at[p[j]]);
}

/// `at` lists exactly the positions at which a key stands, by rising instant;
/// positions of one instant come in order.
pub open spec fn is_timeline<V>(ts: Seq<int>, keys: Seq<V>, key: V, at: Seq<int>) -> bool {
    &&& forall|i: int| 0 <= i < at.len() ==> 0 <= #[trigger] at[i] < keys.len() && keys[at[i]] == key
    &&& forall|p: int| 0 <= p < keys.len() && #[trigger] keys[p] == key ==> at.contains(p)
    &&& forall|i: int, j: int|
        0 <= i < j < at.len() ==> ts[#[trigger] at[i]] < ts[#[trigger] at[j]] || (ts[at[i]]
            == ts[at[j]] && at[i] < at[j])
}

/// The chronicle of a key's positions is its timeline.
pub proof fn law_chronicle_is_the_timeline<V>(ts: Seq<int>, keys: Seq<V>, key: V)
    ensures
        is_timeline(ts, keys, key, chronicle(ts, crate::groups::members(keys, key))),
        chronicle(ts, crate::groups::members(keys, key)).len() == crate::groups::members(
            keys,
            key,
        ).len(),
{
    let at = crate::groups::members(keys, key);
    let c = chronicle(ts, at);
    let m = at.map_values(|i: int| -ts[i]);
    let order = rank::ranking(m);
    rank::law_ranking_exists(m);
    crate::groups::law_members_are_the_positions(keys, key);
    assert forall|i: int| 0 <= i < c.len() implies 0 <= #[trigger] c[i] < keys.len() && keys[c[i]]
        == key by {
        assert(c[i] == at[order[i]]);
    }
    assert forall|p: int| 0 <= p < keys.len() && #[trigger] keys[p] == key implies c.contains(p) by {
        let a = choose|a: int| 0 <= a < at.len() && at[a] == p;
        assert(order.contains(a));
        let i = choose|i: int| 0 <= i < order.len() && order[i] == a;
        assert(c[i] == p);
    }
    assert forall|i: int, j: int| 0 <= i < j < c.len() implies ts[#[trigger] c[i]]
        < ts[#[trigger] c[j]] || (ts[c[i]] == ts[c[j]] && c[i] < c[j]) by {
        assert(rank::ahead(m, order[i], order[j]));
        assert(m[order[i]] == -ts[c[i]] && m[order[j]] == -ts[c[j]]);
    }
}

/// A chronicle lists exactly the positions it was made from, and no position
/// before one of an earlier instant.
pub proof fn law_chronicle_is_chronological(ts: Seq<int>, at: Seq<int>)
    ensures
        chronicle(ts, at).to_multiset() == at.to_multiset(),
        forall|i: int, j: int|
            0 <= i <= j < at.len() ==> ts[#[trigger] chronicle(ts, at)[i]] <= ts[#[trigger] chronicle(
                ts,
                at,
            )[j]],
{
    let m = at.map_values(|i: int| -ts[i]);
    let p = rank::ranking(m);
    rank::law_ranking_exists(m);
    rank::law_ranking_rearranges(at, m);
    assert(p.map_values(|j: int| at[j]) =~= chronicle(ts, at));
    assert forall|i: int, j: int| 0 <= i <= j < at.len() implies ts[#[trigger] chronicle(ts, at)[i]]
        <= ts[#[trigger] chronicle(ts, at)[j]] by {
        assert(m[p[i]] == -ts[at[p[i]]] && m[p[j]] == -ts[at[p[j]]]);
        if i < j {
            assert(rank::ahead(m, p[i], p[j]));
        }
    }
}

/// The seconds between two instants, at least one.
pub open spec fn span(first: int, last: int) -> int {
    if last - first < 1 {
        1
    } else {
        last - first
    }
}

/// The seconds between two instants, at least one.
pub fn span_seconds(first: i64, last: i64) -> (r: u64)
    requires
        first <= last,
    ensures
        r == span(first as int, last as int),
{
    let d: u64 = (last as i128 - first as i128) as u64;
    if d < 1 {
        1
    } else {
        d
    }
}

/// A duration in hours and minutes.
pub open spec fn dwell_text(seconds: nat) -> Seq<char> {
    text::dec(seconds / 3600) + "h"@ + text::zero_padded(((seconds % 3600) / 60) as int, 2) + "m"@
}

/// Appends a duration in hours and minutes.
pub fn push_dwell(out: &mut String, seconds: u64)
    ensures
        final(out)@ == old(out)@ + dwell_text(seconds as nat),
{
    text::push_dec(out, seconds / 3600);
    out.append("h");
    text::push_zero_padded(out, ((seconds % 3600) / 60) as i64, 2);
    out.append("m");
    assert(out@ =~= old(out)@ + dwell_text(seconds as nat));
}

/// A span is the time between two instants, but never nothing.
pub proof fn law_span_is_the_time_between(first: int, last: int)
    requires
        first <= last,
    ensures
        span(first, last) >= 1,
        first < last ==> first + span(first, last) == last,
{
}

/// A duration is shown in whole hours and whole minutes: minutes below sixty,
/// in two digits, and less than a minute is dropped.
pub proof fn law_dwell_text_states_hours_and_minutes(seconds: nat)
    ensures
        exists|h: nat, m: nat|
            #![trigger text::dec(h), text::dec(m)]
            m < 60 && (h * 60 + m) * 60 <= seconds < (h * 60 + m) * 60 + 60 && dwell_text(seconds)
                == text::dec(h) + "h"@ + (if m < 10 {
                "0"@
            } else {
                ""@
            }) + text::dec(m) + "m"@,
{
    let h = seconds / 3600;
    let m = (seconds % 3600) / 60;
    reveal_strlit("0");
    reveal_strlit("");
    text::lemma_dec_len(m);
    assert(text::fill('0', 1) =~= "0"@);
    assert(text::zero_padded(m as int, 2) =~= (if m < 10 {
        "0"@
    } else {
        ""@
    }) + text::dec(m));
    assert(dwell_text(seconds) =~= text::dec(h) + "h"@ + (if m < 10 {
        "0"@
    } else {
        ""@
    }) + text::dec(m) + "m"@);
}

} // verus!
