//! Ranking by a measure: largest first, ties in their given order.

use vstd::prelude::*;

verus! {

/// Item `a` comes before item `b`: its measure is larger, or the measures are
/// equal and it was given earlier.
pub open spec fn ahead(measures: Seq<int>, a: int, b: int) -> bool {
    measures[a] > measures[b] || (measures[a] == measures[b] && a < b)
}

/// `order` lists every item once, each ahead of all that follow.
pub open spec fn is_ranking(measures: Seq<int>, order: Seq<int>) -> bool {
    &&& order.len() == measures.len()
    &&& forall|i: int| 0 <= i < order.len() ==> 0 <= #[trigger] order[i] < measures.len()
    &&& forall|i: int, j: int|
        0 <= i < j < order.len() ==> ahead(measures, #[trigger] order[i], #[trigger] order[j])
    &&& forall|k: int| 0 <= k < measures.len() ==> #[trigger] order.contains(k)
}

/// Positions as mathematical integers.
pub open spec fn positions(v: Seq<usize>) -> Seq<int> {
    v.map_values(|i: usize| i as int)
}

/// Measures as mathematical integers.
pub open spec fn values(v: Seq<i128>) -> Seq<int> {
    v.map_values(|i: i128| i as int)
}

/// The ranking of items by their measures.
pub open spec fn ranking(measures: Seq<int>) -> Seq<int> {
    choose|order: Seq<int>| is_ranking(measures, order)
}

/// The first `n` items of a sequence, or all where there are fewer.
pub open spec fn leading<T>(s: Seq<T>, n: nat) -> Seq<T> {
    if s.len() <= n {
        s
    } else {
        s.take(n as int)
    }
}

/// The `n` items of the largest measures, largest first.
pub open spec fn top<T>(items: Seq<T>, measures: Seq<int>, n: nat) -> Seq<T> {
    leading(ranking(measures), n).map_values(|i: int| items[i])
}

/// The sum of numbers.
pub open spec fn sum(s: Seq<int>) -> int
    decreases s.len(),
{
    if s.len() == 0 {
        0
    } else {
        sum(s.drop_last()) + s.last()
    }
}

/// The sum of the numbers at some positions.
pub open spec fn sum_at(s: Seq<int>, at: Seq<int>) -> int
    decreases at.len(),
{
    if at.len() == 0 {
        0
    } else {
        sum_at(s, at.drop_last()) + s[at.last()]
    }
}

/// There is only one ranking.
pub proof fn law_ranking_is_unique(measures: Seq<int>, a: Seq<int>, b: Seq<int>)
    requires
        is_ranking(measures, a),
        is_ranking(measures, b),
    ensures
        a == b,
{
    assert forall|i: int| 0 <= i < a.len() implies a[i] == b[i] by {
        lemma_same_place(measures, a, b, i);
    }
    assert(a =~= b);
}

proof fn lemma_same_place(measures: Seq<int>, a: Seq<int>, b: Seq<int>, i: int)
    requires
        is_ranking(measures, a),
        is_ranking(measures, b),
        0 <= i < a.len(),
    ensures
        a[i] == b[i],
    decreases i,
{
    assert forall|j: int| 0 <= j < i implies a[j] == b[j] by {
        lemma_same_place(measures, a, b, j);
    }
    if a[i] != b[i] {
        assert(b.contains(a[i]));
        let p = choose|p: int| 0 <= p < b.len() && b[p] == a[i];
        assert(a.contains(b[i]));
        let q = choose|q: int| 0 <= q < a.len() && a[q] == b[i];
        if p < i {
            assert(a[p] == a[i]);
            assert(ahead(measures, a[p], a[i]));
        }
        if q < i {
            assert(b[q] == b[i]);
            assert(ahead(measures, b[q], b[i]));
        }
        assert(ahead(measures, b[i], b[p]));
        assert(ahead(measures, a[i], a[q]));
    }
}

/// How many leading entries of a ranking are ahead of the last item.
spec fn cut(measures: Seq<int>, order: Seq<int>) -> int
    decreases order.len(),
{
    if order.len() == 0 || ahead(measures, order.last(), measures.len() - 1) {
        order.len() as int
    } else {
        cut(measures, order.drop_last())
    }
}

proof fn lemma_cut(measures: Seq<int>, order: Seq<int>)
    requires
        measures.len() > 0,
        forall|i: int| 0 <= i < order.len() ==> 0 <= #[trigger] order[i] < measures.len() - 1,
        forall|i: int, j: int|
            0 <= i < j < order.len() ==> ahead(measures, #[trigger] order[i], #[trigger] order[j]),
    ensures
        0 <= cut(measures, order) <= order.len(),
        forall|i: int|
            0 <= i < cut(measures, order) ==> ahead(
                measures,
                #[trigger] order[i],
                measures.len() - 1,
            ),
        forall|i: int|
            cut(measures, order) <= i < order.len() ==> ahead(
                measures,
                measures.len() - 1,
                #[trigger] order[i],
            ),
    decreases order.len(),
{
    if order.len() > 0 {
        let last = order[order.len() - 1];
        if ahead(measures, last, measures.len() - 1) {
            assert forall|i: int| 0 <= i < order.len() implies ahead(
                measures,
                #[trigger] order[i],
                measures.len() - 1,
            ) by {
                if i < order.len() - 1 {
                    assert(ahead(measures, order[i], last));
                }
            }
        } else {
            let rest = order.drop_last();
            lemma_cut(measures, rest);
            let k = cut(measures, order);
            assert forall|i: int| 0 <= i < k implies ahead(
                measures,
                #[trigger] order[i],
                measures.len() - 1,
            ) by {
                assert(rest[i] == order[i]);
            }
            assert forall|i: int| k <= i < order.len() implies ahead(
                measures,
                measures.len() - 1,
                #[trigger] order[i],
            ) by {
                if i < rest.len() {
                    assert(rest[i] == order[i]);
                }
            }
        }
    }
}

/// A ranking grows by one item: the last item goes to its place in the ranking
/// of the others.
proof fn lemma_insertion(measures: Seq<int>)
    requires
        measures.len() > 0,
        is_ranking(measures.drop_last(), ranking(measures.drop_last())),
    ensures
        ({
            let before = ranking(measures.drop_last());
            0 <= cut(measures, before) <= before.len() && is_ranking(
                measures,
                before.insert(cut(measures, before), measures.len() - 1),
            )
        }),
{
    let prefix = measures.drop_last();
    let before = ranking(prefix);
    let n = measures.len() - 1;
    assert forall|i: int, j: int| 0 <= i < j < before.len() implies ahead(
        measures,
        #[trigger] before[i],
        #[trigger] before[j],
    ) by {
        assert(ahead(prefix, before[i], before[j]));
        assert(prefix[before[i]] == measures[before[i]]);
        assert(prefix[before[j]] == measures[before[j]]);
    }
    lemma_cut(measures, before);
    let k = cut(measures, before);
    let after = before.insert(k, n);
    assert forall|i: int| 0 <= i < after.len() implies 0 <= #[trigger] after[i]
        < measures.len() by {
        if i < k {
            assert(after[i] == before[i]);
        } else if i > k {
            assert(after[i] == before[i - 1]);
        }
    }
    assert forall|i: int, j: int| 0 <= i < j < after.len() implies ahead(
        measures,
        #[trigger] after[i],
        #[trigger] after[j],
    ) by {
        let x = if i < k {
            i
        } else {
            i - 1
        };
        let y = if j < k {
            j
        } else {
            j - 1
        };
        if i != k {
            assert(after[i] == before[x]);
        }
        if j != k {
            assert(after[j] == before[y]);
        }
    }
    assert forall|v: int| 0 <= v < measures.len() implies #[trigger] after.contains(v) by {
        if v == n {
            assert(after[k] == v);
        } else {
            assert(before.contains(v));
            let i = choose|i: int| 0 <= i < before.len() && before[i] == v;
            if i < k {
                assert(after[i] == v);
            } else {
                assert(after[i + 1] == v);
            }
        }
    }
}

/// There always is a ranking.
pub proof fn law_ranking_exists(measures: Seq<int>)
    ensures
        is_ranking(measures, ranking(measures)),
    decreases measures.len(),
{
    if measures.len() == 0 {
        assert(is_ranking(measures, Seq::<int>::empty()));
    } else {
        law_ranking_exists(measures.drop_last());
        lemma_insertion(measures);
    }
}

/// No item that a ranking cuts off has a larger measure than one it keeps.
pub proof fn law_leaders_are_largest(measures: Seq<int>, i: int, j: int)
    requires
        0 <= i <= j < measures.len(),
    ensures
        measures[ranking(measures)[i]] >= measures[ranking(measures)[j]],
{
    law_ranking_exists(measures);
    let order = ranking(measures);
    if i < j {
        assert(ahead(measures, order[i], order[j]));
    }
}

/// Ranking loses no item and doubles none.
pub proof fn law_ranking_rearranges<T>(items: Seq<T>, measures: Seq<int>)
    requires
        items.len() == measures.len(),
    ensures
        ranking(measures).map_values(|i: int| items[i]).to_multiset() == items.to_multiset(),
    decreases items.len(),
{
    let pick = |i: int| items[i];
    law_ranking_exists(measures);
    if items.len() == 0 {
        assert(ranking(measures).map_values(pick) =~= items);
    } else {
        let fewer = items.drop_last();
        let prefix = measures.drop_last();
        law_ranking_exists(prefix);
        lemma_insertion(measures);
        let before = ranking(prefix);
        let k = cut(measures, before);
        let after = before.insert(k, measures.len() - 1);
        law_ranking_is_unique(measures, ranking(measures), after);
        law_ranking_rearranges(fewer, prefix);
        let chosen = before.map_values(|i: int| fewer[i]);
        assert(chosen =~= before.map_values(pick));
        assert(after.map_values(pick) =~= chosen.insert(k, items.last()));
        vstd::seq_lib::to_multiset_insert(chosen, k, items.last());
        vstd::seq_lib::to_multiset_build(fewer, items.last());
        assert(fewer.push(items.last()) =~= items);
    }
}

proof fn lemma_sum_insert(s: Seq<int>, k: int, x: int)
    requires
        0 <= k <= s.len(),
    ensures
        sum(s.insert(k, x)) == sum(s) + x,
    decreases s.len(),
{
    let t = s.insert(k, x);
    if k == s.len() {
        assert(t.drop_last() =~= s);
    } else {
        assert(t.drop_last() =~= s.drop_last().insert(k, x));
        lemma_sum_insert(s.drop_last(), k, x);
    }
}

proof fn lemma_sum_leading(s: Seq<int>, n: nat)
    requires
        forall|i: int| 0 <= i < s.len() ==> 0 <= #[trigger] s[i],
    ensures
        sum(leading(s, n)) <= sum(s),
    decreases s.len(),
{
    if s.len() > n {
        let t = s.drop_last();
        assert forall|i: int| 0 <= i < t.len() implies 0 <= #[trigger] t[i] by {
            assert(t[i] == s[i]);
        }
        lemma_sum_leading(t, n);
        assert(leading(s, n) =~= leading(t, n));
        assert(s[s.len() - 1] == s.last());
    }
}

/// Ranking does not change a sum.
proof fn lemma_sum_ranking(items: Seq<int>, measures: Seq<int>)
    requires
        items.len() == measures.len(),
    ensures
        sum(ranking(measures).map_values(|i: int| items[i])) == sum(items),
    decreases items.len(),
{
    let pick = |i: int| items[i];
    law_ranking_exists(measures);
    if items.len() == 0 {
        assert(ranking(measures).map_values(pick) =~= items);
    } else {
        let fewer = items.drop_last();
        let prefix = measures.drop_last();
        law_ranking_exists(prefix);
        lemma_insertion(measures);
        let before = ranking(prefix);
        let k = cut(measures, before);
        let after = before.insert(k, measures.len() - 1);
        law_ranking_is_unique(measures, ranking(measures), after);
        lemma_sum_ranking(fewer, prefix);
        let chosen = before.map_values(|i: int| fewer[i]);
        assert(chosen =~= before.map_values(pick));
        assert(after.map_values(pick) =~= chosen.insert(k, items.last()));
        lemma_sum_insert(chosen, k, items.last());
    }
}

/// The leading items add up to no more than all items do.
pub proof fn lemma_sum_top(items: Seq<int>, measures: Seq<int>, n: nat)
    requires
        items.len() == measures.len(),
        forall|i: int| 0 <= i < items.len() ==> 0 <= #[trigger] items[i],
    ensures
        sum(top(items, measures, n)) <= sum(items),
{
    let pick = |i: int| items[i];
    let order = ranking(measures);
    law_ranking_exists(measures);
    lemma_sum_ranking(items, measures);
    let all = order.map_values(pick);
    assert forall|i: int| 0 <= i < all.len() implies 0 <= #[trigger] all[i] by {
        assert(all[i] == items[order[i]]);
    }
    lemma_sum_leading(all, n);
    assert(leading(all, n) =~= leading(order, n).map_values(pick));
}

/// Replacing a number changes a sum by the difference.
pub proof fn lemma_sum_update(s: Seq<int>, i: int, v: int)
    requires
        0 <= i < s.len(),
    ensures
        sum(s.update(i, v)) == sum(s) - s[i] + v,
    decreases s.len(),
{
    let t = s.update(i, v);
    if i == s.len() - 1 {
        assert(t.drop_last() =~= s.drop_last());
    } else {
        assert(t.drop_last() =~= s.drop_last().update(i, v));
        lemma_sum_update(s.drop_last(), i, v);
        assert(t.last() == s.last());
    }
}

/// The first `n` items by a measure: as many as asked for where there are so
/// many, each an item, largest first; and no item that is left out has a larger
/// measure than one that is shown.
pub proof fn law_top_shows_the_largest<T>(items: Seq<T>, measure: spec_fn(T) -> int, n: nat)
    ensures
        ({
            let shown = top(items, items.map_values(measure), n);
            &&& shown.len() == if items.len() < n {
                items.len()
            } else {
                n
            }
            &&& forall|i: int, j: int|
                0 <= i <= j < shown.len() ==> measure(#[trigger] shown[i]) >= measure(
                    #[trigger] shown[j],
                )
            &&& forall|i: int| 0 <= i < shown.len() ==> items.contains(#[trigger] shown[i])
            &&& forall|k: int|
                0 <= k < items.len() ==> shown.contains(#[trigger] items[k]) || (shown.len() == n
                    && forall|i: int|
                    0 <= i < shown.len() ==> measure(#[trigger] shown[i]) >= measure(items[k]))
        }),
{
    let measures = items.map_values(measure);
    let order = ranking(measures);
    let shown = top(items, measures, n);
    law_ranking_exists(measures);
    let cut = shown.len();
    assert forall|i: int| 0 <= i < cut implies items.contains(#[trigger] shown[i]) by {
        assert(shown[i] == items[order[i]]);
    }
    assert forall|i: int, j: int| 0 <= i <= j < cut implies measure(#[trigger] shown[i]) >= measure(
        #[trigger] shown[j],
    ) by {
        law_leaders_are_largest(measures, i, j);
    }
    assert forall|k: int| 0 <= k < items.len() implies shown.contains(#[trigger] items[k]) || (
    shown.len() == n && forall|i: int|
        0 <= i < shown.len() ==> measure(#[trigger] shown[i]) >= measure(items[k])) by {
        assert(order.contains(k));
        let p = choose|p: int| 0 <= p < order.len() && order[p] == k;
        if p < cut {
            assert(shown[p] == items[k]);
        } else {
            assert forall|i: int| 0 <= i < shown.len() implies measure(#[trigger] shown[i])
                >= measure(items[k]) by {
                law_leaders_are_largest(measures, i, p);
            }
        }
    }
}

/// Ranking doubles nothing: items that differ stay different.
pub proof fn lemma_top_is_distinct<T>(items: Seq<T>, measures: Seq<int>, n: nat)
    requires
        items.len() == measures.len(),
        items.no_duplicates(),
    ensures
        top(items, measures, n).no_duplicates(),
{
    law_ranking_exists(measures);
    let order = ranking(measures);
    let shown = top(items, measures, n);
    assert forall|i: int, j: int| 0 <= i < shown.len() && 0 <= j < shown.len() && i != j implies shown[i]
        != shown[j] by {
        assert(shown[i] == items[order[i]] && shown[j] == items[order[j]]);
        if i < j {
            assert(ahead(measures, order[i], order[j]));
        } else {
            assert(ahead(measures, order[j], order[i]));
        }
    }
}

/// Where no two items have the same key, no two of the items shown do.
pub proof fn lemma_top_keeps_keys_apart<T, K>(
    items: Seq<T>,
    measure: spec_fn(T) -> int,
    key: spec_fn(T) -> K,
    n: nat,
)
    requires
        forall|i: int, j: int|
            0 <= i < j < items.len() ==> key(#[trigger] items[i]) != key(#[trigger] items[j]),
    ensures
        ({
            let shown = top(items, items.map_values(measure), n);
            forall|i: int, j: int|
                0 <= i < j < shown.len() ==> key(#[trigger] shown[i]) != key(#[trigger] shown[j])
        }),
{
    let measures = items.map_values(measure);
    let order = ranking(measures);
    let shown = top(items, measures, n);
    law_ranking_exists(measures);
    assert forall|i: int, j: int| 0 <= i < j < shown.len() implies key(#[trigger] shown[i]) != key(
        #[trigger] shown[j],
    ) by {
        assert(shown[i] == items[order[i]] && shown[j] == items[order[j]]);
        if order[i] < order[j] {
            assert(key(items[order[i]]) != key(items[order[j]]));
        } else {
            assert(key(items[order[j]]) != key(items[order[i]]));
        }
    }
}

/// Filtering keeps exactly the items that pass, in order and none twice.
pub proof fn lemma_filter_keeps_order<T>(
    items: Seq<T>,
    pass: spec_fn(T) -> bool,
    measure: spec_fn(T) -> int,
)
    requires
        forall|i: int, j: int|
            0 <= i <= j < items.len() ==> measure(#[trigger] items[i]) >= measure(
                #[trigger] items[j],
            ),
        items.no_duplicates(),
    ensures
        forall|i: int|
            0 <= i < items.filter(pass).len() ==> pass(#[trigger] items.filter(pass)[i])
                && items.contains(items.filter(pass)[i]),
        forall|k: int|
            0 <= k < items.len() && pass(#[trigger] items[k]) ==> items.filter(pass).contains(
                items[k],
            ),
        forall|i: int, j: int|
            0 <= i <= j < items.filter(pass).len() ==> measure(#[trigger] items.filter(pass)[i])
                >= measure(#[trigger] items.filter(pass)[j]),
        items.filter(pass).no_duplicates(),
    decreases items.len(),
{
    reveal(Seq::filter);
    if items.len() > 0 {
        let t = items.drop_last();
        let last = items.last();
        assert(items[items.len() - 1] == last);
        assert(t.no_duplicates());
        assert forall|i: int, j: int| 0 <= i <= j < t.len() implies measure(#[trigger] t[i])
            >= measure(#[trigger] t[j]) by {
            assert(t[i] == items[i] && t[j] == items[j]);
        }
        lemma_filter_keeps_order(t, pass, measure);
        let before = t.filter(pass);
        let after = items.filter(pass);
        assert forall|i: int| 0 <= i < after.len() implies pass(#[trigger] after[i])
            && items.contains(after[i]) by {
            if i < before.len() {
                assert(after[i] == before[i]);
                let k = choose|k: int| 0 <= k < t.len() && t[k] == before[i];
                assert(items[k] == after[i]);
            } else {
                assert(items[items.len() - 1] == after[i]);
            }
        }
        assert forall|k: int| 0 <= k < items.len() && pass(#[trigger] items[k]) implies after.contains(
            items[k],
        ) by {
            if k < t.len() {
                assert(t[k] == items[k]);
                let i = choose|i: int| 0 <= i < before.len() && before[i] == t[k];
                assert(after[i] == items[k]);
            } else {
                assert(after[after.len() - 1] == items[k]);
            }
        }
        if pass(last) {
            assert forall|i: int| 0 <= i < before.len() implies #[trigger] before[i] != last
                && measure(before[i]) >= measure(last) by {
                assert(t.contains(before[i]));
                let k = choose|k: int| 0 <= k < t.len() && t[k] == before[i];
                assert(items[k] == before[i]);
                assert(items[k] != items[items.len() - 1]);
            }
            assert forall|i: int, j: int| 0 <= i <= j < after.len() implies measure(
                #[trigger] after[i],
            ) >= measure(#[trigger] after[j]) by {
                if j < before.len() {
                    assert(after[i] == before[i] && after[j] == before[j]);
                } else if i < before.len() {
                    assert(after[i] == before[i]);
                }
            }
            assert forall|i: int, j: int| 0 <= i < after.len() && 0 <= j < after.len() && i != j implies after[i]
                != after[j] by {
                if i < before.len() && j < before.len() {
                    assert(after[i] == before[i] && after[j] == before[j]);
                } else if i < before.len() {
                    assert(after[i] == before[i]);
                } else {
                    assert(after[j] == before[j]);
                }
            }
        }
    }
}

/// `out` ranks the items from `lo` to `hi`.
spec fn ranks_part(measures: Seq<int>, out: Seq<usize>, lo: int, hi: int) -> bool {
    &&& out.len() == hi - lo
    &&& forall|i: int| 0 <= i < out.len() ==> lo <= #[trigger] out[i] < hi
    &&& forall|i: int, j: int|
        0 <= i < j < out.len() ==> ahead(
            measures,
            #[trigger] out[i] as int,
            #[trigger] out[j] as int,
        )
    &&& forall|k: usize| lo <= k < hi ==> #[trigger] out.contains(k)
}

proof fn lemma_push_contains(s: Seq<usize>, x: usize)
    ensures
        s.push(x).contains(x),
        forall|y: usize| s.contains(y) ==> #[trigger] s.push(x).contains(y),
{
    assert(s.push(x)[s.len() as int] == x);
    assert forall|y: usize| s.contains(y) implies #[trigger] s.push(x).contains(y) by {
        let i = choose|i: int| 0 <= i < s.len() && s[i] == y;
        assert(s.push(x)[i] == y);
    }
}

fn merge(
    measures: &Vec<i128>,
    left: &Vec<usize>,
    right: &Vec<usize>,
    lo: usize,
    mid: usize,
    hi: usize,
) -> (out: Vec<usize>)
    requires
        lo <= mid <= hi <= measures@.len(),
        ranks_part(values(measures@), left@, lo as int, mid as int),
        ranks_part(values(measures@), right@, mid as int, hi as int),
    ensures
        ranks_part(values(measures@), out@, lo as int, hi as int),
{
    let ghost m = values(measures@);
    let mut out: Vec<usize> = Vec::new();
    let mut i: usize = 0;
    let mut j: usize = 0;
    while i < left.len() || j < right.len()
        invariant
            lo <= mid <= hi <= measures@.len(),
            m == values(measures@),
            ranks_part(m, left@, lo as int, mid as int),
            ranks_part(m, right@, mid as int, hi as int),
            i <= left@.len(),
            j <= right@.len(),
            out@.len() == i + j,
            forall|a: int| 0 <= a < out@.len() ==> lo <= #[trigger] out@[a] < hi,
            forall|a: int, b: int|
                0 <= a < b < out@.len() ==> ahead(
                    m,
                    #[trigger] out@[a] as int,
                    #[trigger] out@[b] as int,
                ),
            forall|a: int, b: int|
                0 <= a < out@.len() && i <= b < left@.len() ==> ahead(
                    m,
                    #[trigger] out@[a] as int,
                    #[trigger] left@[b] as int,
                ),
            forall|a: int, b: int|
                0 <= a < out@.len() && j <= b < right@.len() ==> ahead(
                    m,
                    #[trigger] out@[a] as int,
                    #[trigger] right@[b] as int,
                ),
            forall|a: int| 0 <= a < i ==> out@.contains(#[trigger] left@[a]),
            forall|b: int| 0 <= b < j ==> out@.contains(#[trigger] right@[b]),
        decreases left@.len() - i + right@.len() - j,
    {
        let take_left = if i >= left.len() {
            false
        } else if j >= right.len() {
            true
        } else {
            assert(m[left@[i as int] as int] == measures@[left@[i as int] as int]);
            assert(m[right@[j as int] as int] == measures@[right@[j as int] as int]);
            measures[left[i]] >= measures[right[j]]
        };
        let ghost before = out@;
        if take_left {
            let x: usize = left[i];
            assert forall|b: int| j <= b < right@.len() implies ahead(
                m,
                x as int,
                #[trigger] right@[b] as int,
            ) by {
                assert(x < mid <= right@[b]);
                if b > j {
                    assert(ahead(m, right@[j as int] as int, right@[b] as int));
                }
            }
            out.push(x);
            proof {
                lemma_push_contains(before, x);
            }
            i = i + 1;
        } else {
            let x: usize = right[j];
            assert forall|b: int| i <= b < left@.len() implies ahead(
                m,
                x as int,
                #[trigger] left@[b] as int,
            ) by {
                if b > i {
                    assert(ahead(m, left@[i as int] as int, left@[b] as int));
                }
            }
            out.push(x);
            proof {
                lemma_push_contains(before, x);
            }
            j = j + 1;
        }
    }
    assert forall|k: usize| lo <= k < hi implies #[trigger] out@.contains(k) by {
        if k < mid {
            assert(left@.contains(k));
            let a = choose|a: int| 0 <= a < left@.len() && left@[a] == k;
            assert(out@.contains(left@[a]));
        } else {
            assert(right@.contains(k));
            let b = choose|b: int| 0 <= b < right@.len() && right@[b] == k;
            assert(out@.contains(right@[b]));
        }
    }
    out
}

fn rank_part(measures: &Vec<i128>, lo: usize, hi: usize) -> (out: Vec<usize>)
    requires
        lo <= hi <= measures@.len(),
    ensures
        ranks_part(values(measures@), out@, lo as int, hi as int),
    decreases hi - lo,
{
    let mut out: Vec<usize> = Vec::new();
    if hi - lo == 0 {
        out
    } else if hi - lo == 1 {
        out.push(lo);
        assert(out@[0] == lo);
        assert forall|k: usize| lo <= k < hi implies #[trigger] out@.contains(k) by {
            assert(out@[0] == k);
        }
        out
    } else {
        let mid: usize = lo + (hi - lo) / 2;
        let left = rank_part(measures, lo, mid);
        let right = rank_part(measures, mid, hi);
        merge(measures, &left, &right, lo, mid, hi)
    }
}

/// Ranks items by their measures.
pub fn rank(measures: &Vec<i128>) -> (order: Vec<usize>)
    ensures
        is_ranking(values(measures@), positions(order@)),
        positions(order@) == ranking(values(measures@)),
{
    let order = rank_part(measures, 0, measures.len());
    proof {
        let m = values(measures@);
        let p = positions(order@);
        assert forall|i: int, j: int| 0 <= i < j < p.len() implies ahead(
            m,
            #[trigger] p[i],
            #[trigger] p[j],
        ) by {
            assert(ahead(m, order@[i] as int, order@[j] as int));
        }
        assert forall|i: int| 0 <= i < p.len() implies 0 <= #[trigger] p[i] < m.len() by {
            assert(order@[i] < measures@.len());
        }
        assert forall|k: int| 0 <= k < m.len() implies #[trigger] p.contains(k) by {
            assert(order@.contains(k as usize));
            let i = choose|i: int| 0 <= i < order@.len() && order@[i] == k as usize;
            assert(p[i] == k);
        }
        assert(is_ranking(m, p));
        law_ranking_is_unique(m, p, ranking(m));
    }
    order
}

/// The positions of the `n` largest measures, largest first.
pub fn rank_top(measures: &Vec<i128>, n: usize) -> (order: Vec<usize>)
    ensures
        positions(order@) == leading(ranking(values(measures@)), n as nat),
        forall|i: int| 0 <= i < order@.len() ==> #[trigger] order@[i] < measures@.len(),
        order@.len() == if measures@.len() <= n {
            measures@.len()
        } else {
            n as nat
        },
{
    let mut order = rank(measures);
    let ghost full = order@;
    if order.len() > n {
        order.truncate(n);
        assert(positions(order@) =~= positions(full).take(n as int));
    }
    assert forall|i: int| 0 <= i < order@.len() implies #[trigger] order@[i] < measures@.len() by {
        assert(order@[i] == positions(full)[i]);
    }
    order
}

} // verus!
