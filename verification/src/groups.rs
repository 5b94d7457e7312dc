//! Grouping of events by key.

use vstd::prelude::*;
use crate::probe::IpAddr;

verus! {

/// What events can be grouped by.
pub trait Key: View {
    /// Whether two keys are the same.
    fn same(&self, other: &Self) -> (r: bool)
        ensures
            r == (self@ == other@),
    ;
}

impl Key for u32 {
    fn same(&self, other: &Self) -> (r: bool) {
        *self == *other
    }
}

impl Key for String {
    fn same(&self, other: &Self) -> (r: bool) {
        *self == *other
    }
}

impl View for IpAddr {
    type V = IpAddr;

    open spec fn view(&self) -> IpAddr {
        *self
    }
}

impl Key for IpAddr {
    fn same(&self, other: &Self) -> (r: bool) {
        *self == *other
    }
}

/// A place: country code, region and city.
pub struct Place {
    pub country_code: String,
    pub region: String,
    pub city: String,
}

impl View for Place {
    type V = (Seq<char>, Seq<char>, Seq<char>);

    open spec fn view(&self) -> (Seq<char>, Seq<char>, Seq<char>) {
        (self.country_code@, self.region@, self.city@)
    }
}

impl Key for Place {
    fn same(&self, other: &Self) -> (r: bool) {
        self.country_code.same(&other.country_code) && self.region.same(&other.region)
            && self.city.same(&other.city)
    }
}

/// The views of a sequence of keys.
pub open spec fn views<K: View>(keys: Seq<K>) -> Seq<K::V> {
    keys.map_values(|k: K| k@)
}

/// The positions at which a key stands, in ascending order.
pub open spec fn members<V>(keys: Seq<V>, key: V) -> Seq<int>
    decreases keys.len(),
{
    if keys.len() == 0 {
        Seq::empty()
    } else if keys.last() == key {
        members(keys.drop_last(), key).push(keys.len() - 1)
    } else {
        members(keys.drop_last(), key)
    }
}

/// The keys, each once, in the order in which they first appear.
pub open spec fn distinct<V>(keys: Seq<V>) -> Seq<V>
    decreases keys.len(),
{
    if keys.len() == 0 {
        Seq::empty()
    } else {
        let before = distinct(keys.drop_last());
        if before.contains(keys.last()) {
            before
        } else {
            before.push(keys.last())
        }
    }
}

/// `groups` holds, for each distinct key, the positions at which it stands.
pub open spec fn is_grouping<V>(keys: Seq<V>, groups: Seq<Vec<usize>>) -> bool {
    &&& groups.len() == distinct(keys).len()
    &&& forall|g: int|
        0 <= g < groups.len() ==> crate::rank::positions((#[trigger] groups[g])@) == members(
            keys,
            distinct(keys)[g],
        )
}

/// A key stands at its members and nowhere else.
pub proof fn lemma_members<V>(keys: Seq<V>, key: V)
    ensures
        members(keys, key).len() <= keys.len(),
        forall|j: int|
            0 <= j < members(keys, key).len() ==> 0 <= #[trigger] members(keys, key)[j]
                < keys.len() && keys[members(keys, key)[j]] == key,
        members(keys, key).len() > 0 <==> keys.contains(key),
    decreases keys.len(),
{
    if keys.len() > 0 {
        let k = keys.drop_last();
        lemma_members(k, key);
        let m = members(keys, key);
        assert forall|j: int| 0 <= j < m.len() implies 0 <= #[trigger] m[j] < keys.len()
            && keys[m[j]] == key by {
            if j < members(k, key).len() {
                assert(m[j] == members(k, key)[j]);
                assert(k[m[j]] == keys[m[j]]);
            }
        }
        if keys.last() == key {
            assert(keys[keys.len() - 1] == key);
        } else if keys.contains(key) {
            let i = choose|i: int| 0 <= i < keys.len() && keys[i] == key;
            assert(k[i] == key);
        } else if k.contains(key) {
            let i = choose|i: int| 0 <= i < k.len() && k[i] == key;
            assert(keys[i] == key);
        }
    }
}

/// `distinct` lists exactly the keys that occur, none twice.
pub proof fn lemma_distinct<V>(keys: Seq<V>)
    ensures
        distinct(keys).len() <= keys.len(),
        forall|v: V| #[trigger] distinct(keys).contains(v) <==> keys.contains(v),
        forall|i: int, j: int|
            0 <= i < j < distinct(keys).len() ==> #[trigger] distinct(keys)[i]
                != #[trigger] distinct(keys)[j],
    decreases keys.len(),
{
    if keys.len() > 0 {
        let k = keys.drop_last();
        let last = keys.last();
        lemma_distinct(k);
        let before = distinct(k);
        let after = distinct(keys);
        assert forall|v: V| #[trigger] after.contains(v) <==> keys.contains(v) by {
            if after.contains(v) {
                let i = choose|i: int| 0 <= i < after.len() && after[i] == v;
                if i < before.len() {
                    assert(before[i] == v);
                    assert(before.contains(v));
                    let j = choose|j: int| 0 <= j < k.len() && k[j] == v;
                    assert(keys[j] == v);
                } else {
                    assert(keys[keys.len() - 1] == v);
                }
            }
            if keys.contains(v) {
                let j = choose|j: int| 0 <= j < keys.len() && keys[j] == v;
                if j < k.len() {
                    assert(k[j] == v);
                    assert(before.contains(v));
                    let i = choose|i: int| 0 <= i < before.len() && before[i] == v;
                    assert(after[i] == v);
                } else if before.contains(last) {
                    let i = choose|i: int| 0 <= i < before.len() && before[i] == last;
                    assert(after[i] == v);
                } else {
                    assert(after[after.len() - 1] == v);
                }
            }
        }
        if !before.contains(last) {
            assert forall|i: int, j: int| 0 <= i < j < after.len() implies #[trigger] after[i]
                != #[trigger] after[j] by {
                if j == before.len() {
                    assert(before[i] == after[i]);
                    assert(before.contains(before[i]));
                }
            }
        }
    }
}

/// Every member of a group has the group's key, and there is at least one.
pub proof fn lemma_grouping<V>(keys: Seq<V>, groups: Seq<Vec<usize>>)
    requires
        is_grouping(keys, groups),
    ensures
        forall|g: int| 0 <= g < groups.len() ==> (#[trigger] groups[g])@.len() > 0,
        forall|g: int, j: int|
            0 <= g < groups.len() && 0 <= j < groups[g]@.len() ==> (#[trigger] groups[g]@[j])
                < keys.len() && keys[groups[g]@[j] as int] == distinct(keys)[g],
{
    let d = distinct(keys);
    lemma_distinct(keys);
    assert forall|g: int| 0 <= g < groups.len() implies (#[trigger] groups[g])@.len() > 0 by {
        assert(d.contains(d[g]));
        lemma_members(keys, d[g]);
        assert(crate::rank::positions(groups[g]@).len() == groups[g]@.len());
    }
    assert forall|g: int, j: int| 0 <= g < groups.len() && 0 <= j < groups[g]@.len() implies (
    #[trigger] groups[g]@[j]) < keys.len() && keys[groups[g]@[j] as int] == d[g] by {
        lemma_members(keys, d[g]);
        assert(crate::rank::positions(groups[g]@)[j] == members(keys, d[g])[j]);
    }
}

/// The members of a key are exactly the positions at which it stands, in
/// ascending order.
pub proof fn law_members_are_the_positions<V>(keys: Seq<V>, key: V)
    ensures
        forall|i: int|
            0 <= i < keys.len() && #[trigger] keys[i] == key ==> members(keys, key).contains(i),
        forall|j: int|
            0 <= j < members(keys, key).len() ==> 0 <= #[trigger] members(keys, key)[j]
                < keys.len() && keys[members(keys, key)[j]] == key,
        forall|i: int, j: int|
            0 <= i < j < members(keys, key).len() ==> #[trigger] members(keys, key)[i]
                < #[trigger] members(keys, key)[j],
        members(keys, key).len() == keys.filter(|k: V| k == key).len(),
    decreases keys.len(),
{
    reveal(Seq::filter);
    lemma_members(keys, key);
    let m = members(keys, key);
    if keys.len() > 0 {
        let k = keys.drop_last();
        let before = members(k, key);
        law_members_are_the_positions(k, key);
        lemma_members(k, key);
        assert forall|i: int| 0 <= i < keys.len() && #[trigger] keys[i] == key implies m.contains(
            i,
        ) by {
            if i < k.len() {
                assert(k[i] == key);
                let j = choose|j: int| 0 <= j < before.len() && before[j] == i;
                assert(m[j] == i);
            } else {
                assert(m[m.len() - 1] == i);
            }
        }
        assert forall|i: int, j: int| 0 <= i < j < m.len() implies #[trigger] m[i]
            < #[trigger] m[j] by {
            assert(m[i] == before[i]);
            if j < before.len() {
                assert(m[j] == before[j]);
            }
        }
    }
}

/// There are as many distinct keys as the keys have different values.
pub proof fn law_distinct_counts_the_values<V>(keys: Seq<V>)
    ensures
        distinct(keys).len() == keys.to_set().len(),
{
    let d = distinct(keys);
    lemma_distinct(keys);
    assert(d.no_duplicates()) by {
        assert forall|i: int, j: int| 0 <= i < d.len() && 0 <= j < d.len() && i != j implies d[i]
            != d[j] by {
            if i < j {
                assert(d[i] != d[j]);
            } else {
                assert(d[j] != d[i]);
            }
        }
    }
    d.unique_seq_to_set();
    assert(d.to_set() =~= keys.to_set()) by {
        assert forall|v: V| d.to_set().contains(v) == keys.to_set().contains(v) by {
            assert(d.contains(v) <==> keys.contains(v));
        }
    }
}

/// How many events each distinct key has.
pub open spec fn counts<V>(keys: Seq<V>) -> Seq<int> {
    distinct(keys).map_values(|k: V| members(keys, k).len() as int)
}

/// Every event is in exactly one group: the groups' sizes add up to the number
/// of events.
pub proof fn law_groups_cover_events<V>(keys: Seq<V>)
    ensures
        crate::rank::sum(counts(keys)) == keys.len(),
    decreases keys.len(),
{
    if keys.len() > 0 {
        let k = keys.drop_last();
        let last = keys.last();
        law_groups_cover_events(k);
        lemma_distinct(k);
        let d = distinct(k);
        if d.contains(last) {
            let i = choose|i: int| 0 <= i < d.len() && d[i] == last;
            assert(counts(keys) =~= counts(k).update(i, counts(k)[i] + 1));
            crate::rank::lemma_sum_update(counts(k), i, counts(k)[i] + 1);
        } else {
            lemma_members(k, last);
            assert(!k.contains(last)) by {
                if k.contains(last) {
                    assert(d.contains(last));
                }
            }
            assert(counts(keys) =~= counts(k).push(1)) by {
                assert forall|j: int| 0 <= j < d.len() implies counts(keys)[j] == counts(k)[j] by {
                    assert(d.contains(d[j]));
                }
            }
            assert(counts(k).push(1).drop_last() =~= counts(k));
        }
    }
}

/// Groups events by key.
pub fn group<K: Key>(keys: &Vec<K>) -> (groups: Vec<Vec<usize>>)
    ensures
        is_grouping(views(keys@), groups@),
{
    let ghost all = views(keys@);
    let n: usize = keys.len();
    let mut groups: Vec<Vec<usize>> = Vec::new();
    let mut i: usize = 0;
    assert(all.take(0) =~= Seq::<K::V>::empty());
    while i < n
        invariant
            i <= n == keys@.len(),
            all == views(keys@),
            is_grouping(all.take(i as int), groups@),
        decreases n - i,
    {
        let ghost prefix = all.take(i as int);
        let ghost longer = all.take(i + 1);
        let ghost d = distinct(prefix);
        let ghost key = all[i as int];
        proof {
            assert(longer.drop_last() =~= prefix);
            assert(longer.last() == key);
            lemma_distinct(prefix);
            lemma_grouping(prefix, groups@);
        }
        let mut g: usize = 0;
        while g < groups.len() && !keys[i].same(&keys[groups[g][0]])
            invariant
                i < n == keys@.len(),
                all == views(keys@),
                prefix == all.take(i as int),
                key == all[i as int],
                d == distinct(prefix),
                is_grouping(prefix, groups@),
                g <= groups@.len(),
                forall|h: int|
                    0 <= h < groups@.len() ==> (#[trigger] groups@[h])@.len() > 0
                        && groups@[h]@[0] < i && prefix[groups@[h]@[0] as int] == d[h],
                forall|h: int| 0 <= h < g ==> #[trigger] d[h] != key,
            decreases groups@.len() - g,
        {
            assert(groups@[g as int]@.len() > 0);
            assert(all[groups@[g as int]@[0] as int] == prefix[groups@[g as int]@[0] as int]);
            g = g + 1;
        }
        let ghost before = groups@;
        if g < groups.len() {
            assert(d[g as int] == key) by {
                assert(all[groups@[g as int]@[0] as int] == prefix[groups@[g as int]@[0] as int]);
            }
            groups[g].push(i);
            proof {
                assert(d.contains(key));
                assert forall|h: int| 0 <= h < groups@.len() implies crate::rank::positions(
                    (#[trigger] groups@[h])@,
                ) == members(longer, distinct(longer)[h]) by {
                    if h == g {
                        assert(crate::rank::positions(groups@[h]@) =~= crate::rank::positions(
                            before[h]@,
                        ).push(i as int));
                    } else {
                        assert(d[h] != key);
                        assert(groups@[h] == before[h]);
                    }
                }
            }
        } else {
            let mut fresh: Vec<usize> = Vec::new();
            fresh.push(i);
            groups.push(fresh);
            proof {
                assert(!d.contains(key));
                lemma_members(prefix, key);
                assert(members(prefix, key) =~= Seq::<int>::empty());
                assert forall|h: int| 0 <= h < groups@.len() implies crate::rank::positions(
                    (#[trigger] groups@[h])@,
                ) == members(longer, distinct(longer)[h]) by {
                    if h == g {
                        assert(crate::rank::positions(groups@[h]@) =~= members(prefix, key).push(
                            i as int,
                        ));
                    } else {
                        assert(d.contains(d[h]));
                        assert(groups@[h] == before[h]);
                    }
                }
            }
        }
        i = i + 1;
    }
    assert(all.take(n as int) =~= all);
    groups
}

} // verus!
