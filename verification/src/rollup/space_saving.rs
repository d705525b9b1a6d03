//! Space-Saving: the heaviest values of a stream in bounded memory.
//!
//! At most `capacity` values are tracked. A new value takes the place of the lightest one
//! and starts from its count.

use vstd::prelude::*;

use crate::order;
use crate::sorting;
use crate::sorting::sort_by_rank;
use crate::strmap;
use crate::strmap::StrMap;

verus! {

/// One more than the largest count; counts wrap around at it.
pub open spec fn count_limit() -> int {
    0x1_0000_0000_0000_0000
}

/// `a + b` as counts add.
pub open spec fn count_sum(a: u64, b: u64) -> u64 {
    ((a + b) % count_limit()) as u64
}

/// `k` has the least count, and the least key among those that do.
pub open spec fn is_lightest(m: Map<Seq<char>, u64>, k: Seq<char>) -> bool {
    &&& m.dom().contains(k)
    &&& forall|j: Seq<char>| #[trigger]
        m.dom().contains(j) ==> m[k] < m[j] || (m[k] == m[j] && !order::text_lt(j, k))
}

/// The counts after one more `item`.
pub open spec fn observed(m: Map<Seq<char>, u64>, capacity: nat, item: Seq<char>) -> Map<
    Seq<char>,
    u64,
> {
    if m.dom().contains(item) {
        m.insert(item, count_sum(m[item], 1))
    } else if m.dom().len() < capacity {
        m.insert(item, 1)
    } else {
        let k = choose|k: Seq<char>| is_lightest(m, k);
        m.remove(k).insert(item, count_sum(m[k], 1))
    }
}

pub open spec fn lightness() -> spec_fn((Seq<char>, u64)) -> int {
    |e: (Seq<char>, u64)| -(e.1 as int)
}

/// The entries of `m` by descending count, those of one count by ascending key.
pub open spec fn ranking(m: Map<Seq<char>, u64>) -> Seq<(Seq<char>, u64)> {
    choose|s: Seq<(Seq<char>, u64)>| sorting::is_stable_sort(s, strmap::listing(m), lightness())
}

pub open spec fn first<T>(s: Seq<T>, k: nat) -> Seq<T> {
    if k < s.len() {
        s.take(k as int)
    } else {
        s
    }
}

/// The counts of two maps added up.
pub open spec fn summed(a: Map<Seq<char>, u64>, b: Map<Seq<char>, u64>) -> Map<Seq<char>, u64> {
    Map::new(
        |k: Seq<char>| a.dom().contains(k) || b.dom().contains(k),
        |k: Seq<char>|
            if a.dom().contains(k) && b.dom().contains(k) {
                count_sum(a[k], b[k])
            } else if a.dom().contains(k) {
                a[k]
            } else {
                b[k]
            },
    )
}

/// Adds up two counts.
pub fn add_counts(a: u64, b: u64) -> (r: u64)
    ensures
        r == count_sum(a, b),
{
    a.wrapping_add(b)
}

/// Adds the counts of one map to another.
pub fn add_all(counts: &mut StrMap<u64>, other: &StrMap<u64>)
    ensures
        final(counts)@ == summed(old(counts)@, other@),
{
    let n: usize = other.len();
    let ghost start = counts@;
    let ghost all = strmap::listing(other@);
    let mut i: usize = 0;
    while i < n
        invariant
            i <= n,
            n == all.len(),
            all == strmap::listing(other@),
            strmap::is_listing(all, other@),
            forall|k: Seq<char>| #[trigger]
                counts@.dom().contains(k) <==> start.dom().contains(k) || strmap::lists(
                    all.take(i as int),
                    k,
                ),
            forall|k: Seq<char>| #[trigger]
                counts@.dom().contains(k) ==> counts@[k] == if strmap::lists(
                    all.take(i as int),
                    k,
                ) {
                    summed(start, other@)[k]
                } else {
                    start[k]
                },
        decreases n - i,
    {
        let (key, count) = other.at(i);
        let ghost k = key@;
        let ghost before = counts@;
        proof {
            assert(other@.dom().contains(all[i as int].0));
            strmap::lemma_lists_step(all, i as int);
            assert(!strmap::lists(all.take(i as int), k)) by {
                if strmap::lists(all.take(i as int), k) {
                    let j = choose|j: int| 0 <= j < i && (#[trigger] all.take(i as int)[j]).0 == k;
                    assert(all[j].0 == k);
                    assert(order::text_lt(all[j].0, all[i as int].0));
                    order::lemma_text_order_total();
                }
            }
        }
        let had: Option<u64> = match counts.get(key.as_str()) {
            Some(c) => Some(*c),
            None => None,
        };
        let total: u64 = match had {
            Some(c) => add_counts(c, *count),
            None => *count,
        };
        counts.insert(key.as_str().to_string(), total);
        i = i + 1;
    }
    proof {
        assert(all.take(i as int) =~= all);
        assert forall|k: Seq<char>| counts@.dom().contains(k) == summed(start, other@).dom()
            .contains(k) by {
            if other@.dom().contains(k) {
                assert(strmap::lists(all, k));
            }
            if strmap::lists(all, k) {
                let j = choose|j: int| 0 <= j < all.len() && (#[trigger] all[j]).0 == k;
                assert(other@.dom().contains(all[j].0));
            }
        }
        assert forall|k: Seq<char>| counts@.dom().contains(k) implies counts@[k] == summed(
            start,
            other@,
        )[k] by {
            if other@.dom().contains(k) {
                assert(strmap::lists(all, k));
            }
        }
        assert(counts@ =~= summed(start, other@));
    }
}

/// The entries of a map by descending count, those of one count by ascending key.
fn ranked(counts: &StrMap<u64>) -> (r: Vec<(i128, (String, u64))>)
    ensures
        entry_views(r@) == ranking(counts@),
        r@.len() == strmap::listing(counts@).len(),
        sorting::is_stable_sort(ranking(counts@), strmap::listing(counts@), lightness()),
        strmap::is_listing(strmap::listing(counts@), counts@),
{
    let n: usize = counts.len();
    let ghost all = strmap::listing(counts@);
    let mut items: Vec<(i128, (String, u64))> = Vec::new();
    let mut i: usize = 0;
    while i < n
        invariant
            i <= n,
            n == all.len(),
            all == strmap::listing(counts@),
            items@.len() == i,
            forall|j: int|
                0 <= j < i ==> (#[trigger] items@[j]).0 == -(items@[j].1.1 as int) && (
                    items@[j].1.0@,
                    items@[j].1.1,
                ) == all[j],
        decreases n - i,
    {
        let (key, count) = counts.at(i);
        items.push((-(*count as i128), (key.as_str().to_string(), *count)));
        i = i + 1;
    }
    let ghost from = items@;
    let out: Vec<(i128, (String, u64))> = sort_by_rank(items);
    proof {
        let rank = |e: (String, u64)| -(e.1 as int);
        sorting::lemma_sorted_values(out@, from, rank);
        let vals = out@.map_values(|p: (i128, (String, u64))| p.1);
        let orig = from.map_values(|p: (i128, (String, u64))| p.1);
        let view = |e: (String, u64)| (e.0@, e.1);
        sorting::lemma_sort_mapped(vals, orig, rank, view, lightness());
        assert(vals.map_values(view) =~= entry_views(out@));
        assert(orig.map_values(view) =~= all);
        sorting::lemma_stable_sort_unique(entry_views(out@), ranking(counts@), all, lightness());
    }
    out
}

pub open spec fn entry_views(s: Seq<(i128, (String, u64))>) -> Seq<(Seq<char>, u64)> {
    s.map_values(|p: (i128, (String, u64))| (p.1.0@, p.1.1))
}

/// The views of named counts.
pub open spec fn count_views(s: Seq<(String, u64)>) -> Seq<(Seq<char>, u64)> {
    s.map_values(|p: (String, u64)| (p.0@, p.1))
}

/// The first `k` entries by descending count, those of one count by ascending key.
pub fn heaviest(counts: &StrMap<u64>, k: usize) -> (r: Vec<(String, u64)>)
    ensures
        count_views(r@) == first(ranking(counts@), k as nat),
        sorting::is_stable_sort(ranking(counts@), strmap::listing(counts@), lightness()),
        strmap::is_listing(strmap::listing(counts@), counts@),
{
    let sorted: Vec<(i128, (String, u64))> = ranked(counts);
    let ghost all = sorted@;
    let mut out: Vec<(String, u64)> = Vec::new();
    for p in it: sorted.into_iter()
        invariant
            it.seq() == all,
            out@.len() == if it.index() <= k {
                it.index()
            } else {
                k as int
            },
            forall|i: int| 0 <= i < out@.len() ==> #[trigger] out@[i] == all[i].1,
    {
        if out.len() < k {
            out.push(p.1);
        }
    }
    assert(count_views(out@) =~= first(entry_views(all), k as nat));
    out
}

/// The heaviest values of a stream.
#[derive(Debug, PartialEq)]
pub struct SpaceSaving {
    capacity: usize,
    counts: StrMap<u64>,
}

impl View for SpaceSaving {
    type V = Map<Seq<char>, u64>;

    closed spec fn view(&self) -> Map<Seq<char>, u64> {
        self.counts@
    }
}

impl SpaceSaving {
    /// How many values may be tracked.
    pub closed spec fn room(&self) -> nat {
        self.capacity as nat
    }

    /// A value that is not tracked can be taken in.
    pub open spec fn can_observe(&self) -> bool {
        self.room() > 0 || self@.dom().len() > 0
    }

    /// An empty sketch of that capacity.
    pub fn new(capacity: usize) -> (r: Self)
        ensures
            r@ == Map::<Seq<char>, u64>::empty(),
            r.room() == capacity,
    {
        SpaceSaving { capacity, counts: StrMap::new() }
    }

    /// A sketch with that capacity and those counts, as it was stored.
    pub fn from_parts(capacity: usize, counts: StrMap<u64>) -> (r: Self)
        ensures
            r@ == counts@,
            r.room() == capacity,
    {
        SpaceSaving { capacity, counts }
    }

    /// The capacity.
    pub fn capacity(&self) -> (n: usize)
        ensures
            n == self.room(),
    {
        self.capacity
    }

    /// The tracked values and their counts.
    pub fn counts(&self) -> (r: &StrMap<u64>)
        ensures
            r@ == self@,
    {
        &self.counts
    }

    /// Whether a value that is not tracked can be taken in.
    pub fn has_room(&self) -> (r: bool)
        ensures
            r == self.can_observe(),
    {
        self.capacity > 0 || !self.counts.is_empty()
    }

    fn lightest(&self) -> (r: String)
        requires
            self@.dom().len() > 0,
        ensures
            is_lightest(self@, r@),
    {
        let n: usize = self.counts.len();
        let ghost all = strmap::listing(self@);
        let mut best: usize = 0;
        let mut best_count: u64 = *self.counts.at(0).1;
        let mut i: usize = 1;
        while i < n
            invariant
                1 <= i <= n,
                best < i,
                n == all.len(),
                all == strmap::listing(self.counts@),
                best_count == all[best as int].1,
                forall|j: int| 0 <= j < i ==> best_count <= (#[trigger] all[j]).1,
                forall|j: int| 0 <= j < best ==> best_count < (#[trigger] all[j]).1,
            decreases n - i,
        {
            let count: u64 = *self.counts.at(i).1;
            assert(all[i as int].1 == count);
            if count < best_count {
                best = i;
                best_count = count;
            }
            i = i + 1;
        }
        let r: String = self.counts.at(best).0.as_str().to_string();
        proof {
            order::lemma_text_order_total();
            let m = self@;
            assert(m.dom().contains(all[best as int].0));
            assert forall|j: Seq<char>| #[trigger] m.dom().contains(j) implies m[r@] < m[j] || (
            m[r@] == m[j] && !order::text_lt(j, r@)) by {
                assert(strmap::lists(all, j));
                let p = choose|p: int| 0 <= p < all.len() && (#[trigger] all[p]).0 == j;
                assert(m[all[p].0] == all[p].1);
                if p > best {
                    assert(order::text_lt(all[best as int].0, all[p].0));
                }
            }
        }
        r
    }

    /// Counts one more `item`. If it is not tracked and there is no room, it replaces the
    /// lightest value, the least key of those, and goes on from its count.
    pub fn observe(&mut self, item: &str)
        requires
            old(self).can_observe(),
        ensures
            final(self)@ == observed(old(self)@, old(self).room(), item@),
            final(self).room() == old(self).room(),
    {
        let tracked_count: Option<u64> = match self.counts.get(item) {
            Some(c) => Some(*c),
            None => None,
        };
        match tracked_count {
            Some(c) => {
                self.counts.insert(item.to_string(), add_counts(c, 1));
                return;
            },
            None => {},
        }
        let n: usize = self.counts.len();
        if n < self.capacity {
            self.counts.insert(item.to_string(), 1);
            return;
        }
        let key: String = self.lightest();
        proof {
            let chosen = choose|k: Seq<char>| is_lightest(self@, k);
            lemma_lightest_unique(self@, chosen, key@);
        }
        let least: u64 = match self.counts.remove(key.as_str()) {
            Some(c) => c,
            None => 0,
        };
        self.counts.insert(item.to_string(), add_counts(least, 1));
    }

    /// The `k` heaviest values by descending count, those of one count by ascending key.
    pub fn top_k(&self, k: usize) -> (r: Vec<(String, u64)>)
        ensures
            count_views(r@) == first(ranking(self@), k as nat),
    {
        heaviest(&self.counts, k)
    }

    /// Adds up the counts of two sketches and keeps the heaviest that fit, of those with
    /// one count the least keys.
    pub fn merge_from(&mut self, other: &SpaceSaving)
        ensures
            final(self)@ == merged(old(self)@, other@, old(self).room()),
            final(self).room() == old(self).room(),
    {
        let mut combined: StrMap<u64> = self.counts.duplicate();
        add_all(&mut combined, &other.counts);
        let kept: Vec<(String, u64)> = heaviest(&combined, self.capacity);
        let ghost all = count_views(kept@);
        let mut counts: StrMap<u64> = StrMap::new();
        let mut i: usize = 0;
        proof {
            lemma_ranking_keys(combined@);
        }
        while i < kept.len()
            invariant
                i <= kept@.len(),
                all == count_views(kept@),
                distinct_keys(all),
                forall|k: Seq<char>| #[trigger]
                    counts@.dom().contains(k) <==> strmap::lists(all.take(i as int), k),
                forall|j: int| 0 <= j < i ==> counts@[(#[trigger] all[j]).0] == all[j].1,
            decreases kept.len() - i,
        {
            let e: &(String, u64) = &kept[i];
            assert(all[i as int] == (e.0@, e.1));
            proof {
                strmap::lemma_lists_step(all, i as int);
            }
            counts.insert(e.0.as_str().to_string(), e.1);
            i = i + 1;
        }
        proof {
            assert(all.take(i as int) =~= all);
            let want = strmap::map_of(all);
            assert forall|k: Seq<char>| counts@.dom().contains(k) implies counts@[k] == want[k] by {
                assert(strmap::lists(all, k));
                let j = choose|j: int| 0 <= j < all.len() && (#[trigger] all[j]).0 == k;
                assert(counts@[all[j].0] == all[j].1);
            }
            assert(counts@ =~= want);
        }
        self.counts = counts;
    }
}

pub open spec fn distinct_keys(s: Seq<(Seq<char>, u64)>) -> bool {
    forall|i: int, j: int| 0 <= i < j < s.len() ==> (#[trigger] s[i]).0 != (#[trigger] s[j]).0
}

proof fn lemma_lightest_unique(m: Map<Seq<char>, u64>, a: Seq<char>, b: Seq<char>)
    requires
        is_lightest(m, a),
        is_lightest(m, b),
    ensures
        a == b,
{
    order::lemma_text_order_total();
    assert(m.dom().contains(a) && m.dom().contains(b));
}

/// A ranking names no key twice.
proof fn lemma_ranking_keys(m: Map<Seq<char>, u64>)
    requires
        strmap::is_listing(strmap::listing(m), m),
        sorting::is_stable_sort(ranking(m), strmap::listing(m), lightness()),
    ensures
        distinct_keys(ranking(m)),
        forall|k: nat| distinct_keys(#[trigger] first(ranking(m), k)),
{
    order::lemma_text_order_total();
    let r = ranking(m);
    let all = strmap::listing(m);
    assert forall|i: int, j: int| 0 <= i < j < r.len() implies (#[trigger] r[i]).0
        != (#[trigger] r[j]).0 by {
        if r[i].0 == r[j].0 {
            sorting::lemma_stable_same_items(r, all, lightness());
            assert(all.contains(r[i]) && all.contains(r[j]));
            let p = choose|p: int| 0 <= p < all.len() && all[p] == r[i];
            let q = choose|q: int| 0 <= q < all.len() && all[q] == r[j];
            assert(m[all[p].0] == all[p].1);
            assert(m[all[q].0] == all[q].1);
            assert(lightness()(r[i]) == lightness()(r[j]));
            sorting::lemma_stable_order(r, all, lightness(), i, j);
            let (x, y) = choose|x: int, y: int|
                0 <= x < y < all.len() && #[trigger] all[x] == r[i] && #[trigger] all[y] == r[j];
            assert(order::text_lt(all[x].0, all[y].0));
        }
    }
}

/// A ranking lists every entry, heavier ones first, those of one count by key.
pub proof fn law_ranking(m: Map<Seq<char>, u64>)
    requires
        m.dom().finite(),
    ensures
        ranking(m).len() == m.dom().len(),
        forall|i: int|
            0 <= i < ranking(m).len() ==> m.dom().contains((#[trigger] ranking(m)[i]).0)
                && m[ranking(m)[i].0] == ranking(m)[i].1,
        forall|i: int, j: int|
            0 <= i < j < ranking(m).len() ==> (#[trigger] ranking(m)[i]).1 > (
            #[trigger] ranking(m)[j]).1 || (ranking(m)[i].1 == ranking(m)[j].1 && order::text_lt(
                ranking(m)[i].0,
                ranking(m)[j].0,
            )),
{
    strmap::lemma_listing_exists(m);
    let sorted = sorting::lemma_stable_sort_exists(strmap::listing(m), lightness());
    assert(sorting::is_stable_sort(ranking(m), strmap::listing(m), lightness()));
    lemma_ranked(ranking(m), strmap::listing(m), m);
}

proof fn lemma_ranked(
    r: Seq<(Seq<char>, u64)>,
    all: Seq<(Seq<char>, u64)>,
    m: Map<Seq<char>, u64>,
)
    requires
        strmap::is_listing(all, m),
        sorting::is_stable_sort(r, all, lightness()),
    ensures
        forall|i: int|
            0 <= i < r.len() ==> m.dom().contains((#[trigger] r[i]).0) && m[r[i].0] == r[i].1,
        forall|i: int, j: int|
            0 <= i < j < r.len() ==> (#[trigger] r[i]).1 > (#[trigger] r[j]).1 || (r[i].1 == r[j].1
                && order::text_lt(r[i].0, r[j].0)),
{
    sorting::lemma_stable_same_items(r, all, lightness());
    assert forall|i: int| 0 <= i < r.len() implies m.dom().contains((#[trigger] r[i]).0)
        && m[r[i].0] == r[i].1 by {
        assert(all.contains(r[i]));
        let p = choose|p: int| 0 <= p < all.len() && all[p] == r[i];
        assert(m.dom().contains(all[p].0));
    }
    assert forall|i: int, j: int| 0 <= i < j < r.len() implies (#[trigger] r[i]).1 > (
    #[trigger] r[j]).1 || (r[i].1 == r[j].1 && order::text_lt(r[i].0, r[j].0)) by {
        assert(lightness()(r[i]) <= lightness()(r[j]));
        if r[i].1 == r[j].1 {
            sorting::lemma_stable_order(r, all, lightness(), i, j);
            let (x, y) = choose|x: int, y: int|
                0 <= x < y < all.len() && #[trigger] all[x] == r[i] && #[trigger] all[y] == r[j];
            assert(order::text_lt(all[x].0, all[y].0));
        }
    }
}

/// Observing never tracks more values than fit, if no more were tracked before.
pub proof fn law_observe_stays_bounded(m: Map<Seq<char>, u64>, capacity: nat, item: Seq<char>)
    requires
        m.dom().finite(),
        m.dom().len() <= capacity,
        capacity > 0,
    ensures
        observed(m, capacity, item).dom().len() <= capacity,
        observed(m, capacity, item).dom().contains(item),
{
    if m.dom().len() > 0 {
        lemma_lightest_exists(m);
    }
}

/// A map that is not empty has a lightest key.
proof fn lemma_lightest_exists(m: Map<Seq<char>, u64>)
    requires
        m.dom().finite(),
        m.dom().len() > 0,
    ensures
        exists|k: Seq<char>| is_lightest(m, k),
    decreases m.dom().len(),
{
    order::lemma_text_order_total();
    let k = m.dom().choose();
    let rest = m.remove(k);
    if rest.dom().len() == 0 {
        assert(rest.dom() =~= Set::empty());
        assert forall|j: Seq<char>| #[trigger] m.dom().contains(j) implies j == k by {
            if j != k {
                assert(rest.dom().contains(j));
            }
        }
        assert(is_lightest(m, k));
    } else {
        lemma_lightest_exists(rest);
        let l = choose|l: Seq<char>| is_lightest(rest, l);
        assert(rest.dom().contains(l));
        let best = if m[k] < m[l] || (m[k] == m[l] && order::text_lt(k, l)) {
            k
        } else {
            l
        };
        assert forall|j: Seq<char>| #[trigger] m.dom().contains(j) implies m[best] < m[j] || (
        m[best] == m[j] && !order::text_lt(j, best)) by {
            if j != k {
                assert(rest.dom().contains(j));
            }
        }
        assert(is_lightest(m, best));
    }
}

/// A tracked value that is not the lightest stays tracked, and no count that stays
/// shrinks while counts stay below their limit.
pub proof fn law_heavier_values_survive(
    m: Map<Seq<char>, u64>,
    capacity: nat,
    item: Seq<char>,
    heavy: Seq<char>,
    light: Seq<char>,
)
    requires
        m.dom().contains(heavy),
        m.dom().contains(light),
        m[light] < m[heavy],
        m.dom().finite(),
        forall|k: Seq<char>| #[trigger] m.dom().contains(k) ==> m[k] < u64::MAX,
    ensures
        observed(m, capacity, item).dom().contains(heavy),
        observed(m, capacity, item)[heavy] >= m[heavy],
{
    assert(m.dom().len() > 0) by {
        if m.dom().len() == 0 {
            assert(m.dom() =~= Set::empty());
        }
    }
    lemma_lightest_exists(m);
    let k = choose|k: Seq<char>| is_lightest(m, k);
    assert(m.dom().contains(k));
}

/// The sum of all counts.
pub open spec fn total(m: Map<Seq<char>, u64>) -> int
    decreases m.dom().len(),
    when m.dom().finite()
{
    if m.dom().len() == 0 {
        0
    } else {
        let k = m.dom().choose();
        m[k] + total(m.remove(k))
    }
}

proof fn lemma_total_remove(m: Map<Seq<char>, u64>, x: Seq<char>)
    requires
        m.dom().finite(),
        m.dom().contains(x),
    ensures
        total(m) == m[x] + total(m.remove(x)),
    decreases m.dom().len(),
{
    let k = m.dom().choose();
    assert(m.dom().len() > 0) by {
        if m.dom().len() == 0 {
            assert(m.dom() =~= Set::empty());
        }
    }
    assert(m.dom().contains(k));
    if k != x {
        let a = m.remove(k);
        let b = m.remove(x);
        lemma_total_remove(a, x);
        lemma_total_remove(b, k);
        assert(a.remove(x) =~= b.remove(k));
    }
}

proof fn lemma_total_insert(m: Map<Seq<char>, u64>, x: Seq<char>, v: u64)
    requires
        m.dom().finite(),
    ensures
        total(m.insert(x, v)) == v + total(m.remove(x)),
{
    let n = m.insert(x, v);
    lemma_total_remove(n, x);
    assert(n.remove(x) =~= m.remove(x));
}

/// Every observation adds one to the sum of all counts, while they stay below their limit.
pub proof fn law_observe_adds_one(m: Map<Seq<char>, u64>, capacity: nat, item: Seq<char>)
    requires
        m.dom().finite(),
        capacity > 0 || m.dom().len() > 0,
        forall|k: Seq<char>| #[trigger] m.dom().contains(k) ==> m[k] < u64::MAX,
    ensures
        total(observed(m, capacity, item)) == total(m) + 1,
{
    if m.dom().contains(item) {
        lemma_total_insert(m, item, count_sum(m[item], 1));
        lemma_total_remove(m, item);
    } else if m.dom().len() < capacity {
        lemma_total_insert(m, item, 1);
        assert(m.remove(item) =~= m);
    } else {
        lemma_lightest_exists(m);
        let k = choose|k: Seq<char>| is_lightest(m, k);
        lemma_total_remove(m, k);
        let rest = m.remove(k);
        lemma_total_insert(rest, item, count_sum(m[k], 1));
        assert(rest.remove(item) =~= rest);
    }
}

/// How often a value comes in a stream.
pub open spec fn frequency(items: Seq<Seq<char>>, x: Seq<char>) -> nat
    decreases items.len(),
{
    if items.len() == 0 {
        0
    } else if items.last() == x {
        frequency(items.drop_last(), x) + 1
    } else {
        frequency(items.drop_last(), x)
    }
}

/// What is tracked after a stream, from an empty sketch on.
pub open spec fn counts_after(items: Seq<Seq<char>>, capacity: nat) -> Map<Seq<char>, u64>
    decreases items.len(),
{
    if items.len() == 0 {
        Map::empty()
    } else {
        observed(counts_after(items.drop_last(), capacity), capacity, items.last())
    }
}

/// A value comes at most as often as the stream is long, and at all if it is in it.
pub proof fn lemma_frequency_bound(items: Seq<Seq<char>>, x: Seq<char>)
    ensures
        frequency(items, x) <= items.len(),
        frequency(items, x) > 0 <==> items.contains(x),
    decreases items.len(),
{
    if items.len() > 0 {
        let rest = items.drop_last();
        lemma_frequency_bound(rest, x);
        if items.last() == x {
            assert(items[items.len() - 1] == x);
        } else if rest.contains(x) {
            let i = choose|i: int| 0 <= i < rest.len() && rest[i] == x;
            assert(items[i] == x);
        } else if items.contains(x) {
            let i = choose|i: int| 0 <= i < items.len() && items[i] == x;
            assert(rest[i] == x);
        }
    }
}

/// Whether the counts `m` bound how often values came in a stream: they add up to its
/// length, never fall short of how often their values came, and exceed it by no more than
/// any other count; a value that is not counted came no more often than any count says.
/// While there is room the counts are exact.
pub open spec fn bounds_frequencies(
    m: Map<Seq<char>, u64>,
    capacity: nat,
    items: Seq<Seq<char>>,
) -> bool {
    &&& m.dom().finite()
    &&& m.dom().len() <= capacity
    &&& total(m) == items.len()
    &&& forall|k: Seq<char>| #[trigger]
        m.dom().contains(k) ==> 1 <= frequency(items, k) <= m[k] <= items.len()
    &&& forall|k: Seq<char>, j: Seq<char>|
        #![trigger m.dom().contains(k), m.dom().contains(j)]
        m.dom().contains(k) && m.dom().contains(j) ==> m[k] <= frequency(items, k) + m[j]
    &&& forall|x: Seq<char>, j: Seq<char>|
        #![trigger frequency(items, x), m.dom().contains(j)]
        !m.dom().contains(x) && m.dom().contains(j) ==> frequency(items, x) <= m[j]
    &&& m.dom().len() < capacity ==> forall|x: Seq<char>| #[trigger]
        frequency(items, x) == (if m.dom().contains(x) {
            m[x] as nat
        } else {
            0
        })
}

/// Observing a value keeps the counts within the bounds that they had.
proof fn lemma_observe_keeps_bounds(
    before: Map<Seq<char>, u64>,
    capacity: nat,
    items: Seq<Seq<char>>,
)
    requires
        capacity > 0,
        0 < items.len() <= u64::MAX,
        bounds_frequencies(before, capacity, items.drop_last()),
    ensures
        bounds_frequencies(observed(before, capacity, items.last()), capacity, items),
{
    let rest = items.drop_last();
    let item = items.last();
    let m = observed(before, capacity, item);
    lemma_frequency_bound(rest, item);
    assert forall|x: Seq<char>| #[trigger] frequency(items, x) == frequency(rest, x) + (if x
        == item {
        1nat
    } else {
        0
    }) by {}
    assert forall|k: Seq<char>| #[trigger] before.dom().contains(k) implies before[k]
        < u64::MAX by {
        assert(before[k] <= rest.len());
    }
    law_observe_adds_one(before, capacity, item);
    law_observe_stays_bounded(before, capacity, item);
    if before.dom().contains(item) {
        assert(m == before.insert(item, (before[item] + 1) as u64));
        assert(m.dom() =~= before.dom());
    } else if before.dom().len() < capacity {
        assert(frequency(rest, item) == 0);
        assert(m == before.insert(item, 1));
    } else {
        lemma_lightest_exists(before);
        let light = choose|k: Seq<char>| is_lightest(before, k);
        assert(before.dom().contains(light));
        assert(m.dom() =~= before.dom().remove(light).insert(item));
        assert forall|j: Seq<char>| #[trigger] m.dom().contains(j) implies before[light]
            <= m[j] by {
            if j != item {
                assert(before.dom().contains(j));
            }
        }
    }
}

/// The counts of a sketch bound how often the values of its stream came.
pub proof fn law_counts_bound_frequencies(items: Seq<Seq<char>>, capacity: nat)
    requires
        capacity > 0,
        items.len() <= u64::MAX,
    ensures
        bounds_frequencies(counts_after(items, capacity), capacity, items),
    decreases items.len(),
{
    if items.len() == 0 {
        assert(counts_after(items, capacity).dom() =~= Set::empty());
    } else {
        law_counts_bound_frequencies(items.drop_last(), capacity);
        lemma_observe_keeps_bounds(
            counts_after(items.drop_last(), capacity),
            capacity,
            items,
        );
    }
}

proof fn lemma_total_at_least(m: Map<Seq<char>, u64>, least: nat)
    requires
        m.dom().finite(),
        forall|k: Seq<char>| #[trigger] m.dom().contains(k) ==> m[k] >= least,
    ensures
        total(m) >= m.dom().len() * least,
    decreases m.dom().len(),
{
    if m.dom().len() > 0 {
        let k = m.dom().choose();
        let rest = m.remove(k);
        assert(m.dom().contains(k)) by {
            if !m.dom().contains(k) {
                assert(m.dom() =~= Set::empty());
            }
        }
        assert(rest.dom() =~= m.dom().remove(k));
        lemma_total_at_least(rest, least);
        assert((m.dom().len() - 1) * least + least == m.dom().len() * least) by (nonlinear_arith);
    }
}

/// A value that makes up more than one part in `capacity` of a stream is tracked at its
/// end, however many other values came.
pub proof fn law_heavy_hitters_are_tracked(
    items: Seq<Seq<char>>,
    capacity: nat,
    x: Seq<char>,
)
    requires
        capacity > 0,
        items.len() <= u64::MAX,
        frequency(items, x) * capacity > items.len(),
    ensures
        counts_after(items, capacity).dom().contains(x),
{
    law_counts_bound_frequencies(items, capacity);
    let m = counts_after(items, capacity);
    if !m.dom().contains(x) {
        let f = frequency(items, x);
        assert(f > 0) by {
            if f == 0 {
                assert(f * capacity == 0) by (nonlinear_arith)
                    requires
                        f == 0,
                ;
            }
        }
        assert(m.dom().len() == capacity);
        assert forall|k: Seq<char>| #[trigger] m.dom().contains(k) implies m[k] >= f by {
            assert(frequency(items, x) <= m[k]);
        }
        lemma_total_at_least(m, f);
        assert(capacity * f == f * capacity) by (nonlinear_arith);
    }
}

/// A stream of no more different values than fit is counted exactly.
pub proof fn law_few_values_are_counted_exactly(items: Seq<Seq<char>>, capacity: nat)
    requires
        items.len() <= u64::MAX,
        items.to_set().len() <= capacity,
    ensures
        counts_after(items, capacity).dom() == items.to_set(),
        forall|x: Seq<char>| #[trigger]
            counts_after(items, capacity).dom().contains(x) ==> counts_after(items, capacity)[x]
                == frequency(items, x),
    decreases items.len(),
{
    broadcast use vstd::seq_lib::seq_to_set_is_finite;
    if items.len() == 0 {
        assert(counts_after(items, capacity).dom() =~= items.to_set());
    } else {
        let rest = items.drop_last();
        let item = items.last();
        assert(items.to_set() =~= rest.to_set().insert(item)) by {
            assert forall|x: Seq<char>| items.to_set().contains(x) == rest.to_set().insert(
                item,
            ).contains(x) by {
                lemma_frequency_bound(items, x);
                lemma_frequency_bound(rest, x);
                assert(items.to_set().contains(x) == items.contains(x));
                assert(rest.to_set().contains(x) == rest.contains(x));
            }
        }
        law_few_values_are_counted_exactly(rest, capacity);
        lemma_frequency_bound(rest, item);
        assert(rest.to_set().contains(item) == rest.contains(item));
        let before = counts_after(rest, capacity);
        assert(counts_after(items, capacity) == observed(before, capacity, item));
        assert(counts_after(items, capacity).dom() =~= items.to_set());
    }
}

/// Adding up counts does not depend on the order of the two maps, nor on the grouping of
/// three.
pub proof fn law_sums_commute(
    a: Map<Seq<char>, u64>,
    b: Map<Seq<char>, u64>,
    c: Map<Seq<char>, u64>,
)
    ensures
        summed(a, b) == summed(b, a),
        summed(summed(a, b), c) == summed(a, summed(b, c)),
        summed(a, Map::empty()) == a,
{
    assert(summed(a, b) =~= summed(b, a));
    let l = summed(summed(a, b), c);
    let r = summed(a, summed(b, c));
    assert forall|k: Seq<char>| l.dom().contains(k) implies l[k] == r[k] by {
        lemma_count_sum(a[k], b[k], c[k]);
    }
    assert(l =~= r);
    assert(summed(a, Map::empty()) =~= a);
}

proof fn lemma_count_sum(a: u64, b: u64, c: u64)
    ensures
        count_sum(count_sum(a, b), c) == count_sum(a, count_sum(b, c)),
{
}

/// What a merge keeps.
pub open spec fn merged(
    a: Map<Seq<char>, u64>,
    b: Map<Seq<char>, u64>,
    capacity: nat,
) -> Map<Seq<char>, u64> {
    strmap::map_of(first(ranking(summed(a, b)), capacity))
}

/// A merge keeps as many values as fit, with their summed counts, and none that it drops
/// is heavier than one that it keeps.
pub proof fn law_merge_keeps_the_heaviest(
    a: Map<Seq<char>, u64>,
    b: Map<Seq<char>, u64>,
    capacity: nat,
)
    requires
        a.dom().finite(),
        b.dom().finite(),
    ensures
        forall|k: Seq<char>| #[trigger]
            merged(a, b, capacity).dom().contains(k) ==> summed(a, b).dom().contains(k) && merged(
                a,
                b,
                capacity,
            )[k] == summed(a, b)[k],
        forall|k: Seq<char>, j: Seq<char>|
            #![trigger merged(a, b, capacity).dom().contains(k), summed(a, b).dom().contains(j)]
            merged(a, b, capacity).dom().contains(k) && summed(a, b).dom().contains(j) && !merged(
                a,
                b,
                capacity,
            ).dom().contains(j) ==> summed(a, b)[j] <= summed(a, b)[k],
        summed(a, b).dom().len() <= capacity ==> merged(a, b, capacity) == summed(a, b),
{
    let m = summed(a, b);
    assert(m.dom() =~= a.dom().union(b.dom()));
    law_ranking(m);
    strmap::lemma_listing_exists(m);
    let sorted = sorting::lemma_stable_sort_exists(strmap::listing(m), lightness());
    assert(sorting::is_stable_sort(ranking(m), strmap::listing(m), lightness()));
    let r = ranking(m);
    let kept = first(r, capacity);
    let out = merged(a, b, capacity);
    assert forall|i: int| 0 <= i < kept.len() implies (#[trigger] kept[i]) == r[i] by {}
    assert forall|k: Seq<char>| #[trigger] out.dom().contains(k) implies m.dom().contains(k)
        && out[k] == m[k] by {
        let i = choose|i: int| 0 <= i < kept.len() && (#[trigger] kept[i]).0 == k;
        assert(kept[i] == r[i]);
    }
    assert forall|j: Seq<char>| #[trigger] m.dom().contains(j) implies strmap::lists(r, j) by {
        sorting::lemma_stable_same_items(r, strmap::listing(m), lightness());
        assert(strmap::lists(strmap::listing(m), j));
        let p = choose|p: int|
            0 <= p < strmap::listing(m).len() && (#[trigger] strmap::listing(m)[p]).0 == j;
        assert(r.contains(strmap::listing(m)[p]));
        let i = choose|i: int| 0 <= i < r.len() && r[i] == strmap::listing(m)[p];
        assert(r[i].0 == j);
    }
    assert forall|k: Seq<char>, j: Seq<char>|
        #![trigger out.dom().contains(k), m.dom().contains(j)]
        out.dom().contains(k) && m.dom().contains(j) && !out.dom().contains(j) implies m[j]
        <= m[k] by {
        let i = choose|i: int| 0 <= i < kept.len() && (#[trigger] kept[i]).0 == k;
        assert(kept[i] == r[i]);
        assert(strmap::lists(r, j));
        let p = choose|p: int| 0 <= p < r.len() && (#[trigger] r[p]).0 == j;
        if p < kept.len() {
            assert(kept[p].0 == j);
            assert(strmap::lists(kept, j));
        }
        assert(i < p);
    }
    if m.dom().len() <= capacity {
        assert(kept == r);
        assert forall|k: Seq<char>| out.dom().contains(k) == m.dom().contains(k) by {
            if m.dom().contains(k) {
                assert(strmap::lists(r, k));
            }
        }
        assert(out =~= m);
    }
}

/// One more value counts one more: a value that is tracked by one, a new one from one where
/// there is room, and where there is none it takes the place of a value of the least count
/// and goes on from that count. All other counts stay.
pub proof fn law_one_more_value(m: Map<Seq<char>, u64>, capacity: nat, item: Seq<char>)
    requires
        m.dom().finite(),
        capacity > 0 || m.dom().len() > 0,
        forall|k: Seq<char>| #[trigger] m.dom().contains(k) ==> m[k] < u64::MAX,
    ensures
        m.dom().contains(item) ==> observed(m, capacity, item) == m.insert(
            item,
            (m[item] + 1) as u64,
        ),
        !m.dom().contains(item) && m.dom().len() < capacity ==> observed(m, capacity, item)
            == m.insert(item, 1),
        !m.dom().contains(item) && m.dom().len() >= capacity ==> exists|k: Seq<char>|
            {
                &&& #[trigger] m.dom().contains(k)
                &&& observed(m, capacity, item) == m.remove(k).insert(item, (m[k] + 1) as u64)
                &&& forall|j: Seq<char>| #[trigger]
                    m.dom().contains(j) ==> m[k] <= m[j] && (m[k] == m[j] ==> j == k
                        || order::text_lt(k, j))
            },
{
    order::lemma_text_order_total();
    if !m.dom().contains(item) && m.dom().len() >= capacity {
        lemma_lightest_exists(m);
        let k = choose|k: Seq<char>| is_lightest(m, k);
        assert(m.dom().contains(k));
        assert(observed(m, capacity, item) == m.remove(k).insert(item, (m[k] + 1) as u64));
    }
}

/// Counts of two maps add up key by key, wrapping around at 64 bits.
pub proof fn law_counts_add_up(a: Map<Seq<char>, u64>, b: Map<Seq<char>, u64>, k: Seq<char>)
    ensures
        summed(a, b).dom().contains(k) <==> a.dom().contains(k) || b.dom().contains(k),
        a.dom().contains(k) && !b.dom().contains(k) ==> summed(a, b)[k] == a[k],
        b.dom().contains(k) && !a.dom().contains(k) ==> summed(a, b)[k] == b[k],
        a.dom().contains(k) && b.dom().contains(k) && a[k] + b[k] <= u64::MAX ==> summed(a, b)[k]
            == a[k] + b[k],
        a.dom().contains(k) && b.dom().contains(k) && a[k] + b[k] > u64::MAX ==> summed(a, b)[k]
            == a[k] + b[k] - u64::MAX - 1,
{
}

/// The first items of a list: as many as asked for, or all, unchanged and in their order.
pub proof fn law_first_items<T>(s: Seq<T>, k: nat)
    ensures
        first(s, k).is_prefix_of(s),
        first(s, k).len() == if k < s.len() {
            k
        } else {
            s.len()
        },
{
    assert(s.take(s.len() as int) =~= s);
}

/// A sketch takes in a new value where it has room for any, or holds one that can give way.
pub proof fn law_room_for_a_new_value(s: SpaceSaving, k: Seq<char>)
    requires
        s@.dom().finite(),
    ensures
        s.room() > 0 ==> s.can_observe(),
        s@.dom().contains(k) ==> s.can_observe(),
        s.room() == 0 && s@ == Map::<Seq<char>, u64>::empty() ==> !s.can_observe(),
{
    if s@.dom().contains(k) && s@.dom().len() == 0 {
        assert(s@.dom() =~= Set::empty());
    }
}

} // verus!
