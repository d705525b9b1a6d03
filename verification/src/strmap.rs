//! Maps from texts to values, walked in the order of their keys.

use vstd::prelude::*;

use crate::order;
use crate::order::{order_of_texts, Order};

verus! {

/// `pairs` holds the entries of `m`, each once, by ascending key.
pub open spec fn is_listing<V>(pairs: Seq<(Seq<char>, V)>, m: Map<Seq<char>, V>) -> bool {
    &&& ascending(pairs)
    &&& forall|i: int|
        0 <= i < pairs.len() ==> m.dom().contains((#[trigger] pairs[i]).0) && m[pairs[i].0]
            == pairs[i].1
    &&& forall|k: Seq<char>| #[trigger] m.dom().contains(k) ==> lists(pairs, k)
}

pub open spec fn ascending<V>(pairs: Seq<(Seq<char>, V)>) -> bool {
    forall|i: int, j: int|
        0 <= i < j < pairs.len() ==> order::text_lt((#[trigger] pairs[i]).0, (#[trigger] pairs[j]).0)
}

pub open spec fn lists<V>(pairs: Seq<(Seq<char>, V)>, k: Seq<char>) -> bool {
    exists|i: int| 0 <= i < pairs.len() && (#[trigger] pairs[i]).0 == k
}

/// The entries of a finite map by ascending key.
pub open spec fn listing<V>(m: Map<Seq<char>, V>) -> Seq<(Seq<char>, V)> {
    choose|pairs: Seq<(Seq<char>, V)>| is_listing(pairs, m)
}

/// A map has one listing.
pub proof fn lemma_listing_unique<V>(
    a: Seq<(Seq<char>, V)>,
    b: Seq<(Seq<char>, V)>,
    m: Map<Seq<char>, V>,
)
    requires
        is_listing(a, m),
        is_listing(b, m),
    ensures
        a == b,
{
    assert forall|i: int| 0 <= i < a.len() implies i < b.len() && a[i] == b[i] by {
        lemma_listing_at(a, b, m, i);
    }
    assert forall|i: int| 0 <= i < b.len() implies i < a.len() && a[i] == b[i] by {
        lemma_listing_at(b, a, m, i);
    }
    if a.len() < b.len() {
        assert(b[a.len() as int] == b[a.len() as int]);
    }
    if b.len() < a.len() {
        assert(a[b.len() as int] == a[b.len() as int]);
    }
    assert(a =~= b);
}

proof fn lemma_listing_at<V>(
    a: Seq<(Seq<char>, V)>,
    b: Seq<(Seq<char>, V)>,
    m: Map<Seq<char>, V>,
    i: int,
)
    requires
        is_listing(a, m),
        is_listing(b, m),
        0 <= i < a.len(),
    ensures
        i < b.len(),
        a[i] == b[i],
    decreases i,
{
    order::lemma_text_order_total();
    assert forall|j: int| 0 <= j < i implies j < b.len() && a[j] == b[j] by {
        lemma_listing_at(a, b, m, j);
    }
    assert(m.dom().contains(a[i].0));
    assert(lists(b, a[i].0));
    let t = choose|t: int| 0 <= t < b.len() && (#[trigger] b[t]).0 == a[i].0;
    if t < i {
        assert(a[t] == b[t]);
        assert(order::text_lt(a[t].0, a[i].0));
    }
    if t > i {
        assert(order::text_lt(b[i].0, b[t].0));
        assert(m.dom().contains(b[i].0));
        assert(lists(a, b[i].0));
        let u = choose|u: int| 0 <= u < a.len() && (#[trigger] a[u]).0 == b[i].0;
        if u < i {
            assert(a[u] == b[u]);
            assert(order::text_lt(b[u].0, b[i].0));
        } else if u > i {
            assert(order::text_lt(a[i].0, a[u].0));
        }
    }
}

/// The listing of a map is what any listing of it is.
pub proof fn lemma_listing_is<V>(pairs: Seq<(Seq<char>, V)>, m: Map<Seq<char>, V>)
    requires
        is_listing(pairs, m),
    ensures
        listing(m) == pairs,
        m.dom().finite(),
        m.dom().len() == pairs.len(),
{
    lemma_listing_unique(listing(m), pairs, m);
    lemma_listing_len(pairs, m);
}

proof fn lemma_listing_len<V>(pairs: Seq<(Seq<char>, V)>, m: Map<Seq<char>, V>)
    requires
        is_listing(pairs, m),
    ensures
        m.dom().finite(),
        m.dom().len() == pairs.len(),
    decreases pairs.len(),
{
    order::lemma_text_order_total();
    if pairs.len() == 0 {
        assert(m.dom() =~= Set::empty()) by {
            assert forall|k: Seq<char>| !m.dom().contains(k) by {
                if m.dom().contains(k) {
                    assert(lists(pairs, k));
                }
            }
        }
    } else {
        let last = pairs.last();
        let rest = pairs.drop_last();
        let smaller = m.remove(last.0);
        assert forall|i: int| 0 <= i < rest.len() implies smaller.dom().contains(
            (#[trigger] rest[i]).0,
        ) && smaller[rest[i].0] == rest[i].1 by {
            assert(rest[i] == pairs[i]);
            assert(order::text_lt(pairs[i].0, pairs[pairs.len() - 1].0));
        }
        assert forall|k: Seq<char>| #[trigger] smaller.dom().contains(k) implies lists(rest, k) by {
            assert(m.dom().contains(k));
            assert(lists(pairs, k));
            let i = choose|i: int| 0 <= i < pairs.len() && (#[trigger] pairs[i]).0 == k;
            assert(rest[i].0 == k);
        }
        assert forall|i: int, j: int| 0 <= i < j < rest.len() implies order::text_lt(
            (#[trigger] rest[i]).0,
            (#[trigger] rest[j]).0,
        ) by {
            assert(order::text_lt(pairs[i].0, pairs[j].0));
        }
        lemma_listing_len(rest, smaller);
        assert(m.dom().contains(pairs[pairs.len() - 1].0));
        assert(m.dom() =~= smaller.dom().insert(last.0));
    }
}

/// Every finite map has a listing.
pub proof fn lemma_listing_exists<V>(m: Map<Seq<char>, V>)
    requires
        m.dom().finite(),
    ensures
        is_listing(listing(m), m),
        listing(m).len() == m.dom().len(),
    decreases m.dom().len(),
{
    order::lemma_text_order_total();
    if m.dom().len() == 0 {
        let none = Seq::<(Seq<char>, V)>::empty();
        assert(m.dom() =~= Set::empty());
        assert(is_listing(none, m));
        lemma_listing_is(none, m);
    } else {
        let k = m.dom().choose();
        let rest = m.remove(k);
        lemma_listing_exists(rest);
        let pairs = listing(rest);
        let at = lemma_place(pairs, k, pairs.len() as int);
        let out = pairs.insert(at, (k, m[k]));
        assert forall|i: int| 0 <= i < pairs.len() implies (#[trigger] pairs[i]).0 != k by {
            assert(rest.dom().contains(pairs[i].0));
        }
        assert forall|i: int, j: int| 0 <= i < j < out.len() implies order::text_lt(
            (#[trigger] out[i]).0,
            (#[trigger] out[j]).0,
        ) by {
            let p = if i < at { i } else { i - 1 };
            let q = if j < at { j } else { j - 1 };
            if i != at {
                assert(out[i] == pairs[p]);
            }
            if j != at {
                assert(out[j] == pairs[q]);
            }
            if j == at {
                assert(!order::text_lt(k, pairs[at - 1].0));
                assert(order::text_lt(pairs[at - 1].0, k));
                if p < at - 1 {
                    assert(order::text_lt(pairs[p].0, pairs[at - 1].0));
                }
            }
        }
        assert forall|i: int| 0 <= i < out.len() implies m.dom().contains((#[trigger] out[i]).0)
            && m[out[i].0] == out[i].1 by {
            if i != at {
                let p = if i < at { i } else { i - 1 };
                assert(out[i] == pairs[p]);
                assert(rest.dom().contains(pairs[p].0));
            }
        }
        assert forall|x: Seq<char>| #[trigger] m.dom().contains(x) implies lists(out, x) by {
            if x == k {
                assert(out[at].0 == x);
            } else {
                assert(rest.dom().contains(x));
                assert(lists(pairs, x));
                let p = choose|p: int| 0 <= p < pairs.len() && (#[trigger] pairs[p]).0 == x;
                let i = if p < at { p } else { p + 1 };
                assert(out[i].0 == x);
            }
        }
        lemma_listing_is(out, m);
    }
}

proof fn lemma_place<V>(pairs: Seq<(Seq<char>, V)>, k: Seq<char>, from: int) -> (at: int)
    requires
        0 <= from <= pairs.len(),
        forall|i: int| from <= i < pairs.len() ==> order::text_lt(k, (#[trigger] pairs[i]).0),
    ensures
        0 <= at <= pairs.len(),
        forall|i: int| at <= i < pairs.len() ==> order::text_lt(k, (#[trigger] pairs[i]).0),
        at > 0 ==> !order::text_lt(k, pairs[at - 1].0),
    decreases from,
{
    if from > 0 && order::text_lt(k, pairs[from - 1].0) {
        lemma_place(pairs, k, from - 1)
    } else {
        from
    }
}

/// The keys of one more entry.
pub proof fn lemma_lists_step<V>(pairs: Seq<(Seq<char>, V)>, i: int)
    requires
        0 <= i < pairs.len(),
    ensures
        forall|k: Seq<char>| #[trigger]
            lists(pairs.take(i + 1), k) <==> lists(pairs.take(i), k) || k == pairs[i].0,
{
    assert forall|k: Seq<char>| #[trigger] lists(pairs.take(i + 1), k) <==> lists(pairs.take(i), k)
        || k == pairs[i].0 by {
        if lists(pairs.take(i + 1), k) {
            let j = choose|j: int| 0 <= j < i + 1 && (#[trigger] pairs.take(i + 1)[j]).0 == k;
            if j < i {
                assert(pairs.take(i)[j].0 == k);
            }
        }
        if lists(pairs.take(i), k) {
            let j = choose|j: int| 0 <= j < i && (#[trigger] pairs.take(i)[j]).0 == k;
            assert(pairs.take(i + 1)[j].0 == k);
        }
        if k == pairs[i].0 {
            assert(pairs.take(i + 1)[i].0 == k);
        }
    }
}

/// A map from texts to values, kept by ascending key.
#[derive(Debug, PartialEq)]
pub struct StrMap<V> {
    entries: Vec<(String, V)>,
}

spec fn pairs_of<V>(entries: Seq<(String, V)>) -> Seq<(Seq<char>, V)> {
    entries.map_values(|e: (String, V)| (e.0@, e.1))
}

/// The map that a listing lists.
pub open spec fn map_of<V>(pairs: Seq<(Seq<char>, V)>) -> Map<Seq<char>, V> {
    Map::new(
        |k: Seq<char>| lists(pairs, k),
        |k: Seq<char>| pairs[choose|i: int| 0 <= i < pairs.len() && (#[trigger] pairs[i]).0 == k].1,
    )
}

pub proof fn lemma_map_of<V>(pairs: Seq<(Seq<char>, V)>)
    requires
        ascending(pairs),
    ensures
        is_listing(pairs, map_of(pairs)),
{
    order::lemma_text_order_total();
    let m = map_of(pairs);
    assert forall|i: int| 0 <= i < pairs.len() implies m.dom().contains((#[trigger] pairs[i]).0)
        && m[pairs[i].0] == pairs[i].1 by {
        let k = pairs[i].0;
        assert(lists(pairs, k));
        let j = choose|j: int| 0 <= j < pairs.len() && (#[trigger] pairs[j]).0 == k;
        if i < j {
            assert(order::text_lt(pairs[i].0, pairs[j].0));
        } else if j < i {
            assert(order::text_lt(pairs[j].0, pairs[i].0));
        }
    }
}

/// Two maps with the same listing are the same map.
pub proof fn lemma_same_listing<V>(pairs: Seq<(Seq<char>, V)>, a: Map<Seq<char>, V>, b: Map<Seq<char>, V>)
    requires
        is_listing(pairs, a),
        is_listing(pairs, b),
    ensures
        a == b,
{
    assert forall|k: Seq<char>| a.dom().contains(k) == b.dom().contains(k) by {
        if a.dom().contains(k) {
            assert(lists(pairs, k));
        }
        if b.dom().contains(k) {
            assert(lists(pairs, k));
        }
    }
    assert forall|k: Seq<char>| a.dom().contains(k) implies a[k] == b[k] by {
        assert(lists(pairs, k));
        let i = choose|i: int| 0 <= i < pairs.len() && (#[trigger] pairs[i]).0 == k;
        assert(pairs[i].0 == k);
    }
    assert(a =~= b);
}

impl<V> View for StrMap<V> {
    type V = Map<Seq<char>, V>;

    closed spec fn view(&self) -> Map<Seq<char>, V> {
        map_of(pairs_of(self.entries@))
    }
}

/// The first entry whose key is not below `key`.
fn lower_bound<V>(entries: &Vec<(String, V)>, key: &str) -> (r: usize)
    requires
        ascending(pairs_of(entries@)),
    ensures
        r <= entries@.len(),
        forall|j: int| 0 <= j < r ==> order::text_lt((#[trigger] entries@[j]).0@, key@),
        forall|j: int| r <= j < entries@.len() ==> !order::text_lt((#[trigger] entries@[j]).0@, key@),
{
    proof {
        order::lemma_text_order_total();
    }
    let ghost pairs = pairs_of(entries@);
    let mut lo: usize = 0;
    let mut hi: usize = entries.len();
    while lo < hi
        invariant
            lo <= hi <= entries@.len(),
            pairs == pairs_of(entries@),
            ascending(pairs),
            forall|j: int| 0 <= j < lo ==> order::text_lt((#[trigger] entries@[j]).0@, key@),
            forall|j: int|
                hi <= j < entries@.len() ==> !order::text_lt((#[trigger] entries@[j]).0@, key@),
        decreases hi - lo,
    {
        proof {
            order::lemma_text_order_total();
        }
        let mid: usize = lo + (hi - lo) / 2;
        match order_of_texts(entries[mid].0.as_str(), key) {
            Order::Less => {
                assert forall|j: int| 0 <= j < mid + 1 implies order::text_lt(
                    (#[trigger] entries@[j]).0@,
                    key@,
                ) by {
                    if j < mid {
                        assert(order::text_lt(pairs[j].0, pairs[mid as int].0));
                    }
                }
                lo = mid + 1;
            },
            _ => {
                assert forall|j: int| mid <= j < entries@.len() implies !order::text_lt(
                    (#[trigger] entries@[j]).0@,
                    key@,
                ) by {
                    if j > mid {
                        assert(order::text_lt(pairs[mid as int].0, pairs[j].0));
                    }
                }
                hi = mid;
            },
        }
    }
    lo
}

impl<V> StrMap<V> {
    #[verifier::type_invariant]
    spec fn sorted(self) -> bool {
        ascending(pairs_of(self.entries@))
    }

    /// An empty map.
    pub fn new() -> (r: Self)
        ensures
            r@ == Map::<Seq<char>, V>::empty(),
    {
        let r = StrMap { entries: Vec::new() };
        assert(r@ =~= Map::<Seq<char>, V>::empty());
        r
    }

    /// How many keys there are.
    pub fn len(&self) -> (n: usize)
        ensures
            n == self@.dom().len(),
            n == listing(self@).len(),
            self@.dom().finite(),
            is_listing(listing(self@), self@),
    {
        proof {
            use_type_invariant(self);
            lemma_map_of(pairs_of(self.entries@));
            lemma_listing_is(pairs_of(self.entries@), self@);
        }
        self.entries.len()
    }

    /// Whether there are no keys.
    pub fn is_empty(&self) -> (r: bool)
        ensures
            r == (self@.dom().len() == 0),
            r == (listing(self@).len() == 0),
            r == (self@ == Map::<Seq<char>, V>::empty()),
    {
        let n: usize = self.len();
        proof {
            if n == 0 {
                assert(self@ =~= Map::<Seq<char>, V>::empty());
            }
        }
        n == 0
    }

    /// The entry at a place in the order of keys.
    pub fn at(&self, i: usize) -> (r: (&String, &V))
        requires
            i < listing(self@).len(),
        ensures
            (r.0@, *r.1) == listing(self@)[i as int],
    {
        proof {
            use_type_invariant(self);
            lemma_map_of(pairs_of(self.entries@));
            lemma_listing_is(pairs_of(self.entries@), self@);
        }
        let e: &(String, V) = &self.entries[i];
        (&e.0, &e.1)
    }

    /// The value at a key.
    pub fn get(&self, key: &str) -> (r: Option<&V>)
        ensures
            match r {
                Some(v) => self@.dom().contains(key@) && self@[key@] == *v,
                None => !self@.dom().contains(key@),
            },
    {
        proof {
            use_type_invariant(self);
            lemma_map_of(pairs_of(self.entries@));
            order::lemma_text_order_total();
        }
        let ghost pairs = pairs_of(self.entries@);
        let i: usize = lower_bound(&self.entries, key);
        if i < self.entries.len() {
            match order_of_texts(self.entries[i].0.as_str(), key) {
                Order::Equal => {
                    assert(pairs[i as int].0 == key@);
                    return Some(&self.entries[i].1);
                },
                _ => {},
            }
        }
        proof {
            if self@.dom().contains(key@) {
                assert(lists(pairs, key@));
                let j = choose|j: int| 0 <= j < pairs.len() && (#[trigger] pairs[j]).0 == key@;
                assert(self.entries@[j].0@ == key@);
                if i < j {
                    assert(order::text_lt(pairs[i as int].0, pairs[j].0));
                    assert(!order::text_lt(self.entries@[i as int].0@, key@));
                }
            }
        }
        None
    }

    /// Whether a key is present.
    pub fn contains_key(&self, key: &str) -> (r: bool)
        ensures
            r == self@.dom().contains(key@),
    {
        self.get(key).is_some()
    }

    /// Sets the value at a key.
    pub fn insert(&mut self, key: String, value: V)
        ensures
            final(self)@ == old(self)@.insert(key@, value),
    {
        proof {
            use_type_invariant(&*self);
            lemma_map_of(pairs_of(self.entries@));
            order::lemma_text_order_total();
        }
        let ghost before = self.entries@;
        let ghost pairs = pairs_of(before);
        let ghost m = self@;
        let mut entries: Vec<(String, V)> = Vec::new();
        std::mem::swap(&mut entries, &mut self.entries);
        let i: usize = lower_bound(&entries, key.as_str());
        let ghost k = key@;
        let mut found: bool = false;
        if i < entries.len() {
            match order_of_texts(entries[i].0.as_str(), key.as_str()) {
                Order::Equal => {
                    found = true;
                },
                _ => {},
            }
        }
        if found {
            entries.set(i, (key, value));
            let ghost after = pairs_of(entries@);
            proof {
                assert(after =~= pairs.update(i as int, (k, value)));
                assert(ascending(after)) by {
                    assert forall|a: int, b: int| 0 <= a < b < after.len() implies order::text_lt(
                        (#[trigger] after[a]).0,
                        (#[trigger] after[b]).0,
                    ) by {
                        assert(after[a].0 == pairs[a].0);
                        assert(after[b].0 == pairs[b].0);
                    }
                }
            }
        } else {
            entries.insert(i, (key, value));
            let ghost after = pairs_of(entries@);
            proof {
                assert(after =~= pairs.insert(i as int, (k, value)));
                assert forall|a: int, b: int| 0 <= a < b < after.len() implies order::text_lt(
                    (#[trigger] after[a]).0,
                    (#[trigger] after[b]).0,
                ) by {
                    let p = if a < i { a } else { a - 1 };
                    let q = if b < i { b } else { b - 1 };
                    if a != i {
                        assert(after[a] == pairs[p]);
                        assert(before[p].0@ == pairs[p].0);
                    }
                    if b != i {
                        assert(after[b] == pairs[q]);
                        assert(before[q].0@ == pairs[q].0);
                        if a == i && q != i {
                            assert(order::text_lt(pairs[i as int].0, pairs[q].0));
                        }
                    }
                }
            }
        }
        self.entries = entries;
        proof {
            let after = pairs_of(self.entries@);
            lemma_map_of(after);
            let want = m.insert(k, value);
            assert forall|a: int| 0 <= a < after.len() implies want.dom().contains(
                (#[trigger] after[a]).0,
            ) && want[after[a].0] == after[a].1 by {
                if a != i {
                    let p = if a < i || found { a } else { a - 1 };
                    assert(after[a] == pairs[p]);
                    assert(m.dom().contains(pairs[p].0));
                    assert(after[a].0 != k) by {
                        if a < i {
                            assert(order::text_lt(after[a].0, after[i as int].0));
                        } else {
                            assert(order::text_lt(after[i as int].0, after[a].0));
                        }
                    }
                }
            }
            assert forall|x: Seq<char>| #[trigger] want.dom().contains(x) implies lists(after, x) by {
                if x == k {
                    assert(after[i as int].0 == x);
                } else {
                    assert(m.dom().contains(x));
                    assert(lists(pairs, x));
                    let p = choose|p: int| 0 <= p < pairs.len() && (#[trigger] pairs[p]).0 == x;
                    let a = if p < i || found { p } else { p + 1 };
                    assert(after[a].0 == x);
                }
            }
            lemma_same_listing(after, self@, want);
        }
    }

    /// Takes a key out and hands back its value.
    pub fn remove(&mut self, key: &str) -> (r: Option<V>)
        ensures
            final(self)@ == old(self)@.remove(key@),
            match r {
                Some(v) => old(self)@.dom().contains(key@) && old(self)@[key@] == v,
                None => !old(self)@.dom().contains(key@),
            },
    {
        proof {
            use_type_invariant(&*self);
            lemma_map_of(pairs_of(self.entries@));
            order::lemma_text_order_total();
        }
        let ghost before = self.entries@;
        let ghost pairs = pairs_of(before);
        let ghost m = self@;
        let mut entries: Vec<(String, V)> = Vec::new();
        std::mem::swap(&mut entries, &mut self.entries);
        let i: usize = lower_bound(&entries, key);
        let ghost k = key@;
        let mut found: bool = false;
        if i < entries.len() {
            match order_of_texts(entries[i].0.as_str(), key) {
                Order::Equal => {
                    found = true;
                },
                _ => {},
            }
        }
        let mut taken: Option<V> = None;
        if found {
            let e: (String, V) = entries.remove(i);
            taken = Some(e.1);
            proof {
                assert(pairs[i as int] == (e.0@, e.1));
                let after = pairs_of(entries@);
                assert(after =~= pairs.remove(i as int));
                assert forall|a: int, b: int| 0 <= a < b < after.len() implies order::text_lt(
                    (#[trigger] after[a]).0,
                    (#[trigger] after[b]).0,
                ) by {
                    let p = if a < i { a } else { a + 1 };
                    let q = if b < i { b } else { b + 1 };
                    assert(after[a] == pairs[p]);
                    assert(after[b] == pairs[q]);
                }
            }
        }
        self.entries = entries;
        proof {
            let after = pairs_of(self.entries@);
            lemma_map_of(after);
            let want = m.remove(k);
            assert forall|a: int| 0 <= a < after.len() implies want.dom().contains(
                (#[trigger] after[a]).0,
            ) && want[after[a].0] == after[a].1 by {
                let p = if a < i || !found { a } else { a + 1 };
                assert(after[a] == pairs[p]);
                assert(m.dom().contains(pairs[p].0));
                assert(before[p].0@ == pairs[p].0);
                if found {
                    if p < i {
                        assert(order::text_lt(pairs[p].0, pairs[i as int].0));
                    } else {
                        assert(order::text_lt(pairs[i as int].0, pairs[p].0));
                    }
                } else if pairs[p].0 == k {
                    if p > i {
                        assert(order::text_lt(pairs[i as int].0, pairs[p].0));
                        assert(!order::text_lt(before[i as int].0@, k));
                    }
                }
            }
            assert forall|x: Seq<char>| #[trigger] want.dom().contains(x) implies lists(after, x) by {
                assert(m.dom().contains(x));
                assert(lists(pairs, x));
                let p = choose|p: int| 0 <= p < pairs.len() && (#[trigger] pairs[p]).0 == x;
                let a = if p < i || !found { p } else { p - 1 };
                assert(after[a].0 == x);
            }
            lemma_same_listing(after, self@, want);
            if m.dom().contains(k) {
                assert(lists(pairs, k));
                let p = choose|p: int| 0 <= p < pairs.len() && (#[trigger] pairs[p]).0 == k;
                assert(before[p].0@ == k);
                if p > i {
                    assert(order::text_lt(pairs[i as int].0, pairs[p].0));
                    assert(!order::text_lt(before[i as int].0@, k));
                }
            }
        }
        taken
    }
}

impl<V: Copy> StrMap<V> {
    /// Another map with the same keys and values.
    pub fn duplicate(&self) -> (r: Self)
        ensures
            r@ == self@,
    {
        let mut out: StrMap<V> = StrMap::new();
        let n: usize = self.len();
        let ghost all = listing(self@);
        let mut i: usize = 0;
        while i < n
            invariant
                i <= n,
                n == all.len(),
                all == listing(self@),
                is_listing(all, self@),
                forall|k: Seq<char>| #[trigger]
                    out@.dom().contains(k) <==> lists(all.take(i as int), k),
                forall|k: Seq<char>| #[trigger]
                    out@.dom().contains(k) ==> self@.dom().contains(k) && out@[k] == self@[k],
            decreases n - i,
        {
            let (k, v) = self.at(i);
            out.insert(k.as_str().to_string(), *v);
            proof {
                assert(self@.dom().contains(all[i as int].0));
                lemma_lists_step(all, i as int);
            }
            i = i + 1;
        }
        proof {
            assert(all.take(i as int) =~= all);
            assert forall|k: Seq<char>| out@.dom().contains(k) == self@.dom().contains(k) by {
                if self@.dom().contains(k) {
                    assert(lists(all, k));
                    assert(out@.dom().contains(k));
                }
            }
            assert(out@ =~= self@);
        }
        out
    }
}

/// A map from names to texts.
pub type FieldMap = StrMap<String>;

/// The texts that a map holds.
pub open spec fn texts_of(m: Map<Seq<char>, String>) -> Map<Seq<char>, Seq<char>> {
    m.map_values(|v: String| v@)
}

proof fn lemma_listing_texts(m: Map<Seq<char>, String>)
    requires
        is_listing(listing(m), m),
    ensures
        is_listing(listing(texts_of(m)), texts_of(m)),
        listing(texts_of(m)).len() == listing(m).len(),
        forall|i: int|
            0 <= i < listing(m).len() ==> #[trigger] listing(texts_of(m))[i] == (
                listing(m)[i].0,
                listing(m)[i].1@,
            ),
{
    let pairs = listing(m);
    let out = pairs.map_values(|p: (Seq<char>, String)| (p.0, p.1@));
    assert forall|k: Seq<char>| #[trigger] texts_of(m).dom().contains(k) implies lists(out, k) by {
        assert(m.dom().contains(k));
        assert(lists(pairs, k));
        let i = choose|i: int| 0 <= i < pairs.len() && (#[trigger] pairs[i]).0 == k;
        assert(out[i].0 == k);
    }
    assert forall|i: int, j: int| 0 <= i < j < out.len() implies order::text_lt(
        (#[trigger] out[i]).0,
        (#[trigger] out[j]).0,
    ) by {
        assert(order::text_lt(pairs[i].0, pairs[j].0));
    }
    assert forall|i: int| 0 <= i < out.len() implies texts_of(m).dom().contains(
        (#[trigger] out[i]).0,
    ) && texts_of(m)[out[i].0] == out[i].1 by {
        assert(m.dom().contains(pairs[i].0));
    }
    lemma_listing_is(out, texts_of(m));
}

impl StrMap<String> {
    /// The names and texts held.
    pub open spec fn texts(&self) -> Map<Seq<char>, Seq<char>> {
        texts_of(self@)
    }

    /// How many names there are.
    pub fn count(&self) -> (n: usize)
        ensures
            n == listing(self.texts()).len(),
            n == self.texts().dom().len(),
            self.texts().dom().finite(),
            is_listing(listing(self.texts()), self.texts()),
    {
        let n: usize = self.len();
        proof {
            lemma_listing_texts(self@);
            lemma_listing_is(listing(self.texts()), self.texts());
        }
        n
    }

    /// The name and text at a place in the order of names.
    pub fn text_at(&self, i: usize) -> (r: (&str, &str))
        requires
            i < listing(self.texts()).len(),
        ensures
            (r.0@, r.1@) == listing(self.texts())[i as int],
    {
        let _ = self.len();
        proof {
            lemma_listing_texts(self@);
        }
        let e: (&String, &String) = self.at(i);
        (e.0.as_str(), e.1.as_str())
    }

    /// The text at a name.
    pub fn get_text(&self, key: &str) -> (r: Option<&str>)
        ensures
            match r {
                Some(v) => self.texts().dom().contains(key@) && self.texts()[key@] == v@,
                None => !self.texts().dom().contains(key@),
            },
    {
        match self.get(key) {
            Some(v) => Some(v.as_str()),
            None => None,
        }
    }

    /// Sets the text at a name.
    pub fn put(&mut self, key: &str, value: &str)
        ensures
            final(self).texts() == old(self).texts().insert(key@, value@),
    {
        let k: String = key.to_string();
        let v: String = value.to_string();
        self.insert(k, v);
        assert(self.texts() =~= old(self).texts().insert(key@, value@));
    }

    /// Takes a name out.
    pub fn drop_key(&mut self, key: &str)
        ensures
            final(self).texts() == old(self).texts().remove(key@),
    {
        let _ = self.remove(key);
        assert(self.texts() =~= old(self).texts().remove(key@));
    }

    /// An empty map of texts.
    pub fn empty() -> (r: Self)
        ensures
            r.texts() == Map::<Seq<char>, Seq<char>>::empty(),
    {
        let r: StrMap<String> = StrMap::new();
        assert(r.texts() =~= Map::<Seq<char>, Seq<char>>::empty());
        r
    }

    /// Another map with the same names and texts.
    pub fn copy(&self) -> (r: Self)
        ensures
            r.texts() == self.texts(),
    {
        let mut out: StrMap<String> = StrMap::empty();
        let n: usize = self.count();
        let ghost all = listing(self.texts());
        let mut i: usize = 0;
        while i < n
            invariant
                i <= n,
                n == all.len(),
                all == listing(self.texts()),
                is_listing(all, self.texts()),
                forall|k: Seq<char>| #[trigger]
                    out.texts().dom().contains(k) <==> lists(all.take(i as int), k),
                forall|k: Seq<char>| #[trigger]
                    out.texts().dom().contains(k) ==> self.texts().dom().contains(k)
                        && out.texts()[k] == self.texts()[k],
            decreases n - i,
        {
            let (k, v) = self.text_at(i);
            let ghost before = out.texts();
            out.put(k, v);
            proof {
                assert(self.texts().dom().contains(all[i as int].0));
                lemma_lists_step(all, i as int);
            }
            i = i + 1;
        }
        proof {
            assert(all.take(i as int) =~= all);
            assert forall|k: Seq<char>| out.texts().dom().contains(k)
                == self.texts().dom().contains(k) by {
                if self.texts().dom().contains(k) {
                    assert(lists(all, k));
                    assert(out.texts().dom().contains(k));
                }
            }
            assert(out.texts() =~= self.texts());
        }
        out
    }

    /// Whether two maps hold the same names and texts.
    pub fn same_texts(&self, other: &Self) -> (r: bool)
        ensures
            r == (self.texts() == other.texts()),
    {
        let n: usize = self.count();
        let m: usize = other.count();
        let ghost a = listing(self.texts());
        let ghost b = listing(other.texts());
        if n != m {
            return false;
        }
        let mut i: usize = 0;
        while i < n
            invariant
                i <= n,
                n == a.len(),
                n == b.len(),
                a == listing(self.texts()),
                b == listing(other.texts()),
                forall|j: int| 0 <= j < i ==> a[j] == b[j],
            decreases n - i,
        {
            let (k, v) = self.text_at(i);
            let (l, w) = other.text_at(i);
            if !crate::text::same_text(k, l) || !crate::text::same_text(v, w) {
                assert(a[i as int] != b[i as int]);
                return false;
            }
            i = i + 1;
        }
        proof {
            assert(a =~= b);
            lemma_same_listing(a, self.texts(), other.texts());
        }
        true
    }
}

/// The entries of a map are listed once each, with their values, by ascending key.
pub proof fn law_listing<V>(m: Map<Seq<char>, V>, k: Seq<char>)
    requires
        m.dom().finite(),
    ensures
        listing(m).len() == m.dom().len(),
        m.dom().contains(k) <==> exists|i: int|
            0 <= i < listing(m).len() && (#[trigger] listing(m)[i]).0 == k,
        forall|i: int|
            0 <= i < listing(m).len() ==> m[(#[trigger] listing(m)[i]).0] == listing(m)[i].1,
        forall|i: int, j: int|
            0 <= i < j < listing(m).len() ==> order::text_lt(
                (#[trigger] listing(m)[i]).0,
                (#[trigger] listing(m)[j]).0,
            ),
{
    lemma_listing_exists(m);
    if m.dom().contains(k) {
        assert(lists(listing(m), k));
    }
}

} // verus!
