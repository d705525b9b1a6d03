//! Stable sorting by an integer rank.

use vstd::prelude::*;

verus! {

/// The items of `s` whose rank is `k`, in their order.
pub open spec fn of_rank<T>(s: Seq<T>, rank: spec_fn(T) -> int, k: int) -> Seq<T>
    decreases s.len(),
{
    if s.len() == 0 {
        seq![]
    } else if rank(s.last()) == k {
        of_rank(s.drop_last(), rank, k).push(s.last())
    } else {
        of_rank(s.drop_last(), rank, k)
    }
}

pub open spec fn by_rank<T>(s: Seq<T>, rank: spec_fn(T) -> int) -> bool {
    forall|i: int, j: int|
        0 <= i < j < s.len() ==> rank(#[trigger] s[i]) <= rank(#[trigger] s[j])
}

/// `out` holds the items of `s` by ascending rank, items of one rank in the order they
/// have in `s`.
pub open spec fn is_stable_sort<T>(out: Seq<T>, s: Seq<T>, rank: spec_fn(T) -> int) -> bool {
    &&& by_rank(out, rank)
    &&& forall|k: int| #[trigger] of_rank(out, rank, k) == of_rank(s, rank, k)
    &&& out.len() == s.len()
}

proof fn lemma_of_rank_append<T>(a: Seq<T>, b: Seq<T>, rank: spec_fn(T) -> int, k: int)
    ensures
        of_rank(a + b, rank, k) == of_rank(a, rank, k) + of_rank(b, rank, k),
    decreases b.len(),
{
    if b.len() == 0 {
        assert(a + b =~= a);
        assert(of_rank(a, rank, k) + of_rank(b, rank, k) =~= of_rank(a, rank, k));
    } else {
        lemma_of_rank_append(a, b.drop_last(), rank, k);
        assert((a + b).drop_last() =~= a + b.drop_last());
        assert((a + b).last() == b.last());
        if rank(b.last()) == k {
            assert(of_rank(a, rank, k) + of_rank(b, rank, k) =~= (of_rank(a, rank, k) + of_rank(
                b.drop_last(),
                rank,
                k,
            )).push(b.last()));
        }
    }
}

proof fn lemma_of_rank_none<T>(s: Seq<T>, rank: spec_fn(T) -> int, k: int)
    requires
        forall|i: int| 0 <= i < s.len() ==> rank(#[trigger] s[i]) != k,
    ensures
        of_rank(s, rank, k) == Seq::<T>::empty(),
    decreases s.len(),
{
    if s.len() > 0 {
        assert(rank(s[s.len() - 1]) != k);
        assert forall|i: int| 0 <= i < s.drop_last().len() implies rank(#[trigger] s.drop_last()[i])
            != k by {
            assert(s.drop_last()[i] == s[i]);
        }
        lemma_of_rank_none(s.drop_last(), rank, k);
    }
}

/// Putting an item behind all that rank no higher keeps every rank's items in order.
proof fn lemma_insert<T>(s: Seq<T>, x: T, at: int, rank: spec_fn(T) -> int, k: int)
    requires
        0 <= at <= s.len(),
        forall|i: int| at <= i < s.len() ==> rank(#[trigger] s[i]) > rank(x),
    ensures
        of_rank(s.insert(at, x), rank, k) == of_rank(s.push(x), rank, k),
{
    let head = s.take(at);
    let tail = s.skip(at);
    assert(s =~= head + tail);
    assert(s.insert(at, x) =~= head + (seq![x] + tail));
    assert(s.push(x) =~= head + (tail + seq![x]));
    lemma_of_rank_append(head, seq![x] + tail, rank, k);
    lemma_of_rank_append(head, tail + seq![x], rank, k);
    lemma_of_rank_append(seq![x], tail, rank, k);
    lemma_of_rank_append(tail, seq![x], rank, k);
    reveal_with_fuel(of_rank, 2);
    if rank(x) == k {
        assert forall|i: int| 0 <= i < tail.len() implies rank(#[trigger] tail[i]) != k by {
            assert(tail[i] == s[at + i]);
        }
        lemma_of_rank_none(tail, rank, k);
        assert(of_rank(seq![x], rank, k) + of_rank(tail, rank, k) =~= of_rank(tail, rank, k)
            + of_rank(seq![x], rank, k));
    } else {
        assert(seq![x].last() == x);
        assert(seq![x].drop_last() =~= Seq::<T>::empty());
        assert(of_rank(seq![x], rank, k) =~= Seq::<T>::empty());
        assert(of_rank(seq![x], rank, k) + of_rank(tail, rank, k) =~= of_rank(tail, rank, k)
            + of_rank(seq![x], rank, k));
    }
}

/// Two stable sorts of one list are the same list.
pub proof fn lemma_stable_sort_unique<T>(
    a: Seq<T>,
    b: Seq<T>,
    s: Seq<T>,
    rank: spec_fn(T) -> int,
)
    requires
        is_stable_sort(a, s, rank),
        is_stable_sort(b, s, rank),
    ensures
        a == b,
    decreases s.len(),
{
    lemma_sorted_determined(a, b, rank);
}

proof fn lemma_sorted_determined<T>(a: Seq<T>, b: Seq<T>, rank: spec_fn(T) -> int)
    requires
        by_rank(a, rank),
        by_rank(b, rank),
        a.len() == b.len(),
        forall|k: int| #[trigger] of_rank(a, rank, k) == of_rank(b, rank, k),
    ensures
        a == b,
    decreases a.len(),
{
    if a.len() == 0 {
        assert(a =~= b);
    } else {
        let x = a.last();
        let y = b.last();
        if rank(x) < rank(y) {
            lemma_none_above(a, rank, rank(y));
            assert(of_rank(b, rank, rank(y)).len() > 0);
            assert(of_rank(a, rank, rank(y)) == of_rank(b, rank, rank(y)));
        } else if rank(y) < rank(x) {
            lemma_none_above(b, rank, rank(x));
            assert(of_rank(a, rank, rank(x)).len() > 0);
            assert(of_rank(a, rank, rank(x)) == of_rank(b, rank, rank(x)));
        }
        let k = rank(x);
        assert(of_rank(a, rank, k) == of_rank(b, rank, k));
        assert(of_rank(a, rank, k).last() == x);
        assert(of_rank(b, rank, k).last() == y);
        let p = a.drop_last();
        let q = b.drop_last();
        assert forall|j: int| #[trigger] of_rank(p, rank, j) == of_rank(q, rank, j) by {
            assert(of_rank(a, rank, j) == of_rank(b, rank, j));
            if j == k {
                assert(of_rank(a, rank, j).drop_last() =~= of_rank(p, rank, j));
                assert(of_rank(b, rank, j).drop_last() =~= of_rank(q, rank, j));
            }
        }
        assert forall|i: int, j: int| 0 <= i < j < p.len() implies rank(#[trigger] p[i]) <= rank(
            #[trigger] p[j],
        ) by {
            assert(p[i] == a[i] && p[j] == a[j]);
        }
        assert forall|i: int, j: int| 0 <= i < j < q.len() implies rank(#[trigger] q[i]) <= rank(
            #[trigger] q[j],
        ) by {
            assert(q[i] == b[i] && q[j] == b[j]);
        }
        lemma_sorted_determined(p, q, rank);
        assert(a =~= p.push(x));
        assert(b =~= q.push(y));
    }
}

proof fn lemma_none_above<T>(s: Seq<T>, rank: spec_fn(T) -> int, k: int)
    requires
        by_rank(s, rank),
        s.len() > 0,
        rank(s.last()) < k,
    ensures
        of_rank(s, rank, k).len() == 0,
{
    assert forall|i: int| 0 <= i < s.len() implies rank(#[trigger] s[i]) != k by {
        if i < s.len() - 1 {
            assert(rank(s[i]) <= rank(s[s.len() - 1]));
        }
    }
    lemma_of_rank_none(s, rank, k);
}

pub open spec fn pair_rank<T>() -> spec_fn((i128, T)) -> int {
    |p: (i128, T)| p.0 as int
}

/// Sorts items by the rank they come with.
pub fn sort_by_rank<T>(items: Vec<(i128, T)>) -> (out: Vec<(i128, T)>)
    ensures
        is_stable_sort(out@, items@, pair_rank::<T>()),
{
    let ghost rank = pair_rank::<T>();
    let ghost all = items@;
    let mut out: Vec<(i128, T)> = Vec::new();
    for item in it: items.into_iter()
        invariant
            rank == pair_rank::<T>(),
            it.seq() == all,
            out@.len() == it.index(),
            is_stable_sort(out@, all.take(it.index()), rank),
    {
        let ghost done = all.take(it.index());
        let ghost before = out@;
        let mut at: usize = out.len();
        while at > 0 && out[at - 1].0 > item.0
            invariant
                at <= out@.len(),
                out@ == before,
                rank == pair_rank::<T>(),
                by_rank(before, rank),
                forall|i: int| at <= i < before.len() ==> rank(#[trigger] before[i]) > rank(item),
            decreases at,
        {
            at = at - 1;
        }
        let ghost x = item;
        out.insert(at, item);
        proof {
            assert(all.take(it.index() + 1) =~= done.push(x));
            assert(done.push(x).drop_last() =~= done);
            assert(before.push(x).drop_last() =~= before);
            assert forall|k: int| #[trigger] of_rank(out@, rank, k) == of_rank(
                all.take(it.index() + 1),
                rank,
                k,
            ) by {
                lemma_insert(before, x, at as int, rank, k);
                assert(of_rank(before, rank, k) == of_rank(done, rank, k));
            }
            assert forall|i: int, j: int| 0 <= i < j < out@.len() implies rank(#[trigger] out@[i])
                <= rank(#[trigger] out@[j]) by {
                let p = if i < at { i } else { i - 1 };
                let q = if j < at { j } else { j - 1 };
                if i != at {
                    assert(out@[i] == before[p]);
                }
                if j != at {
                    assert(out@[j] == before[q]);
                }
                if j == at {
                    assert(rank(before[p]) <= rank(before[at - 1]));
                }
            }
        }
    }
    assert(all.take(all.len() as int) =~= all);
    out
}

/// Sorting pairs by their rank sorts their values by it.
pub proof fn lemma_sorted_values<T>(
    out: Seq<(i128, T)>,
    s: Seq<(i128, T)>,
    rank: spec_fn(T) -> int,
)
    requires
        is_stable_sort(out, s, pair_rank::<T>()),
        forall|i: int| 0 <= i < s.len() ==> (#[trigger] s[i]).0 == rank(s[i].1),
    ensures
        is_stable_sort(
            out.map_values(|p: (i128, T)| p.1),
            s.map_values(|p: (i128, T)| p.1),
            rank,
        ),
        forall|i: int| 0 <= i < out.len() ==> (#[trigger] out[i]).0 == rank(out[i].1),
{
    let pr = pair_rank::<T>();
    let val = |p: (i128, T)| p.1;
    assert forall|i: int| 0 <= i < out.len() implies (#[trigger] out[i]).0 == rank(out[i].1) by {
        lemma_of_rank_has(out, pr, i);
        assert(of_rank(out, pr, pr(out[i])) == of_rank(s, pr, pr(out[i])));
        lemma_of_rank_from(s, pr, pr(out[i]), out[i]);
    }
    assert forall|k: int| #[trigger] of_rank(out.map_values(val), rank, k) == of_rank(
        s.map_values(val),
        rank,
        k,
    ) by {
        lemma_of_rank_values(out, rank, k);
        lemma_of_rank_values(s, rank, k);
        assert(of_rank(out, pr, k) == of_rank(s, pr, k));
    }
    let vals = out.map_values(val);
    assert forall|i: int, j: int| 0 <= i < j < vals.len() implies rank(#[trigger] vals[i]) <= rank(
        #[trigger] vals[j],
    ) by {
        assert(pr(out[i]) <= pr(out[j]));
    }
}

proof fn lemma_of_rank_has<T>(s: Seq<T>, rank: spec_fn(T) -> int, i: int)
    requires
        0 <= i < s.len(),
    ensures
        of_rank(s, rank, rank(s[i])).contains(s[i]),
    decreases s.len(),
{
    let k = rank(s[i]);
    if i == s.len() - 1 {
        let r = of_rank(s, rank, k);
        assert(r[r.len() - 1] == s[i]);
    } else {
        lemma_of_rank_has(s.drop_last(), rank, i);
        assert(s.drop_last()[i] == s[i]);
        let r = of_rank(s.drop_last(), rank, k);
        let j = choose|j: int| 0 <= j < r.len() && r[j] == s[i];
        assert(of_rank(s, rank, k)[j] == s[i]);
    }
}

proof fn lemma_of_rank_from<T>(s: Seq<T>, rank: spec_fn(T) -> int, k: int, x: T)
    requires
        of_rank(s, rank, k).contains(x),
    ensures
        exists|i: int| 0 <= i < s.len() && #[trigger] s[i] == x,
        s.contains(x),
    decreases s.len(),
{
    if s.len() > 0 {
        let r = of_rank(s, rank, k);
        let j = choose|j: int| 0 <= j < r.len() && r[j] == x;
        let t = s.drop_last();
        if rank(s.last()) == k && j == r.len() - 1 {
            assert(s[s.len() - 1] == x);
        } else {
            assert(of_rank(t, rank, k)[j] == x);
            lemma_of_rank_from(t, rank, k, x);
            let i = choose|i: int| 0 <= i < t.len() && #[trigger] t[i] == x;
            assert(s[i] == x);
        }
    }
}

proof fn lemma_of_rank_values<T>(s: Seq<(i128, T)>, rank: spec_fn(T) -> int, k: int)
    requires
        forall|i: int| 0 <= i < s.len() ==> (#[trigger] s[i]).0 == rank(s[i].1),
    ensures
        of_rank(s.map_values(|p: (i128, T)| p.1), rank, k) == of_rank(
            s,
            pair_rank::<T>(),
            k,
        ).map_values(|p: (i128, T)| p.1),
    decreases s.len(),
{
    let val = |p: (i128, T)| p.1;
    if s.len() == 0 {
        assert(of_rank(s.map_values(val), rank, k) =~= of_rank(s, pair_rank::<T>(), k).map_values(
            val,
        ));
    } else {
        let t = s.drop_last();
        assert forall|i: int| 0 <= i < t.len() implies (#[trigger] t[i]).0 == rank(t[i].1) by {
            assert(t[i] == s[i]);
        }
        lemma_of_rank_values(t, rank, k);
        assert(s.map_values(val).drop_last() =~= t.map_values(val));
        assert(s.last() == s[s.len() - 1]);
        assert(s.map_values(val).last() == s.last().1);
        assert(of_rank(s.map_values(val), rank, k) =~= of_rank(s, pair_rank::<T>(), k).map_values(
            val,
        ));
    }
}

/// Items of one rank stand in a stable sort in the order they had before.
pub proof fn lemma_stable_order<T>(
    out: Seq<T>,
    s: Seq<T>,
    rank: spec_fn(T) -> int,
    i: int,
    j: int,
)
    requires
        is_stable_sort(out, s, rank),
        0 <= i < j < out.len(),
        rank(out[i]) == rank(out[j]),
    ensures
        exists|p: int, q: int| 0 <= p < q < s.len() && #[trigger] s[p] == out[i] && #[trigger] s[q]
            == out[j],
{
    let k = rank(out[i]);
    let (a, b) = lemma_into_rank(out, rank, k, i, j);
    assert(of_rank(out, rank, k) == of_rank(s, rank, k));
    let (p, q) = lemma_out_of_rank(s, rank, k, a, b);
    assert(s[p] == out[i] && s[q] == out[j]);
}

/// Every item of a stable sort was there before, and every one that was there is in it.
pub proof fn lemma_stable_same_items<T>(out: Seq<T>, s: Seq<T>, rank: spec_fn(T) -> int)
    requires
        is_stable_sort(out, s, rank),
    ensures
        forall|i: int| 0 <= i < out.len() ==> s.contains(#[trigger] out[i]),
        forall|p: int| 0 <= p < s.len() ==> out.contains(#[trigger] s[p]),
{
    assert forall|i: int| 0 <= i < out.len() implies s.contains(#[trigger] out[i]) by {
        let k = rank(out[i]);
        lemma_of_rank_has(out, rank, i);
        assert(of_rank(out, rank, k) == of_rank(s, rank, k));
        lemma_of_rank_from(s, rank, k, out[i]);
    }
    assert forall|p: int| 0 <= p < s.len() implies out.contains(#[trigger] s[p]) by {
        let k = rank(s[p]);
        lemma_of_rank_has(s, rank, p);
        assert(of_rank(out, rank, k) == of_rank(s, rank, k));
        lemma_of_rank_from(out, rank, k, s[p]);
    }
}

proof fn lemma_into_rank<T>(s: Seq<T>, rank: spec_fn(T) -> int, k: int, i: int, j: int) -> (r: (
    int,
    int,
))
    requires
        0 <= i < j < s.len(),
        rank(s[i]) == k,
        rank(s[j]) == k,
    ensures
        0 <= r.0 < r.1 < of_rank(s, rank, k).len(),
        of_rank(s, rank, k)[r.0] == s[i],
        of_rank(s, rank, k)[r.1] == s[j],
    decreases s.len(),
{
    let t = s.drop_last();
    let before = of_rank(t, rank, k);
    if j == s.len() - 1 {
        lemma_of_rank_has(t, rank, i);
        assert(t[i] == s[i]);
        let a = choose|a: int| 0 <= a < before.len() && before[a] == s[i];
        (a, before.len() as int)
    } else {
        assert(t[i] == s[i] && t[j] == s[j]);
        lemma_into_rank(t, rank, k, i, j)
    }
}

proof fn lemma_out_of_rank<T>(s: Seq<T>, rank: spec_fn(T) -> int, k: int, a: int, b: int) -> (r: (
    int,
    int,
))
    requires
        0 <= a < b < of_rank(s, rank, k).len(),
    ensures
        0 <= r.0 < r.1 < s.len(),
        s[r.0] == of_rank(s, rank, k)[a],
        s[r.1] == of_rank(s, rank, k)[b],
    decreases s.len(),
{
    let t = s.drop_last();
    let before = of_rank(t, rank, k);
    if rank(s.last()) == k && b == before.len() {
        assert(before[a] == of_rank(s, rank, k)[a]);
        assert(before.contains(before[a]));
        lemma_of_rank_from(t, rank, k, before[a]);
        let p = choose|p: int| 0 <= p < t.len() && #[trigger] t[p] == before[a];
        assert(s[p] == t[p]);
        (p, s.len() - 1)
    } else {
        assert(before[a] == of_rank(s, rank, k)[a] && before[b] == of_rank(s, rank, k)[b]);
        let (p, q) = lemma_out_of_rank(t, rank, k, a, b);
        assert(s[p] == t[p] && s[q] == t[q]);
        (p, q)
    }
}

/// A stable sort stays one when every item is mapped to another of the same rank.
pub proof fn lemma_sort_mapped<T, U>(
    out: Seq<T>,
    s: Seq<T>,
    rank: spec_fn(T) -> int,
    f: spec_fn(T) -> U,
    rank2: spec_fn(U) -> int,
)
    requires
        is_stable_sort(out, s, rank),
        forall|x: T| rank2(#[trigger] f(x)) == rank(x),
    ensures
        is_stable_sort(out.map_values(f), s.map_values(f), rank2),
{
    let a = out.map_values(f);
    assert forall|k: int| #[trigger] of_rank(a, rank2, k) == of_rank(s.map_values(f), rank2, k) by {
        lemma_of_rank_mapped(out, rank, f, rank2, k);
        lemma_of_rank_mapped(s, rank, f, rank2, k);
        assert(of_rank(out, rank, k) == of_rank(s, rank, k));
    }
    assert forall|i: int, j: int| 0 <= i < j < a.len() implies rank2(#[trigger] a[i]) <= rank2(
        #[trigger] a[j],
    ) by {
        assert(a[i] == f(out[i]) && a[j] == f(out[j]));
    }
}

proof fn lemma_of_rank_mapped<T, U>(
    s: Seq<T>,
    rank: spec_fn(T) -> int,
    f: spec_fn(T) -> U,
    rank2: spec_fn(U) -> int,
    k: int,
)
    requires
        forall|x: T| rank2(#[trigger] f(x)) == rank(x),
    ensures
        of_rank(s.map_values(f), rank2, k) == of_rank(s, rank, k).map_values(f),
    decreases s.len(),
{
    if s.len() == 0 {
        assert(of_rank(s.map_values(f), rank2, k) =~= of_rank(s, rank, k).map_values(f));
    } else {
        let t = s.drop_last();
        lemma_of_rank_mapped(t, rank, f, rank2, k);
        assert(s.map_values(f).drop_last() =~= t.map_values(f));
        assert(s.map_values(f).last() == f(s.last()));
        assert(of_rank(s.map_values(f), rank2, k) =~= of_rank(s, rank, k).map_values(f));
    }
}

/// Every list has a stable sort.
pub proof fn lemma_stable_sort_exists<T>(s: Seq<T>, rank: spec_fn(T) -> int) -> (out: Seq<T>)
    ensures
        is_stable_sort(out, s, rank),
    decreases s.len(),
{
    if s.len() == 0 {
        s
    } else {
        let x = s.last();
        let t = lemma_stable_sort_exists(s.drop_last(), rank);
        let at = lemma_place(t, rank, x, t.len() as int);
        let out = t.insert(at, x);
        assert forall|k: int| #[trigger] of_rank(out, rank, k) == of_rank(s, rank, k) by {
            lemma_insert(t, x, at, rank, k);
            assert(t.push(x).drop_last() =~= t);
            assert(of_rank(t, rank, k) == of_rank(s.drop_last(), rank, k));
        }
        assert forall|i: int, j: int| 0 <= i < j < out.len() implies rank(#[trigger] out[i])
            <= rank(#[trigger] out[j]) by {
            let p = if i < at { i } else { i - 1 };
            let q = if j < at { j } else { j - 1 };
            if i != at {
                assert(out[i] == t[p]);
            }
            if j != at {
                assert(out[j] == t[q]);
            }
            if j == at {
                assert(rank(t[p]) <= rank(t[at - 1]));
            }
        }
        out
    }
}

proof fn lemma_place<T>(t: Seq<T>, rank: spec_fn(T) -> int, x: T, from: int) -> (at: int)
    requires
        0 <= from <= t.len(),
        forall|i: int| from <= i < t.len() ==> rank(#[trigger] t[i]) > rank(x),
    ensures
        0 <= at <= t.len(),
        forall|i: int| at <= i < t.len() ==> rank(#[trigger] t[i]) > rank(x),
        at > 0 ==> rank(t[at - 1]) <= rank(x),
    decreases from,
{
    if from > 0 && rank(t[from - 1]) > rank(x) {
        lemma_place(t, rank, x, from - 1)
    } else {
        from
    }
}

proof fn lemma_of_rank_filters<T>(s: Seq<T>, rank: spec_fn(T) -> int, k: int)
    ensures
        of_rank(s, rank, k) == s.filter(|x: T| rank(x) == k),
    decreases s.len(),
{
    reveal(Seq::filter);
    if s.len() > 0 {
        lemma_of_rank_filters(s.drop_last(), rank, k);
    }
}

proof fn lemma_of_rank_counts<T>(s: Seq<T>, rank: spec_fn(T) -> int, x: T)
    ensures
        s.to_multiset().count(x) == of_rank(s, rank, rank(x)).to_multiset().count(x),
    decreases s.len(),
{
    broadcast use vstd::seq_lib::group_to_multiset_ensures;
    broadcast use vstd::multiset::group_multiset_axioms;

    if s.len() > 0 {
        let rest = s.drop_last();
        lemma_of_rank_counts(rest, rank, x);
        assert(s =~= rest.push(s.last()));
    }
}

/// Sorting gives back the same items, as often as each was there; none stands before one of
/// lower rank; and those of one rank stand in the order in which they were given.
pub proof fn law_sorting_only_reorders<T>(
    out: Seq<T>,
    s: Seq<T>,
    rank: spec_fn(T) -> int,
    k: int,
)
    requires
        is_stable_sort(out, s, rank),
    ensures
        out.to_multiset() == s.to_multiset(),
        forall|i: int, j: int|
            0 <= i < out.len() && 0 <= j < out.len() && rank(#[trigger] out[i]) < rank(
                #[trigger] out[j],
            ) ==> i < j,
        out.filter(|x: T| rank(x) == k) == s.filter(|x: T| rank(x) == k),
{
    broadcast use vstd::multiset::group_multiset_axioms;

    assert forall|x: T| out.to_multiset().count(x) == s.to_multiset().count(x) by {
        lemma_of_rank_counts(out, rank, x);
        lemma_of_rank_counts(s, rank, x);
        assert(of_rank(out, rank, rank(x)) == of_rank(s, rank, rank(x)));
    }
    assert(out.to_multiset() =~= s.to_multiset());
    lemma_of_rank_filters(out, rank, k);
    lemma_of_rank_filters(s, rank, k);
    assert(of_rank(out, rank, k) == of_rank(s, rank, k));
}

/// What already stands in order is left alone, and sorting what is sorted changes nothing.
pub proof fn law_sorting_keeps_what_is_sorted<T>(s: Seq<T>, out: Seq<T>, rank: spec_fn(T) -> int)
    requires
        forall|i: int, j: int|
            0 <= i < j < s.len() ==> rank(#[trigger] s[i]) <= rank(#[trigger] s[j]),
        is_stable_sort(out, s, rank),
    ensures
        out == s,
{
    assert(is_stable_sort(s, s, rank));
    lemma_stable_sort_unique(out, s, s, rank);
}

} // verus!
