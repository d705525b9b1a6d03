//! Full-text search: one index per window of time, searched window by window.

use std::time::Duration;

use vstd::prelude::*;

use crate::decimal;
use crate::decimal::{decimal_text, signed_text};
use crate::keycodec::bytes_from;
use crate::retention;
use crate::rollup::space_saving;
use crate::sorting;
use crate::sorting::sort_by_rank;
use crate::text::concat;

verus! {

/// The most windows that one search visits.
pub const MAX_BUCKETS_PER_SEARCH: i64 = 200;

/// The width of a window in nanoseconds, at least one, cut down to 64 bits.
pub open spec fn width_of(bucket_duration: Duration) -> int {
    if retention::duration_nanos(bucket_duration) == 0 {
        1
    } else {
        (retention::duration_nanos(bucket_duration) as i64) as int
    }
}

/// `x` as 64-bit integers wrap around.
pub open spec fn wrapped(x: int) -> int {
    if x < i64::MIN {
        x + 0x1_0000_0000_0000_0000
    } else {
        x
    }
}

/// The number of the window that an instant falls into.
pub open spec fn bucket_index(timestamp_ns: int, width: int) -> int {
    timestamp_ns / width
}

/// The name of a window's index: it carries the start of the window.
pub open spec fn bucket_name(index: int, width: int) -> Seq<char> {
    "text_bucket_"@ + decimal::int_text(wrapped(index * width))
}

fn bucket_width(bucket_duration: Duration) -> (r: i64)
    ensures
        r == width_of(bucket_duration),
{
    let nanos: u128 = bucket_duration.as_nanos();
    if nanos == 0 {
        1
    } else {
        nanos as i64
    }
}

/// The number of the window of an instant: a division that rounds down.
fn index_of(timestamp_ns: i64, width: i64) -> (r: i64)
    requires
        width >= 1,
    ensures
        r == bucket_index(timestamp_ns as int, width as int),
        r * width <= timestamp_ns < (r + 1) * width,
{
    let t: i128 = timestamp_ns as i128;
    let w: i128 = width as i128;
    let r: i128 = if t >= 0 {
        ((t as u128) / (w as u128)) as i128
    } else {
        -(((((-t) as u128) + (w as u128) - 1) / (w as u128)) as i128)
    };
    proof {
        let n = timestamp_ns as int;
        let d = width as int;
        if n >= 0 {
            vstd::arithmetic::div_mod::lemma_fundamental_div_mod(n, d);
        } else {
            let up = (-n + d - 1) / d;
            vstd::arithmetic::div_mod::lemma_fundamental_div_mod(-n + d - 1, d);
            let rem = (-n + d - 1) % d;
            assert(n == (-up) * d + (d - 1 - rem)) by (nonlinear_arith)
                requires
                    -n + d - 1 == d * up + rem,
            ;
            vstd::arithmetic::div_mod::lemma_fundamental_div_mod_converse(
                n,
                d,
                -up,
                d - 1 - rem,
            );
        }
        assert(r == n / d);
        vstd::arithmetic::div_mod::lemma_fundamental_div_mod(n, d);
        assert(r * d <= n < (r + 1) * d) by (nonlinear_arith)
            requires
                n == d * (n / d) + n % d,
                0 <= n % d < d,
                r == n / d,
        ;
        assert(i64::MIN <= r <= i64::MAX) by (nonlinear_arith)
            requires
                r * d <= n,
                n < (r + 1) * d,
                d >= 1,
                i64::MIN <= n <= i64::MAX,
        ;
    }
    r as i64
}

fn name_of(index: i128, width: i64) -> (r: Vec<u8>)
    requires
        width >= 1,
        i64::MIN - i64::MAX <= index * width <= i64::MAX,
        -0x1_0000_0000_0000_0000 <= index <= i64::MAX,
    ensures
        r@ == vstd::utf8::encode_utf8(bucket_name(index as int, width as int)),
{
    assert(-0x1_0000_0000_0000_0000 * i64::MAX <= index * width <= i64::MAX * i64::MAX)
        by (nonlinear_arith)
        requires
            1 <= width <= i64::MAX,
            -0x1_0000_0000_0000_0000 <= index <= i64::MAX,
    ;
    let start: i128 = index * (width as i128);
    let shown: i64 = if start < i64::MIN as i128 {
        (start + 0x1_0000_0000_0000_0000) as i64
    } else {
        start as i64
    };
    let name: String = concat("text_bucket_", signed_text(shown).as_str());
    let r: Vec<u8> = bytes_from(name.as_str().as_bytes(), 0);
    assert(r@ =~= vstd::utf8::encode_utf8(name@));
    r
}

/// The index namespace of an instant: one for each window.
pub fn bucket_namespace(timestamp_ns: i64, bucket_duration: Duration) -> (r: Vec<u8>)
    requires
        width_of(bucket_duration) >= 1,
    ensures
        r@ == vstd::utf8::encode_utf8(
            bucket_name(
                bucket_index(timestamp_ns as int, width_of(bucket_duration)),
                width_of(bucket_duration),
            ),
        ),
{
    let width: i64 = bucket_width(bucket_duration);
    let index: i64 = index_of(timestamp_ns, width);
    proof {
        assert(index * width > timestamp_ns - width) by (nonlinear_arith)
            requires
                timestamp_ns < (index + 1) * width,
        ;
    }
    name_of(index as i128, width)
}

/// The names of the windows from `first` on that start before `end_ns`.
pub open spec fn names_from(first: int, width: int, end_ns: int) -> Seq<Seq<u8>>
    decreases
            (if first * width < end_ns {
                end_ns - first * width
            } else {
                0
            }),
{
    if width <= 0 || first * width >= end_ns {
        seq![]
    } else {
        proof {
            assert((first + 1) * width == first * width + width) by (nonlinear_arith);
        }
        seq![vstd::utf8::encode_utf8(bucket_name(first, width))] + names_from(
            first + 1,
            width,
            end_ns,
        )
    }
}

pub open spec fn byte_views(names: Seq<Vec<u8>>) -> Seq<Seq<u8>> {
    names.map_values(|n: Vec<u8>| n@)
}

/// The namespaces of the windows from that of `start_ns` on that start before `end_ns`, by
/// time: all windows that overlap the range.
pub fn bucket_namespaces_for_range(
    start_ns: i64,
    end_ns: i64,
    bucket_duration: Duration,
) -> (r: Vec<Vec<u8>>)
    requires
        width_of(bucket_duration) >= 1,
    ensures
        byte_views(r@) == names_from(
            bucket_index(start_ns as int, width_of(bucket_duration)),
            width_of(bucket_duration),
            end_ns as int,
        ),
{
    let width: i64 = bucket_width(bucket_duration);
    let first: i64 = index_of(start_ns, width);
    let mut out: Vec<Vec<u8>> = Vec::new();
    let mut index: i128 = first as i128;
    proof {
        assert(index * width > start_ns - width) by (nonlinear_arith)
            requires
                start_ns < (index + 1) * width,
        ;
    }
    let mut start: i128 = (first as i128) * (width as i128);
    assert(byte_views(out@) + names_from(index as int, width as int, end_ns as int)
        =~= names_from(first as int, width as int, end_ns as int));
    while start < end_ns as i128
        invariant
            width >= 1,
            start == index * width,
            i64::MIN - i64::MAX <= start <= i64::MAX + i64::MAX,
            -0x1_0000_0000_0000_0000 <= index <= 0x1_0000_0000_0000_0000,
            byte_views(out@) + names_from(index as int, width as int, end_ns as int)
                =~= names_from(first as int, width as int, end_ns as int),
        decreases
                (if start < end_ns {
                    end_ns - start
                } else {
                    0
                }),
    {
        proof {
            assert(index <= i64::MAX) by (nonlinear_arith)
                requires
                    index * width < i64::MAX,
                    width >= 1,
            ;
            assert((index + 1) * width == index * width + width) by (nonlinear_arith);
        }
        let ghost before = out@;
        let name: Vec<u8> = name_of(index, width);
        let ghost view = name@;
        out.push(name);
        assert(byte_views(out@) =~= byte_views(before).push(view));
        index = index + 1;
        start = start + width as i128;
    }
    assert(byte_views(out@) =~= names_from(first as int, width as int, end_ns as int));
    out
}

/// How many windows a search asks for, roughly: the span, as far as it fits 64 bits, in
/// windows, and one more.
pub open spec fn asked_buckets(start_ns: int, end_ns: int, width: int) -> int {
    let span = if end_ns - start_ns > i64::MAX {
        i64::MAX as int
    } else {
        end_ns - start_ns
    };
    if span < 0 {
        1
    } else if span / width + 1 > i64::MAX {
        i64::MAX as int
    } else {
        span / width + 1
    }
}

/// Why a search is refused: its range is too wide.
pub open spec fn too_wide(asked: int, bucket_secs: nat) -> Seq<char> {
    "search range spans ~"@ + decimal::int_text(asked) + " buckets (limit 200) at "@
        + decimal::decimal(bucket_secs) + "s bucket duration — narrow the time range"@
}

/// The namespaces that a search visits; nothing where its range is too wide.
pub open spec fn search_plan(start_ns: int, end_ns: int, width: int) -> Option<Seq<Seq<u8>>> {
    if asked_buckets(start_ns, end_ns, width) > MAX_BUCKETS_PER_SEARCH {
        None
    } else {
        Some(names_from(bucket_index(start_ns, width), width, end_ns))
    }
}

/// Plans a search: the namespaces to visit, by time. A range of too many windows is
/// refused.
pub fn plan_search(start_ns: i64, end_ns: i64, bucket_duration: Duration) -> (r: Result<
    Vec<Vec<u8>>,
    String,
>)
    requires
        width_of(bucket_duration) >= 1,
    ensures
        match r {
            Ok(names) => asked_buckets(
                start_ns as int,
                end_ns as int,
                width_of(bucket_duration),
            ) <= MAX_BUCKETS_PER_SEARCH && byte_views(names@) == names_from(
                bucket_index(start_ns as int, width_of(bucket_duration)),
                width_of(bucket_duration),
                end_ns as int,
            ),
            Err(e) => {
                let asked = asked_buckets(
                    start_ns as int,
                    end_ns as int,
                    width_of(bucket_duration),
                );
                asked > MAX_BUCKETS_PER_SEARCH && e@ == too_wide(
                    asked,
                    (retention::duration_nanos(bucket_duration) / 1_000_000_000) as nat,
                )
            },
        },
        r is Ok <==> asked_buckets(start_ns as int, end_ns as int, width_of(bucket_duration)) <= 200,
        match r {
            Ok(names) => search_plan(start_ns as int, end_ns as int, width_of(bucket_duration))
                == Some(byte_views(names@)),
            Err(_) => search_plan(start_ns as int, end_ns as int, width_of(bucket_duration))
                is None,
        },
{
    let width: i64 = bucket_width(bucket_duration);
    let exact: i128 = end_ns as i128 - start_ns as i128;
    if exact >= 0 {
        let span: u64 = if exact > i64::MAX as i128 {
            i64::MAX as u64
        } else {
            exact as u64
        };
        let whole: u64 = span / (width as u64);
        proof {
            assert(whole <= i64::MAX) by (nonlinear_arith)
                requires
                    whole == span / (width as u64),
                    span <= i64::MAX,
                    width >= 1,
            ;
        }
        let asked: i64 = if whole >= i64::MAX as u64 {
            i64::MAX
        } else {
            whole as i64 + 1
        };
        if asked > MAX_BUCKETS_PER_SEARCH {
            let mut why: String = concat("search range spans ~", signed_text(asked).as_str());
            why.append(" buckets (limit 200) at ");
            why.append(decimal_text(bucket_duration.as_secs()).as_str());
            why.append("s bucket duration — narrow the time range");
            return Err(why);
        }
    }
    Ok(bucket_namespaces_for_range(start_ns, end_ns, bucket_duration))
}

/// A hit of a search: the document, and the bits of its score.
#[derive(Debug, PartialEq)]
pub struct TextHit {
    pub doc_id: Vec<u8>,
    pub score_bits: u32,
}

/// The place of a score among all scores, from the bits of its 32-bit float: scores that
/// are numbers are ordered like their ranks, and both zeros have rank zero.
pub open spec fn score_rank(bits: u32) -> int {
    if bits < 0x8000_0000 {
        bits as int
    } else {
        -(bits - 0x8000_0000)
    }
}

/// Higher scores first.
pub open spec fn hit_rank() -> spec_fn(TextHit) -> int {
    |h: TextHit| -score_rank(h.score_bits)
}

/// `kept` is the first `k` of the hits by descending score, those of one score in their order.
pub open spec fn is_ranked(kept: Seq<TextHit>, hits: Seq<TextHit>, k: nat) -> bool {
    exists|all: Seq<TextHit>| #[trigger]
        sorting::is_stable_sort(all, hits, hit_rank()) && kept == space_saving::first(all, k)
}

/// Orders hits by descending score, hits of one score in their order, and keeps the first
/// `k`.
pub fn rank_hits(hits: Vec<TextHit>, k: usize) -> (r: Vec<TextHit>)
    ensures
        exists|all: Seq<TextHit>| #[trigger]
            sorting::is_stable_sort(all, hits@, hit_rank()) && r@ == space_saving::first(
                all,
                k as nat,
            ),
        is_ranked(r@, hits@, k as nat),
{
    let ghost given = hits@;
    let mut ranked: Vec<(i128, TextHit)> = Vec::new();
    for h in it: hits.into_iter()
        invariant
            it.seq() == given,
            ranked@.len() == it.index(),
            forall|i: int|
                0 <= i < ranked@.len() ==> (#[trigger] ranked@[i]).0 == hit_rank()(given[i])
                    && ranked@[i].1 == given[i],
    {
        let bits: u32 = h.score_bits;
        let rank: i128 = if bits < 0x8000_0000 {
            -(bits as i128)
        } else {
            (bits - 0x8000_0000) as i128
        };
        ranked.push((rank, h));
    }
    let ghost from = ranked@;
    let sorted: Vec<(i128, TextHit)> = sort_by_rank(ranked);
    let ghost done = sorted@;
    proof {
        sorting::lemma_sorted_values(done, from, hit_rank());
        assert(from.map_values(|p: (i128, TextHit)| p.1) =~= given);
    }
    let mut out: Vec<TextHit> = Vec::new();
    for p in it: sorted.into_iter()
        invariant
            it.seq() == done,
            out@.len() == it.index(),
            forall|i: int| 0 <= i < out@.len() ==> #[trigger] out@[i] == done[i].1,
    {
        out.push(p.1);
    }
    let ghost all = done.map_values(|p: (i128, TextHit)| p.1);
    assert(out@ =~= all);
    out.truncate(k);
    assert(out@ =~= space_saving::first(all, k as nat));
    assert(sorting::is_stable_sort(all, given, hit_rank()));
    out
}

/// Two instants share a window exactly when their windows have one number, and windows
/// that both start within 64 bits have different names.
pub proof fn law_windows_have_their_own_names(a: int, b: int, width: int)
    requires
        width >= 1,
        i64::MIN <= bucket_index(a, width) * width,
        i64::MIN <= bucket_index(b, width) * width,
    ensures
        bucket_name(bucket_index(a, width), width) == bucket_name(bucket_index(b, width), width)
            <==> bucket_index(a, width) == bucket_index(b, width),
{
    let p = bucket_index(a, width);
    let q = bucket_index(b, width);
    let x = decimal::int_text(p * width);
    let y = decimal::int_text(q * width);
    if bucket_name(p, width) == bucket_name(q, width) {
        let n = "text_bucket_"@.len() as int;
        assert(bucket_name(p, width).skip(n) =~= x);
        assert(bucket_name(q, width).skip(n) =~= y);
        decimal::law_int_text_round_trip(p * width);
        decimal::law_int_text_round_trip(q * width);
        assert(p == q) by (nonlinear_arith)
            requires
                p * width == q * width,
                width >= 1,
        ;
    }
}

/// A search visits the window of every instant of its range.
pub proof fn law_search_covers_its_range(t: int, start_ns: int, end_ns: int, width: int)
    requires
        width >= 1,
        start_ns <= t < end_ns,
    ensures
        names_from(bucket_index(start_ns, width), width, end_ns).contains(
            vstd::utf8::encode_utf8(bucket_name(bucket_index(t, width), width)),
        ),
{
    let q = bucket_index(t, width);
    vstd::arithmetic::div_mod::lemma_div_is_ordered(start_ns, t, width);
    vstd::arithmetic::div_mod::lemma_fundamental_div_mod(t, width);
    assert(q * width <= t) by (nonlinear_arith)
        requires
            t == width * (t / width) + t % width,
            0 <= t % width,
            q == t / width,
    ;
    lemma_names_reach(bucket_index(start_ns, width), q, width, end_ns);
}

proof fn lemma_names_reach(first: int, q: int, width: int, end_ns: int)
    requires
        width >= 1,
        first <= q,
        q * width < end_ns,
    ensures
        names_from(first, width, end_ns).contains(vstd::utf8::encode_utf8(bucket_name(q, width))),
    decreases q - first,
{
    assert(first * width <= q * width) by (nonlinear_arith)
        requires
            first <= q,
            width >= 1,
    ;
    let all = names_from(first, width, end_ns);
    let wanted = vstd::utf8::encode_utf8(bucket_name(q, width));
    if first == q {
        assert(all[0] == wanted);
    } else {
        lemma_names_reach(first + 1, q, width, end_ns);
        let rest = names_from(first + 1, width, end_ns);
        let i = choose|i: int| 0 <= i < rest.len() && rest[i] == wanted;
        assert(all[i + 1] == wanted);
    }
}

/// The rank of a score orders the numbers as floats are ordered: above the sign bit the
/// bits of the smaller magnitude come first for positive scores and last for negative ones,
/// every negative score comes before every positive one, and the two zeros are equal.
pub proof fn law_score_rank_orders_scores(a: u32, b: u32)
    requires
        a % 0x8000_0000 <= 0x7f80_0000,
        b % 0x8000_0000 <= 0x7f80_0000,
    ensures
        a < 0x8000_0000 && b < 0x8000_0000 ==> (score_rank(a) < score_rank(b) <==> a < b),
        a >= 0x8000_0000 && b >= 0x8000_0000 ==> (score_rank(a) < score_rank(b) <==> b < a),
        a >= 0x8000_0000 && b < 0x8000_0000 ==> (score_rank(a) < score_rank(b) <==> !(a
            == 0x8000_0000 && b == 0)),
        a < 0x8000_0000 && b >= 0x8000_0000 ==> !(score_rank(a) < score_rank(b)),
        score_rank(a) == score_rank(b) <==> a == b || (a % 0x8000_0000 == 0 && b % 0x8000_0000
            == 0),
{
}

/// Of the hits that are kept none stands before one of higher score, and no hit that is cut
/// off scores higher than one that is kept. As many are kept as were asked for, or all;
/// each was found, and those of one score stand in the order in which they were found.
pub proof fn law_best_hits_come_first(
    hits: Seq<TextHit>,
    all: Seq<TextHit>,
    k: nat,
    kept: Seq<TextHit>,
    bits: u32,
)
    requires
        sorting::is_stable_sort(all, hits, hit_rank()),
        kept == space_saving::first(all, k),
        forall|i: int|
            0 <= i < hits.len() ==> (#[trigger] hits[i]).score_bits <= 0x7f80_0000,
    ensures
        kept.len() == if k < hits.len() {
            k
        } else {
            hits.len()
        },
        all.to_multiset() == hits.to_multiset(),
        kept.is_prefix_of(all),
        forall|i: int, j: int|
            0 <= i < j < kept.len() ==> (#[trigger] kept[i]).score_bits >= (
            #[trigger] kept[j]).score_bits,
        forall|i: int, j: int|
            0 <= i < kept.len() && kept.len() <= j < all.len() ==> (
            #[trigger] kept[i]).score_bits >= (#[trigger] all[j]).score_bits,
        bits <= 0x7f80_0000 ==> all.filter(|h: TextHit| h.score_bits == bits) == hits.filter(
            |h: TextHit| h.score_bits == bits,
        ),
{
    broadcast use vstd::seq_lib::group_to_multiset_ensures;

    let rank = hit_rank();
    let at = -(bits as int);
    sorting::law_sorting_only_reorders(all, hits, rank, at);
    assert forall|i: int| 0 <= i < all.len() implies (#[trigger] all[i]).score_bits
        <= 0x7f80_0000 by {
        assert(all.contains(all[i]));
        assert(all.to_multiset().count(all[i]) > 0);
        assert(hits.to_multiset().count(all[i]) > 0);
        assert(hits.contains(all[i]));
    }
    assert forall|i: int, j: int| 0 <= i < j < all.len() implies (#[trigger] all[i]).score_bits
        >= (#[trigger] all[j]).score_bits by {
        if all[i].score_bits < all[j].score_bits {
            assert(rank(all[j]) < rank(all[i]));
        }
    }
    assert forall|i: int| 0 <= i < hits.len() implies (rank(#[trigger] hits[i]) == at) == (
    hits[i].score_bits == bits) || bits > 0x7f80_0000 by {}
    if bits <= 0x7f80_0000 {
        lemma_same_filter(all, |x: TextHit| rank(x) == at, |h: TextHit| h.score_bits == bits);
        lemma_same_filter(hits, |x: TextHit| rank(x) == at, |h: TextHit| h.score_bits == bits);
    }
}

/// Two tests that agree on every item pick the same items.
proof fn lemma_same_filter(
    s: Seq<TextHit>,
    p: spec_fn(TextHit) -> bool,
    q: spec_fn(TextHit) -> bool,
)
    requires
        forall|i: int| 0 <= i < s.len() ==> p(#[trigger] s[i]) == q(s[i]),
    ensures
        s.filter(p) == s.filter(q),
    decreases s.len(),
{
    reveal(Seq::filter);
    if s.len() > 0 {
        let rest = s.drop_last();
        assert forall|i: int| 0 <= i < rest.len() implies p(#[trigger] rest[i]) == q(rest[i]) by {
            assert(rest[i] == s[i]);
        }
        lemma_same_filter(rest, p, q);
        assert(s[s.len() - 1] == s.last());
    }
}

/// The window of an instant is the one that it lies in: from the window's number times the
/// width up to the next, and its name carries where it starts.
pub proof fn law_instants_lie_in_their_windows(t: int, width: int)
    requires
        width >= 1,
    ensures
        bucket_index(t, width) * width <= t < (bucket_index(t, width) + 1) * width,
        bucket_index(t, width) * width >= i64::MIN ==> bucket_name(bucket_index(t, width), width)
            == "text_bucket_"@ + decimal::int_text(bucket_index(t, width) * width),
        bucket_index(t, width) * width < i64::MIN ==> bucket_name(bucket_index(t, width), width)
            == "text_bucket_"@ + decimal::int_text(
            bucket_index(t, width) * width + 0x1_0000_0000_0000_0000,
        ),
{
    vstd::arithmetic::div_mod::lemma_fundamental_div_mod(t, width);
    assert((t / width) * width <= t < (t / width + 1) * width) by (nonlinear_arith)
        requires
            t == width * (t / width) + t % width,
            0 <= t % width < width,
    ;
}

/// A search visits its windows by time, one after the other, and stops at the first that
/// starts at or after the end of the range.
pub proof fn law_search_visits_window_after_window(first: int, width: int, end_ns: int, i: int)
    requires
        width >= 1,
    ensures
        0 <= i < names_from(first, width, end_ns).len() ==> names_from(first, width, end_ns)[i]
            == vstd::utf8::encode_utf8(bucket_name(first + i, width)) && (first + i) * width
            < end_ns,
        (first + names_from(first, width, end_ns).len()) * width >= end_ns,
    decreases
            (if first * width < end_ns {
                end_ns - first * width
            } else {
                0
            }),
{
    if first * width < end_ns {
        assert((first + 1) * width == first * width + width) by (nonlinear_arith);
        law_search_visits_window_after_window(first + 1, width, end_ns, i - 1);
        let rest = names_from(first + 1, width, end_ns);
        let all = names_from(first, width, end_ns);
        assert(all == seq![vstd::utf8::encode_utf8(bucket_name(first, width))] + rest);
        if 0 < i < all.len() {
            assert(all[i] == rest[i - 1]);
        }
    }
}

/// A search asks for one window more than its span fills, as far as the span is counted;
/// a range that ends before it starts asks for one.
pub proof fn law_asked_windows(start_ns: int, end_ns: int, width: int)
    requires
        width >= 1,
        end_ns - start_ns < i64::MAX,
    ensures
        end_ns < start_ns ==> asked_buckets(start_ns, end_ns, width) == 1,
        end_ns >= start_ns ==> (asked_buckets(start_ns, end_ns, width) - 1) * width <= end_ns
            - start_ns < asked_buckets(start_ns, end_ns, width) * width,
{
    if end_ns >= start_ns {
        let span = end_ns - start_ns;
        vstd::arithmetic::div_mod::lemma_fundamental_div_mod(span, width);
        assert((span / width) * width <= span < (span / width + 1) * width && span / width <= span)
            by (nonlinear_arith)
            requires
                span == width * (span / width) + span % width,
                0 <= span % width < width,
                span >= 0,
                width >= 1,
        ;
    }
}

/// Windows are as wide as configured, and never narrower than a nanosecond.
pub proof fn law_window_width(bucket_duration: Duration)
    ensures
        retention::duration_nanos(bucket_duration) == 0 ==> width_of(bucket_duration) == 1,
        0 < retention::duration_nanos(bucket_duration) <= i64::MAX ==> width_of(bucket_duration)
            == retention::duration_nanos(bucket_duration),
{
}

/// The ranked hits: as many as asked for, or all. None stands before one of higher score, and
/// every hit that was found is kept as often as it was found, or scores no higher than any
/// that is kept.
pub proof fn law_ranked_hits(kept: Seq<TextHit>, hits: Seq<TextHit>, k: nat, h: TextHit)
    requires
        is_ranked(kept, hits, k),
        forall|i: int|
            0 <= i < hits.len() ==> (#[trigger] hits[i]).score_bits <= 0x7f80_0000,
    ensures
        kept.len() == if k < hits.len() {
            k
        } else {
            hits.len()
        },
        forall|i: int, j: int|
            0 <= i < j < kept.len() ==> (#[trigger] kept[i]).score_bits >= (
            #[trigger] kept[j]).score_bits,
        kept.contains(h) ==> hits.contains(h),
        hits.contains(h) && kept.to_multiset().count(h) < hits.to_multiset().count(h) ==> forall|
            i: int,
        | 0 <= i < kept.len() ==> (#[trigger] kept[i]).score_bits >= h.score_bits,
{
    broadcast use vstd::seq_lib::group_to_multiset_ensures;

    let all = choose|all: Seq<TextHit>| #[trigger]
        sorting::is_stable_sort(all, hits, hit_rank()) && kept == space_saving::first(all, k);
    law_best_hits_come_first(hits, all, k, kept, 0);
    let n = kept.len() as int;
    let cut = all.skip(n);
    assert(all =~= kept + cut);
    vstd::seq_lib::lemma_multiset_commutative(kept, cut);
    assert(all.to_multiset() =~= kept.to_multiset().add(cut.to_multiset()));
    assert(all.to_multiset().count(h) == kept.to_multiset().count(h) + cut.to_multiset().count(h));
    if kept.contains(h) {
        let i = choose|i: int| 0 <= i < kept.len() && kept[i] == h;
        assert(all[i] == h);
        assert(all.contains(h));
        assert(hits.to_multiset().count(h) > 0);
    }
    if hits.contains(h) && kept.to_multiset().count(h) < hits.to_multiset().count(h) {
        assert(cut.to_multiset().count(h) > 0);
        assert(cut.contains(h));
        let j = choose|j: int| 0 <= j < cut.len() && cut[j] == h;
        assert(all[n + j] == h);
    }
}

/// A search over at most 200 windows visits every window that holds an instant of its range;
/// a wider one is refused.
pub proof fn law_search_plan(start_ns: int, end_ns: int, width: int, t: int)
    requires
        width >= 1,
    ensures
        search_plan(start_ns, end_ns, width) is Some <==> asked_buckets(start_ns, end_ns, width)
            <= 200,
        search_plan(start_ns, end_ns, width) is Some && start_ns <= t < end_ns ==> search_plan(
            start_ns,
            end_ns,
            width,
        )->0.contains(vstd::utf8::encode_utf8(bucket_name(bucket_index(t, width), width))),
        search_plan(start_ns, end_ns, width) is Some && start_ns < end_ns ==> search_plan(
            start_ns,
            end_ns,
            width,
        )->0[0] == vstd::utf8::encode_utf8(bucket_name(bucket_index(start_ns, width), width)),
{
    if start_ns <= t < end_ns {
        law_search_covers_its_range(t, start_ns, end_ns, width);
    }
    if start_ns < end_ns {
        law_instants_lie_in_their_windows(start_ns, width);
        law_search_visits_window_after_window(bucket_index(start_ns, width), width, end_ns, 0);
        law_search_covers_its_range(start_ns, start_ns, end_ns, width);
    }
}

/// A search that is refused is told how many windows it asks for, how many it may ask for,
/// and how long a window is.
pub proof fn law_wide_searches_in_words(asked: int, bucket_secs: nat)
    ensures
        too_wide(asked, bucket_secs) == "search range spans ~"@ + decimal::int_text(asked)
            + " buckets (limit 200) at "@ + decimal::decimal(bucket_secs)
            + "s bucket duration — narrow the time range"@,
{
}

/// A span that does not fit 64 bits is counted as the longest that does.
pub proof fn law_longest_span(start_ns: int, end_ns: int, width: int)
    requires
        width >= 1,
        end_ns - start_ns >= i64::MAX,
    ensures
        asked_buckets(start_ns, end_ns, width) == asked_buckets(0, i64::MAX as int, width),
        width > 1 ==> asked_buckets(start_ns, end_ns, width) == i64::MAX as int / width + 1,
        width == 1 ==> asked_buckets(start_ns, end_ns, width) == i64::MAX,
{
    vstd::arithmetic::div_mod::lemma_fundamental_div_mod(i64::MAX as int, width);
    if width > 1 {
        assert(i64::MAX as int / width < i64::MAX) by (nonlinear_arith)
            requires
                width > 1,
                i64::MAX as int == width * (i64::MAX as int / width) + (i64::MAX as int) % width,
                0 <= (i64::MAX as int) % width,
        ;
    }
}

/// One score is less than another, by their bits: positive ones by ascending bits, negative
/// ones by descending bits, and a negative one is less than a positive one unless both are
/// zero.
pub open spec fn scores_less(a: u32, b: u32) -> bool {
    ||| a < 0x8000_0000 && b < 0x8000_0000 && a < b
    ||| a >= 0x8000_0000 && b >= 0x8000_0000 && a > b
    ||| a >= 0x8000_0000 && b < 0x8000_0000 && !(a == 0x8000_0000 && b == 0)
}

/// Among all scores that are numbers, negative ones too: no kept hit stands before one that
/// scores higher, and no hit that is cut off scores higher than one that is kept.
pub proof fn law_no_better_hit_comes_later(
    kept: Seq<TextHit>,
    hits: Seq<TextHit>,
    k: nat,
    h: TextHit,
)
    requires
        is_ranked(kept, hits, k),
        forall|i: int|
            0 <= i < hits.len() ==> (#[trigger] hits[i]).score_bits % 0x8000_0000 <= 0x7f80_0000,
    ensures
        forall|i: int, j: int|
            0 <= i < j < kept.len() ==> !scores_less(
                (#[trigger] kept[i]).score_bits,
                (#[trigger] kept[j]).score_bits,
            ),
        hits.contains(h) && kept.to_multiset().count(h) < hits.to_multiset().count(h) ==> forall|
            i: int,
        | 0 <= i < kept.len() ==> !scores_less((#[trigger] kept[i]).score_bits, h.score_bits),
{
    broadcast use vstd::seq_lib::group_to_multiset_ensures;

    let rank = hit_rank();
    let all = choose|all: Seq<TextHit>| #[trigger]
        sorting::is_stable_sort(all, hits, rank) && kept == space_saving::first(all, k);
    sorting::law_sorting_only_reorders(all, hits, rank, 0);
    space_saving::law_first_items(all, k);
    assert forall|i: int, j: int| 0 <= i < j < all.len() implies !scores_less(
        (#[trigger] all[i]).score_bits,
        (#[trigger] all[j]).score_bits,
    ) by {
        assert(!(rank(all[j]) < rank(all[i])));
    }
    let n = kept.len() as int;
    let cut = all.skip(n);
    assert(all =~= kept + cut);
    vstd::seq_lib::lemma_multiset_commutative(kept, cut);
    assert(all.to_multiset() =~= kept.to_multiset().add(cut.to_multiset()));
    assert forall|i: int| 0 <= i < n implies #[trigger] kept[i] == all[i] by {}
    if hits.contains(h) && kept.to_multiset().count(h) < hits.to_multiset().count(h) {
        assert(all.to_multiset().count(h) == kept.to_multiset().count(h)
            + cut.to_multiset().count(h));
        assert(cut.to_multiset().count(h) > 0);
        assert(cut.contains(h));
        let j = choose|j: int| 0 <= j < cut.len() && cut[j] == h;
        assert(all[n + j] == h);
    }
}

} // verus!
