//! Aggregate reads: one tier, chosen by the span of the query, folded over one field.

use vstd::prelude::*;

use crate::rollup::sketch;
use crate::rollup::sketch::{FieldSketch, MergeError};
use crate::rollup::space_saving;
use crate::rollup::worker;
use crate::rollup::worker::{decode_rollup_key, Tier};
use crate::text::same_text;

verus! {

pub const HOUR_NS: i64 = 3_600_000_000_000;

pub const DAY_NS: i64 = 24 * 3_600_000_000_000;

pub const MONTH_NS: i64 = 31 * 24 * 3_600_000_000_000;

/// The tier that answers a query of that span.
pub open spec fn tier_of_span(span: int) -> Tier {
    if span <= HOUR_NS {
        Tier::Minute
    } else if span <= DAY_NS {
        Tier::Hour
    } else if span <= MONTH_NS {
        Tier::Day
    } else {
        Tier::Month
    }
}

/// Picks the one tier that answers a query. Reading one tier only keeps a bucket and the
/// coarser bucket it was folded into from being counted twice.
pub fn tier_for(start_ns: i64, end_ns: i64) -> (r: Tier)
    ensures
        r == tier_of_span(end_ns - start_ns),
{
    let span: i128 = end_ns as i128 - start_ns as i128;
    if span <= HOUR_NS as i128 {
        Tier::Minute
    } else if span <= DAY_NS as i128 {
        Tier::Hour
    } else if span <= MONTH_NS as i128 {
        Tier::Day
    } else {
        Tier::Month
    }
}

/// The length of a tier's buckets.
pub open spec fn tier_width(tier: Tier) -> nat {
    match tier {
        Tier::Minute => 60 * 1_000_000_000,
        Tier::Hour => 3600 * 1_000_000_000,
        Tier::Day => 86_400 * 1_000_000_000,
        Tier::Month => 30 * 86_400 * 1_000_000_000,
    }
}

/// The length of a tier's buckets, in nanoseconds.
pub fn width_ns(tier: Tier) -> (r: i64)
    ensures
        r == tier_width(tier),
{
    match tier {
        Tier::Minute => 60 * 1_000_000_000,
        Tier::Hour => 3600 * 1_000_000_000,
        Tier::Day => 86_400 * 1_000_000_000,
        Tier::Month => 30 * 86_400 * 1_000_000_000,
    }
}

/// The time from `a` up to `b` overlaps the time from `c` up to `d`.
pub open spec fn overlaps(a: int, b: int, c: int, d: int) -> bool {
    a < b && c < d && a < d && c < b
}

/// The bucket belongs to that field, and its window of `width_ns` overlaps the range.
pub open spec fn is_wanted(
    key: Seq<u8>,
    field: Seq<char>,
    width_ns: int,
    start_ns: int,
    end_ns: int,
) -> bool {
    match worker::bucket_of(key) {
        Some((bucket, name)) => name == field && overlaps(
            bucket,
            bucket + width_ns,
            start_ns,
            end_ns,
        ),
        None => false,
    }
}

/// Whether a stored bucket belongs to that field, and its window of `width_ns` overlaps the
/// range.
pub fn wants_bucket(key: &[u8], field: &str, width_ns: i64, start_ns: i64, end_ns: i64) -> (r: bool)
    ensures
        r == is_wanted(key@, field@, width_ns as int, start_ns as int, end_ns as int),
{
    match decode_rollup_key(key) {
        Some((bucket, name)) => {
            let bucket_end: i128 = bucket as i128 + width_ns as i128;
            same_text(name.as_str(), field) && width_ns > 0 && start_ns < end_ns && bucket < end_ns
                && (start_ns as i128) < bucket_end
        },
        None => false,
    }
}

/// The buckets that belong to that field and whose windows overlap the range.
pub open spec fn wanted_by(
    field: Seq<char>,
    width_ns: int,
    start_ns: int,
    end_ns: int,
) -> spec_fn((Vec<u8>, Vec<u8>)) -> bool {
    |e: (Vec<u8>, Vec<u8>)| is_wanted(e.0@, field, width_ns, start_ns, end_ns)
}

/// Keeps the stored buckets that belong to that field and whose windows overlap the range,
/// in their order.
pub fn wanted_buckets(
    all: Vec<(Vec<u8>, Vec<u8>)>,
    field: &str,
    width_ns: i64,
    start_ns: i64,
    end_ns: i64,
) -> (out: Vec<(Vec<u8>, Vec<u8>)>)
    ensures
        out@ == all@.filter(wanted_by(field@, width_ns as int, start_ns as int, end_ns as int)),
{
    let ghost entries = all@;
    let ghost keep = wanted_by(field@, width_ns as int, start_ns as int, end_ns as int);
    let mut out: Vec<(Vec<u8>, Vec<u8>)> = Vec::new();
    proof {
        reveal(Seq::filter);
    }
    for e in it: all.into_iter()
        invariant
            it.seq() == entries,
            keep == wanted_by(field@, width_ns as int, start_ns as int, end_ns as int),
            out@ == entries.take(it.index()).filter(keep),
    {
        proof {
            reveal(Seq::filter);
            assert(entries.take(it.index() + 1).drop_last() =~= entries.take(it.index()));
        }
        if wants_bucket(&e.0, field, width_ns, start_ns, end_ns) {
            out.push(e);
        }
    }
    assert(entries.take(entries.len() as int) =~= entries);
    out
}

/// `after` is the answer `before` with one more bucket folded in. An error stays.
pub open spec fn steps(
    before: Result<Option<FieldSketch>, MergeError>,
    sketch: FieldSketch,
    after: Result<Option<FieldSketch>, MergeError>,
) -> bool {
    match before {
        Err(e) => after == Err::<Option<FieldSketch>, MergeError>(e),
        Ok(None) => after == Ok::<Option<FieldSketch>, MergeError>(Some(sketch)),
        Ok(Some(b)) => match sketch::merge_error(b, sketch) {
            Some(e) => after == Err::<Option<FieldSketch>, MergeError>(e),
            None => after matches Ok(Some(a)) && sketch::merges(b, sketch, a),
        },
    }
}

/// `answer` is all buckets folded into one, in their order; nothing where there is none,
/// and the error of the first that does not merge.
pub open spec fn folds(
    sketches: Seq<FieldSketch>,
    answer: Result<Option<FieldSketch>, MergeError>,
) -> bool
    decreases sketches.len(),
{
    if sketches.len() == 0 {
        answer == Ok::<Option<FieldSketch>, MergeError>(None)
    } else {
        exists|prior: Result<Option<FieldSketch>, MergeError>|
            folds(sketches.drop_last(), prior) && #[trigger] steps(prior, sketches.last(), answer)
    }
}

proof fn lemma_error_folds(sketches: Seq<FieldSketch>, i: int, e: MergeError)
    requires
        0 <= i <= sketches.len(),
        folds(sketches.take(i), Err(e)),
    ensures
        folds(sketches, Err(e)),
    decreases sketches.len() - i,
{
    if i == sketches.len() {
        assert(sketches.take(i) =~= sketches);
    } else {
        let next = sketches.take(i + 1);
        let answer = Err::<Option<FieldSketch>, MergeError>(e);
        assert(next.drop_last() =~= sketches.take(i));
        assert(folds(next.drop_last(), answer) && steps(answer, next.last(), answer));
        lemma_error_folds(sketches, i + 1, e);
    }
}

/// Folds the buckets of a field into one sketch.
pub fn merged_sketch(sketches: Vec<FieldSketch>) -> (r: Result<Option<FieldSketch>, MergeError>)
    requires
        forall|i: int| 0 <= i < sketches@.len() ==> (#[trigger] sketches@[i]).sound(),
    ensures
        folds(sketches@, r),
        r matches Ok(Some(s)) ==> s.sound(),
{
    let ghost all = sketches@;
    let mut merged: Option<FieldSketch> = None;
    assert(folds(all.take(0), Ok(merged)));
    for s in it: sketches.into_iter()
        invariant
            it.seq() == all,
            forall|i: int| 0 <= i < all.len() ==> (#[trigger] all[i]).sound(),
            folds(all.take(it.index()), Ok(merged)),
            merged matches Some(m) ==> m.sound(),
    {
        let ghost before = merged;
        let ghost sketch = s;
        assert(all[it.index()] == s);
        let ghost next = all.take(it.index() + 1);
        assert(next.drop_last() =~= all.take(it.index()));
        match merge_bucket(&mut merged, s) {
            Ok(_) => {
                assert(folds(next.drop_last(), Ok(before)) && steps(
                    Ok(before),
                    next.last(),
                    Ok(merged),
                ));
            },
            Err(e) => {
                proof {
                    assert(folds(next.drop_last(), Ok(before)) && steps(
                        Ok(before),
                        next.last(),
                        Err(e),
                    ));
                    lemma_error_folds(all, it.index() + 1, e);
                }
                return Err(e);
            },
        }
    }
    assert(all.take(all.len() as int) =~= all);
    Ok(merged)
}

/// Folds one more bucket into the answer. Where the sketches do not merge, the answer
/// stays as it was.
pub fn merge_bucket(merged: &mut Option<FieldSketch>, sketch: FieldSketch) -> (r: Result<
    (),
    MergeError,
>)
    requires
        *old(merged) matches Some(s) ==> s.sound(),
        sketch.sound(),
    ensures
        *final(merged) matches Some(s) && s.sound(),
        match *old(merged) {
            None => r is Ok && *final(merged) == Some(sketch),
            Some(before) => match r {
                Ok(_) => sketch::merge_error(before, sketch) is None && sketch::merges(
                    before,
                    sketch,
                    final(merged)->0,
                ),
                Err(e) => sketch::merge_error(before, sketch) == Some(e) && *final(merged) == *old(
                    merged,
                ),
            },
        },
{
    let taken: Option<FieldSketch> = merged.take();
    match taken {
        None => {
            *merged = Some(sketch);
            Ok(())
        },
        Some(existing) => {
            let mut target: FieldSketch = existing;
            let r: Result<(), MergeError> = target.merge_from(&sketch);
            *merged = Some(target);
            r
        },
    }
}

/// The place of a tier, from the finest to the coarsest.
pub open spec fn coarseness(tier: Tier) -> int {
    match tier {
        Tier::Minute => 0,
        Tier::Hour => 1,
        Tier::Day => 2,
        Tier::Month => 3,
    }
}

/// A bucket that holds any instant of the range is wanted, and no other: nothing that was
/// counted in the range is left out.
pub proof fn law_no_overlapping_bucket_is_left_out(
    bucket_start_ns: i64,
    field: Seq<char>,
    width_ns: int,
    start_ns: int,
    end_ns: int,
)
    ensures
        is_wanted(
            worker::bucket_key(bucket_start_ns as int, field),
            field,
            width_ns,
            start_ns,
            end_ns,
        ) <==> exists|t: int| is_in(t, bucket_start_ns as int, width_ns) && start_ns <= t < end_ns,
{
    worker::law_rollup_key_round_trip(bucket_start_ns, field);
    let b = bucket_start_ns as int;
    if overlaps(b, b + width_ns, start_ns, end_ns) {
        let t = if b < start_ns {
            start_ns
        } else {
            b
        };
        assert(is_in(t, b, width_ns));
    }
}

/// The instant lies in the window of that length.
pub open spec fn is_in(t: int, from: int, width_ns: int) -> bool {
    from <= t < from + width_ns
}

/// A longer query is never answered from a finer tier.
pub proof fn law_longer_spans_read_coarser_tiers(span: int, longer: int)
    requires
        span <= longer,
    ensures
        coarseness(tier_of_span(span)) <= coarseness(tier_of_span(longer)),
{
}

/// The sketches of one field among those of many.
pub open spec fn only(items: Seq<(Seq<char>, FieldSketch)>, field: Seq<char>) -> Seq<FieldSketch>
    decreases items.len(),
{
    if items.len() == 0 {
        seq![]
    } else if items.last().0 == field {
        only(items.drop_last(), field).push(items.last().1)
    } else {
        only(items.drop_last(), field)
    }
}

/// A coarser bucket holds, for each field that was there, all sketches of that field folded
/// into one, just as a query that reads them folds them.
pub proof fn law_coarser_bucket_folds_each_field(
    items: Seq<(Seq<char>, FieldSketch)>,
    bucket: Map<Seq<char>, FieldSketch>,
    field: Seq<char>,
)
    requires
        worker::merges_up(items, Ok(bucket)),
    ensures
        bucket.dom().contains(field) <==> only(items, field).len() > 0,
        bucket.dom().contains(field) ==> folds(only(items, field), Ok(Some(bucket[field]))),
    decreases items.len(),
{
    if items.len() > 0 {
        let answer = Ok::<Map<Seq<char>, FieldSketch>, MergeError>(bucket);
        let before = items.drop_last();
        let (name, sketch) = items.last();
        let prior = choose|prior: Result<Map<Seq<char>, FieldSketch>, MergeError>|
            worker::merges_up(before, prior) && #[trigger] worker::folds_in(
                prior,
                items.last(),
                answer,
            );
        let m = prior->Ok_0;
        law_coarser_bucket_folds_each_field(before, m, field);
        if name == field {
            let all = only(items, field);
            let head = only(before, field);
            assert(all.drop_last() =~= head);
            if m.dom().contains(field) {
                assert(steps(Ok(Some(m[field])), all.last(), Ok(Some(bucket[field]))));
            } else {
                assert(head =~= Seq::<FieldSketch>::empty());
                assert(folds(head, Ok(None)));
                assert(steps(Ok(None), all.last(), Ok(Some(bucket[field]))));
            }
        }
    }
}

/// The counts of exact sketches, added up.
pub open spec fn counts_total(sketches: Seq<FieldSketch>) -> Map<Seq<char>, u64>
    decreases sketches.len(),
{
    if sketches.len() == 0 {
        Map::empty()
    } else {
        match sketches.last() {
            FieldSketch::Exact(counts) => space_saving::summed(
                counts_total(sketches.drop_last()),
                counts@,
            ),
            _ => counts_total(sketches.drop_last()),
        }
    }
}

/// Folding exact sketches never fails, and gives the sum of all their counts.
pub proof fn law_exact_buckets_add_up(
    sketches: Seq<FieldSketch>,
    answer: Result<Option<FieldSketch>, MergeError>,
)
    requires
        sketches.len() > 0,
        forall|i: int| 0 <= i < sketches.len() ==> (#[trigger] sketches[i]) is Exact,
        folds(sketches, answer),
    ensures
        answer matches Ok(Some(FieldSketch::Exact(counts))) && counts@ == counts_total(sketches),
    decreases sketches.len(),
{
    let before = sketches.drop_last();
    let prior = choose|prior: Result<Option<FieldSketch>, MergeError>|
        folds(before, prior) && #[trigger] steps(prior, sketches.last(), answer);
    assert(sketches.last() is Exact);
    if before.len() == 0 {
        let m = sketches.last()->Exact_0@;
        assert(space_saving::summed(Map::empty(), m) =~= m);
        assert(counts_total(before) == Map::<Seq<char>, u64>::empty());
        assert(prior == Ok::<Option<FieldSketch>, MergeError>(None));
        assert(answer == Ok::<Option<FieldSketch>, MergeError>(Some(sketches.last())));
    } else {
        assert forall|i: int| 0 <= i < before.len() implies (#[trigger] before[i]) is Exact by {
            assert(before[i] == sketches[i]);
        }
        law_exact_buckets_add_up(before, prior);
        let b = prior->Ok_0->0;
        assert(sketch::merge_error(b, sketches.last()) is None);
        assert(answer is Ok && answer->Ok_0 is Some);
        assert(sketch::merges(b, sketches.last(), answer->Ok_0->0));
    }
}

/// A query of up to an hour reads minutes, one of up to a day hours, one of up to 31 days
/// days, and a longer one months; a bucket of each lasts 60 seconds, an hour, a day and 30
/// days.
pub proof fn law_tier_by_span(span: int)
    ensures
        span <= 3_600_000_000_000 ==> tier_of_span(span) is Minute,
        3_600_000_000_000 < span <= 86_400_000_000_000 ==> tier_of_span(span) is Hour,
        86_400_000_000_000 < span <= 31 * 86_400_000_000_000 ==> tier_of_span(span) is Day,
        span > 31 * 86_400_000_000_000 ==> tier_of_span(span) is Month,
        tier_width(Tier::Minute) == 60_000_000_000,
        tier_width(Tier::Hour) == 60 * tier_width(Tier::Minute),
        tier_width(Tier::Day) == 24 * tier_width(Tier::Hour),
        tier_width(Tier::Month) == 30 * tier_width(Tier::Day),
{
}

/// A bucket is wanted only for its own field, and what is kept of a list of buckets is those
/// that are wanted, in their order.
pub proof fn law_only_buckets_of_the_field(
    entries: Seq<(Vec<u8>, Vec<u8>)>,
    e: (Vec<u8>, Vec<u8>),
    bucket_start_ns: i64,
    name: Seq<char>,
    field: Seq<char>,
    width_ns: int,
    start_ns: int,
    end_ns: int,
)
    requires
        e.0@ == worker::bucket_key(bucket_start_ns as int, name),
    ensures
        entries.push(e).filter(wanted_by(field, width_ns, start_ns, end_ns)) == if name == field
            && bucket_start_ns < end_ns && start_ns < bucket_start_ns + width_ns && width_ns > 0
            && start_ns < end_ns {
            entries.filter(wanted_by(field, width_ns, start_ns, end_ns)).push(e)
        } else {
            entries.filter(wanted_by(field, width_ns, start_ns, end_ns))
        },
{
    reveal(Seq::filter);
    worker::law_rollup_key_round_trip(bucket_start_ns, name);
    assert(entries.push(e).drop_last() =~= entries);
}

/// Folding no bucket answers nothing, folding one answers that one, and an error that one
/// bucket raises is the answer whatever follows.
pub proof fn law_folding(
    sketches: Seq<FieldSketch>,
    answer: Result<Option<FieldSketch>, MergeError>,
    next: FieldSketch,
    after: Result<Option<FieldSketch>, MergeError>,
)
    requires
        folds(sketches, answer),
        steps(answer, next, after),
    ensures
        folds(sketches.push(next), after),
        sketches.len() == 0 ==> answer matches Ok(None),
        sketches.len() == 0 ==> after == Ok::<Option<FieldSketch>, MergeError>(Some(next)),
        answer is Err ==> after == answer,
        answer is Ok && answer->Ok_0 is Some && sketch::merge_error(answer->Ok_0->0, next) is Some
            ==> after is Err && after->Err_0 == sketch::merge_error(answer->Ok_0->0, next)->0,
        answer is Ok && answer->Ok_0 is Some && sketch::merge_error(answer->Ok_0->0, next) is None
            ==> after is Ok && after->Ok_0 is Some && sketch::merges(
            answer->Ok_0->0,
            next,
            after->Ok_0->0,
        ),
{
    let all = sketches.push(next);
    assert(all.drop_last() =~= sketches);
    assert(steps(answer, all.last(), after));
}

/// Folding HyperLogLog++ buckets of one precision never fails, and gives the first with every
/// other merged into it, in order.
pub proof fn law_hll_buckets_merge_in_order(
    sketches: Seq<FieldSketch>,
    answer: Result<Option<FieldSketch>, MergeError>,
)
    requires
        sketches.len() > 0,
        forall|i: int|
            0 <= i < sketches.len() ==> (#[trigger] sketches[i]) is Hll && sketch::hll_precision(
                *sketches[i]->Hll_0,
            ) == 14,
        folds(sketches, answer),
    ensures
        answer is Ok && answer->Ok_0 is Some && answer->Ok_0->0 is Hll,
        sketch::hll_precision(*answer->Ok_0->0->Hll_0) == 14,
        sketch::hll_state(*answer->Ok_0->0->Hll_0) == sketches.skip(1).fold_left(
            sketch::hll_state(*sketches[0]->Hll_0),
            |state: Seq<u32>, s: FieldSketch| sketch::hll_merged(state, sketch::hll_state(*s->Hll_0)),
        ),
    decreases sketches.len(),
{
    reveal_with_fuel(Seq::fold_left, 2);
    let before = sketches.drop_last();
    let prior = choose|prior: Result<Option<FieldSketch>, MergeError>|
        folds(before, prior) && #[trigger] steps(prior, sketches.last(), answer);
    assert(sketches.last() == sketches[sketches.len() - 1]);
    if before.len() == 0 {
        assert(sketches.skip(1).len() == 0);
    } else {
        assert(forall|i: int| 0 <= i < before.len() ==> before[i] == sketches[i]);
        law_hll_buckets_merge_in_order(before, prior);
        assert(sketches.skip(1).drop_last() =~= before.skip(1));
        assert(sketches.skip(1).last() == sketches.last());
    }
}

} // verus!
