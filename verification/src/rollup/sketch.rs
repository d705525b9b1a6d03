//! Field sketches: what a rollup keeps of the values of one field.
//!
//! Exact counts, a HyperLogLog++ for the number of distinct values, a Space-Saving sketch
//! for the heaviest values, or a DDSketch for quantiles of numbers. Estimates leave the
//! library as the bits of a 64-bit float.

use std::collections::hash_map::DefaultHasher;
use std::hash::{BuildHasher, Hash};

use hyperloglogplus::{HyperLogLog, HyperLogLogPlus};
use sketches_ddsketch::{Config, DDSketch};

use vstd::prelude::*;

use crate::floattext;
use crate::rollup::space_saving;
use crate::rollup::space_saving::{add_all, add_counts, SpaceSaving};
use crate::strmap::StrMap;

verus! {

/// Builds hashers with a fixed key, so that sketches of different processes hash alike.
#[derive(Clone, Copy, Debug)]
pub struct FixedHasherBuilder;

impl BuildHasher for FixedHasherBuilder {
    type Hasher = DefaultHasher;

    fn build_hasher(&self) -> (r: Self::Hasher)
        ensures
            r@ == Seq::<Seq<u8>>::empty(),
    {
        DefaultHasher::new()
    }
}

/// A HyperLogLog++ sketch.
#[verifier::external_type_specification]
#[verifier::external_body]
#[verifier::reject_recursive_types(H)]
#[verifier::reject_recursive_types(B)]
pub struct ExHyperLogLogPlus<H: Hash + ?Sized, B: BuildHasher>(HyperLogLogPlus<H, B>);

/// A DDSketch.
#[verifier::external_type_specification]
#[verifier::external_body]
pub struct ExDDSketch(DDSketch);

pub type Hll = HyperLogLogPlus<String, FixedHasherBuilder>;

/// 2^14 registers: about 0.8% standard error at about 12 KB per sketch.
pub const HLL_PRECISION: u8 = 14;

/// How many values a top-k sketch tracks.
pub const TOPK_CAPACITY: usize = 20;

/// What a HyperLogLog++ sketch holds.
pub uninterp spec fn hll_state(h: Hll) -> Seq<u32>;

/// The precision that a HyperLogLog++ sketch was made with.
pub uninterp spec fn hll_precision(h: Hll) -> u8;

/// The parts of a HyperLogLog++ sketch fit together, as they do in every sketch that was
/// made and changed through its own methods.
pub uninterp spec fn hll_sound(h: Hll) -> bool;

/// What a new sketch of that precision holds.
pub uninterp spec fn hll_fresh(precision: u8) -> Seq<u32>;

/// What a sketch holds after one more value.
pub uninterp spec fn hll_inserted(state: Seq<u32>, value: Seq<char>) -> Seq<u32>;

/// What a sketch holds after another of its precision was merged into it.
pub uninterp spec fn hll_merged(state: Seq<u32>, other: Seq<u32>) -> Seq<u32>;

/// What a sketch holds after its count was asked for, which folds pending values in.
pub uninterp spec fn hll_counted(state: Seq<u32>) -> Seq<u32>;

/// `HyperLogLogPlus::new` with the fixed hasher: a sketch for every precision from 4 to
/// 18, none for others.
#[verifier::external_body]
fn hll_new(precision: u8) -> (r: Option<Box<Hll>>)
    ensures
        (r is Some) == (4 <= precision <= 18),
        r matches Some(h) ==> hll_sound(*h) && hll_precision(*h) == precision && hll_state(*h)
            == hll_fresh(precision),
{
    Hll::new(precision, FixedHasherBuilder).ok().map(Box::new)
}

/// `HyperLogLog::insert`: what the sketch holds afterwards depends on what it held and on
/// the value.
#[verifier::external_body]
fn hll_insert(h: &mut Box<Hll>, value: &str)
    requires
        hll_sound(**old(h)),
    ensures
        hll_sound(**final(h)),
        hll_precision(**final(h)) == hll_precision(**old(h)),
        hll_state(**final(h)) == hll_inserted(hll_state(**old(h)), value@),
{
    h.insert(value)
}

/// `HyperLogLogPlus::merge`: fails, and changes nothing, exactly where the precisions
/// differ.
#[verifier::external_body]
fn hll_merge(h: &mut Box<Hll>, other: &Box<Hll>) -> (ok: bool)
    requires
        hll_sound(**old(h)),
        hll_sound(**other),
    ensures
        ok == (hll_precision(**old(h)) == hll_precision(**other)),
        !ok ==> **final(h) == **old(h),
        hll_sound(**final(h)),
        hll_precision(**final(h)) == hll_precision(**old(h)),
        ok ==> hll_state(**final(h)) == hll_merged(hll_state(**old(h)), hll_state(**other)),
{
    h.merge(other).is_ok()
}

/// The estimate of a sketch, as the bits of a float. It goes through the logarithm of the
/// machine: `run` stands for what that gives.
pub uninterp spec fn hll_estimated(state: Seq<u32>, precision: u8, run: int) -> u64;

/// `bits` is an estimate of that sketch.
pub open spec fn is_estimate(h: Hll, bits: u64) -> bool {
    exists|run: int| bits == #[trigger] hll_estimated(hll_state(h), hll_precision(h), run)
}

/// `HyperLogLog::count`: the estimate, as the bits of a float. What the sketch holds
/// afterwards depends on what it held. The estimate depends on what the sketch held, and on
/// the logarithm of the machine.
#[verifier::external_body]
fn hll_count(h: &mut Box<Hll>) -> (bits: u64)
    requires
        hll_sound(**old(h)),
    ensures
        hll_sound(**final(h)),
        hll_precision(**final(h)) == hll_precision(**old(h)),
        hll_state(**final(h)) == hll_counted(hll_state(**old(h))),
        exists|run: int|
            bits == #[trigger] hll_estimated(hll_state(**old(h)), hll_precision(**old(h)), run),
{
    h.count().to_bits()
}

/// How many values a DDSketch has taken in.
pub uninterp spec fn dd_count(d: DDSketch) -> u64;

/// The bins and counters of a DDSketch, for positive numbers, negative ones and those close
/// to zero.
pub uninterp spec fn dd_bins(d: DDSketch) -> Seq<u64>;

/// The bins and counters of a new DDSketch of that configuration.
pub uninterp spec fn dd_fresh(config: int) -> Seq<u64>;

/// The bins after one more value, given by its bits. Which bin it goes to depends on the
/// logarithm of the machine: `run` stands for what that gives.
pub uninterp spec fn dd_added(bins: Seq<u64>, config: int, value: u64, run: int) -> Seq<u64>;

/// The bins of two sketches together.
pub uninterp spec fn dd_merged(bins: Seq<u64>, other: Seq<u64>) -> Seq<u64>;

/// The estimate of a quantile, given by its bits, as the bits of a float. It goes through
/// the exponential of the machine: `run` stands for what that gives.
pub uninterp spec fn dd_estimate(bins: Seq<u64>, config: int, q: u64, run: int) -> u64;

/// The configuration of a DDSketch, as a number that tells configurations apart: zero is
/// the default one.
pub uninterp spec fn dd_config(d: DDSketch) -> int;

/// The parts of a DDSketch fit together, as they do in every sketch that was made and
/// changed through its own methods, its counters together fit the counter of a machine
/// word, and its configuration equals itself: it holds no NaN.
pub uninterp spec fn dd_sound(d: DDSketch) -> bool;

/// The least and the greatest value that a DDSketch has taken in, as the bits of floats:
/// an infinity and its negative where it has taken in none.
pub uninterp spec fn dd_extremes(d: DDSketch) -> (u64, u64);

/// What `str::parse` reads out of a text as a 64-bit float, as its bits.
pub uninterp spec fn float_bits(text: Seq<char>) -> u64;

/// The bits of the infinity.
pub const INFINITY_BITS: u64 = 0x7ff0_0000_0000_0000;

/// The bits of the negative infinity.
pub const NEG_INFINITY_BITS: u64 = 0xfff0_0000_0000_0000;

/// The bits of one.
pub const ONE_BITS: u64 = 0x3ff0_0000_0000_0000;

/// The place of a float among the others, by its bits: the first bit is its sign, and the
/// others grow with its size. Both zeros have one place.
pub open spec fn float_rank(bits: u64) -> int {
    if bits < 0x8000_0000_0000_0000 {
        bits as int
    } else {
        0x8000_0000_0000_0000 - bits
    }
}

/// The bits are those of no number.
pub open spec fn is_nan(bits: u64) -> bool {
    float_rank(bits) > INFINITY_BITS || float_rank(bits) < -(INFINITY_BITS as int)
}

/// One float is less than another. What is no number is not less than anything, nor
/// anything less than it.
pub open spec fn float_less(a: u64, b: u64) -> bool {
    !is_nan(a) && !is_nan(b) && float_rank(a) < float_rank(b)
}

/// The least and the greatest value after one more.
pub open spec fn widened(extremes: (u64, u64), value: u64) -> (u64, u64) {
    (
        if float_less(value, extremes.0) {
            value
        } else {
            extremes.0
        },
        if float_less(extremes.1, value) {
            value
        } else {
            extremes.1
        },
    )
}

/// The least and the greatest value of two sketches together, given how many values each
/// has taken in.
pub open spec fn joined(
    count: u64,
    extremes: (u64, u64),
    other_count: u64,
    other: (u64, u64),
) -> (u64, u64) {
    if count == 0 {
        other
    } else if other_count == 0 {
        extremes
    } else {
        (widened(extremes, other.0).0, widened(extremes, other.1).1)
    }
}

/// A quantile lies in the range that a DDSketch answers: not below zero and not above one.
pub open spec fn quantile_in_range(q: Seq<char>) -> bool {
    !float_less(float_bits(q), 0) && !float_less(ONE_BITS, float_bits(q))
}

/// The quantile is zero, that of the least value.
pub open spec fn is_least_quantile(q: Seq<char>) -> bool {
    q == "0"@ || float_rank(float_bits(q)) == 0
}

/// The quantile is one, that of the greatest value.
pub open spec fn is_greatest_quantile(q: Seq<char>) -> bool {
    q == "1"@ || float_bits(q) == ONE_BITS
}

/// `bits` answers that quantile of that sketch: the least quantile is the least value, the
/// greatest the greatest, and what lies between is the estimate.
pub open spec fn is_quantile(d: DDSketch, q: Seq<char>, bits: u64) -> bool {
    if is_least_quantile(q) {
        bits == dd_extremes(d).0
    } else if is_greatest_quantile(q) {
        bits == dd_extremes(d).1
    } else {
        exists|run: int|
            bits == #[trigger] dd_estimate(dd_bins(d), dd_config(d), float_bits(q), run)
    }
}

/// The bins are those of before with one more value.
pub open spec fn takes_in(before: DDSketch, value: Seq<char>, after: DDSketch) -> bool {
    exists|run: int|
        dd_bins(after) == #[trigger] dd_added(
            dd_bins(before),
            dd_config(before),
            float_bits(value),
            run,
        )
}

/// A text reads as a number too large for a 64-bit float, or as an infinity.
pub open spec fn float_is_infinite(text: Seq<char>) -> bool {
    floattext::is_float_text(text) && (float_bits(text) == INFINITY_BITS || float_bits(text)
        == NEG_INFINITY_BITS)
}

/// `str::parse` to a 64-bit float and its bits; `None` for a text that is no number. Which
/// bits stand for what is no number is left open.
#[verifier::external_body]
fn parse_float(text: &str) -> (r: Option<u64>)
    ensures
        (r is Some) == floattext::is_float_text(text@),
        r matches Some(bits) ==> bits == float_bits(text@) || (is_nan(bits) && is_nan(
            float_bits(text@),
        )),
{
    // The seconds of a duration are a 64-bit float: they give the number its type.
    let mut number = std::time::Duration::ZERO.as_secs_f64();
    number = text.parse().ok()?;
    Some(number.to_bits())
}

/// Whether a text reads as an infinite number.
fn is_infinite(text: &str) -> (r: bool)
    ensures
        r == float_is_infinite(text@),
{
    match parse_float(text) {
        Some(bits) => bits == INFINITY_BITS || bits == NEG_INFINITY_BITS,
        None => false,
    }
}

/// `DDSketch::new` with `Config::defaults`: relative accuracy 0.01, at most 2048 bins,
/// least value 1e-9. The sketch is empty.
#[verifier::external_body]
fn dd_new() -> (r: Box<DDSketch>)
    ensures
        dd_sound(*r),
        dd_config(*r) == 0,
        dd_count(*r) == 0,
        dd_bins(*r) == dd_fresh(0),
        dd_extremes(*r) == (INFINITY_BITS, NEG_INFINITY_BITS),
{
    Box::new(DDSketch::new(Config::defaults()))
}

/// `DDSketch::count`: how many values the sketch has taken in.
#[verifier::external_body]
fn dd_len(d: &Box<DDSketch>) -> (n: usize)
    requires
        dd_sound(**d),
    ensures
        n == dd_count(**d),
{
    d.count()
}

/// `str::parse` to a float and `DDSketch::add`: takes one value in, where the text is a
/// number, and keeps the least and the greatest value. Infinite values and sketches that
/// are full are left out, since `add` may panic on them. What the bins are afterwards
/// depends on the bins, the configuration, the value, and the logarithm of the machine.
#[verifier::external_body]
fn dd_add(d: &mut Box<DDSketch>, value: &str) -> (taken: bool)
    requires
        dd_sound(**old(d)),
        !float_is_infinite(value@),
        dd_count(**old(d)) < usize::MAX,
    ensures
        taken == floattext::is_float_text(value@),
        !taken ==> **final(d) == **old(d),
        dd_sound(**final(d)),
        dd_config(**final(d)) == dd_config(**old(d)),
        taken ==> dd_count(**final(d)) == dd_count(**old(d)) + 1,
        taken ==> exists|run: int|
            dd_bins(**final(d)) == #[trigger] dd_added(
                dd_bins(**old(d)),
                dd_config(**old(d)),
                float_bits(value@),
                run,
            ),
        taken ==> dd_extremes(**final(d)) == widened(dd_extremes(**old(d)), float_bits(value@)),
{
    match value.parse() {
        Ok(v) => {
            d.add(v);
            true
        },
        Err(_) => false,
    }
}

/// `DDSketch::merge`: fails, and changes nothing, exactly where the configurations differ.
/// The counts add up, the least and the greatest value of both are kept, and the bins
/// afterwards depend on the bins of both. Counts that do not fit one counter are left out,
/// since `merge` may panic on them.
#[verifier::external_body]
fn dd_merge(d: &mut Box<DDSketch>, other: &Box<DDSketch>) -> (ok: bool)
    requires
        dd_sound(**old(d)),
        dd_sound(**other),
        dd_count(**old(d)) + dd_count(**other) <= usize::MAX,
    ensures
        ok == (dd_config(**old(d)) == dd_config(**other)),
        !ok ==> **final(d) == **old(d),
        dd_sound(**final(d)),
        dd_config(**final(d)) == dd_config(**old(d)),
        ok ==> dd_count(**final(d)) == dd_count(**old(d)) + dd_count(**other),
        ok ==> dd_bins(**final(d)) == dd_merged(dd_bins(**old(d)), dd_bins(**other)),
        ok ==> dd_extremes(**final(d)) == joined(
            dd_count(**old(d)),
            dd_extremes(**old(d)),
            dd_count(**other),
            dd_extremes(**other),
        ),
{
    d.merge(other).is_ok()
}

/// `str::parse` to a float and `DDSketch::quantile`: an estimate, as the bits of a float,
/// where the sketch is not empty and the quantile is in range. At zero it is the least
/// value and at one the greatest. Between them it depends on the bins, the configuration,
/// the quantile, and the exponential of the machine.
#[verifier::external_body]
fn dd_quantile(d: &Box<DDSketch>, q: &str) -> (bits: Option<u64>)
    requires
        dd_sound(**d),
        floattext::is_float_text(q@),
    ensures
        (bits is Some) == (dd_count(**d) != 0 && quantile_in_range(q@)),
        bits matches Some(b) ==> is_least_quantile(q@) ==> b == dd_extremes(**d).0,
        bits matches Some(b) ==> is_greatest_quantile(q@) ==> b == dd_extremes(**d).1,
        bits matches Some(b) ==> !is_least_quantile(q@) && !is_greatest_quantile(q@) ==> exists|
            run: int,
        | b == #[trigger] dd_estimate(dd_bins(**d), dd_config(**d), float_bits(q@), run),
{
    match q.parse() {
        Ok(v) => d.quantile(v).ok().flatten().map(|estimate| estimate.to_bits()),
        Err(_) => None,
    }
}

/// What a rollup keeps of a field.
#[derive(Debug, Clone, Copy, PartialEq, Eq, Structural)]
pub enum RollupKind {
    Exact,
    Hll,
    TopK,
    DDSketch,
}

/// One field's sketch.
pub enum FieldSketch {
    Exact(StrMap<u64>),
    Hll(Box<Hll>),
    TopK(SpaceSaving),
    DDSketch(Box<DDSketch>),
}

/// Why two sketches do not merge.
#[derive(Debug, Clone, Copy, PartialEq, Eq, Structural)]
pub enum MergeError {
    Kinds,
    HllPrecision,
    DDSketchConfig,
    /// Together they have taken in more values than can be counted.
    DDSketchFull,
}

pub open spec fn merge_error_text(e: MergeError) -> Seq<char> {
    match e {
        MergeError::Kinds => "cannot merge mismatched rollup sketch kinds"@,
        MergeError::HllPrecision => "HLL merge failed: IncompatiblePrecision"@,
        MergeError::DDSketchConfig =>
            "DDSketch merge failed: Can not merge sketches with different configs"@,
        MergeError::DDSketchFull => "DDSketch merge failed: too many values to count"@,
    }
}

impl MergeError {
    /// The error in words.
    pub fn message(&self) -> (r: String)
        ensures
            r@ == merge_error_text(*self),
    {
        match self {
            MergeError::Kinds => "cannot merge mismatched rollup sketch kinds".to_string(),
            MergeError::HllPrecision => "HLL merge failed: IncompatiblePrecision".to_string(),
            MergeError::DDSketchConfig =>
                "DDSketch merge failed: Can not merge sketches with different configs".to_string(),
            MergeError::DDSketchFull => "DDSketch merge failed: too many values to count".to_string(),
        }
    }
}

/// The counts after one more `value`.
pub open spec fn counted(m: Map<Seq<char>, u64>, value: Seq<char>) -> Map<Seq<char>, u64> {
    m.insert(
        value,
        if m.dom().contains(value) {
            space_saving::count_sum(m[value], 1)
        } else {
            1
        },
    )
}

/// `s` is a new sketch of that kind.
pub open spec fn is_fresh(kind: RollupKind, s: FieldSketch) -> bool {
    match (kind, s) {
        (RollupKind::Exact, FieldSketch::Exact(counts)) => counts@ == Map::<
            Seq<char>,
            u64,
        >::empty(),
        (RollupKind::Hll, FieldSketch::Hll(h)) => hll_precision(*h) == HLL_PRECISION && hll_state(
            *h,
        ) == hll_fresh(HLL_PRECISION),
        (RollupKind::TopK, FieldSketch::TopK(ss)) => ss@ == Map::<Seq<char>, u64>::empty()
            && ss.room() == TOPK_CAPACITY,
        (RollupKind::DDSketch, FieldSketch::DDSketch(d)) => dd_count(*d) == 0 && dd_config(*d) == 0
            && dd_bins(*d) == dd_fresh(0) && dd_extremes(*d) == (INFINITY_BITS, NEG_INFINITY_BITS),
        _ => false,
    }
}

/// `after` is `before` with one more value. A value that is no number leaves a DDSketch
/// alone.
pub open spec fn observes(before: FieldSketch, value: Seq<char>, after: FieldSketch) -> bool {
    match (before, after) {
        (FieldSketch::Exact(a), FieldSketch::Exact(b)) => b@ == counted(a@, value),
        (FieldSketch::Hll(a), FieldSketch::Hll(b)) => {
            &&& hll_state(*b) == hll_inserted(hll_state(*a), value)
            &&& hll_precision(*b) == hll_precision(*a)
        },
        (FieldSketch::TopK(a), FieldSketch::TopK(b)) => {
            &&& b@ == space_saving::observed(a@, a.room(), value)
            &&& b.room() == a.room()
        },
        (FieldSketch::DDSketch(a), FieldSketch::DDSketch(b)) => {
            if floattext::is_float_text(value) {
                &&& dd_count(*b) == dd_count(*a) + 1
                &&& dd_config(*b) == dd_config(*a)
                &&& takes_in(*a, value, *b)
                &&& dd_extremes(*b) == widened(dd_extremes(*a), float_bits(value))
            } else {
                a == b
            }
        },
        _ => false,
    }
}

/// Why `b` does not merge into `a`, if it does not.
pub open spec fn merge_error(a: FieldSketch, b: FieldSketch) -> Option<MergeError> {
    match (a, b) {
        (FieldSketch::Exact(_), FieldSketch::Exact(_)) => None,
        (FieldSketch::TopK(_), FieldSketch::TopK(_)) => None,
        (FieldSketch::Hll(x), FieldSketch::Hll(y)) => if hll_precision(*x) == hll_precision(*y) {
            None
        } else {
            Some(MergeError::HllPrecision)
        },
        (FieldSketch::DDSketch(x), FieldSketch::DDSketch(y)) => if dd_count(*x) + dd_count(*y)
            > usize::MAX {
            Some(MergeError::DDSketchFull)
        } else if dd_config(*x) != dd_config(*y) {
            Some(MergeError::DDSketchConfig)
        } else {
            None
        },
        _ => Some(MergeError::Kinds),
    }
}

/// `after` is `before` with `other` merged into it.
pub open spec fn merges(before: FieldSketch, other: FieldSketch, after: FieldSketch) -> bool {
    match (before, other, after) {
        (FieldSketch::Exact(a), FieldSketch::Exact(b), FieldSketch::Exact(c)) => c@
            == space_saving::summed(a@, b@),
        (FieldSketch::TopK(a), FieldSketch::TopK(b), FieldSketch::TopK(c)) => {
            &&& c@ == space_saving::merged(a@, b@, a.room())
            &&& c.room() == a.room()
        },
        (FieldSketch::Hll(a), FieldSketch::Hll(b), FieldSketch::Hll(c)) => {
            &&& hll_state(*c) == hll_merged(hll_state(*a), hll_state(*b))
            &&& hll_precision(*c) == hll_precision(*a)
        },
        (FieldSketch::DDSketch(a), FieldSketch::DDSketch(b), FieldSketch::DDSketch(c)) => {
            &&& dd_count(*c) == dd_count(*a) + dd_count(*b)
            &&& dd_config(*c) == dd_config(*a)
            &&& dd_bins(*c) == dd_merged(dd_bins(*a), dd_bins(*b))
            &&& dd_extremes(*c) == joined(
                dd_count(*a),
                dd_extremes(*a),
                dd_count(*b),
                dd_extremes(*b),
            )
        },
        _ => false,
    }
}

fn observe_exact(counts: &mut StrMap<u64>, value: &str)
    ensures
        final(counts)@ == counted(old(counts)@, value@),
{
    let had: Option<u64> = match counts.get(value) {
        Some(c) => Some(*c),
        None => None,
    };
    let count: u64 = match had {
        Some(c) => add_counts(c, 1),
        None => 1,
    };
    counts.insert(value.to_string(), count);
}

impl FieldSketch {
    /// The kind of the sketch.
    pub open spec fn kind_spec(&self) -> RollupKind {
        match self {
            FieldSketch::Exact(_) => RollupKind::Exact,
            FieldSketch::Hll(_) => RollupKind::Hll,
            FieldSketch::TopK(_) => RollupKind::TopK,
            FieldSketch::DDSketch(_) => RollupKind::DDSketch,
        }
    }

    /// The parts of the sketch fit together, as they do in every sketch that was made and
    /// changed here.
    pub open spec fn sound(&self) -> bool {
        match self {
            FieldSketch::Exact(_) => true,
            FieldSketch::Hll(h) => hll_sound(**h),
            FieldSketch::TopK(ss) => ss.room() > 0,
            FieldSketch::DDSketch(d) => dd_sound(**d),
        }
    }

    /// The value can be taken in: no infinite value goes into a DDSketch, and none into one
    /// that is full.
    pub open spec fn takes(&self, value: Seq<char>) -> bool {
        match self {
            FieldSketch::DDSketch(d) => !float_is_infinite(value) && dd_count(**d) < usize::MAX,
            _ => true,
        }
    }

    /// The value counts in the sketch: a DDSketch has no use for a text that is no number,
    /// nor for an infinite one.
    pub open spec fn uses(&self, value: Seq<char>) -> bool {
        self is DDSketch ==> floattext::is_float_text(value) && !float_is_infinite(value)
    }

    /// Whether the value counts in the sketch.
    pub fn can_use(&self, value: &str) -> (r: bool)
        ensures
            r == self.uses(value@),
    {
        match self {
            FieldSketch::DDSketch(_) => match parse_float(value) {
                Some(bits) => bits != INFINITY_BITS && bits != NEG_INFINITY_BITS,
                None => false,
            },
            _ => true,
        }
    }

    /// The kind of the sketch.
    pub fn kind(&self) -> (r: RollupKind)
        ensures
            r == self.kind_spec(),
    {
        match self {
            FieldSketch::Exact(_) => RollupKind::Exact,
            FieldSketch::Hll(_) => RollupKind::Hll,
            FieldSketch::TopK(_) => RollupKind::TopK,
            FieldSketch::DDSketch(_) => RollupKind::DDSketch,
        }
    }

    /// A new sketch of a kind.
    pub fn new_for_kind(kind: RollupKind) -> (r: Self)
        ensures
            is_fresh(kind, r),
            r.kind_spec() == kind,
            r.sound(),
    {
        match kind {
            RollupKind::Exact => FieldSketch::Exact(StrMap::new()),
            RollupKind::Hll => FieldSketch::Hll(hll_new(HLL_PRECISION).unwrap()),
            RollupKind::TopK => FieldSketch::TopK(SpaceSaving::new(TOPK_CAPACITY)),
            RollupKind::DDSketch => FieldSketch::DDSketch(dd_new()),
        }
    }

    /// Takes one value in. A DDSketch drops a value that is no number.
    pub fn observe(&mut self, value: &str)
        requires
            old(self).sound(),
            old(self).takes(value@),
        ensures
            observes(*old(self), value@, *final(self)),
            final(self).kind_spec() == old(self).kind_spec(),
            final(self).sound(),
    {
        match self {
            FieldSketch::Exact(counts) => observe_exact(counts, value),
            FieldSketch::Hll(h) => hll_insert(h, value),
            FieldSketch::TopK(ss) => ss.observe(value),
            FieldSketch::DDSketch(d) => {
                let _ = dd_add(d, value);
            },
        }
    }

    /// Takes one value in, unless the sketch is a DDSketch and full, or the value infinite:
    /// then the sketch stays as it is.
    pub fn try_observe(&mut self, value: &str) -> (taken: bool)
        requires
            old(self).sound(),
        ensures
            taken == old(self).takes(value@),
            taken ==> observes(*old(self), value@, *final(self)),
            !taken ==> *final(self) == *old(self),
            final(self).kind_spec() == old(self).kind_spec(),
            final(self).sound(),
    {
        let taken: bool = match self {
            FieldSketch::DDSketch(d) => dd_len(d) < usize::MAX && !is_infinite(value),
            _ => true,
        };
        if taken {
            self.observe(value);
        }
        taken
    }

    /// Merges another sketch of the same kind in. A sketch that does not merge leaves this
    /// one as it was.
    pub fn merge_from(&mut self, other: &FieldSketch) -> (r: Result<(), MergeError>)
        requires
            old(self).sound(),
            other.sound(),
        ensures
            match r {
                Ok(_) => merge_error(*old(self), *other) is None && merges(
                    *old(self),
                    *other,
                    *final(self),
                ),
                Err(e) => merge_error(*old(self), *other) == Some(e) && *final(self) == *old(self),
            },
            final(self).kind_spec() == old(self).kind_spec(),
            final(self).sound(),
    {
        match (self, other) {
            (FieldSketch::Exact(a), FieldSketch::Exact(b)) => {
                add_all(a, b);
                Ok(())
            },
            (FieldSketch::Hll(a), FieldSketch::Hll(b)) => {
                if hll_merge(a, b) {
                    Ok(())
                } else {
                    Err(MergeError::HllPrecision)
                }
            },
            (FieldSketch::TopK(a), FieldSketch::TopK(b)) => {
                a.merge_from(b);
                Ok(())
            },
            (FieldSketch::DDSketch(a), FieldSketch::DDSketch(b)) => {
                if dd_len(a) > usize::MAX - dd_len(b) {
                    Err(MergeError::DDSketchFull)
                } else if dd_merge(a, b) {
                    Ok(())
                } else {
                    Err(MergeError::DDSketchConfig)
                }
            },
            _ => Err(MergeError::Kinds),
        }
    }

    /// The exact counts of the values; only an exact sketch has them.
    pub fn exact_counts(&self) -> (r: Option<StrMap<u64>>)
        ensures
            match r {
                Some(counts) => self matches FieldSketch::Exact(m) && counts@ == m@,
                None => !(self is Exact),
            },
    {
        match self {
            FieldSketch::Exact(counts) => Some(counts.duplicate()),
            _ => None,
        }
    }

    /// The estimated number of distinct values, as the bits of a float; only a
    /// HyperLogLog++ sketch has it.
    pub fn hll_estimate(&mut self) -> (r: Option<u64>)
        requires
            old(self).sound(),
        ensures
            (r is Some) == (*old(self) is Hll),
            r is None ==> *final(self) == *old(self),
            r is Some ==> is_counted(*old(self), *final(self)),
            r matches Some(bits) ==> (*old(self) matches FieldSketch::Hll(h) && is_estimate(
                *h,
                bits,
            )),
            final(self).kind_spec() == old(self).kind_spec(),
            final(self).sound(),
    {
        match self {
            FieldSketch::Hll(h) => Some(hll_count(h)),
            _ => None,
        }
    }

    /// The `k` heaviest values; only a top-k sketch has them.
    pub fn top_k(&self, k: usize) -> (r: Option<Vec<(String, u64)>>)
        ensures
            match r {
                Some(top) => self matches FieldSketch::TopK(ss) && space_saving::count_views(top@)
                    == space_saving::first(space_saving::ranking(ss@), k as nat),
                None => !(self is TopK),
            },
    {
        match self {
            FieldSketch::TopK(ss) => Some(ss.top_k(k)),
            _ => None,
        }
    }

    /// An estimated quantile, as the bits of a float; only a DDSketch that is not empty
    /// has it, and only for a quantile in range. At zero it is the least value and at one
    /// the greatest.
    pub fn quantile(&self, q: &str) -> (r: Option<u64>)
        requires
            self.sound(),
            floattext::is_float_text(q@),
        ensures
            (r is Some) == (self matches FieldSketch::DDSketch(d) && dd_count(**d) != 0
                && quantile_in_range(q@)),
            r matches Some(bits) ==> (self matches FieldSketch::DDSketch(d) && is_quantile(
                **d,
                q@,
                bits,
            )),
    {
        match self {
            FieldSketch::DDSketch(d) => dd_quantile(d, q),
            _ => None,
        }
    }
}

/// `after` is the HyperLogLog++ sketch `before` after its count was asked for.
pub open spec fn is_counted(before: FieldSketch, after: FieldSketch) -> bool {
    match (before, after) {
        (FieldSketch::Hll(a), FieldSketch::Hll(b)) => {
            &&& hll_state(*b) == hll_counted(hll_state(*a))
            &&& hll_precision(*b) == hll_precision(*a)
        },
        _ => false,
    }
}

/// The sketch has the parameters that new sketches have.
pub open spec fn is_standard(s: FieldSketch) -> bool {
    match s {
        FieldSketch::Exact(_) => true,
        FieldSketch::Hll(h) => hll_precision(*h) == HLL_PRECISION,
        FieldSketch::TopK(ss) => ss.room() == TOPK_CAPACITY,
        FieldSketch::DDSketch(d) => dd_config(*d) == 0,
    }
}

/// New sketches have the standard parameters, and two sketches of one kind with the
/// standard parameters merge, unless their values together are too many to count.
pub proof fn law_standard_sketches_merge(
    kind: RollupKind,
    new: FieldSketch,
    a: FieldSketch,
    b: FieldSketch,
)
    requires
        is_fresh(kind, new),
        is_standard(a),
        is_standard(b),
        a.kind_spec() == b.kind_spec(),
        a is DDSketch ==> dd_count(*a->DDSketch_0) + dd_count(*b->DDSketch_0) <= usize::MAX,
    ensures
        is_standard(new),
        merge_error(a, b) is None,
{
}

/// Taking values in and merging keep a sketch's parameters.
pub proof fn law_sketches_stay_standard(
    before: FieldSketch,
    value: Seq<char>,
    other: FieldSketch,
    after: FieldSketch,
)
    requires
        is_standard(before),
        observes(before, value, after) || merges(before, other, after),
    ensures
        is_standard(after),
        after.kind_spec() == before.kind_spec(),
{
}

/// Merging two exact sketches counts every value as if all had been observed by one:
/// observing a value before a merge or after it comes to the same.
pub proof fn law_merge_after_observe(
    a: Map<Seq<char>, u64>,
    b: Map<Seq<char>, u64>,
    value: Seq<char>,
)
    ensures
        space_saving::summed(counted(a, value), b) == counted(space_saving::summed(a, b), value),
{
    let l = space_saving::summed(counted(a, value), b);
    let r = counted(space_saving::summed(a, b), value);
    assert forall|k: Seq<char>| l.dom().contains(k) implies l[k] == r[k] by {}
    assert(l =~= r);
}

/// What an exact sketch counts after a stream of values, from a new sketch on.
pub open spec fn tally(values: Seq<Seq<char>>) -> Map<Seq<char>, u64>
    decreases values.len(),
{
    if values.len() == 0 {
        Map::empty()
    } else {
        counted(tally(values.drop_last()), values.last())
    }
}

/// An exact sketch counts each value of its stream as often as it came, and no other.
pub proof fn law_exact_counts_are_frequencies(values: Seq<Seq<char>>)
    requires
        values.len() <= u64::MAX,
    ensures
        forall|x: Seq<char>| #[trigger] tally(values).dom().contains(x) <==> values.contains(x),
        forall|x: Seq<char>| #[trigger]
            tally(values).dom().contains(x) ==> tally(values)[x] == space_saving::frequency(
                values,
                x,
            ),
    decreases values.len(),
{
    if values.len() > 0 {
        let rest = values.drop_last();
        law_exact_counts_are_frequencies(rest);
        assert(tally(values) == counted(tally(rest), values.last()));
        assert forall|x: Seq<char>| #[trigger]
            tally(values).dom().contains(x) == values.contains(x) && (values.contains(x) ==> tally(
                values,
            )[x] == space_saving::frequency(values, x)) by {
            space_saving::lemma_frequency_bound(values, x);
            space_saving::lemma_frequency_bound(rest, x);
            assert(tally(rest).dom().contains(x) == rest.contains(x));
        }
    }
}

/// Merging the exact sketches of two streams gives the exact sketch of both streams.
pub proof fn law_merged_counts_are_of_both_streams(a: Seq<Seq<char>>, b: Seq<Seq<char>>)
    ensures
        space_saving::summed(tally(a), tally(b)) == tally(a + b),
    decreases b.len(),
{
    if b.len() == 0 {
        assert(a + b =~= a);
        assert(space_saving::summed(tally(a), tally(b)) =~= tally(a));
    } else {
        let rest = b.drop_last();
        law_merged_counts_are_of_both_streams(a, rest);
        assert((a + b).drop_last() =~= a + rest);
        assert((a + b).last() == b.last());
        law_merge_after_observe(tally(rest), tally(a), b.last());
        space_saving::law_sums_commute(tally(a), tally(b), tally(b));
        space_saving::law_sums_commute(tally(a), tally(rest), tally(b));
    }
}

/// The least and the greatest of a stream of numbers, from a new sketch on.
pub open spec fn extremes_of(values: Seq<u64>) -> (u64, u64)
    decreases values.len(),
{
    if values.len() == 0 {
        (INFINITY_BITS, NEG_INFINITY_BITS)
    } else {
        widened(extremes_of(values.drop_last()), values.last())
    }
}

/// No value of a stream is less than what a DDSketch keeps as the least, nor greater than
/// what it keeps as the greatest; and each of the two is a value of the stream, unless the
/// stream holds no finite number.
pub proof fn law_extremes_bound_the_stream(values: Seq<u64>)
    ensures
        forall|i: int|
            0 <= i < values.len() ==> !float_less(#[trigger] values[i], extremes_of(values).0)
                && !float_less(extremes_of(values).1, values[i]),
        extremes_of(values).0 == INFINITY_BITS || values.contains(extremes_of(values).0),
        extremes_of(values).1 == NEG_INFINITY_BITS || values.contains(extremes_of(values).1),
        !is_nan(extremes_of(values).0),
        !is_nan(extremes_of(values).1),
    decreases values.len(),
{
    if values.len() > 0 {
        let rest = values.drop_last();
        law_extremes_bound_the_stream(rest);
        assert forall|i: int| 0 <= i < values.len() implies !float_less(
            #[trigger] values[i],
            extremes_of(values).0,
        ) && !float_less(extremes_of(values).1, values[i]) by {
            if i < rest.len() {
                assert(values[i] == rest[i]);
            }
        }
        assert(values[values.len() - 1] == values.last());
        assert forall|v: u64| rest.contains(v) implies values.contains(v) by {
            let j = choose|j: int| 0 <= j < rest.len() && rest[j] == v;
            assert(values[j] == v);
        }
    }
}

/// A merged DDSketch keeps the least and the greatest value of both: nothing that bounded
/// either is lost.
pub proof fn law_merge_keeps_the_extremes(count: u64, a: (u64, u64), other_count: u64, b: (u64, u64))
    requires
        count > 0,
        other_count > 0,
        !is_nan(a.0) && !is_nan(a.1) && !is_nan(b.0) && !is_nan(b.1),
    ensures
        !float_less(a.0, joined(count, a, other_count, b).0),
        !float_less(b.0, joined(count, a, other_count, b).0),
        !float_less(joined(count, a, other_count, b).1, a.1),
        !float_less(joined(count, a, other_count, b).1, b.1),
{
}

/// Sketches of one kind merge, those of two kinds do not. Exact counts add up key by key; a
/// HyperLogLog++ needs one of its precision; a DDSketch needs one of its configuration, and
/// a counter for all the values of both.
pub proof fn law_like_merges_with_like(a: FieldSketch, b: FieldSketch, c: FieldSketch)
    ensures
        a is Exact && b is Exact ==> merge_error(a, b) is None,
        a is TopK && b is TopK ==> merge_error(a, b) is None,
        a is Hll && b is Hll ==> (merge_error(a, b) is None <==> hll_precision(*a->Hll_0)
            == hll_precision(*b->Hll_0)),
        a is DDSketch && b is DDSketch ==> (merge_error(a, b) is None <==> dd_config(
            *a->DDSketch_0,
        ) == dd_config(*b->DDSketch_0) && dd_count(*a->DDSketch_0) + dd_count(*b->DDSketch_0)
            <= usize::MAX),
        (a is Exact) != (b is Exact) || (a is Hll) != (b is Hll) || (a is TopK) != (b is TopK)
            ==> merge_error(a, b) == Some(MergeError::Kinds),
        merges(a, b, c) ==> (a is Exact <==> b is Exact) && (a is Exact <==> c is Exact) && (a is Hll
            <==> c is Hll) && (a is TopK <==> c is TopK) && (a is DDSketch <==> c is DDSketch),
        merges(a, b, c) && a is Hll ==> hll_state(*c->Hll_0) == hll_merged(
            hll_state(*a->Hll_0),
            hll_state(*b->Hll_0),
        ) && hll_precision(*c->Hll_0) == hll_precision(*a->Hll_0),
        merges(a, b, c) && a is DDSketch ==> dd_count(*c->DDSketch_0) == dd_count(*a->DDSketch_0)
            + dd_count(*b->DDSketch_0) && dd_bins(*c->DDSketch_0) == dd_merged(
            dd_bins(*a->DDSketch_0),
            dd_bins(*b->DDSketch_0),
        ),
        merges(a, b, c) && a is Exact ==> forall|k: Seq<char>|
            {
                &&& #[trigger] c->Exact_0@.dom().contains(k) <==> a->Exact_0@.dom().contains(k)
                    || b->Exact_0@.dom().contains(k)
                &&& a->Exact_0@.dom().contains(k) && b->Exact_0@.dom().contains(k)
                    && a->Exact_0@[k] + b->Exact_0@[k] <= u64::MAX ==> c->Exact_0@[k]
                    == a->Exact_0@[k] + b->Exact_0@[k]
                &&& a->Exact_0@.dom().contains(k) && !b->Exact_0@.dom().contains(k)
                    ==> c->Exact_0@[k] == a->Exact_0@[k]
                &&& !a->Exact_0@.dom().contains(k) && b->Exact_0@.dom().contains(k)
                    ==> c->Exact_0@[k] == b->Exact_0@[k]
            },
{
}

/// One more value: an exact sketch counts it one more time and leaves every other count; a
/// HyperLogLog++ has it inserted; a DDSketch takes it in where it is a number and stays as
/// it was where it is none.
pub proof fn law_one_value_is_taken_in(
    before: FieldSketch,
    value: Seq<char>,
    after: FieldSketch,
    other: Seq<char>,
)
    requires
        observes(before, value, after),
    ensures
        before is Exact ==> after is Exact && after->Exact_0@.dom().contains(value),
        before is Exact && !before->Exact_0@.dom().contains(value) ==> after->Exact_0@[value] == 1,
        before is Exact && before->Exact_0@.dom().contains(value) && before->Exact_0@[value]
            < u64::MAX ==> after->Exact_0@[value] == before->Exact_0@[value] + 1,
        before is Exact && before->Exact_0@.dom().contains(value) && before->Exact_0@[value]
            == u64::MAX ==> after->Exact_0@[value] == 0,
        before is Exact && other != value ==> (after->Exact_0@.dom().contains(other)
            <==> before->Exact_0@.dom().contains(other)) && (before->Exact_0@.dom().contains(other)
            ==> after->Exact_0@[other] == before->Exact_0@[other]),
        before is Hll ==> after is Hll && hll_state(*after->Hll_0) == hll_inserted(
            hll_state(*before->Hll_0),
            value,
        ) && hll_precision(*after->Hll_0) == hll_precision(*before->Hll_0),
        before is TopK ==> after is TopK && after->TopK_0.room() == before->TopK_0.room(),
        before is DDSketch && floattext::is_float_text(value) ==> after is DDSketch && dd_count(
            *after->DDSketch_0,
        ) == dd_count(*before->DDSketch_0) + 1,
        before is DDSketch && !floattext::is_float_text(value) ==> after == before,
{
}

/// Whether a value counts in a sketch: any does in one that is no DDSketch; in a DDSketch a
/// number that is not infinite does, and nothing else. An infinite one is never taken in,
/// and nothing is once the counter is full.
pub proof fn law_values_that_count(s: FieldSketch, value: Seq<char>)
    ensures
        !(s is DDSketch) ==> s.uses(value) && s.takes(value),
        s is DDSketch ==> (s.uses(value) <==> floattext::is_float_text(value) && float_bits(value)
            != 0x7ff0_0000_0000_0000 && float_bits(value) != 0xfff0_0000_0000_0000),
        s is DDSketch && s.uses(value) && dd_count(*s->DDSketch_0) < usize::MAX ==> s.takes(value),
        s is DDSketch && floattext::is_float_text(value) && (float_bits(value)
            == 0x7ff0_0000_0000_0000 || float_bits(value) == 0xfff0_0000_0000_0000) ==> !s.takes(
            value,
        ),
        s is DDSketch && dd_count(*s->DDSketch_0) >= usize::MAX ==> !s.takes(value),
{
}

/// Floats are ordered as their bits are where the sign bit is not set, the other way round
/// where it is, and a negative one comes before a positive one; the two zeros are equal, and
/// what is no number is not less than anything, nor anything less than it.
pub proof fn law_float_order(a: u64, b: u64)
    ensures
        a <= 0x7ff0_0000_0000_0000 && b <= 0x7ff0_0000_0000_0000 ==> (float_less(a, b) <==> a < b),
        0x8000_0000_0000_0000 <= a <= 0xfff0_0000_0000_0000 && 0x8000_0000_0000_0000 <= b
            <= 0xfff0_0000_0000_0000 ==> (float_less(a, b) <==> b < a),
        0x8000_0000_0000_0000 <= a <= 0xfff0_0000_0000_0000 && b <= 0x7ff0_0000_0000_0000 ==> (
        float_less(a, b) <==> !(a == 0x8000_0000_0000_0000 && b == 0)) && !float_less(b, a),
        0x7ff0_0000_0000_0000 < a < 0x8000_0000_0000_0000 || a > 0xfff0_0000_0000_0000
            ==> !float_less(a, b) && !float_less(b, a),
{
}

/// The quantile zero is answered by the least value and the quantile one by the greatest,
/// however they are written; a quantile is answered only between the two.
pub proof fn law_quantiles_at_the_ends(d: DDSketch, q: Seq<char>, bits: u64)
    ensures
        is_quantile(d, q, bits) && (float_bits(q) == 0 || float_bits(q) == 0x8000_0000_0000_0000)
            ==> bits == dd_extremes(d).0,
        is_quantile(d, q, bits) && float_bits(q) == 0x3ff0_0000_0000_0000 && q != "0"@ ==> bits
            == dd_extremes(d).1,
        is_quantile(d, q, bits) && float_bits(q) != 0 && float_bits(q) != 0x8000_0000_0000_0000
            && float_bits(q) != 0x3ff0_0000_0000_0000 && q != "0"@ && q != "1"@ ==> exists|run: int|
            bits == #[trigger] dd_estimate(dd_bins(d), dd_config(d), float_bits(q), run),
        0 < float_bits(q) <= 0x3ff0_0000_0000_0000 ==> quantile_in_range(q),
        0x3ff0_0000_0000_0000 < float_bits(q) <= 0x7ff0_0000_0000_0000 ==> !quantile_in_range(q),
        0x8000_0000_0000_0000 < float_bits(q) <= 0xfff0_0000_0000_0000 ==> !quantile_in_range(q),
{
}

/// Top-k sketches merge into the room of the first, and keep of both what a merge of their
/// counts keeps; one more value is counted as a top-k sketch of that room counts it. Asking
/// for the number of distinct values keeps a HyperLogLog++ of its precision.
pub proof fn law_topk_keeps_its_room(
    a: FieldSketch,
    b: FieldSketch,
    c: FieldSketch,
    value: Seq<char>,
)
    ensures
        merges(a, b, c) && a is TopK ==> c->TopK_0.room() == a->TopK_0.room() && c->TopK_0@
            == space_saving::merged(a->TopK_0@, b->TopK_0@, a->TopK_0.room()),
        observes(a, value, c) && a is TopK ==> c->TopK_0.room() == a->TopK_0.room() && c->TopK_0@
            == space_saving::observed(a->TopK_0@, a->TopK_0.room(), value),
        is_counted(a, c) ==> a is Hll && c is Hll && hll_precision(*c->Hll_0) == hll_precision(
            *a->Hll_0,
        ) && hll_state(*c->Hll_0) == hll_counted(hll_state(*a->Hll_0)),
{
}

/// Why two sketches do not merge, in words.
pub proof fn law_merge_errors_in_words(e: MergeError)
    ensures
        e is Kinds ==> merge_error_text(e) == "cannot merge mismatched rollup sketch kinds"@,
        e is HllPrecision ==> merge_error_text(e) == "HLL merge failed: "@
            + "IncompatiblePrecision"@,
        e is DDSketchConfig ==> merge_error_text(e) == "DDSketch merge failed: "@
            + "Can not merge sketches with different configs"@,
        e is DDSketchFull ==> merge_error_text(e) == "DDSketch merge failed: "@
            + "too many values to count"@,
{
    reveal_strlit("HLL merge failed: ");
    reveal_strlit("IncompatiblePrecision");
    reveal_strlit("HLL merge failed: IncompatiblePrecision");
    reveal_strlit("DDSketch merge failed: ");
    reveal_strlit("Can not merge sketches with different configs");
    reveal_strlit("DDSketch merge failed: Can not merge sketches with different configs");
    reveal_strlit("too many values to count");
    reveal_strlit("DDSketch merge failed: too many values to count");
    assert("HLL merge failed: IncompatiblePrecision"@ =~= "HLL merge failed: "@
        + "IncompatiblePrecision"@);
    assert("DDSketch merge failed: Can not merge sketches with different configs"@
        =~= "DDSketch merge failed: "@ + "Can not merge sketches with different configs"@);
    assert("DDSketch merge failed: too many values to count"@ =~= "DDSketch merge failed: "@
        + "too many values to count"@);
}

} // verus!
