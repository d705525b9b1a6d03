//! The rollup worker: live minute buckets, and the folding of finer tiers into coarser
//! ones.

use std::time::Duration;

use vstd::prelude::*;

use crate::floattext;
use crate::keycodec;
use crate::keycodec::{bytes_from, decode_order_preserving_ns, from_be_bytes, order_preserving_ns, to_be_bytes};
use crate::retention;
use crate::rollup::sketch;
use crate::rollup::sketch::{FieldSketch, MergeError, RollupKind};
use crate::rollup::space_saving;
use crate::rollup::RollupSample;
use crate::strmap;
use crate::strmap::StrMap;
use crate::text::from_utf8;

verus! {

/// The tiers, from the finest to the coarsest.
#[derive(Debug, Clone, Copy, PartialEq, Eq, Structural)]
pub enum Tier {
    Minute,
    Hour,
    Day,
    Month,
}

pub open spec fn namespace_text(tier: Tier) -> Seq<char> {
    match tier {
        Tier::Minute => "rollup_minute"@,
        Tier::Hour => "rollup_hour"@,
        Tier::Day => "rollup_day"@,
        Tier::Month => "rollup_month"@,
    }
}

impl Tier {
    /// The storage namespace of the tier.
    pub fn namespace(&self) -> (r: &'static str)
        ensures
            r@ == namespace_text(*self),
    {
        match self {
            Tier::Minute => "rollup_minute",
            Tier::Hour => "rollup_hour",
            Tier::Day => "rollup_day",
            Tier::Month => "rollup_month",
        }
    }
}

/// How often each tier is closed, and how long its buckets live.
#[derive(Debug, Clone, Copy)]
pub struct TierConfig {
    pub minute_duration: Duration,
    pub hour_duration: Duration,
    pub day_duration: Duration,
    pub month_duration: Duration,
    pub minute_ttl_secs: u32,
    pub hour_ttl_secs: u32,
    pub day_ttl_secs: u32,
    pub month_ttl_secs: u32,
}

impl TierConfig {
    /// Minute buckets live an hour, hour buckets a week, day buckets 90 days and month
    /// buckets ten years.
    pub fn production_defaults() -> (r: Self)
        ensures
            retention::duration_nanos(r.minute_duration) == 60 * 1_000_000_000,
            retention::duration_nanos(r.hour_duration) == 3600 * 1_000_000_000,
            retention::duration_nanos(r.day_duration) == 86_400 * 1_000_000_000,
            retention::duration_nanos(r.month_duration) == 30 * 86_400 * 1_000_000_000,
            r.minute_ttl_secs == 3600,
            r.hour_ttl_secs == 7 * 86_400,
            r.day_ttl_secs == 90 * 86_400,
            r.month_ttl_secs == 10 * 365 * 86_400,
    {
        TierConfig {
            minute_duration: Duration::from_secs(60),
            hour_duration: Duration::from_secs(3600),
            day_duration: Duration::from_secs(86_400),
            month_duration: Duration::from_secs(30 * 86_400),
            minute_ttl_secs: 3600,
            hour_ttl_secs: 7 * 86_400,
            day_ttl_secs: 90 * 86_400,
            month_ttl_secs: 10 * 365 * 86_400,
        }
    }
}

/// The key of a bucket: eight bytes of shifted time, then the field's name.
pub open spec fn bucket_key(bucket_start_ns: int, field: Seq<char>) -> Seq<u8> {
    keycodec::be_bytes((bucket_start_ns + keycodec::BIAS) as nat, 8) + vstd::utf8::encode_utf8(
        field,
    )
}

/// The time and field of a bucket's key.
pub open spec fn bucket_of(key: Seq<u8>) -> Option<(int, Seq<char>)> {
    if key.len() < 8 || !vstd::utf8::valid_utf8(key.skip(8)) {
        None
    } else {
        Some(
            (
                keycodec::be_value(key.take(8)) - keycodec::BIAS,
                vstd::utf8::decode_utf8(key.skip(8)),
            ),
        )
    }
}

/// Builds the key of a bucket: sortable by time, scoped by field.
pub fn rollup_key(bucket_start_ns: i64, field: &str) -> (key: Vec<u8>)
    ensures
        key@ == bucket_key(bucket_start_ns as int, field@),
{
    let mut key: Vec<u8> = to_be_bytes(order_preserving_ns(bucket_start_ns));
    let mut name: Vec<u8> = bytes_from(field.as_bytes(), 0);
    assert(name@ =~= vstd::utf8::encode_utf8(field@));
    key.append(&mut name);
    key
}

/// Reads the key of a bucket.
pub fn decode_rollup_key(key: &[u8]) -> (r: Option<(i64, String)>)
    ensures
        match r {
            Some((start, field)) => bucket_of(key@) == Some((start as int, field@)),
            None => bucket_of(key@) is None,
        },
{
    if key.len() < 8 {
        return None;
    }
    let start: i64 = decode_order_preserving_ns(from_be_bytes(key, 8));
    match from_utf8(bytes_from(key, 8)) {
        Some(field) => {
            proof {
                vstd::utf8::encode_utf8_decode_utf8(field@);
            }
            Some((start, field))
        },
        None => None,
    }
}

/// The key of a bucket reads back as the time and field it was built from.
pub proof fn law_rollup_key_round_trip(bucket_start_ns: i64, field: Seq<char>)
    ensures
        bucket_of(bucket_key(bucket_start_ns as int, field)) == Some(
            (bucket_start_ns as int, field),
        ),
{
    let n = (bucket_start_ns + keycodec::BIAS) as nat;
    let key = bucket_key(bucket_start_ns as int, field);
    keycodec::lemma_u64_fits(n as u64);
    keycodec::lemma_be_bytes_len(n, 8);
    keycodec::law_be_round_trip(n, 8);
    assert(key.take(8) =~= keycodec::be_bytes(n, 8));
    assert(key.skip(8) =~= vstd::utf8::encode_utf8(field));
    vstd::utf8::encode_utf8_valid_utf8(field);
    vstd::utf8::encode_utf8_decode_utf8(field);
}

/// Bucket keys are ordered by time first.
pub proof fn law_rollup_key_order(a: i64, b: i64, f: Seq<char>, g: Seq<char>)
    requires
        a < b,
    ensures
        crate::order::bytes_lt(bucket_key(a as int, f), bucket_key(b as int, g)),
{
    let x = (a + keycodec::BIAS) as nat;
    let y = (b + keycodec::BIAS) as nat;
    keycodec::lemma_u64_fits(x as u64);
    keycodec::lemma_u64_fits(y as u64);
    keycodec::law_be_order(x, y, 8);
    keycodec::lemma_be_bytes_len(x, 8);
    keycodec::lemma_be_bytes_len(y, 8);
    assert(crate::order::strict_total(crate::order::byte_less()));
    crate::order::lemma_lex_append(
        keycodec::be_bytes(x, 8),
        keycodec::be_bytes(y, 8),
        vstd::utf8::encode_utf8(f),
        vstd::utf8::encode_utf8(g),
        crate::order::byte_less(),
    );
}

/// The field of a bucket whose time lies in a window.
pub open spec fn field_in_window(key: Seq<u8>, start_ns: int, end_ns: int) -> Option<Seq<char>> {
    match bucket_of(key) {
        Some((start, field)) if start_ns <= start < end_ns => Some(field),
        _ => None,
    }
}

/// The field of a stored bucket, if it belongs to the window from `window_start_ns` up to
/// `window_end_ns`.
pub fn bucket_in_window(key: &[u8], window_start_ns: i64, window_end_ns: i64) -> (r: Option<
    String,
>)
    ensures
        match r {
            Some(field) => field_in_window(key@, window_start_ns as int, window_end_ns as int)
                == Some(field@),
            None => field_in_window(key@, window_start_ns as int, window_end_ns as int) is None,
        },
{
    match decode_rollup_key(key) {
        Some((start, field)) => {
            if start < window_start_ns || start >= window_end_ns {
                None
            } else {
                Some(field)
            }
        },
        None => None,
    }
}

/// Every sketch of a bucket is sound.
pub open spec fn all_sound(bucket: Map<Seq<char>, FieldSketch>) -> bool {
    forall|k: Seq<char>| #[trigger] bucket.dom().contains(k) ==> bucket[k].sound()
}

/// The buckets of a window, in their order: the field of each, and its stored sketch.
pub open spec fn windowed(
    entries: Seq<(Vec<u8>, Vec<u8>)>,
    start_ns: int,
    end_ns: int,
) -> Seq<(Seq<char>, Seq<u8>)>
    decreases entries.len(),
{
    if entries.len() == 0 {
        seq![]
    } else {
        let before = windowed(entries.drop_last(), start_ns, end_ns);
        match field_in_window(entries.last().0@, start_ns, end_ns) {
            Some(field) => before.push((field, entries.last().1@)),
            None => before,
        }
    }
}

pub open spec fn stored_views(s: Seq<(String, Vec<u8>)>) -> Seq<(Seq<char>, Seq<u8>)> {
    s.map_values(|e: (String, Vec<u8>)| (e.0@, e.1@))
}

/// Picks the stored buckets that belong to the window from `window_start_ns` up to
/// `window_end_ns`, each by its field.
pub fn buckets_in_window(
    all: Vec<(Vec<u8>, Vec<u8>)>,
    window_start_ns: i64,
    window_end_ns: i64,
) -> (out: Vec<(String, Vec<u8>)>)
    ensures
        stored_views(out@) == windowed(all@, window_start_ns as int, window_end_ns as int),
{
    let ghost entries = all@;
    let mut out: Vec<(String, Vec<u8>)> = Vec::new();
    assert(stored_views(out@) =~= windowed(
        entries.take(0),
        window_start_ns as int,
        window_end_ns as int,
    ));
    for e in it: all.into_iter()
        invariant
            it.seq() == entries,
            stored_views(out@) == windowed(
                entries.take(it.index()),
                window_start_ns as int,
                window_end_ns as int,
            ),
    {
        assert(entries.take(it.index() + 1).drop_last() =~= entries.take(it.index()));
        let ghost before = out@;
        match bucket_in_window(&e.0, window_start_ns, window_end_ns) {
            Some(field) => {
                let ghost item = (field@, e.1@);
                out.push((field, e.1));
                assert(stored_views(out@) =~= stored_views(before).push(item));
            },
            None => {},
        }
    }
    assert(entries.take(entries.len() as int) =~= entries);
    out
}

/// `after` is the coarser bucket `before` with one more sketch folded in.
pub open spec fn absorbs(
    before: Map<Seq<char>, FieldSketch>,
    field: Seq<char>,
    sketch: FieldSketch,
    after: Result<Map<Seq<char>, FieldSketch>, MergeError>,
) -> bool {
    if !before.dom().contains(field) {
        after == Ok::<Map<Seq<char>, FieldSketch>, MergeError>(before.insert(field, sketch))
    } else {
        match sketch::merge_error(before[field], sketch) {
            Some(e) => after == Err::<Map<Seq<char>, FieldSketch>, MergeError>(e),
            None => after matches Ok(m) && m == before.insert(field, m[field]) && sketch::merges(
                before[field],
                sketch,
                m[field],
            ),
        }
    }
}

/// Folds one more stored sketch into the coarser bucket of its field. Where the sketches
/// do not merge, nothing changes.
pub fn absorb(merged: &mut StrMap<FieldSketch>, field: String, sketch: FieldSketch) -> (r: Result<
    (),
    MergeError,
>)
    requires
        all_sound(old(merged)@),
        sketch.sound(),
    ensures
        all_sound(final(merged)@),
        match r {
            Ok(_) => absorbs(old(merged)@, field@, sketch, Ok(final(merged)@)),
            Err(e) => absorbs(old(merged)@, field@, sketch, Err(e)) && final(merged)@ == old(
                merged,
            )@,
        },
{
    let ghost before = merged@;
    match merged.remove(field.as_str()) {
        Some(existing) => {
            let mut target: FieldSketch = existing;
            let r: Result<(), MergeError> = target.merge_from(&sketch);
            let ghost name = field@;
            let ghost after = target;
            merged.insert(field, target);
            assert(merged@ =~= before.insert(name, after));
            proof {
                if r is Err {
                    assert(merged@ =~= before);
                }
            }
            r
        },
        None => {
            assert(merged@ =~= before);
            merged.insert(field, sketch);
            Ok(())
        },
    }
}

/// `answer` is the bucket `prior` with one more sketch folded in. An error stays.
pub open spec fn folds_in(
    prior: Result<Map<Seq<char>, FieldSketch>, MergeError>,
    item: (Seq<char>, FieldSketch),
    answer: Result<Map<Seq<char>, FieldSketch>, MergeError>,
) -> bool {
    match prior {
        Err(e) => answer == Err::<Map<Seq<char>, FieldSketch>, MergeError>(e),
        Ok(m) => absorbs(m, item.0, item.1, answer),
    }
}

/// `answer` is the coarser bucket of those sketches, folded in their order; or the error of
/// the first that does not merge.
pub open spec fn merges_up(
    items: Seq<(Seq<char>, FieldSketch)>,
    answer: Result<Map<Seq<char>, FieldSketch>, MergeError>,
) -> bool
    decreases items.len(),
{
    if items.len() == 0 {
        answer == Ok::<Map<Seq<char>, FieldSketch>, MergeError>(Map::empty())
    } else {
        exists|prior: Result<Map<Seq<char>, FieldSketch>, MergeError>|
            merges_up(items.drop_last(), prior) && #[trigger] folds_in(prior, items.last(), answer)
    }
}

pub open spec fn item_views(items: Seq<(String, FieldSketch)>) -> Seq<(Seq<char>, FieldSketch)> {
    items.map_values(|e: (String, FieldSketch)| (e.0@, e.1))
}

proof fn lemma_error_merges_up(items: Seq<(Seq<char>, FieldSketch)>, i: int, e: MergeError)
    requires
        0 <= i <= items.len(),
        merges_up(items.take(i), Err(e)),
    ensures
        merges_up(items, Err(e)),
    decreases items.len() - i,
{
    if i == items.len() {
        assert(items.take(i) =~= items);
    } else {
        let next = items.take(i + 1);
        let answer = Err::<Map<Seq<char>, FieldSketch>, MergeError>(e);
        assert(next.drop_last() =~= items.take(i));
        assert(folds_in(answer, next.last(), answer));
        lemma_error_merges_up(items, i + 1, e);
    }
}

/// Folds the buckets of a window into one coarser bucket, field by field.
pub fn merge_buckets(items: Vec<(String, FieldSketch)>) -> (r: Result<
    StrMap<FieldSketch>,
    MergeError,
>)
    requires
        forall|i: int| 0 <= i < items@.len() ==> (#[trigger] items@[i]).1.sound(),
    ensures
        match r {
            Ok(bucket) => merges_up(item_views(items@), Ok(bucket@)) && all_sound(bucket@),
            Err(e) => merges_up(item_views(items@), Err(e)),
        },
{
    let ghost all = items@;
    let ghost views = item_views(all);
    let mut merged: StrMap<FieldSketch> = StrMap::new();
    assert(merges_up(views.take(0), Ok(merged@)));
    for e in it: items.into_iter()
        invariant
            it.seq() == all,
            views == item_views(all),
            forall|i: int| 0 <= i < all.len() ==> (#[trigger] all[i]).1.sound(),
            merges_up(views.take(it.index()), Ok(merged@)),
            all_sound(merged@),
    {
        let ghost before = merged@;
        let ghost next = views.take(it.index() + 1);
        assert(all[it.index()] == e);
        assert(next.drop_last() =~= views.take(it.index()));
        match absorb(&mut merged, e.0, e.1) {
            Ok(_) => {
                assert(folds_in(Ok(before), next.last(), Ok(merged@)));
            },
            Err(why) => {
                proof {
                    assert(folds_in(Ok(before), next.last(), Err(why)));
                    lemma_error_merges_up(views, it.index() + 1, why);
                }
                return Err(why);
            },
        }
    }
    assert(views.take(views.len() as int) =~= views);
    Ok(merged)
}

/// The windows of one tier that follow each other share no bucket and miss none: a bucket
/// of the two together is in exactly one of them.
pub proof fn law_windows_tile_time(key: Seq<u8>, a: int, b: int, c: int)
    requires
        a <= b <= c,
    ensures
        field_in_window(key, a, c) == (if field_in_window(key, a, b) is Some {
            field_in_window(key, a, b)
        } else {
            field_in_window(key, b, c)
        }),
        field_in_window(key, a, b) is None || field_in_window(key, b, c) is None,
{
}

/// What happens to the worker.
pub enum Event {
    /// A committed record had this field.
    Sample(RollupSample),
    /// No more samples will come.
    Closed,
    /// The minute bucket is over.
    MinuteTick,
    /// The hour bucket is over, now.
    HourTick(i64),
    /// The day bucket is over, now.
    DayTick(i64),
    /// The month bucket is over, now.
    MonthTick(i64),
}

/// What the worker has to do about it.
pub enum Action {
    Nothing,
    /// Note that a sample was dropped: its sketch has no use for its value.
    Drop(RollupSample),
    Stop,
    /// Store every sketch of the bucket under its field.
    Persist { bucket: StrMap<FieldSketch>, start_ns: i64, ttl_secs: u32 },
    /// Fold the buckets of one tier, from `start_ns` up to `end_ns`, into the next.
    MergeUp { from: Tier, to: Tier, start_ns: i64, end_ns: i64, ttl_secs: u32 },
}

/// The worker's state: the live bucket, and where each tier's window began.
pub struct Worker {
    pub kinds: StrMap<RollupKind>,
    pub tiers: TierConfig,
    pub bucket: StrMap<FieldSketch>,
    pub minute_start_ns: i64,
    pub hour_start_ns: i64,
    pub day_start_ns: i64,
    pub month_start_ns: i64,
}

/// `after` is the bucket `before` with one more sample. Only configured fields are kept;
/// the first sample of a field starts its sketch.
pub open spec fn sampled(
    before: Map<Seq<char>, FieldSketch>,
    kinds: Map<Seq<char>, RollupKind>,
    field: Seq<char>,
    value: Seq<char>,
    after: Map<Seq<char>, FieldSketch>,
) -> bool {
    if !kinds.dom().contains(field) {
        after == before
    } else {
        &&& after == before.insert(field, after[field])
        &&& exists|base: FieldSketch|
            {
                &&& if before.dom().contains(field) {
                    base == before[field]
                } else {
                    sketch::is_fresh(kinds[field], base)
                }
                &&& #[trigger] continues(base, value, after[field])
            }
    }
}

/// `after` is the sketch `base` with the value in it, if it takes the value.
pub open spec fn continues(base: FieldSketch, value: Seq<char>, after: FieldSketch) -> bool {
    if base.takes(value) {
        sketch::observes(base, value, after)
    } else {
        after == base
    }
}

/// The sample is of a configured field whose sketch has no use for the value.
pub open spec fn drops(
    before: Worker,
    field: Seq<char>,
    value: Seq<char>,
    after: Worker,
) -> bool {
    before.kinds@.dom().contains(field) && !after.bucket@[field].uses(value)
}

/// What the worker does about an event: `after` is what becomes of `before`, and `action`
/// what is to be done.
pub open spec fn stepped(before: Worker, event: Event, after: Worker, action: Action) -> bool {
    match event {
        Event::Sample(s) => {
            &&& sampled(before.bucket@, before.kinds@, s.field@, s.value@, after.bucket@)
            &&& after == (Worker { bucket: after.bucket, ..before })
            &&& action == if drops(before, s.field@, s.value@, after) {
                Action::Drop(s)
            } else {
                Action::Nothing
            }
        },
        Event::Closed => action is Stop && after == before,
        Event::MinuteTick => {
            &&& after.bucket@ == Map::<Seq<char>, FieldSketch>::empty()
            &&& after == (Worker { bucket: after.bucket, ..before })
            &&& if before.bucket@ == Map::<Seq<char>, FieldSketch>::empty() {
                action is Nothing
            } else {
                action matches Action::Persist { bucket, start_ns, ttl_secs } && bucket@
                    == before.bucket@ && start_ns == before.minute_start_ns && ttl_secs
                    == before.tiers.minute_ttl_secs
            }
        },
        Event::HourTick(end) => {
            &&& action == (Action::MergeUp {
                from: Tier::Minute,
                to: Tier::Hour,
                start_ns: before.hour_start_ns,
                end_ns: end,
                ttl_secs: before.tiers.hour_ttl_secs,
            })
            &&& after == (Worker { hour_start_ns: end, ..before })
        },
        Event::DayTick(end) => {
            &&& action == (Action::MergeUp {
                from: Tier::Hour,
                to: Tier::Day,
                start_ns: before.day_start_ns,
                end_ns: end,
                ttl_secs: before.tiers.day_ttl_secs,
            })
            &&& after == (Worker { day_start_ns: end, ..before })
        },
        Event::MonthTick(end) => {
            &&& action == (Action::MergeUp {
                from: Tier::Day,
                to: Tier::Month,
                start_ns: before.month_start_ns,
                end_ns: end,
                ttl_secs: before.tiers.month_ttl_secs,
            })
            &&& after == (Worker { month_start_ns: end, ..before })
        },
    }
}

impl Worker {
    /// All sketches of the live bucket are sound.
    pub open spec fn sound(&self) -> bool {
        all_sound(self.bucket@)
    }

    /// A worker that starts now with an empty bucket.
    pub fn start(kinds: StrMap<RollupKind>, tiers: TierConfig, now: i64) -> (r: Self)
        ensures
            r.sound(),
            r.kinds == kinds,
            r.tiers == tiers,
            r.bucket@ == Map::<Seq<char>, FieldSketch>::empty(),
            r.minute_start_ns == now,
            r.hour_start_ns == now,
            r.day_start_ns == now,
            r.month_start_ns == now,
    {
        Worker {
            kinds,
            tiers,
            bucket: StrMap::new(),
            minute_start_ns: now,
            hour_start_ns: now,
            day_start_ns: now,
            month_start_ns: now,
        }
    }

    /// Takes one sample into the live bucket. `used` is false where the sketch of its field
    /// has no use for its value.
    pub fn take_sample(&mut self, sample: &RollupSample) -> (used: bool)
        requires
            old(self).sound(),
        ensures
            final(self).sound(),
            sampled(
                old(self).bucket@,
                old(self).kinds@,
                sample.field@,
                sample.value@,
                final(self).bucket@,
            ),
            *final(self) == (Worker { bucket: final(self).bucket, ..*old(self) }),
            used == !drops(*old(self), sample.field@, sample.value@, *final(self)),
    {
        let ghost before = self.bucket@;
        let kind: RollupKind = match self.kinds.get(sample.field.as_str()) {
            Some(k) => *k,
            None => {
                return true;
            },
        };
        let field: String = sample.field.as_str().to_string();
        let mut bucket: StrMap<FieldSketch> = StrMap::new();
        std::mem::swap(&mut bucket, &mut self.bucket);
        let mut entry: FieldSketch = match bucket.remove(sample.field.as_str()) {
            Some(existing) => existing,
            None => FieldSketch::new_for_kind(kind),
        };
        let ghost base = entry;
        let _ = entry.try_observe(sample.value.as_str());
        let used: bool = entry.can_use(sample.value.as_str());
        let ghost after = entry;
        bucket.insert(field, entry);
        self.bucket = bucket;
        proof {
            assert(self.bucket@ =~= before.insert(sample.field@, after));
            assert(continues(base, sample.value@, self.bucket@[sample.field@]));
        }
        used
    }

    /// Decides what to do about an event.
    pub fn step(&mut self, event: Event) -> (r: Action)
        requires
            old(self).sound(),
        ensures
            final(self).sound(),
            stepped(*old(self), event, *final(self), r),
    {
        match event {
            Event::Sample(sample) => {
                if self.take_sample(&sample) {
                    Action::Nothing
                } else {
                    Action::Drop(sample)
                }
            },
            Event::Closed => Action::Stop,
            Event::MinuteTick => {
                let mut bucket: StrMap<FieldSketch> = StrMap::new();
                std::mem::swap(&mut bucket, &mut self.bucket);
                if bucket.is_empty() {
                    Action::Nothing
                } else {
                    Action::Persist {
                        bucket,
                        start_ns: self.minute_start_ns,
                        ttl_secs: self.tiers.minute_ttl_secs,
                    }
                }
            },
            Event::HourTick(end) => {
                let start_ns: i64 = self.hour_start_ns;
                self.hour_start_ns = end;
                Action::MergeUp {
                    from: Tier::Minute,
                    to: Tier::Hour,
                    start_ns,
                    end_ns: end,
                    ttl_secs: self.tiers.hour_ttl_secs,
                }
            },
            Event::DayTick(end) => {
                let start_ns: i64 = self.day_start_ns;
                self.day_start_ns = end;
                Action::MergeUp {
                    from: Tier::Hour,
                    to: Tier::Day,
                    start_ns,
                    end_ns: end,
                    ttl_secs: self.tiers.day_ttl_secs,
                }
            },
            Event::MonthTick(end) => {
                let start_ns: i64 = self.month_start_ns;
                self.month_start_ns = end;
                Action::MergeUp {
                    from: Tier::Day,
                    to: Tier::Month,
                    start_ns,
                    end_ns: end,
                    ttl_secs: self.tiers.month_ttl_secs,
                }
            },
        }
    }

    /// Opens the next minute window.
    pub fn open_minute(&mut self, now: i64)
        ensures
            *final(self) == (Worker { minute_start_ns: now, ..*old(self) }),
    {
        self.minute_start_ns = now;
    }
}

/// The keys that a bucket is stored under: one for each of its fields, in their order.
pub open spec fn keys_of(bucket: Map<Seq<char>, FieldSketch>, start_ns: int) -> Seq<Seq<u8>> {
    strmap::listing(bucket).map_values(|e: (Seq<char>, FieldSketch)| bucket_key(start_ns, e.0))
}

/// Builds the keys that a bucket is stored under, in the order of its fields.
pub fn bucket_keys(bucket: &StrMap<FieldSketch>, start_ns: i64) -> (r: Vec<Vec<u8>>)
    ensures
        r@.map_values(|k: Vec<u8>| k@) == keys_of(bucket@, start_ns as int),
{
    let n: usize = bucket.len();
    let ghost all = strmap::listing(bucket@);
    let mut out: Vec<Vec<u8>> = Vec::new();
    let mut i: usize = 0;
    while i < n
        invariant
            i <= n,
            n == all.len(),
            all == strmap::listing(bucket@),
            out@.len() == i,
            forall|j: int| 0 <= j < i ==> (#[trigger] out@[j])@ == bucket_key(
                start_ns as int,
                all[j].0,
            ),
        decreases n - i,
    {
        let (field, _) = bucket.at(i);
        out.push(rollup_key(start_ns, field.as_str()));
        i = i + 1;
    }
    assert(out@.map_values(|k: Vec<u8>| k@) =~= keys_of(bucket@, start_ns as int));
    out
}

// ---- a whole window ----

/// The sample that an event brings, if it brings one.
pub open spec fn sample_of(event: Event) -> Seq<(Seq<char>, Seq<char>)> {
    match event {
        Event::Sample(s) => seq![(s.field@, s.value@)],
        _ => seq![],
    }
}

/// The samples that events bring, in their order.
pub open spec fn samples_in(events: Seq<Event>) -> Seq<(Seq<char>, Seq<char>)>
    decreases events.len(),
{
    if events.len() == 0 {
        seq![]
    } else {
        samples_in(events.drop_last()) + sample_of(events.last())
    }
}

/// The values of one field among samples of many, in their order.
pub open spec fn values_of(samples: Seq<(Seq<char>, Seq<char>)>, field: Seq<char>) -> Seq<Seq<char>>
    decreases samples.len(),
{
    if samples.len() == 0 {
        seq![]
    } else if samples.last().0 == field {
        values_of(samples.drop_last(), field).push(samples.last().1)
    } else {
        values_of(samples.drop_last(), field)
    }
}

/// `s` is reached from a new sketch of that kind by exactly those values, in their order.
pub open spec fn reached(kind: RollupKind, values: Seq<Seq<char>>, s: FieldSketch) -> bool
    decreases values.len(),
{
    if values.len() == 0 {
        sketch::is_fresh(kind, s)
    } else {
        exists|prior: FieldSketch|
            reached(kind, values.drop_last(), prior) && #[trigger] continues(
                prior,
                values.last(),
                s,
            )
    }
}

/// `bucket` is reached from an empty one by exactly those samples, in their order.
pub open spec fn filled(
    samples: Seq<(Seq<char>, Seq<char>)>,
    kinds: Map<Seq<char>, RollupKind>,
    bucket: Map<Seq<char>, FieldSketch>,
) -> bool
    decreases samples.len(),
{
    if samples.len() == 0 {
        bucket == Map::<Seq<char>, FieldSketch>::empty()
    } else {
        exists|prior: Map<Seq<char>, FieldSketch>|
            filled(samples.drop_last(), kinds, prior) && #[trigger] sampled(
                prior,
                kinds,
                samples.last().0,
                samples.last().1,
                bucket,
            )
    }
}

/// The worker went through those states by those events, within one minute window.
pub open spec fn is_window(
    states: Seq<Worker>,
    events: Seq<Event>,
    actions: Seq<Action>,
) -> bool {
    &&& states.len() == events.len() + 1
    &&& actions.len() == events.len()
    &&& states[0].bucket@ == Map::<Seq<char>, FieldSketch>::empty()
    &&& forall|i: int|
        0 <= i < events.len() ==> !((#[trigger] events[i]) is MinuteTick) && stepped(
            states[i],
            events[i],
            states[i + 1],
            actions[i],
        )
}

/// A bucket holds, for each configured field with a sample, the sketch reached from a new
/// one by exactly the samples of that field, and no other field.
pub proof fn law_bucket_holds_each_field(
    samples: Seq<(Seq<char>, Seq<char>)>,
    kinds: Map<Seq<char>, RollupKind>,
    bucket: Map<Seq<char>, FieldSketch>,
    field: Seq<char>,
)
    requires
        filled(samples, kinds, bucket),
    ensures
        bucket.dom().finite(),
        bucket.dom().contains(field) <==> kinds.dom().contains(field) && values_of(
            samples,
            field,
        ).len() > 0,
        bucket.dom().contains(field) ==> reached(
            kinds[field],
            values_of(samples, field),
            bucket[field],
        ),
    decreases samples.len(),
{
    if samples.len() > 0 {
        let (name, value) = samples.last();
        let before = samples.drop_last();
        let prior = choose|prior: Map<Seq<char>, FieldSketch>|
            filled(before, kinds, prior) && #[trigger] sampled(
                prior,
                kinds,
                samples.last().0,
                samples.last().1,
                bucket,
            );
        law_bucket_holds_each_field(before, kinds, prior, field);
        if name == field && kinds.dom().contains(field) {
            let base = choose|base: FieldSketch|
                {
                    &&& if prior.dom().contains(field) {
                        base == prior[field]
                    } else {
                        sketch::is_fresh(kinds[field], base)
                    }
                    &&& #[trigger] continues(base, value, bucket[field])
                };
            let values = values_of(samples, field);
            assert(values.drop_last() =~= values_of(before, field));
            assert(reached(kinds[field], values.drop_last(), base));
            assert(continues(base, values.last(), bucket[field]));
        }
    }
}

/// A field has a key of its own among the keys of a bucket, if it is in the bucket.
proof fn lemma_keys_of_fields(
    bucket: Map<Seq<char>, FieldSketch>,
    start_ns: i64,
    field: Seq<char>,
)
    requires
        bucket.dom().finite(),
    ensures
        keys_of(bucket, start_ns as int).contains(bucket_key(start_ns as int, field))
            == bucket.dom().contains(field),
{
    strmap::lemma_listing_exists(bucket);
    let all = strmap::listing(bucket);
    let keys = keys_of(bucket, start_ns as int);
    let key = bucket_key(start_ns as int, field);
    law_rollup_key_round_trip(start_ns, field);
    if bucket.dom().contains(field) {
        assert(strmap::lists(all, field));
        let j = choose|j: int| 0 <= j < all.len() && (#[trigger] all[j]).0 == field;
        assert(keys[j] == key);
    }
    if keys.contains(key) {
        let j = choose|j: int| 0 <= j < keys.len() && keys[j] == key;
        law_rollup_key_round_trip(start_ns, all[j].0);
        assert(all[j].0 == field);
        assert(bucket.dom().contains(all[j].0));
    }
}

/// Within a window the live bucket holds exactly the samples that came, and nothing else of
/// what a minute stores changes.
proof fn lemma_window_fills(states: Seq<Worker>, events: Seq<Event>, actions: Seq<Action>)
    requires
        is_window(states, events, actions),
    ensures
        filled(samples_in(events), states[0].kinds@, states.last().bucket@),
        states.last().kinds == states[0].kinds,
        states.last().tiers == states[0].tiers,
        states.last().minute_start_ns == states[0].minute_start_ns,
    decreases events.len(),
{
    if events.len() > 0 {
        let n = events.len() - 1;
        let head = states.drop_last();
        let rest = events.drop_last();
        assert forall|i: int| 0 <= i < rest.len() implies !((#[trigger] rest[i]) is MinuteTick)
            && stepped(head[i], rest[i], head[i + 1], actions.drop_last()[i]) by {
            assert(rest[i] == events[i]);
        }
        lemma_window_fills(head, rest, actions.drop_last());
        assert(!(events[n] is MinuteTick));
        assert(stepped(states[n], events[n], states[n + 1], actions[n]));
        let before = samples_in(rest);
        match events[n] {
            Event::Sample(s) => {
                let all = before + sample_of(events[n]);
                assert(all.drop_last() =~= before);
                assert(all.last() == (s.field@, s.value@));
                assert(sampled(
                    states[n].bucket@,
                    states[0].kinds@,
                    all.last().0,
                    all.last().1,
                    states.last().bucket@,
                ));
            },
            _ => {
                assert(before + sample_of(events[n]) =~= before);
            },
        }
    }
}

/// At the end of a minute window, each configured field with a sample in it is stored under
/// the start of the window, for as long as minutes live, as the sketch of its kind reached
/// by exactly the samples of that field; no other field is stored, and the next window
/// starts with an empty bucket.
pub proof fn law_minute_window(
    states: Seq<Worker>,
    events: Seq<Event>,
    actions: Seq<Action>,
    after: Worker,
    action: Action,
    field: Seq<char>,
)
    requires
        is_window(states, events, actions),
        stepped(states.last(), Event::MinuteTick, after, action),
    ensures
        after.bucket@ == Map::<Seq<char>, FieldSketch>::empty(),
        ({
            let kinds = states[0].kinds@;
            let values = values_of(samples_in(events), field);
            let counts = kinds.dom().contains(field) && values.len() > 0;
            match action {
                Action::Persist { bucket, start_ns, ttl_secs } => {
                    &&& start_ns == states[0].minute_start_ns
                    &&& ttl_secs == states[0].tiers.minute_ttl_secs
                    &&& bucket@.dom().contains(field) <==> counts
                    &&& counts ==> reached(kinds[field], values, bucket@[field])
                    &&& counts <==> keys_of(bucket@, start_ns as int).contains(
                        bucket_key(start_ns as int, field),
                    )
                },
                _ => action is Nothing && !counts,
            }
        }),
{
    lemma_window_fills(states, events, actions);
    let bucket = states.last().bucket@;
    law_bucket_holds_each_field(samples_in(events), states[0].kinds@, bucket, field);
    lemma_keys_of_fields(bucket, states[0].minute_start_ns, field);
}

/// How often a value occurs in a list is how often it occurs among its items.
proof fn lemma_frequency_counts(values: Seq<Seq<char>>, x: Seq<char>)
    ensures
        space_saving::frequency(values, x) == values.to_multiset().count(x),
        values.to_multiset().count(x) > 0 <==> values.contains(x),
    decreases values.len(),
{
    broadcast use vstd::seq_lib::group_to_multiset_ensures;
    broadcast use vstd::multiset::group_multiset_axioms;

    if values.len() > 0 {
        let rest = values.drop_last();
        lemma_frequency_counts(rest, x);
        assert(values =~= rest.push(values.last()));
    }
}

/// An exact sketch, a HyperLogLog++ or a top-k sketch leaves no value out. After any values,
/// an exact sketch counts each as often as it occurred and nothing else; a HyperLogLog++
/// holds what inserting every value, in order, makes of a new one of precision 14; a top-k
/// sketch tracks 20 values, each counted at least as often as it occurred, has every value
/// that makes up more than a twentieth, and counts exactly while there is room for all.
pub proof fn law_sketches_take_in_every_value(
    kind: RollupKind,
    values: Seq<Seq<char>>,
    s: FieldSketch,
)
    requires
        reached(kind, values, s),
        values.len() <= u64::MAX,
    ensures
        kind is Exact ==> s is Exact && forall|x: Seq<char>|
            {
                &&& #[trigger] s->Exact_0@.dom().contains(x) <==> values.contains(x)
                &&& values.contains(x) ==> s->Exact_0@[x] == values.to_multiset().count(x)
            },
        kind is Hll ==> s is Hll && sketch::hll_precision(*s->Hll_0) == 14 && sketch::hll_state(
            *s->Hll_0,
        ) == values.fold_left(
            sketch::hll_fresh(14),
            |state: Seq<u32>, v: Seq<char>| sketch::hll_inserted(state, v),
        ),
        kind is TopK ==> s is TopK && s->TopK_0.room() == 20 && s->TopK_0@.dom().len() <= 20,
        kind is TopK ==> forall|x: Seq<char>|
            {
                &&& #[trigger] s->TopK_0@.dom().contains(x) ==> values.to_multiset().count(x)
                    <= s->TopK_0@[x] <= values.len()
                &&& values.to_multiset().count(x) * 20 > values.len()
                    ==> s->TopK_0@.dom().contains(x)
                &&& values.to_set().len() <= 20 && values.contains(x)
                    ==> s->TopK_0@.dom().contains(x) && s->TopK_0@[x]
                    == values.to_multiset().count(x)
            },
{
    lemma_reached_by_kind(kind, values, s);
    assert forall|x: Seq<char>| true implies #[trigger] values.to_multiset().count(x)
        == space_saving::frequency(values, x) by {
        lemma_frequency_counts(values, x);
    }
    if kind is Exact {
        sketch::law_exact_counts_are_frequencies(values);
        assert forall|x: Seq<char>|
            {
                &&& #[trigger] s->Exact_0@.dom().contains(x) <==> values.contains(x)
                &&& values.contains(x) ==> s->Exact_0@[x] == values.to_multiset().count(x)
            } by {
            assert(sketch::tally(values).dom().contains(x) <==> values.contains(x));
            lemma_frequency_counts(values, x);
        }
    }
    if kind is TopK {
        space_saving::law_counts_bound_frequencies(values, 20);
        assert forall|x: Seq<char>|
            {
                &&& #[trigger] s->TopK_0@.dom().contains(x) ==> values.to_multiset().count(x)
                    <= s->TopK_0@[x] <= values.len()
                &&& values.to_multiset().count(x) * 20 > values.len()
                    ==> s->TopK_0@.dom().contains(x)
                &&& values.to_set().len() <= 20 && values.contains(x)
                    ==> s->TopK_0@.dom().contains(x) && s->TopK_0@[x]
                    == values.to_multiset().count(x)
            } by {
            lemma_frequency_counts(values, x);
            if space_saving::frequency(values, x) * 20 > values.len() {
                space_saving::law_heavy_hitters_are_tracked(values, 20, x);
            }
            if values.to_set().len() <= 20 && values.contains(x) {
                space_saving::law_few_values_are_counted_exactly(values, 20);
                assert(values.to_set().contains(x));
            }
        }
    }
}

proof fn lemma_reached_by_kind(kind: RollupKind, values: Seq<Seq<char>>, s: FieldSketch)
    requires
        reached(kind, values, s),
    ensures
        kind is Exact ==> s is Exact && s->Exact_0@ == sketch::tally(values),
        kind is Hll ==> s is Hll && sketch::hll_precision(*s->Hll_0) == 14 && sketch::hll_state(
            *s->Hll_0,
        ) == values.fold_left(
            sketch::hll_fresh(14),
            |state: Seq<u32>, v: Seq<char>| sketch::hll_inserted(state, v),
        ),
        kind is TopK ==> s is TopK && s->TopK_0.room() == 20 && s->TopK_0@
            == space_saving::counts_after(values, 20),
        kind is DDSketch ==> s is DDSketch && sketch::dd_config(*s->DDSketch_0) == 0,
    decreases values.len(),
{
    reveal_with_fuel(Seq::fold_left, 2);
    if values.len() > 0 {
        let prior = choose|prior: FieldSketch|
            reached(kind, values.drop_last(), prior) && #[trigger] continues(
                prior,
                values.last(),
                s,
            );
        lemma_reached_by_kind(kind, values.drop_last(), prior);
    }
}

/// A DDSketch leaves a value out only where it is no number or an infinite one: after any
/// values, no more than a counter can hold, it has counted every other one, and none of
/// them lies below its least value or above its greatest.
pub proof fn law_ddsketch_counts_every_finite_number(
    values: Seq<Seq<char>>,
    s: FieldSketch,
)
    requires
        reached(RollupKind::DDSketch, values, s),
        values.len() <= usize::MAX,
    ensures
        s is DDSketch,
        sketch::dd_count(*s->DDSketch_0) == values.filter(
            |v: Seq<char>|
                floattext::is_float_text(v) && sketch::float_bits(v) != 0x7ff0_0000_0000_0000
                    && sketch::float_bits(v) != 0xfff0_0000_0000_0000,
        ).len(),
        forall|i: int|
            0 <= i < values.len() && floattext::is_float_text(#[trigger] values[i])
                && sketch::float_bits(values[i]) != 0x7ff0_0000_0000_0000 && sketch::float_bits(
                values[i],
            ) != 0xfff0_0000_0000_0000 ==> !sketch::float_less(
                sketch::float_bits(values[i]),
                sketch::dd_extremes(*s->DDSketch_0).0,
            ) && !sketch::float_less(
                sketch::dd_extremes(*s->DDSketch_0).1,
                sketch::float_bits(values[i]),
            ),
        !sketch::is_nan(sketch::dd_extremes(*s->DDSketch_0).0),
        !sketch::is_nan(sketch::dd_extremes(*s->DDSketch_0).1),
    decreases values.len(),
{
    let finite = |v: Seq<char>|
        floattext::is_float_text(v) && sketch::float_bits(v) != 0x7ff0_0000_0000_0000
            && sketch::float_bits(v) != 0xfff0_0000_0000_0000;
    reveal(Seq::filter);
    if values.len() > 0 {
        let rest = values.drop_last();
        let prior = choose|prior: FieldSketch|
            reached(RollupKind::DDSketch, rest, prior) && #[trigger] continues(
                prior,
                values.last(),
                s,
            );
        law_ddsketch_counts_every_finite_number(rest, prior);
        rest.lemma_filter_len(finite);
        assert(forall|i: int| 0 <= i < rest.len() ==> rest[i] == values[i]);
        assert forall|i: int|
            0 <= i < values.len() && floattext::is_float_text(#[trigger] values[i])
                && sketch::float_bits(values[i]) != 0x7ff0_0000_0000_0000 && sketch::float_bits(
                values[i],
            ) != 0xfff0_0000_0000_0000 implies !sketch::float_less(
            sketch::float_bits(values[i]),
            sketch::dd_extremes(*s->DDSketch_0).0,
        ) && !sketch::float_less(
            sketch::dd_extremes(*s->DDSketch_0).1,
            sketch::float_bits(values[i]),
        ) by {
            if i < rest.len() {
                assert(rest[i] == values[i]);
            }
        }
    }
}

/// What a minute window stores of a field: where the field is counted exactly, how often
/// each of its values was sampled in the window; where its distinct values are counted, the
/// sketch that inserting every one of its samples, in order, makes of a new one.
pub proof fn law_minute_window_loses_no_sample(
    states: Seq<Worker>,
    events: Seq<Event>,
    actions: Seq<Action>,
    after: Worker,
    action: Action,
    field: Seq<char>,
)
    requires
        is_window(states, events, actions),
        stepped(states.last(), Event::MinuteTick, after, action),
        states[0].kinds@.dom().contains(field),
        values_of(samples_in(events), field).len() > 0,
        values_of(samples_in(events), field).len() <= u64::MAX,
    ensures
        action is Persist,
        action->bucket@.dom().contains(field),
        states[0].kinds@[field] is Exact ==> action->bucket@[field] is Exact && forall|
            x: Seq<char>,
        | #[trigger]
            action->bucket@[field]->Exact_0@.dom().contains(x) ==> action->bucket@[field]->Exact_0@[x]
                == values_of(samples_in(events), field).to_multiset().count(x),
        states[0].kinds@[field] is Exact ==> forall|i: int|
            0 <= i < values_of(samples_in(events), field).len()
                ==> action->bucket@[field]->Exact_0@.dom().contains(
                #[trigger] values_of(samples_in(events), field)[i],
            ),
        states[0].kinds@[field] is Hll ==> action->bucket@[field] is Hll && sketch::hll_state(
            *action->bucket@[field]->Hll_0,
        ) == values_of(samples_in(events), field).fold_left(
            sketch::hll_fresh(14),
            |state: Seq<u32>, v: Seq<char>| sketch::hll_inserted(state, v),
        ),
        states[0].kinds@[field] is TopK ==> action->bucket@[field] is TopK,
        states[0].kinds@[field] is DDSketch ==> action->bucket@[field] is DDSketch,
{
    law_minute_window(states, events, actions, after, action, field);
    let values = values_of(samples_in(events), field);
    let s = action->bucket@[field];
    law_sketches_take_in_every_value(states[0].kinds@[field], values, s);
    lemma_reached_by_kind(states[0].kinds@[field], values, s);
}

/// The values of a field among the samples of events are those that its sample events
/// brought, in their order, and no others.
pub proof fn law_samples_are_the_sample_events(
    events: Seq<Event>,
    sample: RollupSample,
    field: Seq<char>,
)
    ensures
        values_of(samples_in(events.push(Event::Sample(sample))), sample.field@) == values_of(
            samples_in(events),
            sample.field@,
        ).push(sample.value@),
        field != sample.field@ ==> values_of(
            samples_in(events.push(Event::Sample(sample))),
            field,
        ) == values_of(samples_in(events), field),
        values_of(samples_in(Seq::<Event>::empty()), field) == Seq::<Seq<char>>::empty(),
{
    let all = events.push(Event::Sample(sample));
    assert(all.drop_last() =~= events);
    let now = samples_in(events);
    let more = samples_in(all);
    assert(more =~= now.push((sample.field@, sample.value@)));
    assert(more.drop_last() =~= now);
}

/// A bucket's key is eight bytes of its time, shifted by two to the power 63, and the bytes
/// of its field; what is shorter or holds no text is no key.
pub proof fn law_bucket_key_layout(bucket_start_ns: i64, field: Seq<char>, key: Seq<u8>)
    ensures
        bucket_key(bucket_start_ns as int, field).len() == 8 + vstd::utf8::encode_utf8(field).len(),
        keycodec::be_value(bucket_key(bucket_start_ns as int, field).take(8)) == bucket_start_ns
            + 0x8000_0000_0000_0000,
        bucket_key(bucket_start_ns as int, field).skip(8) == vstd::utf8::encode_utf8(field),
        key.len() < 8 ==> bucket_of(key) is None,
        key.len() >= 8 && !vstd::utf8::valid_utf8(key.skip(8)) ==> bucket_of(key) is None,
        bucket_of(key) is Some ==> key == bucket_key((bucket_of(key)->0).0, (bucket_of(key)->0).1),
{
    let n = (bucket_start_ns + keycodec::BIAS) as nat;
    keycodec::lemma_u64_fits(n as u64);
    keycodec::lemma_be_bytes_len(n, 8);
    keycodec::law_be_round_trip(n, 8);
    let made = bucket_key(bucket_start_ns as int, field);
    assert(made.take(8) =~= keycodec::be_bytes(n, 8));
    assert(made.skip(8) =~= vstd::utf8::encode_utf8(field));
    if bucket_of(key) is Some {
        keycodec::law_be_reread(key.take(8));
        vstd::utf8::decode_utf8_encode_utf8(key.skip(8));
        assert(key =~= key.take(8) + key.skip(8));
    }
}

/// A stored bucket is in a window exactly when its time is: not before the start, and before
/// the end. What a window picks is those buckets, by their fields, in their order.
pub proof fn law_window_picks_by_time(
    entries: Seq<(Vec<u8>, Vec<u8>)>,
    e: (Vec<u8>, Vec<u8>),
    bucket_start_ns: i64,
    field: Seq<char>,
    start_ns: int,
    end_ns: int,
)
    requires
        e.0@ == bucket_key(bucket_start_ns as int, field),
    ensures
        windowed(entries.push(e), start_ns, end_ns) == if start_ns <= bucket_start_ns < end_ns {
            windowed(entries, start_ns, end_ns).push((field, e.1@))
        } else {
            windowed(entries, start_ns, end_ns)
        },
        windowed(Seq::<(Vec<u8>, Vec<u8>)>::empty(), start_ns, end_ns).len() == 0,
{
    law_rollup_key_round_trip(bucket_start_ns, field);
    assert(entries.push(e).drop_last() =~= entries);
}

/// Each tier is stored under a name of its own.
pub proof fn law_tiers_are_stored_apart(a: Tier, b: Tier)
    ensures
        namespace_text(a) == namespace_text(b) <==> a == b,
        "rollup_"@.is_prefix_of(namespace_text(a)),
{
    reveal_strlit("rollup_");
    reveal_strlit("rollup_minute");
    reveal_strlit("rollup_hour");
    reveal_strlit("rollup_day");
    reveal_strlit("rollup_month");
    assert("rollup_minute"@.len() == 13);
    assert("rollup_hour"@.len() == 11);
    assert("rollup_day"@.len() == 10);
    assert("rollup_month"@.len() == 12);
}

/// The windows of the coarser tiers follow each other without a gap: a tick folds what the
/// next finer tier stored from the end of the window before it up to its own time, and the
/// next window starts there. It leaves the live bucket and the other tiers alone.
pub proof fn law_ticks_close_their_windows(
    before: Worker,
    end: i64,
    after: Worker,
    action: Action,
    later: i64,
    last: Worker,
    next: Action,
)
    ensures
        stepped(before, Event::HourTick(end), after, action) ==> action is MergeUp
            && action->from is Minute && action->to is Hour && action->MergeUp_start_ns
            == before.hour_start_ns && action->end_ns == end && action->MergeUp_ttl_secs
            == before.tiers.hour_ttl_secs && after.day_start_ns == before.day_start_ns
            && after.month_start_ns == before.month_start_ns && after.bucket == before.bucket,
        stepped(before, Event::HourTick(end), after, action) && stepped(
            after,
            Event::HourTick(later),
            last,
            next,
        ) ==> next->MergeUp_start_ns == end && next->end_ns == later,
        stepped(before, Event::DayTick(end), after, action) ==> action is MergeUp
            && action->from is Hour && action->to is Day && action->MergeUp_start_ns
            == before.day_start_ns && action->end_ns == end && action->MergeUp_ttl_secs
            == before.tiers.day_ttl_secs && after.hour_start_ns == before.hour_start_ns
            && after.month_start_ns == before.month_start_ns && after.bucket == before.bucket,
        stepped(before, Event::DayTick(end), after, action) && stepped(
            after,
            Event::DayTick(later),
            last,
            next,
        ) ==> next->MergeUp_start_ns == end && next->end_ns == later,
        stepped(before, Event::MonthTick(end), after, action) ==> action is MergeUp
            && action->from is Day && action->to is Month && action->MergeUp_start_ns
            == before.month_start_ns && action->end_ns == end && action->MergeUp_ttl_secs
            == before.tiers.month_ttl_secs && after.hour_start_ns == before.hour_start_ns
            && after.day_start_ns == before.day_start_ns && after.bucket == before.bucket,
        stepped(before, Event::MonthTick(end), after, action) && stepped(
            after,
            Event::MonthTick(later),
            last,
            next,
        ) ==> next->MergeUp_start_ns == end && next->end_ns == later,
        stepped(before, Event::Closed, after, action) ==> action is Stop && after == before,
{
}

/// A sample is reported as dropped exactly where its field is rolled up in a DDSketch and
/// its value is no finite number; a sample of a field that is not rolled up changes nothing.
pub proof fn law_dropped_samples(
    before: Worker,
    sample: RollupSample,
    after: Worker,
    action: Action,
)
    requires
        stepped(before, Event::Sample(sample), after, action),
    ensures
        !before.kinds@.dom().contains(sample.field@) ==> action is Nothing && after.bucket@
            == before.bucket@,
        before.kinds@.dom().contains(sample.field@) ==> after.bucket@.dom().contains(sample.field@),
        before.kinds@.dom().contains(sample.field@) ==> (action is Drop
            <==> after.bucket@[sample.field@] is DDSketch && !(floattext::is_float_text(
            sample.value@,
        ) && sketch::float_bits(sample.value@) != 0x7ff0_0000_0000_0000 && sketch::float_bits(
            sample.value@,
        ) != 0xfff0_0000_0000_0000)),
        action is Drop || action is Nothing,
        forall|k: Seq<char>|
            k != sample.field@ ==> (#[trigger] after.bucket@.dom().contains(k)
                <==> before.bucket@.dom().contains(k)) && (before.bucket@.dom().contains(k)
                ==> after.bucket@[k] == before.bucket@[k]),
{
}

/// Each tier is stored under its name.
pub proof fn law_tier_names(tier: Tier)
    ensures
        namespace_text(tier) == "rollup_"@ + (match tier {
            Tier::Minute => "minute"@,
            Tier::Hour => "hour"@,
            Tier::Day => "day"@,
            Tier::Month => "month"@,
        }),
{
    reveal_strlit("rollup_");
    reveal_strlit("minute");
    reveal_strlit("hour");
    reveal_strlit("day");
    reveal_strlit("month");
    reveal_strlit("rollup_minute");
    reveal_strlit("rollup_hour");
    reveal_strlit("rollup_day");
    reveal_strlit("rollup_month");
    assert("rollup_minute"@ =~= "rollup_"@ + "minute"@);
    assert("rollup_hour"@ =~= "rollup_"@ + "hour"@);
    assert("rollup_day"@ =~= "rollup_"@ + "day"@);
    assert("rollup_month"@ =~= "rollup_"@ + "month"@);
}

} // verus!
