//! Tiering: flushing to segments, archiving new ones, and pruning local copies.

use std::time::{Duration, SystemTime, UNIX_EPOCH};

use vstd::prelude::*;

use crate::order::{order_of_bytes, Order};
use crate::retention;
use crate::retention::is_due_after;

verus! {

/// Where segments are archived.
#[derive(Debug, PartialEq)]
pub enum BackupConfig {
    /// Under the data directory.
    Local,
    Filesystem { path: String },
    S3 { bucket: String, prefix: Option<String>, endpoint: Option<String> },
}

impl Default for BackupConfig {
    fn default() -> (r: Self)
        ensures
            r is Local,
    {
        BackupConfig::Local
    }
}

/// The length of a segment's hash.
pub const HASH_BYTES: usize = 32;

/// The hashes of archived segments.
pub struct ArchivedSet {
    hashes: Vec<Vec<u8>>,
}

pub open spec fn hash_set(hashes: Seq<Vec<u8>>) -> Set<Seq<u8>> {
    Set::new(|h: Seq<u8>| exists|i: int| 0 <= i < hashes.len() && (#[trigger] hashes[i])@ == h)
}

impl View for ArchivedSet {
    type V = Set<Seq<u8>>;

    closed spec fn view(&self) -> Set<Seq<u8>> {
        hash_set(self.hashes@)
    }
}

impl ArchivedSet {
    /// An empty set.
    pub fn new() -> (r: Self)
        ensures
            r@ == Set::<Seq<u8>>::empty(),
    {
        let r = ArchivedSet { hashes: Vec::new() };
        assert(r@ =~= Set::<Seq<u8>>::empty());
        r
    }

    /// Whether a hash is in the set.
    pub fn contains(&self, hash: &[u8]) -> (r: bool)
        ensures
            r == self@.contains(hash@),
    {
        let mut i: usize = 0;
        while i < self.hashes.len()
            invariant
                i <= self.hashes@.len(),
                forall|j: int| 0 <= j < i ==> (#[trigger] self.hashes@[j])@ != hash@,
            decreases self.hashes.len() - i,
        {
            match order_of_bytes(&self.hashes[i], hash) {
                Order::Equal => {
                    return true;
                },
                _ => {},
            }
            i = i + 1;
        }
        false
    }

    /// Puts a hash into the set.
    pub fn insert(&mut self, hash: Vec<u8>)
        ensures
            final(self)@ == old(self)@.insert(hash@),
    {
        let ghost before = self.hashes@;
        let ghost h = hash;
        self.hashes.push(hash);
        proof {
            let after = self.hashes@;
            assert forall|x: Seq<u8>| hash_set(after).contains(x) == hash_set(before).insert(
                h@,
            ).contains(x) by {
                if hash_set(before).contains(x) {
                    let i = choose|i: int| 0 <= i < before.len() && (#[trigger] before[i])@ == x;
                    assert(after[i]@ == x);
                }
                if x == h@ {
                    assert(after[before.len() as int]@ == x);
                }
                if hash_set(after).contains(x) {
                    let i = choose|i: int| 0 <= i < after.len() && (#[trigger] after[i])@ == x;
                    if i < before.len() {
                        assert(before[i]@ == x);
                    }
                }
            }
            assert(self@ =~= old(self)@.insert(h@));
        }
    }
}

/// The segment has a hash of the right length that is not archived.
pub open spec fn is_new(hash: Seq<u8>, archived: Set<Seq<u8>>) -> bool {
    hash.len() == HASH_BYTES && !archived.contains(hash)
}

/// The places of the new segments among `hashes`, ascending.
pub open spec fn new_places(hashes: Seq<Vec<u8>>, archived: Set<Seq<u8>>) -> Seq<int>
    decreases hashes.len(),
{
    if hashes.len() == 0 {
        seq![]
    } else if is_new(hashes.last()@, archived) {
        new_places(hashes.drop_last(), archived).push(hashes.len() - 1)
    } else {
        new_places(hashes.drop_last(), archived)
    }
}

pub open spec fn places(v: Seq<usize>) -> Seq<int> {
    v.map_values(|i: usize| i as int)
}

/// Picks the segments that are to be archived, by their places: those whose hash has the
/// right length and is not archived.
pub fn segments_to_archive(hashes: &Vec<Vec<u8>>, archived: &ArchivedSet) -> (r: Vec<usize>)
    ensures
        places(r@) == new_places(hashes@, archived@),
{
    let mut out: Vec<usize> = Vec::new();
    let mut i: usize = 0;
    assert(places(out@) =~= new_places(hashes@.take(0), archived@));
    while i < hashes.len()
        invariant
            i <= hashes@.len(),
            places(out@) == new_places(hashes@.take(i as int), archived@),
        decreases hashes.len() - i,
    {
        assert(hashes@.take(i + 1).drop_last() =~= hashes@.take(i as int));
        let ghost before = out@;
        if hashes[i].len() == HASH_BYTES && !archived.contains(&hashes[i]) {
            out.push(i);
            assert(places(out@) =~= places(before).push(i as int));
        }
        i = i + 1;
    }
    assert(hashes@.take(i as int) =~= hashes@);
    out
}

/// The hashes of the archived segments that can be restored.
pub open spec fn restorable(hashes: Seq<Vec<u8>>) -> Set<Seq<u8>> {
    Set::new(
        |h: Seq<u8>|
            h.len() == HASH_BYTES && exists|i: int|
                0 <= i < hashes.len() && (#[trigger] hashes[i])@ == h,
    )
}

/// Restores the set of archived segments from what was stored of them. Hashes of another
/// length are left out.
pub fn restore_archived(hashes: &Vec<Vec<u8>>) -> (r: ArchivedSet)
    ensures
        r@ == restorable(hashes@),
{
    let mut set: ArchivedSet = ArchivedSet::new();
    let mut i: usize = 0;
    assert(set@ =~= restorable(hashes@.take(0)));
    while i < hashes.len()
        invariant
            i <= hashes@.len(),
            set@ == restorable(hashes@.take(i as int)),
        decreases hashes.len() - i,
    {
        let ghost head = hashes@.take(i as int);
        let ghost more = hashes@.take(i + 1);
        let ghost h = hashes@[i as int];
        if hashes[i].len() == HASH_BYTES {
            let copy: Vec<u8> = crate::keycodec::bytes_from(&hashes[i], 0);
            assert(copy@ =~= h@);
            set.insert(copy);
        }
        proof {
            assert forall|x: Seq<u8>| restorable(more).contains(x) == (restorable(head).contains(x)
                || (x == h@ && x.len() == HASH_BYTES)) by {
                if restorable(more).contains(x) {
                    let j = choose|j: int| 0 <= j < more.len() && (#[trigger] more[j])@ == x;
                    if j < i {
                        assert(head[j]@ == x);
                    }
                }
                if restorable(head).contains(x) {
                    let j = choose|j: int| 0 <= j < head.len() && (#[trigger] head[j])@ == x;
                    assert(more[j]@ == x);
                }
                if x == h@ {
                    assert(more[i as int]@ == x);
                }
            }
            assert(set@ =~= restorable(more));
        }
        i = i + 1;
    }
    assert(hashes@.take(i as int) =~= hashes@);
    set
}

/// An archived segment, and when it was archived.
#[derive(Debug, Clone, Copy, PartialEq, Eq, Structural)]
pub struct ArchivedSegmentRecord {
    pub segment_id: u64,
    pub archived_at_unix_secs: i64,
}

/// `SystemTime::now` and `SystemTime::duration_since`: the nanoseconds since the Unix
/// epoch; `None` where the clock reads a time before it. Nothing is claimed of the reading.
#[verifier::external_body]
fn nanos_since_epoch() -> (n: Option<u128>) {
    SystemTime::now().duration_since(UNIX_EPOCH).ok().map(|d| d.as_nanos())
}

/// The nanoseconds from the archiving of a segment to `now`; `None` where it lies ahead. A
/// segment archived before the epoch counts as archived at the epoch. A `now` of `None` is
/// a time before the epoch, when every archiving lies ahead.
pub open spec fn elapsed_of(r: ArchivedSegmentRecord, now_nanos: Option<u128>) -> Option<u128> {
    let at = if r.archived_at_unix_secs < 0 {
        0
    } else {
        r.archived_at_unix_secs * 1_000_000_000
    };
    match now_nanos {
        Some(now) => if now < at {
            None
        } else {
            Some((now - at) as u128)
        },
        None => None,
    }
}

/// The segment has been archived for the grace period.
pub open spec fn is_prunable(
    r: ArchivedSegmentRecord,
    now_nanos: Option<u128>,
    grace_nanos: u128,
) -> bool {
    retention::due(elapsed_of(r, now_nanos), grace_nanos)
}

/// The ids of the segments that are to be pruned, in their order.
pub open spec fn prunable_ids(
    records: Seq<ArchivedSegmentRecord>,
    now_nanos: Option<u128>,
    grace_nanos: u128,
) -> Seq<u64>
    decreases records.len(),
{
    if records.len() == 0 {
        seq![]
    } else {
        let before = prunable_ids(records.drop_last(), now_nanos, grace_nanos);
        if is_prunable(records.last(), now_nanos, grace_nanos) {
            before.push(records.last().segment_id)
        } else {
            before
        }
    }
}

/// A time in nanoseconds since the epoch as whole seconds; a time before it counts as the
/// epoch.
pub open spec fn whole_secs(now_nanos: Option<u128>) -> i64 {
    match now_nanos {
        Some(n) => ((n / 1_000_000_000) as u64) as i64,
        None => 0,
    }
}

impl ArchivedSegmentRecord {
    /// A segment that is archived at that time.
    pub fn archived_at(segment_id: u64, now_nanos: Option<u128>) -> (r: Self)
        ensures
            r.segment_id == segment_id,
            r.archived_at_unix_secs == (match now_nanos {
                Some(n) => ((n / 1_000_000_000) as u64) as i64,
                None => 0,
            }),
            r.archived_at_unix_secs == whole_secs(now_nanos),
    {
        ArchivedSegmentRecord {
            segment_id,
            archived_at_unix_secs: match now_nanos {
                Some(n) => ((n / 1_000_000_000) as u64) as i64,
                None => 0,
            },
        }
    }

    /// A segment that is archived now. The clock decides when that is.
    pub fn new(segment_id: u64) -> (r: Self)
        ensures
            r.segment_id == segment_id,
    {
        ArchivedSegmentRecord::archived_at(segment_id, nanos_since_epoch())
    }

    /// How long ago the segment was archived.
    pub fn elapsed(&self, now_nanos: Option<u128>) -> (r: Option<u128>)
        ensures
            r == elapsed_of(*self, now_nanos),
    {
        let at: u128 = if self.archived_at_unix_secs < 0 {
            0
        } else {
            (self.archived_at_unix_secs as u128) * 1_000_000_000
        };
        match now_nanos {
            Some(now) => if now < at {
                None
            } else {
                Some(now - at)
            },
            None => None,
        }
    }
}

/// Picks the segments whose local copies are to be pruned at `now_nanos`, by their ids.
/// `None` is a time before the epoch.
pub fn segments_to_prune_at(
    records: &Vec<ArchivedSegmentRecord>,
    now_nanos: Option<u128>,
    grace_nanos: u128,
) -> (r: Vec<u64>)
    ensures
        r@ == prunable_ids(records@, now_nanos, grace_nanos),
{
    let mut out: Vec<u64> = Vec::new();
    let mut i: usize = 0;
    while i < records.len()
        invariant
            i <= records@.len(),
            out@ == prunable_ids(records@.take(i as int), now_nanos, grace_nanos),
        decreases records.len() - i,
    {
        assert(records@.take(i + 1).drop_last() =~= records@.take(i as int));
        if is_due_after(records[i].elapsed(now_nanos), grace_nanos) {
            out.push(records[i].segment_id);
        }
        i = i + 1;
    }
    assert(records@.take(i as int) =~= records@);
    out
}

/// Picks the segments whose local copies are to be pruned now. The clock decides when that
/// is.
pub fn segments_to_prune(
    records: &Vec<ArchivedSegmentRecord>,
    grace_period: Duration,
) -> (r: Vec<u64>)
    ensures
        exists|now_nanos: Option<u128>|
            r@ == #[trigger] prunable_ids(
                records@,
                now_nanos,
                retention::duration_nanos(grace_period),
            ),
{
    segments_to_prune_at(records, nanos_since_epoch(), grace_period.as_nanos())
}

/// What happens to the tiering worker.
#[derive(Debug, Clone, Copy, PartialEq, Eq, Structural)]
pub enum BackupEvent {
    FlushTick,
    ArchiveTick,
    /// A segment was just flushed.
    Flushed,
    PruneTick,
}

/// What the tiering worker has to do about it.
#[derive(Debug, Clone, Copy, PartialEq, Eq, Structural)]
pub enum BackupAction {
    Flush,
    Archive,
    Prune,
    Nothing,
}

/// What is to be done about an event.
pub open spec fn action_for(event: BackupEvent, has_retention: bool) -> BackupAction {
    match event {
        BackupEvent::FlushTick => BackupAction::Flush,
        BackupEvent::ArchiveTick => BackupAction::Archive,
        BackupEvent::Flushed => BackupAction::Archive,
        BackupEvent::PruneTick => if has_retention {
            BackupAction::Prune
        } else {
            BackupAction::Nothing
        },
    }
}

/// Decides what to do about an event. Segments are archived at every tick and as soon as
/// they are flushed; nothing is pruned unless a retention is configured.
pub fn backup_step(event: BackupEvent, has_retention: bool) -> (r: BackupAction)
    ensures
        r == (match event {
            BackupEvent::FlushTick => BackupAction::Flush,
            BackupEvent::ArchiveTick => BackupAction::Archive,
            BackupEvent::Flushed => BackupAction::Archive,
            BackupEvent::PruneTick => if has_retention {
                BackupAction::Prune
            } else {
                BackupAction::Nothing
            },
        }),
        r == action_for(event, has_retention),
{
    match event {
        BackupEvent::FlushTick => BackupAction::Flush,
        BackupEvent::ArchiveTick => BackupAction::Archive,
        BackupEvent::Flushed => BackupAction::Archive,
        BackupEvent::PruneTick => if has_retention {
            BackupAction::Prune
        } else {
            BackupAction::Nothing
        },
    }
}

/// A segment that was archived is not archived again.
pub proof fn law_archived_once(hash: Seq<u8>, archived: Set<Seq<u8>>)
    ensures
        !is_new(hash, archived.insert(hash)),
{
}

/// Once every segment with a hash of the right length is archived, a pass archives none.
pub proof fn law_second_pass_archives_nothing(hashes: Seq<Vec<u8>>, archived: Set<Seq<u8>>)
    requires
        forall|i: int|
            0 <= i < hashes.len() && (#[trigger] hashes[i])@.len() == HASH_BYTES
                ==> archived.contains(hashes[i]@),
    ensures
        new_places(hashes, archived).len() == 0,
    decreases hashes.len(),
{
    if hashes.len() > 0 {
        assert forall|i: int|
            0 <= i < hashes.len() - 1 && (#[trigger] hashes.drop_last()[i])@.len()
                == HASH_BYTES implies archived.contains(hashes.drop_last()[i]@) by {
            assert(hashes.drop_last()[i] == hashes[i]);
        }
        law_second_pass_archives_nothing(hashes.drop_last(), archived);
    }
}

/// A segment that may be pruned may be pruned at every later time.
pub proof fn law_pruning_is_monotone(
    r: ArchivedSegmentRecord,
    now: u128,
    later: u128,
    grace: u128,
)
    requires
        now <= later,
        is_prunable(r, Some(now), grace),
    ensures
        is_prunable(r, Some(later), grace),
{
}

/// A segment is picked for archiving exactly when its hash has 32 bytes and is not archived
/// yet; segments are picked in their order, and each once.
pub proof fn law_new_segments_are_picked(hashes: Seq<Vec<u8>>, archived: Set<Seq<u8>>, i: int)
    ensures
        new_places(hashes, archived).contains(i) <==> 0 <= i < hashes.len() && hashes[i]@.len() == 32
            && !archived.contains(hashes[i]@),
        forall|a: int, b: int|
            0 <= a < b < new_places(hashes, archived).len() ==> #[trigger] new_places(
                hashes,
                archived,
            )[a] < #[trigger] new_places(hashes, archived)[b],
    decreases hashes.len(),
{
    if hashes.len() > 0 {
        let rest = hashes.drop_last();
        let n = hashes.len() - 1;
        let before = new_places(rest, archived);
        let all = new_places(hashes, archived);
        law_new_segments_are_picked(rest, archived, i);
        assert(hashes.last() == hashes[n]);
        if 0 <= i < n {
            assert(rest[i] == hashes[i]);
        }
        assert forall|a: int| 0 <= a < before.len() implies #[trigger] before[a] < n by {
            law_new_segments_are_picked(rest, archived, before[a]);
            assert(before.contains(before[a]));
        }
        if is_new(hashes.last()@, archived) {
            assert(all == before.push(n));
            assert(all[before.len() as int] == n);
            if before.contains(i) {
                let a = choose|a: int| 0 <= a < before.len() && before[a] == i;
                assert(all[a] == i);
            }
            if all.contains(i) && i != n {
                let a = choose|a: int| 0 <= a < all.len() && all[a] == i;
                assert(before[a] == i);
            }
        }
    }
}

/// What was stored of the archived segments is restored: every hash of 32 bytes, and no
/// other.
pub proof fn law_archived_hashes_are_restored(hashes: Seq<Vec<u8>>, h: Seq<u8>)
    ensures
        restorable(hashes).contains(h) <==> h.len() == 32 && exists|i: int|
            0 <= i < hashes.len() && (#[trigger] hashes[i])@ == h,
{
}

/// A local copy is pruned exactly when the clock reads a time that lies the grace period or
/// more after the archiving; pruned copies are named in their order.
pub proof fn law_pruned_after_the_grace_period(
    records: Seq<ArchivedSegmentRecord>,
    now: u128,
    grace: u128,
)
    ensures
        prunable_ids(records, Some(now), grace) == records.filter(
            |r: ArchivedSegmentRecord|
                now >= grace + (if r.archived_at_unix_secs > 0 {
                    r.archived_at_unix_secs * 1_000_000_000
                } else {
                    0
                }),
        ).map_values(|r: ArchivedSegmentRecord| r.segment_id),
        prunable_ids(records, None, grace).len() == 0,
    decreases records.len(),
{
    reveal(Seq::filter);
    let keep = |r: ArchivedSegmentRecord|
        now >= grace + (if r.archived_at_unix_secs > 0 {
            r.archived_at_unix_secs * 1_000_000_000
        } else {
            0
        });
    let id = |r: ArchivedSegmentRecord| r.segment_id;
    if records.len() == 0 {
        assert(records.filter(keep).map_values(id) =~= Seq::<u64>::empty());
    } else {
        let rest = records.drop_last();
        law_pruned_after_the_grace_period(rest, now, grace);
        let r = records.last();
        assert(is_prunable(r, Some(now), grace) <==> keep(r));
        if keep(r) {
            assert(rest.filter(keep).push(r).map_values(id) =~= rest.filter(keep).map_values(
                id,
            ).push(id(r)));
        }
    }
}

/// Local copies are pruned only where a retention is configured and only at their own tick;
/// segments are archived at every tick for it and after every flush, and flushed at every
/// tick for that.
pub proof fn law_what_each_event_does(event: BackupEvent, has_retention: bool)
    ensures
        action_for(event, has_retention) is Prune <==> event is PruneTick && has_retention,
        action_for(event, has_retention) is Archive <==> event is ArchiveTick || event is Flushed,
        action_for(event, has_retention) is Flush <==> event is FlushTick,
{
}

/// A segment that is archived at a time was archived less than a second before it: its age
/// is counted from the second it was archived in.
pub proof fn law_age_is_counted_from_the_archiving(r: ArchivedSegmentRecord, now: u128, later: u128)
    requires
        r.archived_at_unix_secs == whole_secs(Some(now)),
        now / 1_000_000_000 <= i64::MAX,
        now <= later,
    ensures
        elapsed_of(r, Some(later)) is Some,
        later - now <= elapsed_of(r, Some(later))->0 < later - now + 1_000_000_000,
{
}

/// A time is cut down to its whole seconds; one before the epoch counts as the epoch.
pub proof fn law_whole_seconds(now: u128)
    ensures
        whole_secs(None) == 0,
        now / 1_000_000_000 <= i64::MAX ==> whole_secs(Some(now)) * 1_000_000_000 <= now < (
        whole_secs(Some(now)) + 1) * 1_000_000_000,
{
}

} // verus!
