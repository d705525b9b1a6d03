//! Waiting out a grace period: whether an event's follow-up action is due.

use std::time::{Duration, SystemTime};

use vstd::prelude::*;

verus! {

/// The point in time that the system clock reads.
#[verifier::external_type_specification]
#[verifier::external_body]
pub struct ExSystemTime(SystemTime);

/// The length of a duration in nanoseconds.
pub uninterp spec fn duration_nanos(d: Duration) -> u128;

/// `Duration::as_nanos`: the total number of nanoseconds.
pub assume_specification[ Duration::as_nanos ](d: &Duration) -> (n: u128)
    ensures
        n == duration_nanos(*d),
;

/// `Duration::from_secs`: a duration of whole seconds.
pub assume_specification[ Duration::from_secs ](secs: u64) -> (d: Duration)
    ensures
        duration_nanos(d) == secs * 1_000_000_000,
;

/// `Duration::as_secs`: the whole seconds of a duration.
pub assume_specification[ Duration::as_secs ](d: &Duration) -> (secs: u64)
    ensures
        secs == duration_nanos(*d) / 1_000_000_000,
;

/// What `SystemTime::duration_since` gives for the time from `event_time` to `now`, in
/// nanoseconds; `None` where `now` is the earlier one.
pub uninterp spec fn nanos_between(event_time: SystemTime, now: SystemTime) -> Option<u128>;

/// `SystemTime::elapsed`: the nanoseconds from that time to what the clock reads, `None`
/// where it reads an earlier time. Nothing is claimed of the reading.
#[verifier::external_body]
fn nanos_since(event_time: SystemTime) -> (n: Option<u128>)
    ensures
        exists|now: SystemTime| n == #[trigger] nanos_between(event_time, now),
{
    event_time.elapsed().ok().map(|d| d.as_nanos())
}

/// The grace period has passed; a time that lies ahead is not due.
pub open spec fn due(elapsed_nanos: Option<u128>, grace_nanos: u128) -> bool {
    match elapsed_nanos {
        Some(e) => e >= grace_nanos,
        None => false,
    }
}

/// Whether a follow-up is due after that much time; `None` is a time that lies ahead.
pub fn is_due_after(elapsed_nanos: Option<u128>, grace_nanos: u128) -> (r: bool)
    ensures
        r == due(elapsed_nanos, grace_nanos),
{
    match elapsed_nanos {
        Some(e) => e >= grace_nanos,
        None => false,
    }
}

/// Whether an event's follow-up is due by the system clock. The clock decides.
pub fn is_due(event_time: SystemTime, grace_period: Duration) -> (r: bool)
    ensures
        exists|now: SystemTime|
            r == due(#[trigger] nanos_between(event_time, now), duration_nanos(grace_period)),
{
    let elapsed: Option<u128> = nanos_since(event_time);
    is_due_after(elapsed, grace_period.as_nanos())
}

/// What is due stays due as time goes by, and is due for every shorter grace period.
pub proof fn law_due_is_monotone(e: u128, later: u128, grace: u128, shorter: u128)
    requires
        e <= later,
        shorter <= grace,
        due(Some(e), grace),
    ensures
        due(Some(later), shorter),
{
}

/// A follow-up is due from the very end of its grace period on and not before it, and never
/// where the event still lies ahead.
pub proof fn law_due_from_the_end_of_grace(e: u128, grace: u128)
    ensures
        e < grace ==> !due(Some(e), grace),
        e >= grace ==> due(Some(e), grace),
        !due(None, grace),
{
}

} // verus!
