//! Epoch nanoseconds: the wall clock, and the timestamps that wire formats write.

use vstd::prelude::*;

verus! {

/// `jiff::Timestamp::now` and `as_nanosecond`: the wall clock in nanoseconds since the
/// Unix epoch. Nothing is claimed of the reading: it is the machine's.
#[verifier::external_body]
fn current_nanosecond() -> (n: i128) {
    jiff::Timestamp::now().as_nanosecond()
}

/// What `jiff` reads out of a timestamp text, in nanoseconds since the Unix epoch;
/// `None` where it rejects the text.
pub uninterp spec fn jiff_nanosecond(text: Seq<char>) -> Option<i128>;

/// `<jiff::Timestamp as FromStr>::from_str` and `as_nanosecond`: the instant depends on
/// the text alone, since a timestamp text carries its own offset.
#[verifier::external_body]
fn parse_nanosecond(text: &str) -> (n: Option<i128>)
    ensures
        n == jiff_nanosecond(text@),
{
    text.parse::<jiff::Timestamp>().ok().map(|t| t.as_nanosecond())
}

/// Nanoseconds cut down to the 64 bits that records carry.
pub fn epoch_ns(nanosecond: i128) -> (r: i64)
    ensures
        r == nanosecond as i64,
        i64::MIN <= nanosecond <= i64::MAX ==> r == nanosecond,
{
    nanosecond as i64
}

/// The 64-bit instant that a timestamp text writes.
pub open spec fn instant_of(text: Seq<char>) -> Option<i64> {
    match jiff_nanosecond(text) {
        Some(n) => Some(n as i64),
        None => None,
    }
}

/// Current wall-clock time, nanoseconds since the Unix epoch. Nothing is claimed of the
/// reading.
pub fn now_ns() -> i64 {
    epoch_ns(current_nanosecond())
}

/// Reads a timestamp text.
pub fn parse_instant(text: &str) -> (r: Option<i64>)
    ensures
        r == instant_of(text@),
{
    match parse_nanosecond(text) {
        Some(n) => Some(epoch_ns(n)),
        None => None,
    }
}

/// An instant that fits 64 bits is the very nanosecond that the text writes; a text that
/// writes no instant gives none.
pub proof fn law_instants_are_exact(text: Seq<char>, n: i128)
    ensures
        jiff_nanosecond(text) == Some(n) && i64::MIN <= n <= i64::MAX ==> instant_of(text) == Some(
            n as i64,
        ),
        jiff_nanosecond(text) is None <==> instant_of(text) is None,
{
}

} // verus!
