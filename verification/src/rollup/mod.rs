//! Rollups: per-field sketches, merged from minute buckets up to months.

use vstd::prelude::*;

pub mod codec;
pub mod sketch;
pub mod space_saving;
pub mod worker;

pub use sketch::RollupKind;

verus! {

/// One field of a committed record.
#[derive(Debug, PartialEq)]
pub struct RollupSample {
    pub field: String,
    pub value: String,
}

} // verus!
