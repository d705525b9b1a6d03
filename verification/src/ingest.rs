//! What a committed record feeds: its rollups, its full-text index, its embedding.

use vstd::prelude::*;

use crate::record::Record;
use crate::rollup::RollupSample;
use crate::strmap;

verus! {

pub open spec fn sample_views(samples: Seq<RollupSample>) -> Seq<(Seq<char>, Seq<char>)> {
    samples.map_values(|s: RollupSample| (s.field@, s.value@))
}

/// What a record contributes to the rollups: one sample for each of its fields.
pub fn rollup_samples(record: &Record) -> (r: Vec<RollupSample>)
    ensures
        sample_views(r@) == strmap::listing(record.fields.texts()),
{
    let n: usize = record.fields.count();
    let ghost all = strmap::listing(record.fields.texts());
    let mut out: Vec<RollupSample> = Vec::new();
    let mut i: usize = 0;
    while i < n
        invariant
            i <= n,
            n == all.len(),
            all == strmap::listing(record.fields.texts()),
            sample_views(out@) == all.take(i as int),
        decreases n - i,
    {
        let (field, value) = record.fields.text_at(i);
        let ghost before = out@;
        out.push(RollupSample { field: field.to_string(), value: value.to_string() });
        assert(sample_views(out@) =~= sample_views(before).push(all[i as int]));
        assert(all.take(i + 1) =~= all.take(i as int).push(all[i as int]));
        i = i + 1;
    }
    assert(all.take(i as int) =~= all);
    out
}

/// What a record contributes to the full-text index: its line, under its key and time.
#[derive(Debug, PartialEq)]
pub struct TextSample {
    pub key: Vec<u8>,
    pub text: String,
    pub timestamp_ns: i64,
}

/// Builds the full-text contribution of a record that was stored under `key`.
pub fn text_sample(record: &Record, key: Vec<u8>) -> (r: TextSample)
    ensures
        r.key == key,
        r.text@ == record.message@,
        r.timestamp_ns == record.timestamp_ns,
{
    TextSample {
        key,
        text: record.message.as_str().to_string(),
        timestamp_ns: record.timestamp_ns,
    }
}

/// The count of dropped samples after one more sample.
pub open spec fn dropped_after(dropped: u64, accepted: bool) -> int {
    if accepted {
        dropped as int
    } else {
        (dropped + 1) % 0x1_0000_0000_0000_0000
    }
}

/// Counts a sample that a full pipeline did not take. The count wraps around.
pub fn count_dropped(dropped: u64, accepted: bool) -> (r: u64)
    ensures
        r == if accepted {
            dropped as int
        } else {
            (dropped + 1) % 0x1_0000_0000_0000_0000
        },
        r == dropped_after(dropped, accepted),
{
    if accepted {
        dropped
    } else {
        dropped.wrapping_add(1)
    }
}

/// Every field of a record gives one sample, with its value, and nothing else does.
pub proof fn law_every_field_is_sampled(
    fields: Map<Seq<char>, Seq<char>>,
    samples: Seq<RollupSample>,
    field: Seq<char>,
)
    requires
        fields.dom().finite(),
        sample_views(samples) == strmap::listing(fields),
    ensures
        samples.len() == fields.dom().len(),
        fields.dom().contains(field) <==> exists|i: int|
            0 <= i < samples.len() && (#[trigger] samples[i]).field@ == field,
        forall|i: int|
            0 <= i < samples.len() ==> (#[trigger] samples[i]).value@ == fields[samples[i].field@],
{
    let all = strmap::listing(fields);
    strmap::law_listing(fields, field);
    assert forall|i: int| 0 <= i < samples.len() implies (#[trigger] samples[i]).field@ == all[i].0
        && samples[i].value@ == all[i].1 by {
        assert(sample_views(samples)[i] == all[i]);
    }
    if fields.dom().contains(field) {
        let i = choose|i: int| 0 <= i < all.len() && (#[trigger] all[i]).0 == field;
        assert(samples[i].field@ == field);
    }
    if exists|i: int| 0 <= i < samples.len() && (#[trigger] samples[i]).field@ == field {
        let i = choose|i: int| 0 <= i < samples.len() && (#[trigger] samples[i]).field@ == field;
        assert(all[i].0 == field);
    }
}

/// A sample that was taken is not counted as dropped, and one that was not counts one.
pub proof fn law_only_refused_samples_count(dropped: u64)
    ensures
        dropped_after(dropped, true) == dropped,
        dropped < u64::MAX ==> dropped_after(dropped, false) == dropped + 1,
        dropped == u64::MAX ==> dropped_after(dropped, false) == 0,
{
}

} // verus!
