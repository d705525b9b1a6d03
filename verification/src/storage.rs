//! Storage keys: a record's time leads its key, so a key range is a time range.

use vstd::prelude::*;

use crate::keycodec;
use crate::keycodec::{order_preserving_ns, to_be_bytes};
use crate::order;
use crate::order::{order_of_bytes, Order};
use crate::record::Record;
use crate::sorting;
use crate::sorting::sort_by_rank;

verus! {

/// A key: eight bytes of shifted time, then eight bytes that tell records of one instant
/// apart.
pub open spec fn key_bytes(timestamp_ns: int, suffix: nat) -> Seq<u8> {
    keycodec::be_bytes((timestamp_ns + keycodec::BIAS) as nat, 8) + keycodec::be_bytes(suffix, 8)
}

/// Builds a key. Suffix zero gives the least key of an instant.
pub fn encode_key(timestamp_ns: i64, suffix: u64) -> (key: Vec<u8>)
    ensures
        key@ == key_bytes(timestamp_ns as int, suffix as nat),
        key@.len() == 16,
{
    proof {
        keycodec::lemma_be_bytes_len((timestamp_ns + keycodec::BIAS) as nat, 8);
        keycodec::lemma_be_bytes_len(suffix as nat, 8);
    }
    let mut key: Vec<u8> = to_be_bytes(order_preserving_ns(timestamp_ns));
    let mut tail: Vec<u8> = to_be_bytes(suffix);
    key.append(&mut tail);
    key
}

/// `rand::random::<u64>`: a fresh random number, of which nothing is claimed.
#[verifier::external_body]
fn random_suffix() -> (n: u64) {
    rand::random::<u64>()
}

/// A key for a new record of that instant. Which suffix it gets is left to chance.
pub fn fresh_key(timestamp_ns: i64) -> (key: Vec<u8>)
    ensures
        exists|suffix: u64| key@ == #[trigger] key_bytes(timestamp_ns as int, suffix as nat),
{
    let suffix: u64 = random_suffix();
    encode_key(timestamp_ns, suffix)
}

/// The key lies in the half-open range of keys from `start_ns` to `end_ns`.
pub open spec fn key_in_range(key: Seq<u8>, start_ns: int, end_ns: int) -> bool {
    &&& !order::bytes_lt(key, key_bytes(start_ns, 0))
    &&& order::bytes_lt(key, key_bytes(end_ns, 0))
}

pub open spec fn entry_in_range(start_ns: int, end_ns: int) -> spec_fn((Vec<u8>, Vec<u8>)) -> bool {
    |e: (Vec<u8>, Vec<u8>)| key_in_range(e.0@, start_ns, end_ns)
}

/// Whether a key lies in the range of keys from `start_ns` up to `end_ns`.
pub fn in_range(key: &[u8], start_ns: i64, end_ns: i64) -> (r: bool)
    ensures
        r == key_in_range(key@, start_ns as int, end_ns as int),
{
    let start: Vec<u8> = encode_key(start_ns, 0);
    let end: Vec<u8> = encode_key(end_ns, 0);
    proof {
        order::lemma_bytes_order_total();
    }
    let from_start: bool = match order_of_bytes(key, &start) {
        Order::Less => false,
        _ => true,
    };
    let before_end: bool = match order_of_bytes(key, &end) {
        Order::Less => true,
        _ => false,
    };
    from_start && before_end
}

/// Keeps the entries whose keys lie in the range, in their order.
pub fn entries_in_range(all: Vec<(Vec<u8>, Vec<u8>)>, start_ns: i64, end_ns: i64) -> (out: Vec<
    (Vec<u8>, Vec<u8>),
>)
    ensures
        out@ == all@.filter(entry_in_range(start_ns as int, end_ns as int)),
{
    let ghost entries = all@;
    let ghost keep = entry_in_range(start_ns as int, end_ns as int);
    let mut out: Vec<(Vec<u8>, Vec<u8>)> = Vec::new();
    proof {
        reveal(Seq::filter);
    }
    for e in it: all.into_iter()
        invariant
            it.seq() == entries,
            keep == entry_in_range(start_ns as int, end_ns as int),
            out@ == entries.take(it.index()).filter(keep),
    {
        proof {
            reveal(Seq::filter);
            assert(entries.take(it.index() + 1).drop_last() =~= entries.take(it.index()));
        }
        if in_range(&e.0, start_ns, end_ns) {
            out.push(e);
        }
    }
    assert(entries.take(entries.len() as int) =~= entries);
    out
}

pub open spec fn time_rank() -> spec_fn((Vec<u8>, Record)) -> int {
    |e: (Vec<u8>, Record)| e.1.timestamp_ns as int
}

/// Orders records by time; records of one instant keep their order.
pub fn chronological(records: Vec<(Vec<u8>, Record)>) -> (out: Vec<(Vec<u8>, Record)>)
    ensures
        sorting::is_stable_sort(out@, records@, time_rank()),
{
    let ghost all = records@;
    let mut ranked: Vec<(i128, (Vec<u8>, Record))> = Vec::new();
    for e in it: records.into_iter()
        invariant
            it.seq() == all,
            ranked@.len() == it.index(),
            forall|i: int|
                0 <= i < ranked@.len() ==> #[trigger] ranked@[i] == (
                    all[i].1.timestamp_ns as i128,
                    all[i],
                ),
    {
        ranked.push((e.1.timestamp_ns as i128, e));
    }
    let sorted: Vec<(i128, (Vec<u8>, Record))> = sort_by_rank(ranked);
    let ghost from = ranked@;
    let ghost done = sorted@;
    proof {
        assert forall|i: int| 0 <= i < from.len() implies (#[trigger] from[i]).0
            == time_rank()(from[i].1) by {}
        sorting::lemma_sorted_values(done, from, time_rank());
        assert(from.map_values(|p: (i128, (Vec<u8>, Record))| p.1) =~= all);
    }
    let mut out: Vec<(Vec<u8>, Record)> = Vec::new();
    for p in it: sorted.into_iter()
        invariant
            it.seq() == done,
            out@.len() == it.index(),
            forall|i: int| 0 <= i < out@.len() ==> #[trigger] out@[i] == done[i].1,
    {
        out.push(p.1);
    }
    assert(out@ =~= done.map_values(|p: (i128, (Vec<u8>, Record))| p.1));
    out
}

/// Keys are ordered by time, and keys of one instant by their suffix.
pub proof fn law_key_order(a: i64, b: i64, s: u64, t: u64)
    ensures
        order::bytes_lt(key_bytes(a as int, s as nat), key_bytes(b as int, t as nat)) <==> a < b
            || (a == b && s < t),
{
    let x = (a + keycodec::BIAS) as nat;
    let y = (b + keycodec::BIAS) as nat;
    keycodec::lemma_u64_fits(x as u64);
    keycodec::lemma_u64_fits(y as u64);
    keycodec::lemma_u64_fits(s);
    keycodec::lemma_u64_fits(t);
    keycodec::law_be_order(x, y, 8);
    keycodec::law_be_order(s as nat, t as nat, 8);
    keycodec::lemma_be_bytes_len(x, 8);
    keycodec::lemma_be_bytes_len(y, 8);
    assert(order::strict_total(order::byte_less()));
    order::lemma_lex_append(
        keycodec::be_bytes(x, 8),
        keycodec::be_bytes(y, 8),
        keycodec::be_bytes(s as nat, 8),
        keycodec::be_bytes(t as nat, 8),
        order::byte_less(),
    );
    keycodec::law_be_round_trip(x, 8);
    keycodec::law_be_round_trip(y, 8);
}

/// A record's key lies in a range of keys exactly when its time lies in the range of
/// times.
pub proof fn law_key_range_is_time_range(
    timestamp_ns: i64,
    suffix: u64,
    start_ns: i64,
    end_ns: i64,
)
    ensures
        key_in_range(
            key_bytes(timestamp_ns as int, suffix as nat),
            start_ns as int,
            end_ns as int,
        ) <==> start_ns <= timestamp_ns < end_ns,
{
    law_key_order(timestamp_ns, start_ns, suffix, 0);
    law_key_order(timestamp_ns, end_ns, suffix, 0);
}

/// A read gives back what a write stored: an entry that was stored under the key of an
/// instant is read back exactly when the instant lies in the range.
pub proof fn law_stored_entry_is_read_back(
    entries: Seq<(Vec<u8>, Vec<u8>)>,
    entry: (Vec<u8>, Vec<u8>),
    timestamp_ns: i64,
    suffix: u64,
    start_ns: i64,
    end_ns: i64,
)
    requires
        entries.contains(entry),
        entry.0@ == key_bytes(timestamp_ns as int, suffix as nat),
    ensures
        entries.filter(entry_in_range(start_ns as int, end_ns as int)).contains(entry)
            <==> start_ns <= timestamp_ns < end_ns,
{
    let keep = entry_in_range(start_ns as int, end_ns as int);
    law_key_range_is_time_range(timestamp_ns, suffix, start_ns, end_ns);
    lemma_filtered(entries, keep, entry);
}

proof fn lemma_filtered(
    entries: Seq<(Vec<u8>, Vec<u8>)>,
    keep: spec_fn((Vec<u8>, Vec<u8>)) -> bool,
    entry: (Vec<u8>, Vec<u8>),
)
    ensures
        keep(entry) && entries.contains(entry) ==> entries.filter(keep).contains(entry),
        entries.filter(keep).contains(entry) ==> keep(entry),
    decreases entries.len(),
{
    reveal(Seq::filter);
    if entries.len() > 0 {
        let rest = entries.drop_last();
        lemma_filtered(rest, keep, entry);
        let kept = rest.filter(keep);
        let all = entries.filter(keep);
        if entries.contains(entry) && keep(entry) {
            let i = choose|i: int| 0 <= i < entries.len() && entries[i] == entry;
            if i < rest.len() {
                assert(rest[i] == entry);
                let j = choose|j: int| 0 <= j < kept.len() && kept[j] == entry;
                assert(all[j] == entry);
            } else {
                assert(all[kept.len() as int] == entry);
            }
        }
        if all.contains(entry) {
            let j = choose|j: int| 0 <= j < all.len() && all[j] == entry;
            if j < kept.len() {
                assert(kept[j] == entry);
            }
        }
    }
}

/// Different instants or suffixes give different keys.
pub proof fn law_keys_are_distinct(a: i64, b: i64, s: u64, t: u64)
    requires
        a != b || s != t,
    ensures
        key_bytes(a as int, s as nat) != key_bytes(b as int, t as nat),
{
    law_key_order(a, b, s, t);
    law_key_order(b, a, t, s);
    order::lemma_bytes_order_total();
}

/// A key is sixteen bytes: the time, shifted by two to the power 63, then the suffix.
pub proof fn law_key_layout(timestamp_ns: i64, suffix: u64)
    ensures
        key_bytes(timestamp_ns as int, suffix as nat).len() == 16,
        keycodec::be_value(key_bytes(timestamp_ns as int, suffix as nat).take(8)) == timestamp_ns
            + 0x8000_0000_0000_0000,
        keycodec::be_value(key_bytes(timestamp_ns as int, suffix as nat).skip(8)) == suffix,
{
    let x = (timestamp_ns + keycodec::BIAS) as nat;
    keycodec::lemma_u64_fits(x as u64);
    keycodec::lemma_u64_fits(suffix);
    keycodec::lemma_be_bytes_len(x, 8);
    keycodec::lemma_be_bytes_len(suffix as nat, 8);
    keycodec::law_be_round_trip(x, 8);
    keycodec::law_be_round_trip(suffix as nat, 8);
    let key = key_bytes(timestamp_ns as int, suffix as nat);
    assert(key.take(8) =~= keycodec::be_bytes(x, 8));
    assert(key.skip(8) =~= keycodec::be_bytes(suffix as nat, 8));
}

/// Records in order of time: none stands before an earlier one, none is lost or added, and
/// those of one instant stand as they were read.
pub proof fn law_chronological(
    out: Seq<(Vec<u8>, Record)>,
    records: Seq<(Vec<u8>, Record)>,
    instant: i64,
)
    requires
        sorting::is_stable_sort(out, records, time_rank()),
    ensures
        out.to_multiset() == records.to_multiset(),
        forall|i: int, j: int|
            0 <= i < j < out.len() ==> (#[trigger] out[i]).1.timestamp_ns <= (
            #[trigger] out[j]).1.timestamp_ns,
        out.filter(|e: (Vec<u8>, Record)| e.1.timestamp_ns == instant) == records.filter(
            |e: (Vec<u8>, Record)| e.1.timestamp_ns == instant,
        ),
{
    let rank = time_rank();
    sorting::law_sorting_only_reorders(out, records, rank, instant as int);
    assert forall|i: int, j: int| 0 <= i < j < out.len() implies (
    #[trigger] out[i]).1.timestamp_ns <= (#[trigger] out[j]).1.timestamp_ns by {
        assert(!(rank(out[j]) < rank(out[i])));
    }
    assert((|e: (Vec<u8>, Record)| rank(e) == instant as int) =~= (|e: (Vec<u8>, Record)|
        e.1.timestamp_ns == instant));
}

} // verus!
