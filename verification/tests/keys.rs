use std::collections::HashSet;

use pierre::keycodec::{
    decode_order_preserving_ns, from_be_bytes, order_preserving_ns, to_be_bytes,
};
use pierre::record::Record;
use pierre::storage::{chronological, encode_key, entries_in_range, fresh_key, in_range};
use pierre::strmap::FieldMap;

#[test]
fn order_holds_across_negative_and_positive_timestamps() {
    let min = order_preserving_ns(i64::MIN);
    let negative = order_preserving_ns(-1_000_000_000);
    let zero = order_preserving_ns(0);
    let positive = order_preserving_ns(1_000_000_000);
    let max = order_preserving_ns(i64::MAX);
    assert!(min < negative);
    assert!(negative < zero);
    assert!(zero < positive);
    assert!(positive < max);
}

#[test]
fn decode_undoes_encode() {
    for ts in [i64::MIN, -1_000_000_000, -1, 0, 1, 1_000_000_000, i64::MAX] {
        assert_eq!(decode_order_preserving_ns(order_preserving_ns(ts)), ts);
    }
}

#[test]
fn the_shift_is_exact() {
    assert_eq!(order_preserving_ns(i64::MIN), 0);
    assert_eq!(order_preserving_ns(0), 1u64 << 63);
    assert_eq!(order_preserving_ns(i64::MAX), u64::MAX);
}

#[test]
fn big_endian_bytes_are_those_of_the_standard_library() {
    for n in [0, 1, 255, 256, 0x0102_0304_0506_0708, u64::MAX] {
        assert_eq!(to_be_bytes(n), n.to_be_bytes().to_vec());
        assert_eq!(from_be_bytes(&n.to_be_bytes(), 8), n);
    }
    assert_eq!(from_be_bytes(&[1, 2, 3, 4, 5], 4), 0x0102_0304);
}

#[test]
fn key_order_matches_time_order() {
    let a = encode_key(100, 0);
    let b = encode_key(200, 0);
    assert!(a < b, "later timestamp must sort after earlier one");
}

#[test]
fn key_order_disambiguates_same_timestamp_by_seq() {
    let a = encode_key(100, 0);
    let b = encode_key(100, 1);
    assert!(a < b);
}

#[test]
fn key_order_holds_across_negative_and_positive_timestamps() {
    let min = encode_key(i64::MIN, 0);
    let negative = encode_key(-1_000_000_000, 0);
    let zero = encode_key(0, 0);
    let positive = encode_key(1_000_000_000, 0);
    let max = encode_key(i64::MAX, 0);
    assert!(min < negative);
    assert!(negative < zero);
    assert!(zero < positive);
    assert!(positive < max);
}

#[test]
fn random_suffixes_are_practically_always_distinct() {
    let suffixes: HashSet<u64> = (0..100_000).map(|_| rand::random::<u64>()).collect();
    assert_eq!(
        suffixes.len(),
        100_000,
        "100K random u64s should not collide with each other"
    );
}

#[test]
fn fresh_keys_lead_with_their_time_and_differ() {
    let keys: HashSet<Vec<u8>> = (0..1000).map(|_| fresh_key(42)).collect();
    assert_eq!(keys.len(), 1000);
    for key in &keys {
        assert_eq!(key.len(), 16);
        assert_eq!(key[0..8], order_preserving_ns(42).to_be_bytes());
        assert!(in_range(key, 42, 43));
        assert!(!in_range(key, 43, 50));
    }
}

#[test]
fn a_key_range_is_a_half_open_time_range() {
    let entries: Vec<(Vec<u8>, Vec<u8>)> = [-2i64, -1, 0, 1, 2]
        .iter()
        .map(|t| (encode_key(*t, 7), vec![*t as u8]))
        .collect();
    let kept = entries_in_range(entries, -1, 2);
    let values: Vec<u8> = kept.into_iter().map(|(_, v)| v[0]).collect();
    assert_eq!(values, vec![255, 0, 1]);
}

fn record(timestamp_ns: i64, message: &str) -> Record {
    Record {
        timestamp_ns,
        message: message.to_string(),
        fields: FieldMap::empty(),
        template_id: 0,
    }
}

#[test]
fn records_of_one_instant_keep_their_order() {
    let sorted = chronological(vec![
        (vec![1], record(5, "a")),
        (vec![2], record(3, "b")),
        (vec![3], record(5, "c")),
        (vec![4], record(3, "d")),
        (vec![5], record(-1, "e")),
    ]);
    let order: Vec<&str> = sorted.iter().map(|(_, r)| r.message.as_str()).collect();
    assert_eq!(order, vec!["e", "b", "d", "a", "c"]);
}
