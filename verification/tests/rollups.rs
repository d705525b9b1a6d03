use std::collections::hash_map::DefaultHasher;
use std::collections::HashMap;
use std::hash::BuildHasher;

use hyperloglogplus::HyperLogLogPlus;
use serde::{Deserialize, Deserializer, Serialize, Serializer};

use pierre::aggregate::{
    merge_bucket, merged_sketch, tier_for, wanted_buckets, wants_bucket, width_ns,
};
use pierre::rollup::codec::{frame, unframe, Decoded, SketchError};
use pierre::rollup::sketch::{
    FieldSketch, FixedHasherBuilder, Hll, MergeError, RollupKind, HLL_PRECISION,
};
use pierre::rollup::space_saving::SpaceSaving;
use pierre::rollup::worker::{
    absorb, bucket_in_window, bucket_keys, buckets_in_window, decode_rollup_key, merge_buckets, rollup_key,
    Action, Event, Tier, TierConfig, Worker,
};
use pierre::rollup::RollupSample;
use pierre::strmap::StrMap;

/// The fixed hasher under a name that can be stored.
struct StoredBuilder;

impl BuildHasher for StoredBuilder {
    type Hasher = DefaultHasher;
    fn build_hasher(&self) -> DefaultHasher {
        FixedHasherBuilder.build_hasher()
    }
}

impl Serialize for StoredBuilder {
    fn serialize<S: Serializer>(&self, s: S) -> Result<S::Ok, S::Error> {
        s.serialize_unit()
    }
}

impl<'de> Deserialize<'de> for StoredBuilder {
    fn deserialize<D: Deserializer<'de>>(d: D) -> Result<Self, D::Error> {
        <()>::deserialize(d).map(|_| StoredBuilder)
    }
}

fn store(sketch: &FieldSketch) -> Vec<u8> {
    match (sketch.to_bytes(), sketch) {
        (Some(bytes), _) => bytes,
        (None, FieldSketch::Hll(h)) => {
            let mut stored: HyperLogLogPlus<String, StoredBuilder> =
                HyperLogLogPlus::new(HLL_PRECISION, StoredBuilder).unwrap();
            stored.merge(h).unwrap();
            frame(RollupKind::Hll, serde_json::to_vec(&stored).unwrap())
        }
        _ => panic!("only a HyperLogLog++ sketch has no stored form"),
    }
}

fn load(bytes: &[u8]) -> FieldSketch {
    match FieldSketch::from_bytes(bytes) {
        Ok(Decoded::Sketch(s)) => s,
        Ok(Decoded::Hll(payload)) => {
            let stored: HyperLogLogPlus<String, StoredBuilder> =
                serde_json::from_slice(&payload).unwrap();
            let mut h: Hll = HyperLogLogPlus::new(HLL_PRECISION, FixedHasherBuilder).unwrap();
            h.merge(&stored).unwrap();
            FieldSketch::Hll(Box::new(h))
        }
        Err(e) => panic!("{}", e.message()),
    }
}

fn estimate_of(sketch: &mut FieldSketch) -> f64 {
    f64::from_bits(sketch.hll_estimate().unwrap())
}

fn quantile_of(sketch: &FieldSketch, q: &str) -> f64 {
    f64::from_bits(sketch.quantile(q).unwrap())
}

#[test]
fn hll_roundtrips_through_bytes() {
    let mut sketch = FieldSketch::new_for_kind(RollupKind::Hll);
    for i in 0..500 {
        sketch.observe(&format!("user-{i}"));
    }
    let bytes = store(&sketch);
    let mut decoded = load(&bytes);
    let estimate = estimate_of(&mut decoded);
    assert!(
        (450.0..550.0).contains(&estimate),
        "estimate {estimate} should be close to 500"
    );
}

#[test]
fn hll_merge_unions_distinct_counts() {
    let mut a = FieldSketch::new_for_kind(RollupKind::Hll);
    for i in 0..300 {
        a.observe(&format!("user-{i}"));
    }
    let mut b = FieldSketch::new_for_kind(RollupKind::Hll);
    for i in 200..500 {
        // overlaps a in [200,300)
        b.observe(&format!("user-{i}"));
    }
    a.merge_from(&b).unwrap();
    let estimate = estimate_of(&mut a);
    // union of [0,300) and [200,500) is [0,500) => ~500 distinct, not 300+300=600
    assert!(
        (450.0..550.0).contains(&estimate),
        "merged estimate {estimate} should reflect the union, not the sum"
    );
}

#[test]
fn topk_roundtrips_and_merges_through_bytes() {
    let mut a = FieldSketch::new_for_kind(RollupKind::TopK);
    for _ in 0..10 {
        a.observe("/api/orders");
    }
    a.observe("/api/rare");

    let bytes = store(&a);
    let mut decoded = load(&bytes);

    let mut b = FieldSketch::new_for_kind(RollupKind::TopK);
    for _ in 0..5 {
        b.observe("/api/orders");
    }
    decoded.merge_from(&b).unwrap();

    let top = decoded.top_k(1).unwrap();
    assert_eq!(top[0], ("/api/orders".to_string(), 15));
}

#[test]
fn ddsketch_estimates_quantile_within_relative_error() {
    let mut sketch = FieldSketch::new_for_kind(RollupKind::DDSketch);
    for i in 1..=1000 {
        sketch.observe(&i.to_string());
    }
    let p99 = quantile_of(&sketch, "0.99");
    // True p99 of 1..=1000 is 990; DDSketch guarantees relative error <= alpha (0.01).
    assert!(
        (980.0..1000.0).contains(&p99),
        "p99 estimate {p99} should be within ~1% of 990"
    );
}

#[test]
fn ddsketch_roundtrips_and_merges_through_bytes() {
    let mut a = FieldSketch::new_for_kind(RollupKind::DDSketch);
    for i in 1..=500 {
        a.observe(&i.to_string());
    }
    let bytes = store(&a);
    let mut decoded = load(&bytes);

    let mut b = FieldSketch::new_for_kind(RollupKind::DDSketch);
    for i in 501..=1000 {
        b.observe(&i.to_string());
    }
    decoded.merge_from(&b).unwrap();

    let p99 = quantile_of(&decoded, "0.99");
    assert!(
        (980.0..1000.0).contains(&p99),
        "merged p99 estimate {p99} should reflect the full 1..=1000 range"
    );
}

#[test]
fn ddsketch_drops_non_numeric_values_without_panicking() {
    let mut sketch = FieldSketch::new_for_kind(RollupKind::DDSketch);
    sketch.observe("not-a-number"); // must be silently dropped, not panic or get added
    sketch.observe("42");
    let median = quantile_of(&sketch, "0.5");
    assert!(
        (41.0..43.0).contains(&median),
        "only the numeric value should have been added; got median {median}"
    );
}

#[test]
fn exact_merge_sums_counts() {
    let mut a = FieldSketch::new_for_kind(RollupKind::Exact);
    a.observe("x");
    a.observe("x");
    let mut b = FieldSketch::new_for_kind(RollupKind::Exact);
    b.observe("x");
    b.observe("y");
    a.merge_from(&b).unwrap();
    match a {
        FieldSketch::Exact(counts) => {
            assert_eq!(counts.get("x"), Some(&3));
            assert_eq!(counts.get("y"), Some(&1));
        }
        _ => panic!("expected Exact"),
    }
}

#[test]
fn tracks_exact_counts_under_capacity() {
    let mut ss = SpaceSaving::new(10);
    for _ in 0..5 {
        ss.observe("a");
    }
    for _ in 0..3 {
        ss.observe("b");
    }
    ss.observe("c");

    let top = ss.top_k(10);
    assert_eq!(top[0], ("a".to_string(), 5));
    assert_eq!(top[1], ("b".to_string(), 3));
    assert_eq!(top[2], ("c".to_string(), 1));
}

#[test]
fn heavy_hitters_survive_eviction_pressure() {
    let mut ss = SpaceSaving::new(3);
    for _ in 0..100 {
        ss.observe("heavy");
    }
    // Flood with 50 distinct one-off values, capacity 3 — "heavy" must survive.
    for i in 0..50 {
        ss.observe(&format!("noise-{i}"));
    }
    let top = ss.top_k(1);
    assert_eq!(
        top[0].0, "heavy",
        "the true heavy hitter must not be evicted by one-off noise"
    );
}

#[test]
fn merge_sums_shared_keys_and_keeps_heaviest() {
    let mut a = SpaceSaving::new(5);
    for _ in 0..10 {
        a.observe("x");
    }
    a.observe("y");

    let mut b = SpaceSaving::new(5);
    for _ in 0..5 {
        b.observe("x");
    }
    for _ in 0..3 {
        b.observe("z");
    }

    a.merge_from(&b);
    let top = a.top_k(5);
    let as_map: HashMap<String, u64> = top.into_iter().collect();
    assert_eq!(
        as_map.get("x"),
        Some(&15),
        "shared key counts must sum across the merge"
    );
    assert_eq!(as_map.get("z"), Some(&3));
}

#[test]
fn a_new_value_takes_over_the_lightest_count() {
    let mut ss = SpaceSaving::new(2);
    for v in ["b", "b", "a", "c"] {
        ss.observe(v);
    }
    assert_eq!(ss.top_k(5), vec![("b".to_string(), 2), ("c".to_string(), 2)]);
    // Of two equally light values the least key leaves.
    ss.observe("a");
    assert_eq!(ss.top_k(5), vec![("a".to_string(), 3), ("c".to_string(), 2)]);
    let total: u64 = ss.top_k(5).iter().map(|e| e.1).sum();
    assert_eq!(total, 5);
    assert_eq!((ss.capacity(), ss.counts().len(), ss.has_room()), (2, 2, true));
    assert!(!SpaceSaving::new(0).has_room());
}

#[test]
fn counts_bound_how_often_values_came() {
    let stream = ["a", "b", "a", "c", "a", "d", "a", "b", "a", "e", "a"];
    let mut ss = SpaceSaving::new(3);
    for v in stream {
        ss.observe(v);
    }
    let top = ss.top_k(3);
    assert_eq!(top.len(), 3);
    let all: u64 = top.iter().map(|(_, n)| n).sum();
    assert_eq!(all, stream.len() as u64);
    let least = top[2].1;
    for (value, count) in &top {
        let came = stream.iter().filter(|v| **v == value.as_str()).count() as u64;
        assert!(came <= *count && *count <= came + least);
    }
    assert_eq!(top[0], ("a".to_string(), 6));
    assert_eq!(top[1], ("e".to_string(), 3));
    assert_eq!(top[2], ("d".to_string(), 2));
}

#[test]
fn a_merge_that_overflows_the_capacity_keeps_the_heaviest() {
    let mut a = SpaceSaving::new(2);
    let mut b = SpaceSaving::new(9);
    for v in ["a", "a", "a", "b"] {
        a.observe(v);
    }
    for v in ["c", "c", "d", "b"] {
        b.observe(v);
    }
    a.merge_from(&b);
    assert_eq!(a.top_k(9), vec![("a".to_string(), 3), ("b".to_string(), 2)]);
}

#[test]
fn a_precision_out_of_bounds_does_not_merge() {
    let mut a = FieldSketch::new_for_kind(RollupKind::Hll);
    let b = FieldSketch::Hll(Box::new(HyperLogLogPlus::new(10, FixedHasherBuilder).unwrap()));
    assert_eq!(a.merge_from(&b), Err(MergeError::HllPrecision));
    assert_eq!(
        MergeError::HllPrecision.message(),
        "HLL merge failed: IncompatiblePrecision"
    );
}

#[test]
fn sketches_of_other_kinds_or_configurations_do_not_merge() {
    let mut exact = FieldSketch::new_for_kind(RollupKind::Exact);
    exact.observe("x");
    let topk = FieldSketch::new_for_kind(RollupKind::TopK);
    assert_eq!(exact.merge_from(&topk), Err(MergeError::Kinds));
    assert_eq!(exact.exact_counts().unwrap().get("x"), Some(&1));
    assert_eq!(
        MergeError::Kinds.message(),
        "cannot merge mismatched rollup sketch kinds"
    );
    let mut dd = FieldSketch::new_for_kind(RollupKind::DDSketch);
    let other = FieldSketch::DDSketch(Box::new(sketches_ddsketch::DDSketch::new(
        sketches_ddsketch::Config::new(0.05, 2048, 1.0e-9),
    )));
    assert_eq!(dd.merge_from(&other), Err(MergeError::DDSketchConfig));
    assert_eq!(
        MergeError::DDSketchConfig.message(),
        "DDSketch merge failed: Can not merge sketches with different configs"
    );
    // What the error says is what the sketch crate says.
    let mut one = sketches_ddsketch::DDSketch::default();
    let two = sketches_ddsketch::DDSketch::new(sketches_ddsketch::Config::new(0.05, 2048, 1.0e-9));
    assert_eq!(
        format!("DDSketch merge failed: {}", one.merge(&two).unwrap_err()),
        MergeError::DDSketchConfig.message()
    );
}

#[test]
fn the_default_configuration_is_one_percent() {
    let mut sketch = FieldSketch::new_for_kind(RollupKind::DDSketch);
    let explicit = FieldSketch::DDSketch(Box::new(sketches_ddsketch::DDSketch::new(
        sketches_ddsketch::Config::new(0.01, 2048, 1.0e-9),
    )));
    assert_eq!(sketch.merge_from(&explicit), Ok(()));
}

#[test]
fn infinite_values_stay_out_of_a_ddsketch() {
    let mut sketch = FieldSketch::new_for_kind(RollupKind::DDSketch);
    assert!(sketch.try_observe("5"));
    for v in ["inf", "-infinity", "1e999", "-1e400"] {
        assert!(!sketch.try_observe(v), "{v}");
    }
    assert!(sketch.try_observe("nan"));
    assert!(sketch.try_observe("text"));
    assert!(sketch.try_observe("1e300"));
    assert_eq!(quantile_of(&sketch, "0"), 5.0);
    assert_eq!(quantile_of(&sketch, "1"), 1e300);
    let mut exact = FieldSketch::new_for_kind(RollupKind::Exact);
    assert!(exact.try_observe("inf"));
}

#[test]
fn only_the_right_kind_answers() {
    let mut exact = FieldSketch::new_for_kind(RollupKind::Exact);
    assert_eq!(exact.kind(), RollupKind::Exact);
    assert!(exact.hll_estimate().is_none());
    assert!(exact.top_k(3).is_none());
    assert!(exact.quantile("0.5").is_none());
    let topk = FieldSketch::new_for_kind(RollupKind::TopK);
    assert!(topk.exact_counts().is_none());
    let mut dd = FieldSketch::new_for_kind(RollupKind::DDSketch);
    assert!(dd.quantile("0.5").is_none(), "an empty sketch has no quantiles");
    dd.observe("1");
    assert!(dd.quantile("1.5").is_none());
    assert!(dd.quantile("-0.1").is_none());
    assert!(dd.quantile("1").is_some());
    assert!(dd.quantile("0").is_some());
}

#[test]
fn stored_sketches_carry_their_kind() {
    for (kind, tag) in [
        (RollupKind::Exact, 0),
        (RollupKind::Hll, 1),
        (RollupKind::TopK, 2),
        (RollupKind::DDSketch, 3),
    ] {
        let bytes = frame(kind, vec![9, 8]);
        assert_eq!(bytes, vec![tag, 9, 8]);
        assert_eq!(unframe(&bytes), Ok((kind, vec![9, 8])));
        assert_eq!(store(&FieldSketch::new_for_kind(kind))[0], tag);
    }
    let refused = |bytes: &[u8]| match FieldSketch::from_bytes(bytes) {
        Err(e) => e,
        Ok(_) => panic!("expected no sketch"),
    };
    assert_eq!(refused(&[]), SketchError::Empty);
    assert_eq!(refused(&[4, 1]), SketchError::UnknownTag(4));
    let why = serde_json::from_slice::<HashMap<String, u64>>(b"{\"a\":-1}").unwrap_err();
    assert_eq!(refused(b"\x00{\"a\":-1}"), SketchError::Payload(why.to_string()));
    assert_eq!(refused(b"\x00{\"a\":-1}").message(), why.to_string());
    assert!(matches!(refused(b"\x02{\"counts\":{}}"), SketchError::Payload(_)));
    assert!(matches!(refused(b"\x02[]"), SketchError::Payload(_)));
    assert_eq!(refused(b"\x02{\"capacity\":0,\"counts\":{}}"), SketchError::NoRoom);
    assert_eq!(SketchError::NoRoom.message(), "stored top-k sketch has no capacity");
    assert!(matches!(refused(b"\x03{}"), SketchError::Payload(_)));
    assert_eq!(SketchError::Empty.message(), "empty sketch payload");
    assert_eq!(SketchError::UnknownTag(200).message(), "unknown rollup sketch tag 200");
}

#[test]
fn what_is_stored_of_a_sketch_is_json() {
    let mut exact = FieldSketch::new_for_kind(RollupKind::Exact);
    let mut top = FieldSketch::new_for_kind(RollupKind::TopK);
    for v in ["b", "a\"", "b"] {
        exact.observe(v);
        top.observe(v);
    }
    assert_eq!(store(&exact), b"\x00{\"a\\\"\":1,\"b\":2}");
    assert_eq!(
        store(&top),
        b"\x02{\"capacity\":20,\"counts\":{\"a\\\"\":1,\"b\":2}}"
    );
    assert_eq!(load(&store(&exact)).exact_counts(), exact.exact_counts());
    assert_eq!(load(&store(&top)).top_k(5), top.top_k(5));
    let other_order = b"\x02{\"counts\":{\"x\":7},\"capacity\":3,\"more\":null}";
    assert_eq!(load(other_order).top_k(5), Some(vec![("x".to_string(), 7)]));
    assert!(FieldSketch::new_for_kind(RollupKind::Hll).to_bytes().is_none());
}

#[test]
fn a_stored_ddsketch_is_read_back_exactly() {
    let mut dd = FieldSketch::new_for_kind(RollupKind::DDSketch);
    for i in 1..400 {
        dd.observe(&format!("{}", f64::from(i) * 0.1 - 7.3));
    }
    let read = load(&store(&dd));
    for q in ["0", "0.01", "0.25", "0.5", "0.99", "1"] {
        assert_eq!(read.quantile(q), dd.quantile(q), "{q}");
    }
    assert_eq!(store(&read), store(&dd));
    let mut fresh = FieldSketch::new_for_kind(RollupKind::DDSketch);
    fresh.observe("1e6");
    assert_eq!(fresh.merge_from(&read), Ok(()), "the configuration is read back");
    assert_eq!(quantile_of(&fresh, "1"), 1e6);

    let empty = FieldSketch::new_for_kind(RollupKind::DDSketch);
    let bytes = store(&empty);
    assert!(
        matches!(FieldSketch::from_bytes(&bytes), Err(SketchError::Payload(_))),
        "JSON has no word for its infinite extremes"
    );
}

#[test]
fn a_full_ddsketch_takes_nothing_in() {
    let of = |v: &str| {
        let mut s = FieldSketch::new_for_kind(RollupKind::DDSketch);
        s.observe(v);
        s
    };
    let (mut a, mut b) = (of("1"), of("2"));
    let mut merges = 0;
    let full = loop {
        match a.merge_from(&b) {
            Ok(()) => merges += 1,
            Err(e) => break e,
        }
        match b.merge_from(&a) {
            Ok(()) => merges += 1,
            Err(e) => break e,
        }
    };
    assert_eq!(full, MergeError::DDSketchFull);
    assert_eq!(full.message(), "DDSketch merge failed: too many values to count");
    assert!((80..100).contains(&merges));
    assert_eq!((quantile_of(&a, "0"), quantile_of(&a, "1")), (1.0, 2.0));
    assert!(a.try_observe("3"));
}

#[test]
fn observing_before_or_after_a_merge_is_the_same() {
    let observe_all = |values: &[&str]| {
        let mut s = FieldSketch::new_for_kind(RollupKind::Exact);
        for v in values {
            s.observe(v);
        }
        s
    };
    let mut a = observe_all(&["x", "y", "x"]);
    a.merge_from(&observe_all(&["y", "z"])).unwrap();
    let b = observe_all(&["x", "y", "x", "y", "z"]);
    assert_eq!(a.exact_counts(), b.exact_counts());
}

#[test]
fn rollup_keys_read_back_and_sort_by_time() {
    for (t, field) in [(0, "level"), (-5, ""), (i64::MAX, "größe"), (i64::MIN, "x y")] {
        let key = rollup_key(t, field);
        assert_eq!(decode_rollup_key(&key), Some((t, field.to_string())));
    }
    assert!(rollup_key(-1, "z") < rollup_key(0, "a"));
    assert_eq!(decode_rollup_key(&[1, 2, 3]), None);
    assert_eq!(decode_rollup_key(&[0, 0, 0, 0, 0, 0, 0, 0, 0xff]), None);
}

#[test]
fn windows_of_buckets_are_half_open() {
    let key = rollup_key(100, "level");
    assert_eq!(bucket_in_window(&key, 100, 101), Some("level".to_string()));
    assert_eq!(bucket_in_window(&key, 50, 100), None);
    assert_eq!(bucket_in_window(&key, 101, 200), None);
    assert_eq!(bucket_in_window(&[1], 0, 10), None);
}

#[test]
fn every_bucket_that_overlaps_a_range_is_read() {
    let key = rollup_key(100, "level");
    let wants = |start: i64, end: i64| wants_bucket(&key, "level", 60, start, end);
    assert!(wants(100, 101));
    assert!(wants(159, 200), "it began before the range and reaches into it");
    assert!(wants(0, 1000));
    assert!(wants(120, 130));
    assert!(!wants(160, 200));
    assert!(!wants(0, 100));
    assert!(!wants(120, 120), "an empty range overlaps nothing");
    assert!(!wants_bucket(&key, "status", 60, 100, 101));
    assert!(!wants_bucket(&[1], "level", 60, 0, 1000));
    let last = rollup_key(i64::MAX, "level");
    assert!(!wants_bucket(&last, "level", 60, 0, i64::MAX));
    assert!(wants_bucket(&rollup_key(i64::MAX - 1, "level"), "level", 60, 0, i64::MAX));

    let tiers = TierConfig::production_defaults();
    let nanos = |d: std::time::Duration| d.as_nanos() as i64;
    assert_eq!(width_ns(Tier::Minute), nanos(tiers.minute_duration));
    assert_eq!(width_ns(Tier::Hour), nanos(tiers.hour_duration));
    assert_eq!(width_ns(Tier::Day), nanos(tiers.day_duration));
    assert_eq!(width_ns(Tier::Month), nanos(tiers.month_duration));
}

#[test]
fn coarser_buckets_sum_finer_ones() {
    let one = |v: &str| {
        let mut s = FieldSketch::new_for_kind(RollupKind::Exact);
        s.observe(v);
        s
    };
    let mut merged: StrMap<FieldSketch> = StrMap::new();
    assert_eq!(absorb(&mut merged, "level".to_string(), one("error")), Ok(()));
    assert_eq!(absorb(&mut merged, "level".to_string(), one("error")), Ok(()));
    assert_eq!(absorb(&mut merged, "status".to_string(), one("200")), Ok(()));
    let hll = FieldSketch::new_for_kind(RollupKind::Hll);
    assert_eq!(absorb(&mut merged, "level".to_string(), hll), Err(MergeError::Kinds));
    let level = merged.get("level").unwrap().exact_counts().unwrap();
    assert_eq!(level.get("error"), Some(&2));
    assert_eq!(merged.len(), 2);
}

#[test]
fn one_tier_answers_a_query() {
    let hour = 3_600_000_000_000i64;
    assert_eq!(tier_for(0, hour), Tier::Minute);
    assert_eq!(tier_for(0, hour + 1), Tier::Hour);
    assert_eq!(tier_for(0, 24 * hour), Tier::Hour);
    assert_eq!(tier_for(0, 24 * hour + 1), Tier::Day);
    assert_eq!(tier_for(0, 31 * 24 * hour), Tier::Day);
    assert_eq!(tier_for(0, 31 * 24 * hour + 1), Tier::Month);
    assert_eq!(tier_for(5, 0), Tier::Minute);
    assert_eq!(tier_for(i64::MIN, i64::MAX), Tier::Month);
    assert_eq!(Tier::Minute.namespace(), "rollup_minute");
    assert_eq!(Tier::Hour.namespace(), "rollup_hour");
    assert_eq!(Tier::Day.namespace(), "rollup_day");
    assert_eq!(Tier::Month.namespace(), "rollup_month");
    let mut merged = None;
    let mut s = FieldSketch::new_for_kind(RollupKind::Exact);
    s.observe("a");
    assert_eq!(merge_bucket(&mut merged, s), Ok(()));
    let t = FieldSketch::new_for_kind(RollupKind::TopK);
    assert_eq!(merge_bucket(&mut merged, t), Err(MergeError::Kinds));
    assert_eq!(merged.unwrap().exact_counts().unwrap().get("a"), Some(&1));
}

fn sample(field: &str, value: &str) -> Event {
    Event::Sample(RollupSample {
        field: field.to_string(),
        value: value.to_string(),
    })
}

#[test]
fn the_worker_closes_its_tiers() {
    let tiers = TierConfig::production_defaults();
    assert_eq!(tiers.minute_duration.as_secs(), 60);
    assert_eq!(tiers.month_duration.as_secs(), 2_592_000);
    assert_eq!(tiers.hour_ttl_secs, 604_800);
    let mut kinds = StrMap::new();
    kinds.insert("level".to_string(), RollupKind::Exact);
    kinds.insert("latency".to_string(), RollupKind::DDSketch);
    let mut w = Worker::start(kinds, tiers, 1000);
    assert!(matches!(w.step(Event::MinuteTick), Action::Nothing));
    assert!(matches!(w.step(sample("level", "error")), Action::Nothing));
    assert!(matches!(w.step(sample("other", "x")), Action::Nothing));
    match w.step(sample("latency", "inf")) {
        Action::Drop(s) => assert_eq!((s.field.as_str(), s.value.as_str()), ("latency", "inf")),
        _ => panic!("expected the value to be dropped"),
    }
    assert!(matches!(w.step(sample("latency", "fast")), Action::Drop(_)));
    match w.step(Event::MinuteTick) {
        Action::Persist { bucket, start_ns, ttl_secs } => {
            assert_eq!((bucket.len(), start_ns, ttl_secs), (2, 1000, 3600));
            let level = bucket.get("level").unwrap().exact_counts().unwrap();
            assert_eq!(level.get("error"), Some(&1));
            assert!(bucket.get("latency").unwrap().quantile("0.5").is_none());
        }
        _ => panic!("expected a bucket to store"),
    }
    w.open_minute(2000);
    w.step(sample("level", "info"));
    match w.step(Event::MinuteTick) {
        Action::Persist { start_ns, .. } => assert_eq!(start_ns, 2000),
        _ => panic!("expected a bucket to store"),
    }
    let mut merge = |event: Event, from: Tier, to: Tier, start: i64, end: i64, ttl: u32| match w
        .step(event)
    {
        Action::MergeUp { from: f, to: t, start_ns, end_ns, ttl_secs } => {
            assert_eq!((f, t, start_ns, end_ns, ttl_secs), (from, to, start, end, ttl));
        }
        _ => panic!("expected a merge"),
    };
    merge(Event::HourTick(5000), Tier::Minute, Tier::Hour, 1000, 5000, 604_800);
    merge(Event::HourTick(9000), Tier::Minute, Tier::Hour, 5000, 9000, 604_800);
    merge(Event::DayTick(9100), Tier::Hour, Tier::Day, 1000, 9100, 7_776_000);
    merge(Event::MonthTick(9200), Tier::Day, Tier::Month, 1000, 9200, 315_360_000);
    assert!(matches!(w.step(Event::Closed), Action::Stop));
}

#[test]
fn a_minute_stores_the_samples_of_its_window() {
    let mut kinds = StrMap::new();
    kinds.insert("level".to_string(), RollupKind::Exact);
    kinds.insert("latency".to_string(), RollupKind::DDSketch);
    kinds.insert("host".to_string(), RollupKind::TopK);
    let mut w = Worker::start(kinds, TierConfig::production_defaults(), 1000);
    let window = [
        ("level", "error"),
        ("latency", "7"),
        ("user", "u1"),
        ("level", "info"),
        ("latency", "-2.5"),
        ("level", "error"),
        ("latency", "4"),
    ];
    for (field, value) in window {
        assert!(matches!(w.step(sample(field, value)), Action::Nothing));
    }
    w.step(Event::HourTick(1500));
    let bucket = match w.step(Event::MinuteTick) {
        Action::Persist { bucket, start_ns, ttl_secs } => {
            assert_eq!((start_ns, ttl_secs), (1000, 3600));
            bucket
        }
        _ => panic!("expected a bucket to store"),
    };
    assert_eq!(
        bucket_keys(&bucket, 1000),
        vec![rollup_key(1000, "latency"), rollup_key(1000, "level")]
    );
    let level = bucket.get("level").unwrap().exact_counts().unwrap();
    assert_eq!((level.get("error"), level.get("info")), (Some(&2), Some(&1)));
    let latency = bucket.get("latency").unwrap();
    assert_eq!(quantile_of(latency, "0"), -2.5);
    assert_eq!(quantile_of(latency, "1"), 7.0);
    assert!(matches!(w.step(Event::MinuteTick), Action::Nothing));
}

#[test]
fn the_outermost_quantiles_are_the_least_and_the_greatest_value() {
    let of = |values: &[&str]| {
        let mut s = FieldSketch::new_for_kind(RollupKind::DDSketch);
        for v in values {
            assert!(s.can_use(v));
            s.observe(v);
        }
        s
    };
    let mut a = of(&["3", "-1e-3", "nan", "2.5"]);
    for (least, greatest) in [("0", "1"), ("0.0", "1.0"), ("-0", "1e0")] {
        assert_eq!(quantile_of(&a, least), -1e-3);
        assert_eq!(quantile_of(&a, greatest), 3.0);
    }
    a.merge_from(&of(&["-7", "1"])).unwrap();
    assert_eq!((quantile_of(&a, "0"), quantile_of(&a, "1")), (-7.0, 3.0));
    a.merge_from(&of(&[])).unwrap();
    assert_eq!((quantile_of(&a, "0"), quantile_of(&a, "1")), (-7.0, 3.0));
    let mut fresh = of(&[]);
    fresh.merge_from(&a).unwrap();
    assert_eq!((quantile_of(&fresh, "0"), quantile_of(&fresh, "1")), (-7.0, 3.0));
    for v in ["fast", "inf", "-1e999"] {
        assert!(!a.can_use(v));
    }
    assert!(FieldSketch::new_for_kind(RollupKind::Exact).can_use("inf"));
}

fn exact(values: &[&str]) -> FieldSketch {
    let mut s = FieldSketch::new_for_kind(RollupKind::Exact);
    for v in values {
        s.observe(v);
    }
    s
}

#[test]
fn buckets_fold_into_coarser_ones_field_by_field() {
    let entry = |start: i64, field: &str, byte: u8| (rollup_key(start, field), vec![byte]);
    let all = || {
        vec![
            entry(9, "level", 1),
            entry(10, "level", 2),
            entry(10, "status", 3),
            (vec![1, 2], vec![4]),
            entry(19, "level", 5),
            entry(20, "level", 6),
        ]
    };
    let window = buckets_in_window(all(), 10, 20);
    let names: Vec<(&str, u8)> = window.iter().map(|e| (e.0.as_str(), e.1[0])).collect();
    assert_eq!(names, vec![("level", 2), ("status", 3), ("level", 5)]);
    let wanted = wanted_buckets(all(), "level", 1, 10, 20);
    let bytes: Vec<u8> = wanted.iter().map(|e| e.1[0]).collect();
    assert_eq!(bytes, vec![2, 5]);

    let merged = merge_buckets(vec![
        ("level".to_string(), exact(&["a", "b"])),
        ("status".to_string(), exact(&["200"])),
        ("level".to_string(), exact(&["a"])),
    ]);
    let merged = match merged {
        Ok(m) => m,
        Err(e) => panic!("{}", e.message()),
    };
    assert_eq!(merged.len(), 2);
    let level = merged.get("level").unwrap().exact_counts().unwrap();
    assert_eq!((level.get("a"), level.get("b")), (Some(&2), Some(&1)));
    let mixed = merge_buckets(vec![
        ("level".to_string(), exact(&["a"])),
        ("level".to_string(), FieldSketch::new_for_kind(RollupKind::Hll)),
    ]);
    assert!(matches!(mixed, Err(MergeError::Kinds)));
}

#[test]
fn an_answer_folds_all_buckets_of_its_field() {
    assert!(matches!(merged_sketch(vec![]), Ok(None)));
    match merged_sketch(vec![exact(&["a"]), exact(&["b"]), exact(&["a"])]) {
        Ok(Some(s)) => {
            let counts = s.exact_counts().unwrap();
            assert_eq!((counts.get("a"), counts.get("b")), (Some(&2), Some(&1)));
        }
        _ => panic!("expected a sketch"),
    }
    let mixed = merged_sketch(vec![
        exact(&["a"]),
        FieldSketch::new_for_kind(RollupKind::TopK),
        exact(&["a"]),
    ]);
    assert!(matches!(mixed, Err(MergeError::Kinds)));
}

#[test]
fn new_sketches_of_one_kind_merge() {
    for kind in [RollupKind::Exact, RollupKind::Hll, RollupKind::TopK, RollupKind::DDSketch] {
        let mut a = FieldSketch::new_for_kind(kind);
        let mut b = FieldSketch::new_for_kind(kind);
        a.observe("3");
        b.observe("4");
        assert_eq!(a.merge_from(&b), Ok(()));
    }
}
