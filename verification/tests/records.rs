use std::collections::hash_map::DefaultHasher;
use std::hash::{Hash, Hasher};
use std::time::{Duration, SystemTime};

use pierre::auth::AuthTokens;
use pierre::clock::{epoch_ns, now_ns, parse_instant};
use pierre::ingest::{count_dropped, rollup_samples, text_sample};
use pierre::record::{PendingRecord, Record, WireRecord};
use pierre::retention::{is_due, is_due_after};
use pierre::stats::{committed_since, metrics_text, IngestStats};
use pierre::strmap::FieldMap;
use pierre::template::{mask, template_id};

#[test]
fn same_shape_same_template() {
    let a = template_id("request 12345 took 42ms");
    let b = template_id("request 98765 took 17ms");
    assert_eq!(a, b, "same shape should share a template id");
}

#[test]
fn different_shape_different_template() {
    let a = template_id("request 12345 took 42ms");
    let b = template_id("user logged in");
    assert_ne!(a, b);
}

#[test]
fn masks_are_exact() {
    assert_eq!(mask("Request 12345  took\t42ms"), "request <NUM> took <NUM>");
    assert_eq!(mask("id DEADBEEF and deadbee1 abcdef"), "id <HEX> and <HEX> abcdef");
    assert_eq!(mask("  "), "");
    assert_eq!(mask("Ünicode ÄB"), "Ünicode Äb");
}

#[test]
fn template_ids_are_those_of_the_default_hasher() {
    let mut hasher = DefaultHasher::new();
    "user <NUM> logged in".hash(&mut hasher);
    assert_eq!(template_id("User 7 logged in"), hasher.finish());
}

#[test]
fn not_due_before_grace_period_elapses() {
    let event_time = SystemTime::now();
    assert!(!is_due(event_time, Duration::from_secs(3600)));
}

#[test]
fn due_once_grace_period_has_elapsed() {
    let event_time = SystemTime::now() - Duration::from_secs(10);
    assert!(is_due(event_time, Duration::from_secs(5)));
}

#[test]
fn future_event_time_is_not_due() {
    let event_time = SystemTime::now() + Duration::from_secs(3600);
    assert!(!is_due(event_time, Duration::from_secs(1)));
}

#[test]
fn due_times_are_exact() {
    assert!(is_due_after(Some(5), 5));
    assert!(!is_due_after(Some(4), 5));
    assert!(!is_due_after(None, 0));
    assert!(is_due_after(Some(6), 4));
}

fn fields(pairs: &[(&str, &str)]) -> FieldMap {
    let mut m = FieldMap::empty();
    for (k, v) in pairs {
        m.put(k, v);
    }
    m
}

#[test]
fn records_keep_allowed_fields_only() {
    let wire = WireRecord {
        timestamp_ns: 7,
        message: "took 5ms".to_string(),
        fields: fields(&[("level", "info"), ("secret", "x"), ("status", "200")]),
    };
    let allowed = vec!["status".to_string(), "level".to_string(), "other".to_string()];
    let r = Record::from_wire(wire, &allowed);
    assert_eq!(r.timestamp_ns, 7);
    assert_eq!(r.message, "took 5ms");
    assert_eq!(r.fields, fields(&[("level", "info"), ("status", "200")]));
    assert_eq!(r.template_id, template_id("took 9ms"));
    let again = Record::from_wire(
        WireRecord {
            timestamp_ns: 7,
            message: "took 5ms".to_string(),
            fields: r.fields.copy(),
        },
        &allowed,
    );
    assert_eq!(again, r);
}

#[test]
fn a_pending_record_takes_the_given_time_only_where_it_has_none() {
    let pending = |t| PendingRecord {
        timestamp_ns: t,
        message: String::new(),
        fields: FieldMap::empty(),
    };
    assert_eq!(pending(None).stamp(9).timestamp_ns, 9);
    assert_eq!(pending(Some(3)).stamp(9).timestamp_ns, 3);
}

#[test]
fn instants_are_nanoseconds_since_the_epoch() {
    assert_eq!(parse_instant("1970-01-01T00:00:01.5Z"), Some(1_500_000_000));
    assert_eq!(parse_instant("1970-01-01T01:00:00+01:00"), Some(0));
    assert_eq!(parse_instant("yesterday"), None);
    assert_eq!(epoch_ns(-5), -5);
    assert_eq!(epoch_ns(1i128 << 64), 0);
    let before = SystemTime::now().duration_since(SystemTime::UNIX_EPOCH).unwrap().as_nanos();
    let now = now_ns();
    assert!(now as u128 >= before && now as u128 - before < 60_000_000_000);
}

#[test]
fn tokens_decide_once_there_are_any() {
    let off = AuthTokens::new(vec![]);
    assert!(!off.is_enabled());
    assert!(off.check_header(None));
    assert!(off.check_header(Some("anything")));
    let on = AuthTokens::new(vec!["t1".to_string(), "t2".to_string()]);
    assert!(on.is_enabled());
    assert!(on.is_valid("t2"));
    assert!(on.check_header(Some("Bearer t1")));
    assert!(!on.check_header(Some("Bearer t3")));
    assert!(!on.check_header(Some("bearer t1")));
    assert!(!on.check_header(Some("Bearer  t1")));
    assert!(!on.check_header(Some("t1")));
    assert!(!on.check_header(None));
}

#[test]
fn commits_are_counted() {
    let mut stats = IngestStats::default();
    for _ in 0..3 {
        stats.record_commit();
    }
    assert_eq!(stats.committed_count(), 3);
    assert_eq!(committed_since(3, 1), 2);
    assert_eq!(committed_since(1, u64::MAX), 2);
    assert_eq!(count_dropped(4, true), 4);
    assert_eq!(count_dropped(4, false), 5);
}

#[test]
fn metrics_are_in_the_text_exposition_format() {
    assert_eq!(
        metrics_text(12, None, Some(3)),
        "# HELP pierre_ingest_records_total Total records committed via ingest.\n\
         # TYPE pierre_ingest_records_total counter\n\
         pierre_ingest_records_total 12\n\
         # HELP pierre_rollup_dropped_total Total rollup contributions dropped because the channel was full.\n\
         # TYPE pierre_rollup_dropped_total counter\n\
         pierre_rollup_dropped_total 0\n\
         # HELP pierre_textindex_dropped_total Total textindex contributions dropped because the channel was full.\n\
         # TYPE pierre_textindex_dropped_total counter\n\
         pierre_textindex_dropped_total 3\n"
    );
}

#[test]
fn a_stored_record_feeds_its_pipelines() {
    let r = Record {
        timestamp_ns: 5,
        message: "line".to_string(),
        fields: fields(&[("b", "2"), ("a", "1")]),
        template_id: 0,
    };
    let samples: Vec<(String, String)> = rollup_samples(&r)
        .into_iter()
        .map(|s| (s.field, s.value))
        .collect();
    assert_eq!(
        samples,
        vec![
            ("a".to_string(), "1".to_string()),
            ("b".to_string(), "2".to_string())
        ]
    );
    let t = text_sample(&r, vec![1, 2]);
    assert_eq!((t.key, t.text.as_str(), t.timestamp_ns), (vec![1, 2], "line", 5));
}
