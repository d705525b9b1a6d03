use std::time::Duration;

use pierre::listener::loki::{group_streams, parse_range_query};
use pierre::listener::query_api::{
    answer_aggregate, candidates, choose_ranking, first_hits, internal_error, no_rollup_data,
    parse_aggregate_query, parse_logs_query, parse_search_query, refuse_search, AggregateAnswer,
    Ranking,
};
use pierre::listener::{declares_json, declares_protobuf, parse_range};
use pierre::record::Record;
use pierre::rollup::sketch::{FieldSketch, RollupKind};
use pierre::strmap::FieldMap;
use pierre::textindex::{
    bucket_namespace, bucket_namespaces_for_range, plan_search, rank_hits, TextHit,
};

fn fields(pairs: &[(&str, &str)]) -> FieldMap {
    let mut m = FieldMap::empty();
    for (k, v) in pairs {
        m.put(k, v);
    }
    m
}

#[test]
fn same_bucket_for_timestamps_in_the_same_window() {
    let bucket_duration = Duration::from_secs(60);
    let ns1 = bucket_namespace(0, bucket_duration);
    let ns2 = bucket_namespace(59_999_999_999, bucket_duration);
    assert_eq!(ns1, ns2);
}

#[test]
fn different_bucket_across_a_window_boundary() {
    let bucket_duration = Duration::from_secs(60);
    let ns1 = bucket_namespace(59_999_999_999, bucket_duration);
    let ns2 = bucket_namespace(60_000_000_000, bucket_duration);
    assert_ne!(ns1, ns2);
}

#[test]
fn range_spanning_three_buckets_returns_three_namespaces() {
    let bucket_duration = Duration::from_secs(60);
    let namespaces = bucket_namespaces_for_range(0, 150_000_000_000, bucket_duration);
    assert_eq!(namespaces.len(), 3);
}

#[test]
fn windows_are_named_by_their_start() {
    let minute = Duration::from_secs(60);
    assert_eq!(bucket_namespace(0, minute), b"text_bucket_0");
    assert_eq!(bucket_namespace(61_000_000_000, minute), b"text_bucket_60000000000");
    assert_eq!(bucket_namespace(-1, minute), b"text_bucket_-60000000000");
    assert_eq!(bucket_namespace(-60_000_000_000, minute), b"text_bucket_-60000000000");
    assert_eq!(bucket_namespace(7, Duration::from_secs(0)), b"text_bucket_7");
    let names = bucket_namespaces_for_range(-1, 1, minute);
    assert_eq!(names, vec![bucket_namespace(-1, minute), bucket_namespace(0, minute)]);
    assert!(bucket_namespaces_for_range(60_000_000_000, 60_000_000_000, minute).is_empty());
    assert_eq!(bucket_namespaces_for_range(i64::MAX - 1, i64::MAX, minute).len(), 1);
}

#[test]
fn a_search_over_too_many_windows_is_refused() {
    let minute = Duration::from_secs(60);
    let ns = 60_000_000_000i64;
    assert_eq!(plan_search(0, 199 * ns, minute).unwrap().len(), 199);
    assert_eq!(
        plan_search(0, 200 * ns, minute).unwrap_err(),
        "search range spans ~201 buckets (limit 200) at 60s bucket duration — narrow the time range"
    );
    assert!(plan_search(0, i64::MAX, minute).is_err());
    assert!(plan_search(i64::MIN, i64::MAX, minute).is_err());
    assert_eq!(
        plan_search(i64::MIN, i64::MAX, Duration::from_secs(0)).unwrap_err(),
        "search range spans ~9223372036854775807 buckets (limit 200) at 0s bucket duration — narrow the time range"
    );
    assert!(plan_search(5, -5, minute).unwrap().is_empty());
}

#[test]
fn hits_are_ranked_by_score() {
    let hit = |id: u8, score: f32| TextHit {
        doc_id: vec![id],
        score_bits: score.to_bits(),
    };
    let ranked = rank_hits(
        vec![
            hit(1, 0.5),
            hit(2, 2.0),
            hit(3, -0.0),
            hit(4, 2.0),
            hit(5, -3.5),
            hit(6, 0.0),
            hit(7, f32::INFINITY),
        ],
        6,
    );
    let ids: Vec<u8> = ranked.iter().map(|h| h.doc_id[0]).collect();
    assert_eq!(ids, vec![7, 2, 4, 1, 3, 6]);
}

#[test]
fn ranges_are_read_from_parameters() {
    assert_eq!(parse_range(&fields(&[("start", "-5"), ("end", "7")])).unwrap(), (-5, 7));
    let e = |p: &[(&str, &str)]| {
        let r = parse_range(&fields(p)).unwrap_err();
        assert_eq!(r.status, 400);
        r.message
    };
    assert_eq!(e(&[("end", "7")]), "missing `start` param");
    assert_eq!(e(&[("start", "x"), ("end", "7")]), "invalid `start` param");
    assert_eq!(e(&[("start", "1")]), "missing `end` param");
    assert_eq!(e(&[("start", "1"), ("end", "")]), "invalid `end` param");
}

#[test]
fn every_other_parameter_is_a_filter() {
    let q = parse_logs_query(&fields(&[("start", "1"), ("end", "2"), ("level", "x")])).unwrap();
    assert_eq!((q.start_ns, q.end_ns), (1, 2));
    assert_eq!(q.filters, fields(&[("level", "x")]));
    assert!(parse_logs_query(&fields(&[])).is_err());
}

#[test]
fn searches_are_read_from_parameters() {
    let base = [("start", "1"), ("end", "2"), ("q", "text")];
    let q = parse_search_query(&fields(&base)).unwrap();
    assert_eq!((q.text.as_str(), q.k, q.hybrid), ("text", 10, false));
    let with = |k: &str, mode: &str| {
        let mut p = fields(&base);
        p.put("k", k);
        p.put("mode", mode);
        parse_search_query(&p)
    };
    let q = with("5000", "hybrid").unwrap();
    assert_eq!((q.k, q.hybrid), (1000, true));
    assert_eq!(candidates(q.k), 2000);
    assert_eq!(with("7", "text").unwrap().k, 7);
    assert_eq!(with("many", "text").unwrap_err().message, "invalid `k` param");
    assert_eq!(with("-1", "text").unwrap_err().status, 400);
    assert_eq!(
        parse_search_query(&fields(&base[0..2])).unwrap_err().message,
        "missing `q` param"
    );
    assert_eq!(choose_ranking(true, true, true), Ranking::Fused);
    assert_eq!(choose_ranking(true, true, false), Ranking::Text);
    assert_eq!(choose_ranking(true, false, true), Ranking::Text);
    assert_eq!(choose_ranking(false, true, true), Ranking::Text);
    assert_eq!(first_hits(vec![1, 2, 3], 2), vec![1, 2]);
    assert_eq!(first_hits(vec![1], 2), vec![1]);
}

#[test]
fn only_a_wide_range_is_the_clients_fault() {
    let r = refuse_search("too much — narrow the time range");
    assert_eq!((r.status, r.message.as_str()), (400, "too much — narrow the time range"));
    let wide = plan_search(0, i64::MAX, Duration::from_secs(60)).unwrap_err();
    let r = refuse_search(&wide);
    assert_eq!((r.status, r.message), (400, wide));
    let r = refuse_search("disk on fire");
    assert_eq!((r.status, r.message.as_str()), (500, "internal error"));
    assert_eq!(internal_error().status, 500);
    let r = no_rollup_data("a\"b");
    assert_eq!(
        (r.status, r.message.as_str()),
        (404, "no rollup data for field \"a\\\"b\" in range")
    );
    assert!(declares_json(Some("application/json; charset=utf-8")));
    assert!(!declares_json(Some("text/json")));
    assert!(!declares_json(None));
    assert!(declares_protobuf(Some("application/x-protobuf")));
    assert!(!declares_protobuf(None));
}

#[test]
fn aggregates_are_answered_by_operation() {
    let q = parse_aggregate_query(&fields(&[("start", "1"), ("end", "2"), ("field", "f")])).unwrap();
    assert_eq!((q.field.as_str(), q.op.as_str()), ("f", "count"));
    let missing = parse_aggregate_query(&fields(&[("start", "1"), ("end", "2")])).unwrap_err();
    assert_eq!(missing.message, "missing `field` param");

    let of = |kind: RollupKind| {
        let mut s = FieldSketch::new_for_kind(kind);
        for v in ["1", "2", "2"] {
            s.observe(v);
        }
        s
    };
    let none = fields(&[]);
    match answer_aggregate(&mut of(RollupKind::Exact), "count", &none).unwrap() {
        AggregateAnswer::Count(c) => assert_eq!(c.get("2"), Some(&2)),
        _ => panic!("expected counts"),
    }
    match answer_aggregate(&mut of(RollupKind::Hll), "cardinality", &none).unwrap() {
        AggregateAnswer::Cardinality(bits) => {
            assert!((1.5..2.5).contains(&f64::from_bits(bits)))
        }
        _ => panic!("expected an estimate"),
    }
    match answer_aggregate(&mut of(RollupKind::TopK), "topk", &fields(&[("k", "1")])).unwrap() {
        AggregateAnswer::TopK(top) => assert_eq!(top, vec![("2".to_string(), 2)]),
        _ => panic!("expected values"),
    }
    let half = fields(&[("q", "0.5")]);
    match answer_aggregate(&mut of(RollupKind::DDSketch), "quantile", &half).unwrap() {
        AggregateAnswer::Quantile(bits) => {
            assert!((1.9..2.1).contains(&f64::from_bits(bits)))
        }
        _ => panic!("expected a quantile"),
    }
    let outermost = |q: &str| {
        let mut s = FieldSketch::new_for_kind(RollupKind::DDSketch);
        s.observe("12.25");
        s.observe("-3");
        match answer_aggregate(&mut s, "quantile", &fields(&[("q", q)])).unwrap() {
            AggregateAnswer::Quantile(bits) => f64::from_bits(bits),
            _ => panic!("expected a quantile"),
        }
    };
    assert_eq!((outermost("0"), outermost("1")), (-3.0, 12.25));
}

#[test]
fn aggregates_are_refused_in_words() {
    let refuse = |kind: RollupKind, op: &str, p: &[(&str, &str)]| {
        let mut s = FieldSketch::new_for_kind(kind);
        match answer_aggregate(&mut s, op, &fields(p)) {
            Ok(_) => panic!("expected a refusal"),
            Err(e) => {
                assert_eq!(e.status, 400);
                e.message
            }
        }
    };
    let hll = RollupKind::Hll;
    assert_eq!(refuse(hll, "count", &[]), "field is not an exact-counter rollup");
    assert_eq!(refuse(RollupKind::Exact, "cardinality", &[]), "field is not an hll rollup");
    assert_eq!(refuse(hll, "topk", &[]), "field is not a topk rollup");
    assert_eq!(refuse(hll, "topk", &[("k", "x")]), "invalid `k` param");
    assert_eq!(refuse(hll, "quantile", &[]), "missing `q` param for quantile");
    assert_eq!(refuse(hll, "quantile", &[("q", "half")]), "invalid `q` param");
    assert_eq!(refuse(hll, "quantile", &[("q", "0.5")]), "field is not a ddsketch rollup");
    assert_eq!(refuse(hll, "median", &[]), "unknown op \"median\"");
}

fn line(timestamp_ns: i64, message: &str, pairs: &[(&str, &str)]) -> Record {
    Record {
        timestamp_ns,
        message: message.to_string(),
        fields: fields(pairs),
        template_id: 0,
    }
}

#[test]
fn lines_are_grouped_by_their_labels() {
    let records = || {
        vec![
            line(3, "c timeout", &[("app", "b")]),
            line(1, "a timeout", &[("app", "a"), ("level", "x")]),
            line(2, "b fine", &[("app", "b")]),
            line(-4, "d timeout", &[("app", "b")]),
            line(5, "e timeout", &[("app", "a")]),
        ]
    };
    let out = group_streams(records(), None);
    let labels: Vec<Vec<(&str, &str)>> = out
        .iter()
        .map(|s| (0..s.stream.count()).map(|i| s.stream.text_at(i)).collect())
        .collect();
    assert_eq!(
        labels,
        vec![
            vec![("app", "a")],
            vec![("app", "a"), ("level", "x")],
            vec![("app", "b")]
        ]
    );
    let values: Vec<(&str, &str)> = out[2]
        .values
        .iter()
        .map(|v| (v.0.as_str(), v.1.as_str()))
        .collect();
    assert_eq!(values, vec![("3", "c timeout"), ("2", "b fine"), ("-4", "d timeout")]);
    let filtered = group_streams(records(), Some("timeout"));
    assert_eq!(filtered.len(), 3);
    assert_eq!(filtered[2].values.len(), 2);
    assert!(group_streams(records(), Some("nothing")).is_empty());
}

#[test]
fn range_queries_are_read_from_parameters() {
    let q = parse_range_query(&fields(&[
        ("query", "{a=\"b\"} |= \"x\""),
        ("start", "1"),
        ("end", "2"),
    ]))
    .unwrap();
    assert_eq!((q.start_ns, q.end_ns), (1, 2));
    assert_eq!(q.query.line_filter, Some("x".to_string()));
    let e = |p: &[(&str, &str)]| match parse_range_query(&fields(p)) {
        Ok(_) => panic!("expected a refusal"),
        Err(e) => (e.status, e.message),
    };
    assert_eq!(e(&[]), (400, "missing `query` param".to_string()));
    assert_eq!(
        e(&[("query", "x")]),
        (400, "unterminated label selector — missing `}`".to_string())
    );
    assert_eq!(e(&[("query", "{}")]), (400, "missing `start` param".to_string()));
}
