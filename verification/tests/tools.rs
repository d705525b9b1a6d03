use pierre::backup::{
    backup_step, restore_archived, segments_to_archive, segments_to_prune, segments_to_prune_at,
    ArchivedSegmentRecord, BackupAction, BackupConfig, BackupEvent,
};
use pierre::config::{
    parse_command, rollup_kinds, Command, EmbeddingBackend, EmbeddingConfig, PierreConfig,
    RollupDef,
};
use pierre::mcp::{
    baseline_window, bound_message, context_end, context_lines, context_start, find_anomalies,
    paginate, summarize_field, tool_aggregate, with_labels, AnomalyKind, SearchCandidate,
    SearchLogsParams, ToolAnswer,
};
use pierre::record::Record;
use pierre::rollup::sketch::{FieldSketch, RollupKind};
use pierre::storage::encode_key;
use pierre::strmap::FieldMap;

fn fields(pairs: &[(&str, &str)]) -> FieldMap {
    let mut m = FieldMap::empty();
    for (k, v) in pairs {
        m.put(k, v);
    }
    m
}

fn line(timestamp_ns: i64, message: &str, template_id: u64) -> Record {
    Record {
        timestamp_ns,
        message: message.to_string(),
        fields: fields(&[("app", "a")]),
        template_id,
    }
}

#[test]
fn messages_are_cut_at_the_bound() {
    let fits = "é".repeat(240);
    assert_eq!(bound_message(&fits), (fits.clone(), false));
    let over = format!("{fits}x");
    assert_eq!(bound_message(&over), (format!("{fits}…"), true));
    assert_eq!(bound_message(""), (String::new(), false));
}

fn params(k: usize, cursor: Option<&str>) -> SearchLogsParams {
    SearchLogsParams {
        start_ns: 0,
        end_ns: 1,
        q: None,
        labels: FieldMap::empty(),
        k,
        cursor: cursor.map(str::to_string),
    }
}

#[test]
fn cursors_are_places() {
    assert_eq!(params(5, None).offset(), 0);
    assert_eq!(params(5, Some("12")).offset(), 12);
    assert_eq!(params(5, Some("twelve")).offset(), 0);
    assert_eq!(params(5, Some("12")).fetch(), 18);
    assert_eq!(params(5, Some("18446744073709551615")).fetch(), 5);
}

fn hits(n: i64) -> Vec<SearchCandidate> {
    (0..n)
        .map(|i| SearchCandidate {
            key: encode_key(i, 0),
            record: line(i, "m", 0),
            score_bits: None,
        })
        .collect()
}

#[test]
fn pages_follow_each_other_without_a_gap() {
    let mut cursor: Option<String> = None;
    let mut seen = Vec::new();
    loop {
        let p = params(3, cursor.as_deref());
        let page = paginate(hits(8), p.offset(), p.k, 8);
        assert_eq!(page.considered, 8);
        seen.extend(page.hits.iter().map(|h| h.timestamp_ns));
        match page.next_cursor {
            Some(c) => cursor = Some(c),
            None => break,
        }
    }
    assert_eq!(seen, (0..8).collect::<Vec<i64>>());
    let beyond = paginate(hits(2), 9, 3, 2);
    assert!(beyond.hits.is_empty());
    assert_eq!(beyond.next_cursor, None);
    let stuck = paginate(hits(2), 1, 0, 2);
    assert_eq!(stuck.next_cursor, Some("1".to_string()));
    let one = paginate(hits(2), 0, 1, 2);
    assert_eq!(one.hits[0].doc_id, "80000000000000000000000000000000");
    assert_eq!(one.hits[0].fields, fields(&[("app", "a")]));
}

#[test]
fn labels_narrow_a_search() {
    assert_eq!(with_labels(hits(3), &fields(&[("app", "a")])).len(), 3);
    assert_eq!(with_labels(hits(3), &fields(&[("app", "b")])).len(), 0);
}

#[test]
fn context_stays_within_its_stream() {
    let minute = 60_000_000_000i64;
    assert_eq!(context_start(25 * minute), 15 * minute);
    assert_eq!(context_start(5), 0);
    assert_eq!(context_start(i64::MIN), 0);
    assert_eq!(context_end(5 * minute), 15 * minute);
    assert_eq!(context_end(i64::MAX - 1), i64::MAX);

    let window = || {
        let mut w: Vec<(Vec<u8>, Record)> = (0..7)
            .rev()
            .map(|i| (vec![i as u8], line(i, "m", 0)))
            .collect();
        let mut other = line(3, "other", 0);
        other.fields = fields(&[("app", "b")]);
        w.push((vec![99], other));
        w
    };
    let app = fields(&[("app", "a")]);
    let times = |n: usize, key: u8| -> Vec<(i64, bool)> {
        context_lines(window(), &[key], &app, n)
            .iter()
            .map(|l| (l.timestamp_ns, l.is_anchor))
            .collect()
    };
    assert_eq!(times(1, 3), vec![(2, false), (3, true), (4, false)]);
    assert_eq!(times(2, 0), vec![(0, true), (1, false), (2, false)]);
    assert_eq!(times(1, 6), vec![(5, false), (6, true)]);
    assert_eq!(times(0, 42), vec![(0, false)]);
    assert_eq!(times(usize::MAX, 3).len(), 7);
    assert!(context_lines(vec![], &[1], &app, 3).is_empty());
}

#[test]
fn fields_are_summed_up() {
    let mut records = Vec::new();
    for i in 0..12 {
        let mut r = line(i, "m", 0);
        r.fields = fields(&[("id", &format!("{:02}", 11 - i % 11))]);
        records.push(r);
    }
    records.push(line(20, "m", 0));
    let s = summarize_field("id", None, &records);
    assert_eq!((s.field.as_str(), s.distinct_values), ("id", 11));
    assert_eq!(s.sample_values.len(), 10);
    assert_eq!((s.sample_values[0].as_str(), s.sample_values[9].as_str()), ("01", "10"));
    assert_eq!(s.cardinality_source(), "exact_in_window");
    let e = summarize_field("id", Some(7), &records);
    assert_eq!((e.distinct_values, e.sample_values.len()), (7, 0));
    assert_eq!(e.cardinality_source(), "hll_rollup_estimate");
    assert_eq!(summarize_field("none", None, &records).distinct_values, 0);
}

#[test]
fn the_aggregate_tool_answers_by_operation() {
    let mut exact = FieldSketch::new_for_kind(RollupKind::Exact);
    exact.observe("x");
    match tool_aggregate(&mut exact, "count", None, 1) {
        Ok(ToolAnswer::Count(Some(c))) => assert_eq!(c.get("x"), Some(&1)),
        _ => panic!("expected counts"),
    }
    assert!(matches!(
        tool_aggregate(&mut exact, "cardinality", None, 1),
        Ok(ToolAnswer::Cardinality(None))
    ));
    assert!(matches!(
        tool_aggregate(&mut exact, "topk", None, 1),
        Ok(ToolAnswer::TopK(None))
    ));
    assert!(matches!(
        tool_aggregate(&mut exact, "quantile", Some("0.5"), 1),
        Ok(ToolAnswer::Quantile(None))
    ));
    let mut latency = FieldSketch::new_for_kind(RollupKind::DDSketch);
    latency.observe("8.5");
    latency.observe("6");
    for (q, value) in [("0", 6.0), ("1", 8.5)] {
        match tool_aggregate(&mut latency, "quantile", Some(q), 1) {
            Ok(ToolAnswer::Quantile(Some(bits))) => assert_eq!(f64::from_bits(bits), value),
            _ => panic!("expected a quantile"),
        }
    }
    let refusal = |s: &mut FieldSketch, op: &str| match tool_aggregate(s, op, None, 1) {
        Err(e) => e,
        Ok(_) => panic!("expected a refusal"),
    };
    assert_eq!(refusal(&mut exact, "quantile"), "missing q for quantile");
    assert_eq!(refusal(&mut exact, "sum"), "unknown op \"sum\"");
}

#[test]
fn new_and_spiking_shapes_stand_out() {
    let times = |id: u64, n: usize, message: &str| -> Vec<Record> {
        (0..n).map(|i| line(i as i64, &format!("{message} {i}"), id)).collect()
    };
    let mut current = Vec::new();
    current.extend(times(9, 2, "new"));
    current.extend(times(1, 6, "spike"));
    current.extend(times(2, 5, "steady"));
    current.extend(times(3, 2, "also new"));
    let mut baseline = Vec::new();
    baseline.extend(times(1, 2, "spike"));
    baseline.extend(times(2, 2, "steady"));
    baseline.extend(times(8, 4, "gone"));
    let found = find_anomalies(&current, &baseline);
    let report: Vec<(u64, &str, usize, usize, &str)> = found
        .iter()
        .map(|a| {
            (
                a.template_id,
                a.example_message.as_str(),
                a.current_count,
                a.baseline_count,
                a.kind.name(),
            )
        })
        .collect();
    assert_eq!(
        report,
        vec![
            (1, "spike 0", 6, 2, "volume_spike"),
            (3, "also new 0", 2, 0, "new"),
            (9, "new 0", 2, 0, "new"),
        ]
    );
    assert_eq!(found[0].kind, AnomalyKind::VolumeSpike);
    assert!(find_anomalies(&vec![], &baseline).is_empty());
}

#[test]
fn the_baseline_lies_just_before() {
    assert_eq!(baseline_window(100, 150, None, None), (50, 100));
    assert_eq!(baseline_window(100, 150, Some(1), Some(2)), (1, 2));
    assert_eq!(baseline_window(i64::MIN, i64::MAX, None, None), (i64::MIN, i64::MIN));
    assert_eq!(baseline_window(0, -10, None, None), (10, 0));
}

#[test]
fn the_configuration_has_defaults() {
    let c = PierreConfig::default();
    assert_eq!(c.native_listen_addr, "127.0.0.1:4317");
    assert_eq!(c.mcp_listen_addr, "127.0.0.1:8000");
    assert_eq!(c.fields, vec!["level", "status", "trace_id", "latency_ms"]);
    assert_eq!(c.backup, BackupConfig::Local);
    assert_eq!(c.local_retention_secs, None);
    assert_eq!(c.embedding, EmbeddingConfig::default());
    assert!(!c.embedding.is_enabled());
    assert_eq!(EmbeddingBackend::default(), EmbeddingBackend::Disabled);
    assert_eq!(BackupConfig::default(), BackupConfig::Local);
    let kinds = rollup_kinds(&c.rollup).unwrap();
    assert_eq!(kinds.len(), 2);
    assert_eq!(kinds.get("status"), Some(&RollupKind::Exact));
    assert!(rollup_kinds(&vec![]).is_none());
    let twice = vec![
        RollupDef { field: "f".to_string(), kind: RollupKind::Exact },
        RollupDef { field: "f".to_string(), kind: RollupKind::Hll },
    ];
    assert_eq!(rollup_kinds(&twice).unwrap().get("f"), Some(&RollupKind::Hll));
}

#[test]
fn commands_are_read_from_arguments() {
    let args = |s: &[&str]| -> Vec<String> { s.iter().map(|a| a.to_string()).collect() };
    let serve = |s: &[&str]| match parse_command(&args(s)) {
        Command::Serve(path) => path,
        Command::Migrate(..) => panic!("expected to serve"),
    };
    assert_eq!(serve(&[]), "pierre.toml");
    assert_eq!(serve(&["my.toml", "ignored"]), "my.toml");
    match parse_command(&args(&["migrate", "m.toml", "--from", "x"])) {
        Command::Migrate(path, rest) => {
            assert_eq!(path, "m.toml");
            assert_eq!(rest, vec!["--from", "x"]);
        }
        Command::Serve(_) => panic!("expected to migrate"),
    }
    match parse_command(&args(&["migrate"])) {
        Command::Migrate(path, rest) => assert_eq!((path.as_str(), rest.len()), ("pierre.toml", 0)),
        Command::Serve(_) => panic!("expected to migrate"),
    }
}

#[test]
fn segments_are_archived_once() {
    let hashes = vec![vec![1; 32], vec![2; 31], vec![3; 32]];
    let mut archived = restore_archived(&vec![vec![3; 32], vec![9; 5]]);
    assert!(archived.contains(&[3; 32]));
    assert!(!archived.contains(&[9; 5]));
    assert_eq!(segments_to_archive(&hashes, &archived), vec![0]);
    archived.insert(vec![1; 32]);
    assert!(segments_to_archive(&hashes, &archived).is_empty());
}

#[test]
fn segments_are_pruned_after_their_grace() {
    let at = |id: u64, secs: i64| ArchivedSegmentRecord {
        segment_id: id,
        archived_at_unix_secs: secs,
    };
    let records = vec![at(1, 100), at(2, 200), at(3, -7), at(4, 150)];
    let second = 1_000_000_000u128;
    assert_eq!(segments_to_prune_at(&records, Some(210 * second), 60 * second), vec![1, 3, 4]);
    assert_eq!(segments_to_prune_at(&records, Some(150 * second), 0), vec![1, 3, 4]);
    assert!(segments_to_prune_at(&records, None, 0).is_empty());
    assert_eq!(records[1].elapsed(Some(150 * second)), None);
    assert_eq!(records[2].elapsed(Some(7)), Some(7));
    assert_eq!(records[2].elapsed(None), None);
    let old = ArchivedSegmentRecord::archived_at(5, Some(3 * second + 1));
    assert_eq!(old.archived_at_unix_secs, 3);
    assert_eq!(ArchivedSegmentRecord::archived_at(5, None).archived_at_unix_secs, 0);
    let fresh = ArchivedSegmentRecord::new(6);
    assert!(fresh.archived_at_unix_secs > 1_600_000_000);
    let hour = std::time::Duration::from_secs(3600);
    assert_eq!(segments_to_prune(&vec![old, fresh], hour), vec![5]);
}

#[test]
fn the_tiering_worker_reacts_to_its_events() {
    assert_eq!(backup_step(BackupEvent::FlushTick, false), BackupAction::Flush);
    assert_eq!(backup_step(BackupEvent::ArchiveTick, false), BackupAction::Archive);
    assert_eq!(backup_step(BackupEvent::Flushed, true), BackupAction::Archive);
    assert_eq!(backup_step(BackupEvent::PruneTick, true), BackupAction::Prune);
    assert_eq!(backup_step(BackupEvent::PruneTick, false), BackupAction::Nothing);
}
