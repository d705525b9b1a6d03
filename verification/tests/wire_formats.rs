use prost::encoding::{encode_key, encode_varint, skip_field, string, DecodeContext, WireType};

use pierre::clock::now_ns;
use pierre::json::{JsonShape, JsonValue};
use pierre::listener::es_bulk::{
    plan_body, plan_bulk, record_from_parts, step_status, wire_record_from_doc, BulkStep,
};
use pierre::listener::loki::{records_of_push, streams_from_json, JsonStream};
use pierre::listener::native::{acknowledge, admits, read_length, Frame, MAX_FRAME_BYTES};
use pierre::lokiproto::{decode_push_request, timestamp_ns, LokiError, MAX_DECOMPRESSED_BYTES};
use pierre::migrate::{
    check_index, doc_to_wire, migrated_record, millis_to_nanos, next_scroll, parse_options, read_page, reports_progress,
    ScrollAction, ScrollPage, UnmappedStrategy,
};
use pierre::otlpproto::{
    decode_export_request, AnyValue, ExportLogsServiceRequest, KeyValue, LogRecord, ResourceLogs,
    ScopeLogs,
};
use pierre::proto::{read_key, read_varint};
use pierre::strmap::FieldMap;
use pierre::template::template_id;

fn fields(pairs: &[(&str, &str)]) -> FieldMap {
    let mut m = FieldMap::empty();
    for (k, v) in pairs {
        m.put(k, v);
    }
    m
}

fn kv(key: &str, value: AnyValue) -> KeyValue {
    KeyValue {
        key: key.to_string(),
        value: Some(value),
    }
}

fn log(time: u64, observed: u64, body: &str) -> LogRecord {
    LogRecord {
        time_unix_nano: time,
        observed_time_unix_nano: observed,
        severity_number: 0,
        severity_text: String::new(),
        body: Some(AnyValue::Text(body.to_string())),
        attributes: vec![],
        trace_id: vec![],
        span_id: vec![],
    }
}

fn request(resource: Option<Vec<KeyValue>>, logs: Vec<LogRecord>) -> ExportLogsServiceRequest {
    ExportLogsServiceRequest {
        resource_logs: vec![ResourceLogs {
            resource,
            scope_logs: vec![ScopeLogs { log_records: logs }],
        }],
    }
}

#[test]
fn resource_and_log_attributes_merge_into_fields() {
    let mut l = log(1_700_000_000_000_000_000, 0, "payment declined");
    l.severity_number = 17; // SEVERITY_NUMBER_ERROR
    l.severity_text = "ERROR".to_string();
    l.attributes = vec![kv("order.id", AnyValue::Text("abc123".to_string()))];
    l.trace_id = vec![0xde, 0xad, 0xbe, 0xef];
    let records = decode_export_request(&request(
        Some(vec![kv("service.name", AnyValue::Text("checkout".to_string()))]),
        vec![l],
    ));
    assert_eq!(records.len(), 1);
    let record = &records[0];

    assert_eq!(record.timestamp_ns, 1_700_000_000_000_000_000);
    assert_eq!(record.message, "payment declined");
    assert_eq!(
        record.fields.get("service.name").map(String::as_str),
        Some("checkout"),
        "resource attributes must merge into the record's fields"
    );
    assert_eq!(
        record.fields.get("order.id").map(String::as_str),
        Some("abc123")
    );
    assert_eq!(
        record.fields.get("level").map(String::as_str),
        Some("error")
    );
    assert_eq!(
        record.fields.get("trace_id").map(String::as_str),
        Some("deadbeef")
    );
    assert!(
        !record.fields.contains_key("span_id"),
        "empty span_id must not become a field"
    );
}

#[test]
fn falls_back_to_observed_time_when_event_time_is_absent() {
    let records = decode_export_request(&request(
        None,
        vec![log(0, 1_650_000_000_000_000_000, "no event time")],
    ));
    assert_eq!(records[0].timestamp_ns, 1_650_000_000_000_000_000);
    assert!(
        !records[0].fields.contains_key("severity_number"),
        "severity_number of 0 (unspecified) must not become a field"
    );
}

#[test]
fn out_of_i64_range_time_unix_nano_falls_through_to_observed_time() {
    let records = decode_export_request(&request(
        None,
        vec![log(u64::MAX, 1_650_000_000_000_000_000, "out of range")],
    ));
    assert_eq!(records[0].timestamp_ns, 1_650_000_000_000_000_000);
}

#[test]
fn out_of_i64_range_on_both_timestamp_fields_falls_through_to_now() {
    let before = now_ns();
    let records = decode_export_request(&request(
        None,
        vec![log(u64::MAX, u64::MAX, "both out of range")],
    ));
    let after = now_ns();
    assert!(
        records[0].timestamp_ns >= before && records[0].timestamp_ns <= after,
        "must fall back to wall-clock now, got {}",
        records[0].timestamp_ns
    );
}

#[test]
fn every_kind_of_value_is_shown() {
    let mut l = log(1, 0, "x");
    l.severity_number = -3;
    l.severity_text = "ÄRGER".to_string();
    l.span_id = vec![1];
    l.body = None;
    l.attributes = vec![
        kv("b", AnyValue::Bool(true)),
        kv("f", AnyValue::Bool(false)),
        kv("i", AnyValue::Int(-7)),
        kv("y", AnyValue::Bytes(vec![0x0a, 0xff])),
        kv("s", AnyValue::Shown("1.5".to_string())),
        kv("n", AnyValue::Absent),
        KeyValue { key: "none".to_string(), value: None },
        kv("i", AnyValue::Int(8)),
        kv("own", AnyValue::Text("record".to_string())),
    ];
    let mut second = request(
        Some(vec![kv("own", AnyValue::Text("resource".to_string()))]),
        vec![l, log(2, 0, "second")],
    );
    second.resource_logs.push(ResourceLogs {
        resource: None,
        scope_logs: vec![
            ScopeLogs { log_records: vec![] },
            ScopeLogs { log_records: vec![log(3, 0, "third")] },
        ],
    });
    let records = decode_export_request(&second);
    let times: Vec<i64> = records.iter().map(|r| r.timestamp_ns).collect();
    assert_eq!(times, vec![1, 2, 3]);
    assert_eq!(records[0].message, "");
    assert_eq!(
        records[0].fields,
        fields(&[
            ("b", "true"),
            ("f", "false"),
            ("i", "8"),
            ("y", "0aff"),
            ("s", "1.5"),
            ("n", ""),
            ("own", "record"),
            ("severity_number", "-3"),
            ("level", "ärger"),
            ("span_id", "01"),
        ])
    );
    assert_eq!(records[1].fields, fields(&[("own", "resource")]));
    assert_eq!(records[2].fields.count(), 0);
}

fn put_chunk(out: &mut Vec<u8>, tag: u32, chunk: &[u8]) {
    encode_key(tag, WireType::LengthDelimited, out);
    encode_varint(chunk.len() as u64, out);
    out.extend_from_slice(chunk);
}

fn put_number(out: &mut Vec<u8>, tag: u32, n: u64) {
    encode_key(tag, WireType::Varint, out);
    encode_varint(n, out);
}

fn entry(seconds: i64, nanos: i32, line: &str) -> Vec<u8> {
    let mut time = Vec::new();
    put_number(&mut time, 1, seconds as u64);
    put_number(&mut time, 2, nanos as i64 as u64);
    let mut e = Vec::new();
    put_chunk(&mut e, 1, &time);
    string::encode(2, &line.to_string(), &mut e);
    e
}

fn stream(labels: &str, entries: &[Vec<u8>]) -> Vec<u8> {
    let mut s = Vec::new();
    string::encode(1, &labels.to_string(), &mut s);
    for e in entries {
        put_chunk(&mut s, 2, e);
    }
    s
}

fn compress(bytes: &[u8]) -> Vec<u8> {
    snap::raw::Encoder::new().compress_vec(bytes).unwrap()
}

#[test]
fn a_push_decodes_into_its_streams() {
    let mut push = Vec::new();
    put_chunk(
        &mut push,
        1,
        &stream(
            "{app=\"a\", level=\"info\"}",
            &[entry(1, 500, "first"), entry(-2, -1, "second")],
        ),
    );
    // Fields that nobody knows are passed over.
    put_number(&mut push, 9, 77);
    encode_key(10, WireType::StartGroup, &mut push);
    put_chunk(&mut push, 3, b"inside");
    encode_key(10, WireType::EndGroup, &mut push);
    let mut bare = stream("{}", &[]);
    put_chunk(&mut bare, 2, b"");
    put_number(&mut bare, 3, 5);
    put_chunk(&mut push, 1, &bare);
    let streams = decode_push_request(&compress(&push)).unwrap();
    assert_eq!(streams.len(), 2);
    assert_eq!(streams[0].labels, fields(&[("app", "a"), ("level", "info")]));
    assert_eq!(
        streams[0].entries,
        vec![
            (1_000_000_500, "first".to_string()),
            (-2_000_000_001, "second".to_string())
        ]
    );
    assert_eq!(streams[1].entries, vec![(0, String::new())]);
    let records = records_of_push(&streams);
    assert_eq!(records.len(), 3);
    assert_eq!(records[1].message, "second");
    assert_eq!(records[1].fields, fields(&[("app", "a"), ("level", "info")]));
    assert_eq!(records[2].fields.count(), 0);
}

#[test]
fn groups_may_be_nested_only_so_deep() {
    let groups = |depth: usize| {
        let mut bytes = Vec::new();
        for _ in 0..depth {
            encode_key(9, WireType::StartGroup, &mut bytes);
        }
        for _ in 0..depth {
            encode_key(9, WireType::EndGroup, &mut bytes);
        }
        bytes
    };
    let skips = |bytes: &[u8]| {
        skip_field(WireType::StartGroup, 9, &mut &bytes[1..], DecodeContext::default()).is_ok()
    };
    assert!(skips(&groups(100)) && !skips(&groups(101)));
    let accepts = |push: &[u8]| decode_push_request(&compress(push)).is_ok();
    assert!(accepts(&groups(100)));
    assert!(!accepts(&groups(101)));
    let in_stream = |depth: usize| {
        let mut s = stream("{}", &[]);
        s.extend(groups(depth));
        let mut push = Vec::new();
        put_chunk(&mut push, 1, &s);
        push
    };
    assert!(accepts(&in_stream(99)));
    assert!(!accepts(&in_stream(100)));
    let mut mixed = Vec::new();
    encode_key(9, WireType::StartGroup, &mut mixed);
    put_number(&mut mixed, 1, 300);
    encode_key(2, WireType::ThirtyTwoBit, &mut mixed);
    mixed.extend([1, 2, 3, 4]);
    encode_key(3, WireType::SixtyFourBit, &mut mixed);
    mixed.extend([0; 8]);
    put_chunk(&mut mixed, 4, b"text");
    let mut open = mixed.clone();
    encode_key(8, WireType::EndGroup, &mut open);
    encode_key(9, WireType::EndGroup, &mut mixed);
    assert!(accepts(&mixed));
    assert!(!accepts(&open), "a group ends under its own number");
    assert!(!accepts(&mixed[..mixed.len() - 1]));
}

#[test]
fn a_push_may_hold_commas_in_its_labels() {
    let mut push = Vec::new();
    put_chunk(
        &mut push,
        1,
        &stream("{path=\"/a,/b\", app=\"a\"}", &[entry(1, 0, "line")]),
    );
    let streams = decode_push_request(&compress(&push)).unwrap();
    assert_eq!(streams[0].labels, fields(&[("path", "/a,/b"), ("app", "a")]));
    assert_eq!(streams[0].entries.len(), 1);
}

#[test]
fn bad_pushes_are_refused() {
    let refuse = |body: &[u8]| decode_push_request(body).unwrap_err();
    let header = snap::raw::decompress_len(&[0xff; 8]).unwrap_err().to_string();
    assert_eq!(refuse(&[0xff; 8]), LokiError::Header(header.clone()));
    assert_eq!(
        refuse(&[0xff; 8]).message(),
        format!("invalid snappy header: {header}")
    );
    let broken = |body: &[u8]| {
        let why = snap::raw::Decoder::new().decompress_vec(body).unwrap_err();
        assert_eq!(refuse(body), LokiError::Decompress(why.to_string()));
        assert_eq!(
            refuse(body).message(),
            format!("snappy decompress failed: {why}")
        );
    };
    broken(&[]);
    broken(&[5, 0xff]);
    let over = MAX_DECOMPRESSED_BYTES as u64 + 1;
    let mut claim = Vec::new();
    encode_varint(over, &mut claim);
    assert_eq!(refuse(&claim), LokiError::TooLarge(over as usize));
    assert_eq!(
        refuse(&claim).message(),
        "snappy payload claims 67108865 decompressed bytes, exceeding the 67108864 limit"
    );
    assert_eq!(refuse(&compress(&[0x0a, 0x05, 0x00])), LokiError::Protobuf);
    assert_eq!(refuse(&compress(&[0x08, 0x05])), LokiError::Protobuf);
    let mut bad_utf8 = Vec::new();
    let mut s = Vec::new();
    put_chunk(&mut s, 1, &[0xff]);
    put_chunk(&mut bad_utf8, 1, &s);
    assert_eq!(refuse(&compress(&bad_utf8)), LokiError::Protobuf);
    let mut bad_labels = Vec::new();
    put_chunk(&mut bad_labels, 1, &stream("nope", &[]));
    let e = refuse(&compress(&bad_labels));
    assert_eq!(
        e.message(),
        "malformed stream labels \"nope\": label set must start with '{', e.g. {level=\"error\"}"
    );
    assert_eq!(LokiError::Protobuf.message(), "protobuf decode failed");
}

#[test]
fn varints_and_keys_read_back() {
    for v in [0, 1, 127, 128, 300, u32::MAX as u64, u64::MAX] {
        let mut bytes = Vec::new();
        encode_varint(v, &mut bytes);
        bytes.push(9);
        assert_eq!(read_varint(&bytes), Some((v, &[9u8][..])));
    }
    assert_eq!(read_varint(&[]), None);
    assert_eq!(read_varint(&[0x80, 0x80]), None);
    assert_eq!(read_varint(&[0xff; 11]), None);
    // Ten bytes that write more than 64 bits.
    assert_eq!(read_varint(&[255, 255, 255, 255, 255, 255, 255, 255, 255, 2]), None);
    assert_eq!(read_key(&[0x0a, 7]), Some((1, 2, &[7u8][..])));
    assert_eq!(read_key(&[0x02]), None, "field number zero");
    assert_eq!(read_key(&[0x0e]), None, "wire type six");
}

#[test]
fn timestamps_wrap_around() {
    assert_eq!(timestamp_ns(1, 5), 1_000_000_005);
    assert_eq!(timestamp_ns(-1, 5), -999_999_995);
    assert_eq!(timestamp_ns(i64::MAX, 0), i64::MAX.wrapping_mul(1_000_000_000));
}

#[test]
fn json_pushes_need_numbers_as_times() {
    let of = |ts: &str| {
        streams_from_json(&vec![JsonStream {
            stream: fields(&[("a", "b")]),
            values: vec![
                ("1".to_string(), "one".to_string()),
                (ts.to_string(), "two".to_string()),
            ],
        }])
    };
    let streams = of("-5").unwrap();
    assert_eq!(
        streams[0].entries,
        vec![(1, "one".to_string()), (-5, "two".to_string())]
    );
    assert_eq!(streams[0].labels, fields(&[("a", "b")]));
    assert!(of("soon").is_none());
    assert!(of("").is_none());
}

#[test]
fn frames_that_are_too_long_are_refused() {
    assert_eq!(read_length(&[0, 0, 1, 2]), Frame::Read(258));
    assert_eq!(read_length(&[1, 0, 0, 0]), Frame::Read(MAX_FRAME_BYTES));
    assert_eq!(read_length(&[1, 0, 0, 1]), Frame::Refuse(MAX_FRAME_BYTES + 1));
    assert_eq!(read_length(&[0xff; 4]), Frame::Refuse(u32::MAX as usize));
    assert_eq!((acknowledge(true), acknowledge(false)), (1, 0));
    assert!(admits(3, 4));
    assert!(!admits(4, 4));
}

#[test]
fn a_bulk_body_is_read_action_by_action() {
    let body = "{\"index\":{}}\n\
                {\"message\":\"hello\",\"@timestamp\":\"1970-01-01T00:00:02Z\",\"status\":200,\"ok\":true,\"who\":\"me\",\"nested\":{\"a\":1},\"none\":null,\"msg\":\"x\"}\r\n\
                \n\
                {\"delete\":{\"_id\":\"1\"}}\n\
                {\"create\":{}}\n\
                {\"msg\":\"short\"}\n";
    let plan = plan_bulk(body);
    assert_eq!(plan.error, None);
    assert_eq!(plan.steps.len(), 3);
    let statuses: Vec<u16> = plan.steps.iter().map(step_status).collect();
    assert_eq!(statuses, vec![201, 200, 201]);
    match &plan.steps[0] {
        BulkStep::Store(doc) => {
            let r = wire_record_from_doc(doc);
            assert_eq!(r.message, "hello");
            assert_eq!(r.timestamp_ns, Some(2_000_000_000));
            assert_eq!(
                r.fields,
                fields(&[("status", "200"), ("ok", "true"), ("who", "me")])
            );
        }
        BulkStep::Delete => panic!("expected a document"),
    }
    match &plan.steps[2] {
        BulkStep::Store(doc) => {
            let r = wire_record_from_doc(doc);
            assert_eq!((r.message.as_str(), r.timestamp_ns), ("short", None));
        }
        BulkStep::Delete => panic!("expected a document"),
    }
}

#[test]
fn a_bad_bulk_line_refuses_what_follows() {
    let error = |body: &str| plan_bulk(body).error.unwrap();
    assert_eq!(error("[]"), "action line must be a JSON object");
    assert_eq!(error("{\"index\":{}}\n5"), "document line must be a JSON object");
    assert_eq!(error("{\"index\":{}}\n"), "action line with no following document line");
    assert!(error("nope").starts_with("invalid action line: expected"));
    assert!(error("{\"index\":{}}\n{").starts_with("invalid document line: EOF"));
    let plan = plan_bulk("{\"index\":{}}\n{\"message\":\"kept\"}\nnope\n{\"delete\":{}}");
    assert_eq!(plan.steps.len(), 1);
    assert!(plan.error.is_some());
}

#[test]
fn bulk_bodies_have_to_be_text() {
    let refused = plan_body(vec![0xff, 0xfe]).unwrap_err();
    assert_eq!((refused.status, refused.message.as_str()), (400, "body is not valid UTF-8"));
    let plan = plan_body(b"{\"delete\":{}}\n".to_vec()).unwrap();
    assert_eq!((plan.steps.len(), plan.error), (1, None));
}

#[test]
fn objects_are_written_compactly() {
    let doc = vec![
        ("a\"b\n".to_string(), raw("1.5", JsonShape::Number(None))),
        ("é".to_string(), raw("[1,{}]", JsonShape::Array)),
        ("n".to_string(), raw("null", JsonShape::Null)),
    ];
    assert_eq!(
        wire_record_from_doc(&doc).message,
        "{\"a\\\"b\\n\":1.5,\"é\":[1,{}],\"n\":null}"
    );
    assert_eq!(wire_record_from_doc(&vec![]).message, "{}");
    // A document is written just as it is written as a whole.
    let line = "{\"z\":[1,2.50,\"x\\u00e9\"],\"a\":{\"k\":true},\"m\":1e3}";
    let plan = plan_bulk(&format!("{{\"index\":{{}}}}\n{line}"));
    let whole: serde_json::Value = serde_json::from_str(line).unwrap();
    match &plan.steps[0] {
        BulkStep::Store(doc) => assert_eq!(wire_record_from_doc(doc).message, whole.to_string()),
        BulkStep::Delete => panic!("expected a document"),
    }
}

fn text(s: &str) -> JsonValue {
    JsonValue {
        text: format!("{s:?}"),
        shape: JsonShape::Text(s.to_string()),
    }
}

fn raw(s: &str, shape: JsonShape) -> JsonValue {
    JsonValue {
        text: s.to_string(),
        shape,
    }
}

#[test]
fn a_document_without_a_message_is_its_own_message() {
    let doc = vec![
        ("b".to_string(), raw("[1,2]", JsonShape::Array)),
        ("a".to_string(), text("x")),
        ("message".to_string(), raw("5", JsonShape::Number(Some(5)))),
        ("msg".to_string(), text("not this")),
    ];
    let r = wire_record_from_doc(&doc);
    let back: serde_json::Value = serde_json::from_str(&r.message).unwrap();
    assert_eq!(back["a"], "x");
    assert_eq!(back["b"][1], 2);
    assert_eq!(back["message"], 5);
    assert_eq!(r.fields, fields(&[("a", "x")]));
    let given = record_from_parts(&doc, Some(4), "whole".to_string());
    assert_eq!((given.message.as_str(), given.timestamp_ns), ("whole", Some(4)));
}

#[test]
fn documents_migrate_with_their_fields() {
    let mut doc = vec![
        ("@timestamp".to_string(), raw("1500", JsonShape::Number(Some(1500)))),
        ("extra".to_string(), raw("{\"k\":1}", JsonShape::Object)),
        ("level".to_string(), text("warn")),
        ("log".to_string(), raw("{\"message\":\"inner\"}", JsonShape::Object)),
        ("status".to_string(), raw("200", JsonShape::Number(Some(200)))),
    ];
    let allowed = vec!["status".to_string(), "level".to_string(), "gone".to_string()];
    let lossy = doc_to_wire(&doc, &allowed, UnmappedStrategy::Lossy);
    assert_eq!(lossy.timestamp_ns, Some(1_500_000_000));
    assert_eq!(lossy.message, "inner");
    assert_eq!(lossy.fields, fields(&[("level", "warn"), ("status", "200")]));
    let kept = doc_to_wire(&doc, &allowed, UnmappedStrategy::Preserve);
    let meta: serde_json::Value =
        serde_json::from_str(kept.fields.get_text("_meta").unwrap()).unwrap();
    assert_eq!(meta["extra"]["k"], 1);
    assert_eq!(meta["log"]["message"], "inner");
    assert_eq!(meta.as_object().unwrap().len(), 2);
    assert_eq!(kept.fields.count(), 3);

    let stored = migrated_record(&doc, &allowed, UnmappedStrategy::Preserve, 7);
    assert_eq!((stored.timestamp_ns, stored.message.as_str()), (1_500_000_000, "inner"));
    assert_eq!(stored.template_id, template_id("inner"));
    assert_eq!(stored.fields, kept.fields, "what is preserved is stored");
    doc.remove(0);
    let stored = migrated_record(&doc, &allowed, UnmappedStrategy::Lossy, 7);
    assert_eq!(stored.timestamp_ns, 7);
    assert_eq!(stored.fields, lossy.fields);
}

#[test]
fn documents_migrate_with_what_they_have() {
    let of = |doc: Vec<(String, JsonValue)>| doc_to_wire(&doc, &[], UnmappedStrategy::Preserve);
    let empty = of(vec![]);
    assert_eq!((empty.message.as_str(), empty.timestamp_ns), ("", None));
    assert_eq!(empty.fields.count(), 0);
    let dated = of(vec![
        ("@timestamp".to_string(), text("1970-01-01T00:00:01Z")),
        ("message".to_string(), text("m")),
    ]);
    assert_eq!((dated.message.as_str(), dated.timestamp_ns), ("m", Some(1_000_000_000)));
    assert_eq!(dated.fields.count(), 0, "nothing is left to preserve");
    assert_eq!(of(vec![("@timestamp".to_string(), text("soon"))]).timestamp_ns, None);
    assert_eq!(
        of(vec![("@timestamp".to_string(), raw("1.5", JsonShape::Number(None)))]).timestamp_ns,
        None
    );
    assert_eq!(millis_to_nanos(-2), -2_000_000);
    assert_eq!(millis_to_nanos(i64::MAX), i64::MAX.wrapping_mul(1_000_000));
}

#[test]
fn migrate_options_are_read_from_flags() {
    let args = |s: &str| -> Vec<String> { s.split(' ').map(str::to_string).collect() };
    let o = parse_options(&args("--from elasticsearch --url http://x --index logs")).unwrap();
    assert_eq!(
        (o.url.as_str(), o.index.as_str(), o.unmapped),
        ("http://x", "logs", UnmappedStrategy::Lossy)
    );
    let o = parse_options(&args(
        "--index a --unmapped preserve --url u --from elasticsearch --index b",
    ))
    .unwrap();
    assert_eq!((o.index.as_str(), o.unmapped), ("b", UnmappedStrategy::Preserve));
    let e = |s: &str| parse_options(&args(s)).unwrap_err();
    assert_eq!(parse_options(&vec![]).unwrap_err(), "missing --from");
    assert_eq!(e("--verbose"), "unknown migrate flag: --verbose");
    assert_eq!(
        e("--from splunk"),
        "--from \"splunk\" not supported; only 'elasticsearch' is available"
    );
    assert_eq!(e("--from elasticsearch"), "missing --url");
    assert_eq!(e("--from elasticsearch --url"), "missing --url");
    assert_eq!(e("--from elasticsearch --url u"), "missing --index");
    assert_eq!(
        e("--unmapped maybe"),
        "unknown --unmapped value: \"maybe\"; use 'lossy' or 'preserve'"
    );
    assert_eq!("lossy".parse(), Ok(UnmappedStrategy::Lossy));
}

#[test]
fn index_names_stay_in_their_place() {
    assert_eq!(check_index("logs-2024.01"), Ok(()));
    for bad in ["a/b", "a?b", "a#b", "a&b", "a b", "a\\b", "foo/../_cluster/state"] {
        assert_eq!(
            check_index(bad),
            Err(format!(
                "invalid --index {bad:?}: must not contain '/', '?', '#', '&', '\\\\', or spaces"
            ))
        );
    }
}

#[test]
fn pages_are_read_from_answers() {
    let page = read_page(
        r#"{"_scroll_id":"s1","hits":{"total":2,"hits":[
            {"_id":"1","_source":{"level":"warn","n":0.1,"deep":{"k":[1,2.50]}}},
            {"_id":"2","_source":"none"},
            7
        ]}}"#,
    )
    .unwrap();
    assert_eq!(page.scroll_id.as_deref(), Some("s1"));
    let hits = page.hits.unwrap();
    assert_eq!(hits.len(), 3);
    assert!(hits[1].is_none() && hits[2].is_none());
    let doc = hits[0].as_ref().unwrap();
    let texts: Vec<(&str, &str)> = doc.iter().map(|m| (m.0.as_str(), m.1.text.as_str())).collect();
    assert_eq!(
        texts,
        vec![("deep", "{\"k\":[1,2.5]}"), ("level", "\"warn\""), ("n", "0.1")]
    );
    for answer in ["[]", "{}", r#"{"_scroll_id":7,"hits":{"hits":{}}}"#, r#"{"hits":[]}"#] {
        let page = read_page(answer).unwrap();
        assert!(page.scroll_id.is_none() && page.hits.is_none(), "{answer}");
    }
    assert!(read_page("no json").is_err());
}

#[test]
fn control_characters_are_escaped_in_names() {
    let name = "q\"\\\u{8}\t\n\u{c}\r\u{1}\u{1f}\u{7f}ü";
    let doc = vec![(name.to_string(), raw("1", JsonShape::Number(Some(1))))];
    let kept = doc_to_wire(&doc, &[], UnmappedStrategy::Preserve);
    assert_eq!(
        kept.fields.get_text("_meta"),
        Some("{\"q\\\"\\\\\\b\\t\\n\\f\\r\\u0001\\u001f\u{7f}ü\":1}")
    );
}

#[test]
fn a_scroll_is_walked_until_it_is_empty() {
    let page = |id: Option<&str>, hits| {
        next_scroll(ScrollPage {
            scroll_id: id.map(str::to_string),
            hits,
        })
    };
    match page(None, None) {
        ScrollAction::Fail(e) => assert_eq!(e, "ES response missing _scroll_id"),
        _ => panic!("expected a failure"),
    }
    match page(Some("s"), None) {
        ScrollAction::Fail(e) => assert_eq!(e, "ES response missing hits.hits"),
        _ => panic!("expected a failure"),
    }
    match page(Some("s"), Some(vec![])) {
        ScrollAction::Finish(id) => assert_eq!(id, "s"),
        _ => panic!("expected the end"),
    }
    match page(Some("s"), Some(vec![None, Some(vec![("a".to_string(), text("x"))])])) {
        ScrollAction::Store(id, docs) => {
            assert_eq!((id.as_str(), docs.len()), ("s", 1));
            assert_eq!(docs[0][0].0, "a");
        }
        _ => panic!("expected documents"),
    }
    assert!(reports_progress(20_000));
    assert!(!reports_progress(20_001));
}
