use pierre::logql::{parse, parse_label_set};
use pierre::query::{fields_match, select};
use pierre::record::Record;
use pierre::strmap::FieldMap;

#[test]
fn parses_a_bare_selector() {
    let parsed = parse(r#"{level="error"}"#).unwrap();
    assert_eq!(parsed.selector.get("level"), Some(&"error".to_string()));
    assert_eq!(parsed.line_filter, None);
}

#[test]
fn parses_multiple_selector_terms() {
    let parsed = parse(r#"{level="error", service="payments"}"#).unwrap();
    assert_eq!(parsed.selector.len(), 2);
    assert_eq!(
        parsed.selector.get("service"),
        Some(&"payments".to_string())
    );
}

#[test]
fn parses_selector_with_line_filter() {
    let parsed = parse(r#"{level="error"} |= "timeout""#).unwrap();
    assert_eq!(parsed.line_filter, Some("timeout".to_string()));
}

#[test]
fn rejects_missing_braces() {
    assert!(parse("level=\"error\"").is_err());
}

#[test]
fn rejects_unsupported_operator() {
    assert!(parse(r#"{level="error"} |~ "regex.*""#).is_err());
}

#[test]
fn rejects_unquoted_value() {
    assert!(parse("{level=error}").is_err());
}

#[test]
fn label_set_errors_are_in_words() {
    let of = |s: &str| parse_label_set(s).unwrap_err();
    assert_eq!(of("level"), "label set must start with '{', e.g. {level=\"error\"}");
    assert_eq!(of("{a=\"b\""), "unterminated label set — missing '}'");
    assert_eq!(of("}{"), "malformed label set");
    assert_eq!(of("{level}"), "malformed label term \"level\", expected key=\"value\"");
    assert_eq!(of("{a= b}"), "label value must be quoted: \" b\"");
    assert_eq!(of("{a=\"}"), "label value must be quoted: \"\\\"\"");
}

#[test]
fn query_errors_are_in_words() {
    let of = |s: &str| parse(s).unwrap_err();
    assert_eq!(of("x"), "unterminated label selector — missing `}`");
    assert_eq!(
        of("{} |~ \"x\""),
        "unsupported line-filter operator (only `|=` is supported): \"|~ \\\"x\\\"\""
    );
    assert_eq!(of("{} |= x"), "line filter value must be quoted: \"x\"");
    assert_eq!(of("x}"), "label set must start with '{', e.g. {level=\"error\"}");
}

#[test]
fn blank_terms_are_skipped_and_later_ones_win() {
    let labels = parse_label_set(" { a = \"1\" , , b=\"=,\" }").unwrap();
    assert_eq!(labels.count(), 2);
    assert_eq!(labels.get_text("b"), Some("=,"));
    let labels = parse_label_set("{a=\"1\",,a=\" 2 \",}").unwrap();
    assert_eq!(labels.count(), 1);
    assert_eq!(labels.get_text("a"), Some(" 2 "));
    assert_eq!(parse_label_set("{}").unwrap().count(), 0);
}

#[test]
fn quoted_values_may_hold_commas_and_braces() {
    let of = |s: &str| parse_label_set(s).unwrap();
    assert_eq!(of(r#"{path="/a,/b"}"#), fields(&[("path", "/a,/b")]));
    assert_eq!(
        of(r#"{path="{x},{y}", app="a"}"#),
        fields(&[("path", "{x},{y}"), ("app", "a")])
    );
    let escaped = r#"{msg="say \"hi, you\"", dir="C:\\,"}"#;
    assert_eq!(
        of(escaped),
        fields(&[("msg", r#"say \"hi, you\""#), ("dir", r"C:\\,")])
    );
    let parsed = parse(r#"{path="/a,}/b"} |= "x, } y""#).unwrap();
    assert_eq!(parsed.selector, fields(&[("path", "/a,}/b")]));
    assert_eq!(parsed.line_filter, Some("x, } y".to_string()));
}

#[test]
fn quotes_that_are_left_open_count_as_any_character() {
    let of = |s: &str| parse_label_set(s).unwrap();
    assert_eq!(of(r#"{dir="C:\"}"#), fields(&[("dir", "C:\\")]));
    assert_eq!(
        of(r#"{a="x"y", b="z"}"#),
        fields(&[("a", "x\"y"), ("b", "z")])
    );
    assert_eq!(
        parse_label_set("{a=\"x, b=\"y\"}").unwrap_err(),
        "label value must be quoted: \"\\\"x\""
    );
}

#[test]
fn quotes_out_of_place_count_as_any_character() {
    let of = |s: &str| parse_label_set(s).unwrap();
    assert_eq!(
        of(r#"{a="x"y",b="z"w"}"#),
        fields(&[("a", "x\"y"), ("b", "z\"w")])
    );
    assert_eq!(of(r#"{a"b="x", c = "y" }"#), fields(&[("a\"b", "x"), ("c", "y")]));
    assert_eq!(
        parse_label_set(r#"{a=="x,y"}"#).unwrap_err(),
        "label value must be quoted: \"=\\\"x\""
    );
}

#[test]
fn a_query_and_its_label_set_agree() {
    for q in [
        r#" {path="/a,}/b", app="a"} |= "x" "#,
        r#"{a="x"y"} |= "z""#,
        "{}  ",
        r#"{dir="C:\"}"#,
    ] {
        let parsed = parse(q).unwrap();
        assert_eq!(parse_label_set(q).unwrap(), parsed.selector, "{q}");
    }
    for q in ["", "}{", "{a}", r#"{a="b}"#, "x}"] {
        assert!(parse_label_set(q).is_err() && parse(q).is_err(), "{q}");
    }
}

#[test]
fn a_written_label_reads_back() {
    for (name, value) in [("level", "error"), ("a b", "x = \"y\""), ("", ""), ("ü", "{"), ("p", "a,b}c")] {
        let written = format!("{{{name}=\"{value}\"}}");
        let labels = parse_label_set(&written).unwrap();
        assert_eq!(labels.count(), 1);
        assert_eq!(labels.get_text(name), Some(value));
        assert_eq!(parse(&written).unwrap().selector, labels);
    }
}

fn fields(pairs: &[(&str, &str)]) -> FieldMap {
    let mut m = FieldMap::empty();
    for (k, v) in pairs {
        m.put(k, v);
    }
    m
}

fn record(timestamp_ns: i64, pairs: &[(&str, &str)]) -> Record {
    Record {
        timestamp_ns,
        message: String::new(),
        fields: fields(pairs),
        template_id: 0,
    }
}

#[test]
fn selection_keeps_matching_records_in_order() {
    let records = vec![
        record(1, &[("level", "error"), ("service", "a")]),
        record(2, &[("level", "info")]),
        record(3, &[("level", "error"), ("service", "b")]),
        record(4, &[]),
    ];
    let kept = select(records, &fields(&[("level", "error")]));
    let times: Vec<i64> = kept.iter().map(|r| r.timestamp_ns).collect();
    assert_eq!(times, vec![1, 3]);
}

#[test]
fn every_filter_has_to_match() {
    let f = fields(&[("a", "1"), ("b", "2")]);
    assert!(fields_match(&f, &fields(&[])));
    assert!(fields_match(&f, &fields(&[("a", "1"), ("b", "2")])));
    assert!(!fields_match(&f, &fields(&[("a", "1"), ("b", "3")])));
    assert!(!fields_match(&f, &fields(&[("a", "1"), ("c", "2")])));
}

#[test]
fn written_queries_read_back() {
    let parsed = parse("{a=\"x y\", b=\"=\\\"\", =\"\"} |= \"any } , \"text\"").unwrap();
    assert_eq!(parsed.selector.len(), 3);
    assert_eq!(parsed.selector.get_text("b"), Some("=\\\""));
    assert_eq!(parsed.selector.get_text(""), Some(""));
    assert_eq!(parsed.line_filter, Some("any } , \"text".to_string()));
    assert_eq!(parse("{}").unwrap().selector.count(), 0);
}
