use pierre::clock::now_ns;
use pierre::listener::syslog::{
    accept_line, parse_message, parse_rfc5424, record_from_header, severity_name,
    skip_structured_data, strip_line_end, take_line, try_parse_header, MAX_MESSAGE_BYTES,
};

#[test]
fn well_formed_message_with_structured_data() {
    let line = r#"<34>1 2003-10-11T22:14:15.003Z mymachine.example.com su - ID47 [exampleSDID@32473 iut="3" eventSource="Application" eventID="1011"] 'su root' failed for lonvick"#;
    let wire = parse_rfc5424(line);

    // PRI 34 = facility 4 (auth), severity 2 (critical).
    assert_eq!(wire.fields.get("facility").map(String::as_str), Some("4"));
    assert_eq!(wire.fields.get("severity").map(String::as_str), Some("2"));
    assert_eq!(
        wire.fields.get("level").map(String::as_str),
        Some("critical")
    );
    assert_eq!(
        wire.fields.get("hostname").map(String::as_str),
        Some("mymachine.example.com")
    );
    assert_eq!(wire.fields.get("app_name").map(String::as_str), Some("su"));
    assert_eq!(wire.fields.get("msgid").map(String::as_str), Some("ID47"));
    assert!(
        !wire.fields.contains_key("procid"),
        "nil procid (-) must not become a field"
    );
    assert_eq!(
        wire.message, "'su root' failed for lonvick",
        "structured data must be skipped, not leak into the message"
    );

    let expected_ns = "2003-10-11T22:14:15.003Z"
        .parse::<jiff::Timestamp>()
        .unwrap()
        .as_nanosecond() as i64;
    assert_eq!(wire.timestamp_ns, expected_ns);
}

#[test]
fn nil_structured_data_and_nil_procid() {
    let line = "<13>1 2003-10-11T22:14:15.003Z myhost.local myapp 1234 - - just a message";
    let wire = parse_rfc5424(line);

    assert_eq!(wire.fields.get("procid").map(String::as_str), Some("1234"));
    assert_eq!(wire.message, "just a message");
}

#[test]
fn nil_timestamp_falls_back_to_now() {
    let before = now_ns();
    let wire = parse_rfc5424("<13>1 - myhost.local myapp - - - hello");
    let after = now_ns();
    assert!(
        wire.timestamp_ns >= before && wire.timestamp_ns <= after,
        "nil timestamp (-) must fall back to current time"
    );
}

#[test]
fn malformed_line_lands_as_the_raw_message_instead_of_being_dropped() {
    let line = "this is not RFC5424 at all";
    let wire = parse_rfc5424(line);
    assert_eq!(wire.message, line);
    assert!(wire.fields.is_empty());
}

#[test]
fn pri_out_of_valid_range_falls_back_to_raw_message() {
    let line = "<999>1 2003-10-11T22:14:15.003Z host app - - - message";
    let wire = parse_rfc5424(line);
    assert_eq!(wire.message, line);
}

#[test]
fn bom_prefix_on_msg_is_stripped() {
    let line = "<13>1 2003-10-11T22:14:15.003Z host app - - - \u{feff}message with bom";
    let wire = parse_rfc5424(line);
    assert_eq!(wire.message, "message with bom");
}

#[test]
fn the_highest_priority_is_still_one() {
    let p = parse_message("<191>1 - h a p m - x");
    assert_eq!(p.fields.get_text("facility"), Some("23"));
    assert_eq!(p.fields.get_text("severity"), Some("7"));
    assert_eq!(p.fields.get_text("level"), Some("debug"));
    assert_eq!(p.fields.get_text("msgid"), Some("m"));
    assert_eq!(p.timestamp_ns, None);
    assert_eq!(parse_message("<192>1 - h a p m - x").fields.count(), 0);
}

#[test]
fn short_lines_and_bad_timestamps() {
    // Five parts are not enough.
    assert_eq!(parse_message("<1>1 - h a p").message, "<1>1 - h a p");
    // Six are, and the message is then empty.
    let p = parse_message("<1>1 - h a p m");
    assert_eq!(p.message, "");
    assert_eq!(p.fields.get_text("msgid"), Some("m"));
    assert_eq!(parse_message("<1>1 soon h a p m - x").timestamp_ns, None);
    assert_eq!(parse_message("no").timestamp_ns, None);
    assert_eq!(parse_message("<1 x").message, "<1 x");
}

#[test]
fn structured_data_ends_at_its_last_bracket() {
    assert_eq!(skip_structured_data("- msg"), "msg");
    assert_eq!(skip_structured_data("-msg"), "msg");
    assert_eq!(skip_structured_data("  - msg"), "msg");
    assert_eq!(skip_structured_data("plain"), "plain");
    assert_eq!(skip_structured_data("[a][b] msg"), "msg");
    assert_eq!(skip_structured_data(r#"[a x="]"] msg"#), "msg");
    assert_eq!(skip_structured_data(r#"[a x="\"]"] msg"#), "msg");
    assert_eq!(skip_structured_data("[a [b]] msg"), "msg");
    assert_eq!(skip_structured_data("[a msg"), "[a msg");
    assert_eq!(skip_structured_data(r#"[a x="\"#), r#"[a x="\"#);
    assert_eq!(skip_structured_data(r#"[a x="\é]"] msg"#), "msg");
}

#[test]
fn severities_have_names() {
    let names: Vec<&str> = (0..9).map(severity_name).collect();
    assert_eq!(
        names,
        vec![
            "emergency", "alert", "critical", "error", "warning", "notice", "info", "debug",
            "unknown"
        ]
    );
}

#[test]
fn blank_lines_give_nothing() {
    assert!(accept_line(" \t").is_none());
    assert!(accept_line("").is_none());
    assert_eq!(accept_line("x").unwrap().message, "x");
    assert_eq!(strip_line_end("a b\r\n"), "a b");
    assert_eq!(strip_line_end("\n\r"), "");
    assert_eq!(strip_line_end("a\nb"), "a\nb");
}

#[test]
fn all_elements_of_structured_data_are_skipped() {
    let skipped = |s: &str| skip_structured_data(s).to_string();
    assert_eq!(skipped("[a x=\"1\"][b y=\"2\"] hello"), "hello");
    assert_eq!(skipped("[a x=\"]\\\"[\"][b][c] [kept]"), "[kept]");
    assert_eq!(skipped("[a][b open"), "[a][b open");
    assert_eq!(skipped("[a] [b] hello"), "[b] hello");
    assert_eq!(skipped("[a[b]c] hello"), "hello");
    assert_eq!(skipped("[a]"), "");
}

#[test]
fn a_record_is_built_from_its_header() {
    let line = "<13>1 2003-10-11T22:14:15.003Z host - 12 - - \u{feff}text";
    let header = try_parse_header(line).unwrap();
    assert_eq!((header.facility, header.severity), (1, 5));
    let r = record_from_header(&header, Some(77));
    assert_eq!((r.timestamp_ns, r.message.as_str()), (Some(77), "text"));
    assert_eq!(r.fields.get_text("level"), Some("notice"));
    assert_eq!(r.fields.get_text("hostname"), Some("host"));
    assert_eq!(r.fields.get_text("app_name"), None);
    assert_eq!(r.fields.count(), 5);
    let nil = try_parse_header("<13>1 - host - - - - text").unwrap();
    assert_eq!(record_from_header(&nil, Some(77)).timestamp_ns, None);
    assert!(try_parse_header("<13>1 - host - -").is_none());
}

#[test]
fn a_part_of_a_line_is_never_a_line() {
    assert_eq!(take_line("text\r\n", 6), Some("text"));
    assert_eq!(take_line("text", 4), Some("text"));
    assert_eq!(take_line("", 0), None);
    let long = "x".repeat(MAX_MESSAGE_BYTES);
    assert_eq!(take_line(&long, MAX_MESSAGE_BYTES), Some(long.as_str()));
    let longer = "x".repeat(MAX_MESSAGE_BYTES + 1);
    assert_eq!(take_line(&longer, MAX_MESSAGE_BYTES + 1), None);
    let full = format!("{long}\n");
    assert_eq!(take_line(&full, MAX_MESSAGE_BYTES + 1), Some(long.as_str()));
}
