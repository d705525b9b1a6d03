use pierre::decimal::{decimal_text, parse_i64, parse_natural, signed_text};
use pierre::floattext::is_float;
use pierre::hextext::{hex_decode, hex_encode, HexError};
use pierre::strmap::{FieldMap, StrMap};
use pierre::text::{
    contains, is_white_space, lines, split, split_once, split_up_to, split_words, strip_prefix,
    strip_quotes, trim,
};

#[test]
fn white_space_is_that_of_the_standard_library() {
    for n in 0..=0x10ffffu32 {
        if let Some(c) = char::from_u32(n) {
            assert_eq!(is_white_space(c), c.is_whitespace(), "U+{n:04X}");
        }
    }
}

#[test]
fn cutting_texts_agrees_with_the_standard_library() {
    let samples = [
        "", " ", "a", "a,b", ",", ",,", " a b\tc ", "\u{a0}x\u{2003}", "é,ü", "a\nb\r\nc", "a\n",
        "\r\n", "\n\n", "a\r", "{}", "\"q\"", "\"", "a=b=c",
    ];
    for s in samples {
        assert_eq!(trim(s), s.trim());
        assert_eq!(split_words(s), s.split_whitespace().collect::<Vec<_>>());
        assert_eq!(lines(s), s.lines().collect::<Vec<_>>(), "{s:?}");
        for c in [',', '=', ' ', 'é'] {
            assert_eq!(split(s, c), s.split(c).collect::<Vec<_>>());
            assert_eq!(split_once(s, c), s.split_once(c));
            assert_eq!(split_up_to(s, c, 2), s.splitn(2, c).collect::<Vec<_>>());
        }
        for t in samples {
            assert_eq!(contains(s, t), s.contains(t));
            assert_eq!(strip_prefix(s, t), s.strip_prefix(t));
        }
    }
    assert_eq!(strip_quotes("\"a\""), Some("a"));
    assert_eq!(strip_quotes("\""), None);
    assert_eq!(strip_quotes("\"\""), Some(""));
}

#[test]
fn numbers_read_and_write_as_in_the_standard_library() {
    for n in [0u64, 7, 10, 12345, u64::MAX] {
        assert_eq!(decimal_text(n), n.to_string());
        assert_eq!(parse_natural(&n.to_string(), u64::MAX), Some(n));
    }
    for i in [i64::MIN, -10, -1, 0, 9, i64::MAX] {
        assert_eq!(signed_text(i), i.to_string());
        assert_eq!(parse_i64(&i.to_string()), Some(i));
    }
    for s in [
        "", "+", "-", "+5", "-5", "--5", "05", "5a", " 5", "9223372036854775807",
        "9223372036854775808", "-9223372036854775808", "-9223372036854775809",
        "18446744073709551615", "18446744073709551616", "٣",
    ] {
        assert_eq!(parse_i64(s), s.parse::<i64>().ok(), "{s:?}");
        assert_eq!(parse_natural(s, u64::MAX), s.parse::<u64>().ok(), "{s:?}");
        assert_eq!(
            parse_natural(s, u16::MAX as u64),
            s.parse::<u16>().ok().map(u64::from),
            "{s:?}"
        );
    }
}

#[test]
fn floats_are_recognised_as_in_the_standard_library() {
    for s in [
        "", "1", "1.", ".5", ".", "1.5", "-1.5e3", "1e", "1e+", "1e+5", "e5", "inf", "-INF",
        "Infinity", "infinit", "nan", "NaN", "+nan", "--1", "1_000", "0x10", "1.5.2", "1e5.0",
        " 1", "1 ", "+", "-", "1E-7", "12345678901234567890123", "1e999",
    ] {
        assert_eq!(is_float(s), s.parse::<f64>().is_ok(), "{s:?}");
    }
}

#[test]
fn hex_writes_and_reads_back() {
    assert_eq!(hex_encode(&[0, 1, 0x9f, 0xab, 0xff]), "00019fabff");
    let all: Vec<u8> = (0..=255).collect();
    assert_eq!(hex_decode(&hex_encode(&all)), Ok(all));
    assert_eq!(hex_decode("0019FAbf"), Ok(vec![0, 0x19, 0xfa, 0xbf]));
    assert_eq!(hex_decode(""), Ok(vec![]));
}

#[test]
fn hex_refuses_without_panicking() {
    assert_eq!(hex_decode("abc"), Err(HexError::OddLength));
    assert_eq!(hex_decode("zz"), Err(HexError::NotHex));
    // Four bytes, an even number, with a character boundary inside the first pair.
    assert_eq!(hex_decode("€a"), Err(HexError::NotHex));
    assert_eq!(
        HexError::OddLength.message(),
        "doc_id must be an even-length hex string"
    );
    assert_eq!(HexError::NotHex.message(), "doc_id is not valid hex");
}

#[test]
fn maps_are_walked_by_key() {
    let mut m: StrMap<u64> = StrMap::new();
    assert!(m.is_empty());
    for (k, v) in [("b", 2), ("a", 1), ("é", 5), ("c", 3), ("a", 7)] {
        m.insert(k.to_string(), v);
    }
    assert_eq!(m.len(), 4);
    let walked: Vec<(String, u64)> = (0..m.len())
        .map(|i| (m.at(i).0.clone(), *m.at(i).1))
        .collect();
    assert_eq!(
        walked,
        vec![
            ("a".to_string(), 7),
            ("b".to_string(), 2),
            ("c".to_string(), 3),
            ("é".to_string(), 5)
        ]
    );
    assert_eq!(m.remove("b"), Some(2));
    assert_eq!(m.remove("b"), None);
    assert_eq!(m.get("c"), Some(&3));
    assert!(!m.contains_key("b"));
    assert_eq!(m.duplicate(), m);
}

#[test]
fn field_maps_compare_by_their_texts() {
    let mut a = FieldMap::empty();
    a.put("x", "1");
    a.put("y", "2");
    let mut b = FieldMap::empty();
    b.put("y", "2");
    assert!(!a.same_texts(&b));
    b.put("x", "1");
    assert!(a.same_texts(&b));
    assert!(a.copy().same_texts(&a));
    b.put("x", "3");
    assert!(!a.same_texts(&b));
    a.drop_key("x");
    assert_eq!(a.count(), 1);
    assert_eq!(a.text_at(0), ("y", "2"));
    assert_eq!(a.get_text("x"), None);
}
