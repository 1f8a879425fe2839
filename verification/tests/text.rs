use cloudevents_coap::text::{
    decode_text, encode_text, has_prefix, join_segments, option_number_name, parse_option_number,
    same_text, split_segments,
};

#[test]
fn decode_text_reads_utf8() {
    assert_eq!(decode_text(b"hello".to_vec()), Some("hello".to_string()));
    assert_eq!(decode_text(Vec::new()), Some(String::new()));
    assert_eq!(decode_text("gr\u{fc}\u{df}e \u{1f600}".as_bytes().to_vec()), Some("gr\u{fc}\u{df}e \u{1f600}".to_string()));
    assert_eq!(decode_text(vec![0xff]), None);
    assert_eq!(decode_text(vec![0xc3]), None);
    assert_eq!(decode_text(vec![0x61, 0x80]), None);
    assert_eq!(decode_text(vec![0xed, 0xa0, 0x80]), None);
    assert_eq!(decode_text(vec![0xc0, 0xaf]), None);
}

#[test]
fn encode_text_gives_utf8() {
    assert_eq!(encode_text("1.0"), vec![0x31, 0x2e, 0x30]);
    assert_eq!(encode_text("\u{e9}"), vec![0xc3, 0xa9]);
    assert_eq!(encode_text(""), Vec::<u8>::new());
}

#[test]
fn text_survives_encoding() {
    for text in ["", "a", "urn:x", "\u{e9}t\u{e9}", "\u{4e2d}\u{6587}", "\u{1f600}/\u{0}"] {
        assert_eq!(decode_text(encode_text(text)), Some(text.to_string()));
    }
}

#[test]
fn same_text_compares_contents() {
    assert!(same_text("", ""));
    assert!(same_text("id", "id"));
    assert!(!same_text("id", "ID"));
    assert!(!same_text("id", "idx"));
    assert!(!same_text("type", "time"));
    assert!(!same_text("", "a"));
}

#[test]
fn has_prefix_compares_heads() {
    assert!(has_prefix("application/cloudevents+json", "application/cloudevents+json"));
    assert!(has_prefix("application/cloudevents+json; charset=utf-8", "application/cloudevents+json"));
    assert!(!has_prefix("application/cloudevents+jso", "application/cloudevents+json"));
    assert!(!has_prefix("application/json", "application/cloudevents+json"));
    assert!(!has_prefix(" application/cloudevents+json", "application/cloudevents+json"));
    assert!(has_prefix("anything", ""));
    assert!(has_prefix("", ""));
    assert!(!has_prefix("", "a"));
}

#[test]
fn split_segments_examples() {
    assert_eq!(split_segments(b"a/b/c"), vec![b"a".to_vec(), b"b".to_vec(), b"c".to_vec()]);
    assert_eq!(split_segments(b""), vec![Vec::<u8>::new()]);
    assert_eq!(split_segments(b"abc"), vec![b"abc".to_vec()]);
    assert_eq!(split_segments(b"/"), vec![Vec::<u8>::new(), Vec::new()]);
    assert_eq!(split_segments(b"/a"), vec![Vec::new(), b"a".to_vec()]);
    assert_eq!(split_segments(b"a/"), vec![b"a".to_vec(), Vec::new()]);
    assert_eq!(split_segments(b"a//b"), vec![b"a".to_vec(), Vec::new(), b"b".to_vec()]);
}

#[test]
fn join_segments_examples() {
    assert_eq!(join_segments(&vec![b"a".to_vec(), b"b".to_vec(), b"c".to_vec()]), b"a/b/c".to_vec());
    assert_eq!(join_segments(&Vec::new()), Vec::<u8>::new());
    assert_eq!(join_segments(&vec![b"abc".to_vec()]), b"abc".to_vec());
    assert_eq!(join_segments(&vec![Vec::new(), Vec::new()]), b"/".to_vec());
    assert_eq!(join_segments(&vec![b"a".to_vec(), Vec::new()]), b"a/".to_vec());
}

#[test]
fn join_undoes_split() {
    for path in ["", "a", "a/b/c", "/", "//", "/a/", "a//b", "devices/\u{e9}/state"] {
        let segments = split_segments(path.as_bytes());
        assert_eq!(join_segments(&segments), path.as_bytes().to_vec());
        let expected: Vec<Vec<u8>> = path.split('/').map(|piece| piece.as_bytes().to_vec()).collect();
        assert_eq!(segments, expected);
    }
}

#[test]
fn option_number_name_is_decimal() {
    assert_eq!(option_number_name(0), "0");
    assert_eq!(option_number_name(7), "7");
    assert_eq!(option_number_name(10), "10");
    assert_eq!(option_number_name(4207), "4207");
    assert_eq!(option_number_name(65535), "65535");
    for number in 0..=u16::MAX {
        assert_eq!(option_number_name(number), number.to_string());
    }
}

#[test]
fn parse_option_number_examples() {
    assert_eq!(parse_option_number("0"), Some(0));
    assert_eq!(parse_option_number("4207"), Some(4207));
    assert_eq!(parse_option_number("65535"), Some(65535));
    assert_eq!(parse_option_number("65536"), None);
    assert_eq!(parse_option_number("99999999999999999999999"), None);
    assert_eq!(parse_option_number("007"), Some(7));
    assert_eq!(parse_option_number("+7"), Some(7));
    assert_eq!(parse_option_number("+0065535"), Some(65535));
    assert_eq!(parse_option_number(""), None);
    assert_eq!(parse_option_number("+"), None);
    assert_eq!(parse_option_number("-1"), None);
    assert_eq!(parse_option_number("++1"), None);
    assert_eq!(parse_option_number("1+"), None);
    assert_eq!(parse_option_number(" 1"), None);
    assert_eq!(parse_option_number("1 "), None);
    assert_eq!(parse_option_number("12a"), None);
    assert_eq!(parse_option_number("auth-token"), None);
    assert_eq!(parse_option_number("\u{661}"), None);
    assert_eq!(parse_option_number("1\u{e9}"), None);
    assert_eq!(parse_option_number("0x10"), None);
}

#[test]
fn parse_option_number_agrees_with_std() {
    let samples = [
        "", "+", "-", "0", "00", "+0", "-0", "1", "+1", "-1", "65535", "65536", "065535", "+65535",
        "655350", "4294967296", "4294967297", "18446744073709551616", "1e3", "1.0", "1_000", " 7",
        "7 ", "٣", "१२", "abc", "12\u{0}", "+12", "++12", "1+2",
    ];
    for sample in samples {
        assert_eq!(parse_option_number(sample), sample.parse::<u16>().ok(), "{:?}", sample);
    }
}

#[test]
fn names_of_numbers_parse_back() {
    for number in 0..=u16::MAX {
        assert_eq!(parse_option_number(&option_number_name(number)), Some(number));
    }
}
