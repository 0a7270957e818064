use bounded::string;
use bounded::vector;

#[test]
fn trim_removes_leading_and_trailing_whitespace() {
    let string = string::String::<128>::from("   hello world\t");
    assert_eq!(string.trim().as_bytes(), b"hello world");
}

#[test]
fn trim_is_idempotent_on_samples() {
    for text in ["  a b  ", "\t\t", "", "x", " \r\nmid dle\x0c "] {
        let once = string::String::<64>::from(text).trim();
        let twice = once.trim();
        assert_eq!(once.as_bytes(), twice.as_bytes());
    }
}

#[test]
fn trim_of_all_whitespace_is_empty() {
    let string = string::String::<16>::from(" \t\r\n");
    assert!(string.trim().is_empty());
    assert!(string::String::<16>::new().trim().is_empty());
}

#[test]
fn split_on_space_keeps_every_segment() {
    let string = string::String::<128>::from("hello world! so so");
    let segments = string.split(" ");
    let expected: [&[u8]; 4] = [b"hello", b"world!", b"so", b"so"];
    assert_eq!(segments.len(), expected.len());
    for (segment, want) in segments.as_slice().iter().zip(expected) {
        assert_eq!(segment.as_bytes(), want);
    }
}

#[test]
fn split_with_empty_pattern_yields_no_segments() {
    let string = string::String::<16>::from("abc");
    assert_eq!(string.split("").len(), 0);
}

#[test]
fn split_drops_an_empty_trailing_remainder() {
    let string = string::String::<16>::from("ab,cd,");
    let segments = string.split(",");
    assert_eq!(segments.len(), 2);
    assert_eq!(segments.as_slice()[0].as_bytes(), b"ab");
    assert_eq!(segments.as_slice()[1].as_bytes(), b"cd");
}

#[test]
fn split_keeps_empty_middle_segments() {
    let string = string::String::<16>::from("a,,b");
    let segments = string.split(",");
    assert_eq!(segments.len(), 3);
    assert_eq!(segments.as_slice()[0].as_bytes(), b"a");
    assert_eq!(segments.as_slice()[1].as_bytes(), b"");
    assert_eq!(segments.as_slice()[2].as_bytes(), b"b");
}

#[test]
fn split_char_absorbs_a_leading_delimiter() {
    let string = string::String::<16>::from(",ab");
    let segments = string.split_char(',');
    assert_eq!(segments.len(), 1);
    assert_eq!(segments.as_slice()[0].as_bytes(), b"ab");
}

#[test]
fn split_char_keeps_the_final_byte_in_the_last_segment() {
    let string = string::String::<16>::from("ab,");
    let segments = string.split_char(',');
    assert_eq!(segments.len(), 1);
    assert_eq!(segments.as_slice()[0].as_bytes(), b"ab,");
}

#[test]
fn split_char_on_interior_delimiters() {
    let string = string::String::<16>::from("a,b,c");
    let segments = string.split_char(',');
    assert_eq!(segments.len(), 3);
    assert_eq!(segments.as_slice()[0].as_bytes(), b"a");
    assert_eq!(segments.as_slice()[1].as_bytes(), b"b");
    assert_eq!(segments.as_slice()[2].as_bytes(), b"c");
}

#[test]
fn find_returns_the_first_occurrence() {
    let string = string::String::<128>::from("hello world! so so");
    assert_eq!(string.find("o s"), Some(14));
}

#[test]
fn find_prefix_is_zero_and_long_pattern_is_absent() {
    let string = string::String::<32>::from("pattern matching");
    assert_eq!(string.find("pat"), Some(0));
    assert_eq!(string.find("pattern matching and then some"), None);
    assert_eq!(string.find(""), None);
    assert_eq!(string.find("zzz"), None);
}

#[test]
fn contains_scenarios() {
    assert!(string::String::<32>::from("text, pattern").contains("pattern"));
    assert!(!string::String::<32>::from("text").contains("pattern"));
    assert!(string::String::<32>::from("anything").contains(""));
}

#[test]
fn replace_with_empty_pattern_is_identity() {
    let string = string::String::<32>::from("keep me intact");
    let replaced = string.replace("", "xyz");
    assert_eq!(replaced.as_bytes(), b"keep me intact");
}

#[test]
fn replace_rewrites_every_occurrence() {
    let string = string::String::<32>::from("so so so");
    let replaced = string.replace("so", "yes");
    assert_eq!(replaced.as_bytes(), b"yes yes yes");
    let shrunk = string.replace("so ", "");
    assert_eq!(shrunk.as_bytes(), b"so");
}

#[test]
fn slice_round_trips_the_byte_range() {
    let text = "slice me carefully";
    let string = string::String::<32>::from(text);
    let middle = string.slice(6, 8);
    assert_eq!(middle.as_bytes(), &text.as_bytes()[6..8]);

    let left = string.slice(0, 6);
    let right = string.slice(6, text.len());
    let mut rebuilt: std::vec::Vec<u8> = vec![];
    rebuilt.extend_from_slice(left.as_bytes());
    rebuilt.extend_from_slice(right.as_bytes());
    assert_eq!(rebuilt.as_slice(), text.as_bytes());
}

#[test]
fn eq_is_bytewise_equality() {
    let a = string::String::<16>::from("same");
    let b = string::String::<16>::from("same");
    let c = string::String::<16>::from("sane");
    let d = string::String::<16>::from("longer");
    assert!(a.eq(&b));
    assert!(!a.eq(&c));
    assert!(!a.eq(&d));
    assert!(string::String::<8>::new().eq(&string::String::<8>::new()));
}

#[test]
fn push_char_appends_utf8_bytes() {
    let mut string = string::String::<8>::new();
    string.push_char('a');
    string.push_char('\u{e9}');
    assert_eq!(string.as_bytes(), &[0x61, 0xc3, 0xa9]);
}

#[test]
fn push_str_appends_encoded_bytes() {
    let mut string = string::String::<16>::from("ab");
    string.push_str("cd\u{e9}");
    assert_eq!(string.as_bytes(), &[0x61, 0x62, 0x63, 0x64, 0xc3, 0xa9]);
    assert_eq!(string.len(), 6);
}

#[test]
fn from_utf8_accepts_valid_bytes_and_rejects_invalid_ones() {
    let good = vector::Vec::<u8, 8>::from_slice(&[0x68, 0x69]);
    let string = string::String::from_utf8(good).unwrap();
    assert_eq!(string.as_bytes(), b"hi");

    let bad = vector::Vec::<u8, 8>::from_slice(&[0xff, 0xfe]);
    let error = string::String::from_utf8(bad).unwrap_err();
    assert_eq!(error, "error occured while creating string from utf8");
}

#[test]
fn as_str_reports_encoding_errors() {
    let good = string::String::<8>::from_bytes(b"ok");
    assert_eq!(good.as_str().unwrap(), "ok");

    let bad = string::String::<8>::from_bytes(&[0xc3]);
    assert!(bad.as_str().is_err());
}

#[test]
fn byte_queries() {
    let string = string::String::<16>::from("word");
    assert_eq!(string.len(), 4);
    assert!(!string.is_empty());
    assert_eq!(string.get(0), Some(b'w'));
    assert_eq!(string.get(4), None);
    assert!(string.starts_with('w'));
    assert!(!string.starts_with('o'));
    assert!(string.ends_with('d'));
    assert!(!string.ends_with('r'));
    assert_eq!(string.find_char('r'), Some(2));
    assert_eq!(string.find_char('z'), None);
    assert!(!string.is_whitespace(1));
    assert!(string::String::<8>::from(" x").is_whitespace(0));
}
