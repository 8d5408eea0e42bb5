use binspector::extract::{extract_ascii_strings, extract_utf16le_strings};

#[test]
fn ascii_extraction_basic() {
    let data = b"\x00hello\x20world\x00bad\xff";
    let got = extract_ascii_strings(data, 4);
    assert!(got.contains(&"hello world".to_string()));
    assert!(!got.contains(&"bad".to_string())); // filtered by min_len=4
}

#[test]
fn ascii_runs_are_maximal() {
    let data = b"ab\x00cdef\x01gh";
    let got = extract_ascii_strings(data, 2);
    assert_eq!(got, vec!["ab".to_string(), "cdef".to_string(), "gh".to_string()]);
}

#[test]
fn ascii_min_len_drops_short_runs() {
    let data = b"ab\x00cdef\x01gh";
    let got = extract_ascii_strings(data, 3);
    assert_eq!(got, vec!["cdef".to_string()]);
}

#[test]
fn ascii_tab_is_printable() {
    let data = b"a\tb\x00";
    let got = extract_ascii_strings(data, 3);
    assert_eq!(got, vec!["a\tb".to_string()]);
}

#[test]
fn ascii_strings_meet_min_len_and_are_printable() {
    let data = b"\x7fone two\x00\x80three\xfffour!\x02x";
    for s in extract_ascii_strings(data, 4) {
        assert!(s.len() >= 4);
        for c in s.chars() {
            assert!(c == '\t' || ('\x20'..='\x7e').contains(&c));
        }
    }
}

#[test]
fn ascii_zero_min_len_accepts_empty_runs() {
    let got = extract_ascii_strings(b"", 0);
    assert_eq!(got, vec!["".to_string()]);
}

#[test]
fn utf16_zero_min_len_on_empty_buffer_yields_nothing() {
    let got = extract_utf16le_strings(b"", 0);
    assert!(got.is_empty());
}

#[test]
fn utf16_extracts_little_endian_ascii() {
    let data = b"g\x00e\x00t\x00s\x00";
    let got = extract_utf16le_strings(data, 4);
    assert_eq!(got, vec!["gets".to_string()]);
}

#[test]
fn utf16_short_buffer_yields_nothing() {
    let data = b"g";
    let got = extract_utf16le_strings(data, 0);
    assert!(got.is_empty());
}

#[test]
fn utf16_trailing_odd_byte_is_ignored() {
    let data = b"a\x00b\x00c\x00x";
    let got = extract_utf16le_strings(data, 3);
    assert_eq!(got, vec!["abc".to_string()]);
}

#[test]
fn utf16_rejects_non_ascii_units() {
    // U+0100 is a valid character but outside the ASCII-graphic range.
    let data = b"a\x00\x00\x01b\x00c\x00";
    let got = extract_utf16le_strings(data, 2);
    assert_eq!(got, vec!["bc".to_string()]);
}

#[test]
fn utf16_round_trip_is_lossless() {
    let text = "call gets() now";
    let mut data: Vec<u8> = Vec::new();
    for unit in text.encode_utf16() {
        let lo = (unit & 0xff) as u8;
        let hi = (unit >> 8) as u8;
        data.push(lo);
        data.push(hi);
    }
    let got = extract_utf16le_strings(&data, 4);
    assert_eq!(got, vec![text.to_string()]);
}
