use luna_nspire::unicode::{escape_unicode, utf8_to_unicode};

fn escape(text: &[u8]) -> Vec<u8> {
    escape_unicode(text, 0, 0, text.len()).unwrap()
}

#[test]
fn sequences_of_each_width() {
    assert_eq!(utf8_to_unicode(b"A", 0, 1), (0x41, 1));
    assert_eq!(utf8_to_unicode("\u{e9}".as_bytes(), 0, 2), (0xe9, 2));
    assert_eq!(utf8_to_unicode("\u{20ac}".as_bytes(), 0, 3), (0x20ac, 3));
    assert_eq!(utf8_to_unicode("\u{1f600}".as_bytes(), 0, 4), (0x1f600, 4));
}

#[test]
fn sequences_that_are_cut_off() {
    assert_eq!(utf8_to_unicode(b"\xc3", 0, 1), (0xc0, 1));
    assert_eq!(utf8_to_unicode(b"\xe2\x82", 0, 2), (0x2080, 2));
    assert_eq!(utf8_to_unicode(b"\xf0\x9f\x98\x80", 0, 2), (0x1f000, 2));
    assert_eq!(utf8_to_unicode(b"\xf1\x9f\x98\x80", 0, 1), (0x40000, 1));
}

#[test]
fn bytes_that_start_no_sequence() {
    assert_eq!(utf8_to_unicode(b"\x80a", 0, 2), (0, 1));
    assert_eq!(utf8_to_unicode(b"\xff", 0, 1), (0, 1));
}

#[test]
fn nothing_at_the_end() {
    assert_eq!(utf8_to_unicode(b"abc", 3, 3), (0, 3));
    assert_eq!(utf8_to_unicode(b"abc", 2, 1), (0, 2));
}

#[test]
fn ascii_is_kept() {
    let text = b"<prob>1 + 1</prob>\x00\x7f";
    assert_eq!(escape(text), text.to_vec());
}

#[test]
fn escapes_of_each_width() {
    assert_eq!(escape("\u{e9}".as_bytes()), vec![0x00, 0xe9]);
    assert_eq!(escape("\u{7ff}".as_bytes()), vec![0x07, 0xff]);
    assert_eq!(escape("\u{800}".as_bytes()), vec![0x80, 0x08, 0x00]);
    assert_eq!(escape("\u{20ac}".as_bytes()), vec![0x80, 0x20, 0xac]);
    assert_eq!(escape("\u{1f600}".as_bytes()), vec![0x08, 0x01, 0xf6, 0x00]);
}

#[test]
fn escapes_of_cut_off_text_are_longer() {
    assert_eq!(escape(b"\xf0\x9f"), vec![0x08, 0x01, 0xf0, 0x00]);
    assert_eq!(escape(b"\xf1"), vec![0x08, 0x04, 0x00, 0x00]);
    assert_eq!(escape(b"\xff\x80a"), vec![0x00, 0x00, 0x61]);
}

#[test]
fn every_character_decodes_to_its_code_point() {
    for c in ['A', '\u{80}', '\u{e9}', '\u{7ff}', '\u{800}', '\u{5d5d}', '\u{10000}', '\u{10ffff}'] {
        let mut buf = [0u8; 4];
        let len = c.encode_utf8(&mut buf).len();
        assert_eq!(utf8_to_unicode(&buf, 0, len), (c as u32, len));
    }
}

#[test]
fn escaped_text_reads_back() {
    let text = "na\u{ef}ve \u{20ac} \u{1f600}\n";
    let e = escape(text.as_bytes());
    let mut read = String::new();
    let mut i = 0;
    while i < e.len() {
        let byte = |k: usize| e[i + k] as u32;
        let (code, len) = match e[i] {
            0..=7 => (256 * byte(0) + byte(1), 2),
            8 => (65536 * byte(1) + 256 * byte(2) + byte(3), 4),
            0x80 => (256 * byte(1) + byte(2), 3),
            _ => (byte(0), 1),
        };
        read.push(char::from_u32(code).unwrap());
        i += len;
    }
    assert_eq!(read, text);
}

#[test]
fn a_byte_order_mark_is_dropped() {
    assert_eq!(escape(b"\xef\xbb\xbfab"), b"ab".to_vec());
    assert_eq!(escape(b"a\xef\xbb\xbf").len(), 4);
}

#[test]
fn header_and_footer_of_an_escaped_text() {
    let out = escape_unicode(b"HEADtext", 4, 3, 4).unwrap();
    assert_eq!(out, b"HEADtext\0\0\0".to_vec());
    let out = escape_unicode(b"\xc3\xa9text!!", 2, 0, 4).unwrap();
    assert_eq!(out, b"\xc3\xa9text".to_vec());
}
