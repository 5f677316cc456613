use luna_nspire::zip_writer::{
    tmz_date_to_dos_date, write_u16, write_u32, Deflated, TiZipWriter,
};

fn nothing() -> Deflated {
    Deflated { bytes: vec![], data_type: 0 }
}

#[test]
fn empty_archive_is_an_end_record() {
    let w = TiZipWriter::new(0);
    let out = w.close();
    let mut expected = b"TIPD".to_vec();
    expected.extend_from_slice(&[0; 18]);
    assert_eq!(out, expected);
}

#[test]
fn checksum_of_the_contents() {
    let mut w = TiZipWriter::new(0);
    w.add_processed_file("a.xml", b"123456789", 0x0500, &nothing());
    let out = w.written();
    assert_eq!(&out[..10], b"*TIMLP0500");
    assert_eq!(&out[20..24], &[0x26, 0x39, 0xf4, 0xcb]);
}

#[test]
fn archive_of_a_compressed_and_a_stored_member() {
    let mut w = TiZipWriter::new(0);
    let deflated = Deflated { bytes: vec![1, 2, 3], data_type: 1 };
    w.add_processed_file("a.txt", b"hello", 0x0500, &deflated);
    w.add_processed_file("b.BMP", b"BM", 0x0500, &Deflated { bytes: vec![9], data_type: 1 });
    let expected: [u8; 205] = [
        0x2a, 0x54, 0x49, 0x4d, 0x4c, 0x50, 0x30, 0x35, 0x30, 0x30, 0x14, 0x00,
        0x00, 0x00, 0x08, 0x00, 0x00, 0x00, 0x20, 0x00, 0x86, 0xa6, 0x10, 0x36,
        0x03, 0x00, 0x00, 0x00, 0x05, 0x00, 0x00, 0x00, 0x05, 0x00, 0x00, 0x00,
        0x61, 0x2e, 0x74, 0x78, 0x74, 0x01, 0x02, 0x03, 0x50, 0x4b, 0x03, 0x04,
        0x14, 0x00, 0x00, 0x00, 0x00, 0x00, 0x00, 0x00, 0x20, 0x00, 0x55, 0x02,
        0xfb, 0x8b, 0x02, 0x00, 0x00, 0x00, 0x02, 0x00, 0x00, 0x00, 0x05, 0x00,
        0x00, 0x00, 0x62, 0x2e, 0x42, 0x4d, 0x50, 0x42, 0x4d, 0x50, 0x4b, 0x01,
        0x02, 0x00, 0x00, 0x14, 0x00, 0x00, 0x00, 0x08, 0x00, 0x00, 0x00, 0x20,
        0x00, 0x86, 0xa6, 0x10, 0x36, 0x03, 0x00, 0x00, 0x00, 0x05, 0x00, 0x00,
        0x00, 0x05, 0x00, 0x00, 0x00, 0x00, 0x00, 0x00, 0x00, 0x01, 0x00, 0x00,
        0x00, 0x00, 0x00, 0x00, 0x00, 0x00, 0x00, 0x61, 0x2e, 0x74, 0x78, 0x74,
        0x50, 0x4b, 0x01, 0x02, 0x00, 0x00, 0x14, 0x00, 0x00, 0x00, 0x00, 0x00,
        0x00, 0x00, 0x20, 0x00, 0x55, 0x02, 0xfb, 0x8b, 0x02, 0x00, 0x00, 0x00,
        0x02, 0x00, 0x00, 0x00, 0x05, 0x00, 0x00, 0x00, 0x00, 0x00, 0x00, 0x00,
        0x00, 0x00, 0x00, 0x00, 0x00, 0x00, 0x2c, 0x00, 0x00, 0x00, 0x62, 0x2e,
        0x42, 0x4d, 0x50, 0x54, 0x49, 0x50, 0x44, 0x00, 0x00, 0x00, 0x00, 0x02,
        0x00, 0x02, 0x00, 0x66, 0x00, 0x00, 0x00, 0x51, 0x00, 0x00, 0x00, 0x00,
        0x00,
    ];
    assert_eq!(w.close(), expected.to_vec());
}

#[test]
fn offsets_count_from_the_start_of_the_file() {
    let mut w = TiZipWriter::new(0x1000);
    w.add_processed_file("a.xml", b"x", 0x0500, &nothing());
    let out = w.close();
    let end = out.len() - 22;
    // Local header 36, name 5, payload 1.
    assert_eq!(&out[end + 16..end + 20], &[0x2a, 0x10, 0, 0]);
    assert_eq!(&out[42 + 42..42 + 46], &[0, 0x10, 0, 0]);
}

#[test]
fn names_of_xml_files_in_any_case() {
    let mut w = TiZipWriter::new(0);
    w.add_processed_file("P.XML", b"data", 0x0500, &Deflated { bytes: vec![7], data_type: 1 });
    let out = w.written();
    // Method 13, stored as it is.
    assert_eq!(&out[14..16], &[0x0d, 0]);
    assert_eq!(&out[out.len() - 4..], b"data");
}

#[test]
fn names_outside_ascii_in_any_case() {
    let mut w = TiZipWriter::new(0);
    w.add_processed_file("\u{c4}.XML", b"data", 0x0500, &nothing());
    let out = w.written();
    assert_eq!(&out[14..16], &[0x0d, 0]);
    assert_eq!(&out[32..34], &[6, 0]);
}

#[test]
fn only_text_sets_the_attribute() {
    for (data_type, attr) in [(0, 0u8), (1, 1), (2, 0), (0x11, 1), (-15, 1)] {
        let mut w = TiZipWriter::new(0);
        w.add_processed_file("a", b"", 0x0500, &Deflated { bytes: vec![3, 0], data_type });
        let out = w.close();
        // Local header 36, name 1, payload 2.
        assert_eq!(out[39 + 36], attr);
    }
}

#[test]
fn version_in_hexadecimal() {
    for (version, digits) in
        [(0x0700, &b"0700"[..]), (0xabcd, b"ABCD"), (0, b"0000"), (0x12345, b"12345")]
    {
        let mut w = TiZipWriter::new(0);
        w.add_processed_file("a.xml", b"", version, &nothing());
        assert_eq!(&w.written()[6..6 + digits.len()], digits);
    }
}

#[test]
fn a_reader_finds_the_members() {
    let mut w = TiZipWriter::new(0);
    let names = ["Document.xml", "Problem1.xml", "main.py"];
    for name in names {
        w.add_processed_file(
            name,
            name.as_bytes(),
            0x0500,
            &Deflated { bytes: name.bytes().rev().collect(), data_type: 1 },
        );
    }
    let s = w.close();
    let u16_at = |at: usize| u16::from_le_bytes([s[at], s[at + 1]]) as usize;
    let u32_at = |at: usize| {
        u32::from_le_bytes([s[at], s[at + 1], s[at + 2], s[at + 3]]) as usize
    };
    let end = s.len() - 22;
    assert_eq!(u16_at(end + 10), 3);
    let mut at = u32_at(end + 16);
    for (i, name) in names.iter().enumerate() {
        assert_eq!(u32_at(at), 0x02014b50);
        let len = u16_at(at + 28);
        assert_eq!(&s[at + 46..at + 46 + len], name.as_bytes());
        let local = u32_at(at + 42);
        let fixed = local + if i == 0 { 10 } else { 4 };
        let begin = fixed + 26 + u16_at(fixed + 22) + u16_at(fixed + 24);
        let payload = &s[begin..begin + u32_at(at + 20)];
        if i < 2 {
            assert_eq!(payload, name.as_bytes());
        } else {
            let reversed: Vec<u8> = name.bytes().rev().collect();
            assert_eq!(payload, &reversed[..]);
        }
        at += 46 + len;
    }
    assert_eq!(at, end);
}

#[test]
fn dates() {
    assert_eq!(tmz_date_to_dos_date(0, 0, 0, 0, 0, 0), 0x0020_0000);
    // 31 December 2023, 23:59:58.
    let expected = ((31 + 32 * 12 + 512 * 43) << 16) | (29 + 32 * 59 + 2048 * 23);
    assert_eq!(tmz_date_to_dos_date(2023, 11, 31, 23, 59, 58), expected);
    assert_eq!(tmz_date_to_dos_date(123, 11, 31, 23, 59, 58), expected);
    assert_eq!(tmz_date_to_dos_date(79, 0, 1, 0, 0, 1), (1 + 32 + 512 * 79) << 16);
}

#[test]
fn little_endian_numbers() {
    let mut out = vec![0xff];
    write_u16(&mut out, 0x1234);
    write_u32(&mut out, 0x89ab_cdef);
    assert_eq!(out, vec![0xff, 0x34, 0x12, 0xef, 0xcd, 0xab, 0x89]);
}
