use luna_nspire::cdata::fix_cdata_end_seq;

fn fix(text: &[u8]) -> Vec<u8> {
    fix_cdata_end_seq(text.to_vec(), 0, text.len()).unwrap()
}

/// What a reader of CDATA sections gets.
fn read(text: &[u8]) -> Vec<u8> {
    let text = String::from_utf8(text.to_vec()).unwrap();
    text.replace("]]><![CDATA[", "").into_bytes()
}

#[test]
fn text_without_an_end_is_kept() {
    assert_eq!(fix(b"print('hi')"), b"print('hi')".to_vec());
    assert_eq!(fix(b""), b"".to_vec());
    assert_eq!(fix(b"]]"), b"]]".to_vec());
}

#[test]
fn an_end_is_split() {
    assert_eq!(fix(b"a]]>b"), b"a]]]]><![CDATA[>b".to_vec());
    assert_eq!(fix(b"]]>]]>"), b"]]]]><![CDATA[>]]]]><![CDATA[>".to_vec());
    assert_eq!(fix(b"]]]>"), b"]]]]]><![CDATA[>".to_vec());
}

#[test]
fn the_header_is_left_alone() {
    let out = fix_cdata_end_seq(b"]]>]]>tail".to_vec(), 3, 3).unwrap();
    assert_eq!(out, b"]]>]]]]><![CDATA[>".to_vec());
}

#[test]
fn split_text_reads_back() {
    for text in [&b"t[a[1]]>2"[..], b"]]>", b"if a[b[1]]>0 and c[d[2]]>0 then end"] {
        let fixed = fix(text);
        assert_eq!(read(&fixed), text.to_vec());
    }
}
