use luna_nspire::problem::{read_file_and_xml_compress, read_file_and_xml_compress_bytes};
use luna_nspire::templates::{LUA_FOOTER, LUA_HEADER, XML_HEADER};

#[test]
fn a_lua_script_is_wrapped() {
    let mut name = String::new();
    let out = read_file_and_xml_compress("dir/main.LUA", Some(b"x = 1".to_vec()), &mut name);
    assert_eq!(name, "Problem1.xml");
    let mut expected = LUA_HEADER.to_vec();
    expected.extend_from_slice(b"x = 1");
    expected.extend_from_slice(&LUA_FOOTER);
    assert_eq!(out, Some(expected));
}

#[test]
fn the_parts_around_a_lua_script() {
    assert!(LUA_HEADER.starts_with(b"TIXC0100-1.0?><prob xmlns=\"urn:TI.P"));
    assert!(LUA_HEADER.ends_with(b"<sc:script version=\"512\" id=\"0\"><![CDATA["));
    assert_eq!(&LUA_FOOTER, b"]]>\x0e\x08\x0e\x05\x0e\x02\x0e\x00");
}

#[test]
fn standard_input_is_lua() {
    let mut name = String::new();
    let out = read_file_and_xml_compress("-", Some(b"a]]>b".to_vec()), &mut name).unwrap();
    assert_eq!(name, "Problem1.xml");
    let body = &out[LUA_HEADER.len()..out.len() - LUA_FOOTER.len()];
    assert_eq!(body, b"a]]]]><![CDATA[>b");
}

#[test]
fn other_files_are_kept() {
    let mut name = String::new();
    let out = read_file_and_xml_compress("a/b/main.py", Some(b"]]>\xff".to_vec()), &mut name);
    assert_eq!(name, "main.py");
    assert_eq!(out, Some(b"]]>\xff".to_vec()));
}

#[test]
fn an_xml_file_is_compacted() {
    let mut name = String::new();
    let out = read_file_and_xml_compress(
        "x/Problem2.xml",
        Some(b"<?xml?><prob><a>1</a></prob>".to_vec()),
        &mut name,
    );
    assert_eq!(name, "Problem2.xml");
    assert_eq!(out, Some(b"TIXC0100-1.0?><prob><a>1\x0e\x01\x0e\x00".to_vec()));
}

#[test]
fn bad_xml_and_missing_contents() {
    let mut name = String::new();
    assert_eq!(read_file_and_xml_compress("a.xml", Some(b"<x></x>".to_vec()), &mut name), None);
    assert_eq!(name, "a.xml");
    assert_eq!(read_file_and_xml_compress("a.lua", None, &mut name), None);
    assert_eq!(name, "Problem1.xml");
    assert_eq!(read_file_and_xml_compress("a.py", None, &mut name), None);
    assert_eq!(name, "a.py");
}

#[test]
fn xml_from_bytes() {
    let mut name = String::new();
    let out = read_file_and_xml_compress_bytes(
        "\u{feff}<prob>\u{20ac}</prob>".as_bytes(),
        &mut name,
    );
    assert_eq!(name, "Problem1.xml");
    let mut expected = XML_HEADER.to_vec();
    expected.extend_from_slice(b"<prob>\x80\x20\xac\x0e\x00");
    assert_eq!(out, Some(expected));
}

#[test]
fn cut_off_text_loses_what_does_not_fit() {
    let mut name = String::new();
    let out = read_file_and_xml_compress_bytes(b"<prob>\xf0\x9f", &mut name);
    assert_eq!(out, Some(b"TIXC0100-1.0?><prob>\x08\x01".to_vec()));
}
