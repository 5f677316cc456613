//! Fixed parts of a document.
//!
//! Each part is a constant and a name for its bytes. Proofs that need the
//! bytes themselves get them from the lemma that goes with the name.

use vstd::prelude::*;
use vstd::utf8::{encode_utf8, is_ascii_chars_encode_utf8};

use crate::bytes::append_bytes;

verus! {

/// What stands before a script in a Lua problem. It ends with `<![CDATA[`.
pub const LUA_HEADER: [u8; 280] = [
    0x54, 0x49, 0x58, 0x43, 0x30, 0x31, 0x30, 0x30, 0x2d, 0x31, 0x2e, 0x30, 0x3f, 0x3e, 0x3c, 0x70,
    0x72, 0x6f, 0x62, 0x20, 0x78, 0x6d, 0x6c, 0x6e, 0x73, 0x3d, 0x22, 0x75, 0x72, 0x6e, 0x3a, 0x54,
    0x49, 0x2e, 0x50, 0xa8, 0x5f, 0x5b, 0x1f, 0x0a, 0x22, 0x20, 0x76, 0x65, 0x72, 0x3d, 0x22, 0x31,
    0x2e, 0x30, 0x22, 0x20, 0x70, 0x62, 0x6e, 0x61, 0x6d, 0x65, 0x3d, 0x22, 0x22, 0x3e, 0x3c, 0x73,
    0x79, 0x6d, 0x3e, 0x0e, 0x01, 0x3c, 0x63, 0x61, 0x72, 0x64, 0x20, 0x63, 0x6c, 0x61, 0x79, 0x3d,
    0x22, 0x30, 0x22, 0x20, 0x68, 0x31, 0x3d, 0x22, 0xf1, 0x00, 0x00, 0xff, 0x22, 0x20, 0x68, 0x32,
    0x3d, 0x22, 0xf1, 0x00, 0x00, 0xff, 0x22, 0x20, 0x77, 0x31, 0x3d, 0x22, 0xf1, 0x00, 0x00, 0xff,
    0x22, 0x20, 0x77, 0x32, 0x3d, 0x22, 0xf1, 0x00, 0x00, 0xff, 0x22, 0x3e, 0x3c, 0x69, 0x73, 0x44,
    0x75, 0x6d, 0x6d, 0x79, 0x43, 0x61, 0x72, 0x64, 0x3e, 0x30, 0x0e, 0x03, 0x3c, 0x66, 0x6c, 0x61,
    0x67, 0x3e, 0x30, 0x0e, 0x04, 0x3c, 0x77, 0x64, 0x67, 0x74, 0x20, 0x78, 0x6d, 0x6c, 0x6e, 0x73,
    0x3a, 0x73, 0x63, 0x3d, 0x22, 0x75, 0x72, 0x6e, 0x3a, 0x54, 0x49, 0x2e, 0x53, 0xac, 0x84, 0xf2,
    0x2a, 0x41, 0x70, 0x70, 0x22, 0x20, 0x74, 0x79, 0x70, 0x65, 0x3d, 0x22, 0x54, 0x49, 0x2e, 0x53,
    0xac, 0x84, 0xf2, 0x2a, 0x41, 0x70, 0x70, 0x22, 0x20, 0x76, 0x65, 0x72, 0x3d, 0x22, 0x31, 0x2e,
    0x30, 0x22, 0x3e, 0x3c, 0x73, 0x63, 0x3a, 0x6d, 0x46, 0x6c, 0x61, 0x67, 0x73, 0x3e, 0x30, 0x0e,
    0x06, 0x3c, 0x73, 0x63, 0x3a, 0x76, 0x61, 0x6c, 0x75, 0x65, 0x3e, 0x2d, 0x31, 0x0e, 0x07, 0x3c,
    0x73, 0x63, 0x3a, 0x73, 0x63, 0x72, 0x69, 0x70, 0x74, 0x20, 0x76, 0x65, 0x72, 0x73, 0x69, 0x6f,
    0x6e, 0x3d, 0x22, 0x35, 0x31, 0x32, 0x22, 0x20, 0x69, 0x64, 0x3d, 0x22, 0x30, 0x22, 0x3e, 0x3c,
    0x21, 0x5b, 0x43, 0x44, 0x41, 0x54, 0x41, 0x5b,
];

/// What stands behind a script in a Lua problem. It starts with `]]>`.
pub const LUA_FOOTER: [u8; 11] = [
    0x5d, 0x5d, 0x3e, 0x0e, 0x08, 0x0e, 0x05, 0x0e, 0x02, 0x0e, 0x00,
];

/// What stands before compact XML: `TIXC0100-1.0?>`.
pub const XML_HEADER: [u8; 14] = [
    0x54, 0x49, 0x58, 0x43, 0x30, 0x31, 0x30, 0x30, 0x2d, 0x31, 0x2e, 0x30, 0x3f, 0x3e,
];

/// What stands before the file name in a Python problem.
pub const PYTHON_HEADER: [u8; 242] = [
    0x54, 0x49, 0x58, 0x43, 0x30, 0x31, 0x30, 0x30, 0x2d, 0x31, 0x2e, 0x30, 0x3f, 0x3e, 0x3c, 0x70,
    0x72, 0x6f, 0x62, 0x20, 0x78, 0x6d, 0x6c, 0x6e, 0x73, 0x3d, 0x22, 0x75, 0x72, 0x6e, 0x3a, 0x54,
    0x49, 0x2e, 0x50, 0x72, 0x6f, 0x62, 0x6c, 0x65, 0x6d, 0x22, 0x20, 0x76, 0x65, 0x72, 0x3d, 0x22,
    0x31, 0x2e, 0x30, 0x22, 0x20, 0x70, 0x62, 0x6e, 0x61, 0x6d, 0x65, 0x3d, 0x22, 0x22, 0x3e, 0x3c,
    0x73, 0x79, 0x6d, 0x3e, 0x0e, 0x01, 0x3c, 0x63, 0x61, 0x72, 0x64, 0x20, 0x63, 0x6c, 0x61, 0x79,
    0x3d, 0x22, 0x30, 0x22, 0x20, 0x68, 0x31, 0x3d, 0x22, 0x31, 0x30, 0x30, 0x30, 0x30, 0x22, 0x20,
    0x68, 0x32, 0x3d, 0x22, 0x31, 0x30, 0x30, 0x30, 0x30, 0x22, 0x20, 0x77, 0x31, 0x3d, 0x22, 0x31,
    0x30, 0x30, 0x30, 0x30, 0x22, 0x20, 0x77, 0x32, 0x3d, 0x22, 0x31, 0x30, 0x30, 0x30, 0x30, 0x22,
    0x3e, 0x3c, 0x69, 0x73, 0x44, 0x75, 0x6d, 0x6d, 0x79, 0x43, 0x61, 0x72, 0x64, 0x3e, 0x30, 0x0e,
    0x03, 0x3c, 0x66, 0x6c, 0x61, 0x67, 0x3e, 0x30, 0x0e, 0x04, 0x3c, 0x77, 0x64, 0x67, 0x74, 0x20,
    0x78, 0x6d, 0x6c, 0x6e, 0x73, 0x3a, 0x70, 0x79, 0x3d, 0x22, 0x75, 0x72, 0x6e, 0x3a, 0x54, 0x49,
    0x2e, 0x50, 0x79, 0x74, 0x68, 0x6f, 0x6e, 0x45, 0x64, 0x69, 0x74, 0x6f, 0x72, 0x22, 0x20, 0x74,
    0x79, 0x70, 0x65, 0x3d, 0x22, 0x54, 0x49, 0x2e, 0x50, 0x79, 0x74, 0x68, 0x6f, 0x6e, 0x45, 0x64,
    0x69, 0x74, 0x6f, 0x72, 0x22, 0x20, 0x76, 0x65, 0x72, 0x3d, 0x22, 0x31, 0x2e, 0x30, 0x22, 0x3e,
    0x3c, 0x70, 0x79, 0x3a, 0x64, 0x61, 0x74, 0x61, 0x3e, 0x3c, 0x70, 0x79, 0x3a, 0x6e, 0x61, 0x6d,
    0x65, 0x3e,
];

/// What stands behind the file name in a Python problem.
pub const PYTHON_FOOTER: [u8; 61] = [
    0x0e, 0x07, 0x3c, 0x70, 0x79, 0x3a, 0x64, 0x69, 0x72, 0x66, 0x3e, 0x2d, 0x31, 0x30, 0x30, 0x30,
    0x30, 0x30, 0x30, 0x30, 0x0e, 0x08, 0x0e, 0x06, 0x3c, 0x70, 0x79, 0x3a, 0x6d, 0x46, 0x6c, 0x61,
    0x67, 0x73, 0x3e, 0x31, 0x30, 0x32, 0x34, 0x0e, 0x09, 0x3c, 0x70, 0x79, 0x3a, 0x76, 0x61, 0x6c,
    0x75, 0x65, 0x3e, 0x31, 0x30, 0x0e, 0x0a, 0x0e, 0x05, 0x0e, 0x02, 0x0e, 0x00,
];

/// The `Document.xml` of every document, compressed and encrypted.
pub const DEFAULT_PROCESSED_DOCUMENT_XML: [u8; 304] = [
    0x0f, 0xce, 0xd8, 0xd2, 0x81, 0x06, 0x86, 0x5b, 0x4a, 0x4a, 0xc5, 0xce, 0xa9, 0x16, 0xf2, 0xd5,
    0x1d, 0xa8, 0x2f, 0x6e, 0x00, 0x22, 0xf2, 0xf0, 0xc1, 0xa6, 0x06, 0x77, 0x4d, 0x7e, 0xa6, 0xc0,
    0x3a, 0xf0, 0x5c, 0x74, 0xba, 0xaa, 0x44, 0x60, 0xcd, 0x58, 0xe6, 0x70, 0xd7, 0x40, 0xf6, 0x9c,
    0x17, 0xdc, 0xf0, 0x94, 0x77, 0xbf, 0xca, 0xde, 0xf7, 0x02, 0x09, 0xc9, 0x62, 0xb1, 0x5d, 0xef,
    0x22, 0xfa, 0x51, 0x37, 0xa0, 0x81, 0x91, 0x48, 0xe1, 0x83, 0x4d, 0xad, 0x08, 0x31, 0x2d, 0xd0,
    0xd3, 0xe3, 0x2d, 0x60, 0xab, 0x13, 0xc2, 0x98, 0x2b, 0xed, 0x39, 0x5b, 0x09, 0x24, 0x39, 0x92,
    0x2f, 0x0c, 0x7a, 0x4c, 0x95, 0x74, 0x91, 0x3b, 0x0c, 0xf4, 0x60, 0xcc, 0x73, 0x27, 0xcb, 0x07,
    0x7e, 0x7f, 0xa9, 0x17, 0x87, 0xe2, 0xac, 0xa2, 0x3b, 0xcc, 0xa0, 0xc4, 0xe3, 0x8e, 0x89, 0xf0,
    0xc0, 0x51, 0x9f, 0xc2, 0xbe, 0xce, 0x28, 0x45, 0xc3, 0xd4, 0x11, 0x90, 0xa6, 0xec, 0x53, 0xa0,
    0xfb, 0x5b, 0x46, 0x6b, 0x41, 0xad, 0xe9, 0x53, 0xbb, 0x97, 0xdb, 0xb1, 0xd2, 0x68, 0xe2, 0xf6,
    0x36, 0x0f, 0x26, 0x36, 0x75, 0x9b, 0xe9, 0x1f, 0x48, 0xad, 0xe9, 0x29, 0x67, 0x00, 0x58, 0x19,
    0xc3, 0xc0, 0x12, 0x76, 0xa0, 0x4a, 0x73, 0xf3, 0xb1, 0xd3, 0x09, 0x18, 0xd6, 0x06, 0xdd, 0x97,
    0x24, 0x53, 0x3e, 0x22, 0xa4, 0xfb, 0x82, 0x50, 0x7b, 0x7c, 0x12, 0x88, 0x4e, 0x7d, 0x41, 0x80,
    0xfe, 0x72, 0x92, 0x29, 0x87, 0xe8, 0x5c, 0x56, 0x72, 0xff, 0x29, 0x16, 0x8c, 0x42, 0x5b, 0x8b,
    0x9b, 0xa7, 0xd2, 0x08, 0x6d, 0xd3, 0x98, 0xff, 0x91, 0xa9, 0x9e, 0xf3, 0x93, 0xa8, 0x2e, 0x1c,
    0xb2, 0xa9, 0x6b, 0x6a, 0xdf, 0xf6, 0xce, 0x2d, 0x15, 0x17, 0xce, 0x6e, 0xc0, 0x4f, 0x9a, 0x9c,
    0x0e, 0xdf, 0x19, 0x8d, 0x2d, 0xfa, 0x69, 0x9f, 0x11, 0xd2, 0x20, 0x12, 0xe0, 0x79, 0x14, 0x04,
    0x4e, 0x62, 0x8f, 0x0a, 0x2a, 0x18, 0x72, 0x5a, 0x8b, 0x80, 0xb3, 0x3c, 0x9b, 0xd5, 0x67, 0x59,
    0x4b, 0x51, 0x4d, 0xe0, 0xc3, 0x38, 0x28, 0xc3, 0xdc, 0xcd, 0x39, 0x22, 0x12, 0x8c, 0x40, 0x55,
];

/// What stands before compressed and encrypted XML.
pub const TIEN_CRYPTED_HEADER: [u8; 40] = [
    0x0f, 0xce, 0xd8, 0xd2, 0x81, 0x06, 0x86, 0x5b, 0x99, 0xdd, 0xa2, 0x3d, 0xd9, 0xe9, 0x4b, 0xd4,
    0x31, 0xbb, 0x50, 0xb6, 0x4d, 0xb3, 0x29, 0x24, 0x70, 0x60, 0x49, 0x38, 0x1c, 0x30, 0xf8, 0x99,
    0x00, 0x4b, 0x92, 0x64, 0xe4, 0x58, 0xe6, 0xbc,
];

/// The bytes of [`LUA_HEADER`].
pub closed spec fn lua_header() -> Seq<u8> {
    LUA_HEADER@
}

/// Gives the bytes of [`LUA_HEADER`].
pub proof fn lemma_lua_header()
    ensures
        lua_header() == LUA_HEADER@,
{
}

/// Appends [`LUA_HEADER`] to `out`.
pub fn append_lua_header(out: &mut Vec<u8>)
    ensures
        final(out)@ == old(out)@ + lua_header(),
{
    append_bytes(out, &LUA_HEADER);
}

/// The bytes of [`LUA_FOOTER`].
pub closed spec fn lua_footer() -> Seq<u8> {
    LUA_FOOTER@
}

/// Gives the bytes of [`LUA_FOOTER`].
pub proof fn lemma_lua_footer()
    ensures
        lua_footer() == LUA_FOOTER@,
{
}

/// Appends [`LUA_FOOTER`] to `out`.
pub fn append_lua_footer(out: &mut Vec<u8>)
    ensures
        final(out)@ == old(out)@ + lua_footer(),
{
    append_bytes(out, &LUA_FOOTER);
}

/// The bytes of [`XML_HEADER`].
pub closed spec fn xml_header() -> Seq<u8> {
    XML_HEADER@
}

/// Gives the bytes of [`XML_HEADER`].
pub proof fn lemma_xml_header()
    ensures
        xml_header() == XML_HEADER@,
{
}

/// Appends [`XML_HEADER`] to `out`.
pub fn append_xml_header(out: &mut Vec<u8>)
    ensures
        final(out)@ == old(out)@ + xml_header(),
{
    append_bytes(out, &XML_HEADER);
}

/// The bytes of [`PYTHON_HEADER`].
pub closed spec fn python_header() -> Seq<u8> {
    PYTHON_HEADER@
}

/// Gives the bytes of [`PYTHON_HEADER`].
pub proof fn lemma_python_header()
    ensures
        python_header() == PYTHON_HEADER@,
{
}

/// Appends [`PYTHON_HEADER`] to `out`.
pub fn append_python_header(out: &mut Vec<u8>)
    ensures
        final(out)@ == old(out)@ + python_header(),
{
    append_bytes(out, &PYTHON_HEADER);
}

/// The bytes of [`PYTHON_FOOTER`].
pub closed spec fn python_footer() -> Seq<u8> {
    PYTHON_FOOTER@
}

/// Gives the bytes of [`PYTHON_FOOTER`].
pub proof fn lemma_python_footer()
    ensures
        python_footer() == PYTHON_FOOTER@,
{
}

/// Appends [`PYTHON_FOOTER`] to `out`.
pub fn append_python_footer(out: &mut Vec<u8>)
    ensures
        final(out)@ == old(out)@ + python_footer(),
{
    append_bytes(out, &PYTHON_FOOTER);
}

/// The bytes of [`DEFAULT_PROCESSED_DOCUMENT_XML`].
pub closed spec fn default_document() -> Seq<u8> {
    DEFAULT_PROCESSED_DOCUMENT_XML@
}

/// Gives the bytes of [`DEFAULT_PROCESSED_DOCUMENT_XML`].
pub proof fn lemma_default_document()
    ensures
        default_document() == DEFAULT_PROCESSED_DOCUMENT_XML@,
{
}

/// Appends [`DEFAULT_PROCESSED_DOCUMENT_XML`] to `out`.
pub fn append_default_document(out: &mut Vec<u8>)
    ensures
        final(out)@ == old(out)@ + default_document(),
{
    append_bytes(out, &DEFAULT_PROCESSED_DOCUMENT_XML);
}

/// The bytes of [`TIEN_CRYPTED_HEADER`].
pub closed spec fn tien_header() -> Seq<u8> {
    TIEN_CRYPTED_HEADER@
}

/// Gives the bytes of [`TIEN_CRYPTED_HEADER`].
pub proof fn lemma_tien_header()
    ensures
        tien_header() == TIEN_CRYPTED_HEADER@,
{
}

/// Appends [`TIEN_CRYPTED_HEADER`] to `out`.
pub fn append_tien_header(out: &mut Vec<u8>)
    ensures
        final(out)@ == old(out)@ + tien_header(),
{
    append_bytes(out, &TIEN_CRYPTED_HEADER);
}

/// How long the pieces are that go into a document as they are.
pub proof fn lemma_lengths()
    ensures
        default_document().len() == 304,
        tien_header().len() == 40,
{
}

/// What stands before a script: problem, card and widget up to the section of the
/// script. Some names and numbers are in the form that the calculator packs them in.
pub proof fn law_lua_header_text()
    ensures
        lua_header() == encode_utf8("TIXC0100-1.0?><prob xmlns=\"urn:TI.P"@)
            + seq![0xa8u8]
            + encode_utf8("_[\x1f\n\" ver=\"1.0\" pbname=\"\"><sym>\x0e\x01<card clay=\"0\" h1=\""@)
            + seq![0xf1u8, 0x00, 0x00, 0xff]
            + encode_utf8("\" h2=\""@)
            + seq![0xf1u8, 0x00, 0x00, 0xff]
            + encode_utf8("\" w1=\""@)
            + seq![0xf1u8, 0x00, 0x00, 0xff]
            + encode_utf8("\" w2=\""@)
            + seq![0xf1u8, 0x00, 0x00, 0xff]
            + encode_utf8("\"><isDummyCard>0\x0e\x03<flag>0\x0e\x04<wdgt xmlns:sc=\"urn:TI.S"@)
            + seq![0xacu8, 0x84, 0xf2]
            + encode_utf8("*App\" type=\"TI.S"@)
            + seq![0xacu8, 0x84, 0xf2]
            + encode_utf8("*App\" ver=\"1.0\"><sc:mFlags>0\x0e\x06<sc:value>-1\x0e\x07<sc:script version=\"512\" i"@)
            + encode_utf8("d=\"0\"><![CDATA["@),
{
    reveal_strlit("TIXC0100-1.0?><prob xmlns=\"urn:TI.P");
    is_ascii_chars_encode_utf8("TIXC0100-1.0?><prob xmlns=\"urn:TI.P"@);
    reveal_strlit("_[\x1f\n\" ver=\"1.0\" pbname=\"\"><sym>\x0e\x01<card clay=\"0\" h1=\"");
    is_ascii_chars_encode_utf8("_[\x1f\n\" ver=\"1.0\" pbname=\"\"><sym>\x0e\x01<card clay=\"0\" h1=\""@);
    reveal_strlit("\" h2=\"");
    is_ascii_chars_encode_utf8("\" h2=\""@);
    reveal_strlit("\" w1=\"");
    is_ascii_chars_encode_utf8("\" w1=\""@);
    reveal_strlit("\" w2=\"");
    is_ascii_chars_encode_utf8("\" w2=\""@);
    reveal_strlit("\"><isDummyCard>0\x0e\x03<flag>0\x0e\x04<wdgt xmlns:sc=\"urn:TI.S");
    is_ascii_chars_encode_utf8("\"><isDummyCard>0\x0e\x03<flag>0\x0e\x04<wdgt xmlns:sc=\"urn:TI.S"@);
    reveal_strlit("*App\" type=\"TI.S");
    is_ascii_chars_encode_utf8("*App\" type=\"TI.S"@);
    reveal_strlit("*App\" ver=\"1.0\"><sc:mFlags>0\x0e\x06<sc:value>-1\x0e\x07<sc:script version=\"512\" i");
    is_ascii_chars_encode_utf8("*App\" ver=\"1.0\"><sc:mFlags>0\x0e\x06<sc:value>-1\x0e\x07<sc:script version=\"512\" i"@);
    reveal_strlit("d=\"0\"><![CDATA[");
    is_ascii_chars_encode_utf8("d=\"0\"><![CDATA["@);
    assert(lua_header() =~= encode_utf8("TIXC0100-1.0?><prob xmlns=\"urn:TI.P"@)
        + seq![0xa8u8]
        + encode_utf8("_[\x1f\n\" ver=\"1.0\" pbname=\"\"><sym>\x0e\x01<card clay=\"0\" h1=\""@)
        + seq![0xf1u8, 0x00, 0x00, 0xff]
        + encode_utf8("\" h2=\""@)
        + seq![0xf1u8, 0x00, 0x00, 0xff]
        + encode_utf8("\" w1=\""@)
        + seq![0xf1u8, 0x00, 0x00, 0xff]
        + encode_utf8("\" w2=\""@)
        + seq![0xf1u8, 0x00, 0x00, 0xff]
        + encode_utf8("\"><isDummyCard>0\x0e\x03<flag>0\x0e\x04<wdgt xmlns:sc=\"urn:TI.S"@)
        + seq![0xacu8, 0x84, 0xf2]
        + encode_utf8("*App\" type=\"TI.S"@)
        + seq![0xacu8, 0x84, 0xf2]
        + encode_utf8("*App\" ver=\"1.0\"><sc:mFlags>0\x0e\x06<sc:value>-1\x0e\x07<sc:script version=\"512\" i"@)
        + encode_utf8("d=\"0\"><![CDATA["@));
}

/// What stands behind a script closes the section and the elements 8, 5, 2 and 0.
pub proof fn law_lua_footer_text()
    ensures
        lua_footer() == encode_utf8("]]>\x0e\x08\x0e\x05\x0e\x02\x0e\x00"@),
{
    reveal_strlit("]]>\x0e\x08\x0e\x05\x0e\x02\x0e\x00");
    is_ascii_chars_encode_utf8("]]>\x0e\x08\x0e\x05\x0e\x02\x0e\x00"@);
    assert(lua_footer() =~= encode_utf8("]]>\x0e\x08\x0e\x05\x0e\x02\x0e\x00"@));
}

/// What stands before compact XML.
pub proof fn law_xml_header_text()
    ensures
        xml_header() == encode_utf8("TIXC0100-1.0?>"@),
{
    reveal_strlit("TIXC0100-1.0?>");
    is_ascii_chars_encode_utf8("TIXC0100-1.0?>"@);
    assert(xml_header() =~= encode_utf8("TIXC0100-1.0?>"@));
}

/// What stands before the name of a Python script: problem, card and editor.
pub proof fn law_python_header_text()
    ensures
        python_header() == encode_utf8("TIXC0100-1.0?><prob xmlns=\"urn:TI.Problem\" ver=\"1.0\" pbname=\"\"><sym>\x0e\x01"@)
            + encode_utf8("<card clay=\"0\" h1=\"10000\" h2=\"10000\" w1=\"10000\" w2=\"10000\"><isDummyCar"@)
            + encode_utf8("d>0\x0e\x03<flag>0\x0e\x04<wdgt xmlns:py=\"urn:TI.PythonEditor\" type=\"TI.PythonEdit"@)
            + encode_utf8("or\" ver=\"1.0\"><py:data><py:name>"@),
{
    reveal_strlit("TIXC0100-1.0?><prob xmlns=\"urn:TI.Problem\" ver=\"1.0\" pbname=\"\"><sym>\x0e\x01");
    is_ascii_chars_encode_utf8("TIXC0100-1.0?><prob xmlns=\"urn:TI.Problem\" ver=\"1.0\" pbname=\"\"><sym>\x0e\x01"@);
    reveal_strlit("<card clay=\"0\" h1=\"10000\" h2=\"10000\" w1=\"10000\" w2=\"10000\"><isDummyCar");
    is_ascii_chars_encode_utf8("<card clay=\"0\" h1=\"10000\" h2=\"10000\" w1=\"10000\" w2=\"10000\"><isDummyCar"@);
    reveal_strlit("d>0\x0e\x03<flag>0\x0e\x04<wdgt xmlns:py=\"urn:TI.PythonEditor\" type=\"TI.PythonEdit");
    is_ascii_chars_encode_utf8("d>0\x0e\x03<flag>0\x0e\x04<wdgt xmlns:py=\"urn:TI.PythonEditor\" type=\"TI.PythonEdit"@);
    reveal_strlit("or\" ver=\"1.0\"><py:data><py:name>");
    is_ascii_chars_encode_utf8("or\" ver=\"1.0\"><py:data><py:name>"@);
    assert(python_header() =~= encode_utf8("TIXC0100-1.0?><prob xmlns=\"urn:TI.Problem\" ver=\"1.0\" pbname=\"\"><sym>\x0e\x01"@)
        + encode_utf8("<card clay=\"0\" h1=\"10000\" h2=\"10000\" w1=\"10000\" w2=\"10000\"><isDummyCar"@)
        + encode_utf8("d>0\x0e\x03<flag>0\x0e\x04<wdgt xmlns:py=\"urn:TI.PythonEditor\" type=\"TI.PythonEdit"@)
        + encode_utf8("or\" ver=\"1.0\"><py:data><py:name>"@));
}

/// What stands behind the name of a Python script.
pub proof fn law_python_footer_text()
    ensures
        python_footer() == encode_utf8("\x0e\x07<py:dirf>-10000000\x0e\x08\x0e\x06<py:mFlags>1024\x0e\x09<py:value>10\x0e\n\x0e\x05\x0e\x02\x0e\x00"@),
{
    reveal_strlit("\x0e\x07<py:dirf>-10000000\x0e\x08\x0e\x06<py:mFlags>1024\x0e\x09<py:value>10\x0e\n\x0e\x05\x0e\x02\x0e\x00");
    is_ascii_chars_encode_utf8("\x0e\x07<py:dirf>-10000000\x0e\x08\x0e\x06<py:mFlags>1024\x0e\x09<py:value>10\x0e\n\x0e\x05\x0e\x02\x0e\x00"@);
    assert(python_footer() =~= encode_utf8("\x0e\x07<py:dirf>-10000000\x0e\x08\x0e\x06<py:mFlags>1024\x0e\x09<py:value>10\x0e\n\x0e\x05\x0e\x02\x0e\x00"@));
}

/// Eight bytes of `t` from `at` on as one number, the first byte highest.
pub open spec fn word_at(t: Seq<u8>, at: int) -> int {
    t[at] * 0x100_0000_0000_0000 + t[at + 1] * 0x1_0000_0000_0000 + t[at + 2] * 0x100_0000_0000 + t[at
        + 3] * 0x1_0000_0000 + t[at + 4] * 0x100_0000 + t[at + 5] * 0x1_0000 + t[at + 6] * 0x100
        + t[at + 7]
}

/// The encrypted `Document.xml`, eight bytes at a time.
pub proof fn law_default_document_words()
    ensures
        default_document().len() == 304,
        word_at(default_document(), 0) == 0x0fce_d8d2_8106_865b,
        word_at(default_document(), 8) == 0x4a4a_c5ce_a916_f2d5,
        word_at(default_document(), 16) == 0x1da8_2f6e_0022_f2f0,
        word_at(default_document(), 24) == 0xc1a6_0677_4d7e_a6c0,
        word_at(default_document(), 32) == 0x3af0_5c74_baaa_4460,
        word_at(default_document(), 40) == 0xcd58_e670_d740_f69c,
        word_at(default_document(), 48) == 0x17dc_f094_77bf_cade,
        word_at(default_document(), 56) == 0xf702_09c9_62b1_5def,
        word_at(default_document(), 64) == 0x22fa_5137_a081_9148,
        word_at(default_document(), 72) == 0xe183_4dad_0831_2dd0,
        word_at(default_document(), 80) == 0xd3e3_2d60_ab13_c298,
        word_at(default_document(), 88) == 0x2bed_395b_0924_3992,
        word_at(default_document(), 96) == 0x2f0c_7a4c_9574_913b,
        word_at(default_document(), 104) == 0x0cf4_60cc_7327_cb07,
        word_at(default_document(), 112) == 0x7e7f_a917_87e2_aca2,
        word_at(default_document(), 120) == 0x3bcc_a0c4_e38e_89f0,
        word_at(default_document(), 128) == 0xc051_9fc2_bece_2845,
        word_at(default_document(), 136) == 0xc3d4_1190_a6ec_53a0,
        word_at(default_document(), 144) == 0xfb5b_466b_41ad_e953,
        word_at(default_document(), 152) == 0xbb97_dbb1_d268_e2f6,
        word_at(default_document(), 160) == 0x360f_2636_759b_e91f,
        word_at(default_document(), 168) == 0x48ad_e929_6700_5819,
        word_at(default_document(), 176) == 0xc3c0_1276_a04a_73f3,
        word_at(default_document(), 184) == 0xb1d3_0918_d606_dd97,
        word_at(default_document(), 192) == 0x2453_3e22_a4fb_8250,
        word_at(default_document(), 200) == 0x7b7c_1288_4e7d_4180,
        word_at(default_document(), 208) == 0xfe72_9229_87e8_5c56,
        word_at(default_document(), 216) == 0x72ff_2916_8c42_5b8b,
        word_at(default_document(), 224) == 0x9ba7_d208_6dd3_98ff,
        word_at(default_document(), 232) == 0x91a9_9ef3_93a8_2e1c,
        word_at(default_document(), 240) == 0xb2a9_6b6a_dff6_ce2d,
        word_at(default_document(), 248) == 0x1517_ce6e_c04f_9a9c,
        word_at(default_document(), 256) == 0x0edf_198d_2dfa_699f,
        word_at(default_document(), 264) == 0x11d2_2012_e079_1404,
        word_at(default_document(), 272) == 0x4e62_8f0a_2a18_725a,
        word_at(default_document(), 280) == 0x8b80_b33c_9bd5_6759,
        word_at(default_document(), 288) == 0x4b51_4de0_c338_28c3,
        word_at(default_document(), 296) == 0xdccd_3922_128c_4055,
{
}

/// The header of encrypted problems, eight bytes at a time. It starts as the
/// encrypted `Document.xml` does.
pub proof fn law_tien_header_words()
    ensures
        tien_header().len() == 40,
        word_at(tien_header(), 0) == 0x0fce_d8d2_8106_865b,
        word_at(tien_header(), 8) == 0x99dd_a23d_d9e9_4bd4,
        word_at(tien_header(), 16) == 0x31bb_50b6_4db3_2924,
        word_at(tien_header(), 24) == 0x7060_4938_1c30_f899,
        word_at(tien_header(), 32) == 0x004b_9264_e458_e6bc,
        tien_header().take(8) == default_document().take(8),
{
    assert(tien_header().take(8) =~= default_document().take(8));
}

} // verus!
