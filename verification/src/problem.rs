//! Turns input files into the problems of a document.

use vstd::prelude::*;
use vstd::utf8::*;

use crate::bytes::append_bytes;
use crate::bytes::occurs_at;
use crate::cdata::fix_cdata_end_seq;
use crate::cdata::{cdata_safe, law_cdata_round_trip, read_cdata, CDATA_START};
use crate::templates::{append_lua_footer, append_lua_header, append_xml_header};
use crate::templates::{lua_footer, lua_header, python_footer, python_header, xml_header};
use crate::templates::{lemma_lua_footer, lemma_lua_header};
use crate::text::{gnu_basename, has_ext, str_equal};
use crate::text::{
    basename, ends_in_letters, has_ascii_tail, has_extension, law_extension_letters,
    splits_before_last,
};
use crate::tixml::reformat_xml_doc;
use crate::tixml::{
    closes_with, compact, expanded, find_root, joined, law_compact_round_trip,
    law_document_is_compact, lemma_find_root, reformatted, CDATA_END,
};
use crate::unicode::escape_unicode;
use crate::unicode::{
    complete, escaped, law_ascii_unchanged, law_escaped_len, law_sequence_sum, text_of,
    BYTE_ORDER_MARK,
};

verus! {

/// Whether a path names problem XML.
pub open spec fn is_xml(path: Seq<char>) -> bool {
    has_extension(path, ".xml"@)
}

/// Whether a path names a Lua script; `-` stands for one on standard input.
pub open spec fn is_lua(path: Seq<char>) -> bool {
    has_extension(path, ".lua"@) || path == "-"@
}

/// The name in the document of the file at `path`.
pub open spec fn problem_filename(path: Seq<char>) -> Seq<char> {
    if is_lua(path) {
        "Problem1.xml"@
    } else {
        basename(path)
    }
}

/// `text` without a byte order mark.
pub open spec fn without_mark(text: Seq<u8>) -> Seq<u8> {
    if occurs_at(text, 0, BYTE_ORDER_MARK@) {
        text.skip(3)
    } else {
        text
    }
}

/// The problem that XML becomes; there is none if it has no root element or
/// its tags are not what the compact form can hold.
pub open spec fn xml_problem(xml: Seq<u8>) -> Option<Seq<u8>> {
    reformatted(xml_header() + escaped(without_mark(xml)), xml_header().len(), xml.len())
}

/// The problem that a Lua script becomes.
pub open spec fn lua_problem(script: Seq<u8>) -> Seq<u8> {
    lua_header() + cdata_safe(script) + lua_footer()
}

/// The problem that shows the Python script `filename`.
pub open spec fn python_problem(filename: Seq<u8>) -> Seq<u8> {
    python_header() + filename + python_footer()
}

/// What the file at `path` becomes: a problem if it is XML or Lua, else its
/// contents as they are.
pub open spec fn problem_data(path: Seq<char>, contents: Seq<u8>) -> Option<Seq<u8>> {
    if is_xml(path) {
        xml_problem(contents)
    } else if is_lua(path) {
        Some(lua_problem(contents))
    } else {
        Some(contents)
    }
}

/// A Lua script can be read back from its problem: what follows the header is
/// a CDATA section whose text is the script.
pub proof fn law_lua_round_trip(script: Seq<u8>)
    ensures
        lua_problem(script).take(lua_header().len() as int) == lua_header(),
        lua_header().skip(lua_header().len() - 9) == CDATA_START@,
        read_cdata(lua_problem(script).skip(lua_header().len() as int)) == Some(
            (script, lua_footer().skip(3)),
        ),
{
    lemma_lua_header();
    lemma_lua_footer();
    let after = lua_footer().skip(3);
    assert(after[0] == 0x0e);
    assert(!occurs_at(after, 0, CDATA_START@)) by {
        if after.len() >= 9 {
            assert(after.subrange(0, 9)[0] == 0x0e);
        }
    }
    law_cdata_round_trip(script, after);
    assert(lua_footer() =~= CDATA_END@ + after);
    assert(lua_problem(script).take(lua_header().len() as int) =~= lua_header());
    assert(lua_problem(script).skip(lua_header().len() as int) =~= cdata_safe(script) + CDATA_END@
        + after);
    assert(lua_header().skip(lua_header().len() - 9) =~= CDATA_START@);
}

/// Searching behind a header is searching the text alone.
proof fn lemma_find_root_behind(header: Seq<u8>, text: Seq<u8>, from: int)
    requires
        0 <= from,
    ensures
        find_root(header + text, header.len() + from) == match find_root(text, from) {
            Some(k) => Some(header.len() + k),
            None => None,
        },
    decreases text.len() - from,
{
    let s = header + text;
    let at = header.len() + from;
    if from + 4 < text.len() {
        if from + 5 <= text.len() {
            assert(s.subrange(at, at + 5) =~= text.subrange(from, from + 5));
        }
        assert(s.subrange(at, at + 4) =~= text.subrange(from, from + 4));
        lemma_find_root_behind(header, text, from + 1);
    }
}

/// A text without its byte order mark is still complete, and not longer.
proof fn lemma_without_mark(xml: Seq<u8>)
    ensures
        without_mark(xml).len() <= xml.len(),
        complete(xml) ==> complete(without_mark(xml)),
{
    if occurs_at(xml, 0, BYTE_ORDER_MARK@) {
        assert(xml[0] == xml.subrange(0, 3)[0]);
        let b = xml[0];
        assert(b & 0x80 != 0 && b & 0xe0 != 0xc0 && b & 0xf0 == 0xe0) by (bit_vector)
            requires
                b == 0xefu8,
        ;
    }
}

/// XML whose UTF-8 is not cut off becomes the header and behind it the compact
/// form of its escaped text from the root element on.
pub proof fn law_xml_problem(xml: Seq<u8>)
    requires
        complete(xml),
    ensures
        ({
            let text = escaped(without_mark(xml));
            xml_problem(xml) == match find_root(text, 0) {
                Some(root) => joined(xml_header(), compact(text.skip(root), Seq::empty(), 0)),
                None => None,
            }
        }),
{
    let text = escaped(without_mark(xml));
    let doc = xml_header() + text;
    let h = xml_header().len();
    lemma_without_mark(xml);
    law_escaped_len(without_mark(xml));
    law_document_is_compact(doc, h, xml.len());
    lemma_find_root_behind(xml_header(), text, 0);
    assert(doc.take(h as int) =~= xml_header());
    lemma_find_root(text, 0);
    if let Some(root) = find_root(text, 0) {
        assert(doc.skip(h + root) =~= text.skip(root));
    }
}

/// The escaped text of problem XML can be read back from its problem, from the
/// root element on, given the closing tags of its elements.
pub proof fn law_xml_round_trip(xml: Seq<u8>, closers: spec_fn(nat) -> Seq<u8>)
    requires
        complete(xml),
        find_root(escaped(without_mark(xml)), 0) matches Some(root) && closes_with(
            escaped(without_mark(xml)).skip(root),
            Seq::empty(),
            0,
            closers,
        ),
    ensures
        xml_problem(xml) matches Some(out) ==> {
            let text = escaped(without_mark(xml));
            &&& out.take(xml_header().len() as int) == xml_header()
            &&& expanded(out.skip(xml_header().len() as int), closers) == text.skip(
                find_root(text, 0)->0,
            )
        },
{
    let text = escaped(without_mark(xml));
    let root = find_root(text, 0)->0;
    law_xml_problem(xml);
    law_compact_round_trip(text.skip(root), Seq::empty(), 0, closers);
    if let Some(out) = xml_problem(xml) {
        let c = compact(text.skip(root), Seq::empty(), 0)->0;
        assert(out.take(xml_header().len() as int) =~= xml_header());
        assert(out.skip(xml_header().len() as int) =~= c);
    }
}

/// ASCII problem XML can be read back from its problem, from the root element
/// on, given the closing tags of its elements.
pub proof fn law_ascii_xml_round_trip(xml: Seq<u8>, closers: spec_fn(nat) -> Seq<u8>)
    requires
        forall|i: int| 0 <= i < xml.len() ==> #[trigger] xml[i] < 0x80,
        find_root(xml, 0) matches Some(root) && closes_with(
            xml.skip(root),
            Seq::empty(),
            0,
            closers,
        ),
    ensures
        xml_problem(xml) matches Some(out) ==> expanded(
            out.skip(xml_header().len() as int),
            closers,
        ) == xml.skip(find_root(xml, 0)->0),
{
    law_ascii_unchanged(xml);
    assert(!occurs_at(xml, 0, BYTE_ORDER_MARK@)) by {
        if xml.len() >= 3 {
            assert(xml.subrange(0, 3)[0] < 0x80);
        }
    }
    law_xml_round_trip(xml, closers);
}

/// Whether `path` ends with a dot and three letters is a matter of its last four
/// characters alone.
proof fn lemma_named_extensions(path: Seq<char>)
    requires
        has_ascii_tail(path),
    ensures
        is_xml(path) <==> path.len() > 4 && ends_in_letters(path, 'x', 'm', 'l'),
        is_lua(path) <==> path == "-"@ || (path.len() > 4 && ends_in_letters(path, 'l', 'u', 'a')),
        "-"@.len() == 1,
{
    reveal_strlit(".xml");
    reveal_strlit(".lua");
    reveal_strlit("-");
    assert(".xml"@ =~= seq!['.', 'x', 'm', 'l']);
    assert(".lua"@ =~= seq!['.', 'l', 'u', 'a']);
    law_extension_letters(path, ".xml"@, 'x', 'm', 'l');
    law_extension_letters(path, ".lua"@, 'l', 'u', 'a');
}

/// Every file whose path ends with `.lua`, in any letter case and whatever
/// directory it is in, becomes `Problem1.xml`: the header of a Lua problem, the
/// script in a CDATA section, and the footer.
pub proof fn law_lua_path(path: Seq<char>, contents: Seq<u8>)
    requires
        path.len() > 4,
        ends_in_letters(path, 'l', 'u', 'a'),
    ensures
        problem_filename(path) == "Problem1.xml"@,
        problem_data(path, contents) matches Some(out) && {
            let h = lua_header().len() as int;
            &&& out.take(h) == lua_header()
            &&& read_cdata(out.skip(h)) == Some((contents, lua_footer().skip(3)))
            &&& out == lua_header() + cdata_safe(contents) + lua_footer()
        },
{
    assert(has_ascii_tail(path));
    lemma_named_extensions(path);
    law_lua_round_trip(contents);
}

/// The path `-` stands for a Lua script.
pub proof fn law_dash_is_lua(contents: Seq<u8>)
    ensures
        problem_filename("-"@) == "Problem1.xml"@,
        problem_data("-"@, contents) matches Some(out) && {
            let h = lua_header().len() as int;
            &&& out.take(h) == lua_header()
            &&& read_cdata(out.skip(h)) == Some((contents, lua_footer().skip(3)))
            &&& out == lua_header() + cdata_safe(contents) + lua_footer()
        },
{
    reveal_strlit("-");
    assert(has_ascii_tail("-"@));
    lemma_named_extensions("-"@);
    law_lua_round_trip(contents);
}

/// Every file whose path ends with `.xml`, in any letter case and whatever
/// directory it is in, keeps its name and becomes the problem of its XML.
pub proof fn law_xml_path(path: Seq<char>, contents: Seq<u8>)
    requires
        path.len() > 4,
        ends_in_letters(path, 'x', 'm', 'l'),
    ensures
        problem_filename(path) == basename(path),
        problem_data(path, contents) == xml_problem(contents),
{
    assert(has_ascii_tail(path));
    lemma_named_extensions(path);
}

/// Every other file keeps its name and its contents.
pub proof fn law_other_path(path: Seq<char>, contents: Seq<u8>)
    requires
        has_ascii_tail(path),
        path != "-"@,
        path.len() > 4 ==> !ends_in_letters(path, 'l', 'u', 'a'),
        path.len() > 4 ==> !ends_in_letters(path, 'x', 'm', 'l'),
    ensures
        problem_filename(path) == basename(path),
        problem_data(path, contents) == Some(contents),
{
    lemma_named_extensions(path);
}

/// A byte order mark in front of XML changes nothing, and nothing else is taken
/// for one.
pub proof fn law_byte_order_mark(xml: Seq<u8>)
    ensures
        xml.len() >= 3 && xml[0] == 0xef && xml[1] == 0xbb && xml[2] == 0xbf ==> without_mark(xml)
            == xml.skip(3),
        !(xml.len() >= 3 && xml[0] == 0xef && xml[1] == 0xbb && xml[2] == 0xbf) ==> without_mark(xml)
            == xml,
        complete(xml) && without_mark(xml) == xml ==> xml_problem(seq![0xefu8, 0xbb, 0xbf] + xml)
            == xml_problem(xml),
{
    if xml.len() >= 3 {
        let three = xml.subrange(0, 3);
        assert(three[0] == xml[0] && three[1] == xml[1] && three[2] == xml[2]);
        if xml[0] == 0xef && xml[1] == 0xbb && xml[2] == 0xbf {
            assert(three =~= BYTE_ORDER_MARK@);
        }
    }
    let marked = seq![0xefu8, 0xbb, 0xbf] + xml;
    assert(marked.subrange(0, 3) =~= BYTE_ORDER_MARK@);
    assert(marked.skip(3) =~= xml);
    if complete(xml) && without_mark(xml) == xml {
        law_sequence_sum(marked);
        assert(complete(marked));
        law_xml_problem(marked);
        law_xml_problem(xml);
    }
}

/// The extensions that are looked for take four bytes.
pub proof fn lemma_extension_len()
    ensures
        encode_utf8(".xml"@).len() == 4,
        encode_utf8(".lua"@).len() == 4,
{
    reveal_strlit(".xml");
    reveal_strlit(".lua");
    is_ascii_chars_encode_utf8(".xml"@);
    is_ascii_chars_encode_utf8(".lua"@);
}

/// Behind the header stands the text without its byte order mark.
proof fn lemma_text_behind_header(xml: Seq<u8>)
    ensures
        text_of(xml_header() + xml, xml_header().len(), xml.len()) == without_mark(xml),
{
    let data = xml_header() + xml;
    let h = xml_header().len();
    if xml.len() >= 3 {
        assert(data.subrange(h as int, h as int + 3) =~= xml.subrange(0, 3));
    }
    assert(text_of(data, h, xml.len()) =~= without_mark(xml));
}

/// Turns XML into a problem. The name of the problem goes to `filename_out`.
pub fn read_file_and_xml_compress_bytes(in_buf: &[u8], filename_out: &mut String) -> (r: Option<
    Vec<u8>,
>)
    ensures
        final(filename_out)@ == "Problem1.xml"@,
        match r {
            Some(out) => xml_problem(in_buf@) == Some(out@),
            None => xml_problem(in_buf@) is None,
        },
{
    *filename_out = "Problem1.xml".to_owned();
    compress_xml(in_buf)
}

/// Turns XML into a problem.
fn compress_xml(in_buf: &[u8]) -> (r: Option<Vec<u8>>)
    ensures
        match r {
            Some(out) => xml_problem(in_buf@) == Some(out@),
            None => xml_problem(in_buf@) is None,
        },
{
    let mut data: Vec<u8> = Vec::new();
    append_xml_header(&mut data);
    let header_size = data.len();
    append_bytes(&mut data, in_buf);
    assert(data@ =~= xml_header() + in_buf@);
    proof {
        lemma_text_behind_header(in_buf@);
    }
    assert(header_size + in_buf.len() == data.len());
    match escape_unicode(data.as_slice(), header_size, 0, in_buf.len()) {
        Some(escaped_buf) => {
            proof {
                assert(data@.take(xml_header().len() as int) =~= xml_header());
                assert(escaped_buf@ =~= xml_header() + escaped(without_mark(in_buf@)));
            }
            reformat_xml_doc(escaped_buf.as_slice(), header_size, in_buf.len())
        },
        None => None,
    }
}

/// Turns the file at `inf_path` into what goes into the document. `in_buf` is
/// what reading the file gave, if it could be read. The name in the document
/// goes to `filename_out`.
pub fn read_file_and_xml_compress(
    inf_path: &str,
    in_buf: Option<Vec<u8>>,
    filename_out: &mut String,
) -> (r: Option<Vec<u8>>)
    requires
        splits_before_last(inf_path@, 4),
    ensures
        final(filename_out)@ == problem_filename(inf_path@),
        match (in_buf, r) {
            (Some(contents), Some(out)) => problem_data(inf_path@, contents@) == Some(out@),
            (Some(contents), None) => problem_data(inf_path@, contents@) is None,
            (None, _) => r is None,
        },
{
    proof {
        lemma_extension_len();
    }
    let infile_is_xml = has_ext(inf_path, ".xml");
    let infile_is_lua = has_ext(inf_path, ".lua") || str_equal(inf_path, "-");
    if infile_is_lua {
        *filename_out = "Problem1.xml".to_owned();
    } else {
        *filename_out = gnu_basename(inf_path).to_owned();
    }
    let contents = match in_buf {
        Some(contents) => contents,
        None => {
            return None;
        },
    };
    if infile_is_xml {
        return compress_xml(contents.as_slice());
    }
    if !infile_is_lua {
        return Some(contents);
    }
    let in_size = contents.len();
    let mut data: Vec<u8> = Vec::new();
    append_lua_header(&mut data);
    let header_size = data.len();
    append_bytes(&mut data, contents.as_slice());
    assert(data@.take(lua_header().len() as int) =~= lua_header());
    assert(data@.subrange(lua_header().len() as int, lua_header().len() + in_size) =~= contents@);
    assert(header_size + in_size == data.len());
    match fix_cdata_end_seq(data, header_size, in_size) {
        Some(fixed) => {
            let mut out = fixed;
            append_lua_footer(&mut out);
            Some(out)
        },
        None => None,
    }
}

} // verus!
