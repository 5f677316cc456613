//! What becomes of the text of a note.

use vstd::prelude::*;
use vstd::utf8::{
    char_is_scalar, char_u32_cast, encode_utf8, encode_utf8_valid_utf8, is_ascii_chars,
    is_ascii_chars_encode_utf8,
};

use crate::bytes::occurs_at;
use crate::cdata::{is_end_at, CDATA_START};
use crate::compile::{notes_xml, NOTES_PREFIX, NOTES_SUFFIX};
use crate::problem::{law_xml_problem, without_mark, xml_problem};
use crate::templates::xml_header;
use crate::text::lemma_encode_concat;
use crate::tixml::{
    compact, find_pattern, joined, law_compact_cdata, law_compact_close, law_compact_open,
    law_compact_text, lemma_delimiters, lemma_find_pattern, lemma_root_found, BANG, CDATA_END,
    CDATA_OPEN,
    CLOSE_MARK, GT, LT, PROB_ROOT, SLASH,
};
use crate::unicode::{
    escape_code, escaped, escaped_chars, law_ascii_unchanged, law_escaped_text,
    law_valid_is_complete, BYTE_ORDER_MARK,
};

verus! {

/// The compact form of what stands before the text of a note.
pub open spec fn note_front() -> Seq<u8> {
    encode_utf8(

    "<prob>\n  <ProblemID>1\x0e\x01\n  <Page>\n    <PageID>1\x0e\x03\n    <Notes>\n      <Text><![CDATA["@,
    )
}

/// The compact form of what stands behind the text of a note.
pub open spec fn note_back() -> Seq<u8> {
    encode_utf8("]]>\x0e\x05\n    \x0e\x04\n  \x0e\x02\n\x0e\x00"@)
}

/// Whether the end of a CDATA section, the bytes of `]]>`, starts in the escape
/// of character number `i`.
///
/// That takes the three characters themselves, or a character whose escape ends
/// with the byte of `]`, before `]>`, or with those of `]]`, before `>`.
pub open spec fn ends_section_at(text: Seq<char>, i: int) -> bool {
    ||| i + 2 < text.len() && text[i] as u32 % 256 == 0x5d && text[i + 1] == ']' && text[i + 2]
        == '>'
    ||| i + 1 < text.len() && text[i] as u32 % 65536 == 0x5d5d && text[i + 1] == '>'
}

/// Whether the escapes of `text` hold the end of a CDATA section nowhere.
pub open spec fn stays_in_section(text: Seq<char>) -> bool {
    forall|i: int| 0 <= i < text.len() ==> !#[trigger] ends_section_at(text, i)
}

/// Whether the escapes of `text` hold the end of a CDATA section and, behind
/// it, the byte of `<`.
pub open spec fn breaks_out(text: Seq<char>) -> bool {
    let e = escaped_chars(text);
    exists|j: int, k: int|
        #[trigger] occurs_at(e, j, CDATA_END@) && j + 3 <= k < e.len() && #[trigger] e[k] == LT
}

/// The first byte of an escape is that of an ASCII character, or no printable
/// character.
proof fn lemma_escape_start(code: u32)
    requires
        code <= 0x10ffff,
    ensures
        escape_code(code).len() > 0,
        escape_code(code)[0] == 0x5d ==> code == 0x5d,
        escape_code(code)[0] == 0x3e ==> code == 0x3e,
{
}

/// Where escapes start with a printable ASCII byte, so does the text.
proof fn lemma_escaped_start(text: Seq<char>)
    ensures
        escaped_chars(text).len() > 0 ==> text.len() > 0,
        escaped_chars(text).len() > 0 && escaped_chars(text)[0] == 0x5d ==> text[0] == ']',
        escaped_chars(text).len() > 0 && escaped_chars(text)[0] == 0x3e ==> text[0] == '>',
        text.len() > 0 && text[0] == ']' ==> escaped_chars(text).skip(1) == escaped_chars(
            text.drop_first(),
        ),
{
    if text.len() > 0 {
        char_is_scalar(text[0]);
        lemma_escape_start(text[0] as u32);
        char_u32_cast(text[0], text[0] as u32);
        if text[0] == ']' {
            assert(escaped_chars(text).skip(1) =~= escaped_chars(text.drop_first()));
        }
    }
}

/// Where no character starts the end of a section, no byte does, and the text
/// does not break out.
pub proof fn law_stays_in_section(text: Seq<char>)
    requires
        stays_in_section(text),
    ensures
        forall|j: int| !#[trigger] occurs_at(escaped_chars(text), j, CDATA_END@),
        !breaks_out(text),
    decreases text.len(),
{
    let s = escaped_chars(text);
    if text.len() == 0 {
        assert forall|j: int| !#[trigger] occurs_at(s, j, CDATA_END@) by {}
    } else {
        let rest = text.drop_first();
        let r = escaped_chars(rest);
        let code = text[0] as u32;
        char_is_scalar(text[0]);
        let e = escape_code(code);
        assert forall|i: int| 0 <= i < rest.len() implies !#[trigger] ends_section_at(rest, i) by {
            assert(!ends_section_at(text, i + 1));
        }
        law_stays_in_section(rest);
        assert(!ends_section_at(text, 0));
        lemma_escaped_start(rest);
        if rest.len() > 0 {
            lemma_escaped_start(rest.drop_first());
        }
        assert forall|j: int| !#[trigger] occurs_at(s, j, CDATA_END@) by {
            if occurs_at(s, j, CDATA_END@) {
                let three = s.subrange(j, j + 3);
                assert(three[0] == s[j] && three[1] == s[j + 1] && three[2] == s[j + 2]);
                assert(s[j] == 0x5d && s[j + 1] == 0x5d && s[j + 2] == 0x3e);
                if j >= e.len() {
                    assert(r.subrange(j - e.len(), j - e.len() + 3) =~= three);
                    assert(occurs_at(r, j - e.len(), CDATA_END@));
                } else if j == e.len() - 1 {
                    assert(code % 256 == 0x5d);
                    assert(r[0] == 0x5d && r[1] == 0x3e);
                    assert(r.skip(1)[0] == r[1]);
                    assert(text[1] == ']' && text[2] == '>');
                } else {
                    assert(j == e.len() - 2);
                    assert(code % 65536 == 0x5d5d);
                    assert(r[0] == 0x3e);
                    assert(text[1] == '>');
                }
            }
        }
    }
}

/// Whether the tags and texts of a note stand in `s` where they belong.
spec fn starts_as_note(s: Seq<u8>) -> bool {
    &&& s.len() >= 138
    &&& s[0] == LT && s[1] == 0x3f
    &&& no_byte(s, 1, 39, LT)
    &&& occurs_at(s, 39, PROB_ROOT@)
    &&& no_byte(s, 40, 48, LT)
    &&& opens_at(s, 48)
    &&& no_byte(s, 49, 60, LT)
    &&& closes_at(s, 60, 72)
    &&& no_byte(s, 72, 75, LT)
    &&& opens_at(s, 75)
    &&& no_byte(s, 76, 86, LT)
    &&& opens_at(s, 86)
    &&& no_byte(s, 87, 95, LT)
    &&& closes_at(s, 95, 104)
    &&& no_byte(s, 104, 109, LT)
    &&& opens_at(s, 109)
    &&& no_byte(s, 110, 123, LT)
    &&& opens_at(s, 123)
    &&& no_byte(s, 124, 129, LT)
    &&& s[129] == LT && s[130] == BANG
    &&& occurs_at(s, 131, CDATA_OPEN@)
}

/// Whether no byte of `s` from `from` up to `to` is `byte`.
spec fn no_byte(s: Seq<u8>, from: int, to: int, byte: u8) -> bool {
    forall|i: int| from <= i < to ==> #[trigger] s[i] != byte
}

/// Whether an opening tag stands at `at`.
spec fn opens_at(s: Seq<u8>, at: int) -> bool {
    s[at] == LT && s[at + 1] != SLASH && s[at + 1] != BANG
}

/// Whether a closing tag stands from `from` up to `to`.
spec fn closes_at(s: Seq<u8>, from: int, to: int) -> bool {
    s[from] == LT && s[from + 1] == SLASH && s[to - 1] == GT && no_byte(s, from, to - 1, GT)
}

/// What the tags and texts of a note become, up to the CDATA section.
spec fn note_pieces(s: Seq<u8>) -> Seq<u8> {
    note_head(s) + note_page(s)
}

/// The first part of [`note_pieces`].
spec fn note_head(s: Seq<u8>) -> Seq<u8> {
    seq![LT] + s.subrange(40, 48) + seq![LT] + s.subrange(49, 60) + seq![CLOSE_MARK, 1u8]
        + s.subrange(72, 75)
}

/// The second part of [`note_pieces`].
spec fn note_page(s: Seq<u8>) -> Seq<u8> {
    seq![LT] + s.subrange(76, 86) + seq![LT] + s.subrange(87, 95) + seq![CLOSE_MARK, 3u8]
        + s.subrange(104, 109) + seq![LT] + s.subrange(110, 123) + seq![LT] + s.subrange(124, 129)
}

/// Two parts in front of a rest are one.
proof fn lemma_joined(a: Seq<u8>, b: Seq<u8>, rest: Option<Seq<u8>>)
    ensures
        joined(a, joined(b, rest)) == joined(a + b, rest),
{
    if let Some(r) = rest {
        assert(a + (b + r) =~= (a + b) + r);
    }
}

/// The steps through the first elements of a note.
proof fn lemma_note_head(s: Seq<u8>)
    requires
        starts_as_note(s),
    ensures
        compact(s.skip(39), Seq::empty(), 0) == joined(
            note_head(s),
            compact(s.skip(75), seq![0nat], 2),
        ),
{
    let none = Seq::<nat>::empty();
    let prob = seq![0nat];
    let lt = seq![LT];
    assert(s[39] == s.subrange(39, 44)[0] && s[40] == s.subrange(39, 44)[1]);
    law_compact_open(s, 39, none, 0);
    assert(none.push(0) =~= prob);
    law_compact_text(s, 40, 48, prob, 1);
    law_compact_open(s, 48, prob, 1);
    law_compact_text(s, 49, 60, prob.push(1), 2);
    law_compact_close(s, 60, 72, prob.push(1), 2);
    assert(prob.push(1).drop_last() =~= prob);
    law_compact_text(s, 72, 75, prob, 2);
    let a = lt + s.subrange(40, 48);
    let b = a + lt;
    let c = b + s.subrange(49, 60);
    let d = c + seq![CLOSE_MARK, 1u8];
    lemma_joined(lt, s.subrange(40, 48), compact(s.skip(48), prob, 1));
    lemma_joined(a, lt, compact(s.skip(49), prob.push(1), 2));
    lemma_joined(b, s.subrange(49, 60), compact(s.skip(60), prob.push(1), 2));
    lemma_joined(c, seq![CLOSE_MARK, 1u8], compact(s.skip(72), prob, 2));
    lemma_joined(d, s.subrange(72, 75), compact(s.skip(75), prob, 2));
}

/// The steps through the page of a note.
proof fn lemma_note_page(s: Seq<u8>)
    requires
        starts_as_note(s),
    ensures
        compact(s.skip(75), seq![0nat], 2) == joined(
            note_page(s),
            compact(s.skip(129), seq![0nat, 2, 4, 5], 6),
        ),
{
    let prob = seq![0nat];
    let page = seq![0nat, 2];
    let notes = seq![0nat, 2, 4];
    let last = seq![0nat, 2, 4, 5];
    let lt = seq![LT];
    law_compact_open(s, 75, prob, 2);
    assert(prob.push(2) =~= page);
    law_compact_text(s, 76, 86, page, 3);
    law_compact_open(s, 86, page, 3);
    law_compact_text(s, 87, 95, page.push(3), 4);
    law_compact_close(s, 95, 104, page.push(3), 4);
    assert(page.push(3).drop_last() =~= page);
    law_compact_text(s, 104, 109, page, 4);
    law_compact_open(s, 109, page, 4);
    assert(page.push(4) =~= notes);
    law_compact_text(s, 110, 123, notes, 5);
    law_compact_open(s, 123, notes, 5);
    assert(notes.push(5) =~= last);
    law_compact_text(s, 124, 129, last, 6);
    let mark = seq![CLOSE_MARK, 3u8];
    let a = lt + s.subrange(76, 86);
    let b = a + lt;
    let c = b + s.subrange(87, 95);
    let d = c + mark;
    let e = d + s.subrange(104, 109);
    let f = e + lt;
    let g = f + s.subrange(110, 123);
    let h = g + lt;
    lemma_joined(lt, s.subrange(76, 86), compact(s.skip(86), page, 3));
    lemma_joined(a, lt, compact(s.skip(87), page.push(3), 4));
    lemma_joined(b, s.subrange(87, 95), compact(s.skip(95), page.push(3), 4));
    lemma_joined(c, mark, compact(s.skip(104), page, 4));
    lemma_joined(d, s.subrange(104, 109), compact(s.skip(109), page, 4));
    lemma_joined(e, lt, compact(s.skip(110), notes, 5));
    lemma_joined(f, s.subrange(110, 123), compact(s.skip(123), notes, 5));
    lemma_joined(g, lt, compact(s.skip(124), last, 6));
    lemma_joined(h, s.subrange(124, 129), compact(s.skip(129), last, 6));
}

/// What starts as the XML of a note has its tags and texts.
proof fn lemma_starts_as_note(s: Seq<u8>)
    requires
        encode_utf8(NOTES_PREFIX@).is_prefix_of(s),
    ensures
        encode_utf8(NOTES_PREFIX@).len() == 138,
        starts_as_note(s),
        note_front() == note_pieces(s) + s.subrange(129, 138),
{
    reveal_strlit(
        "<?xml version=\"1.0\" encoding=\"UTF-8\"?>\n<prob>\n  <ProblemID>1</ProblemID>\n  <Page>\n    <PageID>1</PageID>\n    <Notes>\n      <Text><![CDATA[",
    );
    reveal_strlit(
        "<prob>\n  <ProblemID>1\x0e\x01\n  <Page>\n    <PageID>1\x0e\x03\n    <Notes>\n      <Text><![CDATA[",
    );
    let p = encode_utf8(NOTES_PREFIX@);
    is_ascii_chars_encode_utf8(NOTES_PREFIX@);
    is_ascii_chars_encode_utf8(
        "<prob>\n  <ProblemID>1\x0e\x01\n  <Page>\n    <PageID>1\x0e\x03\n    <Notes>\n      <Text><![CDATA["@,
    );
    assert(forall|i: int| 0 <= i < 138 ==> #[trigger] s[i] == p[i]);
    assert(s.subrange(39, 44) =~= PROB_ROOT@);
    assert(s.subrange(131, 138) =~= CDATA_OPEN@);
    assert(note_front() =~= note_pieces(s) + s.subrange(129, 138));
}

/// The steps through what stands behind the CDATA section of a note.
proof fn lemma_note_end()
    ensures
        encode_utf8(NOTES_SUFFIX@).len() == 41,
        encode_utf8(NOTES_SUFFIX@).take(3) == CDATA_END@,
        note_back().len() > 3,
        note_back().take(3) == CDATA_END@,
        compact(encode_utf8(NOTES_SUFFIX@).skip(3), seq![0nat, 2, 4, 5], 6) == Some(
            note_back().skip(3),
        ),
{
    reveal_strlit("]]></Text>\n    </Notes>\n  </Page>\n</prob>");
    reveal_strlit("]]>\x0e\x05\n    \x0e\x04\n  \x0e\x02\n\x0e\x00");
    let s = encode_utf8(NOTES_SUFFIX@);
    is_ascii_chars_encode_utf8(NOTES_SUFFIX@);
    is_ascii_chars_encode_utf8("]]>\x0e\x05\n    \x0e\x04\n  \x0e\x02\n\x0e\x00"@);
    let last = seq![0nat, 2, 4, 5];
    let notes = seq![0nat, 2, 4];
    let page = seq![0nat, 2];
    let prob = seq![0nat];
    law_compact_close(s, 3, 10, last, 6);
    assert(last.drop_last() =~= notes);
    law_compact_text(s, 10, 15, notes, 6);
    law_compact_close(s, 15, 23, notes, 6);
    assert(notes.drop_last() =~= page);
    law_compact_text(s, 23, 26, page, 6);
    law_compact_close(s, 26, 33, page, 6);
    assert(page.drop_last() =~= prob);
    law_compact_text(s, 33, 34, prob, 6);
    law_compact_close(s, 34, 41, prob, 6);
    assert(s.skip(41) =~= Seq::empty());
    assert(compact(s.skip(41), prob.drop_last(), 6) == Some(Seq::<u8>::empty()));
    assert(s.take(3) =~= CDATA_END@);
    assert(note_back().take(3) =~= CDATA_END@);
    assert(compact(s.skip(3), last, 6)->0 =~= note_back().skip(3));
}

/// Escapes come one after the other.
proof fn lemma_escaped_concat(a: Seq<char>, b: Seq<char>)
    ensures
        escaped_chars(a + b) == escaped_chars(a) + escaped_chars(b),
    decreases a.len(),
{
    if a.len() == 0 {
        assert(a + b =~= b);
        assert(escaped_chars(a) + escaped_chars(b) =~= escaped_chars(b));
    } else {
        lemma_escaped_concat(a.drop_first(), b);
        assert((a + b).drop_first() =~= a.drop_first() + b);
        assert(escaped_chars(a + b) =~= escaped_chars(a) + escaped_chars(b));
    }
}

/// The escapes of ASCII characters are their bytes.
proof fn lemma_escaped_ascii(a: Seq<char>)
    requires
        is_ascii_chars(a),
    ensures
        escaped_chars(a) == encode_utf8(a),
{
    law_escaped_text(a);
    is_ascii_chars_encode_utf8(a);
    let s = encode_utf8(a);
    assert forall|i: int| 0 <= i < s.len() implies #[trigger] s[i] < 0x80 by {
        assert('\0' <= a[i] <= '\u{7f}');
        assert(a[i] as u8 == s[i]);
    }
    law_ascii_unchanged(s);
}

/// The escaped XML of a note.
proof fn lemma_note_text(text: Seq<char>)
    ensures
        escaped(encode_utf8(notes_xml(text))) == encode_utf8(NOTES_PREFIX@) + escaped_chars(text)
            + encode_utf8(NOTES_SUFFIX@),
{
    law_escaped_text(notes_xml(text));
    lemma_escaped_concat(NOTES_PREFIX@ + text, NOTES_SUFFIX@);
    lemma_escaped_concat(NOTES_PREFIX@, text);
    assert(is_ascii_chars(NOTES_PREFIX@)) by {
        reveal_strlit(
            "<?xml version=\"1.0\" encoding=\"UTF-8\"?>\n<prob>\n  <ProblemID>1</ProblemID>\n  <Page>\n    <PageID>1</PageID>\n    <Notes>\n      <Text><![CDATA[",
        );
    }
    assert(is_ascii_chars(NOTES_SUFFIX@)) by {
        reveal_strlit("]]></Text>\n    </Notes>\n  </Page>\n</prob>");
    }
    lemma_escaped_ascii(NOTES_PREFIX@);
    lemma_escaped_ascii(NOTES_SUFFIX@);
}

/// A section and the text behind it, up to the end of the text of a note, stay
/// as they are.
proof fn lemma_note_section(text: Seq<char>, open: Seq<nat>, next: nat)
    requires
        !breaks_out(text),
    ensures
        ({
            let back = encode_utf8(NOTES_SUFFIX@);
            compact(CDATA_START@ + escaped_chars(text) + back, open, next) == joined(
                CDATA_START@ + escaped_chars(text) + CDATA_END@,
                compact(back.skip(3), open, next),
            )
        }),
{
    let e = escaped_chars(text);
    let back = encode_utf8(NOTES_SUFFIX@);
    let s = CDATA_START@ + e + back;
    let end = 9 + e.len() as int;
    lemma_note_end();
    assert(s.subrange(end, end + 3) =~= back.take(3));
    assert(s.skip(end + 3) =~= back.skip(3));
    assert(s.skip(0) =~= s);
    assert(s.subrange(2, 9) =~= CDATA_OPEN@);
    lemma_find_pattern(s, 9, CDATA_END@);
    let at = find_pattern(s, 9, CDATA_END@)->0;
    assert(occurs_at(s, end, CDATA_END@));
    assert(9 <= at <= end);
    lemma_delimiters(s, 0);
    lemma_delimiters(s, at);
    assert forall|j: int| 9 <= j < at implies !#[trigger] is_end_at(s, j) by {
        lemma_delimiters(s, j);
    }
    law_compact_cdata(s, 0, at + 3, open, next);
    assert forall|i: int| at + 3 <= i < end + 3 implies #[trigger] s[i] != LT by {
        if i < end {
            assert(e.subrange(at - 9, at - 9 + 3) =~= s.subrange(at, at + 3));
            assert(occurs_at(e, at - 9, CDATA_END@));
            assert(e[i - 9] == s[i]);
        } else {
            assert(s[i] == s.subrange(end, end + 3)[i - end]);
        }
    }
    law_compact_text(s, at + 3, end + 3, open, next);
    lemma_joined(
        s.subrange(0, at + 3),
        s.subrange(at + 3, end + 3),
        compact(back.skip(3), open, next),
    );
    assert(s.subrange(0, at + 3) + s.subrange(at + 3, end + 3) =~= CDATA_START@ + e + CDATA_END@);
}

/// What becomes of a note, whatever its text: the fixed part before its CDATA
/// section, and the compact form of the section and what follows it. There is
/// no problem only where that has no compact form.
pub proof fn law_any_note(text: Seq<char>)
    ensures
        xml_problem(encode_utf8(notes_xml(text))) == joined(
            xml_header() + note_front().take(note_front().len() - 9),
            compact(
                CDATA_START@ + escaped_chars(text) + encode_utf8(NOTES_SUFFIX@),
                seq![0nat, 2, 4, 5],
                6,
            ),
        ),
{
    let xml = encode_utf8(notes_xml(text));
    let p = encode_utf8(NOTES_PREFIX@);
    let e = escaped_chars(text);
    let s = p + e + encode_utf8(NOTES_SUFFIX@);
    lemma_note_xml_start(text);
    encode_utf8_valid_utf8(notes_xml(text));
    law_valid_is_complete(xml);
    law_xml_problem(xml);
    lemma_note_text(text);
    assert(p.is_prefix_of(s));
    lemma_starts_as_note(s);
    lemma_root_found(s, 0, 39);
    lemma_note_head(s);
    lemma_note_page(s);
    let rest = compact(s.skip(129), seq![0nat, 2, 4, 5], 6);
    lemma_joined(note_head(s), note_page(s), rest);
    lemma_joined(xml_header(), note_pieces(s), rest);
    assert(note_front().take(note_front().len() - 9) =~= note_pieces(s));
    lemma_section_start(s);
    assert(s.skip(129) =~= s.subrange(129, 138) + e + encode_utf8(NOTES_SUFFIX@));
}

/// The last bytes before the text of a note start its CDATA section.
proof fn lemma_section_start(s: Seq<u8>)
    requires
        starts_as_note(s),
    ensures
        s.subrange(129, 138) == CDATA_START@,
{
    let open = s.subrange(131, 138);
    assert forall|i: int| 0 <= i < 7 implies s[131 + i] == #[trigger] CDATA_OPEN@[i] by {
        assert(open[i] == s[131 + i]);
    }
    assert forall|i: int| 0 <= i < 9 implies s.subrange(129, 138)[i] == CDATA_START@[i] by {
        if i >= 2 {
            assert(s[131 + (i - 2)] == CDATA_OPEN@[i - 2]);
        }
    }
    assert(s.subrange(129, 138) =~= CDATA_START@);
}

/// Every note compiles whose text does not break out of the CDATA section that
/// it stands in. Its problem holds the text, with each character escaped, once
/// and between fixed parts.
pub proof fn law_note_problem(text: Seq<char>)
    requires
        !breaks_out(text),
    ensures
        xml_problem(encode_utf8(notes_xml(text))) == Some(
            xml_header() + note_front() + escaped_chars(text) + note_back(),
        ),
{
    let e = escaped_chars(text);
    let last = seq![0nat, 2, 4, 5];
    let tail = note_back().skip(3);
    let section = CDATA_START@ + e + CDATA_END@;
    let front = note_front().take(note_front().len() - 9);
    law_any_note(text);
    lemma_note_section(text, last, 6);
    lemma_note_end();
    lemma_front_end();
    lemma_joined(xml_header() + front, section, Some(tail));
    assert(note_front() =~= front + CDATA_START@);
    assert(note_back() =~= CDATA_END@ + tail);
    lemma_regrouped(xml_header(), front, CDATA_START@, e, CDATA_END@, tail);
}

/// Parts one after the other can be grouped in two ways.
proof fn lemma_regrouped(
    a: Seq<u8>,
    b: Seq<u8>,
    c: Seq<u8>,
    d: Seq<u8>,
    e: Seq<u8>,
    f: Seq<u8>,
)
    ensures
        a + b + (c + d + e) + f == a + (b + c) + d + (e + f),
{
    assert(a + b + (c + d + e) + f =~= a + (b + c) + d + (e + f));
}

/// The fixed part before the text of a note ends with the start of a section.
proof fn lemma_front_end()
    ensures
        note_front().len() >= 9,
        note_front().skip(note_front().len() - 9) == CDATA_START@,
{
    let p = encode_utf8(NOTES_PREFIX@);
    lemma_starts_as_note(p);
    lemma_section_start(p);
    assert(note_front().skip(note_front().len() - 9) =~= p.subrange(129, 138));
}

/// A note has no byte order mark.
proof fn lemma_note_xml_start(text: Seq<char>)
    ensures
        without_mark(encode_utf8(notes_xml(text))) == encode_utf8(notes_xml(text)),
{
    let xml = encode_utf8(notes_xml(text));
    lemma_encode_concat(NOTES_PREFIX@ + text, NOTES_SUFFIX@);
    lemma_encode_concat(NOTES_PREFIX@, text);
    lemma_starts_as_note(encode_utf8(NOTES_PREFIX@));
    assert(xml[0] == encode_utf8(NOTES_PREFIX@)[0]);
    if occurs_at(xml, 0, BYTE_ORDER_MARK@) {
        assert(xml.subrange(0, 3)[0] == xml[0]);
    }
}

/// A text stays in the section if it does not hold `]]>`, and no character
/// outside ASCII has an escape that ends with the byte of `]`.
pub proof fn law_plain_note(text: Seq<char>)
    requires
        forall|i: int|
            0 <= i < text.len() ==> #[trigger] text[i] as u32 >= 0x80 ==> text[i] as u32 % 256
                != 0x5d,
        forall|i: int|
            0 <= i < text.len() - 2 ==> !(#[trigger] text[i] == ']' && text[i + 1] == ']' && text[i
                + 2] == '>'),
    ensures
        stays_in_section(text),
        !breaks_out(text),
{
    assert forall|i: int| 0 <= i < text.len() implies !#[trigger] ends_section_at(text, i) by {
        let c = text[i];
        char_is_scalar(c);
        char_u32_cast(c, c as u32);
        assert(c as u32 % 65536 == 0x5d5d ==> c as u32 % 256 == 0x5d);
        assert(c as u32 % 256 == 0x5d ==> c == ']');
        assert(i < text.len() - 2 ==> !(text[i] == ']' && text[i + 1] == ']' && text[i + 2]
            == '>'));
    }
    law_stays_in_section(text);
}

} // verus!
