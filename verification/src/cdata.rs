//! Scripts inside CDATA sections: a script may hold the end delimiter itself,
//! so the section is closed and reopened in the middle of it.

use vstd::prelude::*;

use crate::bytes::append_bytes;
use crate::bytes::matches_at;
use crate::bytes::occurs_at;
use crate::tixml::CDATA_END;

verus! {

/// `]]><![CDATA[`
pub const CDATA_RESTART: [u8; 12] = [
    0x5d, 0x5d, 0x3e, 0x3c, 0x21, 0x5b, 0x43, 0x44, 0x41, 0x54, 0x41, 0x5b,
];

/// `<![CDATA[`
pub const CDATA_START: [u8; 9] = [0x3c, 0x21, 0x5b, 0x43, 0x44, 0x41, 0x54, 0x41, 0x5b];

/// `s` with the section restarted between `]]` and `>` of each `]]>`.
pub open spec fn cdata_safe(s: Seq<u8>) -> Seq<u8>
    decreases s.len(),
{
    if s.len() < 3 {
        s
    } else if occurs_at(s, 0, CDATA_END@) {
        s.take(2) + CDATA_RESTART@ + s.subrange(2, 3) + cdata_safe(s.skip(3))
    } else {
        s.take(1) + cdata_safe(s.skip(1))
    }
}

/// What a reader inside a CDATA section gets from `s`: the text of the section
/// and of the sections that directly follow it, and what stands behind them.
/// None where the section does not end.
pub open spec fn read_cdata(s: Seq<u8>) -> Option<(Seq<u8>, Seq<u8>)>
    decreases s.len(),
{
    if s.len() == 0 {
        None
    } else if occurs_at(s, 0, CDATA_END@) {
        let after = s.skip(3);
        if occurs_at(after, 0, CDATA_START@) {
            read_cdata(after.skip(9))
        } else {
            Some((Seq::empty(), after))
        }
    } else {
        match read_cdata(s.skip(1)) {
            Some((text, after)) => Some((s.take(1) + text, after)),
            None => None,
        }
    }
}

/// The text keeps its first two bytes and does not get shorter.
proof fn lemma_cdata_safe_start(s: Seq<u8>)
    ensures
        cdata_safe(s).len() >= s.len(),
        s.len() >= 1 ==> cdata_safe(s)[0] == s[0],
        s.len() >= 2 ==> cdata_safe(s)[1] == s[1],
    decreases s.len(),
{
    if s.len() >= 3 {
        if occurs_at(s, 0, CDATA_END@) {
            lemma_cdata_safe_start(s.skip(3));
        } else {
            lemma_cdata_safe_start(s.skip(1));
        }
    }
}

/// A byte that does not start the end delimiter is text.
proof fn lemma_read_byte(s: Seq<u8>, text: Seq<u8>, after: Seq<u8>)
    requires
        s.len() > 0,
        s.len() < 3 || s[0] != 0x5d || s[1] != 0x5d || s[2] != 0x3e,
        read_cdata(s.skip(1)) == Some((text, after)),
    ensures
        read_cdata(s) == Some((s.take(1) + text, after)),
{
    if s.len() >= 3 {
        let three = s.subrange(0, 3);
        assert(three[0] == s[0] && three[1] == s[1] && three[2] == s[2]);
    }
}

/// Where the section is restarted, the reader gets `]]>`.
proof fn lemma_read_restart(t: Seq<u8>, text: Seq<u8>, after: Seq<u8>)
    requires
        read_cdata(t) == Some((text, after)),
    ensures
        read_cdata(CDATA_END@.take(2) + CDATA_RESTART@ + CDATA_END@.skip(2) + t) == Some(
            (CDATA_END@ + text, after),
        ),
{
    let s = CDATA_END@.take(2) + CDATA_RESTART@ + CDATA_END@.skip(2) + t;
    let s1 = s.skip(1);
    let s2 = s.skip(2);
    let s14 = s.skip(14);
    assert(s14.skip(1) =~= t);
    assert(s14[0] == 0x3e);
    lemma_read_byte(s14, text, after);
    assert(s2.subrange(0, 3) =~= CDATA_END@);
    assert(s2.skip(3).subrange(0, 9) =~= CDATA_START@);
    assert(s2.skip(3).skip(9) =~= s14);
    let text2 = s14.take(1) + text;
    assert(read_cdata(s2) == Some((text2, after)));
    assert(s1.skip(1) =~= s2);
    assert(s1[2] == 0x5d);
    lemma_read_byte(s1, text2, after);
    assert(s[2] == 0x5d);
    lemma_read_byte(s, s1.take(1) + text2, after);
    assert(s.take(1) + (s1.take(1) + (s14.take(1) + text)) =~= CDATA_END@ + text);
}

/// A text that was made safe for a CDATA section is read back as it was, up
/// to the end delimiter that follows it.
pub proof fn law_cdata_round_trip(text: Seq<u8>, after: Seq<u8>)
    requires
        !occurs_at(after, 0, CDATA_START@),
    ensures
        read_cdata(cdata_safe(text) + CDATA_END@ + after) == Some((text, after)),
    decreases text.len(),
{
    let s = cdata_safe(text) + CDATA_END@ + after;
    if text.len() == 0 {
        assert(s =~= CDATA_END@ + after);
        assert(s.subrange(0, 3) =~= CDATA_END@);
        assert(s.skip(3) =~= after);
    } else if text.len() >= 3 && occurs_at(text, 0, CDATA_END@) {
        let rest = text.skip(3);
        let t = cdata_safe(rest) + CDATA_END@ + after;
        law_cdata_round_trip(rest, after);
        lemma_read_restart(t, rest, after);
        assert(text =~= CDATA_END@ + rest) by {
            assert(text =~= text.subrange(0, 3) + rest);
        }
        assert(s =~= CDATA_END@.take(2) + CDATA_RESTART@ + CDATA_END@.skip(2) + t);
    } else {
        let rest = text.skip(1);
        law_cdata_round_trip(rest, after);
        lemma_cdata_safe_start(text);
        lemma_cdata_safe_start(rest);
        assert(cdata_safe(text) =~= text.take(1) + cdata_safe(rest));
        assert(s.skip(1) =~= cdata_safe(rest) + CDATA_END@ + after);
        if text.len() >= 3 {
            assert(text.subrange(0, 3) =~= seq![text[0], text[1], text[2]]);
            assert(CDATA_END@ =~= seq![0x5du8, 0x5du8, 0x3eu8]);
            assert(s[0] == text[0] && s[1] == text[1] && s[2] == text[2]);
        } else {
            assert(s[2] == 0x5d);
        }
        lemma_read_byte(s, rest, after);
        assert(s.take(1) + rest =~= text);
    }
}

/// Makes the `in_size` bytes behind the header safe for a CDATA section and
/// drops what follows them.
pub fn fix_cdata_end_seq(in_buf: Vec<u8>, header_size: usize, in_size: usize) -> (r: Option<Vec<u8>>)
    requires
        header_size + in_size <= usize::MAX,
        in_size >= 3 ==> header_size + in_size <= in_buf@.len(),
    ensures
        r matches Some(out) && out@ == if header_size + in_size <= in_buf@.len() {
            in_buf@.take(header_size as int) + cdata_safe(
                in_buf@.subrange(header_size as int, header_size + in_size),
            )
        } else {
            in_buf@
        },
{
    let end = header_size + in_size;
    if end > in_buf.len() {
        return Some(in_buf);
    }
    let mut out: Vec<u8> = Vec::new();
    append_bytes(&mut out, vstd::slice::slice_subrange(in_buf.as_slice(), 0, header_size));
    let ghost head = in_buf@.take(header_size as int);
    assert(out@ =~= head);
    let text = vstd::slice::slice_subrange(in_buf.as_slice(), header_size, end);
    let mut at: usize = 0;
    assert(text@.skip(0) =~= text@);
    while text.len() - at >= 3
        invariant
            at <= text@.len(),
            out@ + cdata_safe(text@.skip(at as int)) == head + cdata_safe(text@),
        decreases text.len() - at,
    {
        let ghost left = text@.skip(at as int);
        let ghost before = out@;
        assert(left.subrange(0, 3) =~= text@.subrange(at as int, at + 3));
        if matches_at(text, at, &CDATA_END) {
            append_bytes(&mut out, vstd::slice::slice_subrange(text, at, at + 2));
            append_bytes(&mut out, &CDATA_RESTART);
            out.push(text[at + 2]);
            proof {
                let rest = text@.skip(at + 3);
                assert(left.skip(3) =~= rest);
                assert(out@ + cdata_safe(rest) =~= before + (left.take(2) + CDATA_RESTART@
                    + left.subrange(2, 3) + cdata_safe(rest)));
            }
            at = at + 3;
        } else {
            out.push(text[at]);
            proof {
                let rest = text@.skip(at + 1);
                assert(left.skip(1) =~= rest);
                assert(out@ + cdata_safe(rest) =~= before + (left.take(1) + cdata_safe(rest)));
            }
            at = at + 1;
        }
    }
    append_bytes(&mut out, vstd::slice::slice_subrange(text, at, text.len()));
    assert(text@.skip(at as int) =~= text@.subrange(at as int, text@.len() as int));
    Some(out)
}

/// Whether the bytes of `]]>` stand in `s` at `i`.
pub open spec fn is_end_at(s: Seq<u8>, i: int) -> bool {
    0 <= i < s.len() - 2 && s[i] == 0x5d && s[i + 1] == 0x5d && s[i + 2] == 0x3e
}

/// Text without `]]>` stays as it is.
pub proof fn law_safe_text_unchanged(text: Seq<u8>)
    requires
        forall|i: int| !#[trigger] is_end_at(text, i),
    ensures
        cdata_safe(text) == text,
    decreases text.len(),
{
    if text.len() >= 3 {
        let rest = text.skip(1);
        let three = text.subrange(0, 3);
        assert(three[0] == text[0] && three[1] == text[1] && three[2] == text[2]);
        assert(!is_end_at(text, 0));
        assert forall|i: int| !#[trigger] is_end_at(rest, i) by {
            assert(!is_end_at(text, i + 1));
        }
        law_safe_text_unchanged(rest);
        assert(text.take(1) + rest =~= text);
    }
}

/// The first `]]>` of a text, at `at`, gets `]]><![CDATA[` between its brackets
/// and its `>`. What stands before it stays, and what follows is treated alike.
pub proof fn law_first_end_is_split(text: Seq<u8>, at: int)
    requires
        is_end_at(text, at),
        forall|i: int| i < at ==> !#[trigger] is_end_at(text, i),
    ensures
        cdata_safe(text) == text.take(at) + seq![
            0x5du8,
            0x5d,
            0x5d,
            0x5d,
            0x3e,
            0x3c,
            0x21,
            0x5b,
            0x43,
            0x44,
            0x41,
            0x54,
            0x41,
            0x5b,
            0x3e,
        ] + cdata_safe(text.skip(at + 3)),
    decreases at,
{
    let split = seq![
        0x5du8,
        0x5d,
        0x5d,
        0x5d,
        0x3e,
        0x3c,
        0x21,
        0x5b,
        0x43,
        0x44,
        0x41,
        0x54,
        0x41,
        0x5b,
        0x3e,
    ];
    let three = text.subrange(0, 3);
    assert(three[0] == text[0] && three[1] == text[1] && three[2] == text[2]);
    if at == 0 {
        assert(three =~= CDATA_END@);
        assert(text.take(2) + CDATA_RESTART@ + text.subrange(2, 3) =~= split);
        assert(text.take(0) + split =~= split);
    } else {
        let rest = text.skip(1);
        assert(!is_end_at(text, 0));
        assert(is_end_at(rest, at - 1));
        assert forall|i: int| i < at - 1 implies !#[trigger] is_end_at(rest, i) by {
            assert(!is_end_at(text, i + 1));
        }
        law_first_end_is_split(rest, at - 1);
        assert(rest.skip(at - 1 + 3) =~= text.skip(at + 3));
        assert(text.take(1) + (rest.take(at - 1) + split + cdata_safe(text.skip(at + 3)))
            =~= text.take(at) + split + cdata_safe(text.skip(at + 3)));
    }
}

} // verus!
