//! Reading UTF-8 and writing the character escapes of problem XML.

use vstd::prelude::*;
use vstd::utf8::{
    char_is_scalar, char_u32_cast, decode_first_scalar, encode_utf8, encode_utf8_first_scalar,
    encode_utf8_valid_utf8, length_of_first_scalar, pop_first_scalar, valid_utf8,
};

use crate::bytes::{append_bytes, append_zeros, matches_at};
use crate::bytes::{occurs_at, zeros};

verus! {

/// The UTF-8 byte order mark.
pub const BYTE_ORDER_MARK: [u8; 3] = [0xef, 0xbb, 0xbf];

/// How many bytes a sequence takes that starts with `b`. A byte that starts
/// no sequence stands alone.
pub open spec fn sequence_width(b: u8) -> nat {
    if b & 0x80 == 0 {
        1
    } else if b & 0xe0 == 0xc0 {
        2
    } else if b & 0xf0 == 0xe0 {
        3
    } else if b & 0xf8 == 0xf0 {
        4
    } else {
        1
    }
}

/// The payload of the continuation byte at position `i`; zero past the end.
pub open spec fn continuation(s: Seq<u8>, i: int) -> u32 {
    if i < s.len() {
        (s[i] & 0x3f) as u32
    } else {
        0
    }
}

/// The code of the sequence at the start of `s`: the payloads of its bytes, the
/// first one highest. A byte that starts no sequence has code 0.
pub open spec fn sequence_code(s: Seq<u8>) -> u32 {
    let b = s[0];
    if b & 0x80 == 0 {
        b as u32
    } else if b & 0xe0 == 0xc0 {
        ((b & 0x1f) as u32) << 6 | continuation(s, 1)
    } else if b & 0xf0 == 0xe0 {
        ((b & 0x0f) as u32) << 12 | continuation(s, 1) << 6 | continuation(s, 2)
    } else if b & 0xf8 == 0xf0 {
        ((b & 0x07) as u32) << 18 | continuation(s, 1) << 12 | continuation(s, 2) << 6
            | continuation(s, 3)
    } else {
        0
    }
}

/// How many bytes of `s` its first sequence takes, where the text may end in
/// the middle of it.
pub open spec fn sequence_len(s: Seq<u8>) -> nat {
    if sequence_width(s[0]) <= s.len() {
        sequence_width(s[0])
    } else {
        s.len()
    }
}

/// What stands for the character `code` in problem XML.
pub open spec fn escape_code(code: u32) -> Seq<u8> {
    let b0 = (code % 256) as u8;
    let b1 = (code / 256 % 256) as u8;
    let b2 = (code / 65536 % 256) as u8;
    if code < 0x80 {
        seq![b0]
    } else if code < 0x800 {
        seq![b1, b0]
    } else if code < 0x10000 {
        seq![0x80u8, b1, b0]
    } else {
        seq![0x08u8, b2, b1, b0]
    }
}

/// The text `s` with each sequence replaced by its escape.
pub open spec fn escaped(s: Seq<u8>) -> Seq<u8>
    decreases s.len(),
{
    if s.len() == 0 {
        Seq::empty()
    } else {
        escape_code(sequence_code(s)) + escaped(s.skip(sequence_len(s) as int))
    }
}

/// Where the text starts that follows a header of `header_size` bytes: behind
/// the byte order mark, if there is one.
pub open spec fn text_start(buf: Seq<u8>, header_size: nat) -> nat {
    if occurs_at(buf, header_size as int, BYTE_ORDER_MARK@) {
        header_size + 3
    } else {
        header_size
    }
}

/// The text of `in_size` bytes behind the header, without a byte order mark.
pub open spec fn text_of(buf: Seq<u8>, header_size: nat, in_size: nat) -> Seq<u8> {
    let start = text_start(buf, header_size);
    if start < header_size + in_size {
        buf.subrange(start as int, (header_size + in_size) as int)
    } else {
        Seq::empty()
    }
}

/// The bytes of `in_buf` from `offset` up to `end`, as far as there are any.
pub open spec fn window(in_buf: Seq<u8>, offset: nat, end: nat) -> Seq<u8> {
    in_buf.subrange(
        offset as int,
        if end <= in_buf.len() {
            end as int
        } else {
            in_buf.len() as int
        },
    )
}

/// Payload of the continuation byte at position `i`; zero from `end` on.
fn continuation_at(in_buf: &[u8], offset: usize, i: usize, end: usize) -> (c: u32)
    requires
        offset < in_buf@.len(),
        offset < end,
        i < 4,
        i < end - offset ==> offset + i < in_buf@.len(),
    ensures
        c == continuation(window(in_buf@, offset as nat, end as nat), i as int),
{
    if i < end - offset {
        (in_buf[offset + i] & 0x3f) as u32
    } else {
        0
    }
}

/// Reads the sequence at `offset` of the text that ends at `end`. Gives its
/// code and the position behind it.
pub fn utf8_to_unicode(in_buf: &[u8], offset: usize, end: usize) -> (r: (u32, usize))
    requires
        offset < end ==> offset < in_buf@.len() && (offset + sequence_width(in_buf@[offset as int])
            <= in_buf@.len() || end <= in_buf@.len()),
    ensures
        offset >= end ==> r == (0u32, offset),
        offset < end ==> {
            let w = sequence_width(in_buf@[offset as int]);
            &&& r.0 == sequence_code(window(in_buf@, offset as nat, end as nat))
            &&& r.1 == if offset + w <= end {
                offset + w
            } else {
                end as int
            }
        },
{
    if offset >= end {
        return (0, offset);
    }
    let b = in_buf[offset];
    assert(window(in_buf@, offset as nat, end as nat)[0] == b);
    if b & 0x80 == 0 {
        return (b as u32, offset + 1);
    }
    if b & 0xe0 == 0xc0 {
        let c = ((b & 0x1f) as u32) << 6 | continuation_at(in_buf, offset, 1, end);
        return (
            c,
            if end - offset < 2 {
                end
            } else {
                offset + 2
            },
        );
    }
    if b & 0xf0 == 0xe0 {
        let c = ((b & 0x0f) as u32) << 12 | continuation_at(in_buf, offset, 1, end) << 6
            | continuation_at(in_buf, offset, 2, end);
        return (
            c,
            if end - offset < 3 {
                end
            } else {
                offset + 3
            },
        );
    }
    if b & 0xf8 == 0xf0 {
        let c = ((b & 0x07) as u32) << 18 | continuation_at(in_buf, offset, 1, end) << 12
            | continuation_at(in_buf, offset, 2, end) << 6 | continuation_at(
            in_buf,
            offset,
            3,
            end,
        );
        return (
            c,
            if end - offset < 4 {
                end
            } else {
                offset + 4
            },
        );
    }
    (0, offset + 1)
}

/// Appends what stands for the character `code`.
fn push_escape(out: &mut Vec<u8>, code: u32)
    ensures
        final(out)@ == old(out)@ + escape_code(code),
{
    if code >= 0x80 {
        if code >= 0x800 {
            if code < 0x10000 {
                out.push(0x80);
            } else {
                out.push(0x08);
                out.push((code / 65536 % 256) as u8);
            }
        }
        out.push((code / 256 % 256) as u8);
    }
    out.push((code % 256) as u8);
    assert(out@ =~= old(out)@ + escape_code(code));
}

/// Replaces every character of the text behind the header by its escape. The
/// header is kept, a byte order mark is dropped, and room of `footer_size`
/// zero bytes is left at the end.
pub fn escape_unicode(
    in_buf: &[u8],
    header_size: usize,
    footer_size: usize,
    in_size: usize,
) -> (r: Option<Vec<u8>>)
    requires
        header_size + in_size <= in_buf.len(),
    ensures
        r matches Some(out) && out@ == in_buf@.take(header_size as int) + escaped(
            text_of(in_buf@, header_size as nat, in_size as nat),
        ) + zeros(footer_size as nat),
{
    let mut out: Vec<u8> = Vec::new();
    append_bytes(&mut out, vstd::slice::slice_subrange(in_buf, 0, header_size));
    let ghost head = in_buf@.take(header_size as int);
    assert(out@ =~= head);
    let end = header_size + in_size;
    let mut p = header_size;
    if matches_at(in_buf, p, &BYTE_ORDER_MARK) {
        p = p + 3;
    }
    let ghost start = p;
    let ghost text = text_of(in_buf@, header_size as nat, in_size as nat);
    let ghost mut left = text;
    assert(out@ + escaped(left) == head + escaped(text));
    while p < end
        invariant
            end <= in_buf@.len(),
            left == if p < end {
                in_buf@.subrange(p as int, end as int)
            } else {
                Seq::empty()
            },
            out@ + escaped(left) == head + escaped(text),
        decreases end - p,
    {
        let (code, next) = utf8_to_unicode(in_buf, p, end);
        assert(window(in_buf@, p as nat, end as nat) == left);
        let ghost before = out@;
        push_escape(&mut out, code);
        proof {
            let rest = left.skip(sequence_len(left) as int);
            assert(out@ + escaped(rest) =~= before + (escape_code(code) + escaped(rest)));
            assert(rest =~= if next < end {
                in_buf@.subrange(next as int, end as int)
            } else {
                Seq::empty()
            });
            left = rest;
        }
        p = next;
    }
    assert(out@ =~= head + escaped(text)) by {
        assert(out@ + Seq::<u8>::empty() =~= out@);
    }
    append_zeros(&mut out, footer_size);
    Some(out)
}

/// Whether no sequence is cut off by the end of the text `s`.
pub open spec fn complete(s: Seq<u8>) -> bool
    decreases s.len(),
{
    s.len() == 0 || (sequence_width(s[0]) <= s.len() && complete(
        s.skip(sequence_width(s[0]) as int),
    ))
}

/// ASCII text stays as it is.
pub proof fn law_ascii_unchanged(s: Seq<u8>)
    requires
        forall|i: int| 0 <= i < s.len() ==> #[trigger] s[i] < 0x80,
    ensures
        escaped(s) == s,
        complete(s),
    decreases s.len(),
{
    if s.len() > 0 {
        let b = s[0];
        lemma_leading_byte(b);
        law_ascii_unchanged(s.skip(1));
        assert(escaped(s) =~= seq![b] + s.skip(1));
        assert(s =~= seq![b] + s.skip(1));
    }
}

/// Which bytes start sequences of which width.
proof fn lemma_leading_byte(b: u8)
    ensures
        b <= 0x7f ==> b & 0x80 == 0 && b & 0x7f == b,
        0xc0 <= b <= 0xdf ==> b & 0x80 != 0 && b & 0xe0 == 0xc0,
        0xe0 <= b <= 0xef ==> b & 0x80 != 0 && b & 0xe0 != 0xc0 && b & 0xf0 == 0xe0,
        0xf0 <= b <= 0xf7 ==> b & 0x80 != 0 && b & 0xe0 != 0xc0 && b & 0xf0 != 0xe0 && b & 0xf8
            == 0xf0,
        b & 0x80 == 0 ==> b < 0x80,
        0x80 <= b < 0xc0 || 0xf8 <= b ==> b & 0x80 != 0 && b & 0xe0 != 0xc0 && b & 0xf0 != 0xe0 && b
            & 0xf8 != 0xf0,
{
    assert((b <= 0x7f ==> b & 0x80 == 0 && b & 0x7f == b) && (0xc0 <= b <= 0xdf ==> b & 0x80 != 0
        && b & 0xe0 == 0xc0) && (0xe0 <= b <= 0xef ==> b & 0x80 != 0 && b & 0xe0 != 0xc0 && b & 0xf0
        == 0xe0) && (0xf0 <= b <= 0xf7 ==> b & 0x80 != 0 && b & 0xe0 != 0xc0 && b & 0xf0 != 0xe0
        && b & 0xf8 == 0xf0) && (b & 0x80 == 0 ==> b < 0x80) && (0x80 <= b < 0xc0 || 0xf8 <= b ==> b
        & 0x80 != 0 && b & 0xe0 != 0xc0 && b & 0xf0 != 0xe0 && b & 0xf8 != 0xf0)) by (bit_vector);
}

/// How long the escape of a sequence is at most.
proof fn lemma_escape_len(s: Seq<u8>)
    requires
        s.len() > 0,
    ensures
        escape_code(sequence_code(s)).len() <= sequence_width(s[0]),
{
    let b = s[0];
    let c1 = continuation(s, 1);
    let c2 = continuation(s, 2);
    lemma_continuation_bound(s, 1);
    lemma_continuation_bound(s, 2);
    lemma_leading_byte(b);
    assert((((b & 0x1f) as u32) << 6 | c1) < 0x800) by (bit_vector)
        requires
            c1 < 0x40,
    ;
    assert((((b & 0x0f) as u32) << 12 | c1 << 6 | c2) < 0x10000) by (bit_vector)
        requires
            c1 < 0x40,
            c2 < 0x40,
    ;
}

/// A continuation byte has six bits of payload.
proof fn lemma_continuation_bound(s: Seq<u8>, i: int)
    ensures
        continuation(s, i) < 0x40,
        i < s.len() ==> continuation(s, i) == s[i] % 64,
{
    if i < s.len() {
        let b = s[i];
        assert((b & 0x3f) < 0x40 && b & 0x3f == b % 64) by (bit_vector);
    }
}

/// The payload of byte number `i`: its last six bits, or nothing past the end.
pub open spec fn payload(s: Seq<u8>, i: int) -> int {
    if i < s.len() {
        s[i] as int % 64
    } else {
        0
    }
}

/// What the first byte of a text says: the width of its sequence and the code,
/// as sums. It holds of any bytes, also of those that are no UTF-8.
pub proof fn law_sequence_sum(s: Seq<u8>)
    requires
        s.len() > 0,
    ensures
        ({
            let b = s[0];
            let (width, code) = if b < 0x80 {
                (1int, b as int)
            } else if 0xc0 <= b < 0xe0 {
                (2, 64 * (b - 0xc0) + payload(s, 1))
            } else if 0xe0 <= b < 0xf0 {
                (3, 4096 * (b - 0xe0) + 64 * payload(s, 1) + payload(s, 2))
            } else if 0xf0 <= b < 0xf8 {
                (
                    4,
                    262144 * (b - 0xf0) + 4096 * payload(s, 1) + 64 * payload(s, 2) + payload(s, 3),
                )
            } else {
                (1, 0)
            };
            &&& sequence_width(b) == width
            &&& sequence_code(s) == code
            &&& sequence_len(s) == if width <= s.len() {
                width
            } else {
                s.len() as int
            }
        }),
{
    let b = s[0];
    let c1 = continuation(s, 1);
    let c2 = continuation(s, 2);
    let c3 = continuation(s, 3);
    lemma_continuation_bound(s, 1);
    lemma_continuation_bound(s, 2);
    lemma_continuation_bound(s, 3);
    lemma_leading_byte(b);
    assert((0xc0 <= b < 0xe0 ==> (((b & 0x1f) as u32) << 6 | c1) == 64 * (b - 0xc0) + c1) && (0xe0
        <= b < 0xf0 ==> (((b & 0x0f) as u32) << 12 | c1 << 6 | c2) == 4096 * (b - 0xe0) + 64 * c1
        + c2) && (0xf0 <= b < 0xf8 ==> (((b & 0x07) as u32) << 18 | c1 << 12 | c2 << 6 | c3)
        == 262144 * (b - 0xf0) + 4096 * c1 + 64 * c2 + c3)) by (bit_vector)
        requires
            c1 < 0x40,
            c2 < 0x40,
            c3 < 0x40,
    ;
}

/// The escape of a character is its code in the fewest of four forms: one byte
/// for 7 bits, two for 11 bits, a marker and two bytes for 16 bits, else another
/// marker and three bytes. The bytes make up the code, the highest first.
pub proof fn law_escape_sum(code: u32)
    requires
        code < 0x100_0000,
    ensures
        ({
            let e = escape_code(code);
            &&& code < 0x80 <==> e.len() == 1
            &&& 0x80 <= code < 0x800 <==> e.len() == 2
            &&& 0x800 <= code < 0x1_0000 <==> e.len() == 3
            &&& 0x1_0000 <= code <==> e.len() == 4
            &&& e.len() == 1 ==> e[0] == code
            &&& e.len() == 2 ==> 256 * e[0] + e[1] == code
            &&& e.len() == 3 ==> e[0] == 0x80 && 256 * e[1] + e[2] == code
            &&& e.len() == 4 ==> e[0] == 0x08 && 65536 * e[1] + 256 * e[2] + e[3] == code
        }),
{
    assert(code / 256 / 256 == code / 65536);
}

/// A text is escaped sequence by sequence, and what follows a sequence does not
/// depend on it.
pub proof fn law_escaped_step(s: Seq<u8>)
    requires
        s.len() > 0,
    ensures
        escaped(s) == escape_code(sequence_code(s)) + escaped(s.skip(sequence_len(s) as int)),
        escaped(Seq::empty()) == Seq::<u8>::empty(),
{
}

/// Escapes are no longer than what they stand for, up to three bytes for a
/// sequence that the end of the text cuts off.
pub proof fn law_escaped_len(s: Seq<u8>)
    ensures
        escaped(s).len() <= s.len() + 3,
        complete(s) ==> escaped(s).len() <= s.len(),
    decreases s.len(),
{
    if s.len() > 0 {
        lemma_escape_len(s);
        law_escaped_len(s.skip(sequence_len(s) as int));
        if sequence_width(s[0]) > s.len() {
            assert(s.skip(sequence_len(s) as int).len() == 0);
        }
    }
}

/// Of valid UTF-8, the first sequence is the first character, and its code is
/// the code point of that character.
pub proof fn law_first_character(s: Seq<u8>)
    requires
        valid_utf8(s),
        s.len() > 0,
    ensures
        sequence_code(s) == decode_first_scalar(s),
        sequence_width(s[0]) == length_of_first_scalar(s),
        sequence_len(s) == length_of_first_scalar(s),
{
    lemma_leading_byte(s[0]);
}

/// No sequence of valid UTF-8 is cut off.
pub proof fn law_valid_is_complete(s: Seq<u8>)
    requires
        valid_utf8(s),
    ensures
        complete(s),
    decreases s.len(),
{
    if s.len() > 0 {
        law_first_character(s);
        let n = sequence_width(s[0]) as int;
        assert(pop_first_scalar(s) =~= s.skip(n));
        law_valid_is_complete(s.skip(n));
    }
}

/// The characters `text`, each replaced by its escape.
pub open spec fn escaped_chars(text: Seq<char>) -> Seq<u8>
    decreases text.len(),
{
    if text.len() == 0 {
        Seq::empty()
    } else {
        escape_code(text[0] as u32) + escaped_chars(text.drop_first())
    }
}

/// Escaping UTF-8 replaces each character by the escape of its code point.
pub proof fn law_escaped_text(text: Seq<char>)
    ensures
        escaped(encode_utf8(text)) == escaped_chars(text),
    decreases text.len(),
{
    let s = encode_utf8(text);
    if text.len() > 0 {
        encode_utf8_first_scalar(text);
        encode_utf8_valid_utf8(text);
        law_first_character(s);
        assert(s.skip(sequence_len(s) as int) =~= encode_utf8(text.drop_first()));
        law_escaped_text(text.drop_first());
    }
}

/// How long an escape is that starts with `b`.
pub open spec fn escape_width(b: u8) -> nat {
    if b < 0x08 {
        2
    } else if b == 0x08 {
        4
    } else if b == 0x80 {
        3
    } else {
        1
    }
}

/// The code of the escape at the start of `s`.
pub open spec fn escape_value(s: Seq<u8>) -> u32 {
    if s[0] < 0x08 {
        (256 * s[0] + s[1]) as u32
    } else if s[0] == 0x08 {
        (65536 * s[1] + 256 * s[2] + s[3]) as u32
    } else if s[0] == 0x80 {
        (256 * s[1] + s[2]) as u32
    } else {
        s[0] as u32
    }
}

/// The characters that the escapes in `s` stand for.
pub open spec fn unescaped(s: Seq<u8>) -> Seq<char>
    decreases s.len(),
{
    if s.len() == 0 || s.len() < escape_width(s[0]) {
        Seq::empty()
    } else {
        seq![escape_value(s) as char] + unescaped(s.skip(escape_width(s[0]) as int))
    }
}

/// A text can be read back from its escapes, as long as it has none of the
/// control characters whose codes are used for them.
pub proof fn law_escape_round_trip(text: Seq<char>)
    requires
        forall|i: int| 0 <= i < text.len() ==> #[trigger] text[i] as u32 > 0x08,
    ensures
        unescaped(escaped_chars(text)) == text,
    decreases text.len(),
{
    if text.len() > 0 {
        let code = text[0] as u32;
        let e = escape_code(code);
        let rest = escaped_chars(text.drop_first());
        let s = escaped_chars(text);
        law_escape_round_trip(text.drop_first());
        assert(s.skip(e.len() as int) =~= rest);
        assert(code / 256 / 256 == code / 65536);
        char_is_scalar(text[0]);
        char_u32_cast(text[0], code);
        assert(escape_value(s) == code);
        assert(text =~= seq![text[0]] + text.drop_first());
    }
}

/// The text behind a header is all that is asked for, but for the bytes EF BB BF
/// if it starts with them.
pub proof fn law_text_behind_header(buf: Seq<u8>, header_size: nat, in_size: nat)
    requires
        header_size + in_size <= buf.len(),
    ensures
        ({
            let h = header_size as int;
            let end = h + in_size;
            let marked = h + 3 <= buf.len() && buf[h] == 0xef && buf[h + 1] == 0xbb && buf[h + 2]
                == 0xbf;
            &&& !marked ==> text_of(buf, header_size, in_size) == buf.subrange(h, end)
            &&& marked && in_size >= 3 ==> text_of(buf, header_size, in_size) == buf.subrange(
                h + 3,
                end,
            )
            &&& marked && in_size < 3 ==> text_of(buf, header_size, in_size) == Seq::<u8>::empty()
        }),
{
    let h = header_size as int;
    if h + 3 <= buf.len() {
        let three = buf.subrange(h, h + 3);
        assert(three[0] == buf[h] && three[1] == buf[h + 1] && three[2] == buf[h + 2]);
        if buf[h] == 0xef && buf[h + 1] == 0xbb && buf[h + 2] == 0xbf {
            assert(three =~= BYTE_ORDER_MARK@);
        }
    }
    if in_size == 0 {
        assert(buf.subrange(h, h + in_size) =~= Seq::empty());
    }
    if in_size == 3 {
        assert(buf.subrange(h + 3, h + in_size) =~= Seq::empty());
    }
}

} // verus!
