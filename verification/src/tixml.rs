//! The compact form of problem XML: closing tags become a marker byte and the
//! number of the element that they close.

use vstd::prelude::*;

use crate::bytes::{append_bytes, append_zeros, find_byte, matches_at, write_over};
use crate::bytes::{occurs_at, overwrite, position_of, zeros};
use crate::bytes::{lemma_position_found, lemma_position_meaning};
use crate::cdata::is_end_at;

verus! {

/// `<`
pub const LT: u8 = 0x3c;

/// `>`
pub const GT: u8 = 0x3e;

/// `/`
pub const SLASH: u8 = 0x2f;

/// `!`
pub const BANG: u8 = 0x21;

/// Marks a shortened closing tag; the number of the element follows.
pub const CLOSE_MARK: u8 = 0x0e;

/// Elements with a smaller number have their closing tag shortened.
pub const SHORT_IDS: usize = 256;

/// How many elements may be open at once.
pub const MAX_DEPTH: usize = 100;

/// `<prob`
pub const PROB_ROOT: [u8; 5] = [0x3c, 0x70, 0x72, 0x6f, 0x62];

/// `<doc`
pub const DOC_ROOT: [u8; 4] = [0x3c, 0x64, 0x6f, 0x63];

/// `[CDATA[`
pub const CDATA_OPEN: [u8; 7] = [0x5b, 0x43, 0x44, 0x41, 0x54, 0x41, 0x5b];

/// `]]>`
pub const CDATA_END: [u8; 3] = [0x5d, 0x5d, 0x3e];

/// Position of the first occurrence of `pattern` at or after `from`.
pub open spec fn find_pattern(s: Seq<u8>, from: int, pattern: Seq<u8>) -> Option<int>
    decreases s.len() + 1 - from,
{
    if from + pattern.len() > s.len() {
        None
    } else if occurs_at(s, from, pattern) {
        Some(from)
    } else {
        find_pattern(s, from + 1, pattern)
    }
}

/// Position at or after `from` of the root element, `<prob` or `<doc`, that
/// at least one more byte than `<doc` follows.
pub open spec fn find_root(s: Seq<u8>, from: int) -> Option<int>
    decreases s.len() - from,
{
    if from + 4 >= s.len() {
        None
    } else if occurs_at(s, from, PROB_ROOT@) || occurs_at(s, from, DOC_ROOT@) {
        Some(from)
    } else {
        find_root(s, from + 1)
    }
}

/// What is written for one step through the XML: a single byte, or a run of
/// bytes that always finds room.
pub enum Piece {
    Byte(u8),
    Block(Seq<u8>),
}

impl Piece {
    /// The bytes of the piece.
    pub open spec fn content(self) -> Seq<u8> {
        match self {
            Piece::Byte(b) => seq![b],
            Piece::Block(d) => d,
        }
    }
}

/// `first` in front of `rest`, if there is a rest.
pub open spec fn prepend(first: Piece, rest: Option<Seq<Piece>>) -> Option<Seq<Piece>> {
    match rest {
        Some(ps) => Some(seq![first] + ps),
        None => None,
    }
}

/// Length of the CDATA section at the start of `s`, delimiters included, where
/// `s` starts with `<!`. Anything else after `<!` is no CDATA section.
pub open spec fn cdata_length(s: Seq<u8>) -> Option<int> {
    if s.len() > 11 && occurs_at(s, 2, CDATA_OPEN@) {
        match find_pattern(s, 9, CDATA_END@) {
            Some(k) => Some(k + 3),
            None => None,
        }
    } else {
        None
    }
}

/// What stands for the closing tag `tag` of element number `id`.
pub open spec fn closing_piece(id: nat, tag: Seq<u8>) -> Piece {
    if id < SHORT_IDS {
        Piece::Block(seq![CLOSE_MARK, id as u8])
    } else {
        Piece::Block(tag)
    }
}

/// The compact form of the XML text `s`, given the numbers of the elements
/// that are open (innermost last) and the number of the next element.
///
/// There is none where a tag or a CDATA section does not end, where a closing
/// tag closes nothing, where `<!` starts anything but a CDATA section, and
/// where elements nest too deep.
pub open spec fn pieces(s: Seq<u8>, open: Seq<nat>, next: nat) -> Option<Seq<Piece>>
    decreases s.len(),
{
    if s.len() == 0 {
        Some(Seq::empty())
    } else if s[0] != LT {
        prepend(Piece::Byte(s[0]), pieces(s.skip(1), open, next))
    } else if s.len() == 1 {
        None
    } else if s[1] == SLASH {
        match position_of(s, GT) {
            Some(gt) => {
                proof {
                    lemma_position_meaning(s, GT);
                }
                if open.len() == 0 {
                    None
                } else {
                    prepend(
                        closing_piece(open.last(), s.take(gt + 1)),
                        pieces(s.skip(gt + 1), open.drop_last(), next),
                    )
                }
            },
            None => None,
        }
    } else if s[1] == BANG {
        match cdata_length(s) {
            Some(n) => {
                proof {
                    lemma_cdata_length(s);
                }
                prepend(Piece::Block(s.take(n)), pieces(s.skip(n), open, next))
            },
            None => None,
        }
    } else if open.len() >= MAX_DEPTH {
        None
    } else {
        prepend(Piece::Byte(LT), pieces(s.skip(1), open.push(next), next + 1))
    }
}

/// Total length of the pieces.
pub open spec fn pieces_len(ps: Seq<Piece>) -> nat
    decreases ps.len(),
{
    if ps.len() == 0 {
        0
    } else {
        pieces_len(ps.drop_last()) + ps.last().content().len()
    }
}

/// The bytes of the pieces, one after the other.
pub open spec fn pieces_bytes(ps: Seq<Piece>) -> Seq<u8>
    decreases ps.len(),
{
    if ps.len() == 0 {
        Seq::empty()
    } else {
        pieces_bytes(ps.drop_last()) + ps.last().content()
    }
}

/// The bytes of the compact form of `s`; see [`pieces`].
pub open spec fn compact(s: Seq<u8>, open: Seq<nat>, next: nat) -> Option<Seq<u8>> {
    match pieces(s, open, next) {
        Some(ps) => Some(pieces_bytes(ps)),
        None => None,
    }
}

/// `first` in front of `rest`, if there is a rest.
pub open spec fn joined(first: Seq<u8>, rest: Option<Seq<u8>>) -> Option<Seq<u8>> {
    match rest {
        Some(bytes) => Some(first + bytes),
        None => None,
    }
}

/// `buf`, filled up with zeros to at least `n` bytes.
pub open spec fn grown(buf: Seq<u8>, n: nat) -> Seq<u8> {
    if n > buf.len() {
        buf + zeros((n - buf.len()) as nat)
    } else {
        buf
    }
}

/// `buf` after `piece` was written at position `at`. A single byte past the
/// end is lost; a block makes the room that it needs.
pub open spec fn place(buf: Seq<u8>, at: nat, piece: Piece) -> Seq<u8> {
    match piece {
        Piece::Byte(b) => if at < buf.len() {
            buf.update(at as int, b)
        } else {
            buf
        },
        Piece::Block(d) => overwrite(grown(buf, at + d.len()), at, d),
    }
}

/// `buf` after the pieces were written one after the other from `start` on.
pub open spec fn layout(buf: Seq<u8>, start: nat, ps: Seq<Piece>) -> Seq<u8>
    decreases ps.len(),
{
    if ps.len() == 0 {
        buf
    } else {
        let before = ps.drop_last();
        place(layout(buf, start, before), start + pieces_len(before), ps.last())
    }
}

/// The document that `in_buf` becomes: its first `header_size` bytes, then the
/// compact form of the XML from the root element on, laid out in a buffer with
/// room for `in_size` bytes.
pub open spec fn reformatted(in_buf: Seq<u8>, header_size: nat, in_size: nat) -> Option<Seq<u8>> {
    match find_root(in_buf, header_size as int) {
        Some(root) => match pieces(in_buf.skip(root), Seq::empty(), 0) {
            Some(ps) => {
                let room = in_buf.take(header_size as int) + zeros(in_size);
                let buf = layout(room, header_size, ps);
                let end = header_size + pieces_len(ps);
                Some(
                    if end <= buf.len() {
                        buf.take(end as int)
                    } else {
                        buf
                    },
                )
            },
            None => None,
        },
        None => None,
    }
}

/// A pattern that is found lies inside the text and stands there.
pub proof fn lemma_find_pattern(s: Seq<u8>, from: int, pattern: Seq<u8>)
    requires
        0 <= from,
    ensures
        find_pattern(s, from, pattern) matches Some(k) ==> from <= k && occurs_at(s, k, pattern)
            && (forall|j: int| from <= j < k ==> !occurs_at(s, j, pattern)),
        find_pattern(s, from, pattern) is None ==> forall|j: int|
            from <= j ==> !occurs_at(s, j, pattern),
    decreases s.len() + 1 - from,
{
    if from + pattern.len() <= s.len() && !occurs_at(s, from, pattern) {
        lemma_find_pattern(s, from + 1, pattern);
    }
}

/// A CDATA section is not empty and ends inside the text.
pub proof fn lemma_cdata_length(s: Seq<u8>)
    ensures
        cdata_length(s) matches Some(n) ==> 12 <= n <= s.len(),
{
    lemma_find_pattern(s, 9, CDATA_END@);
}

/// Writes one byte, if there is room for it.
fn put_byte(out: &mut Vec<u8>, at: usize, b: u8)
    ensures
        final(out)@ == place(old(out)@, at as nat, Piece::Byte(b)),
{
    if at < out.len() {
        out[at] = b;
    }
}

/// Writes a block, making room for it.
fn put_block(out: &mut Vec<u8>, at: usize, data: &[u8])
    requires
        at + data@.len() <= usize::MAX,
    ensures
        final(out)@ == place(old(out)@, at as nat, Piece::Block(data@)),
{
    let end = at + data.len();
    if end > out.len() {
        let missing = end - out.len();
        append_zeros(out, missing);
    }
    assert(out@ == grown(old(out)@, end as nat));
    write_over(out, at, data);
}

/// Looks for `]]>` at or after `from`.
fn find_cdata_end(s: &[u8], from: usize) -> (r: Option<usize>)
    requires
        from <= s@.len(),
    ensures
        match r {
            Some(k) => from <= k && k + 3 <= s@.len() && find_pattern(
                s@,
                from as int,
                CDATA_END@,
            ) == Some(k as int),
            None => find_pattern(s@, from as int, CDATA_END@) is None,
        },
{
    let mut k: usize = from;
    while s.len() - k >= 3
        invariant
            from <= k <= s@.len(),
            find_pattern(s@, from as int, CDATA_END@) == find_pattern(s@, k as int, CDATA_END@),
        decreases s.len() - k,
    {
        if matches_at(s, k, &CDATA_END) {
            return Some(k);
        }
        k = k + 1;
    }
    None
}

/// Looks for the root element at or after `from`.
fn find_root_element(s: &[u8], from: usize) -> (r: Option<usize>)
    requires
        from <= s@.len(),
    ensures
        match r {
            Some(k) => from <= k && k + 4 < s@.len() && find_root(s@, from as int) == Some(
                k as int,
            ),
            None => find_root(s@, from as int) is None,
        },
{
    let mut k: usize = from;
    while s.len() - k > 4
        invariant
            from <= k <= s@.len(),
            find_root(s@, from as int) == find_root(s@, k as int),
        decreases s.len() - k,
    {
        if matches_at(s, k, &PROB_ROOT) || matches_at(s, k, &DOC_ROOT) {
            return Some(k);
        }
        k = k + 1;
    }
    None
}

/// The numbers that a stack of open elements holds.
pub open spec fn open_ids(stack: Seq<usize>) -> Seq<nat> {
    stack.map_values(|id: usize| id as nat)
}

/// Whether `done` and the compact form of what is left make up the compact
/// form of the whole.
spec fn resumes(whole: Option<Seq<Piece>>, done: Seq<Piece>, left: Option<Seq<Piece>>) -> bool {
    match left {
        Some(ps) => whole == Some(done + ps),
        None => whole is None,
    }
}

/// One step forward: the first piece of what is left joins what is done.
proof fn lemma_resume_step(
    whole: Option<Seq<Piece>>,
    done: Seq<Piece>,
    first: Piece,
    left: Option<Seq<Piece>>,
)
    requires
        resumes(whole, done, prepend(first, left)),
    ensures
        resumes(whole, done.push(first), left),
        pieces_len(done.push(first)) == pieces_len(done) + first.content().len(),
        forall|buf: Seq<u8>, start: nat|
            #![trigger layout(buf, start, done.push(first))]
            layout(buf, start, done.push(first)) == place(
                layout(buf, start, done),
                start + pieces_len(done),
                first,
            ),
{
    assert(done.push(first).drop_last() =~= done);
    if left is Some {
        assert(done.push(first) + left->0 =~= done + (seq![first] + left->0));
    }
}

/// Turns the XML in `in_buf` into its compact form behind the first
/// `header_size` bytes. What stands between them and the root element is
/// dropped.
pub fn reformat_xml_doc(in_buf: &[u8], header_size: usize, in_size: usize) -> (r: Option<Vec<u8>>)
    requires
        header_size <= in_buf@.len(),
        header_size + in_size <= usize::MAX,
    ensures
        match r {
            Some(out) => reformatted(in_buf@, header_size as nat, in_size as nat) == Some(out@),
            None => reformatted(in_buf@, header_size as nat, in_size as nat) is None,
        },
{
    let mut out: Vec<u8> = Vec::new();
    append_bytes(&mut out, vstd::slice::slice_subrange(in_buf, 0, header_size));
    append_zeros(&mut out, in_size);
    let ghost room = in_buf@.take(header_size as int) + zeros(in_size as nat);
    assert(out@ =~= room);

    let root = match find_root_element(in_buf, header_size) {
        Some(k) => k,
        None => {
            return None;
        },
    };
    let xml = vstd::slice::slice_subrange(in_buf, root, in_buf.len());
    assert(xml@ =~= in_buf@.skip(root as int));
    let size = xml.len();
    let mut at: usize = 0;
    let mut written: usize = 0;
    let mut stack: Vec<usize> = Vec::new();
    let mut next: usize = 0;
    let ghost mut done: Seq<Piece> = Seq::empty();
    let ghost whole = pieces(xml@, Seq::empty(), 0);
    proof {
        assert(xml@.skip(0) =~= xml@);
        assert(open_ids(stack@) =~= Seq::<nat>::empty());
        if whole is Some {
            assert(done + whole->0 =~= whole->0);
        }
    }

    while at < size
        invariant
            size == xml@.len(),
            header_size + size <= usize::MAX,
            whole is None ==> reformatted(in_buf@, header_size as nat, in_size as nat) is None,
            at <= size,
            written <= at,
            next <= at,
            written == pieces_len(done),
            out@ == layout(room, header_size as nat, done),
            resumes(whole, done, pieces(xml@.skip(at as int), open_ids(stack@), next as nat)),
        decreases size - at,
    {
        let ghost s = xml@.skip(at as int);
        let ghost open = open_ids(stack@);
        let ghost done0 = done;
        if xml[at] != LT {
            put_byte(&mut out, header_size + written, xml[at]);
            proof {
                let first = Piece::Byte(s[0]);
                lemma_resume_step(whole, done, first, pieces(s.skip(1), open, next as nat));
                done = done.push(first);
                assert(s.skip(1) =~= xml@.skip(at + 1));
            }
            written = written + 1;
            at = at + 1;
        } else if size - at == 1 {
            return None;
        } else if xml[at + 1] == SLASH {
            let id = match stack.pop() {
                Some(id) => id,
                None => {
                    return None;
                },
            };
            assert(open.last() == id);
            assert(open_ids(stack@) =~= open.drop_last());
            let gt = match find_byte(xml, at, GT) {
                Some(k) => k,
                None => {
                    return None;
                },
            };
            proof {
                lemma_position_meaning(s, GT);
                assert(s[0] == LT && s[1] == SLASH);
            }
            let tag = vstd::slice::slice_subrange(xml, at, gt + 1);
            assert(tag@ =~= s.take(gt + 1 - at));
            let ghost first = closing_piece(id as nat, tag@);
            proof {
                lemma_resume_step(
                    whole,
                    done,
                    first,
                    pieces(s.skip(gt + 1 - at), open.drop_last(), next as nat),
                );
                done = done.push(first);
                assert(s.skip(gt + 1 - at) =~= xml@.skip(gt + 1));
            }
            if id < SHORT_IDS {
                let mark: [u8; 2] = [CLOSE_MARK, id as u8];
                put_block(&mut out, header_size + written, &mark);
                assert(mark@ =~= seq![CLOSE_MARK, id as u8]);
                written = written + 2;
            } else {
                put_block(&mut out, header_size + written, tag);
                written = written + tag.len();
            }
            at = gt + 1;
        } else if xml[at + 1] == BANG {
            if size - at <= 11 || !matches_at(xml, at + 2, &CDATA_OPEN) {
                assert(!(s.len() > 11 && occurs_at(s, 2, CDATA_OPEN@))) by {
                    if s.len() > 11 {
                        assert(s.subrange(2, 9) =~= xml@.subrange(at + 2, at + 9));
                    }
                }
                return None;
            }
            assert(s.subrange(2, 9) =~= xml@.subrange(at + 2, at + 9));
            proof {
                lemma_find_pattern_shift(xml@, at as int, 9, CDATA_END@);
            }
            let end = match find_cdata_end(xml, at + 9) {
                Some(k) => k + 3,
                None => {
                    return None;
                },
            };
            let section = vstd::slice::slice_subrange(xml, at, end);
            assert(section@ =~= s.take(end - at));
            proof {
                let first = Piece::Block(section@);
                lemma_resume_step(
                    whole,
                    done,
                    first,
                    pieces(s.skip(end - at), open, next as nat),
                );
                done = done.push(first);
                assert(s.skip(end - at) =~= xml@.skip(end as int));
            }
            put_block(&mut out, header_size + written, section);
            written = written + section.len();
            at = end;
        } else {
            if stack.len() >= MAX_DEPTH {
                return None;
            }
            stack.push(next);
            assert(open_ids(stack@) =~= open.push(next as nat));
            put_byte(&mut out, header_size + written, LT);
            proof {
                let first = Piece::Byte(LT);
                lemma_resume_step(
                    whole,
                    done,
                    first,
                    pieces(s.skip(1), open.push(next as nat), next as nat + 1),
                );
                done = done.push(first);
                assert(s.skip(1) =~= xml@.skip(at + 1));
            }
            next = next + 1;
            written = written + 1;
            at = at + 1;
        }
    }
    proof {
        assert(xml@.skip(at as int) =~= Seq::empty());
        assert(done + Seq::<Piece>::empty() =~= done);
        assert(whole == Some(done));
    }
    out.truncate(header_size + written);
    Some(out)
}

/// Searching a suffix is searching the text further on.
proof fn lemma_find_pattern_shift(s: Seq<u8>, at: int, from: int, pattern: Seq<u8>)
    requires
        0 <= at <= s.len(),
        0 <= from,
    ensures
        find_pattern(s.skip(at), from, pattern) == match find_pattern(s, at + from, pattern) {
            Some(k) => Some(k - at),
            None => None,
        },
    decreases s.len() + 1 - (at + from),
{
    let t = s.skip(at);
    if at + from + pattern.len() <= s.len() {
        assert(t.subrange(from, from + pattern.len()) =~= s.subrange(
            at + from,
            at + from + pattern.len(),
        ));
        if !occurs_at(t, from, pattern) {
            lemma_find_pattern_shift(s, at, from + 1, pattern);
        }
    }
}

/// The first piece comes first.
proof fn lemma_pieces_first(first: Piece, ps: Seq<Piece>)
    ensures
        pieces_len(seq![first] + ps) == first.content().len() + pieces_len(ps),
        pieces_bytes(seq![first] + ps) == first.content() + pieces_bytes(ps),
        pieces_bytes(ps).len() == pieces_len(ps),
    decreases ps.len(),
{
    let all = seq![first] + ps;
    if ps.len() == 0 {
        assert(all.drop_last() =~= Seq::empty());
        assert(all.last() == first);
        assert(pieces_bytes(all.drop_last()) == Seq::<u8>::empty());
        assert(pieces_len(all.drop_last()) == 0);
        assert(pieces_len(ps) == 0);
        assert(pieces_bytes(all) =~= first.content() + pieces_bytes(ps));
    } else {
        lemma_pieces_first(first, ps.drop_last());
        assert(all.drop_last() =~= seq![first] + ps.drop_last());
        assert(all.last() == ps.last());
        assert(pieces_bytes(all) =~= first.content() + pieces_bytes(ps));
    }
}

/// The compact form is never longer than the XML.
pub proof fn law_compact_is_shorter(s: Seq<u8>, open: Seq<nat>, next: nat)
    ensures
        compact(s, open, next) matches Some(c) ==> c.len() <= s.len(),
        pieces(s, open, next) matches Some(ps) ==> pieces_len(ps) == pieces_bytes(ps).len(),
    decreases s.len(),
{
    if let Some(ps) = pieces(s, open, next) {
        if s.len() == 0 {
        } else if s[0] != LT {
            law_compact_is_shorter(s.skip(1), open, next);
            lemma_pieces_first(Piece::Byte(s[0]), pieces(s.skip(1), open, next)->0);
        } else if s[1] == SLASH {
            lemma_position_meaning(s, GT);
            let gt = position_of(s, GT)->0;
            let left = pieces(s.skip(gt + 1), open.drop_last(), next);
            law_compact_is_shorter(s.skip(gt + 1), open.drop_last(), next);
            lemma_pieces_first(closing_piece(open.last(), s.take(gt + 1)), left->0);
        } else if s[1] == BANG {
            lemma_cdata_length(s);
            let n = cdata_length(s)->0;
            law_compact_is_shorter(s.skip(n), open, next);
            lemma_pieces_first(Piece::Block(s.take(n)), pieces(s.skip(n), open, next)->0);
        } else {
            let left = pieces(s.skip(1), open.push(next), next + 1);
            law_compact_is_shorter(s.skip(1), open.push(next), next + 1);
            lemma_pieces_first(Piece::Byte(LT), left->0);
        }
    }
}

/// Where there is room for all pieces, they end up one after the other.
proof fn lemma_layout(room: Seq<u8>, start: nat, ps: Seq<Piece>)
    requires
        start + pieces_len(ps) <= room.len(),
    ensures
        pieces_bytes(ps).len() == pieces_len(ps),
        layout(room, start, ps).len() == room.len(),
        layout(room, start, ps).take((start + pieces_len(ps)) as int) == room.take(start as int)
            + pieces_bytes(ps),
    decreases ps.len(),
{
    if ps.len() == 0 {
        assert(room.take(start as int) =~= room.take(start as int) + pieces_bytes(ps));
    } else {
        let before = ps.drop_last();
        lemma_layout(room, start, before);
        let buf = layout(room, start, before);
        let at = start + pieces_len(before);
        let d = ps.last().content();
        let after = place(buf, at, ps.last());
        assert(after.take(at as int) =~= buf.take(at as int));
        assert(after.subrange(at as int, (at + d.len()) as int) =~= d);
        assert(after.take((at + d.len()) as int) =~= after.take(at as int) + d);
        assert(room.take(start as int) + pieces_bytes(before) + d =~= room.take(start as int) + (
        pieces_bytes(before) + d));
    }
}

/// A document whose text is no longer than the room for it becomes the header
/// and behind it the whole compact form, which is never longer than the text.
pub proof fn law_document_is_compact(in_buf: Seq<u8>, header_size: nat, in_size: nat)
    requires
        header_size <= in_buf.len() <= header_size + in_size,
    ensures
        reformatted(in_buf, header_size, in_size) == match find_root(in_buf, header_size as int) {
            Some(root) => joined(
                in_buf.take(header_size as int),
                compact(in_buf.skip(root), Seq::empty(), 0),
            ),
            None => None,
        },
        reformatted(in_buf, header_size, in_size) matches Some(out) ==> out.len() <= in_buf.len(),
{
    lemma_find_root(in_buf, header_size as int);
    if let Some(root) = find_root(in_buf, header_size as int) {
        let xml = in_buf.skip(root);
        law_compact_is_shorter(xml, Seq::empty(), 0);
        if let Some(ps) = pieces(xml, Seq::empty(), 0) {
            let room = in_buf.take(header_size as int) + zeros(in_size);
            lemma_layout(room, header_size, ps);
            assert(room.take(header_size as int) =~= in_buf.take(header_size as int));
        }
    }
}

/// A root element that is found lies inside the text.
pub proof fn lemma_find_root(s: Seq<u8>, from: int)
    requires
        0 <= from,
    ensures
        find_root(s, from) matches Some(k) ==> from <= k && k + 4 < s.len(),
    decreases s.len() - from,
{
    if from + 4 < s.len() && !(occurs_at(s, from, PROB_ROOT@) || occurs_at(s, from, DOC_ROOT@)) {
        lemma_find_root(s, from + 1);
    }
}

/// Whether the bytes of `<prob` or those of `<doc` stand in `s` at `i`.
pub open spec fn is_root_at(s: Seq<u8>, i: int) -> bool {
    ||| 0 <= i && i + 5 <= s.len() && s[i] == 0x3c && s[i + 1] == 0x70 && s[i + 2] == 0x72 && s[i
        + 3] == 0x6f && s[i + 4] == 0x62
    ||| 0 <= i && i + 4 <= s.len() && s[i] == 0x3c && s[i + 1] == 0x64 && s[i + 2] == 0x6f && s[i
        + 3] == 0x63
}

/// What a root element is does not depend on what follows its first letters.
proof fn lemma_is_root_at(s: Seq<u8>, i: int)
    requires
        0 <= i,
    ensures
        is_root_at(s, i) <==> occurs_at(s, i, PROB_ROOT@) || occurs_at(s, i, DOC_ROOT@),
{
    if i + 5 <= s.len() {
        let five = s.subrange(i, i + 5);
        assert(five[0] == s[i] && five[1] == s[i + 1] && five[2] == s[i + 2] && five[3] == s[i + 3]
            && five[4] == s[i + 4]);
        if is_root_at(s, i) && s[i + 1] == 0x70 {
            assert(five =~= PROB_ROOT@);
        }
    }
    if i + 4 <= s.len() {
        let four = s.subrange(i, i + 4);
        assert(four[0] == s[i] && four[1] == s[i + 1] && four[2] == s[i + 2] && four[3] == s[i
            + 3]);
        if is_root_at(s, i) && s[i + 1] == 0x64 {
            assert(four =~= DOC_ROOT@);
        }
    }
}

/// The root element is where `<prob` or `<doc` stands first, whatever follows
/// it, as long as at least five bytes are left. There is none only if they stand
/// nowhere.
pub proof fn law_root(s: Seq<u8>, from: int)
    requires
        0 <= from,
    ensures
        match find_root(s, from) {
            Some(r) => {
                &&& from <= r && r + 4 < s.len()
                &&& is_root_at(s, r)
                &&& forall|i: int| from <= i < r ==> !#[trigger] is_root_at(s, i)
            },
            None => forall|i: int| from <= i && i + 4 < s.len() ==> !#[trigger] is_root_at(s, i),
        },
    decreases s.len() - from,
{
    if from + 4 < s.len() {
        lemma_is_root_at(s, from);
        if !is_root_at(s, from) {
            law_root(s, from + 1);
        }
    }
}

/// The root element is found where it stands first.
pub proof fn lemma_root_found(s: Seq<u8>, from: int, root: int)
    requires
        0 <= from <= root,
        root + 4 < s.len(),
        occurs_at(s, root, PROB_ROOT@),
        forall|i: int|
            from <= i < root ==> #[trigger] s[i] != LT || (s[i + 1] != 0x70 && s[i + 1] != 0x64),
    ensures
        find_root(s, from) == Some(root),
    decreases root - from,
{
    if from < root {
        let four = s.subrange(from, from + 4);
        let five = s.subrange(from, from + 5);
        assert(s[from] == four[0] && s[from + 1] == four[1]);
        assert(s[from] == five[0] && s[from + 1] == five[1]);
        lemma_root_found(s, from + 1, root);
    }
}

/// The XML of the compact form `c`, where `closers` are the closing tags of the
/// elements by their numbers.
pub open spec fn expanded(c: Seq<u8>, closers: spec_fn(nat) -> Seq<u8>) -> Seq<u8>
    decreases c.len(),
{
    if c.len() < 2 {
        c
    } else if c[0] == CLOSE_MARK {
        closers(c[1] as nat) + expanded(c.skip(2), closers)
    } else if c[0] == LT && c[1] == SLASH {
        match position_of(c, GT) {
            Some(gt) => {
                proof {
                    lemma_position_meaning(c, GT);
                }
                c.take(gt + 1) + expanded(c.skip(gt + 1), closers)
            },
            None => c,
        }
    } else if c[0] == LT && c[1] == BANG {
        match cdata_length(c) {
            Some(n) => {
                proof {
                    lemma_cdata_length(c);
                }
                c.take(n) + expanded(c.skip(n), closers)
            },
            None => c,
        }
    } else {
        c.take(1) + expanded(c.skip(1), closers)
    }
}

/// Whether the XML text `s` closes each element with its tag in `closers`, and
/// has no marker of its own outside of CDATA sections. The numbers are those
/// of [`pieces`].
pub open spec fn closes_with(
    s: Seq<u8>,
    open: Seq<nat>,
    next: nat,
    closers: spec_fn(nat) -> Seq<u8>,
) -> bool
    decreases s.len(),
{
    if s.len() == 0 {
        true
    } else if s[0] != LT {
        s[0] != CLOSE_MARK && closes_with(s.skip(1), open, next, closers)
    } else if s.len() == 1 {
        true
    } else if s[1] == SLASH {
        match position_of(s, GT) {
            Some(gt) => {
                proof {
                    lemma_position_meaning(s, GT);
                }
                &&& open.len() > 0
                &&& open.last() < SHORT_IDS ==> s.take(gt + 1) == closers(open.last())
                &&& closes_with(s.skip(gt + 1), open.drop_last(), next, closers)
            },
            None => true,
        }
    } else if s[1] == BANG {
        match cdata_length(s) {
            Some(n) => {
                proof {
                    lemma_cdata_length(s);
                }
                closes_with(s.skip(n), open, next, closers)
            },
            None => true,
        }
    } else {
        closes_with(s.skip(1), open.push(next), next + 1, closers)
    }
}

/// A text that starts with a closing tag expands to the tag and the rest.
proof fn lemma_expand_tag(tag: Seq<u8>, rest: Seq<u8>, closers: spec_fn(nat) -> Seq<u8>)
    requires
        tag.len() > 2,
        tag[0] == LT,
        tag[1] == SLASH,
        position_of(tag, GT) == Some(tag.len() - 1),
    ensures
        expanded(tag + rest, closers) == tag + expanded(rest, closers),
{
    let c = tag + rest;
    lemma_position_meaning(tag, GT);
    lemma_position_found(c, GT, tag.len() - 1);
    assert(c.take(tag.len() as int) =~= tag);
    assert(c.skip(tag.len() as int) =~= rest);
}

/// A tag ends where its first `>` stands.
proof fn lemma_tag_end(s: Seq<u8>)
    ensures
        position_of(s, GT) matches Some(gt) ==> 0 <= gt < s.len() && position_of(
            s.take(gt + 1),
            GT,
        ) == Some(gt),
{
    lemma_position_meaning(s, GT);
    if let Some(gt) = position_of(s, GT) {
        lemma_position_found(s.take(gt + 1), GT, gt);
    }
}

/// A text that starts with a CDATA section has its end where the section ends.
proof fn lemma_section_end(s: Seq<u8>, n: int, rest: Seq<u8>)
    requires
        cdata_length(s) == Some(n),
    ensures
        12 <= n <= s.len(),
        cdata_length(s.take(n) + rest) == Some(n),
{
    let c = s.take(n) + rest;
    lemma_cdata_length(s);
    lemma_find_pattern(s, 9, CDATA_END@);
    lemma_find_pattern(c, 9, CDATA_END@);
    assert(c.subrange(2, 9) =~= s.subrange(2, 9));
    assert(c.subrange(n - 3, n) =~= s.subrange(n - 3, n));
    assert(occurs_at(c, n - 3, CDATA_END@));
    assert forall|j: int| 9 <= j < n - 3 implies !occurs_at(c, j, CDATA_END@) by {
        assert(c.subrange(j, j + 3) =~= s.subrange(j, j + 3));
        assert(!occurs_at(s, j, CDATA_END@));
    }
}

/// The first byte of a compact form: that of the XML, unless the XML starts
/// with a closing tag.
proof fn lemma_first_byte(s: Seq<u8>, open: Seq<nat>, next: nat)
    requires
        s.len() > 0,
        pieces(s, open, next) is Some,
    ensures
        ({
            let c = pieces_bytes(pieces(s, open, next)->0);
            &&& c.len() > 0
            &&& c[0] == s[0] || (s[0] == LT && c[0] == CLOSE_MARK)
        }),
{
    if s[0] != LT {
        lemma_pieces_first(Piece::Byte(s[0]), pieces(s.skip(1), open, next)->0);
    } else if s[1] == SLASH {
        lemma_position_meaning(s, GT);
        let gt = position_of(s, GT)->0;
        let left = pieces(s.skip(gt + 1), open.drop_last(), next);
        lemma_pieces_first(closing_piece(open.last(), s.take(gt + 1)), left->0);
    } else if s[1] == BANG {
        lemma_cdata_length(s);
        let n = cdata_length(s)->0;
        lemma_pieces_first(Piece::Block(s.take(n)), pieces(s.skip(n), open, next)->0);
    } else {
        lemma_pieces_first(Piece::Byte(LT), pieces(s.skip(1), open.push(next), next + 1)->0);
    }
}

/// Nothing but the wording of closing tags is lost in the compact form: with
/// the closing tags of the elements, the XML can be read back.
pub proof fn law_compact_round_trip(
    s: Seq<u8>,
    open: Seq<nat>,
    next: nat,
    closers: spec_fn(nat) -> Seq<u8>,
)
    requires
        closes_with(s, open, next, closers),
    ensures
        compact(s, open, next) matches Some(c) ==> expanded(c, closers) == s,
    decreases s.len(),
{
    if let Some(ps) = pieces(s, open, next) {
        let c = pieces_bytes(ps);
        if s.len() == 0 {
        } else if s[0] != LT {
            let left = pieces(s.skip(1), open, next)->0;
            let rest = pieces_bytes(left);
            law_compact_round_trip(s.skip(1), open, next, closers);
            lemma_pieces_first(Piece::Byte(s[0]), left);
            assert(c.skip(1) =~= rest);
            assert(c.take(1) =~= s.take(1));
            assert(s =~= s.take(1) + s.skip(1));
            if c.len() < 2 {
                assert(rest =~= Seq::empty());
                assert(s.skip(1) == expanded(rest, closers));
                assert(c =~= s);
            }
        } else if s[1] == SLASH {
            lemma_position_meaning(s, GT);
            lemma_tag_end(s);
            let gt = position_of(s, GT)->0;
            let tag = s.take(gt + 1);
            let first = closing_piece(open.last(), tag);
            let left = pieces(s.skip(gt + 1), open.drop_last(), next)->0;
            let rest = pieces_bytes(left);
            law_compact_round_trip(s.skip(gt + 1), open.drop_last(), next, closers);
            lemma_pieces_first(first, left);
            assert(s =~= tag + s.skip(gt + 1));
            if open.last() < SHORT_IDS {
                assert(c.skip(2) =~= rest);
            } else {
                lemma_expand_tag(tag, rest, closers);
            }
        } else if s[1] == BANG {
            lemma_cdata_length(s);
            let n = cdata_length(s)->0;
            let left = pieces(s.skip(n), open, next)->0;
            let rest = pieces_bytes(left);
            law_compact_round_trip(s.skip(n), open, next, closers);
            lemma_pieces_first(Piece::Block(s.take(n)), left);
            lemma_section_end(s, n, rest);
            assert(c.take(n) =~= s.take(n));
            assert(c.skip(n) =~= rest);
            assert(s =~= s.take(n) + s.skip(n));
        } else {
            let left = pieces(s.skip(1), open.push(next), next + 1)->0;
            let rest = pieces_bytes(left);
            law_compact_round_trip(s.skip(1), open.push(next), next + 1, closers);
            lemma_pieces_first(Piece::Byte(LT), left);
            lemma_first_byte(s.skip(1), open.push(next), next + 1);
            assert(c.skip(1) =~= rest);
            assert(c[1] == rest[0]);
            assert(c.take(1) =~= s.take(1));
            assert(s =~= s.take(1) + s.skip(1));
        }
    }
}

/// Text without `<` stays as it is.
pub proof fn lemma_compact_text(s: Seq<u8>, from: int, to: int, open: Seq<nat>, next: nat)
    requires
        0 <= from <= to <= s.len(),
        forall|i: int| from <= i < to ==> #[trigger] s[i] != LT,
    ensures
        compact(s.skip(from), open, next) == joined(
            s.subrange(from, to),
            compact(s.skip(to), open, next),
        ),
    decreases to - from,
{
    let t = s.skip(from);
    if from == to {
        if let Some(c) = compact(t, open, next) {
            assert(s.subrange(from, to) + c =~= c);
        }
    } else {
        lemma_compact_text(s, from + 1, to, open, next);
        assert(t.skip(1) =~= s.skip(from + 1));
        if let Some(left) = pieces(t.skip(1), open, next) {
            lemma_pieces_first(Piece::Byte(t[0]), left);
            assert(seq![s[from]] + (s.subrange(from + 1, to) + compact(s.skip(to), open, next)->0)
                =~= s.subrange(from, to) + compact(s.skip(to), open, next)->0);
        }
    }
}

/// Text without `<` stays as it is.
pub proof fn law_compact_text(s: Seq<u8>, from: int, to: int, open: Seq<nat>, next: nat)
    requires
        0 <= from <= to <= s.len(),
        forall|i: int| from <= i < to ==> #[trigger] s[i] != 0x3c,
    ensures
        compact(s.skip(from), open, next) == joined(
            s.subrange(from, to),
            compact(s.skip(to), open, next),
        ),
{
    lemma_compact_text(s, from, to, open, next);
}

/// The `<` of an opening tag stays and opens an element.
pub proof fn lemma_compact_open(s: Seq<u8>, from: int, open: Seq<nat>, next: nat)
    requires
        0 <= from < s.len() - 1,
        s[from] == LT,
        s[from + 1] != SLASH,
        s[from + 1] != BANG,
        open.len() < MAX_DEPTH,
    ensures
        compact(s.skip(from), open, next) == joined(
            seq![LT],
            compact(s.skip(from + 1), open.push(next), next + 1),
        ),
{
    let t = s.skip(from);
    assert(t.skip(1) =~= s.skip(from + 1));
    if let Some(left) = pieces(t.skip(1), open.push(next), next + 1) {
        lemma_pieces_first(Piece::Byte(LT), left);
    }
}

/// The `<` of an opening tag stays and opens an element, which gets the next
/// number. Up to a hundred elements may be open.
pub proof fn law_compact_open(s: Seq<u8>, from: int, open: Seq<nat>, next: nat)
    requires
        0 <= from < s.len() - 1,
        s[from] == 0x3c,
        s[from + 1] != 0x2f,
        s[from + 1] != 0x21,
        open.len() < 100,
    ensures
        compact(s.skip(from), open, next) == joined(
            seq![0x3cu8],
            compact(s.skip(from + 1), open.push(next), next + 1),
        ),
{
    lemma_compact_open(s, from, open, next);
}

/// A closing tag becomes the number of the element that it closes.
pub proof fn lemma_compact_close(s: Seq<u8>, from: int, to: int, open: Seq<nat>, next: nat)
    requires
        0 <= from,
        from + 2 < to <= s.len(),
        s[from] == LT,
        s[from + 1] == SLASH,
        s[to - 1] == GT,
        forall|i: int| from <= i < to - 1 ==> #[trigger] s[i] != GT,
        open.len() > 0,
        open.last() < SHORT_IDS,
    ensures
        compact(s.skip(from), open, next) == joined(
            seq![CLOSE_MARK, open.last() as u8],
            compact(s.skip(to), open.drop_last(), next),
        ),
{
    let t = s.skip(from);
    lemma_position_found(t, GT, to - 1 - from);
    assert(t.skip(to - from) =~= s.skip(to));
    if let Some(left) = pieces(s.skip(to), open.drop_last(), next) {
        lemma_pieces_first(closing_piece(open.last(), t.take(to - from)), left);
    }
}

/// A closing tag becomes a marker and the number of the element that it closes,
/// which is the last that was opened. It stays as it is if the number does not
/// fit into a byte.
pub proof fn law_compact_close(s: Seq<u8>, from: int, to: int, open: Seq<nat>, next: nat)
    requires
        0 <= from,
        from + 2 < to <= s.len(),
        s[from] == 0x3c,
        s[from + 1] == 0x2f,
        s[to - 1] == 0x3e,
        forall|i: int| from <= i < to - 1 ==> #[trigger] s[i] != 0x3e,
        open.len() > 0,
    ensures
        compact(s.skip(from), open, next) == joined(
            if open.last() < 256 {
                seq![0x0eu8, open.last() as u8]
            } else {
                s.subrange(from, to)
            },
            compact(s.skip(to), open.drop_last(), next),
        ),
{
    if open.last() < 256 {
        lemma_compact_close(s, from, to, open, next);
    } else {
        let t = s.skip(from);
        lemma_position_found(t, GT, to - 1 - from);
        assert(t.skip(to - from) =~= s.skip(to));
        assert(t.take(to - from) =~= s.subrange(from, to));
        if let Some(left) = pieces(s.skip(to), open.drop_last(), next) {
            lemma_pieces_first(closing_piece(open.last(), t.take(to - from)), left);
        }
    }
}

/// Whether the bytes of `<![CDATA[` stand in `s` at `i`.
pub open spec fn starts_section(s: Seq<u8>, i: int) -> bool {
    &&& 0 <= i <= s.len() - 9
    &&& s[i] == 0x3c
    &&& s[i + 1] == 0x21
    &&& s[i + 2] == 0x5b
    &&& s[i + 3] == 0x43
    &&& s[i + 4] == 0x44
    &&& s[i + 5] == 0x41
    &&& s[i + 6] == 0x54
    &&& s[i + 7] == 0x41
    &&& s[i + 8] == 0x5b
}

/// What the delimiters of a section are.
pub proof fn lemma_delimiters(s: Seq<u8>, i: int)
    ensures
        starts_section(s, i) <==> 0 <= i <= s.len() - 9 && s[i] == LT && s[i + 1] == BANG
            && occurs_at(s, i + 2, CDATA_OPEN@),
        is_end_at(s, i) <==> occurs_at(s, i, CDATA_END@),
{
    if 0 <= i <= s.len() - 9 {
        let open = s.subrange(i + 2, i + 9);
        assert(open[0] == s[i + 2] && open[1] == s[i + 3] && open[2] == s[i + 4] && open[3] == s[i
            + 5] && open[4] == s[i + 6] && open[5] == s[i + 7] && open[6] == s[i + 8]);
        if starts_section(s, i) {
            assert(open =~= CDATA_OPEN@);
        }
    }
    if 0 <= i <= s.len() - 3 {
        let end = s.subrange(i, i + 3);
        assert(end[0] == s[i] && end[1] == s[i + 1] && end[2] == s[i + 2]);
        if is_end_at(s, i) {
            assert(end =~= CDATA_END@);
        }
    }
}

/// A CDATA section stays as it is.
pub proof fn lemma_compact_cdata(s: Seq<u8>, from: int, to: int, open: Seq<nat>, next: nat)
    requires
        0 <= from,
        from + 12 <= to <= s.len(),
        s[from] == LT,
        s[from + 1] == BANG,
        occurs_at(s, from + 2, CDATA_OPEN@),
        occurs_at(s, to - 3, CDATA_END@),
        forall|j: int| from + 9 <= j < to - 3 ==> !occurs_at(s, j, CDATA_END@),
    ensures
        compact(s.skip(from), open, next) == joined(
            s.subrange(from, to),
            compact(s.skip(to), open, next),
        ),
{
    let t = s.skip(from);
    let n = to - from;
    assert(t.subrange(2, 9) =~= s.subrange(from + 2, from + 9));
    lemma_find_pattern_shift(s, from, 9, CDATA_END@);
    lemma_find_pattern(s, from + 9, CDATA_END@);
    assert(cdata_length(t) == Some(n));
    assert(t.take(n) =~= s.subrange(from, to));
    assert(t.skip(n) =~= s.skip(to));
    if let Some(left) = pieces(t.skip(n), open, next) {
        lemma_pieces_first(Piece::Block(t.take(n)), left);
    }
}

/// A CDATA section stays as it is.
pub proof fn law_compact_cdata(s: Seq<u8>, from: int, to: int, open: Seq<nat>, next: nat)
    requires
        0 <= from,
        from + 12 <= to <= s.len(),
        starts_section(s, from),
        is_end_at(s, to - 3),
        forall|j: int| from + 9 <= j < to - 3 ==> !#[trigger] is_end_at(s, j),
    ensures
        compact(s.skip(from), open, next) == joined(
            s.subrange(from, to),
            compact(s.skip(to), open, next),
        ),
{
    lemma_delimiters(s, from);
    lemma_delimiters(s, to - 3);
    assert forall|j: int| from + 9 <= j < to - 3 implies !occurs_at(s, j, CDATA_END@) by {
        lemma_delimiters(s, j);
    }
    lemma_compact_cdata(s, from, to, open, next);
}

/// Nothing has an empty compact form, and text that ends inside of markup has
/// none: `<` at the end, and a closing tag or a CDATA section without its end.
pub proof fn law_compact_unfinished(s: Seq<u8>, open: Seq<nat>, next: nat)
    ensures
        s.len() == 0 ==> compact(s, open, next) == Some(s),
        s.len() == 1 && s[0] == 0x3c ==> compact(s, open, next) is None,
        s.len() > 1 && s[0] == 0x3c && s[1] == 0x2f && (forall|i: int|
            0 <= i < s.len() ==> #[trigger] s[i] != 0x3e) ==> compact(s, open, next) is None,
        starts_section(s, 0) && (forall|j: int| 9 <= j ==> !#[trigger] is_end_at(s, j))
            ==> compact(s, open, next) is None,
{
    if s.len() == 0 {
        assert(s =~= Seq::empty());
    } else if s.len() > 1 && s[0] == LT && s[1] == SLASH {
        lemma_position_meaning(s, GT);
    } else if starts_section(s, 0) && (forall|j: int| 9 <= j ==> !#[trigger] is_end_at(s, j)) {
        lemma_find_pattern(s, 9, CDATA_END@);
        if let Some(k) = find_pattern(s, 9, CDATA_END@) {
            lemma_delimiters(s, k);
            assert(!is_end_at(s, k));
        }
    }
}

/// Markup that the compact form cannot hold: a closing tag where no element is
/// open, `<!` that starts no CDATA section, and an element inside a hundred
/// others.
pub proof fn law_compact_refused(s: Seq<u8>, open: Seq<nat>, next: nat)
    requires
        s.len() > 1,
        s[0] == 0x3c,
    ensures
        s[1] == 0x2f && open.len() == 0 ==> compact(s, open, next) is None,
        s[1] == 0x21 && !starts_section(s, 0) ==> compact(s, open, next) is None,
        s[1] != 0x2f && s[1] != 0x21 && open.len() >= 100 ==> compact(s, open, next) is None,
{
    lemma_delimiters(s, 0);
}

/// `layout` agrees with the pieces as far as the room goes; past it there is
/// nothing else but zeros.
proof fn lemma_layout_agrees(room: Seq<u8>, start: nat, ps: Seq<Piece>)
    requires
        start <= room.len(),
        forall|i: int| start <= i < room.len() ==> #[trigger] room[i] == 0,
    ensures
        pieces_bytes(ps).len() == pieces_len(ps),
        room.len() <= layout(room, start, ps).len(),
        layout(room, start, ps).len() <= room.len() || layout(room, start, ps).len() <= start
            + pieces_len(ps),
        forall|i: int|
            0 <= i < layout(room, start, ps).len() && i < start + pieces_len(ps) ==> {
                let b = #[trigger] layout(room, start, ps)[i];
                let whole = (room.take(start as int) + pieces_bytes(ps))[i];
                b == whole || (i >= room.len() && b == 0)
            },
    decreases ps.len(),
{
    if ps.len() > 0 {
        let before = ps.drop_last();
        lemma_layout_agrees(room, start, before);
        let buf = layout(room, start, before);
        let at = start + pieces_len(before);
        let d = ps.last().content();
        let after = layout(room, start, ps);
        assert(after == place(buf, at, ps.last()));
        let whole = room.take(start as int) + pieces_bytes(ps);
        let part = room.take(start as int) + pieces_bytes(before);
        assert forall|i: int|
            0 <= i < after.len() && i < start + pieces_len(ps) implies #[trigger] after[i] == whole[i]
            || (i >= room.len() && after[i] == 0) by {
            if i < at {
                assert(whole[i] == part[i]);
                if i < buf.len() {
                    assert(after[i] == buf[i]);
                } else {
                    assert(after[i] == 0);
                }
            } else {
                assert(whole[i] == d[i - at]);
                assert(after[i] == d[i - at]);
            }
        }
    }
}

/// Whatever the room, a document holds the header and the compact form as far
/// as both go. Past the room for it, bytes of the compact form may be zero or
/// missing at the end; nothing else is.
pub proof fn law_document_in_room(in_buf: Seq<u8>, header_size: nat, in_size: nat)
    requires
        header_size <= in_buf.len(),
    ensures
        match find_root(in_buf, header_size as int) {
            Some(root) => match compact(in_buf.skip(root), Seq::empty(), 0) {
                Some(c) => {
                    let whole = in_buf.take(header_size as int) + c;
                    let room = header_size + in_size;
                    &&& reformatted(in_buf, header_size, in_size) matches Some(out)
                    &&& out.len() <= whole.len()
                    &&& out.len() >= whole.len() || out.len() >= room
                    &&& forall|i: int|
                        0 <= i < out.len() ==> #[trigger] out[i] == whole[i] || (i >= room && out[i]
                            == 0)
                },
                None => reformatted(in_buf, header_size, in_size) is None,
            },
            None => reformatted(in_buf, header_size, in_size) is None,
        },
{
    if let Some(root) = find_root(in_buf, header_size as int) {
        if let Some(ps) = pieces(in_buf.skip(root), Seq::empty(), 0) {
            let room = in_buf.take(header_size as int) + zeros(in_size);
            lemma_layout_agrees(room, header_size, ps);
            assert(room.take(header_size as int) =~= in_buf.take(header_size as int));
            let buf = layout(room, header_size, ps);
            let out = reformatted(in_buf, header_size, in_size)->0;
            let whole = in_buf.take(header_size as int) + pieces_bytes(ps);
            assert forall|i: int| 0 <= i < out.len() implies #[trigger] out[i] == whole[i] || (i
                >= header_size + in_size && out[i] == 0) by {
                assert(out[i] == buf[i]);
            }
        }
    }
}

} // verus!
