//! What a reader finds in an archive: the members that went into it.

use vstd::prelude::*;
use vstd::utf8::{encode_utf8, is_ascii_chars};

use crate::bytes::{le_bytes, le_value, occurs_at, pow256};
use crate::bytes::{law_le_round_trip, lemma_le_bytes_len};
use crate::text::{
    ends_in_letters, ends_with_lowercase, law_bitmap_letters, law_lowercase_letters,
};
use crate::zip_writer::{
    archive_of, central_directory, central_header, crc32, end_record, hex_digit, hex_padded,
    image_of, local_record, member_date, member_of, offset_of, open_header, signature, size_fields,
    size_fields_at, Member,
    CENTRALHEADERMAGIC, ENDHEADERMAGIC, LOCALHEADERMAGIC1, LOCALHEADERMAGIC2, MEMBER_FLAG,
    STDLOCALHEADERMAGIC, VERSION_NEEDED,
};
use crate::zip_writer::{lemma_hex_padded_len, lemma_open_header_len, lemma_size_fields_len};

verus! {

/// What a reader learns of a member.
pub struct Stored {
    pub name: Seq<u8>,
    pub method: nat,
    pub date: nat,
    pub crc: nat,
    pub size: nat,
    pub internal_attr: nat,
    pub payload: Seq<u8>,
}

/// What there is to learn of member `m`.
pub open spec fn stored(m: Member) -> Stored {
    Stored {
        name: m.name,
        method: m.method as nat,
        date: member_date() as nat,
        crc: m.crc as nat,
        size: m.size,
        internal_attr: m.internal_attr as nat,
        payload: m.payload,
    }
}

/// What there is to learn of all members.
pub open spec fn stored_all(ms: Seq<Member>) -> Seq<Stored> {
    Seq::new(ms.len(), |i: int| stored(ms[i]))
}

/// The number in the `n` bytes at `at`.
pub open spec fn field(s: Seq<u8>, at: int, n: nat) -> nat {
    le_value(s.subrange(at, at + n))
}

/// Length of what the local header at `at` starts with.
pub open spec fn signature_len(s: Seq<u8>, at: int) -> nat {
    if occurs_at(s, at, le_bytes(STDLOCALHEADERMAGIC as nat, 4)) {
        4
    } else {
        10
    }
}

/// The payload of `size` bytes behind the local header at `at`.
pub open spec fn read_payload(s: Seq<u8>, at: int, size: nat) -> Seq<u8> {
    let fixed = at + signature_len(s, at);
    let begin = fixed + 26 + field(s, fixed + 22, 2) + field(s, fixed + 24, 2);
    s.subrange(begin, begin + size)
}

/// The member that the entry of the central directory at `at` stands for.
/// Positions in the entry count from `start` bytes before `s`.
pub open spec fn read_member(s: Seq<u8>, start: nat, at: int) -> Stored {
    Stored {
        name: s.subrange(at + 46, at + 46 + field(s, at + 28, 2)),
        method: field(s, at + 10, 2),
        date: field(s, at + 12, 4),
        crc: field(s, at + 16, 4),
        size: field(s, at + 24, 4),
        internal_attr: field(s, at + 36, 2),
        payload: read_payload(s, field(s, at + 42, 4) - start, field(s, at + 20, 4)),
    }
}

/// Length of the entry of the central directory at `at`.
pub open spec fn entry_len(s: Seq<u8>, at: int) -> nat {
    46 + field(s, at + 28, 2) + field(s, at + 30, 2) + field(s, at + 32, 2)
}

/// The members of the `n` entries of the central directory from `at` on.
pub open spec fn read_members(s: Seq<u8>, start: nat, at: int, n: nat) -> Seq<Stored>
    decreases n,
{
    if n == 0 {
        Seq::empty()
    } else {
        seq![read_member(s, start, at)] + read_members(
            s,
            start,
            at + entry_len(s, at),
            (n - 1) as nat,
        )
    }
}

/// The members that a reader finds, who starts at the end record.
pub open spec fn read_archive(s: Seq<u8>, start: nat) -> Seq<Stored> {
    let end = s.len() - 22;
    read_members(s, start, field(s, end + 16, 4) - start, field(s, end + 10, 2))
}

/// The fields of a member hold its values.
pub open spec fn representable(m: Member) -> bool {
    &&& m.name.len() < 0x1_0000
    &&& m.payload.len() < 0x1_0000_0000
    &&& m.size < 0x1_0000_0000
}

/// The fields of an archive hold its values.
pub open spec fn archive_representable(start: nat, ms: Seq<Member>) -> bool {
    &&& ms.len() < 0x1_0000
    &&& start + image_of(ms).len() < 0x1_0000_0000
    &&& forall|i: int| 0 <= i < ms.len() ==> representable(#[trigger] ms[i])
    &&& ms.len() > 0 ==> ms[0].tiversion < 0x1_0000
}

/// A field that was written as `x` reads as `x`.
proof fn lemma_field(s: Seq<u8>, at: int, n: nat, x: nat)
    requires
        s.subrange(at, at + n) == le_bytes(x, n),
        n == 2 ==> x < 0x1_0000,
        n == 4 ==> x < 0x1_0000_0000,
        n == 2 || n == 4,
    ensures
        field(s, at, n) == x,
{
    law_le_round_trip(x, n);
    reveal_with_fuel(pow256, 5);
    assert(x % pow256(n) == x) by {
        assert(pow256(2) == 0x1_0000);
        assert(pow256(4) == 0x1_0000_0000);
        vstd::arithmetic::div_mod::lemma_small_mod(x, pow256(n));
    }
}

/// Each byte of a part stands in `s`.
proof fn lemma_occurs_bytes(s: Seq<u8>, at: int, part: Seq<u8>)
    requires
        occurs_at(s, at, part),
    ensures
        forall|i: int| 0 <= i < part.len() ==> #[trigger] part[i] == s[at + i],
{
    assert forall|i: int| 0 <= i < part.len() implies #[trigger] part[i] == s[at + i] by {
        assert(part[i] == s.subrange(at, at + part.len())[i]);
    }
}

/// A field of a part of `s` is a field of `s`.
proof fn lemma_field_within(s: Seq<u8>, at: int, part: Seq<u8>, k: int, n: nat)
    requires
        occurs_at(s, at, part),
        0 <= k,
        k + n <= part.len(),
    ensures
        field(s, at + k, n) == field(part, k, n),
{
    lemma_occurs_bytes(s, at, part);
    assert(s.subrange(at + k, at + k + n) =~= part.subrange(k, k + n));
}

/// Whether `h` is an entry of the central directory for member `m` at `offset`.
spec fn is_entry(h: Seq<u8>, m: Member, offset: nat) -> bool {
    &&& h.len() == 46 + m.name.len()
    &&& field(h, 10, 2) == m.method
    &&& field(h, 12, 4) == member_date()
    &&& field(h, 16, 4) == m.crc
    &&& field(h, 20, 4) == m.payload.len()
    &&& field(h, 24, 4) == m.size
    &&& field(h, 28, 2) == m.name.len()
    &&& field(h, 30, 2) == 0
    &&& field(h, 32, 2) == 0
    &&& field(h, 36, 2) == m.internal_attr
    &&& field(h, 42, 4) == offset
    &&& h.skip(46) == m.name
}

/// What an entry of the central directory holds.
#[verifier::spinoff_prover]
proof fn lemma_entry_fields(m: Member, offset: nat)
    requires
        representable(m),
        offset < 0x1_0000_0000,
    ensures
        is_entry(central_header(m, offset), m, offset),
{
    let h = central_header(m, offset);
    lemma_le_bytes_len(CENTRALHEADERMAGIC as nat, 4);
    lemma_le_bytes_len(0, 2);
    lemma_le_bytes_len(0, 4);
    lemma_le_bytes_len(VERSION_NEEDED as nat, 2);
    lemma_le_bytes_len(MEMBER_FLAG as nat, 2);
    lemma_le_bytes_len(m.method as nat, 2);
    lemma_le_bytes_len(member_date() as nat, 4);
    lemma_le_bytes_len(m.crc as nat, 4);
    lemma_le_bytes_len(m.payload.len(), 4);
    lemma_le_bytes_len(m.size, 4);
    lemma_le_bytes_len(m.name.len(), 2);
    lemma_le_bytes_len(m.internal_attr as nat, 2);
    lemma_le_bytes_len(offset, 4);
    assert(h.subrange(10, 12) =~= le_bytes(m.method as nat, 2));
    assert(h.subrange(12, 16) =~= le_bytes(member_date() as nat, 4));
    assert(h.subrange(16, 20) =~= le_bytes(m.crc as nat, 4));
    assert(h.subrange(20, 24) =~= le_bytes(m.payload.len(), 4));
    assert(h.subrange(24, 28) =~= le_bytes(m.size, 4));
    assert(h.subrange(28, 30) =~= le_bytes(m.name.len(), 2));
    assert(h.subrange(30, 32) =~= le_bytes(0, 2));
    assert(h.subrange(32, 34) =~= le_bytes(0, 2));
    assert(h.subrange(36, 38) =~= le_bytes(m.internal_attr as nat, 2));
    assert(h.subrange(42, 46) =~= le_bytes(offset, 4));
    assert(h.skip(46) =~= m.name);
    lemma_field(h, 10, 2, m.method as nat);
    lemma_field(h, 12, 4, member_date() as nat);
    lemma_field(h, 16, 4, m.crc as nat);
    lemma_field(h, 20, 4, m.payload.len());
    lemma_field(h, 24, 4, m.size);
    lemma_field(h, 28, 2, m.name.len());
    lemma_field(h, 30, 2, 0);
    lemma_field(h, 32, 2, 0);
    lemma_field(h, 36, 2, m.internal_attr as nat);
    lemma_field(h, 42, 4, offset);
}

/// What the end record holds.
proof fn lemma_end_fields(count: nat, size: nat, offset: nat)
    requires
        count < 0x1_0000,
        offset < 0x1_0000_0000,
    ensures
        end_record(count, size, offset).len() == 22,
        field(end_record(count, size, offset), 10, 2) == count,
        field(end_record(count, size, offset), 16, 4) == offset,
{
    let e = end_record(count, size, offset);
    lemma_le_bytes_len(ENDHEADERMAGIC as nat, 4);
    lemma_le_bytes_len(0, 2);
    lemma_le_bytes_len(count, 2);
    lemma_le_bytes_len(size, 4);
    lemma_le_bytes_len(offset, 4);
    assert(e.subrange(10, 12) =~= le_bytes(count, 2));
    assert(e.subrange(16, 20) =~= le_bytes(offset, 4));
    lemma_field(e, 10, 2, count);
    lemma_field(e, 16, 4, offset);
}

/// A local record holds the name's length and, behind the header, the payload.
#[verifier::spinoff_prover]
proof fn lemma_record(m: Member, first: bool)
    requires
        representable(m),
        first ==> m.tiversion < 0x1_0000,
    ensures
        ({
            let r = local_record(m, first);
            let sig: int = if first {
                10
            } else {
                4
            };
            &&& r.len() == sig + 26 + m.name.len() + m.payload.len()
            &&& signature_len(r, 0) == sig
            &&& field(r, sig + 22, 2) == m.name.len()
            &&& field(r, sig + 24, 2) == 0
            &&& r.skip((sig + 26 + m.name.len()) as int) == m.payload
        }),
{
    let r = local_record(m, first);
    let h = open_header(m, first);
    let sig: int = if first {
        10
    } else {
        4
    };
    let at = size_fields_at(first);
    lemma_open_header_len(m, first);
    lemma_size_fields_len(m);
    lemma_le_bytes_len(VERSION_NEEDED as nat, 2);
    lemma_le_bytes_len(MEMBER_FLAG as nat, 2);
    lemma_le_bytes_len(m.method as nat, 2);
    lemma_le_bytes_len(member_date() as nat, 4);
    lemma_le_bytes_len(m.name.len(), 2);
    lemma_le_bytes_len(0, 2);
    assert(at == sig + 10);
    assert(r.len() == h.len() + m.payload.len());
    assert(h.subrange(sig + 22, sig + 22 + 2) =~= le_bytes(m.name.len(), 2));
    assert(h.subrange(sig + 24, sig + 24 + 2) =~= le_bytes(0, 2));
    assert(r.subrange(sig + 22, sig + 22 + 2) =~= h.subrange(sig + 22, sig + 22 + 2));
    assert(r.subrange(sig + 24, sig + 24 + 2) =~= h.subrange(sig + 24, sig + 24 + 2));
    lemma_field(r, sig + 22, 2, m.name.len());
    lemma_field(r, sig + 24, 2, 0);
    assert(r.skip((sig + 26 + m.name.len()) as int) =~= m.payload);
    let standard = le_bytes(STDLOCALHEADERMAGIC as nat, 4);
    lemma_le_bytes_len(STDLOCALHEADERMAGIC as nat, 4);
    assert(standard[0] == 0x50);
    if first {
        lemma_le_bytes_len(LOCALHEADERMAGIC1 as nat, 4);
        lemma_le_bytes_len(LOCALHEADERMAGIC2 as nat, 2);
        assert(r[0] == signature(m, first)[0]);
        assert(r[0] == le_bytes(LOCALHEADERMAGIC1 as nat, 4)[0]);
        assert(r[0] == 0x2a);
        assert(r.subrange(0, 4)[0] == 0x2a);
        assert(!occurs_at(r, 0, standard));
    } else {
        assert(r.subrange(0, 4) =~= standard);
    }
}

/// The entry of member `i` stands in the central directory.
proof fn lemma_entry_at(start: nat, ms: Seq<Member>, i: int, n: nat)
    requires
        0 <= i < n,
    ensures
        occurs_at(
            central_directory(start, ms, n),
            central_directory(start, ms, i as nat).len() as int,
            central_header(ms[i], offset_of(start, ms, i)),
        ),
    decreases n,
{
    let d = central_directory(start, ms, n);
    let before = central_directory(start, ms, (n - 1) as nat);
    let at = central_directory(start, ms, i as nat).len() as int;
    let h = central_header(ms[i], offset_of(start, ms, i));
    if i == n - 1 {
        assert(d.subrange(at, at + h.len()) =~= h);
    } else {
        lemma_entry_at(start, ms, i, (n - 1) as nat);
        assert(d.subrange(at, at + h.len()) =~= before.subrange(at, at + h.len()));
    }
}

/// The record of member `i` stands among those of all.
proof fn lemma_record_at(ms: Seq<Member>, i: int)
    requires
        0 <= i < ms.len(),
    ensures
        occurs_at(
            image_of(ms),
            image_of(ms.take(i)).len() as int,
            local_record(ms[i], i == 0),
        ),
    decreases ms.len(),
{
    let s = image_of(ms);
    let before = image_of(ms.drop_last());
    let at = image_of(ms.take(i)).len() as int;
    let r = local_record(ms[i], i == 0);
    if i == ms.len() - 1 {
        assert(ms.take(i) =~= ms.drop_last());
        assert(s.subrange(at, at + r.len()) =~= r);
    } else {
        lemma_record_at(ms.drop_last(), i);
        assert(ms.drop_last().take(i) =~= ms.take(i));
        assert(s.subrange(at, at + r.len()) =~= before.subrange(at, at + r.len()));
    }
}

/// A part of a part is a part.
proof fn lemma_occurs_within(s: Seq<u8>, at: int, part: Seq<u8>, k: int, inner: Seq<u8>)
    requires
        occurs_at(s, at, part),
        occurs_at(part, k, inner),
    ensures
        occurs_at(s, at + k, inner),
{
    lemma_occurs_bytes(s, at, part);
    lemma_occurs_bytes(part, k, inner);
    assert(s.subrange(at + k, at + k + inner.len()) =~= inner);
}

/// The payload of a record is found wherever the record stands.
proof fn lemma_read_payload(s: Seq<u8>, at: int, m: Member, first: bool)
    requires
        representable(m),
        first ==> m.tiversion < 0x1_0000,
        occurs_at(s, at, local_record(m, first)),
    ensures
        read_payload(s, at, m.payload.len()) == m.payload,
{
    let r = local_record(m, first);
    let sig: int = if first {
        10
    } else {
        4
    };
    lemma_record(m, first);
    let standard = le_bytes(STDLOCALHEADERMAGIC as nat, 4);
    lemma_le_bytes_len(STDLOCALHEADERMAGIC as nat, 4);
    lemma_occurs_bytes(s, at, r);
    assert(s.subrange(at, at + 4) =~= r.subrange(0, 4));
    assert(signature_len(s, at) == sig);
    lemma_field_within(s, at, r, sig + 22, 2);
    lemma_field_within(s, at, r, sig + 24, 2);
    let begin = sig + 26 + m.name.len();
    assert(r.skip(begin) =~= r.subrange(begin, begin + m.payload.len()));
    assert(s.subrange(at + begin, at + begin + m.payload.len()) =~= r.skip(begin));
}

/// The member of an entry is found wherever the entry stands, if its record
/// stands where the entry says.
proof fn lemma_read_member(
    s: Seq<u8>,
    start: nat,
    at: int,
    h: Seq<u8>,
    m: Member,
    offset: nat,
)
    requires
        is_entry(h, m, offset),
        occurs_at(s, at, h),
        read_payload(s, offset - start, m.payload.len()) == m.payload,
    ensures
        read_member(s, start, at) == stored(m),
        entry_len(s, at) == h.len(),
{
    lemma_field_within(s, at, h, 10, 2);
    lemma_field_within(s, at, h, 12, 4);
    lemma_field_within(s, at, h, 16, 4);
    lemma_field_within(s, at, h, 20, 4);
    lemma_field_within(s, at, h, 24, 4);
    lemma_field_within(s, at, h, 28, 2);
    lemma_field_within(s, at, h, 30, 2);
    lemma_field_within(s, at, h, 32, 2);
    lemma_field_within(s, at, h, 36, 2);
    lemma_field_within(s, at, h, 42, 4);
    lemma_occurs_bytes(s, at, h);
    assert(s.subrange(at + 46, at + 46 + m.name.len()) =~= h.skip(46));
}

/// Where a text of three parts has its parts.
proof fn lemma_three_parts(s: Seq<u8>, a: Seq<u8>, b: Seq<u8>, c: Seq<u8>)
    requires
        s == a + b + c,
    ensures
        occurs_at(s, 0, a),
        occurs_at(s, a.len() as int, b),
        occurs_at(s, s.len() - c.len(), c),
{
    let p = a.len() as int;
    assert(s.subrange(0, p) =~= a);
    assert(s.subrange(p, p + b.len()) =~= b);
    assert(s.subrange(p + b.len(), s.len() as int) =~= c);
}

/// The payload of member `i` is found.
proof fn lemma_payload_found(start: nat, ms: Seq<Member>, i: int, s: Seq<u8>)
    requires
        archive_representable(start, ms),
        0 <= i < ms.len(),
        occurs_at(s, 0, image_of(ms)),
    ensures
        read_payload(s, offset_of(start, ms, i) - start, ms[i].payload.len()) == ms[i].payload,
{
    let at = image_of(ms.take(i)).len() as int;
    lemma_record_at(ms, i);
    lemma_occurs_within(s, 0, image_of(ms), at, local_record(ms[i], i == 0));
    assert(representable(ms[i]));
    lemma_read_payload(s, at, ms[i], i == 0);
}

/// The entry of member `i` is found.
proof fn lemma_entry_found(start: nat, ms: Seq<Member>, i: int, s: Seq<u8>, p: int) -> (h: Seq<u8>)
    requires
        archive_representable(start, ms),
        0 <= i < ms.len(),
        occurs_at(s, p, central_directory(start, ms, ms.len())),
    ensures
        occurs_at(s, p + central_directory(start, ms, i as nat).len(), h),
        is_entry(h, ms[i], offset_of(start, ms, i)),
        central_directory(start, ms, i as nat + 1).len() == central_directory(
            start,
            ms,
            i as nat,
        ).len() + h.len(),
{
    let offset = offset_of(start, ms, i);
    let inside = central_directory(start, ms, i as nat).len() as int;
    let h = central_header(ms[i], offset);
    lemma_record_at(ms, i);
    lemma_entry_at(start, ms, i, ms.len());
    lemma_occurs_within(s, p, central_directory(start, ms, ms.len()), inside, h);
    assert(representable(ms[i]));
    lemma_entry_fields(ms[i], offset);
    h
}

/// One more entry that is found.
proof fn lemma_read_step(
    s: Seq<u8>,
    start: nat,
    at: int,
    h: Seq<u8>,
    m: Member,
    offset: nat,
    n: nat,
)
    requires
        is_entry(h, m, offset),
        occurs_at(s, at, h),
        read_payload(s, offset - start, m.payload.len()) == m.payload,
    ensures
        read_members(s, start, at, n + 1) == seq![stored(m)] + read_members(
            s,
            start,
            at + h.len(),
            n,
        ),
{
    lemma_read_member(s, start, at, h, m, offset);
}

/// What is left of the members from number `i` on.
proof fn lemma_stored_skip(ms: Seq<Member>, i: int)
    requires
        0 <= i < ms.len(),
    ensures
        stored_all(ms).skip(i) == seq![stored(ms[i])] + stored_all(ms).skip(i + 1),
{
    assert(stored_all(ms).skip(i) =~= seq![stored(ms[i])] + stored_all(ms).skip(i + 1));
}

/// The members from number `i` on are found.
proof fn lemma_read_members(start: nat, ms: Seq<Member>, i: nat, s: Seq<u8>)
    requires
        archive_representable(start, ms),
        i <= ms.len(),
        occurs_at(s, 0, image_of(ms)),
        occurs_at(s, image_of(ms).len() as int, central_directory(start, ms, ms.len())),
    ensures
        read_members(
            s,
            start,
            (image_of(ms).len() + central_directory(start, ms, i).len()) as int,
            (ms.len() - i) as nat,
        ) == stored_all(ms).skip(i as int),
    decreases ms.len() - i,
{
    if i == ms.len() {
        assert(stored_all(ms).skip(i as int) =~= Seq::empty());
    } else {
        let p = image_of(ms).len() as int;
        let at = p + central_directory(start, ms, i).len();
        let m = ms[i as int];
        lemma_payload_found(start, ms, i as int, s);
        let h = lemma_entry_found(start, ms, i as int, s, p);
        let n = (ms.len() - i - 1) as nat;
        lemma_read_step(s, start, at, h, m, offset_of(start, ms, i as int), n);
        lemma_read_members(start, ms, i + 1, s);
        lemma_stored_skip(ms, i as int);
    }
}

/// Reading an archive gives back the members that went into it, each with its
/// name, its values and its payload, in their order. This holds as long as the
/// fields of the format are wide enough.
pub proof fn law_read_back(start: nat, ms: Seq<Member>)
    requires
        archive_representable(start, ms),
    ensures
        read_archive(archive_of(start, ms), start) == stored_all(ms),
{
    let s = archive_of(start, ms);
    let image = image_of(ms);
    let directory = central_directory(start, ms, ms.len());
    let e = end_record(ms.len(), directory.len(), start + image.len());
    lemma_end_fields(ms.len(), directory.len(), start + image.len());
    let end = s.len() - 22;
    lemma_three_parts(s, image, directory, e);
    lemma_field_within(s, end, e, 10, 2);
    lemma_field_within(s, end, e, 16, 4);
    lemma_read_members(start, ms, 0, s);
    assert(stored_all(ms).skip(0) =~= stored_all(ms));
}

/// Records start an image with what the first of them starts with.
proof fn lemma_image_start(ms: Seq<Member>)
    requires
        ms.len() > 0,
    ensures
        local_record(ms[0], true).is_prefix_of(image_of(ms)),
    decreases ms.len(),
{
    if ms.len() == 1 {
        assert(image_of(ms.drop_last()) == Seq::<u8>::empty());
        assert(image_of(ms) == image_of(ms.drop_last()) + local_record(ms.last(), true));
        assert(image_of(ms) =~= local_record(ms[0], true));
    } else {
        lemma_image_start(ms.drop_last());
        assert(ms.drop_last()[0] == ms[0]);
    }
}

/// An archive starts with `*TIMLP` and the version of its first member in
/// four hexadecimal digits.
pub proof fn law_version_header(start: nat, ms: Seq<Member>)
    requires
        ms.len() > 0,
        ms[0].tiversion < 0x1_0000,
    ensures
        hex_padded(ms[0].tiversion as nat, 4).len() == 4,
        occurs_at(
            archive_of(start, ms),
            0,
            seq![0x2au8, 0x54, 0x49, 0x4d, 0x4c, 0x50] + hex_padded(ms[0].tiversion as nat, 4),
        ),
{
    let m = ms[0];
    let s = archive_of(start, ms);
    let r = local_record(m, true);
    let start_bytes = seq![0x2au8, 0x54, 0x49, 0x4d, 0x4c, 0x50] + hex_padded(
        m.tiversion as nat,
        4,
    );
    lemma_hex_padded_len(m.tiversion as nat, 4);
    lemma_open_header_len(m, true);
    lemma_size_fields_len(m);
    reveal_with_fuel(le_bytes, 5);
    assert(signature(m, true) =~= start_bytes);
    assert(open_header(m, true).take(10) =~= start_bytes);
    assert(r.take(10) =~= start_bytes);
    lemma_image_start(ms);
    assert(s.subrange(0, 10) =~= r.take(10));
}

/// The records of some members stay as they are when more are added.
proof fn lemma_image_grows(ms: Seq<Member>, more: Seq<Member>)
    ensures
        image_of(ms).is_prefix_of(image_of(ms + more)),
    decreases more.len(),
{
    if more.len() == 0 {
        assert(ms + more =~= ms);
    } else {
        lemma_image_grows(ms, more.drop_last());
        assert((ms + more).drop_last() =~= ms + more.drop_last());
    }
}

/// What is written of an archive at any time is how the whole starts.
pub proof fn law_written_is_prefix(start: nat, ms: Seq<Member>, more: Seq<Member>)
    ensures
        image_of(ms).is_prefix_of(image_of(ms + more)),
        image_of(ms).is_prefix_of(archive_of(start, ms + more)),
{
    lemma_image_grows(ms, more);
}

/// Checksum and sizes stand in a record where its header has room for them.
proof fn lemma_record_sizes(m: Member, first: bool)
    requires
        first ==> m.tiversion < 0x1_0000,
    ensures
        ({
            let r = local_record(m, first);
            let sig: int = if first {
                10
            } else {
                4
            };
            &&& r.len() == sig + 26 + m.name.len() + m.payload.len()
            &&& r.take(sig + 10) == open_header(m, first).take(sig + 10)
            &&& r.subrange(sig + 10, sig + 22) == size_fields(m)
            &&& r.subrange(sig + 22, sig + 26 + m.name.len()) == open_header(m, first).skip(sig + 22)
            &&& r.skip(sig + 26 + m.name.len()) == m.payload
        }),
{
    let r = local_record(m, first);
    let h = open_header(m, first);
    let sig: int = if first {
        10
    } else {
        4
    };
    lemma_open_header_len(m, first);
    lemma_size_fields_len(m);
    assert(size_fields_at(first) == sig + 10);
    assert(r.take(sig + 10) =~= h.take(sig + 10));
    assert(r.subrange(sig + 10, sig + 22) =~= size_fields(m));
    assert(r.subrange(sig + 22, sig + 26 + m.name.len()) =~= h.skip(sig + 22));
    assert(r.skip(sig + 26 + m.name.len()) =~= m.payload);
}

/// What a local header starts with, up to the checksum.
#[verifier::spinoff_prover]
proof fn lemma_header_front(m: Member, first: bool)
    requires
        first ==> m.tiversion < 0x1_0000,
    ensures
        ({
            let h = open_header(m, first);
            let sig: int = if first {
                10
            } else {
                4
            };
            &&& h.len() == sig + 26 + m.name.len()
            &&& h.take(sig) == signature(m, first)
            &&& h.subrange(sig, sig + 2) == le_bytes(20, 2)
            &&& h.subrange(sig + 2, sig + 4) == le_bytes(0, 2)
            &&& h.subrange(sig + 4, sig + 6) == le_bytes(m.method as nat, 2)
            &&& h.subrange(sig + 6, sig + 10) == le_bytes(member_date() as nat, 4)
            &&& h.subrange(sig + 22, sig + 24) == le_bytes(m.name.len(), 2)
            &&& h.subrange(sig + 24, sig + 26) == le_bytes(0, 2)
            &&& h.skip(sig + 26) == m.name
        }),
{
    let h = open_header(m, first);
    let sig: int = if first {
        10
    } else {
        4
    };
    lemma_open_header_len(m, first);
    lemma_le_bytes_len(20, 2);
    lemma_le_bytes_len(0, 2);
    lemma_le_bytes_len(m.method as nat, 2);
    lemma_le_bytes_len(member_date() as nat, 4);
    lemma_le_bytes_len(m.name.len(), 2);
    assert(h.take(sig) =~= signature(m, first));
    assert(h.subrange(sig, sig + 2) =~= le_bytes(20, 2));
    assert(h.subrange(sig + 2, sig + 4) =~= le_bytes(0, 2));
    assert(h.subrange(sig + 4, sig + 6) =~= le_bytes(m.method as nat, 2));
    assert(h.subrange(sig + 6, sig + 10) =~= le_bytes(member_date() as nat, 4));
    assert(h.subrange(sig + 22, sig + 24) =~= le_bytes(m.name.len(), 2));
    assert(h.subrange(sig + 24, sig + 26) =~= le_bytes(0, 2));
    assert(h.skip(sig + 26) =~= m.name);
}

/// The date of every member is the first month of the year 0 of DOS, day 0.
pub proof fn law_member_date()
    ensures
        member_date() == 0x0020_0000,
{
    assert((32u32 << 16) | 0u32 == 0x0020_0000) by (bit_vector);
}

/// A field of a part that starts at `from` is one of the whole.
proof fn lemma_field_of(r: Seq<u8>, part: Seq<u8>, from: int, k: int, n: nat, x: nat)
    requires
        0 <= from,
        from + part.len() <= r.len(),
        r.subrange(from, from + part.len()) == part,
        0 <= k,
        k + n <= part.len(),
        part.subrange(k, k + n) == le_bytes(x, n),
        n == 2 ==> x < 0x1_0000,
        n == 4 ==> x < 0x1_0000_0000,
        n == 2 || n == 4,
    ensures
        field(r, from + k, n) == x,
{
    lemma_field_within(r, from, part, k, n);
    lemma_field(part, k, n, x);
}

/// What the local header of a member holds behind its signature, field by field:
/// version 20, no flags, the method, the date, checksum, compressed size, size,
/// the length of the name, no extra field, and the name. The payload follows.
pub proof fn law_local_header(m: Member, first: bool)
    requires
        representable(m),
        first ==> m.tiversion < 0x1_0000,
    ensures
        ({
            let r = local_record(m, first);
            let at: int = if first {
                10
            } else {
                4
            };
            let n = m.name.len() as int;
            &&& r.len() == at + 26 + n + m.payload.len()
            &&& !first ==> r.take(4) == seq![0x50u8, 0x4b, 0x03, 0x04]
            &&& first ==> r.take(10) == seq![0x2au8, 0x54, 0x49, 0x4d, 0x4c, 0x50] + hex_padded(
                m.tiversion as nat,
                4,
            )
            &&& field(r, at, 2) == 20
            &&& field(r, at + 2, 2) == 0
            &&& field(r, at + 4, 2) == m.method
            &&& field(r, at + 6, 4) == 0x0020_0000
            &&& field(r, at + 10, 4) == m.crc
            &&& field(r, at + 14, 4) == m.payload.len()
            &&& field(r, at + 18, 4) == m.size
            &&& field(r, at + 22, 2) == m.name.len()
            &&& field(r, at + 24, 2) == 0
            &&& r.subrange(at + 26, at + 26 + n) == m.name
            &&& r.skip(at + 26 + n) == m.payload
        }),
{
    let r = local_record(m, first);
    let h = open_header(m, first);
    let at: int = if first {
        10
    } else {
        4
    };
    let n = m.name.len() as int;
    lemma_record_sizes(m, first);
    lemma_header_front(m, first);
    law_member_date();
    let front = h.take(at + 10);
    assert(r.subrange(0, at + 10) =~= front);
    assert(front.subrange(at, at + 2) =~= h.subrange(at, at + 2));
    assert(front.subrange(at + 2, at + 4) =~= h.subrange(at + 2, at + 4));
    assert(front.subrange(at + 4, at + 6) =~= h.subrange(at + 4, at + 6));
    assert(front.subrange(at + 6, at + 10) =~= h.subrange(at + 6, at + 10));
    lemma_field_of(r, front, 0, at, 2, 20);
    lemma_field_of(r, front, 0, at + 2, 2, 0);
    lemma_field_of(r, front, 0, at + 4, 2, m.method as nat);
    lemma_field_of(r, front, 0, at + 6, 4, 0x0020_0000);
    let sizes = size_fields(m);
    lemma_size_parts(m);
    lemma_field_of(r, sizes, at + 10, 0, 4, m.crc as nat);
    lemma_field_of(r, sizes, at + 10, 4, 4, m.payload.len());
    lemma_field_of(r, sizes, at + 10, 8, 4, m.size);
    let back = h.skip(at + 22);
    assert(back.subrange(0, 2) =~= h.subrange(at + 22, at + 24));
    assert(back.subrange(2, 4) =~= h.subrange(at + 24, at + 26));
    lemma_field_of(r, back, at + 22, 0, 2, m.name.len());
    lemma_field_of(r, back, at + 22, 2, 2, 0);
    assert(r.subrange(at + 26, at + 26 + n) =~= r.subrange(at + 22, at + 26 + n).skip(4));
    assert(back.skip(4) =~= h.skip(at + 26));
    lemma_signature(m, first);
    assert(r.take(at) =~= r.take(at + 10).take(at));
    assert(h.take(at + 10).take(at) =~= h.take(at));
}

/// Where checksum and sizes stand.
proof fn lemma_size_parts(m: Member)
    ensures
        size_fields(m).len() == 12,
        size_fields(m).subrange(0, 4) == le_bytes(m.crc as nat, 4),
        size_fields(m).subrange(4, 8) == le_bytes(m.payload.len(), 4),
        size_fields(m).subrange(8, 12) == le_bytes(m.size, 4),
{
    let f = size_fields(m);
    lemma_le_bytes_len(m.crc as nat, 4);
    lemma_le_bytes_len(m.payload.len(), 4);
    lemma_le_bytes_len(m.size, 4);
    assert(f.subrange(0, 4) =~= le_bytes(m.crc as nat, 4));
    assert(f.subrange(4, 8) =~= le_bytes(m.payload.len(), 4));
    assert(f.subrange(8, 12) =~= le_bytes(m.size, 4));
}

/// The bytes of the signatures.
proof fn lemma_signature(m: Member, first: bool)
    ensures
        !first ==> signature(m, first) == seq![0x50u8, 0x4b, 0x03, 0x04],
        first ==> signature(m, first) == seq![0x2au8, 0x54, 0x49, 0x4d, 0x4c, 0x50] + hex_padded(
            m.tiversion as nat,
            4,
        ),
{
    reveal_with_fuel(le_bytes, 5);
    if first {
        assert(signature(m, first) =~= seq![0x2au8, 0x54, 0x49, 0x4d, 0x4c, 0x50] + hex_padded(
            m.tiversion as nat,
            4,
        ));
    } else {
        assert(signature(m, first) =~= seq![0x50u8, 0x4b, 0x03, 0x04]);
    }
}

/// Whatever the version, checksum and sizes stand 20 bytes behind the start of
/// the first member and 14 bytes behind the start of others.
pub proof fn law_size_fields_place(m: Member, first: bool)
    requires
        representable(m),
    ensures
        ({
            let r = local_record(m, first);
            let at: int = if first {
                20
            } else {
                14
            };
            &&& r.len() == open_header(m, first).len() + m.payload.len()
            &&& field(r, at, 4) == m.crc
            &&& field(r, at + 4, 4) == m.payload.len()
            &&& field(r, at + 8, 4) == m.size
            &&& forall|i: int|
                0 <= i < r.len() && !(at <= i < at + 12) ==> #[trigger] r[i] == (open_header(m, first)
                    + m.payload)[i]
        }),
{
    let r = local_record(m, first);
    let at: int = if first {
        20
    } else {
        14
    };
    lemma_open_header_len(m, first);
    lemma_size_parts(m);
    assert(r.subrange(at, at + 12) =~= size_fields(m));
    lemma_field_of(r, size_fields(m), at, 0, 4, m.crc as nat);
    lemma_field_of(r, size_fields(m), at, 4, 4, m.payload.len());
    lemma_field_of(r, size_fields(m), at, 8, 4, m.size);
}

/// What an entry of the central directory holds, field by field: its signature,
/// version 0 made it, version 20 is needed, no flags, the method, the date,
/// checksum, compressed size, size, the length of the name, no extra field and no
/// comment, the first disk, the attributes, where the member starts, and the
/// name.
#[verifier::spinoff_prover]
pub proof fn law_directory_entry(m: Member, offset: nat)
    requires
        representable(m),
        offset < 0x1_0000_0000,
    ensures
        ({
            let h = central_header(m, offset);
            &&& h.len() == 46 + m.name.len()
            &&& h.take(4) == seq![0x50u8, 0x4b, 0x01, 0x02]
            &&& field(h, 4, 2) == 0
            &&& field(h, 6, 2) == 20
            &&& field(h, 8, 2) == 0
            &&& field(h, 10, 2) == m.method
            &&& field(h, 12, 4) == 0x0020_0000
            &&& field(h, 16, 4) == m.crc
            &&& field(h, 20, 4) == m.payload.len()
            &&& field(h, 24, 4) == m.size
            &&& field(h, 28, 2) == m.name.len()
            &&& field(h, 30, 2) == 0
            &&& field(h, 32, 2) == 0
            &&& field(h, 34, 2) == 0
            &&& field(h, 36, 2) == m.internal_attr
            &&& field(h, 38, 4) == 0
            &&& field(h, 42, 4) == offset
            &&& h.skip(46) == m.name
        }),
{
    let h = central_header(m, offset);
    lemma_entry_fields(m, offset);
    law_member_date();
    lemma_le_bytes_len(CENTRALHEADERMAGIC as nat, 4);
    lemma_le_bytes_len(0, 2);
    lemma_le_bytes_len(0, 4);
    lemma_le_bytes_len(20, 2);
    lemma_le_bytes_len(m.method as nat, 2);
    lemma_le_bytes_len(member_date() as nat, 4);
    lemma_le_bytes_len(m.crc as nat, 4);
    lemma_le_bytes_len(m.payload.len(), 4);
    lemma_le_bytes_len(m.size, 4);
    lemma_le_bytes_len(m.name.len(), 2);
    lemma_le_bytes_len(m.internal_attr as nat, 2);
    lemma_le_bytes_len(offset, 4);
    assert(h.subrange(4, 6) =~= le_bytes(0, 2));
    assert(h.subrange(6, 8) =~= le_bytes(20, 2));
    assert(h.subrange(8, 10) =~= le_bytes(0, 2));
    assert(h.subrange(34, 36) =~= le_bytes(0, 2));
    assert(h.subrange(38, 42) =~= le_bytes(0, 4));
    lemma_field(h, 4, 2, 0);
    lemma_field(h, 6, 2, 20);
    lemma_field(h, 8, 2, 0);
    lemma_field(h, 34, 2, 0);
    lemma_field(h, 38, 4, 0);
    assert(le_bytes(CENTRALHEADERMAGIC as nat, 4) =~= seq![0x50u8, 0x4b, 0x01, 0x02]) by {
        reveal_with_fuel(le_bytes, 5);
    }
    assert(h.take(4) =~= le_bytes(CENTRALHEADERMAGIC as nat, 4));
}

/// What the end record holds: its signature `TIPD`, the first disk twice, the
/// number of members twice, the size of the central directory and where it
/// starts, and no comment.
#[verifier::spinoff_prover]
pub proof fn law_end_record(count: nat, size: nat, offset: nat)
    requires
        count < 0x1_0000,
        size < 0x1_0000_0000,
        offset < 0x1_0000_0000,
    ensures
        ({
            let e = end_record(count, size, offset);
            &&& e.len() == 22
            &&& e.take(4) == seq![0x54u8, 0x49, 0x50, 0x44]
            &&& field(e, 4, 2) == 0
            &&& field(e, 6, 2) == 0
            &&& field(e, 8, 2) == count
            &&& field(e, 10, 2) == count
            &&& field(e, 12, 4) == size
            &&& field(e, 16, 4) == offset
            &&& field(e, 20, 2) == 0
        }),
{
    let e = end_record(count, size, offset);
    lemma_end_fields(count, size, offset);
    lemma_le_bytes_len(ENDHEADERMAGIC as nat, 4);
    lemma_le_bytes_len(0, 2);
    lemma_le_bytes_len(count, 2);
    lemma_le_bytes_len(size, 4);
    lemma_le_bytes_len(offset, 4);
    assert(e.subrange(4, 6) =~= le_bytes(0, 2));
    assert(e.subrange(6, 8) =~= le_bytes(0, 2));
    assert(e.subrange(8, 10) =~= le_bytes(count, 2));
    assert(e.subrange(12, 16) =~= le_bytes(size, 4));
    assert(e.subrange(20, 22) =~= le_bytes(0, 2));
    lemma_field(e, 4, 2, 0);
    lemma_field(e, 6, 2, 0);
    lemma_field(e, 8, 2, count);
    lemma_field(e, 12, 4, size);
    lemma_field(e, 20, 2, 0);
    assert(le_bytes(ENDHEADERMAGIC as nat, 4) =~= seq![0x54u8, 0x49, 0x50, 0x44]) by {
        reveal_with_fuel(le_bytes, 5);
    }
    assert(e.take(4) =~= le_bytes(ENDHEADERMAGIC as nat, 4));
}

/// Members stand one behind the other from the start of the file on, the entries
/// of the central directory behind them, and the end record behind those. Nothing
/// else is in an archive.
pub proof fn law_archive_order(start: nat, ms: Seq<Member>, i: int)
    requires
        0 <= i < ms.len(),
    ensures
        offset_of(start, ms, 0) == start,
        offset_of(start, ms, i + 1) == offset_of(start, ms, i) + local_record(ms[i], i == 0).len(),
        occurs_at(
            archive_of(start, ms),
            offset_of(start, ms, i) - start,
            local_record(ms[i], i == 0),
        ),
        central_directory(start, ms, 0).len() == 0,
        central_directory(start, ms, (i + 1) as nat).len() == central_directory(
            start,
            ms,
            i as nat,
        ).len() + central_header(ms[i], offset_of(start, ms, i)).len(),
        occurs_at(
            archive_of(start, ms),
            offset_of(start, ms, ms.len() as int) - start + central_directory(
                start,
                ms,
                i as nat,
            ).len(),
            central_header(ms[i], offset_of(start, ms, i)),
        ),
        archive_of(start, ms).len() == offset_of(start, ms, ms.len() as int) - start
            + central_directory(start, ms, ms.len()).len() + end_record(
            ms.len(),
            central_directory(start, ms, ms.len()).len(),
            offset_of(start, ms, ms.len() as int),
        ).len(),
        occurs_at(
            archive_of(start, ms),
            offset_of(start, ms, ms.len() as int) - start + central_directory(
                start,
                ms,
                ms.len(),
            ).len(),
            end_record(
                ms.len(),
                central_directory(start, ms, ms.len()).len(),
                offset_of(start, ms, ms.len() as int),
            ),
        ),
{
    let s = archive_of(start, ms);
    let image = image_of(ms);
    let directory = central_directory(start, ms, ms.len());
    let e = end_record(ms.len(), directory.len(), start + image.len());
    assert(ms.take(0) =~= Seq::empty());
    assert(ms.take(ms.len() as int) =~= ms);
    assert(ms.take(i + 1).drop_last() =~= ms.take(i));
    assert(ms.take(i + 1).last() == ms[i]);
    lemma_image_step(ms.take(i + 1));
    lemma_three_parts(s, image, directory, e);
    lemma_record_at(ms, i);
    lemma_entry_at(start, ms, i, ms.len());
    lemma_occurs_within(s, 0, image, image_of(ms.take(i)).len() as int, local_record(ms[i], i == 0));
    lemma_occurs_within(
        s,
        image.len() as int,
        directory,
        central_directory(start, ms, i as nat).len() as int,
        central_header(ms[i], offset_of(start, ms, i)),
    );
}

/// One record more.
proof fn lemma_image_step(ms: Seq<Member>)
    requires
        ms.len() > 0,
    ensures
        image_of(ms).len() == image_of(ms.drop_last()).len() + local_record(
            ms.last(),
            ms.len() == 1,
        ).len(),
{
}

/// A reader finds a file that was added last, behind the members before, which
/// stay as they were: under its name, with the size and the checksum of its
/// contents and the fixed date. Files that end with `.xml` have method 13 and
/// bitmaps method 0, and their contents are there as they are. Any other file,
/// however long, has method 8, and what deflate made of it is there; it is marked
/// as text if the compressor found text.
///
/// `xml` is whether the name ends with `.xml`: of an ASCII name, by its last four
/// characters.
pub proof fn law_added_file(
    start: nat,
    ms: Seq<Member>,
    filename: Seq<char>,
    data: Seq<u8>,
    tiversion: u32,
    deflated: Seq<u8>,
    data_type: i32,
    xml: bool,
)
    requires
        archive_representable(
            start,
            ms.push(member_of(filename, data, tiversion, deflated, data_type)),
        ),
        is_ascii_chars(filename) ==> xml == ends_in_letters(filename, 'x', 'm', 'l'),
        !is_ascii_chars(filename) ==> xml == ends_with_lowercase(filename, ".xml"@),
    ensures
        ({
            let m = member_of(filename, data, tiversion, deflated, data_type);
            let found = read_archive(archive_of(start, ms.push(m)), start);
            let last = found[ms.len() as int];
            let bitmap = ends_in_letters(filename, 'b', 'm', 'p');
            &&& m.tiversion == tiversion
            &&& found.len() == ms.len() + 1
            &&& found.take(ms.len() as int) == stored_all(ms)
            &&& last.name == encode_utf8(filename)
            &&& last.size == data.len()
            &&& last.crc == crc32(data)
            &&& last.date == 0x0020_0000
            &&& xml ==> last.method == 13 && last.payload == data && last.internal_attr == 0
            &&& !xml && bitmap ==> last.method == 0 && last.payload == data && last.internal_attr == 0
            &&& !xml && !bitmap ==> last.method == 8 && last.payload == deflated
                && last.internal_attr == (if data_type & 0x0f == 1 {
                1nat
            } else {
                0
            })
        }),
{
    let m = member_of(filename, data, tiversion, deflated, data_type);
    let all = ms.push(m);
    reveal_strlit(".xml");
    assert(".xml"@ =~= seq!['.', 'x', 'm', 'l']);
    if is_ascii_chars(filename) {
        law_lowercase_letters(filename, ".xml"@, 'x', 'm', 'l');
    }
    law_bitmap_letters(filename);
    law_read_back(start, all);
    law_member_date();
    assert(stored_all(all).take(ms.len() as int) =~= stored_all(ms));
    assert(stored_all(all)[ms.len() as int] == stored(m));
}

/// The number that hexadecimal digits stand for, if there are no others; the
/// letters are capital ones.
pub open spec fn hex_value(s: Seq<u8>) -> Option<nat>
    decreases s.len(),
{
    if s.len() == 0 {
        Some(0)
    } else {
        match hex_value(s.drop_last()) {
            Some(n) => if 0x30 <= s.last() <= 0x39 {
                Some(16 * n + (s.last() - 0x30) as nat)
            } else if 0x41 <= s.last() <= 0x46 {
                Some(16 * n + (s.last() - 0x41 + 10) as nat)
            } else {
                None
            },
            None => None,
        }
    }
}

/// A number reads back from its hexadecimal digits. There are at least as many
/// as asked for, and more only if the first is needed.
pub proof fn law_hex_digits(n: nat, width: nat)
    ensures
        hex_value(hex_padded(n, width)) == Some(n),
        hex_padded(n, width).len() >= width,
        hex_padded(n, width).len() > width ==> hex_padded(n, width)[0] != 0x30,
    decreases n, width,
{
    if n > 0 || width > 0 {
        let narrower = if width == 0 {
            0
        } else {
            (width - 1) as nat
        };
        let before = hex_padded(n / 16, narrower);
        let s = hex_padded(n, width);
        law_hex_digits(n / 16, narrower);
        assert(s.drop_last() =~= before);
        assert(s.last() == hex_digit(n % 16));
        if before.len() > 0 {
            assert(s[0] == before[0]);
        } else {
            assert(n / 16 == 0);
        }
    }
}

} // verus!
