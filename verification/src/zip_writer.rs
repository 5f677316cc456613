//! Writes the archive that a `.tns` document is: ZIP with a signature of its
//! own at the start and at the end.

use vstd::prelude::*;
use vstd::utf8::encode_utf8;

use crate::bytes::{append_bytes, copy_bytes, write_over};
use crate::bytes::{le_bytes, overwrite, zeros};
use crate::bytes::lemma_le_bytes_len;
use crate::text::{ends_with_lowercase, is_bitmap};
use crate::text::{lowercase_ends_with, names_bitmap};

verus! {

/// `*TIM`, first half of the signature of an archive.
pub const LOCALHEADERMAGIC1: u32 = 0x4d49542a;

/// `LP`, second half of the signature of an archive.
pub const LOCALHEADERMAGIC2: u16 = 0x504c;

/// Signature of every local header but the first.
pub const STDLOCALHEADERMAGIC: u32 = 0x04034b50;

/// Signature of an entry of the central directory.
pub const CENTRALHEADERMAGIC: u32 = 0x02014b50;

/// `TIPD`, signature of the end record.
pub const ENDHEADERMAGIC: u32 = 0x44504954;

/// Version of the format that a reader has to know.
pub const VERSION_NEEDED: u16 = 20;

/// Method of members that are stored as they are.
pub const METHOD_STORED: u16 = 0x0000;

/// Method of members that are compressed.
pub const METHOD_DEFLATED: u16 = 0x0008;

/// Method of members that are encrypted already and stored.
pub const METHOD_ENCRYPTED: u16 = 0x000d;

/// No member uses a flag: those stand for compression levels that are not used.
pub const MEMBER_FLAG: u16 = 0;

/// The register of the CRC-32 after `n` more bits, least significant bit first.
pub open spec fn crc_shifted(register: u32, n: nat) -> u32
    decreases n,
{
    if n == 0 {
        register
    } else {
        let before = crc_shifted(register, (n - 1) as nat);
        if before & 1 == 1 {
            (before >> 1) ^ 0xedb8_8320
        } else {
            before >> 1
        }
    }
}

/// The register of the CRC-32 after the bytes of `data`.
pub open spec fn crc_register(data: Seq<u8>) -> u32
    decreases data.len(),
{
    if data.len() == 0 {
        0xffff_ffff
    } else {
        crc_shifted(crc_register(data.drop_last()) ^ data.last() as u32, 8)
    }
}

/// The CRC-32 (IEEE) checksum of `data`.
pub open spec fn crc32(data: Seq<u8>) -> u32 {
    crc_register(data) ^ 0xffff_ffff
}

/// `crc32fast::hash` gives the CRC-32 (IEEE) checksum of the bytes: that of the
/// reflected polynomial 0xedb88320, with all bits inverted before and after.
pub assume_specification[ crc32fast::hash ](buf: &[u8]) -> (r: u32)
    ensures
        r == crc32(buf@),
;

/// What raw deflate made of some data, and the kind of data that it found.
pub struct Deflated {
    /// The compressed bytes, without a header.
    pub bytes: Vec<u8>,
    /// The compressor's guess: 1 in the lowest four bits means text.
    pub data_type: i32,
}

/// The date and time that a member carries, in the format of DOS. Years count
/// from 1980 whether they are given in full or from 1900.
pub open spec fn dos_date(
    tm_year: u32,
    tm_mon: u32,
    tm_mday: u32,
    tm_hour: u32,
    tm_min: u32,
    tm_sec: u32,
) -> u32 {
    let date = date_field(tm_year, tm_mon, tm_mday);
    let time = time_field(tm_hour, tm_min, tm_sec);
    ((date as u32) << 16) | (time as u32)
}

/// The year as DOS counts it.
pub open spec fn dos_year(tm_year: u32) -> nat {
    if tm_year >= 1980 {
        (tm_year - 1980) as nat
    } else if tm_year >= 80 {
        (tm_year - 80) as nat
    } else {
        tm_year as nat
    }
}

/// Day, month and year in one number.
pub open spec fn date_field(tm_year: u32, tm_mon: u32, tm_mday: u32) -> nat {
    (tm_mday + 32 * (tm_mon + 1) + 512 * dos_year(tm_year)) as nat
}

/// Second, minute and hour in one number.
pub open spec fn time_field(tm_hour: u32, tm_min: u32, tm_sec: u32) -> nat {
    (tm_sec / 2 + 32 * tm_min + 2048 * tm_hour) as nat
}

/// The ASCII digit of `d`.
pub open spec fn hex_digit(d: nat) -> u8 {
    if d < 10 {
        (0x30 + d) as u8
    } else {
        (0x41 + (d - 10)) as u8
    }
}

/// `n` in hexadecimal, with at least `width` digits.
pub open spec fn hex_padded(n: nat, width: nat) -> Seq<u8>
    decreases n, width,
{
    if n == 0 && width == 0 {
        Seq::empty()
    } else {
        hex_padded(
            n / 16,
            if width == 0 {
                0
            } else {
                (width - 1) as nat
            },
        ).push(hex_digit(n % 16))
    }
}

/// A member of an archive.
pub struct Member {
    /// The encoded file name.
    pub name: Seq<u8>,
    pub method: u16,
    /// What stands in the archive for the contents.
    pub payload: Seq<u8>,
    /// Checksum of the contents.
    pub crc: u32,
    /// Length of the contents.
    pub size: nat,
    pub internal_attr: u16,
    /// The version that goes into the signature if this is the first member.
    pub tiversion: u32,
}

/// How a file is kept: XML was encrypted before, bitmaps are stored, anything
/// else is compressed.
pub open spec fn method_of(filename: Seq<char>) -> u16 {
    if ends_with_lowercase(filename, ".xml"@) {
        METHOD_ENCRYPTED
    } else if is_bitmap(filename) {
        METHOD_STORED
    } else {
        METHOD_DEFLATED
    }
}

/// The member that a file becomes, given what deflate makes of its contents.
pub open spec fn member_of(
    filename: Seq<char>,
    data: Seq<u8>,
    tiversion: u32,
    deflated: Seq<u8>,
    data_type: i32,
) -> Member {
    let method = method_of(filename);
    Member {
        name: encode_utf8(filename),
        method,
        payload: if method == METHOD_DEFLATED {
            deflated
        } else {
            data
        },
        crc: crc32(data),
        size: data.len(),
        internal_attr: if method == METHOD_DEFLATED && data_type & 0x0f == 1 {
            1
        } else {
            0
        },
        tiversion,
    }
}

/// The date of every member.
pub open spec fn member_date() -> u32 {
    dos_date(0, 0, 0, 0, 0, 0)
}

/// What a local header starts with; the first one is the signature of the
/// archive.
pub open spec fn signature(m: Member, first: bool) -> Seq<u8> {
    if first {
        le_bytes(LOCALHEADERMAGIC1 as nat, 4) + le_bytes(LOCALHEADERMAGIC2 as nat, 2) + hex_padded(
            m.tiversion as nat,
            4,
        )
    } else {
        le_bytes(STDLOCALHEADERMAGIC as nat, 4)
    }
}

/// The local header before the checksum and the sizes are known.
pub open spec fn open_header(m: Member, first: bool) -> Seq<u8> {
    signature(m, first) + le_bytes(VERSION_NEEDED as nat, 2) + le_bytes(MEMBER_FLAG as nat, 2)
        + le_bytes(m.method as nat, 2) + le_bytes(member_date() as nat, 4) + zeros(12) + le_bytes(
        m.name.len(),
        2,
    ) + le_bytes(0, 2) + m.name
}

/// Checksum, compressed size and size of a member.
pub open spec fn size_fields(m: Member) -> Seq<u8> {
    le_bytes(m.crc as nat, 4) + le_bytes(m.payload.len(), 4) + le_bytes(m.size, 4)
}

/// Where the checksum stands in a local header, for a version of four digits.
pub open spec fn size_fields_at(first: bool) -> nat {
    if first {
        20
    } else {
        14
    }
}

/// A member as it stands in the archive: the local header, with checksum and
/// sizes filled in, and the payload.
pub open spec fn local_record(m: Member, first: bool) -> Seq<u8> {
    overwrite(open_header(m, first) + m.payload, size_fields_at(first), size_fields(m))
}

/// All members, one after the other.
pub open spec fn image_of(ms: Seq<Member>) -> Seq<u8>
    decreases ms.len(),
{
    if ms.len() == 0 {
        Seq::empty()
    } else {
        image_of(ms.drop_last()) + local_record(ms.last(), ms.len() == 1)
    }
}

/// Where member `i` starts in an archive that starts at `start`.
pub open spec fn offset_of(start: nat, ms: Seq<Member>, i: int) -> nat {
    start + image_of(ms.take(i)).len()
}

/// The entry of the central directory for a member that starts at `offset`.
pub open spec fn central_header(m: Member, offset: nat) -> Seq<u8> {
    le_bytes(CENTRALHEADERMAGIC as nat, 4) + le_bytes(0, 2) + le_bytes(VERSION_NEEDED as nat, 2)
        + le_bytes(MEMBER_FLAG as nat, 2) + le_bytes(m.method as nat, 2) + le_bytes(
        member_date() as nat,
        4,
    ) + size_fields(m) + le_bytes(m.name.len(), 2) + le_bytes(0, 2) + le_bytes(0, 2) + le_bytes(
        0,
        2,
    ) + le_bytes(m.internal_attr as nat, 2) + le_bytes(0, 4) + le_bytes(offset, 4) + m.name
}

/// The entries for the first `n` members.
pub open spec fn central_directory(start: nat, ms: Seq<Member>, n: nat) -> Seq<u8>
    decreases n,
{
    if n == 0 {
        Seq::empty()
    } else {
        central_directory(start, ms, (n - 1) as nat) + central_header(
            ms[n - 1],
            offset_of(start, ms, n - 1),
        )
    }
}

/// The end record of an archive with `count` members, whose central directory
/// takes `size` bytes from `offset` on.
pub open spec fn end_record(count: nat, size: nat, offset: nat) -> Seq<u8> {
    le_bytes(ENDHEADERMAGIC as nat, 4) + le_bytes(0, 2) + le_bytes(0, 2) + le_bytes(count, 2)
        + le_bytes(count, 2) + le_bytes(size, 4) + le_bytes(offset, 4) + le_bytes(0, 2)
}

/// The archive of the members `ms` that starts at `start`.
pub open spec fn archive_of(start: nat, ms: Seq<Member>) -> Seq<u8> {
    let image = image_of(ms);
    let directory = central_directory(start, ms, ms.len());
    image + directory + end_record(ms.len(), directory.len(), start + image.len())
}

/// A date and a time can be read back from their DOS form: the date from the
/// upper half, the time, to two seconds, from the lower one. Years from 1980 on
/// count from there, those from 80 on from 80, and smaller ones as they are.
pub proof fn law_dos_date_fields(
    tm_year: u32,
    tm_mon: u32,
    tm_mday: u32,
    tm_hour: u32,
    tm_min: u32,
    tm_sec: u32,
)
    requires
        tm_year < 2108,
        tm_year >= 1980 || tm_year < 208,
        tm_mon < 15,
        tm_mday < 32,
        tm_hour < 32,
        tm_min < 64,
        tm_sec < 64,
    ensures
        ({
            let packed = dos_date(tm_year, tm_mon, tm_mday, tm_hour, tm_min, tm_sec) as nat;
            let date = packed / 65536;
            let time = packed % 65536;
            &&& date / 512 == if tm_year >= 1980 {
                tm_year - 1980
            } else if tm_year >= 80 {
                tm_year - 80
            } else {
                tm_year as int
            }
            &&& date / 32 % 16 == tm_mon + 1
            &&& date % 32 == tm_mday
            &&& time / 2048 == tm_hour
            &&& time / 32 % 64 == tm_min
            &&& time % 32 == tm_sec / 2
        }),
{
    let date = date_field(tm_year, tm_mon, tm_mday) as u32;
    let time = time_field(tm_hour, tm_min, tm_sec) as u32;
    assert((date << 16) | time == date * 65536 + time) by (bit_vector)
        requires
            date < 65536,
            time < 65536,
    ;
    let packed = date * 65536 + time;
    assert(packed / 65536 == date && packed % 65536 == time);
    lemma_three_fields(dos_year(tm_year) as int, tm_mon + 1, tm_mday as int, 16);
    lemma_three_fields(tm_hour as int, tm_min as int, (tm_sec / 2) as int, 64);
}

/// Three numbers in one: the last takes five bits, the middle one `n` values.
proof fn lemma_three_fields(a: int, b: int, c: int, n: int)
    requires
        0 <= a,
        0 <= b < n,
        0 <= c < 32,
        n == 16 || n == 64,
    ensures
        (c + 32 * b + 32 * n * a) / (32 * n) == a,
        (c + 32 * b + 32 * n * a) / 32 % n == b,
        (c + 32 * b + 32 * n * a) % 32 == c,
{
    let whole = c + 32 * b + 32 * n * a;
    if n == 16 {
        assert(whole == c + 32 * b + 512 * a);
        assert(whole / 32 == b + 16 * a);
    } else {
        assert(whole == c + 32 * b + 2048 * a);
        assert(whole / 32 == b + 64 * a);
    }
}

/// Packs a date and a time.
pub fn tmz_date_to_dos_date(
    tm_year: u32,
    tm_mon: u32,
    tm_mday: u32,
    tm_hour: u32,
    tm_min: u32,
    tm_sec: u32,
) -> (r: u32)
    requires
        date_field(tm_year, tm_mon, tm_mday) <= u32::MAX,
        time_field(tm_hour, tm_min, tm_sec) <= u32::MAX,
    ensures
        r == dos_date(tm_year, tm_mon, tm_mday, tm_hour, tm_min, tm_sec),
{
    let mut year = tm_year;
    if year >= 1980 {
        year = year - 1980;
    } else if year >= 80 {
        year = year - 80;
    }
    ((tm_mday + 32 * (tm_mon + 1) + 512 * year) << 16) | ((tm_sec / 2) + 32 * tm_min + 2048
        * tm_hour)
}

/// Appends a 16-bit number, least significant byte first.
pub fn write_u16(out: &mut Vec<u8>, val: u16)
    ensures
        final(out)@ == old(out)@ + le_bytes(val as nat, 2),
{
    out.push((val % 256) as u8);
    out.push((val / 256) as u8);
    proof {
        reveal_with_fuel(le_bytes, 3);
        assert(val / 256 % 256 == val / 256);
        assert(out@ =~= old(out)@ + le_bytes(val as nat, 2));
    }
}

/// Appends a 32-bit number, least significant byte first.
pub fn write_u32(out: &mut Vec<u8>, val: u32)
    ensures
        final(out)@ == old(out)@ + le_bytes(val as nat, 4),
{
    out.push((val % 256) as u8);
    out.push((val / 256 % 256) as u8);
    out.push((val / 65536 % 256) as u8);
    out.push((val / 16777216) as u8);
    proof {
        reveal_with_fuel(le_bytes, 5);
        assert(val / 256 / 256 == val / 65536);
        assert(val / 256 / 256 / 256 == val / 16777216);
        assert(val / 16777216 < 256);
        assert(out@ =~= old(out)@ + le_bytes(val as nat, 4));
    }
}

/// Appends the lowest 16 bits of a number.
fn write_low16(out: &mut Vec<u8>, val: usize)
    ensures
        final(out)@ == old(out)@ + le_bytes(val as nat, 2),
{
    let low = val % 65536;
    write_u16(out, low as u16);
    proof {
        reveal_with_fuel(le_bytes, 3);
        assert(low % 256 == val % 256);
        assert(low / 256 % 256 == val / 256 % 256);
        assert(le_bytes(low as nat, 2) =~= le_bytes(val as nat, 2));
    }
}

/// Appends the lowest 32 bits of a number.
fn write_low32(out: &mut Vec<u8>, val: u64)
    ensures
        final(out)@ == old(out)@ + le_bytes(val as nat, 4),
{
    let low = val % 0x1_0000_0000;
    write_u32(out, low as u32);
    proof {
        lemma_le_bytes_low32(val as nat);
    }
}

/// Four bytes hold the lowest 32 bits.
proof fn lemma_le_bytes_low32(x: nat)
    ensures
        le_bytes(x % 0x1_0000_0000, 4) == le_bytes(x, 4),
{
    reveal_with_fuel(le_bytes, 5);
    let low = x % 0x1_0000_0000;
    assert(low % 256 == x % 256);
    assert(low / 256 % 256 == x / 256 % 256);
    assert(low / 256 / 256 % 256 == x / 256 / 256 % 256);
    assert(low / 256 / 256 / 256 % 256 == x / 256 / 256 / 256 % 256);
    assert(le_bytes(low, 4) =~= le_bytes(x, 4));
}

/// Appends `n` in hexadecimal.
fn push_hex(out: &mut Vec<u8>, n: u32, width: u32)
    ensures
        final(out)@ == old(out)@ + hex_padded(n as nat, width as nat),
    decreases n, width,
{
    if n == 0 && width == 0 {
        assert(out@ =~= old(out)@ + hex_padded(0, 0));
        return;
    }
    let narrower: u32 = if width == 0 {
        0
    } else {
        width - 1
    };
    push_hex(out, n / 16, narrower);
    let d = (n % 16) as u8;
    out.push(
        if d < 10 {
            0x30 + d
        } else {
            0x41 + (d - 10)
        },
    );
    assert(out@ =~= old(out)@ + hex_padded(n as nat, width as nat));
}

/// A padded number has its width.
pub proof fn lemma_hex_padded_len(n: nat, width: nat)
    ensures
        hex_padded(n, width).len() >= width,
        width > 0 && n < 65536 && width == 4 ==> hex_padded(n, width).len() == 4,
    decreases n, width,
{
    if n > 0 || width > 0 {
        lemma_hex_padded_len(
            n / 16,
            if width == 0 {
                0
            } else {
                (width - 1) as nat
            },
        );
    }
    if n < 65536 && width == 4 {
        reveal_with_fuel(hex_padded, 6);
    }
}

/// What the central directory says of a member.
struct CentralDirEntry {
    filename: Vec<u8>,
    method: u16,
    dos_date: u32,
    crc32: u32,
    compressed_size: u64,
    uncompressed_size: u64,
    local_header_offset: u64,
    flag: u16,
    internal_attr: u16,
}

impl CentralDirEntry {
    /// Whether this is the entry of member `m` that starts at `offset`.
    spec fn describes(&self, m: Member, offset: nat) -> bool {
        &&& self.filename@ == m.name
        &&& self.method == m.method
        &&& self.dos_date == member_date()
        &&& self.crc32 == m.crc
        &&& self.compressed_size == m.payload.len()
        &&& self.uncompressed_size == m.size
        &&& self.local_header_offset == offset
        &&& self.flag == MEMBER_FLAG
        &&& self.internal_attr == m.internal_attr
    }
}

/// An archive that is being written. The bytes are collected in memory; they
/// belong at position `start` of the file that they go to.
pub struct TiZipWriter {
    start: u64,
    out: Vec<u8>,
    entries: Vec<CentralDirEntry>,
    members: Ghost<Seq<Member>>,
}

impl View for TiZipWriter {
    type V = Seq<Member>;

    /// The members that were added, in order.
    closed spec fn view(&self) -> Seq<Member> {
        self.members@
    }
}

impl TiZipWriter {
    /// Where in the file the archive starts.
    pub closed spec fn origin(&self) -> nat {
        self.start as nat
    }

    /// Position in the file behind what was written.
    pub open spec fn position(&self) -> nat {
        self.origin() + image_of(self@).len()
    }

    /// What was written and what was remembered for the central directory is
    /// what the members say.
    pub closed spec fn wf(&self) -> bool {
        &&& self.out@ == image_of(self@)
        &&& self.entries@.len() == self@.len()
        &&& forall|i: int|
            0 <= i < self@.len() ==> (#[trigger] self.entries@[i]).describes(
                self@[i],
                offset_of(self.start as nat, self@, i),
            )
    }

    /// What was written fits into memory.
    pub proof fn lemma_position(&self)
        requires
            self.wf(),
        ensures
            self.position() <= self.origin() + usize::MAX,
    {
        assert(self.out.len() == self.out@.len());
    }

    /// Starts an archive at position `start` of a file.
    pub fn new(start: u64) -> (r: TiZipWriter)
        ensures
            r.wf(),
            r@ == Seq::<Member>::empty(),
            r.origin() == start,
    {
        TiZipWriter { start, out: Vec::new(), entries: Vec::new(), members: Ghost(Seq::empty()) }
    }

    /// The bytes that were written up to now.
    pub fn written(&self) -> (r: &Vec<u8>)
        requires
            self.wf(),
        ensures
            r@ == image_of(self@),
    {
        &self.out
    }

    /// Adds a file. `deflated` is what raw deflate makes of `data`; it is used
    /// for files that are compressed.
    pub fn add_processed_file(
        &mut self,
        filename: &str,
        data: &[u8],
        tiversion: u32,
        deflated: &Deflated,
    )
        requires
            old(self).wf(),
            old(self).position() <= u64::MAX,
        ensures
            final(self).wf(),
            final(self).origin() == old(self).origin(),
            final(self)@ == old(self)@.push(
                member_of(
                    filename@,
                    data@,
                    tiversion,
                    deflated.bytes@,
                    deflated.data_type,
                ),
            ),
    {
        let method: u16 = if lowercase_ends_with(filename, ".xml") {
            METHOD_ENCRYPTED
        } else if names_bitmap(filename) {
            METHOD_STORED
        } else {
            METHOD_DEFLATED
        };
        let first = self.entries.len() == 0;
        let header_offset = self.start + self.out.len() as u64;
        let name = filename.as_bytes();
        let date = tmz_date_to_dos_date(0, 0, 0, 0, 0, 0);
        let crc = crc32fast::hash(data);
        let payload: &[u8] = if method == METHOD_DEFLATED {
            deflated.bytes.as_slice()
        } else {
            data
        };
        let internal_attr: u16 = if method == METHOD_DEFLATED && deflated.data_type & 0x0f == 1 {
            1
        } else {
            0
        };
        let ghost m = member_of(
            filename@,
            data@,
            tiversion,
            deflated.bytes@,
            deflated.data_type,
        );

        let mut record: Vec<u8> = Vec::new();
        write_open_header(&mut record, first, tiversion, method, date, name, Ghost(m));
        append_bytes(&mut record, payload);
        let mut fields: Vec<u8> = Vec::new();
        write_size_fields(&mut fields, crc, payload.len() as u64, data.len() as u64);
        proof {
            assert(fields@ =~= size_fields(m));
            lemma_open_header_len(m, first);
            lemma_size_fields_len(m);
        }
        write_over(
            &mut record,
            if first {
                20
            } else {
                14
            },
            fields.as_slice(),
        );
        assert(record@ == local_record(m, first));
        append_bytes(&mut self.out, record.as_slice());
        let entry = CentralDirEntry {
            filename: copy_bytes(name),
            method,
            dos_date: date,
            crc32: crc,
            compressed_size: payload.len() as u64,
            uncompressed_size: data.len() as u64,
            local_header_offset: header_offset,
            flag: MEMBER_FLAG,
            internal_attr,
        };
        self.entries.push(entry);
        proof {
            let before = old(self)@;
            let after = before.push(m);
            self.members@ = after;
            assert(after.drop_last() =~= before);
            assert(after.take(before.len() as int) =~= before);
            assert forall|i: int| 0 <= i < after.len() implies (
            #[trigger] self.entries@[i]).describes(
                after[i],
                offset_of(self.start as nat, after, i),
            ) by {
                if i < before.len() {
                    assert(after.take(i) =~= before.take(i));
                    assert(old(self).entries@[i].describes(
                        before[i],
                        offset_of(self.start as nat, before, i),
                    ));
                }
            }
        }
    }

    /// Ends the archive and gives all of it.
    pub fn close(self) -> (r: Vec<u8>)
        requires
            self.wf(),
            self.position() <= u64::MAX,
        ensures
            r@ == archive_of(self.origin(), self@),
    {
        let ghost ms = self@;
        let ghost start = self.start as nat;
        let central_dir_offset = self.start + self.out.len() as u64;
        let mut directory: Vec<u8> = Vec::new();
        let mut i: usize = 0;
        while i < self.entries.len()
            invariant
                self.wf(),
                ms == self@,
                start == self.start,
                i <= self.entries@.len(),
                directory@ == central_directory(start, ms, i as nat),
            decreases self.entries.len() - i,
        {
            let ghost before = directory@;
            write_central_header(
                &mut directory,
                &self.entries[i],
                Ghost(ms[i as int]),
                Ghost(offset_of(start, ms, i as int)),
            );
            i = i + 1;
            assert(directory@ == central_directory(start, ms, i as nat));
        }
        let count = self.entries.len();
        let mut end: Vec<u8> = Vec::new();
        write_u32(&mut end, ENDHEADERMAGIC);
        write_u16(&mut end, 0);
        write_u16(&mut end, 0);
        write_low16(&mut end, count);
        write_low16(&mut end, count);
        write_low32(&mut end, directory.len() as u64);
        write_low32(&mut end, central_dir_offset);
        write_u16(&mut end, 0);
        assert(end@ =~= end_record(ms.len(), directory@.len(), start + image_of(ms).len()));
        let mut out = self.out;
        append_bytes(&mut out, directory.as_slice());
        append_bytes(&mut out, end.as_slice());
        out
    }
}

/// Appends the local header of member `m` before checksum and sizes are known.
fn write_open_header(
    out: &mut Vec<u8>,
    first: bool,
    tiversion: u32,
    method: u16,
    date: u32,
    name: &[u8],
    m: Ghost<Member>,
)
    requires
        m@.tiversion == tiversion,
        m@.method == method,
        date == member_date(),
        m@.name == name@,
    ensures
        final(out)@ == old(out)@ + open_header(m@, first),
{
    if first {
        write_u32(out, LOCALHEADERMAGIC1);
        write_u16(out, LOCALHEADERMAGIC2);
        push_hex(out, tiversion, 4);
    } else {
        write_u32(out, STDLOCALHEADERMAGIC);
    }
    assert(out@ =~= old(out)@ + signature(m@, first));
    write_u16(out, VERSION_NEEDED);
    write_u16(out, MEMBER_FLAG);
    write_u16(out, method);
    write_u32(out, date);
    crate::bytes::append_zeros(out, 12);
    write_low16(out, name.len());
    write_u16(out, 0);
    append_bytes(out, name);
    assert(out@ =~= old(out)@ + open_header(m@, first));
}

/// Appends checksum and sizes.
fn write_size_fields(out: &mut Vec<u8>, crc: u32, compressed: u64, size: u64)
    ensures
        final(out)@ == old(out)@ + (le_bytes(crc as nat, 4) + le_bytes(compressed as nat, 4)
            + le_bytes(size as nat, 4)),
{
    write_u32(out, crc);
    write_low32(out, compressed);
    write_low32(out, size);
    assert(out@ =~= old(out)@ + (le_bytes(crc as nat, 4) + le_bytes(compressed as nat, 4)
        + le_bytes(size as nat, 4)));
}

/// Appends the entry of the central directory for member `m`.
fn write_central_header(
    out: &mut Vec<u8>,
    entry: &CentralDirEntry,
    m: Ghost<Member>,
    offset: Ghost<nat>,
)
    requires
        entry.describes(m@, offset@),
    ensures
        final(out)@ == old(out)@ + central_header(m@, offset@),
{
    write_u32(out, CENTRALHEADERMAGIC);
    write_u16(out, 0);
    write_u16(out, VERSION_NEEDED);
    write_u16(out, entry.flag);
    write_u16(out, entry.method);
    write_u32(out, entry.dos_date);
    write_size_fields(out, entry.crc32, entry.compressed_size, entry.uncompressed_size);
    write_low16(out, entry.filename.len());
    write_u16(out, 0);
    write_u16(out, 0);
    write_u16(out, 0);
    write_u16(out, entry.internal_attr);
    write_u32(out, 0);
    write_low32(out, entry.local_header_offset);
    append_bytes(out, entry.filename.as_slice());
    assert(out@ =~= old(out)@ + central_header(m@, offset@));
}

/// Checksum and sizes take twelve bytes.
pub proof fn lemma_size_fields_len(m: Member)
    ensures
        size_fields(m).len() == 12,
{
    lemma_le_bytes_len(m.crc as nat, 4);
    lemma_le_bytes_len(m.payload.len(), 4);
    lemma_le_bytes_len(m.size, 4);
}

/// The length of a local header.
pub proof fn lemma_open_header_len(m: Member, first: bool)
    ensures
        open_header(m, first).len() == signature(m, first).len() + 26 + m.name.len(),
        first ==> signature(m, first).len() >= 10,
        first && m.tiversion < 65536 ==> signature(m, first).len() == 10,
        !first ==> signature(m, first).len() == 4,
{
    lemma_hex_padded_len(m.tiversion as nat, 4);
    lemma_le_bytes_len(LOCALHEADERMAGIC1 as nat, 4);
    lemma_le_bytes_len(LOCALHEADERMAGIC2 as nat, 2);
    lemma_le_bytes_len(STDLOCALHEADERMAGIC as nat, 4);
    lemma_le_bytes_len(VERSION_NEEDED as nat, 2);
    lemma_le_bytes_len(MEMBER_FLAG as nat, 2);
    lemma_le_bytes_len(m.method as nat, 2);
    lemma_le_bytes_len(member_date() as nat, 4);
    lemma_le_bytes_len(m.name.len(), 2);
    lemma_le_bytes_len(0, 2);
}

} // verus!
