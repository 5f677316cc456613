//! How the compressor is run: raw deflate, without a header.

use vstd::prelude::*;

verus! {

/// Window size of the compressor; a negative one stands for raw deflate.
pub const WINDOW_BITS: i32 = -15;

/// How much memory the compressor uses.
pub const MEMORY_LEVEL: i32 = 8;

/// Compression level for files. Problems take the default level.
pub const FILE_LEVEL: i32 = 6;

/// How many bytes of a compressed file are taken at a time.
pub const CHUNK_SIZE: usize = 16384;

/// What the compressor answers if there is more to come.
pub const CODE_OK: i32 = 0;

/// What the compressor answers at the end.
pub const CODE_STREAM_END: i32 = 1;

/// How far a compressor has come.
#[derive(PartialEq, Eq, Structural, Clone, Copy, Debug)]
pub enum Progress {
    /// There is more to come.
    More,
    /// All is compressed.
    Finished,
    /// The compressor failed.
    Failed,
}

/// What the answer `code` of the compressor means.
pub open spec fn progress_of(code: i32) -> Progress {
    if code == CODE_STREAM_END {
        Progress::Finished
    } else if code == CODE_OK {
        Progress::More
    } else {
        Progress::Failed
    }
}

/// The room for `len` bytes of a problem when compressed: a thousandth more,
/// and 64 bytes.
pub open spec fn room_for(len: nat) -> nat {
    len + len / 1000 + 64
}

/// Reads the answer of the compressor.
pub fn deflate_progress(code: i32) -> (r: Progress)
    ensures
        r == progress_of(code),
{
    if code == CODE_STREAM_END {
        Progress::Finished
    } else if code == CODE_OK {
        Progress::More
    } else {
        Progress::Failed
    }
}

/// The room that is needed to compress a problem of `len` bytes in one go.
pub fn deflate_room(len: usize) -> (r: usize)
    requires
        room_for(len as nat) <= usize::MAX,
    ensures
        r == room_for(len as nat),
{
    len + len / 1000 + 64
}

/// Compression is over when the compressor answers 1, goes on when it answers 0,
/// and has failed at any other answer.
pub proof fn law_progress(code: i32)
    ensures
        progress_of(code) is Finished <==> code == 1,
        progress_of(code) is More <==> code == 0,
        progress_of(code) is Failed <==> code != 0 && code != 1,
{
}

/// The room for a problem is its length, one byte for each thousand, and 64
/// bytes. A longer problem never gets less.
pub proof fn law_room(len: nat, more: nat)
    ensures
        1000 * (room_for(len) - len - 64) <= len,
        len < 1000 * (room_for(len) - len - 64) + 1000,
        room_for(len) + more <= room_for(len + more),
{
}

/// The compressor makes raw deflate with the largest window and the usual memory,
/// and takes level 6 for files.
pub proof fn law_parameters()
    ensures
        WINDOW_BITS == -15,
        MEMORY_LEVEL == 8,
        FILE_LEVEL == 6,
        CHUNK_SIZE == 16384,
        CODE_OK == 0,
        CODE_STREAM_END == 1,
{
}

} // verus!
