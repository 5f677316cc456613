//! The DES block cipher and its triple form in encrypt-decrypt-encrypt order.
//!
//! A block is a 64-bit number whose most significant bit is bit 1 of the
//! cipher's tables.

use vstd::prelude::*;

verus! {

/// Order of the bits of a block before the rounds.
pub const INITIAL_PERMUTATION: [u8; 64] = [
    58, 50, 42, 34, 26, 18, 10, 2, 60, 52, 44, 36, 28, 20, 12, 4,
    62, 54, 46, 38, 30, 22, 14, 6, 64, 56, 48, 40, 32, 24, 16, 8,
    57, 49, 41, 33, 25, 17, 9, 1, 59, 51, 43, 35, 27, 19, 11, 3,
    61, 53, 45, 37, 29, 21, 13, 5, 63, 55, 47, 39, 31, 23, 15, 7,
];

/// Order of the bits of a block after the rounds.
pub const FINAL_PERMUTATION: [u8; 64] = [
    40, 8, 48, 16, 56, 24, 64, 32, 39, 7, 47, 15, 55, 23, 63, 31,
    38, 6, 46, 14, 54, 22, 62, 30, 37, 5, 45, 13, 53, 21, 61, 29,
    36, 4, 44, 12, 52, 20, 60, 28, 35, 3, 43, 11, 51, 19, 59, 27,
    34, 2, 42, 10, 50, 18, 58, 26, 33, 1, 41, 9, 49, 17, 57, 25,
];

/// Which bits of the right half make up the 48 bits of a round.
pub const EXPANSION: [u8; 48] = [
    32, 1, 2, 3, 4, 5, 4, 5, 6, 7, 8, 9, 8, 9, 10, 11,
    12, 13, 12, 13, 14, 15, 16, 17, 16, 17, 18, 19, 20, 21, 20, 21,
    22, 23, 24, 25, 24, 25, 26, 27, 28, 29, 28, 29, 30, 31, 32, 1,
];

/// Order of the bits that the substitution gives.
pub const ROUND_PERMUTATION: [u8; 32] = [
    16, 7, 20, 21, 29, 12, 28, 17, 1, 15, 23, 26, 5, 18, 31, 10,
    2, 8, 24, 14, 32, 27, 3, 9, 19, 13, 30, 6, 22, 11, 4, 25,
];

/// Which bits of the key are used; the others are parity.
pub const KEY_CHOICE: [u8; 56] = [
    57, 49, 41, 33, 25, 17, 9, 1, 58, 50, 42, 34, 26, 18, 10, 2,
    59, 51, 43, 35, 27, 19, 11, 3, 60, 52, 44, 36, 63, 55, 47, 39,
    31, 23, 15, 7, 62, 54, 46, 38, 30, 22, 14, 6, 61, 53, 45, 37,
    29, 21, 13, 5, 28, 20, 12, 4,
];

/// Which bits of the rotated key make up a subkey.
pub const SUBKEY_CHOICE: [u8; 48] = [
    14, 17, 11, 24, 1, 5, 3, 28, 15, 6, 21, 10, 23, 19, 12, 4,
    26, 8, 16, 7, 27, 20, 13, 2, 41, 52, 31, 37, 47, 55, 30, 40,
    51, 45, 33, 48, 44, 49, 39, 56, 34, 53, 46, 42, 50, 36, 29, 32,
];

/// By how much the key halves are rotated before each subkey.
pub const ROTATIONS: [u8; 16] = [
    1, 1, 2, 2, 2, 2, 2, 2, 1, 2, 2, 2, 2, 2, 2, 1,
];

/// The eight substitution boxes, each in four rows of sixteen.
pub const SUBSTITUTION: [u8; 512] = [
    14, 4, 13, 1, 2, 15, 11, 8, 3, 10, 6, 12, 5, 9, 0, 7,
    0, 15, 7, 4, 14, 2, 13, 1, 10, 6, 12, 11, 9, 5, 3, 8,
    4, 1, 14, 8, 13, 6, 2, 11, 15, 12, 9, 7, 3, 10, 5, 0,
    15, 12, 8, 2, 4, 9, 1, 7, 5, 11, 3, 14, 10, 0, 6, 13,
    15, 1, 8, 14, 6, 11, 3, 4, 9, 7, 2, 13, 12, 0, 5, 10,
    3, 13, 4, 7, 15, 2, 8, 14, 12, 0, 1, 10, 6, 9, 11, 5,
    0, 14, 7, 11, 10, 4, 13, 1, 5, 8, 12, 6, 9, 3, 2, 15,
    13, 8, 10, 1, 3, 15, 4, 2, 11, 6, 7, 12, 0, 5, 14, 9,
    10, 0, 9, 14, 6, 3, 15, 5, 1, 13, 12, 7, 11, 4, 2, 8,
    13, 7, 0, 9, 3, 4, 6, 10, 2, 8, 5, 14, 12, 11, 15, 1,
    13, 6, 4, 9, 8, 15, 3, 0, 11, 1, 2, 12, 5, 10, 14, 7,
    1, 10, 13, 0, 6, 9, 8, 7, 4, 15, 14, 3, 11, 5, 2, 12,
    7, 13, 14, 3, 0, 6, 9, 10, 1, 2, 8, 5, 11, 12, 4, 15,
    13, 8, 11, 5, 6, 15, 0, 3, 4, 7, 2, 12, 1, 10, 14, 9,
    10, 6, 9, 0, 12, 11, 7, 13, 15, 1, 3, 14, 5, 2, 8, 4,
    3, 15, 0, 6, 10, 1, 13, 8, 9, 4, 5, 11, 12, 7, 2, 14,
    2, 12, 4, 1, 7, 10, 11, 6, 8, 5, 3, 15, 13, 0, 14, 9,
    14, 11, 2, 12, 4, 7, 13, 1, 5, 0, 15, 10, 3, 9, 8, 6,
    4, 2, 1, 11, 10, 13, 7, 8, 15, 9, 12, 5, 6, 3, 0, 14,
    11, 8, 12, 7, 1, 14, 2, 13, 6, 15, 0, 9, 10, 4, 5, 3,
    12, 1, 10, 15, 9, 2, 6, 8, 0, 13, 3, 4, 14, 7, 5, 11,
    10, 15, 4, 2, 7, 12, 9, 5, 6, 1, 13, 14, 0, 11, 3, 8,
    9, 14, 15, 5, 2, 8, 12, 3, 7, 0, 4, 10, 1, 13, 11, 6,
    4, 3, 2, 12, 9, 5, 15, 10, 11, 14, 1, 7, 6, 0, 8, 13,
    4, 11, 2, 14, 15, 0, 8, 13, 3, 12, 9, 7, 5, 10, 6, 1,
    13, 0, 11, 7, 4, 9, 1, 10, 14, 3, 5, 12, 2, 15, 8, 6,
    1, 4, 11, 13, 12, 3, 7, 14, 10, 15, 6, 8, 0, 5, 9, 2,
    6, 11, 13, 8, 1, 4, 10, 7, 9, 5, 0, 15, 14, 2, 3, 12,
    13, 2, 8, 4, 6, 15, 11, 1, 10, 9, 3, 14, 5, 0, 12, 7,
    1, 15, 13, 8, 10, 3, 7, 4, 12, 5, 6, 11, 0, 14, 9, 2,
    7, 11, 4, 1, 9, 12, 14, 2, 0, 6, 10, 13, 15, 3, 5, 8,
    2, 1, 14, 7, 4, 10, 8, 13, 15, 12, 9, 0, 3, 5, 6, 11,
];

/// Bit `i` of the `width`-bit number `x`, where bit 1 is the most significant.
pub open spec fn bit(x: u64, width: u64, i: u8) -> u64 {
    (x >> ((width - i) as u64)) & 1
}

/// The bits of the `width`-bit number `x` that `table` names, in its order.
pub open spec fn permuted(x: u64, width: u64, table: Seq<u8>) -> u64
    decreases table.len(),
{
    if table.len() == 0 {
        0
    } else {
        (permuted(x, width, table.drop_last()) << 1) | bit(x, width, table.last())
    }
}

/// The 28-bit number `x` rotated left by `n`.
pub open spec fn rotated(x: u64, n: u8) -> u64 {
    ((x << (n as u64)) | (x >> ((28 - n) as u64))) & 0xfff_ffff
}

/// The two key halves after `n` rotations.
pub open spec fn key_halves(key: u64, n: nat) -> (u64, u64)
    decreases n,
{
    if n == 0 {
        let chosen = permuted(key, 64, KEY_CHOICE@);
        (chosen >> 28, chosen & 0xfff_ffff)
    } else {
        let (c, d) = key_halves(key, (n - 1) as nat);
        (rotated(c, ROTATIONS@[n - 1]), rotated(d, ROTATIONS@[n - 1]))
    }
}

/// The subkey of round `i`, counted from 0.
pub open spec fn subkey(key: u64, i: nat) -> u64 {
    let (c, d) = key_halves(key, i + 1);
    permuted((c << 28) | d, 56, SUBKEY_CHOICE@)
}

/// All subkeys of `key` in the order in which encryption uses them.
pub closed spec fn subkeys(key: u64) -> Seq<u64> {
    Seq::new(16, |i: int| subkey(key, i as nat))
}

/// Where the six bits `six` stand inside a substitution box: the outer bits
/// choose the row, the inner ones the column.
pub open spec fn box_index(six: u64) -> u64 {
    ((((six >> 4) & 2) | (six & 1)) << 4) | ((six >> 1) & 15)
}

/// What the first `n` substitution boxes make of the 48-bit number `x`.
pub open spec fn substituted(x: u64, n: nat) -> u64
    decreases n,
{
    if n == 0 {
        0
    } else {
        let six = (x >> ((48 - 6 * n) as u64)) & 63;
        (substituted(x, (n - 1) as nat) << 4) | SUBSTITUTION@[64 * (n - 1)
            + box_index(six)] as u64
    }
}

/// The round function.
pub open spec fn round_function(right: u64, k: u64) -> u64 {
    permuted(substituted(permuted(right, 32, EXPANSION@) ^ k, 8), 32, ROUND_PERMUTATION@)
}

/// The two halves of a block after the first `n` rounds.
pub open spec fn rounds(halves: (u64, u64), keys: Seq<u64>, n: nat) -> (u64, u64)
    decreases n,
{
    if n == 0 {
        halves
    } else {
        let (l, r) = rounds(halves, keys, (n - 1) as nat);
        (r, l ^ round_function(r, keys[n - 1]))
    }
}

/// The block that DES makes of `x` with the subkeys in the given order.
pub closed spec fn des_block(x: u64, keys: Seq<u64>) -> u64 {
    let start = permuted(x, 64, INITIAL_PERMUTATION@);
    let (l, r) = rounds((start >> 32, start & 0xffff_ffff), keys, 16);
    permuted((r << 32) | l, 64, FINAL_PERMUTATION@)
}

/// What the subkeys of a key are.
pub proof fn lemma_subkeys(key: u64)
    ensures
        subkeys(key) == Seq::new(16, |i: int| subkey(key, i as nat)),
{
}

/// What DES does to a block.
pub proof fn lemma_des_block(x: u64, keys: Seq<u64>)
    ensures
        des_block(x, keys) == ({
            let start = permuted(x, 64, INITIAL_PERMUTATION@);
            let (l, r) = rounds((start >> 32, start & 0xffff_ffff), keys, 16);
            permuted((r << 32) | l, 64, FINAL_PERMUTATION@)
        }),
{
}

/// The subkeys in the order in which they encrypt or decrypt.
pub open spec fn key_order(keys: Seq<u64>, encrypt: bool) -> Seq<u64> {
    if encrypt {
        keys
    } else {
        keys.reverse()
    }
}

/// Triple DES: encrypting runs the three schedules as encrypt, decrypt,
/// encrypt; decrypting undoes that from the last to the first.
pub open spec fn triple_des(
    x: u64,
    k1: Seq<u64>,
    k2: Seq<u64>,
    k3: Seq<u64>,
    encrypt: bool,
) -> u64 {
    let (first, last) = if encrypt {
        (k1, k3)
    } else {
        (k3, k1)
    };
    let a = des_block(x, key_order(first, encrypt));
    let b = des_block(a, key_order(k2, !encrypt));
    des_block(b, key_order(last, encrypt))
}

/// The number whose eight bytes are `s`, most significant first.
pub open spec fn block_of(s: Seq<u8>) -> u64 {
    (s[0] as u64) << 56 | (s[1] as u64) << 48 | (s[2] as u64) << 40 | (s[3] as u64) << 32 | (
    s[4] as u64) << 24 | (s[5] as u64) << 16 | (s[6] as u64) << 8 | (s[7] as u64)
}

/// The eight bytes of `x`, most significant first.
pub open spec fn block_bytes(x: u64) -> Seq<u8> {
    seq![
        ((x >> 56) & 0xff) as u8,
        ((x >> 48) & 0xff) as u8,
        ((x >> 40) & 0xff) as u8,
        ((x >> 32) & 0xff) as u8,
        ((x >> 24) & 0xff) as u8,
        ((x >> 16) & 0xff) as u8,
        ((x >> 8) & 0xff) as u8,
        (x & 0xff) as u8,
    ]
}

/// The subkeys of one DES key.
pub struct DesKeySchedule {
    pub subkeys: [u64; 16],
}

/// Picks bits of `x` in the order of `table`.
fn permute(x: u64, width: u64, table: &[u8]) -> (r: u64)
    requires
        width <= 64,
        forall|i: int| 0 <= i < table@.len() ==> 1 <= #[trigger] table@[i] <= width,
    ensures
        r == permuted(x, width, table@),
{
    let mut r: u64 = 0;
    let mut i: usize = 0;
    assert(table@.take(0) =~= Seq::empty());
    while i < table.len()
        invariant
            width <= 64,
            forall|j: int| 0 <= j < table@.len() ==> 1 <= #[trigger] table@[j] <= width,
            i <= table@.len(),
            r == permuted(x, width, table@.take(i as int)),
        decreases table.len() - i,
    {
        assert(table@.take(i + 1).drop_last() =~= table@.take(i as int));
        r = (r << 1) | ((x >> (width - table[i] as u64)) & 1);
        i = i + 1;
    }
    assert(table@.take(i as int) =~= table@);
    r
}

/// Rotates a 28-bit number.
fn rotate(x: u64, n: u8) -> (r: u64)
    requires
        n <= 28,
    ensures
        r == rotated(x, n),
{
    ((x << (n as u64)) | (x >> (28 - n as u64))) & 0xfff_ffff
}

/// Derives the subkeys of `key`.
pub fn des_set_key(key: &[u8; 8], ks: &mut DesKeySchedule)
    ensures
        final(ks).subkeys@ == subkeys(block_of(key@)),
{
    let k = read_block(key);
    let chosen = permute(k, 64, &KEY_CHOICE);
    let mut c: u64 = chosen >> 28;
    let mut d: u64 = chosen & 0xfff_ffff;
    let mut i: usize = 0;
    while i < 16
        invariant
            i <= 16,
            (c, d) == key_halves(k, i as nat),
            forall|j: int| 0 <= j < i ==> ks.subkeys@[j] == subkey(k, j as nat),
        decreases 16 - i,
    {
        assert(forall|j: int| 0 <= j < 16 ==> #[trigger] ROTATIONS@[j] <= 2);
        c = rotate(c, ROTATIONS[i]);
        d = rotate(d, ROTATIONS[i]);
        ks.subkeys[i] = permute((c << 28) | d, 56, &SUBKEY_CHOICE);
        i = i + 1;
    }
    assert(ks.subkeys@ =~= subkeys(k));
}

/// Runs the substitution boxes.
fn substitute(x: u64) -> (r: u64)
    ensures
        r == substituted(x, 8),
{
    let mut r: u64 = 0;
    let mut n: u64 = 0;
    while n < 8
        invariant
            n <= 8,
            r == substituted(x, n as nat),
        decreases 8 - n,
    {
        let six = (x >> (42 - 6 * n)) & 63;
        let index = ((((six >> 4) & 2) | (six & 1)) << 4) | ((six >> 1) & 15);
        assert(index < 64) by (bit_vector)
            requires
                index == ((((six >> 4) & 2) | (six & 1)) << 4) | ((six >> 1) & 15),
        ;
        r = (r << 4) | SUBSTITUTION[(64 * n + index) as usize] as u64;
        n = n + 1;
    }
    r
}

/// The eight bytes of a block as a number.
fn read_block(s: &[u8; 8]) -> (x: u64)
    ensures
        x == block_of(s@),
{
    (s[0] as u64) << 56 | (s[1] as u64) << 48 | (s[2] as u64) << 40 | (s[3] as u64) << 32 | (
    s[4] as u64) << 24 | (s[5] as u64) << 16 | (s[6] as u64) << 8 | (s[7] as u64)
}

/// Encrypts or decrypts one block.
fn run_block(x: u64, ks: &DesKeySchedule, encrypt: bool) -> (r: u64)
    ensures
        r == des_block(x, key_order(ks.subkeys@, encrypt)),
{
    let start = permute(x, 64, &INITIAL_PERMUTATION);
    let mut l: u64 = start >> 32;
    let mut r: u64 = start & 0xffff_ffff;
    let ghost keys = key_order(ks.subkeys@, encrypt);
    let mut i: usize = 0;
    while i < 16
        invariant
            i <= 16,
            keys == key_order(ks.subkeys@, encrypt),
            (l, r) == rounds((start >> 32, start & 0xffff_ffff), keys, i as nat),
        decreases 16 - i,
    {
        let k = if encrypt {
            ks.subkeys[i]
        } else {
            ks.subkeys[15 - i]
        };
        assert(k == keys[i as int]);
        let f = permute(substitute(permute(r, 32, &EXPANSION) ^ k), 32, &ROUND_PERMUTATION);
        let mixed = l ^ f;
        l = r;
        r = mixed;
        i = i + 1;
    }
    permute((r << 32) | l, 64, &FINAL_PERMUTATION)
}

/// Encrypts or decrypts the block `input` with triple DES.
pub fn des_ecb3_encrypt(
    input: &[u8; 8],
    output: &mut [u8; 8],
    ks1: &DesKeySchedule,
    ks2: &DesKeySchedule,
    ks3: &DesKeySchedule,
    encrypt: bool,
)
    ensures
        final(output)@ == block_bytes(
            triple_des(block_of(input@), ks1.subkeys@, ks2.subkeys@, ks3.subkeys@, encrypt),
        ),
{
    let x = read_block(input);
    let y = if encrypt {
        run_block(run_block(run_block(x, ks1, true), ks2, false), ks3, true)
    } else {
        run_block(run_block(run_block(x, ks3, false), ks2, true), ks1, false)
    };
    *output = [
        ((y >> 56) & 0xff) as u8,
        ((y >> 48) & 0xff) as u8,
        ((y >> 40) & 0xff) as u8,
        ((y >> 32) & 0xff) as u8,
        ((y >> 24) & 0xff) as u8,
        ((y >> 16) & 0xff) as u8,
        ((y >> 8) & 0xff) as u8,
        (y & 0xff) as u8,
    ];
    assert(output@ =~= block_bytes(y));
}

/// One bit is 0 or 1, and shifting by nothing changes nothing.
proof fn lemma_bit_is_small(x: u64, at: u64)
    ensures
        (x >> at) & 1 <= 1,
        x >> 0 == x,
{
    assert((x >> at) & 1 <= 1 && x >> 0 == x) by (bit_vector);
}

/// Two numbers with the same bits from position `k` up are the same there.
proof fn lemma_same_bits(x: u64, y: u64, k: u64)
    requires
        k <= 63,
        forall|i: u64| k <= i < 64 ==> #[trigger] (x >> i) & 1 == (y >> i) & 1,
    ensures
        x >> k == y >> k,
    decreases 63 - k,
{
    assert((x >> k) & 1 == (y >> k) & 1);
    if k < 63 {
        let above = (k + 1) as u64;
        lemma_same_bits(x, y, above);
        assert(x >> k == y >> k) by (bit_vector)
            requires
                k < 63,
                above == k + 1,
                x >> above == y >> above,
                (x >> k) & 1 == (y >> k) & 1,
        ;
    } else {
        assert(x >> 63 == (x >> 63) & 1 && y >> 63 == (y >> 63) & 1) by (bit_vector);
    }
}

/// Bit `i` of a permuted number is the bit that the table names for it.
proof fn lemma_permuted_bit(x: u64, width: u64, table: Seq<u8>, i: u64)
    requires
        i < table.len() <= 64,
    ensures
        (permuted(x, width, table) >> i) & 1 == bit(x, width, table[table.len() - 1 - i]),
    decreases table.len(),
{
    let p = permuted(x, width, table.drop_last());
    let b = bit(x, width, table.last());
    let at = (width - table.last()) as u64;
    lemma_bit_is_small(x, at);
    if i == 0 {
        assert((((p << 1) | b) >> 0) & 1 == b) by (bit_vector)
            requires
                b <= 1,
        ;
    } else {
        let j = (i - 1) as u64;
        lemma_permuted_bit(x, width, table.drop_last(), j);
        assert((((p << 1) | b) >> i) & 1 == (p >> j) & 1) by (bit_vector)
            requires
                b <= 1,
                0 < i < 64,
                j == i - 1,
        ;
    }
}

/// Bit `i` of a permuted number, counted from the lowest, is the bit of `x` that
/// the table names for it. The table counts the bits from 1, the highest first.
pub proof fn law_permuted_bit(x: u64, width: u64, table: Seq<u8>, i: u64)
    requires
        i < table.len() <= 64,
        table[table.len() - 1 - i] <= width,
    ensures
        (permuted(x, width, table) >> i) & 1 == (x >> ((width - table[table.len() - 1 - i]) as u64))
            & 1,
{
    lemma_permuted_bit(x, width, table, i);
}

/// A permuted number has no more bits than the table has entries.
proof fn lemma_permuted_bound(x: u64, width: u64, table: Seq<u8>)
    requires
        table.len() < 64,
    ensures
        permuted(x, width, table) >> (table.len() as u64) == 0,
    decreases table.len(),
{
    if table.len() == 0 {
        lemma_bit_is_small(0, 0);
    } else {
        let p = permuted(x, width, table.drop_last());
        let b = bit(x, width, table.last());
        let at = (width - table.last()) as u64;
        lemma_bit_is_small(x, at);
        lemma_permuted_bound(x, width, table.drop_last());
        let n = table.len() as u64;
        let m = (n - 1) as u64;
        assert(((p << 1) | b) >> n == 0) by (bit_vector)
            requires
                b <= 1,
                0 < n < 64,
                m == n - 1,
                p >> m == 0,
        ;
    }
}

/// Where `back` names the places at which `there` puts the bits, it undoes the
/// permutation.
proof fn lemma_permutation_undone(x: u64, there: Seq<u8>, back: Seq<u8>)
    requires
        there.len() == 64,
        back.len() == 64,
        forall|i: int| 0 <= i < 64 ==> 1 <= #[trigger] back[i] <= 64 && there[back[i] - 1] == i + 1,
    ensures
        permuted(permuted(x, 64, there), 64, back) == x,
{
    let y = permuted(x, 64, there);
    let z = permuted(y, 64, back);
    assert forall|i: u64| 0 <= i < 64 implies #[trigger] (z >> i) & 1 == (x >> i) & 1 by {
        let name = back[63 - i];
        let j = (64 - name) as u64;
        lemma_permuted_bit(y, 64, back, i);
        lemma_permuted_bit(x, 64, there, j);
        assert(there[63 - j] == 64 - i);
    }
    lemma_same_bits(z, x, 0);
    lemma_bit_is_small(z, 0);
    lemma_bit_is_small(x, 0);
}

/// The permutations before and after the rounds undo each other.
proof fn lemma_permutations(x: u64)
    ensures
        permuted(permuted(x, 64, INITIAL_PERMUTATION@), 64, FINAL_PERMUTATION@) == x,
        permuted(permuted(x, 64, FINAL_PERMUTATION@), 64, INITIAL_PERMUTATION@) == x,
{
    let a = INITIAL_PERMUTATION@;
    let b = FINAL_PERMUTATION@;
    assert(forall|i: int|
        0 <= i < 64 ==> 1 <= #[trigger] b[i] <= 64 && a[b[i] - 1] == i + 1);
    assert(forall|i: int|
        0 <= i < 64 ==> 1 <= #[trigger] a[i] <= 64 && b[a[i] - 1] == i + 1);
    lemma_permutation_undone(x, a, b);
    lemma_permutation_undone(x, b, a);
}

/// Both halves stay 32 bits wide.
proof fn lemma_rounds_bound(halves: (u64, u64), keys: Seq<u64>, n: nat)
    requires
        halves.0 >> 32 == 0,
        halves.1 >> 32 == 0,
    ensures
        rounds(halves, keys, n).0 >> 32 == 0,
        rounds(halves, keys, n).1 >> 32 == 0,
    decreases n,
{
    if n > 0 {
        lemma_rounds_bound(halves, keys, (n - 1) as nat);
        let (l, r) = rounds(halves, keys, (n - 1) as nat);
        let f = round_function(r, keys[n - 1]);
        lemma_permuted_bound(
            substituted(permuted(r, 32, EXPANSION@) ^ keys[n - 1], 8),
            32,
            ROUND_PERMUTATION@,
        );
        assert((l ^ f) >> 32 == 0) by (bit_vector)
            requires
                l >> 32 == 0,
                f >> 32 == 0,
        ;
    }
}

/// The rounds run backwards on swapped halves.
proof fn lemma_rounds_undone(halves: (u64, u64), keys: Seq<u64>, n: nat)
    requires
        keys.len() == 16,
        n <= 16,
    ensures
        ({
            let (l, r) = rounds(halves, keys, 16);
            let (a, b) = rounds(halves, keys, (16 - n) as nat);
            rounds((r, l), keys.reverse(), n) == (b, a)
        }),
    decreases n,
{
    if n > 0 {
        lemma_rounds_undone(halves, keys, (n - 1) as nat);
        let m = (16 - n) as nat;
        let (a, b) = rounds(halves, keys, m);
        let k = keys[m as int];
        let f = round_function(b, k);
        assert(rounds(halves, keys, m + 1) == (b, a ^ f));
        assert(keys.reverse()[n - 1] == k);
        assert((a ^ f) ^ f == a) by (bit_vector);
    }
}

/// The halves of a block.
proof fn lemma_halves_of(x: u64)
    ensures
        (x >> 32) >> 32 == 0,
        (x & 0xffff_ffff) >> 32 == 0,
        x >> 32 == x / 0x1_0000_0000,
        x & 0xffff_ffff == x % 0x1_0000_0000,
{
    assert((x >> 32) >> 32 == 0 && (x & 0xffff_ffff) >> 32 == 0 && x >> 32 == x / 0x1_0000_0000 && x
        & 0xffff_ffff == x % 0x1_0000_0000) by (bit_vector);
}

/// A block that is put together has the halves that it was made of.
proof fn lemma_joined_halves(l: u64, r: u64)
    requires
        l >> 32 == 0,
        r >> 32 == 0,
    ensures
        ((r << 32) | l) >> 32 == r,
        ((r << 32) | l) & 0xffff_ffff == l,
{
    assert(((r << 32) | l) >> 32 == r && ((r << 32) | l) & 0xffff_ffff == l) by (bit_vector)
        requires
            l >> 32 == 0,
            r >> 32 == 0,
    ;
}

/// Decrypting a block undoes encrypting it: with the subkeys in the opposite
/// order, DES gives back what it started from.
pub proof fn law_des_inverse(x: u64, keys: Seq<u64>)
    requires
        keys.len() == 16,
    ensures
        des_block(des_block(x, keys), keys.reverse()) == x,
{
    let start = permuted(x, 64, INITIAL_PERMUTATION@);
    let halves = (start >> 32, start & 0xffff_ffff);
    let (l, r) = rounds(halves, keys, 16);
    lemma_halves_of(start);
    lemma_rounds_bound(halves, keys, 16);
    let joined = (r << 32) | l;
    lemma_joined_halves(l, r);
    lemma_permutations(joined);
    lemma_rounds_undone(halves, keys, 16);
    assert(rounds(halves, keys, 0) == halves);
    let (h0, h1) = halves;
    assert((h0 << 32) | h1 == start) by (bit_vector)
        requires
            h0 == start >> 32,
            h1 == start & 0xffff_ffff,
    ;
    lemma_permutations(x);
}

/// Decrypting with triple DES undoes encrypting with it, and the other way
/// round.
pub proof fn law_triple_des_inverse(
    x: u64,
    k1: Seq<u64>,
    k2: Seq<u64>,
    k3: Seq<u64>,
    encrypt: bool,
)
    requires
        k1.len() == 16,
        k2.len() == 16,
        k3.len() == 16,
    ensures
        triple_des(triple_des(x, k1, k2, k3, encrypt), k1, k2, k3, !encrypt) == x,
{
    let (first, last) = if encrypt {
        (k1, k3)
    } else {
        (k3, k1)
    };
    let a = des_block(x, key_order(first, encrypt));
    let b = des_block(a, key_order(k2, !encrypt));
    law_des_inverse(b, key_order(last, encrypt));
    law_des_inverse(a, key_order(k2, !encrypt));
    law_des_inverse(x, key_order(first, encrypt));
    assert(k1.reverse().reverse() =~= k1);
    assert(k2.reverse().reverse() =~= k2);
    assert(k3.reverse().reverse() =~= k3);
}

/// The bytes of a block and its number stand for each other.
pub proof fn law_block_bytes(x: u64)
    ensures
        block_of(block_bytes(x)) == x,
{
    let s = block_bytes(x);
    assert(((x >> 56) & 0xff) << 56 | ((x >> 48) & 0xff) << 48 | ((x >> 40) & 0xff) << 40 | ((x
        >> 32) & 0xff) << 32 | ((x >> 24) & 0xff) << 24 | ((x >> 16) & 0xff) << 16 | ((x >> 8)
        & 0xff) << 8 | (x & 0xff) == x) by (bit_vector);
    assert((x >> 56) & 0xff < 256 && (x >> 48) & 0xff < 256 && (x >> 40) & 0xff < 256 && (x >> 32)
        & 0xff < 256 && (x >> 24) & 0xff < 256 && (x >> 16) & 0xff < 256 && (x >> 8) & 0xff < 256
        && x & 0xff < 256) by (bit_vector);
}

/// A key has sixteen subkeys.
pub proof fn lemma_subkeys_len(key: u64)
    ensures
        subkeys(key).len() == 16,
{
}

/// The number of a block is that of its bytes, the first one highest.
pub proof fn law_block_value(s: Seq<u8>)
    requires
        s.len() == 8,
    ensures
        block_of(s) == s[0] * 0x100_0000_0000_0000 + s[1] * 0x1_0000_0000_0000 + s[2]
            * 0x100_0000_0000 + s[3] * 0x1_0000_0000 + s[4] * 0x100_0000 + s[5] * 0x1_0000 + s[6]
            * 0x100 + s[7],
{
    let a = s[0] as u64;
    let b = s[1] as u64;
    let c = s[2] as u64;
    let d = s[3] as u64;
    let e = s[4] as u64;
    let f = s[5] as u64;
    let g = s[6] as u64;
    let h = s[7] as u64;
    assert(a << 56 | b << 48 | c << 40 | d << 32 | e << 24 | f << 16 | g << 8 | h == a
        * 0x100_0000_0000_0000 + b * 0x1_0000_0000_0000 + c * 0x100_0000_0000 + d * 0x1_0000_0000 + e
        * 0x100_0000 + f * 0x1_0000 + g * 0x100 + h) by (bit_vector)
        requires
            a < 256,
            b < 256,
            c < 256,
            d < 256,
            e < 256,
            f < 256,
            g < 256,
            h < 256,
    ;
}

/// The bytes of the number of a block are the block.
pub proof fn law_bytes_block(s: Seq<u8>)
    requires
        s.len() == 8,
    ensures
        block_bytes(block_of(s)) == s,
{
    let a = s[0];
    let b = s[1];
    let c = s[2];
    let d = s[3];
    let e = s[4];
    let f = s[5];
    let g = s[6];
    let h = s[7];
    let x = block_of(s);
    assert(((x >> 56) & 0xff) as u8 == a && ((x >> 48) & 0xff) as u8 == b && ((x >> 40) & 0xff)
        as u8 == c && ((x >> 32) & 0xff) as u8 == d && ((x >> 24) & 0xff) as u8 == e && ((x >> 16)
        & 0xff) as u8 == f && ((x >> 8) & 0xff) as u8 == g && (x & 0xff) as u8 == h)
        by (bit_vector)
        requires
            x == (a as u64) << 56 | (b as u64) << 48 | (c as u64) << 40 | (d as u64) << 32 | (
            e as u64) << 24 | (f as u64) << 16 | (g as u64) << 8 | (h as u64),
    ;
    assert(block_bytes(x) =~= s);
}

/// Where every bit that the table names is turned over, every bit of the result
/// is.
proof fn lemma_permuted_turned(x: u64, m: u64, width: u64, table: Seq<u8>, turned: u64)
    requires
        width <= 64,
        table.len() <= 64,
        forall|i: int|
            0 <= i < table.len() ==> 1 <= #[trigger] table[i] <= width && bit(m, width, table[i])
                == 1,
        turned >> (table.len() as u64) == 0 || table.len() == 64,
        forall|i: u64| i < table.len() ==> #[trigger] (turned >> i) & 1 == 1,
    ensures
        permuted(x ^ m, width, table) == permuted(x, width, table) ^ turned,
{
    let a = permuted(x ^ m, width, table);
    let b = permuted(x, width, table) ^ turned;
    let p = permuted(x, width, table);
    assert forall|i: u64| 0 <= i < 64 implies #[trigger] (a >> i) & 1 == (b >> i) & 1 by {
        let n = table.len() as u64;
        assert((b >> i) & 1 == ((p >> i) & 1) ^ ((turned >> i) & 1)) by (bit_vector)
            requires
                b == p ^ turned,
        ;
        if i < table.len() {
            lemma_permuted_bit(x ^ m, width, table, i);
            lemma_permuted_bit(x, width, table, i);
            let at = (width - table[table.len() - 1 - i]) as u64;
            assert(bit(m, width, table[table.len() - 1 - i]) == 1);
            assert(((x ^ m) >> at) & 1 == ((x >> at) & 1) ^ ((m >> at) & 1)) by (bit_vector);
        } else {
            lemma_permuted_bound(x ^ m, width, table);
            lemma_permuted_bound(x, width, table);
            assert((a >> i) & 1 == 0 && (p >> i) & 1 == 0 && (turned >> i) & 1 == 0)
                by (bit_vector)
                requires
                    n <= i < 64,
                    a >> n == 0,
                    p >> n == 0,
                    turned >> n == 0,
            ;
            assert(0u64 ^ 0u64 == 0) by (bit_vector);
        }
    }
    lemma_same_bits(a, b, 0);
    lemma_bit_is_small(a, 0);
    lemma_bit_is_small(b, 0);
}

/// Numbers whose bits are all set.
proof fn lemma_ones()
    ensures
        forall|i: u64| i < 64 ==> #[trigger] (0xffff_ffff_ffff_ffffu64 >> i) & 1 == 1,
        forall|i: u64| i < 56 ==> #[trigger] (0xff_ffff_ffff_ffffu64 >> i) & 1 == 1,
        forall|i: u64| i < 48 ==> #[trigger] (0xffff_ffff_ffffu64 >> i) & 1 == 1,
        forall|i: u64| i < 32 ==> #[trigger] (0xffff_ffffu64 >> i) & 1 == 1,
        0xff_ffff_ffff_ffffu64 >> 56 == 0,
        0xffff_ffff_ffffu64 >> 48 == 0,
        0xffff_ffffu64 >> 32 == 0,
{
    assert forall|i: u64| #![auto]
        (i < 64 ==> (0xffff_ffff_ffff_ffffu64 >> i) & 1 == 1) && (i < 56 ==> (
        0xff_ffff_ffff_ffffu64 >> i) & 1 == 1) && (i < 48 ==> (0xffff_ffff_ffffu64 >> i) & 1 == 1)
            && (i < 32 ==> (0xffff_ffffu64 >> i) & 1 == 1) by {
        assert((i < 64 ==> (0xffff_ffff_ffff_ffffu64 >> i) & 1 == 1) && (i < 56 ==> (
        0xff_ffff_ffff_ffffu64 >> i) & 1 == 1) && (i < 48 ==> (0xffff_ffff_ffffu64 >> i) & 1 == 1)
            && (i < 32 ==> (0xffff_ffffu64 >> i) & 1 == 1)) by (bit_vector);
    }
    assert(0xff_ffff_ffff_ffffu64 >> 56 == 0 && 0xffff_ffff_ffffu64 >> 48 == 0 && 0xffff_ffffu64
        >> 32 == 0) by (bit_vector);
}

/// Both key halves are 28 bits wide.
proof fn lemma_key_halves_bound(key: u64, n: nat)
    ensures
        key_halves(key, n).0 >> 28 == 0,
        key_halves(key, n).1 >> 28 == 0,
{
    if n == 0 {
        let chosen = permuted(key, 64, KEY_CHOICE@);
        lemma_permuted_bound(key, 64, KEY_CHOICE@);
        assert((chosen >> 28) >> 28 == 0 && (chosen & 0xfff_ffff) >> 28 == 0) by (bit_vector)
            requires
                chosen >> 56 == 0,
        ;
    } else {
        let (c, d) = key_halves(key, (n - 1) as nat);
        let r = ROTATIONS@[n - 1];
        let a = (c << (r as u64)) | (c >> ((28 - r) as u64));
        let b = (d << (r as u64)) | (d >> ((28 - r) as u64));
        assert((a & 0xfff_ffff) >> 28 == 0 && (b & 0xfff_ffff) >> 28 == 0) by (bit_vector);
    }
}

/// With every bit of the key turned over, every bit of the halves is.
proof fn lemma_halves_turned(key: u64, n: nat)
    requires
        n <= 16,
    ensures
        key_halves(key ^ 0xffff_ffff_ffff_ffff, n) == (
            key_halves(key, n).0 ^ 0xfff_ffff,
            key_halves(key, n).1 ^ 0xfff_ffff,
        ),
    decreases n,
{
    let turned = key ^ 0xffff_ffff_ffff_ffff;
    if n == 0 {
        let p = permuted(key, 64, KEY_CHOICE@);
        let q = permuted(turned, 64, KEY_CHOICE@);
        lemma_ones();
        lemma_permuted_bound(key, 64, KEY_CHOICE@);
        lemma_permuted_turned(
            key,
            0xffff_ffff_ffff_ffff,
            64,
            KEY_CHOICE@,
            0xff_ffff_ffff_ffff,
        );
        assert(q >> 28 == (p >> 28) ^ 0xfff_ffff && q & 0xfff_ffff == (p & 0xfff_ffff)
            ^ 0xfff_ffff) by (bit_vector)
            requires
                q == p ^ 0xff_ffff_ffff_ffff,
                p >> 56 == 0,
        ;
    } else {
        lemma_halves_turned(key, (n - 1) as nat);
        lemma_key_halves_bound(key, (n - 1) as nat);
        let (c, d) = key_halves(key, (n - 1) as nat);
        let r = ROTATIONS@[n - 1];
        assert(1 <= r <= 2);
        lemma_rotated_turned(c, r);
        lemma_rotated_turned(d, r);
    }
}

/// Rotating turned bits gives turned bits.
proof fn lemma_rotated_turned(x: u64, n: u8)
    requires
        x >> 28 == 0,
        1 <= n <= 2,
    ensures
        rotated(x ^ 0xfff_ffff, n) == rotated(x, n) ^ 0xfff_ffff,
{
    let a = n as u64;
    let b = (28 - n) as u64;
    assert((((x ^ 0xfff_ffff) << a) | ((x ^ 0xfff_ffff) >> b)) & 0xfff_ffff == (((x << a) | (x >> b))
        & 0xfff_ffff) ^ 0xfff_ffff) by (bit_vector)
        requires
            x >> 28 == 0,
            (a == 1 && b == 27) || (a == 2 && b == 26),
    ;
}

/// With every bit of the key turned over, every bit of the subkeys is.
proof fn lemma_subkey_turned(key: u64, i: nat)
    requires
        i < 16,
    ensures
        subkey(key ^ 0xffff_ffff_ffff_ffff, i) == subkey(key, i) ^ 0xffff_ffff_ffff,
{
    lemma_halves_turned(key, i + 1);
    lemma_key_halves_bound(key, i + 1);
    let (c, d) = key_halves(key, i + 1);
    let joined = (c << 28) | d;
    assert(((c ^ 0xfff_ffff) << 28) | (d ^ 0xfff_ffff) == joined ^ 0xff_ffff_ffff_ffff)
        by (bit_vector)
        requires
            joined == (c << 28) | d,
            c >> 28 == 0,
            d >> 28 == 0,
    ;
    lemma_ones();
    lemma_permuted_turned(joined, 0xff_ffff_ffff_ffff, 56, SUBKEY_CHOICE@, 0xffff_ffff_ffff);
}

/// With every bit of the halves and the subkeys turned over, every bit stays so
/// through the rounds.
proof fn lemma_rounds_turned(l: u64, r: u64, keys: Seq<u64>, turned: Seq<u64>, n: nat)
    requires
        n <= 16,
        forall|i: int| 0 <= i < 16 ==> #[trigger] turned[i] == keys[i] ^ 0xffff_ffff_ffff,
    ensures
        rounds((l ^ 0xffff_ffff, r ^ 0xffff_ffff), turned, n) == (
            rounds((l, r), keys, n).0 ^ 0xffff_ffff,
            rounds((l, r), keys, n).1 ^ 0xffff_ffff,
        ),
    decreases n,
{
    if n > 0 {
        lemma_rounds_turned(l, r, keys, turned, (n - 1) as nat);
        let (a, b) = rounds((l, r), keys, (n - 1) as nat);
        let k = keys[n - 1];
        let e = permuted(b, 32, EXPANSION@);
        let f = round_function(b, k);
        lemma_ones();
        lemma_permuted_turned(b, 0xffff_ffff, 32, EXPANSION@, 0xffff_ffff_ffff);
        assert(turned[n - 1] == k ^ 0xffff_ffff_ffff);
        assert((e ^ 0xffff_ffff_ffff) ^ (k ^ 0xffff_ffff_ffff) == e ^ k && (a ^ 0xffff_ffff) ^ f
            == (a ^ f) ^ 0xffff_ffff) by (bit_vector);
    }
}

/// DES with every bit of the key and of the block turned over gives the block
/// with every bit turned over.
pub proof fn law_des_complement(x: u64, key: u64)
    ensures
        des_block(x ^ 0xffff_ffff_ffff_ffff, subkeys(key ^ 0xffff_ffff_ffff_ffff)) == des_block(
            x,
            subkeys(key),
        ) ^ 0xffff_ffff_ffff_ffff,
{
    let m = 0xffff_ffff_ffff_ffffu64;
    let keys = subkeys(key);
    let turned = subkeys(key ^ m);
    assert forall|i: int| 0 <= i < 16 implies #[trigger] turned[i] == keys[i]
        ^ 0xffff_ffff_ffff by {
        lemma_subkey_turned(key, i as nat);
    }
    lemma_ones();
    lemma_permuted_turned(x, m, 64, INITIAL_PERMUTATION@, m);
    let s = permuted(x, 64, INITIAL_PERMUTATION@);
    let t = permuted(x ^ m, 64, INITIAL_PERMUTATION@);
    let (l, r) = rounds((s >> 32, s & 0xffff_ffff), keys, 16);
    let joined = (r << 32) | l;
    lemma_rounds_turned(s >> 32, s & 0xffff_ffff, keys, turned, 16);
    assert((s >> 32) >> 32 == 0 && (s & 0xffff_ffff) >> 32 == 0 && t >> 32 == (s >> 32)
        ^ 0xffff_ffff && t & 0xffff_ffff == (s & 0xffff_ffff) ^ 0xffff_ffff) by (bit_vector)
        requires
            t == s ^ 0xffff_ffff_ffff_ffff,
    ;
    lemma_rounds_bound((s >> 32, s & 0xffff_ffff), keys, 16);
    assert(((r ^ 0xffff_ffff) << 32) | (l ^ 0xffff_ffff) == joined ^ 0xffff_ffff_ffff_ffff)
        by (bit_vector)
        requires
            joined == (r << 32) | l,
            l >> 32 == 0,
            r >> 32 == 0,
    ;
    lemma_permuted_turned(joined, m, 64, FINAL_PERMUTATION@, m);
}

/// Triple DES is single DES where the keys cancel: with one key for all three,
/// with the last two the same, and with the first two the same.
pub proof fn law_triple_des_cancels(x: u64, k1: Seq<u64>, k2: Seq<u64>, encrypt: bool)
    requires
        k1.len() == 16,
        k2.len() == 16,
    ensures
        triple_des(x, k1, k1, k1, encrypt) == des_block(x, key_order(k1, encrypt)),
        triple_des(x, k1, k2, k2, true) == des_block(x, k1),
        triple_des(x, k2, k2, k1, true) == des_block(x, k1),
{
    let a = key_order(k1, encrypt);
    law_des_inverse(x, a);
    law_des_inverse(des_block(x, k1), k2.reverse());
    law_des_inverse(x, k2);
    assert(k1.reverse().reverse() =~= k1);
    assert(k2.reverse().reverse() =~= k2);
}

/// The sixteen rotations turn the key halves once around.
pub proof fn law_key_turns(key: u64)
    ensures
        key_halves(key, 16) == key_halves(key, 0),
{
    let (c, d) = key_halves(key, 0);
    lemma_key_halves_bound(key, 0);
    assert(ROTATIONS@ =~= seq![1u8, 1, 2, 2, 2, 2, 2, 2, 1, 2, 2, 2, 2, 2, 2, 1]);
    reveal_with_fuel(key_halves, 17);
    lemma_turned_around(c);
    lemma_turned_around(d);
}

/// Sixteen rotations by 28 in all change nothing.
proof fn lemma_turned_around(x: u64)
    requires
        x >> 28 == 0,
    ensures
        ({
            let a = rotated(rotated(rotated(rotated(x, 1), 1), 2), 2);
            let b = rotated(rotated(rotated(rotated(a, 2), 2), 2), 2);
            let c = rotated(rotated(rotated(rotated(b, 1), 2), 2), 2);
            rotated(rotated(rotated(rotated(c, 2), 2), 2), 1) == x
        }),
{
    assert(({
        let a = rotated(rotated(rotated(rotated(x, 1), 1), 2), 2);
        let b = rotated(rotated(rotated(rotated(a, 2), 2), 2), 2);
        let c = rotated(rotated(rotated(rotated(b, 1), 2), 2), 2);
        rotated(rotated(rotated(rotated(c, 2), 2), 2), 1) == x
    })) by (bit_vector)
        requires
            x >> 28 == 0,
    ;
}

/// Eight entries of a table from `at` on, written one after the other with two
/// decimal digits each.
pub open spec fn row_of_eight(t: Seq<u8>, at: int) -> int {
    t[at] * 1_00_00_00_00_00_00_00 + t[at + 1] * 1_00_00_00_00_00_00 + t[at + 2]
        * 1_00_00_00_00_00 + t[at + 3] * 1_00_00_00_00 + t[at + 4] * 1_00_00_00 + t[at + 5]
        * 1_00_00 + t[at + 6] * 1_00 + t[at + 7]
}

/// Sixteen entries of a table from `at` on, written one after the other with one
/// hexadecimal digit each.
pub open spec fn row_of_sixteen(t: Seq<u8>, at: int) -> int {
    t[at] * 0x1000_0000_0000_0000 + t[at + 1] * 0x100_0000_0000_0000 + t[at + 2]
        * 0x10_0000_0000_0000 + t[at + 3] * 0x1_0000_0000_0000 + t[at + 4] * 0x1000_0000_0000
        + t[at + 5] * 0x100_0000_0000 + t[at + 6] * 0x10_0000_0000 + t[at + 7] * 0x1_0000_0000
        + t[at + 8] * 0x1000_0000 + t[at + 9] * 0x100_0000 + t[at + 10] * 0x10_0000 + t[at + 11]
        * 0x1_0000 + t[at + 12] * 0x1000 + t[at + 13] * 0x100 + t[at + 14] * 0x10 + t[at + 15]
}

/// The permutations and choices are those of the standard, in rows of eight
/// bits; no entry is more than 64.
pub proof fn law_standard_permutations()
    ensures
        forall|i: int| 0 <= i < 64 ==> #[trigger] INITIAL_PERMUTATION@[i] <= 64,
        forall|i: int| 0 <= i < 64 ==> #[trigger] FINAL_PERMUTATION@[i] <= 64,
        forall|i: int| 0 <= i < 48 ==> #[trigger] EXPANSION@[i] <= 64,
        forall|i: int| 0 <= i < 32 ==> #[trigger] ROUND_PERMUTATION@[i] <= 64,
        forall|i: int| 0 <= i < 56 ==> #[trigger] KEY_CHOICE@[i] <= 64,
        forall|i: int| 0 <= i < 48 ==> #[trigger] SUBKEY_CHOICE@[i] <= 64,
        forall|i: int| 0 <= i < 16 ==> #[trigger] ROTATIONS@[i] <= 64,
        row_of_eight(INITIAL_PERMUTATION@, 0) == 5850423426181002,
        row_of_eight(INITIAL_PERMUTATION@, 8) == 6052443628201204,
        row_of_eight(INITIAL_PERMUTATION@, 16) == 6254463830221406,
        row_of_eight(INITIAL_PERMUTATION@, 24) == 6456484032241608,
        row_of_eight(INITIAL_PERMUTATION@, 32) == 5749413325170901,
        row_of_eight(INITIAL_PERMUTATION@, 40) == 5951433527191103,
        row_of_eight(INITIAL_PERMUTATION@, 48) == 6153453729211305,
        row_of_eight(INITIAL_PERMUTATION@, 56) == 6355473931231507,
        row_of_eight(FINAL_PERMUTATION@, 0) == 4008481656246432,
        row_of_eight(FINAL_PERMUTATION@, 8) == 3907471555236331,
        row_of_eight(FINAL_PERMUTATION@, 16) == 3806461454226230,
        row_of_eight(FINAL_PERMUTATION@, 24) == 3705451353216129,
        row_of_eight(FINAL_PERMUTATION@, 32) == 3604441252206028,
        row_of_eight(FINAL_PERMUTATION@, 40) == 3503431151195927,
        row_of_eight(FINAL_PERMUTATION@, 48) == 3402421050185826,
        row_of_eight(FINAL_PERMUTATION@, 56) == 3301410949175725,
        row_of_eight(EXPANSION@, 0) == 3201020304050405,
        row_of_eight(EXPANSION@, 8) == 607080908091011,
        row_of_eight(EXPANSION@, 16) == 1213121314151617,
        row_of_eight(EXPANSION@, 24) == 1617181920212021,
        row_of_eight(EXPANSION@, 32) == 2223242524252627,
        row_of_eight(EXPANSION@, 40) == 2829282930313201,
        row_of_eight(ROUND_PERMUTATION@, 0) == 1607202129122817,
        row_of_eight(ROUND_PERMUTATION@, 8) == 115232605183110,
        row_of_eight(ROUND_PERMUTATION@, 16) == 208241432270309,
        row_of_eight(ROUND_PERMUTATION@, 24) == 1913300622110425,
        row_of_eight(KEY_CHOICE@, 0) == 5749413325170901,
        row_of_eight(KEY_CHOICE@, 8) == 5850423426181002,
        row_of_eight(KEY_CHOICE@, 16) == 5951433527191103,
        row_of_eight(KEY_CHOICE@, 24) == 6052443663554739,
        row_of_eight(KEY_CHOICE@, 32) == 3123150762544638,
        row_of_eight(KEY_CHOICE@, 40) == 3022140661534537,
        row_of_eight(KEY_CHOICE@, 48) == 2921130528201204,
        row_of_eight(SUBKEY_CHOICE@, 0) == 1417112401050328,
        row_of_eight(SUBKEY_CHOICE@, 8) == 1506211023191204,
        row_of_eight(SUBKEY_CHOICE@, 16) == 2608160727201302,
        row_of_eight(SUBKEY_CHOICE@, 24) == 4152313747553040,
        row_of_eight(SUBKEY_CHOICE@, 32) == 5145334844493956,
        row_of_eight(SUBKEY_CHOICE@, 40) == 3453464250362932,
        row_of_eight(ROTATIONS@, 0) == 101020202020202,
        row_of_eight(ROTATIONS@, 8) == 102020202020201,
{
}

/// The substitution boxes are those of the standard: each row as a number of
/// sixteen hexadecimal digits. No entry is more than 15.
pub proof fn law_standard_boxes()
    ensures
        forall|i: int| 0 <= i < 512 ==> #[trigger] SUBSTITUTION@[i] <= 15,
        row_of_sixteen(SUBSTITUTION@, 0) == 0xe4d1_2fb8_3a6c_5907,
        row_of_sixteen(SUBSTITUTION@, 16) == 0x0f74_e2d1_a6cb_9538,
        row_of_sixteen(SUBSTITUTION@, 32) == 0x41e8_d62b_fc97_3a50,
        row_of_sixteen(SUBSTITUTION@, 48) == 0xfc82_4917_5b3e_a06d,
        row_of_sixteen(SUBSTITUTION@, 64) == 0xf18e_6b34_972d_c05a,
        row_of_sixteen(SUBSTITUTION@, 80) == 0x3d47_f28e_c01a_69b5,
        row_of_sixteen(SUBSTITUTION@, 96) == 0x0e7b_a4d1_58c6_932f,
        row_of_sixteen(SUBSTITUTION@, 112) == 0xd8a1_3f42_b67c_05e9,
        row_of_sixteen(SUBSTITUTION@, 128) == 0xa09e_63f5_1dc7_b428,
        row_of_sixteen(SUBSTITUTION@, 144) == 0xd709_346a_285e_cbf1,
        row_of_sixteen(SUBSTITUTION@, 160) == 0xd649_8f30_b12c_5ae7,
        row_of_sixteen(SUBSTITUTION@, 176) == 0x1ad0_6987_4fe3_b52c,
        row_of_sixteen(SUBSTITUTION@, 192) == 0x7de3_069a_1285_bc4f,
        row_of_sixteen(SUBSTITUTION@, 208) == 0xd8b5_6f03_472c_1ae9,
        row_of_sixteen(SUBSTITUTION@, 224) == 0xa690_cb7d_f13e_5284,
        row_of_sixteen(SUBSTITUTION@, 240) == 0x3f06_a1d8_945b_c72e,
        row_of_sixteen(SUBSTITUTION@, 256) == 0x2c41_7ab6_853f_d0e9,
        row_of_sixteen(SUBSTITUTION@, 272) == 0xeb2c_47d1_50fa_3986,
        row_of_sixteen(SUBSTITUTION@, 288) == 0x421b_ad78_f9c5_630e,
        row_of_sixteen(SUBSTITUTION@, 304) == 0xb8c7_1e2d_6f09_a453,
        row_of_sixteen(SUBSTITUTION@, 320) == 0xc1af_9268_0d34_e75b,
        row_of_sixteen(SUBSTITUTION@, 336) == 0xaf42_7c95_61de_0b38,
        row_of_sixteen(SUBSTITUTION@, 352) == 0x9ef5_28c3_704a_1db6,
        row_of_sixteen(SUBSTITUTION@, 368) == 0x432c_95fa_be17_608d,
        row_of_sixteen(SUBSTITUTION@, 384) == 0x4b2e_f08d_3c97_5a61,
        row_of_sixteen(SUBSTITUTION@, 400) == 0xd0b7_491a_e35c_2f86,
        row_of_sixteen(SUBSTITUTION@, 416) == 0x14bd_c37e_af68_0592,
        row_of_sixteen(SUBSTITUTION@, 432) == 0x6bd8_14a7_950f_e23c,
        row_of_sixteen(SUBSTITUTION@, 448) == 0xd284_6fb1_a93e_50c7,
        row_of_sixteen(SUBSTITUTION@, 464) == 0x1fd8_a374_c56b_0e92,
        row_of_sixteen(SUBSTITUTION@, 480) == 0x7b41_9ce2_06ad_f358,
        row_of_sixteen(SUBSTITUTION@, 496) == 0x21e7_4a8d_fc90_356b,
{
}

/// The four bits that box `j` gives, counted from 0, stand in the row that the
/// first and the last of its six bits choose, and in the column that the others
/// do.
pub proof fn law_substitution(x: u64, j: nat)
    requires
        j < 8,
    ensures
        ({
            let six = (x >> ((42 - 6 * j) as u64)) % 64;
            let row = 2 * (six / 32) + six % 2;
            let column = six / 2 % 16;
            (substituted(x, 8) >> ((28 - 4 * j) as u64)) % 16 == SUBSTITUTION@[64 * j + 16 * row
                + column]
        }),
{
    lemma_substituted_nibble(x, 8, j);
    let six = (x >> ((48 - 6 * (j + 1)) as u64)) & 63;
    let word = x >> ((42 - 6 * j) as u64);
    let out = substituted(x, 8) >> ((28 - 4 * j) as u64);
    assert(word & 63 == word % 64 && out & 15 == out % 16) by (bit_vector);
    assert(((((six >> 4) & 2) | (six & 1)) << 4) | ((six >> 1) & 15) == 16 * (2 * (six / 32) + six
        % 2) + six / 2 % 16) by (bit_vector)
        requires
            six < 64,
    ;
}

/// What later boxes give does not change what box `j` gave.
proof fn lemma_substituted_nibble(x: u64, n: nat, j: nat)
    requires
        j < n <= 8,
    ensures
        (substituted(x, n) >> ((4 * (n - 1 - j)) as u64)) & 15 == SUBSTITUTION@[64 * j + box_index(
            (x >> ((48 - 6 * (j + 1)) as u64)) & 63,
        )],
    decreases n,
{
    law_standard_boxes();
    let p = substituted(x, (n - 1) as nat);
    let six = (x >> ((48 - 6 * n) as u64)) & 63;
    let index = box_index(six);
    assert(((((six >> 4) & 2) | (six & 1)) << 4) | ((six >> 1) & 15) < 64) by (bit_vector);
    let s = SUBSTITUTION@[64 * (n - 1) + index] as u64;
    let at = (4 * (n - 1 - j)) as u64;
    if j == n - 1 {
        assert((((p << 4) | s) >> 0) & 15 == s) by (bit_vector)
            requires
                s <= 15,
        ;
    } else {
        lemma_substituted_nibble(x, (n - 1) as nat, j);
        let below = (4 * (n - 2 - j)) as u64;
        assert((((p << 4) | s) >> at) & 15 == (p >> below) & 15) by (bit_vector)
            requires
                s <= 15,
                at == below + 4,
                at <= 28,
        ;
    }
}

/// Sixteen rounds stand between the initial permutation of a block and that of
/// what DES makes of it, whose halves are swapped.
pub proof fn law_des_rounds(x: u64, keys: Seq<u64>)
    ensures
        ({
            let start = permuted(x, 64, INITIAL_PERMUTATION@);
            let end = permuted(des_block(x, keys), 64, INITIAL_PERMUTATION@);
            rounds((start / 0x1_0000_0000, start % 0x1_0000_0000), keys, 16) == (
                end % 0x1_0000_0000,
                end / 0x1_0000_0000,
            )
        }),
{
    let start = permuted(x, 64, INITIAL_PERMUTATION@);
    let halves = (start >> 32, start & 0xffff_ffff);
    let (l, r) = rounds(halves, keys, 16);
    lemma_halves_of(start);
    lemma_rounds_bound(halves, keys, 16);
    let joined = (r << 32) | l;
    lemma_joined_halves(l, r);
    lemma_halves_of(joined);
    lemma_permutations(joined);
}

/// A round moves the right half to the left. What it changes in the left half is
/// bit by bit what the boxes give for the expanded right half and the subkey.
pub proof fn law_round(halves: (u64, u64), keys: Seq<u64>, n: nat, i: u64)
    requires
        i < 32,
    ensures
        rounds(halves, keys, 0) == halves,
        ({
            let (l, r) = rounds(halves, keys, n);
            let (moved, changed) = rounds(halves, keys, n + 1);
            let given = substituted(permuted(r, 32, EXPANSION@) ^ keys[n as int], 8);
            &&& moved == r
            &&& ((l ^ changed) >> i) & 1 == (given >> ((32 - ROUND_PERMUTATION@[31 - i]) as u64))
                & 1
        }),
{
    let (l, r) = rounds(halves, keys, n);
    let given = substituted(permuted(r, 32, EXPANSION@) ^ keys[n as int], 8);
    let f = round_function(r, keys[n as int]);
    assert(1 <= ROUND_PERMUTATION@[31 - i] <= 32);
    law_permuted_bit(given, 32, ROUND_PERMUTATION@, i);
    assert(l ^ (l ^ f) == f) by (bit_vector);
}

/// The halves of a key move around by one or two places before each subkey is
/// taken from them.
pub proof fn law_subkey(key: u64, n: nat, i: u64)
    requires
        n < 16,
        i < 48,
    ensures
        ({
            let places: nat = if n == 0 || n == 1 || n == 8 || n == 15 {
                2
            } else {
                4
            };
            let (c, d) = key_halves(key, n);
            let (a, b) = key_halves(key, n + 1);
            &&& a == c * places % 0x1000_0000 + c * places / 0x1000_0000
            &&& b == d * places % 0x1000_0000 + d * places / 0x1000_0000
            &&& (subkeys(key)[n as int] >> i) & 1 == (((a << 28) | b) >> ((56 - SUBKEY_CHOICE@[47
                - i]) as u64)) & 1
        }),
{
    let (c, d) = key_halves(key, n);
    let (a, b) = key_halves(key, n + 1);
    lemma_key_halves_bound(key, n);
    assert(ROTATIONS@ =~= seq![1u8, 1, 2, 2, 2, 2, 2, 2, 1, 2, 2, 2, 2, 2, 2, 1]);
    lemma_rotated_value(c, ROTATIONS@[n as int]);
    lemma_rotated_value(d, ROTATIONS@[n as int]);
    assert(1 <= SUBKEY_CHOICE@[47 - i] <= 56);
    law_permuted_bit((a << 28) | b, 56, SUBKEY_CHOICE@, i);
}

/// Rotating by one or two places, in numbers.
proof fn lemma_rotated_value(x: u64, n: u8)
    requires
        x >> 28 == 0,
        n == 1 || n == 2,
    ensures
        rotated(x, n) == x * 2 * n % 0x1000_0000 + x * 2 * n / 0x1000_0000,
{
    let a = n as u64;
    let b = (28 - n) as u64;
    assert((((x << a) | (x >> b)) & 0xfff_ffff) == x * 2 * a % 0x1000_0000 + x * 2 * a / 0x1000_0000)
        by (bit_vector)
        requires
            x >> 28 == 0,
            (a == 1 && b == 27) || (a == 2 && b == 26),
    ;
}

} // verus!
