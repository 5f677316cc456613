//! The stream cipher of `.tns` documents: triple DES over a counter.

use vstd::prelude::*;

use crate::bytes::{law_le_round_trip, le_bytes, le_value, pow256};
use crate::des::{block_bytes, block_of, subkeys, triple_des};
use crate::des::{
    law_block_bytes, law_block_value, law_bytes_block, law_triple_des_inverse, lemma_subkeys_len,
};
use crate::des::{des_ecb3_encrypt, des_set_key, DesKeySchedule};

verus! {

/// Key of the first encryption.
pub const CRYPT_KEY_1: [u8; 8] = [0x16, 0xa7, 0xa7, 0x32, 0x68, 0xa7, 0xba, 0x73];

/// Key of the decryption in the middle.
pub const CRYPT_KEY_2: [u8; 8] = [0xd9, 0xa8, 0x86, 0xa4, 0x34, 0x45, 0x94, 0x10];

/// Key of the last encryption.
pub const CRYPT_KEY_3: [u8; 8] = [0x3d, 0x80, 0x8c, 0xb5, 0xdf, 0xb3, 0x80, 0x6b];

/// Where the counter starts.
pub const COUNTER_BASE: u32 = 0x6fe2_1307;

/// After how many blocks the counter starts again.
pub const COUNTER_PERIOD: u32 = 1024;

/// The input of the cipher for block number `n`: four zero bytes and the
/// counter, least significant byte first.
pub open spec fn counter_block(n: nat) -> Seq<u8> {
    seq![0u8, 0u8, 0u8, 0u8] + le_bytes((COUNTER_BASE + n % COUNTER_PERIOD as nat) as nat, 4)
}

/// The bytes that block number `n` is combined with.
pub open spec fn key_block(n: nat) -> Seq<u8> {
    block_bytes(
        triple_des(
            block_of(counter_block(n)),
            subkeys(block_of(CRYPT_KEY_1@)),
            subkeys(block_of(CRYPT_KEY_2@)),
            subkeys(block_of(CRYPT_KEY_3@)),
            true,
        ),
    )
}

/// The byte that byte number `i` of a document is combined with.
pub open spec fn key_byte(i: nat) -> u8 {
    key_block(i / 8)[(i % 8) as int]
}

/// `s` encrypted, or decrypted: both are the same.
pub open spec fn crypted(s: Seq<u8>) -> Seq<u8> {
    Seq::new(s.len(), |i: int| s[i] ^ key_byte(i as nat))
}

/// Encrypting twice gives back the document.
pub proof fn law_crypt_round_trip(s: Seq<u8>)
    ensures
        crypted(crypted(s)) == s,
{
    assert forall|i: int| 0 <= i < s.len() implies crypted(crypted(s))[i] == s[i] by {
        lemma_xor_twice(s[i], key_byte(i as nat));
    }
    assert(crypted(crypted(s)) =~= s);
}

/// The start of a document is encrypted without regard to what follows.
pub proof fn law_crypt_prefix(s: Seq<u8>, t: Seq<u8>)
    ensures
        crypted(s + t).take(s.len() as int) == crypted(s),
{
    assert(crypted(s + t).take(s.len() as int) =~= crypted(s));
}

/// The bytes that a document is combined with repeat with each run of the
/// counter.
pub proof fn law_key_period(i: nat)
    ensures
        key_byte(i + 8 * COUNTER_PERIOD as nat) == key_byte(i),
{
    assert((i + 8192) / 8 == i / 8 + 1024);
    assert((i + 8192) % 8 == i % 8);
    assert((i / 8 + 1024) % 1024 == (i / 8) % 1024);
}

/// What the cipher is given for block number `n`: four zero bytes, and in the
/// last four, least significant byte first, a number that counts the blocks from
/// 0x6fe21307 on and starts over after 1024 of them.
pub proof fn law_counter(n: nat)
    ensures
        counter_block(n).len() == 8,
        forall|i: int| 0 <= i < 4 ==> #[trigger] counter_block(n)[i] == 0,
        le_value(counter_block(n).skip(4)) == 0x6fe2_1307 + n % 1024,
{
    let x = (0x6fe2_1307 + n % 1024) as nat;
    law_le_round_trip(x, 4);
    reveal_with_fuel(pow256, 5);
    assert(pow256(4) == 0x1_0000_0000);
    assert(x % pow256(4) == x) by {
        vstd::arithmetic::div_mod::lemma_small_mod(x, pow256(4));
    }
    assert(counter_block(n).skip(4) =~= le_bytes(x, 4));
}

/// No two blocks of one run of the counter give the cipher the same input.
pub proof fn law_counters_differ(n: nat, m: nat)
    requires
        n < m < 1024,
    ensures
        counter_block(n) != counter_block(m),
{
    law_counter(n);
    law_counter(m);
}

/// The bytes that whole block number `n` of a document was combined with.
pub open spec fn difference(s: Seq<u8>, n: nat) -> Seq<u8> {
    Seq::new(8, |i: int| s[8 * n + i] ^ crypted(s)[8 * n + i])
}

/// What a document was combined with decrypts to the counter: undoing triple
/// DES with the three keys gives, for every whole block `n`, four zero bytes and
/// the number of the block past 0x6fe21307, least significant byte first.
pub proof fn law_crypt_counts(s: Seq<u8>, n: nat)
    requires
        8 * n + 8 <= s.len(),
    ensures
        ({
            let counter = block_bytes(
                triple_des(
                    block_of(difference(s, n)),
                    subkeys(0x16a7_a732_68a7_ba73),
                    subkeys(0xd9a8_86a4_3445_9410),
                    subkeys(0x3d80_8cb5_dfb3_806b),
                    false,
                ),
            );
            &&& forall|i: int| 0 <= i < 4 ==> #[trigger] counter[i] == 0
            &&& le_value(counter.skip(4)) == 0x6fe2_1307 + n % 1024
        }),
{
    lemma_keys();
    let k1 = subkeys(0x16a7_a732_68a7_ba73);
    let k2 = subkeys(0xd9a8_86a4_3445_9410);
    let k3 = subkeys(0x3d80_8cb5_dfb3_806b);
    let c = counter_block(n);
    let x = triple_des(block_of(c), k1, k2, k3, true);
    assert forall|i: int| 0 <= i < 8 implies #[trigger] difference(s, n)[i] == block_bytes(x)[i] by {
        let a = s[8 * n + i];
        let k = key_byte((8 * n + i) as nat);
        assert((8 * n + i) / 8 == n && (8 * n + i) % 8 == i);
        assert(crypted(s)[8 * n + i] == a ^ k);
        lemma_xor_twice(a, k);
    }
    assert(difference(s, n) =~= block_bytes(x));
    law_block_bytes(x);
    lemma_subkeys_len(0x16a7_a732_68a7_ba73);
    lemma_subkeys_len(0xd9a8_86a4_3445_9410);
    lemma_subkeys_len(0x3d80_8cb5_dfb3_806b);
    law_triple_des_inverse(block_of(c), k1, k2, k3, true);
    law_counter(n);
    law_bytes_block(c);
}

/// Combining twice with a byte changes nothing.
proof fn lemma_xor_twice(a: u8, k: u8)
    ensures
        a ^ (a ^ k) == k,
        (a ^ k) ^ k == a,
{
    assert(a ^ (a ^ k) == k && (a ^ k) ^ k == a) by (bit_vector);
}

/// The keys as numbers.
proof fn lemma_keys()
    ensures
        block_of(CRYPT_KEY_1@) == 0x16a7_a732_68a7_ba73,
        block_of(CRYPT_KEY_2@) == 0xd9a8_86a4_3445_9410,
        block_of(CRYPT_KEY_3@) == 0x3d80_8cb5_dfb3_806b,
{
    law_block_bytes(0x16a7_a732_68a7_ba73);
    law_block_bytes(0xd9a8_86a4_3445_9410);
    law_block_bytes(0x3d80_8cb5_dfb3_806b);
    law_block_value(CRYPT_KEY_1@);
    law_block_value(CRYPT_KEY_2@);
    law_block_value(CRYPT_KEY_3@);
}

/// Encryption changes no length, and each byte by a value that does not depend
/// on the document.
pub proof fn law_crypt_bytes(s: Seq<u8>, t: Seq<u8>, i: int)
    requires
        0 <= i < s.len(),
        i < t.len(),
    ensures
        crypted(s).len() == s.len(),
        s[i] ^ crypted(s)[i] == t[i] ^ crypted(t)[i],
{
    lemma_xor_twice(s[i], key_byte(i as nat));
    lemma_xor_twice(t[i], key_byte(i as nat));
}

/// The input of the cipher for a counter that is `step` past its base.
fn counter_bytes(step: u32) -> (r: [u8; 8])
    requires
        step < COUNTER_PERIOD,
    ensures
        forall|n: nat| n % COUNTER_PERIOD as nat == step ==> r@ == #[trigger] counter_block(n),
{
    let c: u32 = COUNTER_BASE + step;
    let r: [u8; 8] = [
        0,
        0,
        0,
        0,
        (c & 0xff) as u8,
        ((c >> 8) & 0xff) as u8,
        ((c >> 16) & 0xff) as u8,
        ((c >> 24) & 0xff) as u8,
    ];
    proof {
        assert(c & 0xff == c % 256 && (c >> 8) & 0xff == (c / 256) % 256 && (c >> 16) & 0xff == (c
            / 256 / 256) % 256 && (c >> 24) & 0xff == (c / 256 / 256 / 256) % 256) by (bit_vector);
        reveal_with_fuel(le_bytes, 5);
        assert(r@ =~= seq![0u8, 0u8, 0u8, 0u8] + le_bytes(c as nat, 4));
    }
    r
}

/// Encrypts or decrypts a document in place.
pub fn doccrypt(inout: &mut [u8])
    ensures
        final(inout)@ == crypted(old(inout)@),
{
    let mut ks1 = DesKeySchedule { subkeys: [0;16] };
    let mut ks2 = DesKeySchedule { subkeys: [0;16] };
    let mut ks3 = DesKeySchedule { subkeys: [0;16] };
    des_set_key(&CRYPT_KEY_1, &mut ks1);
    des_set_key(&CRYPT_KEY_2, &mut ks2);
    des_set_key(&CRYPT_KEY_3, &mut ks3);
    let len = inout.len();
    let mut step: u32 = 0;
    let mut offset: usize = 0;
    while offset < len
        invariant
            len == inout@.len(),
            len == old(inout)@.len(),
            offset <= len,
            offset < len ==> offset % 8 == 0 && step == (offset as nat / 8) % (
            COUNTER_PERIOD as nat),
            step < COUNTER_PERIOD,
            ks1.subkeys@ == subkeys(block_of(CRYPT_KEY_1@)),
            ks2.subkeys@ == subkeys(block_of(CRYPT_KEY_2@)),
            ks3.subkeys@ == subkeys(block_of(CRYPT_KEY_3@)),
            forall|j: int| 0 <= j < offset ==> inout@[j] == old(inout)@[j] ^ key_byte(j as nat),
            forall|j: int| offset <= j < len ==> inout@[j] == old(inout)@[j],
        decreases len - offset,
    {
        let counter = counter_bytes(step);
        let mut key: [u8; 8] = [0;8];
        des_ecb3_encrypt(&counter, &mut key, &ks1, &ks2, &ks3, true);
        let ghost n = offset as nat / 8;
        assert(counter@ == counter_block(n));
        assert(key@ == key_block(n));
        let size: usize = if len - offset < 8 {
            len - offset
        } else {
            8
        };
        let mut i: usize = 0;
        while i < size
            invariant
                i <= size <= 8,
                len == inout@.len(),
                len == old(inout)@.len(),
                offset + size <= len,
                offset % 8 == 0,
                n == offset as nat / 8,
                key@ == key_block(n),
                forall|j: int|
                    0 <= j < offset + i ==> inout@[j] == old(inout)@[j] ^ key_byte(j as nat),
                forall|j: int| offset + i <= j < len ==> inout@[j] == old(inout)@[j],
            decreases size - i,
        {
            proof {
                assert((offset + i) / 8 == n);
                assert((offset + i) % 8 == i);
                assert(key_byte((offset + i) as nat) == key@[i as int]);
            }
            inout[offset + i] = inout[offset + i] ^ key[i];
            i = i + 1;
        }
        proof {
            if size == 8 {
                assert((offset + 8) / 8 == n + 1);
                if step + 1 < COUNTER_PERIOD {
                    assert((n + 1) % 1024 == n % 1024 + 1);
                } else {
                    assert((n + 1) % 1024 == 0);
                }
            }
        }
        step = step + 1;
        if step >= COUNTER_PERIOD {
            step = 0;
        }
        offset = offset + size;
    }
    assert(inout@ =~= crypted(old(inout)@));
}

} // verus!
