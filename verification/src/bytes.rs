//! Byte-level building blocks: appending, searching, comparing and
//! little-endian numbers.

use vstd::prelude::*;

verus! {

/// Whether `pattern` stands in `s` at position `at`.
pub open spec fn occurs_at(s: Seq<u8>, at: int, pattern: Seq<u8>) -> bool {
    &&& 0 <= at
    &&& at + pattern.len() <= s.len()
    &&& s.subrange(at, at + pattern.len()) == pattern
}

/// Position of the first `byte` in `s`, if there is one.
pub open spec fn position_of(s: Seq<u8>, byte: u8) -> Option<int>
    decreases s.len(),
{
    if s.len() == 0 {
        None
    } else if s[0] == byte {
        Some(0)
    } else {
        match position_of(s.skip(1), byte) {
            Some(k) => Some(k + 1),
            None => None,
        }
    }
}

/// `n` zero bytes.
pub open spec fn zeros(n: nat) -> Seq<u8> {
    Seq::new(n, |i: int| 0u8)
}

/// `buf` with `data` written over it from position `at` on.
pub open spec fn overwrite(buf: Seq<u8>, at: nat, data: Seq<u8>) -> Seq<u8> {
    buf.take(at as int) + data + buf.skip((at + data.len()) as int)
}

/// The `n` lowest bytes of `x`, least significant first.
pub open spec fn le_bytes(x: nat, n: nat) -> Seq<u8>
    decreases n,
{
    if n == 0 {
        Seq::empty()
    } else {
        seq![(x % 256) as u8] + le_bytes(x / 256, (n - 1) as nat)
    }
}

/// The number whose bytes, least significant first, are `s`.
pub open spec fn le_value(s: Seq<u8>) -> nat
    decreases s.len(),
{
    if s.len() == 0 {
        0
    } else {
        s[0] as nat + 256 * le_value(s.skip(1))
    }
}

/// 256 to the power `n`.
pub open spec fn pow256(n: nat) -> nat
    decreases n,
{
    if n == 0 {
        1
    } else {
        256 * pow256((n - 1) as nat)
    }
}

/// Little-endian encoding has the requested width.
pub proof fn lemma_le_bytes_len(x: nat, n: nat)
    ensures
        le_bytes(x, n).len() == n,
    decreases n,
{
    if n > 0 {
        lemma_le_bytes_len(x / 256, (n - 1) as nat);
    }
}

/// Reading back a little-endian field gives the number that was written, cut
/// to the width of the field.
pub proof fn law_le_round_trip(x: nat, n: nat)
    ensures
        le_bytes(x, n).len() == n,
        le_value(le_bytes(x, n)) == x % pow256(n),
    decreases n,
{
    lemma_le_bytes_len(x, n);
    if n == 0 {
        assert(x % 1 == 0);
    } else {
        let m = (n - 1) as nat;
        law_le_round_trip(x / 256, m);
        assert(le_bytes(x, n).skip(1) =~= le_bytes(x / 256, m));
        lemma_pow256_positive(m);
        let p = pow256(m) as int;
        vstd::arithmetic::div_mod::lemma_mod_breakdown(x as int, 256, p);
        assert(x % pow256(n) == 256 * ((x / 256) % pow256(m)) + x % 256);
    }
}

/// Byte number `i` of a little-endian field is that digit of the number to the
/// base 256.
pub proof fn law_le_digit(x: nat, n: nat, i: nat)
    requires
        i < n,
    ensures
        le_bytes(x, n).len() == n,
        le_bytes(x, n)[i as int] == x / pow256(i) % 256,
    decreases n,
{
    lemma_le_bytes_len(x, n);
    if i == 0 {
        assert(pow256(0) == 1);
        assert(x / 1 == x);
    } else {
        let j = (i - 1) as nat;
        lemma_le_bytes_len(x / 256, (n - 1) as nat);
        assert(le_bytes(x, n)[i as int] == le_bytes(x / 256, (n - 1) as nat)[j as int]);
        assert(pow256(i) == 256 * pow256(j));
        law_le_digit(x / 256, (n - 1) as nat, j);
        lemma_pow256_positive(j);
        vstd::arithmetic::div_mod::lemma_div_denominator(x as int, 256, pow256(j) as int);
    }
}

/// Powers of 256 are positive.
pub proof fn lemma_pow256_positive(n: nat)
    ensures
        pow256(n) > 0,
    decreases n,
{
    if n > 0 {
        lemma_pow256_positive((n - 1) as nat);
    }
}

/// If the first `k` bytes are not `byte` and the next one is, it is the first.
pub proof fn lemma_position_found(s: Seq<u8>, byte: u8, k: int)
    requires
        0 <= k < s.len(),
        s[k] == byte,
        forall|i: int| 0 <= i < k ==> s[i] != byte,
    ensures
        position_of(s, byte) == Some(k),
    decreases k,
{
    if k > 0 {
        assert(forall|i: int| 0 <= i < k - 1 ==> s.skip(1)[i] == s[i + 1]);
        lemma_position_found(s.skip(1), byte, k - 1);
    }
}

/// If no byte is `byte`, there is no position.
pub proof fn lemma_position_absent(s: Seq<u8>, byte: u8)
    requires
        forall|i: int| 0 <= i < s.len() ==> s[i] != byte,
    ensures
        position_of(s, byte) is None,
    decreases s.len(),
{
    if s.len() > 0 {
        lemma_position_absent(s.skip(1), byte);
    }
}

/// What a position means: the byte stands there and nowhere before.
pub proof fn lemma_position_meaning(s: Seq<u8>, byte: u8)
    ensures
        match position_of(s, byte) {
            Some(k) => 0 <= k < s.len() && s[k] == byte && (forall|i: int|
                0 <= i < k ==> s[i] != byte),
            None => forall|i: int| 0 <= i < s.len() ==> s[i] != byte,
        },
    decreases s.len(),
{
    if s.len() > 0 {
        let t = s.skip(1);
        lemma_position_meaning(t, byte);
        assert(forall|i: int| 0 < i < s.len() ==> s[i] == t[i - 1]);
    }
}

/// Appends `more` to `out`.
pub fn append_bytes(out: &mut Vec<u8>, more: &[u8])
    ensures
        final(out)@ == old(out)@ + more@,
{
    out.extend_from_slice(more);
    assert(out@ =~= old(out)@ + more@);
}

/// A fresh vector that holds the bytes of `s`.
pub fn copy_bytes(s: &[u8]) -> (out: Vec<u8>)
    ensures
        out@ == s@,
{
    let mut out: Vec<u8> = Vec::new();
    append_bytes(&mut out, s);
    assert(out@ =~= s@);
    out
}

/// Appends `count` zero bytes to `out`.
pub fn append_zeros(out: &mut Vec<u8>, count: usize)
    ensures
        final(out)@ == old(out)@ + zeros(count as nat),
{
    let mut i: usize = 0;
    while i < count
        invariant
            i <= count,
            out@ =~= old(out)@ + zeros(i as nat),
        decreases count - i,
    {
        out.push(0u8);
        i = i + 1;
        assert(out@ =~= old(out)@ + zeros(i as nat));
    }
}

/// Writes `data` over the bytes of `out` from position `at` on.
pub fn write_over(out: &mut Vec<u8>, at: usize, data: &[u8])
    requires
        at + data@.len() <= old(out).len(),
    ensures
        final(out)@ == overwrite(old(out)@, at as nat, data@),
{
    let mut i: usize = 0;
    while i < data.len()
        invariant
            i <= data@.len(),
            at + data@.len() <= out.len(),
            out@.len() == old(out)@.len(),
            forall|j: int| 0 <= j < i ==> out@[at + j] == data@[j],
            forall|j: int| 0 <= j < out@.len() && !(at <= j < at + i) ==> out@[j] == old(out)@[j],
        decreases data.len() - i,
    {
        out[at + i] = data[i];
        i = i + 1;
    }
    assert forall|j: int| 0 <= j < out@.len() implies out@[j] == overwrite(
        old(out)@,
        at as nat,
        data@,
    )[j] by {
        if at <= j < at + data@.len() {
            assert(out@[at + (j - at)] == data@[j - at]);
        }
    }
    assert(out@ =~= overwrite(old(out)@, at as nat, data@));
}

/// Compares two byte strings.
pub fn bytes_equal(a: &[u8], b: &[u8]) -> (r: bool)
    ensures
        r == (a@ == b@),
{
    if a.len() != b.len() {
        return false;
    }
    let mut i: usize = 0;
    while i < a.len()
        invariant
            i <= a@.len(),
            a@.len() == b@.len(),
            forall|j: int| 0 <= j < i ==> a@[j] == b@[j],
        decreases a.len() - i,
    {
        if a[i] != b[i] {
            return false;
        }
        i = i + 1;
    }
    assert(a@ =~= b@);
    true
}

/// Tests whether `pattern` stands in `s` at position `at`.
pub fn matches_at(s: &[u8], at: usize, pattern: &[u8]) -> (r: bool)
    requires
        at <= s@.len(),
    ensures
        r == occurs_at(s@, at as int, pattern@),
{
    if s.len() - at < pattern.len() {
        return false;
    }
    bytes_equal(vstd::slice::slice_subrange(s, at, at + pattern.len()), pattern)
}

/// Looks for the first `byte` in `s` from position `from` on.
pub fn find_byte(s: &[u8], from: usize, byte: u8) -> (r: Option<usize>)
    requires
        from <= s@.len(),
    ensures
        match r {
            Some(k) => from <= k < s@.len() && position_of(s@.skip(from as int), byte) == Some(
                k - from,
            ),
            None => position_of(s@.skip(from as int), byte) is None,
        },
{
    let mut k: usize = from;
    let ghost tail = s@.skip(from as int);
    while k < s.len()
        invariant
            from <= k <= s@.len(),
            tail == s@.skip(from as int),
            forall|i: int| 0 <= i < k - from ==> tail[i] != byte,
        decreases s.len() - k,
    {
        if s[k] == byte {
            proof {
                lemma_position_found(tail, byte, k - from);
            }
            return Some(k);
        }
        k = k + 1;
    }
    proof {
        lemma_position_absent(tail, byte);
    }
    None
}

} // verus!
