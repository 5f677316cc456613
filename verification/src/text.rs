//! Paths, file name extensions and letter case.

use vstd::prelude::*;
use vstd::string::*;
use vstd::utf8::*;

use crate::bytes::bytes_equal;

verus! {

/// The lowercase equivalent of a text with characters outside ASCII, as
/// Unicode defines it.
pub uninterp spec fn unicode_lowercase(s: Seq<char>) -> Seq<char>;

/// The lowercase equivalent of an ASCII character.
pub open spec fn ascii_lowercase(c: char) -> char {
    if 'A' <= c <= 'Z' {
        ((c as u32) + 32) as char
    } else {
        c
    }
}

/// The lowercase equivalent of a text.
pub open spec fn lowercase(s: Seq<char>) -> Seq<char> {
    if is_ascii_chars(s) {
        s.map_values(|c: char| ascii_lowercase(c))
    } else {
        unicode_lowercase(s)
    }
}

/// `str::to_lowercase` of the standard library gives the lowercase equivalent
/// that Unicode defines. Of ASCII text, that is the text with `A` to `Z`
/// replaced by `a` to `z`; of other text, nothing but that it depends on the
/// text alone is claimed.
pub assume_specification[ str::to_lowercase ](s: &str) -> (res: String)
    ensures
        is_ascii_chars(s@) ==> res@ == s@.map_values(|c: char| ascii_lowercase(c)),
        !is_ascii_chars(s@) ==> res@ == unicode_lowercase(s@),
;

/// What follows the last `/` of `path`.
pub open spec fn basename(path: Seq<char>) -> Seq<char>
    decreases path.len(),
{
    if path.len() == 0 || path.last() == '/' {
        Seq::empty()
    } else {
        basename(path.drop_last()).push(path.last())
    }
}

/// Whether the last `n` bytes of `s` start with a character, if `s` is longer
/// than that.
pub open spec fn splits_before_last(s: Seq<char>, n: nat) -> bool {
    let b = encode_utf8(s);
    b.len() > n ==> is_char_boundary(b, b.len() - n)
}

/// The characters that the last `n` bytes of `s` encode.
pub open spec fn last_bytes(s: Seq<char>, n: nat) -> Seq<char> {
    let b = encode_utf8(s);
    decode_utf8(b.subrange(b.len() - n, b.len() as int))
}

/// Whether `path` is more than `ext` and ends with it, in any letter case.
pub open spec fn has_extension(path: Seq<char>, ext: Seq<char>) -> bool {
    let n = encode_utf8(ext).len();
    encode_utf8(path).len() > n && lowercase(last_bytes(path, n)) == lowercase(ext)
}

/// Whether the lowercase equivalent of `s` ends with `suffix`.
pub open spec fn ends_with_lowercase(s: Seq<char>, suffix: Seq<char>) -> bool {
    let b = encode_utf8(lowercase(s));
    let t = encode_utf8(suffix);
    b.len() >= t.len() && b.subrange(b.len() - t.len(), b.len() as int) == t
}

/// Whether `s` ends with the ASCII text `suffix`, in any letter case.
pub open spec fn ends_with_ascii(s: Seq<char>, suffix: Seq<char>) -> bool {
    s.len() >= suffix.len() && forall|i: int|
        0 <= i < suffix.len() ==> ascii_lowercase(#[trigger] s[s.len() - suffix.len() + i])
            == suffix[i]
}

/// Whether `path` names a bitmap.
pub open spec fn is_bitmap(path: Seq<char>) -> bool {
    ends_with_ascii(path, ".bmp"@)
}

/// Texts with the same encoding are the same.
pub proof fn lemma_encode_injective(a: Seq<char>, b: Seq<char>)
    requires
        encode_utf8(a) == encode_utf8(b),
    ensures
        a == b,
{
    encode_utf8_decode_utf8(a);
    encode_utf8_decode_utf8(b);
}

/// Texts are encoded piece by piece.
pub proof fn lemma_encode_concat(a: Seq<char>, b: Seq<char>)
    ensures
        encode_utf8(a + b) == encode_utf8(a) + encode_utf8(b),
    decreases a.len(),
{
    if a.len() == 0 {
        assert(a + b =~= b);
        assert(encode_utf8(a) + encode_utf8(b) =~= encode_utf8(b));
    } else {
        lemma_encode_concat(a.drop_first(), b);
        assert((a + b).drop_first() =~= a.drop_first() + b);
        assert((a + b)[0] == a[0]);
        assert(encode_utf8(a + b) =~= encode_utf8(a) + encode_utf8(b));
    }
}

/// A path is a directory part and its basename; the directory part is empty
/// or ends with `/`, and the basename holds none.
pub proof fn law_basename_splits(path: Seq<char>)
    ensures
        basename(path).len() <= path.len(),
        path == path.take(path.len() - basename(path).len()) + basename(path),
        !basename(path).contains('/'),
        basename(path).len() < path.len() ==> path[path.len() - basename(path).len() - 1] == '/',
    decreases path.len(),
{
    if path.len() == 0 || path.last() == '/' {
        assert(path =~= path.take(path.len() as int) + Seq::empty());
    } else {
        let front = path.drop_last();
        law_basename_splits(front);
        let name = basename(front);
        let dir = path.take(path.len() - name.len() - 1);
        assert(front.take(front.len() - name.len()) =~= dir);
        assert(path =~= (dir + name).push(path.last()));
        assert((dir + name).push(path.last()) =~= dir + name.push(path.last()));
        assert forall|i: int| 0 <= i < name.len() + 1 implies name.push(path.last())[i] != '/' by {
            if i < name.len() {
                assert(name.contains(name[i]));
            }
        }
    }
}

/// A directory part in front of a path does not change its basename.
pub proof fn law_basename_of_joined(dir: Seq<char>, name: Seq<char>)
    requires
        !name.contains('/'),
        dir.len() == 0 || dir.last() == '/',
    ensures
        basename(dir + name) == name,
    decreases name.len(),
{
    if name.len() == 0 {
        assert(dir + name =~= dir);
    } else {
        let front = name.drop_last();
        assert forall|i: int| 0 <= i < front.len() implies front[i] != '/' by {
            assert(name.contains(name[i]));
        }
        assert(name.contains(name.last()));
        law_basename_of_joined(dir, front);
        assert((dir + name).drop_last() =~= dir + front);
        assert(name =~= front.push(name.last()));
    }
}

/// A path has every extension that its basename has.
pub proof fn law_basename_extension(path: Seq<char>, ext: Seq<char>)
    requires
        has_extension(basename(path), ext),
    ensures
        has_extension(path, ext),
{
    let name = basename(path);
    law_basename_splits(path);
    let dir = path.take(path.len() - name.len());
    lemma_encode_concat(dir, name);
    let b = encode_utf8(path);
    let t = encode_utf8(name);
    let n = encode_utf8(ext).len();
    assert(b.subrange(b.len() - n, b.len() as int) =~= t.subrange(t.len() - n, t.len() as int));
}

/// Where the last bytes of a path are whole characters, those of its basename
/// are too.
pub proof fn lemma_basename_splits_before_last(path: Seq<char>, n: nat)
    requires
        splits_before_last(path, n),
        n > 0,
    ensures
        splits_before_last(basename(path), n),
{
    let name = basename(path);
    law_basename_splits(path);
    let dir = path.take(path.len() - name.len());
    lemma_encode_concat(dir, name);
    let b = encode_utf8(path);
    let t = encode_utf8(name);
    if t.len() > n {
        encode_utf8_valid_utf8(path);
        encode_utf8_valid_utf8(name);
        is_char_boundary_iff_not_is_continuation_byte(b, b.len() - n);
        is_char_boundary_iff_not_is_continuation_byte(t, t.len() - n);
        assert(b[b.len() - n] == t[t.len() - n]);
    }
}

/// In an ASCII text every byte is a character.
pub proof fn lemma_ascii_splits(s: Seq<char>, n: nat)
    requires
        is_ascii_chars(s),
    ensures
        splits_before_last(s, n),
{
    let b = encode_utf8(s);
    if b.len() > n {
        encode_utf8_valid_utf8(s);
        is_ascii_chars_encode_utf8(s);
        if n == 0 {
            is_char_boundary_start_end_of_seq(b);
        } else {
            is_char_boundary_iff_not_is_continuation_byte(b, b.len() - n);
            assert(s[b.len() - n] as u8 == b[b.len() - n]);
        }
    }
}

/// The last bytes of a text are its last characters, where those are as many
/// bytes.
pub proof fn lemma_last_bytes(front: Seq<char>, tail: Seq<char>)
    ensures
        last_bytes(front + tail, encode_utf8(tail).len()) == tail,
{
    lemma_encode_concat(front, tail);
    let b = encode_utf8(front + tail);
    let n = encode_utf8(tail).len();
    assert(b.subrange(b.len() - n, b.len() as int) =~= encode_utf8(tail));
    encode_utf8_decode_utf8(tail);
}

/// For ASCII texts, having an extension means to be longer and to end with the
/// same letters in any case.
pub proof fn law_ascii_extension(path: Seq<char>, ext: Seq<char>)
    requires
        is_ascii_chars(path),
        is_ascii_chars(ext),
    ensures
        has_extension(path, ext) <==> path.len() > ext.len() && forall|i: int|
            0 <= i < ext.len() ==> ascii_lowercase(#[trigger] path[path.len() - ext.len() + i])
                == ascii_lowercase(ext[i]),
{
    is_ascii_chars_encode_utf8(path);
    is_ascii_chars_encode_utf8(ext);
    if path.len() > ext.len() {
        let k = path.len() - ext.len();
        let front = path.take(k);
        let tail = path.skip(k);
        assert(path =~= front + tail);
        is_ascii_chars_concat(path, front, tail);
        is_ascii_chars_encode_utf8(tail);
        lemma_last_bytes(front, tail);
        let a = lowercase(tail);
        let b = lowercase(ext);
        if a == b {
            assert forall|i: int| 0 <= i < ext.len() implies ascii_lowercase(
                #[trigger] path[path.len() - ext.len() + i],
            ) == ascii_lowercase(ext[i]) by {
                assert(a[i] == b[i]);
            }
        }
        if forall|i: int|
            0 <= i < ext.len() ==> ascii_lowercase(#[trigger] path[path.len() - ext.len() + i])
                == ascii_lowercase(ext[i]) {
            assert forall|i: int| 0 <= i < ext.len() implies a[i] == b[i] by {
                assert(tail[i] == path[path.len() - ext.len() + i]);
            }
            assert(a =~= b);
        }
    }
}

/// An ASCII text has an ASCII lowercase equivalent of the same length.
pub proof fn lemma_ascii_lowercase(s: Seq<char>)
    requires
        is_ascii_chars(s),
    ensures
        is_ascii_chars(lowercase(s)),
        lowercase(s).len() == s.len(),
        forall|i: int| 0 <= i < s.len() ==> #[trigger] lowercase(s)[i] == ascii_lowercase(s[i]),
{
    assert forall|i: int| 0 <= i < s.len() implies '\0' <= #[trigger] lowercase(s)[i]
        <= '\u{7f}' by {
        assert('\0' <= s[i] <= '\u{7f}');
    }
}

/// For ASCII texts, the lowercase equivalent ends with a suffix if the letters
/// at the end do, in any case.
pub proof fn law_ascii_ends_with(s: Seq<char>, suffix: Seq<char>)
    requires
        is_ascii_chars(s),
        is_ascii_chars(suffix),
    ensures
        ends_with_lowercase(s, suffix) <==> s.len() >= suffix.len() && forall|i: int|
            0 <= i < suffix.len() ==> ascii_lowercase(#[trigger] s[s.len() - suffix.len() + i])
                == suffix[i],
{
    let l = lowercase(s);
    lemma_ascii_lowercase(s);
    is_ascii_chars_encode_utf8(l);
    is_ascii_chars_encode_utf8(suffix);
    let b = encode_utf8(l);
    let t = encode_utf8(suffix);
    if s.len() >= suffix.len() {
        let k = s.len() - suffix.len();
        let tail = b.subrange(k as int, b.len() as int);
        assert forall|i: int| 0 <= i < suffix.len() implies (tail[i] == t[i]) == (ascii_lowercase(
            #[trigger] s[k + i],
        ) == suffix[i]) by {
            assert(l[k + i] as u8 == b[k + i]);
            assert(suffix[i] as u8 == t[i]);
            assert(l[k + i] == ascii_lowercase(s[k + i]));
            assert('\0' <= l[k + i] <= '\u{7f}');
            assert('\0' <= suffix[i] <= '\u{7f}');
        }
        if forall|i: int| 0 <= i < suffix.len() ==> ascii_lowercase(#[trigger] s[k + i])
            == suffix[i] {
            assert forall|i: int| 0 <= i < suffix.len() implies tail[i] == t[i] by {
                assert(ascii_lowercase(s[k + i]) == suffix[i]);
            }
            assert(tail =~= t);
        }
        if tail == t {
            assert forall|i: int| 0 <= i < suffix.len() implies ascii_lowercase(
                #[trigger] s[s.len() - suffix.len() + i],
            ) == suffix[i] by {
                assert(tail[i] == t[i]);
                assert(ascii_lowercase(s[k + i]) == suffix[i]);
            }
        }
    }
}

/// Compares two texts.
pub fn str_equal(a: &str, b: &str) -> (r: bool)
    ensures
        r == (a@ == b@),
{
    let r = bytes_equal(a.as_bytes(), b.as_bytes());
    proof {
        if r {
            lemma_encode_injective(a@, b@);
        }
    }
    r
}

/// The file name at the end of `path`.
pub fn gnu_basename(path: &str) -> (r: &str)
    ensures
        r@ == basename(path@),
{
    let len = path.unicode_len();
    let mut k: usize = len;
    let ghost p = path@;
    assert(p.take(k as int) =~= p);
    assert(basename(p.take(k as int)) + p.skip(k as int) =~= basename(p));
    while k > 0 && path.get_char(k - 1) != '/'
        invariant
            p == path@,
            len == p.len(),
            k <= len,
            basename(p) == basename(p.take(k as int)) + p.skip(k as int),
        decreases k,
    {
        proof {
            let front = p.take(k as int);
            assert(front.drop_last() =~= p.take(k - 1));
            assert(p.skip(k - 1) =~= seq![p[k - 1]] + p.skip(k as int));
            assert(basename(front) + p.skip(k as int) =~= basename(p.take(k - 1)) + p.skip(k - 1));
        }
        k = k - 1;
    }
    assert(basename(p.take(k as int)) =~= Seq::empty());
    assert(basename(p) =~= p.skip(k as int));
    let r = path.substring_char(k, len);
    assert(r@ =~= p.skip(k as int));
    r
}

/// Tests for a file name extension, in any letter case.
pub fn has_ext(filepath: &str, ext: &str) -> (r: bool)
    requires
        splits_before_last(filepath@, encode_utf8(ext@).len()),
    ensures
        r == has_extension(filepath@, ext@),
{
    let len = filepath.as_bytes().len();
    let ext_len = ext.as_bytes().len();
    if len <= ext_len {
        return false;
    }
    let (_, tail) = filepath.split_at(len - ext_len);
    proof {
        encode_utf8_decode_utf8(tail@);
    }
    tail.to_lowercase() == ext.to_lowercase()
}

/// Tests whether the lowercase equivalent of `s` ends with `suffix`.
pub fn lowercase_ends_with(s: &str, suffix: &str) -> (r: bool)
    ensures
        r == ends_with_lowercase(s@, suffix@),
{
    let lower = s.to_lowercase();
    let b = lower.as_str().as_bytes();
    let t = suffix.as_bytes();
    if b.len() < t.len() {
        return false;
    }
    bytes_equal(vstd::slice::slice_subrange(b, b.len() - t.len(), b.len()), t)
}

/// Tests whether a path names a bitmap.
pub fn names_bitmap(path: &str) -> (r: bool)
    ensures
        r == is_bitmap(path@),
{
    proof {
        reveal_strlit(".bmp");
    }
    let n = path.unicode_len();
    if n < 4 {
        return false;
    }
    let dot = path.get_char(n - 4);
    let b = path.get_char(n - 3);
    let m = path.get_char(n - 2);
    let p = path.get_char(n - 1);
    let r = dot == '.' && (b == 'b' || b == 'B') && (m == 'm' || m == 'M') && (p == 'p' || p
        == 'P');
    proof {
        let s = path@;
        assert(".bmp"@ =~= seq!['.', 'b', 'm', 'p']);
        if r {
            assert forall|i: int| 0 <= i < 4 implies ascii_lowercase(#[trigger] s[s.len() - 4 + i])
                == ".bmp"@[i] by {}
        } else if is_bitmap(s) {
            assert(ascii_lowercase(s[s.len() - 4 + 0]) == '.');
            assert(ascii_lowercase(s[s.len() - 4 + 1]) == 'b');
            assert(ascii_lowercase(s[s.len() - 4 + 2]) == 'm');
            assert(ascii_lowercase(s[s.len() - 4 + 3]) == 'p');
        }
    }
    r
}

/// A path that ends with the letters of one extension does not have another
/// one of the same length.
pub proof fn lemma_other_extension(path: Seq<char>, suffix: Seq<char>, ext: Seq<char>)
    requires
        is_ascii_chars(suffix),
        is_ascii_chars(ext),
        ext.len() == suffix.len(),
        lowercase(suffix) == suffix,
        lowercase(ext) != suffix,
        ends_with_ascii(path, suffix),
    ensures
        !has_extension(path, ext),
{
    let k = path.len() - suffix.len();
    let front = path.take(k);
    let tail = path.skip(k);
    assert(path =~= front + tail);
    assert forall|i: int| 0 <= i < tail.len() implies '\0' <= #[trigger] tail[i] <= '\u{7f}' by {
        assert(ascii_lowercase(path[path.len() - suffix.len() + i]) == suffix[i]);
        assert('\0' <= suffix[i] <= '\u{7f}');
    }
    lemma_ascii_lowercase(tail);
    assert forall|i: int| 0 <= i < tail.len() implies lowercase(tail)[i] == suffix[i] by {
        assert(tail[i] == path[path.len() - suffix.len() + i]);
    }
    assert(lowercase(tail) =~= suffix);
    is_ascii_chars_encode_utf8(tail);
    is_ascii_chars_encode_utf8(ext);
    lemma_last_bytes(front, tail);
}

/// Whether the last four characters of `path`, or all if there are fewer, are
/// ASCII.
pub open spec fn has_ascii_tail(path: Seq<char>) -> bool {
    forall|i: int|
        0 <= i < path.len() && path.len() - 4 <= i ==> '\0' <= #[trigger] path[i] <= '\u{7f}'
}

/// Whether the last four characters of `path` are a dot and the letters `a`,
/// `b` and `c`, in any case.
pub open spec fn ends_in_letters(path: Seq<char>, a: char, b: char, c: char) -> bool {
    let n = path.len() as int;
    &&& n >= 4
    &&& path[n - 4] == '.'
    &&& ascii_lowercase(path[n - 3]) == a
    &&& ascii_lowercase(path[n - 2]) == b
    &&& ascii_lowercase(path[n - 1]) == c
}

/// An encoded text has at least one byte for each character.
proof fn lemma_encoded_len(s: Seq<char>)
    ensures
        encode_utf8(s).len() >= s.len(),
    decreases s.len(),
{
    if s.len() > 0 {
        lemma_encoded_len(s.drop_first());
        encode_utf8_first_scalar(s);
    }
}

/// Whether a path has an extension of a dot and three letters shows in its last
/// four characters: it ends with them, in any case, and is longer than that.
/// What stands before them, such as a directory, does not matter.
pub proof fn law_extension_letters(path: Seq<char>, ext: Seq<char>, a: char, b: char, c: char)
    requires
        has_ascii_tail(path),
        ext == seq!['.', a, b, c],
        'a' <= a <= 'z',
        'a' <= b <= 'z',
        'a' <= c <= 'z',
    ensures
        has_extension(path, ext) <==> path.len() > 4 && ends_in_letters(path, a, b, c),
{
    assert(is_ascii_chars(ext));
    is_ascii_chars_encode_utf8(ext);
    if path.len() <= 4 {
        assert(is_ascii_chars(path));
        is_ascii_chars_encode_utf8(path);
    } else {
        let k = path.len() - 4;
        let front = path.take(k);
        let tail = path.skip(k);
        assert(path =~= front + tail);
        assert(is_ascii_chars(tail));
        is_ascii_chars_encode_utf8(tail);
        lemma_encoded_len(path);
        lemma_last_bytes(front, tail);
        lemma_ascii_lowercase(tail);
        lemma_ascii_lowercase(ext);
        let x = lowercase(tail);
        let y = lowercase(ext);
        assert(y =~= ext);
        assert(x[0] == ascii_lowercase(path[k]) && x[1] == ascii_lowercase(path[k + 1]) && x[2]
            == ascii_lowercase(path[k + 2]) && x[3] == ascii_lowercase(path[k + 3]));
        if ends_in_letters(path, a, b, c) {
            assert(x =~= ext);
        }
        if x == y {
            assert(x[0] == '.' && x[1] == a && x[2] == b && x[3] == c);
        }
    }
}

/// A bitmap is named by the last four characters of its path, in any case.
pub proof fn law_bitmap_letters(path: Seq<char>)
    ensures
        is_bitmap(path) <==> ends_in_letters(path, 'b', 'm', 'p'),
{
    reveal_strlit(".bmp");
    let n = path.len() as int;
    if is_bitmap(path) {
        assert(ascii_lowercase(path[n - 4 + 0]) == '.');
        assert(ascii_lowercase(path[n - 4 + 1]) == 'b');
        assert(ascii_lowercase(path[n - 4 + 2]) == 'm');
        assert(ascii_lowercase(path[n - 4 + 3]) == 'p');
    }
}

/// The lowercase equivalent of an ASCII text ends with a dot and three letters
/// if the text does, in any case.
pub proof fn law_lowercase_letters(s: Seq<char>, suffix: Seq<char>, a: char, b: char, c: char)
    requires
        is_ascii_chars(s),
        suffix == seq!['.', a, b, c],
        'a' <= a <= 'z',
        'a' <= b <= 'z',
        'a' <= c <= 'z',
    ensures
        ends_with_lowercase(s, suffix) <==> ends_in_letters(s, a, b, c),
{
    assert(is_ascii_chars(suffix));
    law_ascii_ends_with(s, suffix);
    let n = s.len() as int;
    if ends_with_lowercase(s, suffix) {
        assert(ascii_lowercase(s[n - suffix.len() + 0]) == suffix[0]);
        assert(ascii_lowercase(s[n - suffix.len() + 1]) == suffix[1]);
        assert(ascii_lowercase(s[n - suffix.len() + 2]) == suffix[2]);
        assert(ascii_lowercase(s[n - suffix.len() + 3]) == suffix[3]);
    }
}

/// Letters keep their place in the alphabet, and nothing else changes.
pub proof fn law_ascii_case(c: char)
    ensures
        'A' <= c <= 'Z' ==> 'a' <= ascii_lowercase(c) <= 'z' && ascii_lowercase(c) as u32 - 'a' as u32
            == c as u32 - 'A' as u32,
        !('A' <= c <= 'Z') ==> ascii_lowercase(c) == c,
{
}

/// A path ends with the letters that its basename ends with.
pub proof fn law_basename_letters(path: Seq<char>, a: char, b: char, c: char)
    requires
        ends_in_letters(basename(path), a, b, c),
    ensures
        ends_in_letters(path, a, b, c),
{
    let name = basename(path);
    law_basename_splits(path);
    let dir = path.take(path.len() - name.len());
    assert(path == dir + name);
    assert(path[path.len() - 4] == name[name.len() - 4]);
    assert(path[path.len() - 3] == name[name.len() - 3]);
    assert(path[path.len() - 2] == name[name.len() - 2]);
    assert(path[path.len() - 1] == name[name.len() - 1]);
}

/// Whatever the text, its lowercase equivalent ends with a suffix if and only if
/// the bytes of the suffix are the last of it.
pub proof fn law_ends_with_bytes(s: Seq<char>, suffix: Seq<char>)
    ensures
        ends_with_lowercase(s, suffix) <==> encode_utf8(suffix).is_suffix_of(
            encode_utf8(lowercase(s)),
        ),
{
    let b = encode_utf8(lowercase(s));
    let t = encode_utf8(suffix);
    if b.len() >= t.len() {
        assert(b.subrange(b.len() - t.len(), b.len() as int) =~= b.skip(b.len() - t.len()));
    }
}

} // verus!
