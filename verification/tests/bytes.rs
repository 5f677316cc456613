use luna_nspire::bytes::{
    append_bytes, append_zeros, bytes_equal, copy_bytes, find_byte, matches_at, write_over,
};

#[test]
fn building_up_bytes() {
    let mut out = copy_bytes(b"ab");
    append_bytes(&mut out, b"cd");
    append_zeros(&mut out, 2);
    assert_eq!(out, b"abcd\0\0".to_vec());
    write_over(&mut out, 3, b"XY");
    assert_eq!(out, b"abcXY\0".to_vec());
}

#[test]
fn looking_for_bytes() {
    assert!(bytes_equal(b"", b""));
    assert!(!bytes_equal(b"ab", b"ac"));
    assert!(!bytes_equal(b"ab", b"abc"));
    assert!(matches_at(b"xabc", 1, b"ab"));
    assert!(!matches_at(b"xabc", 3, b"cd"));
    assert!(matches_at(b"x", 1, b""));
    assert_eq!(find_byte(b"a>b>", 2, 0x3e), Some(3));
    assert_eq!(find_byte(b"a>b", 2, 0x3e), None);
}
