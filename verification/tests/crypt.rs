use luna_nspire::des::{des_ecb3_encrypt, des_set_key, DesKeySchedule};
use luna_nspire::doccrypt::doccrypt;

fn schedule(key: u64) -> DesKeySchedule {
    let mut ks = DesKeySchedule { subkeys: [0; 16] };
    des_set_key(&key.to_be_bytes(), &mut ks);
    ks
}

fn triple(x: u64, keys: [u64; 3], encrypt: bool) -> u64 {
    let mut out = [0u8; 8];
    let [k1, k2, k3] = keys;
    des_ecb3_encrypt(
        &x.to_be_bytes(),
        &mut out,
        &schedule(k1),
        &schedule(k2),
        &schedule(k3),
        encrypt,
    );
    u64::from_be_bytes(out)
}

#[test]
fn subkeys_of_a_key() {
    let ks = schedule(0x1334_5779_9bbc_dff1);
    assert_eq!(ks.subkeys[0], 0x1b02_effc_7072);
    assert_eq!(ks.subkeys[15], 0xcb3d_8b0e_17f5);
}

#[test]
fn one_key_is_single_des() {
    let k = 0x1334_5779_9bbc_dff1;
    assert_eq!(triple(0x0123_4567_89ab_cdef, [k, k, k], true), 0x85e8_1354_0f0a_b405);
    let k = 0x0e32_9232_ea6d_0d73;
    assert_eq!(triple(0x8787_8787_8787_8787, [k, k, k], true), 0);
}

#[test]
fn three_keys() {
    let keys = [0x0123_4567_89ab_cdef, 0x2345_6789_abcd_ef01, 0x4567_89ab_cdef_0123];
    let x = u64::from_be_bytes(*b"The qufc");
    assert_eq!(triple(x, keys, true), 0xa826_fd8c_e53b_855f);
}

#[test]
fn decrypting_undoes_encrypting() {
    let keys = [0x0123_4567_89ab_cdef, 0xfedc_ba98_7654_3210, 0x1111_2222_3333_4444];
    for x in [0, 1, u64::MAX, 0x0123_4567_89ab_cdef] {
        assert_eq!(triple(triple(x, keys, true), keys, false), x);
        assert_eq!(triple(triple(x, keys, false), keys, true), x);
    }
}

#[test]
fn bytes_that_a_document_is_combined_with() {
    let mut data = [0u8; 20];
    doccrypt(&mut data);
    assert_eq!(
        data,
        [
            0x5c, 0x8a, 0x87, 0x13, 0xeb, 0x07, 0xf0, 0x5d, 0x74, 0x53, 0x29, 0xc3, 0xee, 0x6a,
            0x18, 0x72, 0x93, 0xe8, 0x14, 0xeb
        ]
    );
}

#[test]
fn encrypted_text() {
    let mut data = *b"Hello, document!";
    doccrypt(&mut data);
    assert_eq!(
        data,
        [
            0x14, 0xef, 0xeb, 0x7f, 0x84, 0x2b, 0xd0, 0x39, 0x1b, 0x30, 0x5c, 0xae, 0x8b, 0x04,
            0x6c, 0x53
        ]
    );
    doccrypt(&mut data);
    assert_eq!(&data, b"Hello, document!");
}

#[test]
fn the_counter_starts_over() {
    let mut data = vec![0u8; 8200];
    doccrypt(&mut data);
    assert_eq!(&data[8184..8192], &[0xe3, 0xea, 0xb9, 0x90, 0xc7, 0x4d, 0x77, 0x7b]);
    assert_eq!(&data[8192..8200], &[0x5c, 0x8a, 0x87, 0x13, 0xeb, 0x07, 0xf0, 0x5d]);
}

#[test]
fn the_start_does_not_depend_on_the_rest() {
    let mut short = *b"abc";
    let mut long = *b"abcdefghijkl";
    doccrypt(&mut short);
    doccrypt(&mut long);
    assert_eq!(short, long[..3]);
    let mut none: [u8; 0] = [];
    doccrypt(&mut none);
}
