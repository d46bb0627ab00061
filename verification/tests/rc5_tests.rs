use rc5_cbc::decrypt;
use rc5_cbc::encrypt;
use rc5_cbc::expand_key;
use rc5_cbc::rotl;
use rc5_cbc::rotr;

#[test]
fn test_left_right_shift() {
    let a = 0x77u8; // 0111 0111

    assert_eq!(rotl(a, 1u8), 0xeeu8); // 1110 1110 = 0xee
    assert_eq!(rotl(a, 2u8), 0xddu8); // 1101 1101 = 0xdd
    assert_eq!(rotl(a, 7u8), 0xbbu8); // 1011 1011 = 0xbb
    assert_eq!(rotl(a, 8u8), a);
    assert_eq!(rotl(a, 8u8 + 1u8), 0xeeu8);
    assert_eq!(rotl(a, 8u8 + 2u8), 0xddu8);
    assert_eq!(rotl(a, 8u8 + 7u8), 0xbbu8);
    assert_eq!(rotl(a, 2 * 8u8), a);
    assert_eq!(rotl(a, 5 * 8u8), a);

    assert_eq!(rotr(a, 1u8), 0xbbu8); // 1011 1011 = 0xbb
    assert_eq!(rotr(a, 2u8), 0xddu8); // 1101 1101 = 0xdd
    assert_eq!(rotr(a, 7u8), 0xeeu8); // 1110 1110 = 0xee
    assert_eq!(rotr(a, 8u8), a);
    assert_eq!(rotr(a, 8u8 + 1u8), 0xbbu8);
    assert_eq!(rotr(a, 8u8 + 2u8), 0xddu8);
    assert_eq!(rotr(a, 8u8 + 7u8), 0xeeu8);
    assert_eq!(rotr(a, 2 * 8u8), a);
    assert_eq!(rotr(a, 5 * 8u8), a);
}

#[test]
fn test_rivest_1() {
    let key = vec![
        0x00u8, 0x00, 0x00, 0x00, 0x00, 0x00, 0x00, 0x00, 0x00, 0x00, 0x00, 0x00, 0x00, 0x00,
        0x00, 0x00,
    ];
    let pt = [0x00000000_u32, 0x00000000];
    let rounds = 12;

    let ct = encrypt(pt, &key, rounds);
    assert_eq!(ct, [0xEEDBA521_u32, 0x6D8F4B15]);

    let pt = decrypt(ct, &key, rounds);
    assert_eq!(pt, [0x00000000_u32, 0x00000000]);
}

#[test]
fn test_rivest_2() {
    let key = vec![
        0x91, 0x5F, 0x46, 0x19, 0xBE, 0x41, 0xB2, 0x51, 0x63, 0x55, 0xA5, 0x01, 0x10, 0xA9, 0xCE,
        0x91,
    ];
    let pt = [0xEEDBA521_u32, 0x6D8F4B15];
    let rounds = 12;

    let ct = encrypt(pt, &key, rounds);
    assert_eq!(ct, [0xAC13C0F7_u32, 0x52892B5B]);

    let pt = decrypt(ct, &key, rounds);
    assert_eq!(pt, [0xEEDBA521_u32, 0x6D8F4B15]);
}

#[test]
fn test_rivest_3() {
    let key = vec![
        0x78, 0x33, 0x48, 0xE7, 0x5A, 0xEB, 0x0F, 0x2F, 0xD7, 0xB1, 0x69, 0xBB, 0x8D, 0xC1, 0x67,
        0x87,
    ];
    let pt = [0xAC13C0F7_u32, 0x52892B5B];
    let rounds = 12;

    let ct = encrypt(pt, &key, rounds);
    assert_eq!(ct, [0xB7B3422F_u32, 0x92FC6903]);

    let pt = decrypt(ct, &key, rounds);
    assert_eq!(pt, [0xAC13C0F7_u32, 0x52892B5B]);
}

#[test]
fn test_rivest_4() {
    let key = vec![
        0xDC, 0x49, 0xDB, 0x13, 0x75, 0xA5, 0x58, 0x4F, 0x64, 0x85, 0xB4, 0x13, 0xB5, 0xF1, 0x2B,
        0xAF,
    ];
    let pt = [0xB7B3422F_u32, 0x92FC6903];
    let rounds = 12;

    let ct = encrypt(pt, &key, rounds);
    assert_eq!(ct, [0xB278C165_u32, 0xCC97D184]);

    let pt = decrypt(ct, &key, rounds);
    assert_eq!(pt, [0xB7B3422F_u32, 0x92FC6903]);
}

#[test]
fn test_rivest_5() {
    let key = vec![
        0x52, 0x69, 0xF1, 0x49, 0xD4, 0x1B, 0xA0, 0x15, 0x24, 0x97, 0x57, 0x4D, 0x7F, 0x15, 0x31,
        0x25,
    ];
    let pt = [0xB278C165_u32, 0xCC97D184];
    let rounds = 12;

    let ct = encrypt(pt, &key, rounds);
    assert_eq!(ct, [0x15E444EB_u32, 0x249831DA]);

    let pt = decrypt(ct, &key, rounds);
    assert_eq!(pt, [0xB278C165_u32, 0xCC97D184]);
}

#[test]
fn rotation_identity_u32() {
    let x = 0xDEADBEEFu32;
    assert_eq!(rotl(x, 0u32), x);
    assert_eq!(rotl(x, 32u32), x);
    assert_eq!(rotl(x, 3 * 32u32), x);
    assert_eq!(rotr(x, 0u32), x);
    assert_eq!(rotr(x, 32u32), x);
    assert_eq!(rotr(x, 3 * 32u32), x);
}

#[test]
fn key_schedule_deterministic() {
    let key = vec![0x91u8, 0x5F, 0x46, 0x19, 0xBE, 0x41, 0xB2, 0x51];
    let s1: Vec<u32> = expand_key(&key, 12);
    let s2: Vec<u32> = expand_key(&key, 12);
    assert_eq!(s1, s2);
    assert_eq!(s1.len(), 2 * (12 + 1));
}

#[test]
fn key_schedule_empty_key() {
    let key: Vec<u8> = Vec::new();
    let s: Vec<u32> = expand_key(&key, 12);
    assert_eq!(s.len(), 26);
    let s2: Vec<u32> = expand_key(&key, 12);
    assert_eq!(s, s2);
}

#[test]
fn block_round_trip_various_rounds() {
    let key = vec![0x01u8, 0x02, 0x03, 0x04, 0x05];
    let pt = [0x01234567u32, 0x89ABCDEF];
    for rounds in 1..=16usize {
        let ct = encrypt(pt, &key, rounds);
        assert_eq!(decrypt(ct, &key, rounds), pt);
    }
}
