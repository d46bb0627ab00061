use rc5_cbc::decrypt;
use rc5_cbc::encrypt;

#[test]
fn enc_dec_single() {
    let key = vec![
        0x00u8, 0x00, 0x00, 0x00, 0x00, 0x00, 0x00, 0x00, 0x00, 0x00, 0x00, 0x00, 0x00, 0x00,
        0x00, 0x00,
    ];
    assert_eq!(key.len(), 16);
    let pt = [0x00000000_u32, 0x00000000];
    let rounds = 12;

    let ct = encrypt(pt, &key, rounds);
    assert_eq!(ct, [0xEEDBA521_u32, 0x6D8F4B15], "encrypt mismatch");

    let back = decrypt(ct, &key, rounds);
    assert_eq!(back, pt, "decrypt mismatch");
}
