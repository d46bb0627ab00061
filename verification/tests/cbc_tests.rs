use rc5_cbc::decrypt_cbc;
use rc5_cbc::encrypt_cbc;
use rc5_cbc::CipherError;

#[test]
fn cbc_round_trip_aligned() {
    let key = vec![0x91u8, 0x5F, 0x46, 0x19, 0xBE, 0x41, 0xB2, 0x51];
    let pt: Vec<u8> = (0u8..32).collect();
    let ct = encrypt_cbc(&pt, &key, 12);
    assert_eq!(ct.len(), 32);
    let back = decrypt_cbc(&ct, &key, 12).unwrap();
    assert_eq!(back, pt);
}

#[test]
fn cbc_round_trip_padded() {
    let key = vec![0x01u8, 0x02, 0x03];
    let pt: Vec<u8> = vec![0xAB, 0xCD, 0xEF];
    let ct = encrypt_cbc(&pt, &key, 12);
    assert_eq!(ct.len(), 8);
    let back = decrypt_cbc(&ct, &key, 12).unwrap();
    let mut expected = pt.clone();
    expected.resize(8, 0u8);
    assert_eq!(back, expected);
}

#[test]
fn cbc_empty_input() {
    let key = vec![0x10u8, 0x20, 0x30, 0x40];
    let enc = encrypt_cbc(&Vec::new(), &key, 12);
    assert!(enc.is_empty());
    let dec = decrypt_cbc(&Vec::new(), &key, 12).unwrap();
    assert!(dec.is_empty());
}

#[test]
fn cbc_malformed_length() {
    let key = vec![0x10u8, 0x20, 0x30, 0x40];
    for n in [1usize, 3, 7, 9, 15] {
        let ct = vec![0u8; n];
        assert_eq!(decrypt_cbc(&ct, &key, 12), Err(CipherError::MalformedLength));
    }
}

#[test]
fn cbc_known_first_block() {
    // One zero block under the all-zero 16-byte key is the first Rivest
    // vector: the chaining value of the first block is the zero block.
    let key = vec![0u8; 16];
    let pt = vec![0u8; 8];
    let ct = encrypt_cbc(&pt, &key, 12);
    assert_eq!(ct, vec![0xEE, 0xDB, 0xA5, 0x21, 0x6D, 0x8F, 0x4B, 0x15]);
}

#[test]
fn cbc_chains_blocks() {
    // Two equal plaintext blocks give different ciphertext blocks: the
    // second is XORed with the first block's ciphertext before encryption.
    let key = vec![0x42u8; 16];
    let pt = vec![0x11u8; 16];
    let ct = encrypt_cbc(&pt, &key, 12);
    assert_eq!(ct.len(), 16);
    assert_ne!(&ct[0..8], &ct[8..16]);
    let back = decrypt_cbc(&ct, &key, 12).unwrap();
    assert_eq!(back, pt);
}
