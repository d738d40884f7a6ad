use pak::crypt::{
    decrypt_data, decrypt_desc, decrypt_header, decrypt_header_inplace, encrypt_data,
    encrypt_header_inplace, encrypt_zero, reencrypt_data, Pad,
};
use pak::speck128::{decrypt, encrypt};
use pak::{Descriptor, Header, InfoHeader, Section};

#[test]
fn test_roundtrip() {
    let key = [0x0f0e0d0c0b0a0908, 0x0706050403020100];
    let plaintext = [0x6c61766975716520, 0x7469206564616d20];
    let ciphertext = encrypt(plaintext, &key);
    assert_eq!(plaintext, decrypt(ciphertext, &key));
}

#[test]
fn test_known_answer() {
    // The published Speck-128/128 test vector, in this engine's word order:
    // the first block word is the high plaintext word, the first key word is
    // the first round's subkey.
    let key = [0x0706050403020100, 0x0f0e0d0c0b0a0908];
    let plaintext = [0x6c61766975716520, 0x7469206564616d20];
    let ciphertext = encrypt(plaintext, &key);
    assert_eq!(ciphertext, [0xa65d985179783265, 0x7860fedf5c570d18]);
    assert_eq!(plaintext, decrypt(ciphertext, &key));
}

#[test]
fn test_roundtrip_spec_order() {
    let key = [0x0706050403020100, 0x0f0e0d0c0b0a0908];
    let plaintext = [0x7469206564616d20, 0x6c61766975716520];
    let ciphertext = encrypt(plaintext, &key);
    assert_ne!(plaintext, ciphertext);
    assert_eq!(plaintext, decrypt(ciphertext, &key));
}

#[test]
fn test_crypt_header_roundtrip() {
    let header = Header {
        hmac: [0; 8],
        iv: [1, 999],
        info: InfoHeader {
            version: 0x42,
            unused: [0x13],
            directory: Section {
                offset: 64,
                size: 32,
                nonce: [42, 13],
            },
        },
    };
    let key = [133, 422];
    let mut crypted = header;
    encrypt_header_inplace(&mut crypted, &key);
    assert_eq!(header.info, decrypt_header(&crypted, &key));
    decrypt_header_inplace(&mut crypted, &key);
    assert_eq!(header, crypted);
}

#[test]
fn test_crypt_desc_roundtrip() {
    let desc = Descriptor::file(b"hello world");
    let key = [133, 422];
    let nonce = [31415, 2781];
    let mut crypted = desc;
    crypted = decrypt_desc(&crypted, &nonce, &key);
    assert_eq!(desc, decrypt_desc(&crypted, &nonce, &key));
    crypted = decrypt_desc(&crypted, &nonce, &key);
    assert_eq!(desc, crypted);
}

#[test]
fn test_crypt_subdata() {
    let mut src = [0; 15];
    getrandom::getrandom(&mut src).unwrap();
    let key = &[42, 13];
    let nonce = &[0x42, 0x13];
    for i in 0..15 {
        let mut blocks = [[0u64; 2]; 1];
        encrypt_data(&mut blocks, nonce, key, i % 8, &src[i..], Pad::Zero);
        let mut dest = [0; 15];
        decrypt_data(&blocks, nonce, key, i % 8, &mut dest[i..]);
        assert_eq!(&src[i..], &dest[i..]);
    }
}

#[test]
fn test_crypt_data() {
    let mut src = [0; 31];
    getrandom::getrandom(&mut src).unwrap();
    let key = &[13, 42];
    let nonce = &[0x13, 0x42];
    for i in 0..16 {
        let mut blocks = [[0u64; 2]; 4];
        encrypt_data(&mut blocks, nonce, key, i, &src, Pad::Zero);
        let mut dest = [0; 31];
        decrypt_data(&blocks, nonce, key, i, &mut dest);
        assert_eq!(&src, &dest);
    }
}

#[test]
fn test_crypt_data_out_of_range_is_noop() {
    let key = &[7, 9];
    let nonce = &[1, 2];
    let mut blocks = [[0u64; 2]; 2];
    // 33 bytes cannot fit in two 16-byte blocks: nothing may change.
    let src = [0xABu8; 33];
    encrypt_data(&mut blocks, nonce, key, 0, &src, Pad::Zero);
    assert_eq!(blocks, [[0u64; 2]; 2]);
    // Nor may an offset push a fitting write past the end.
    encrypt_data(&mut blocks, nonce, key, 20, &src[..13], Pad::Zero);
    assert_eq!(blocks, [[0u64; 2]; 2]);
    let mut dest = [0u8; 33];
    decrypt_data(&blocks, nonce, key, 0, &mut dest);
    assert_eq!(dest, [0u8; 33]);
}

#[test]
fn test_transparent_preserves_disjoint_bytes() {
    let key = &[3, 4];
    let nonce = &[5, 6];
    let mut blocks = [[0u64; 2]; 2];
    let first = [0x11u8; 32];
    encrypt_data(&mut blocks, nonce, key, 0, &first, Pad::Zero);
    // Overwrite bytes 5..12 in place; the rest must stay recoverable.
    let patch = [0x22u8; 7];
    encrypt_data(&mut blocks, nonce, key, 5, &patch, Pad::Transparent);
    let mut dest = [0u8; 32];
    decrypt_data(&blocks, nonce, key, 0, &mut dest);
    for i in 0..32 {
        if (5..12).contains(&i) {
            assert_eq!(dest[i], 0x22);
        } else {
            assert_eq!(dest[i], 0x11);
        }
    }
}

#[test]
fn test_encrypt_zero_decrypts_to_zeroes() {
    let key = &[21, 22];
    let nonce = &[23, 24];
    let mut blocks = [[0xFFFFu64; 2]; 3];
    encrypt_zero(&mut blocks, nonce, key);
    let mut dest = [0xAAu8; 48];
    decrypt_data(&blocks, nonce, key, 0, &mut dest);
    assert_eq!(dest, [0u8; 48]);
}

#[test]
fn test_reencrypt_data_preserves_plaintext() {
    let old_key = &[100, 200];
    let new_key = &[300, 400];
    let old_nonce = &[1, 1];
    let new_nonce = &[2, 2];
    let mut blocks = [[0u64; 2]; 2];
    let src: Vec<u8> = (0..32).collect();
    encrypt_data(&mut blocks, old_nonce, old_key, 0, &src, Pad::Zero);
    reencrypt_data(&mut blocks, old_nonce, new_nonce, old_key, new_key);
    let mut dest = [0u8; 32];
    decrypt_data(&blocks, new_nonce, new_key, 0, &mut dest);
    assert_eq!(&dest[..], &src[..]);
}
