use cipher::block_padding::Pkcs7;
use cipher::{BlockDecryptMut, BlockEncryptMut, KeyIvInit, StreamCipher};
use kdbx4::crypt::ciphers::{
    apply_stream, decrypt_payload, encrypt_payload, pad, unpad, CHACHA20_REACH,
};
use kdbx4::error::{Error, HeaderFault};
use kdbx4::header::OuterCipher;
use kdbx4::inner_header::InnerCipher;

fn cipher_hex(bytes: &[u8]) -> String {
    bytes.iter().map(|b| format!("{:02x}", b)).collect()
}

fn key() -> Vec<u8> {
    (0u8..32).collect()
}

fn iv() -> Vec<u8> {
    (16u8..32).collect()
}

#[test]
fn padding_fills_the_block_with_the_number_of_bytes_added() {
    assert_eq!(pad(b""), vec![16u8; 16]);
    assert_eq!(pad(b"hello"), [&b"hello"[..], &[11u8; 11]].concat());
    assert_eq!(pad(&[7u8; 15]), [&[7u8; 15][..], &[1u8]].concat());
    assert_eq!(pad(&[7u8; 16]), [&[7u8; 16][..], &[16u8; 16]].concat());
    assert_eq!(pad(&[7u8; 17]).len(), 32);
}

#[test]
fn padding_is_taken_off_again() {
    for length in 0..50usize {
        let data: Vec<u8> = (0..length).map(|i| i as u8).collect();
        assert_eq!(unpad(&pad(&data)), Some(data));
    }
}

#[test]
fn malformed_padding_is_refused() {
    assert_eq!(unpad(&[]), None);
    assert_eq!(unpad(&[1u8; 15]), None);
    assert_eq!(unpad(&[0u8; 16]), None);
    assert_eq!(unpad(&[17u8; 16]), None);
    let mut mixed = vec![3u8; 16];
    mixed[14] = 2;
    assert_eq!(unpad(&mixed), None);
    let mut first = vec![16u8; 16];
    first[0] = 15;
    assert_eq!(unpad(&first), None);
    let mut good = vec![9u8; 16];
    good[15] = 1;
    assert_eq!(unpad(&good), Some(vec![9u8; 15]));
}

#[test]
fn aes_payload_is_padded_and_chained() {
    let encrypt = |data: &[u8]| {
        cipher_hex(&encrypt_payload(OuterCipher::Aes256, &key(), &iv(), data).unwrap())
    };
    assert_eq!(encrypt(b"hello"), "0468f1a5269ea7245bb84c64d456e94d");
    assert_eq!(encrypt(b""), "5a6e045708fb7196f02e553d02c3a692");
    assert_eq!(
        encrypt(b"0123456789abcdef"),
        "879adb94b99e35f6f6d9680548bb71d1a509dfb8c1d49c21bd828cbaa86365eb"
    );
}

#[test]
fn aes_payload_is_decrypted() {
    let ciphertext: Vec<u8> = vec![
        0x04, 0x68, 0xf1, 0xa5, 0x26, 0x9e, 0xa7, 0x24, 0x5b, 0xb8, 0x4c, 0x64, 0xd4, 0x56, 0xe9,
        0x4d,
    ];
    assert_eq!(
        decrypt_payload(OuterCipher::Aes256, &key(), &iv(), &ciphertext),
        Ok(b"hello".to_vec())
    );
}

#[test]
fn twofish_payload_agrees_with_the_cipher_padding_by_itself() {
    let data = b"some payload that takes more than one block";
    let ours = encrypt_payload(OuterCipher::Twofish, &key(), &iv(), data).unwrap();
    let theirs = cbc::Encryptor::<twofish::Twofish>::new_from_slices(&key(), &iv())
        .unwrap()
        .encrypt_padded_vec_mut::<Pkcs7>(data);
    assert_eq!(ours, theirs);
    assert_ne!(ours, encrypt_payload(OuterCipher::Aes256, &key(), &iv(), data).unwrap());
    let back = cbc::Decryptor::<twofish::Twofish>::new_from_slices(&key(), &iv())
        .unwrap()
        .decrypt_padded_vec_mut::<Pkcs7>(&ours)
        .unwrap();
    assert_eq!(back, data.to_vec());
    assert_eq!(decrypt_payload(OuterCipher::Twofish, &key(), &iv(), &ours), Ok(data.to_vec()));
}

#[test]
fn chacha20_payload_is_masked_from_the_start_of_the_keystream() {
    let nonce: Vec<u8> = (100u8..112).collect();
    let out = encrypt_payload(OuterCipher::ChaCha20, &key(), &nonce, b"hello world").unwrap();
    assert_eq!(cipher_hex(&out), "87bf5f4ee2e06009c9c7cc");
    assert_eq!(
        decrypt_payload(OuterCipher::ChaCha20, &key(), &nonce, &out),
        Ok(b"hello world".to_vec())
    );
}

#[test]
fn every_cipher_gives_the_payload_back() {
    for cipher in [OuterCipher::Aes256, OuterCipher::Twofish, OuterCipher::ChaCha20] {
        let vector = vec![5u8; cipher.iv_size()];
        for length in [0usize, 1, 15, 16, 17, 1000] {
            let data: Vec<u8> = (0..length).map(|i| (i * 7) as u8).collect();
            let out = encrypt_payload(cipher, &key(), &vector, &data).unwrap();
            assert_eq!(decrypt_payload(cipher, &key(), &vector, &out), Ok(data));
        }
    }
}

#[test]
fn key_of_another_length_is_refused() {
    for cipher in [OuterCipher::Aes256, OuterCipher::Twofish, OuterCipher::ChaCha20] {
        let vector = vec![5u8; cipher.iv_size()];
        assert_eq!(encrypt_payload(cipher, &[1u8; 16], &vector, b"x"), Err(Error::InvalidKeyLength));
        assert_eq!(decrypt_payload(cipher, &[1u8; 33], &vector, b"x"), Err(Error::InvalidKeyLength));
    }
}

#[test]
fn vector_of_another_length_is_refused() {
    let bad = Err(Error::MalformedHeader(7, HeaderFault::Length));
    assert_eq!(encrypt_payload(OuterCipher::Aes256, &key(), &[0u8; 12], b"x"), bad);
    assert_eq!(encrypt_payload(OuterCipher::ChaCha20, &key(), &[0u8; 16], b"x"), bad);
    assert_eq!(decrypt_payload(OuterCipher::Twofish, &key(), &[0u8; 15], &[0u8; 16]), bad);
}

#[test]
fn ciphertext_that_is_not_whole_blocks_or_badly_padded_is_a_padding_error() {
    assert_eq!(
        decrypt_payload(OuterCipher::Aes256, &key(), &iv(), &[0u8; 15]),
        Err(Error::PaddingError)
    );
    assert_eq!(
        decrypt_payload(OuterCipher::Aes256, &key(), &iv(), &[]),
        Err(Error::PaddingError)
    );
    assert_eq!(
        decrypt_payload(OuterCipher::Twofish, &key(), &iv(), &[0u8; 17]),
        Err(Error::PaddingError)
    );
    let raw = cbc::Encryptor::<aes::Aes256>::new_from_slices(&key(), &iv())
        .unwrap()
        .encrypt_padded_vec_mut::<cipher::block_padding::NoPadding>(&[0u8; 16]);
    assert_eq!(
        decrypt_payload(OuterCipher::Aes256, &key(), &iv(), &raw),
        Err(Error::PaddingError)
    );
}

#[test]
fn chacha20_keystream_is_found_at_any_position() {
    let nonce = [0u8, 0, 0, 0, 0, 0, 0, 0x4a, 0, 0, 0, 0];
    let text = b"Ladies and Gentlemen of the class of '99: If I could offer you only one tip \
        for the future, sunscreen would be it.";
    let out = apply_stream(InnerCipher::ChaCha20, &key(), &nonce, 64, text).unwrap();
    assert_eq!(
        cipher_hex(&out[..32]),
        "6e2e359a2568f98041ba0728dd0d6981e97e7aec1d4360c20a27afccfd9fae0b"
    );
    let start = apply_stream(InnerCipher::ChaCha20, &key(), &nonce, 0, &[0u8; 16]).unwrap();
    assert_eq!(cipher_hex(&start), "af051e40bba0354981329a806a140eaf");
    let middle = apply_stream(InnerCipher::ChaCha20, &key(), &nonce, 70, &[0u8; 10]).unwrap();
    assert_eq!(cipher_hex(&middle), "d9e12fde276fb8631ded");
}

#[test]
fn salsa20_keystream_is_found_at_any_position() {
    let nonce = [0xE8u8, 0x30, 0x09, 0x4B, 0x97, 0x20, 0x5D, 0x2A];
    let mut whole = vec![0u8; 300];
    salsa20::Salsa20::new_from_slices(&key(), &nonce).unwrap().apply_keystream(&mut whole);
    for (position, length) in [(0usize, 0usize), (0, 1), (0, 64), (1, 63), (63, 2), (64, 64), (130, 170)] {
        let part =
            apply_stream(InnerCipher::Salsa20, &key(), &nonce, position as u64, &vec![0u8; length]);
        assert_eq!(part, Some(whole[position..position + length].to_vec()));
    }
    assert_ne!(whole[..64], whole[64..128]);
}

#[test]
fn keystream_beyond_the_reach_is_not_given() {
    let nonce = [0u8; 12];
    assert_eq!(
        apply_stream(InnerCipher::ChaCha20, &key(), &nonce, CHACHA20_REACH, &[0u8; 1]),
        None
    );
    assert_eq!(
        apply_stream(InnerCipher::ChaCha20, &key(), &nonce, CHACHA20_REACH - 1, &[0u8; 2]),
        None
    );
    assert!(
        apply_stream(InnerCipher::ChaCha20, &key(), &nonce, CHACHA20_REACH - 2, &[0u8; 2])
            .is_some()
    );
    assert_eq!(
        apply_stream(InnerCipher::Salsa20, &key(), &[0u8; 8], u64::MAX, &[0u8; 1]),
        None
    );
    assert!(apply_stream(InnerCipher::Salsa20, &key(), &[0u8; 8], i64::MAX as u64 - 5, &[0u8; 5])
        .is_some());
}
