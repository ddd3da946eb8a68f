use cipher::{KeyIvInit, StreamCipher};
use kdbx4::error::Error;
use kdbx4::inner_header::InnerCipher;
use kdbx4::protect::InnerStream;

fn protect_hex(bytes: &[u8]) -> String {
    bytes.iter().map(|b| format!("{:02x}", b)).collect()
}

#[test]
fn chacha20_stream_takes_key_and_nonce_from_the_digest_of_the_inner_key() {
    let mut stream = InnerStream::new(InnerCipher::ChaCha20, &[b'K'; 64]).unwrap();
    assert_eq!(protect_hex(&stream.xor_next(b"klmno").unwrap()), "4e1e180662");
    assert_eq!(protect_hex(&stream.xor_next(b"second").unwrap()), "a415a21445d6");
}

#[test]
fn chacha20_stream_takes_an_inner_key_of_any_length() {
    assert!(InnerStream::new(InnerCipher::ChaCha20, &[]).is_ok());
    assert!(InnerStream::new(InnerCipher::ChaCha20, &[1u8; 7]).is_ok());
}

#[test]
fn salsa20_stream_takes_a_key_of_32_bytes_only() {
    assert!(InnerStream::new(InnerCipher::Salsa20, &[1u8; 32]).is_ok());
    assert!(matches!(
        InnerStream::new(InnerCipher::Salsa20, &[1u8; 31]),
        Err(Error::InvalidKeyLength)
    ));
    assert!(matches!(
        InnerStream::new(InnerCipher::Salsa20, &[1u8; 64]),
        Err(Error::InvalidKeyLength)
    ));
}

#[test]
fn salsa20_stream_uses_the_nonce_of_the_format() {
    let mut expected = b"klmnosecond".to_vec();
    salsa20::Salsa20::new_from_slices(&[1u8; 32], &[0xE8, 0x30, 0x09, 0x4B, 0x97, 0x20, 0x5D, 0x2A])
        .unwrap()
        .apply_keystream(&mut expected);
    let mut stream = InnerStream::new(InnerCipher::Salsa20, &[1u8; 32]).unwrap();
    let first = stream.xor_next(b"klmno").unwrap();
    let second = stream.xor_next(b"second").unwrap();
    assert_eq!([first, second].concat(), expected);
}

#[test]
fn values_read_in_the_order_they_were_written_come_back() {
    for cipher in [InnerCipher::Salsa20, InnerCipher::ChaCha20] {
        let key = [7u8; 32];
        let values: Vec<&[u8]> = vec![b"klmno", b"", b"custom-data-value", &[0u8; 200]];
        let mut writer = InnerStream::new(cipher, &key).unwrap();
        let masked: Vec<Vec<u8>> = values.iter().map(|v| writer.xor_next(v).unwrap()).collect();
        let mut reader = InnerStream::new(cipher, &key).unwrap();
        for (value, stored) in values.iter().zip(&masked) {
            assert_eq!(reader.xor_next(stored).unwrap(), value.to_vec());
        }
        assert_ne!(masked[0], b"klmno".to_vec());
    }
}

#[test]
fn values_read_in_another_order_are_both_corrupted() {
    for cipher in [InnerCipher::Salsa20, InnerCipher::ChaCha20] {
        let key = [7u8; 32];
        let mut writer = InnerStream::new(cipher, &key).unwrap();
        let first = writer.xor_next(b"klmno").unwrap();
        let second = writer.xor_next(b"another secret").unwrap();
        let mut reader = InnerStream::new(cipher, &key).unwrap();
        let second_read = reader.xor_next(&second).unwrap();
        let first_read = reader.xor_next(&first).unwrap();
        assert_ne!(second_read, b"another secret".to_vec());
        assert_ne!(first_read, b"klmno".to_vec());
    }
}

#[test]
fn empty_values_take_no_keystream() {
    let mut with = InnerStream::new(InnerCipher::ChaCha20, b"key").unwrap();
    assert_eq!(with.xor_next(b""), Some(vec![]));
    assert_eq!(with.xor_next(b""), Some(vec![]));
    let after = with.xor_next(b"value").unwrap();
    let mut without = InnerStream::new(InnerCipher::ChaCha20, b"key").unwrap();
    assert_eq!(without.xor_next(b"value").unwrap(), after);
}

#[test]
fn wiped_stream_has_lost_its_key() {
    let mut stream = InnerStream::new(InnerCipher::ChaCha20, &[b'K'; 64]).unwrap();
    stream.wipe();
    let after = stream.xor_next(b"klmno").unwrap();
    assert_ne!(protect_hex(&after), "4e1e180662");
    let mut zeros = b"klmno".to_vec();
    chacha20::ChaCha20::new_from_slices(&[0u8; 32], &[0u8; 12])
        .unwrap()
        .apply_keystream(&mut zeros);
    assert_eq!(after, zeros);
}
