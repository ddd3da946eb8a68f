use kdbx4::crypt::{calculate_hmac, calculate_sha256, calculate_sha512};

fn hex(text: &str) -> Vec<u8> {
    let digits: Vec<u8> = text
        .bytes()
        .map(|c| match c {
            b'0'..=b'9' => c - b'0',
            b'a'..=b'f' => c - b'a' + 10,
            _ => panic!("not a hex digit"),
        })
        .collect();
    digits.chunks(2).map(|pair| pair[0] * 16 + pair[1]).collect()
}

#[test]
fn sha256_of_abc() {
    let digest = calculate_sha256(&[b"abc"]).unwrap();
    assert_eq!(
        digest.to_vec(),
        hex("ba7816bf8f01cfea414140de5dae2223b00361a396177a9cb410ff61f20015ad")
    );
}

#[test]
fn sha256_of_nothing() {
    let expected = hex("e3b0c44298fc1c149afbf4c8996fb92427ae41e4649b934ca495991b7852b855");
    assert_eq!(calculate_sha256(&[]).unwrap().to_vec(), expected);
    assert_eq!(calculate_sha256(&[b"", b""]).unwrap().to_vec(), expected);
}

#[test]
fn sha256_joins_segments_in_order() {
    let whole = calculate_sha256(&[b"abc"]).unwrap();
    assert_eq!(calculate_sha256(&[b"a", b"bc"]).unwrap(), whole);
    assert_eq!(calculate_sha256(&[b"ab", b"", b"c"]).unwrap(), whole);
    assert_ne!(calculate_sha256(&[b"bc", b"a"]).unwrap(), whole);
}

#[test]
fn sha512_of_abc() {
    let digest = calculate_sha512(&[b"a", b"b", b"c"]).unwrap();
    assert_eq!(
        digest.to_vec(),
        hex(
            "ddaf35a193617abacc417349ae20413112e6fa4e89a97ea20a9eeee64b55d39a\
             2192992a274fc1a836ba3c23a3feebbd454d4423643ce80e2a9ac94fa54ca49f"
        )
    );
}

#[test]
fn hmac_of_known_message() {
    let tag = calculate_hmac(&[b"what do ya want ", b"for nothing?"], b"Jefe").unwrap();
    assert_eq!(
        tag.to_vec(),
        hex("5bdcc146bf60754e6a042426089575c75a003f089d2739839dec58b964ec3843")
    );
}

#[test]
fn hmac_takes_keys_of_any_length() {
    assert!(calculate_hmac(&[b"data"], b"").is_ok());
    assert!(calculate_hmac(&[b"data"], &[7u8; 200]).is_ok());
    assert_ne!(
        calculate_hmac(&[b"data"], b"one").unwrap(),
        calculate_hmac(&[b"data"], b"two").unwrap()
    );
}

#[test]
fn hmac_key_acts_as_filled_with_zeros_or_as_its_digest() {
    let short = calculate_hmac(&[b"message"], b"Jefe").unwrap();
    let mut filled = b"Jefe".to_vec();
    filled.resize(64, 0);
    assert_eq!(calculate_hmac(&[b"message"], &filled).unwrap(), short);
    let long = [0x5Au8; 100];
    let digest = calculate_sha256(&[&long]).unwrap();
    assert_eq!(
        calculate_hmac(&[b"message"], &long).unwrap(),
        calculate_hmac(&[b"message"], &digest).unwrap()
    );
}

#[test]
fn hmac_is_two_digests_over_the_padded_key() {
    let key = [0x11u8; 64];
    let inner_key: Vec<u8> = key.iter().map(|b| b ^ 0x36).collect();
    let outer_key: Vec<u8> = key.iter().map(|b| b ^ 0x5C).collect();
    let inner = calculate_sha256(&[&inner_key, b"message"]).unwrap();
    let outer = calculate_sha256(&[&outer_key, &inner]).unwrap();
    assert_eq!(calculate_hmac(&[b"message"], &key).unwrap(), outer);
    let other = [0x12u8; 64];
    assert_ne!(calculate_hmac(&[b"message"], &other).unwrap(), outer);
}
