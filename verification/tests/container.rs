use kdbx4::bytes::{wipe, wipe_bytes};
use kdbx4::container::{header_tag, open, seal, Container};
use kdbx4::error::Error;
use kdbx4::header::{Compression, OuterCipher, OuterHeader};
use kdbx4::key::{composite_key, derive_hmac_key, KeyComponent};
use kdbx4::variant::{VariantDictionary, VariantEntry, VariantValue};

fn container_hex(bytes: &[u8]) -> String {
    bytes.iter().map(|b| format!("{:02x}", b)).collect()
}

fn dump(container: &Container, key: &[KeyComponent]) -> Result<Vec<u8>, Error> {
    seal(container, &composite_key(key))
}

fn parse(bytes: &[u8], key: &[KeyComponent]) -> Result<Container, Error> {
    open(bytes, &composite_key(key))
}

fn password(text: &str) -> Vec<KeyComponent> {
    vec![KeyComponent::Password(text.to_string())]
}

fn sample(payload: &[u8]) -> Container {
    let entry = |name: &[u8], value| VariantEntry { name: name.to_vec(), value };
    let mut master_seed = [0u8; 32];
    for (i, b) in master_seed.iter_mut().enumerate() {
        *b = i as u8;
    }
    Container {
        header: OuterHeader {
            version_minor: 1,
            cipher: OuterCipher::ChaCha20,
            compression: Compression::GZip,
            master_seed,
            outer_iv: (100u8..112).collect(),
            kdf_parameters: VariantDictionary {
                entries: vec![
                    entry(b"$UUID", VariantValue::Bytes((16u8..32).collect())),
                    entry(b"R", VariantValue::UInt64(60000)),
                    entry(b"I32", VariantValue::Int32(-1)),
                    entry(b"B", VariantValue::Bool(true)),
                    entry(b"T", VariantValue::Text("hé".to_string())),
                    entry(b"U", VariantValue::UInt32(7)),
                    entry(b"L", VariantValue::Int64(-2)),
                ],
            },
            public_custom_data: None,
        },
        payload: payload.to_vec(),
    }
}

#[test]
fn file_is_header_digest_tag_and_envelope() {
    let written = dump(&sample(b"ciphertext"), &password("abc")).unwrap();
    assert_eq!(written.len(), 375);
    assert_eq!(
        container_hex(&written[229..]),
        "7f5c4d1e5cee940292fe6212de5c07dbc5bd0966ddf0b27d57120055b55e7098\
         caae63ff2132894d5ebd0c76bdf4b858d5464d3c4299c389406dd5d28d2e5cf5\
         a835ada0930352d934ea2ee1b9ea2832062d95be5b4885d661280b98febdee80\
         0a00000063697068657274657874\
         71fe7ab66a67fd0360fbb157457cd40f515d72c2c1166a81c565ca60ca9de3ed\
         00000000"
    );
    assert_eq!(written[..229].to_vec(), sample(b"").header.serialize().unwrap());
}

#[test]
fn tag_of_the_header_is_under_the_index_of_all_ones() {
    let container = sample(b"");
    let header = container.header.serialize().unwrap();
    let key = derive_hmac_key(&container.header.master_seed, &composite_key(&password("abc")));
    assert_eq!(
        container_hex(&header_tag(&header, &key)),
        "caae63ff2132894d5ebd0c76bdf4b858d5464d3c4299c389406dd5d28d2e5cf5"
    );
}

#[test]
fn what_was_written_is_read_back() {
    let key = vec![
        KeyComponent::Password("correct horse".to_string()),
        KeyComponent::KeyFile(vec![1, 2, 3]),
    ];
    for payload in [&b""[..], &b"x"[..], &[0xAAu8; 5000][..]] {
        let container = sample(payload);
        let written = dump(&container, &key).unwrap();
        assert_eq!(parse(&written, &key), Ok(container));
    }
}

#[test]
fn another_key_is_refused_at_the_header() {
    let written = dump(&sample(b"payload"), &password("abc")).unwrap();
    assert_eq!(
        parse(&written, &password("abd")),
        Err(Error::MessageAuthenticationFailed(u64::MAX))
    );
    assert_eq!(parse(&written, &[]), Err(Error::MessageAuthenticationFailed(u64::MAX)));
}

#[test]
fn file_without_its_last_bytes_is_refused() {
    let written = dump(&sample(b"some payload of the file"), &password("abc")).unwrap();
    let cut = &written[..written.len() - 16];
    let r = parse(cut, &password("abc"));
    assert!(matches!(
        r,
        Err(Error::MessageAuthenticationFailed(_)) | Err(Error::IncompleteInput)
    ));
    assert_eq!(r, Err(Error::IncompleteInput));
}

#[test]
fn truncation_anywhere_is_refused() {
    let written = dump(&sample(b"payload"), &password("abc")).unwrap();
    for cut in 0..written.len() {
        assert_eq!(parse(&written[..cut], &password("abc")), Err(Error::IncompleteInput));
    }
}

#[test]
fn any_changed_bit_after_the_prelude_is_found_out() {
    let key = password("abc");
    let written = dump(&sample(b"payload"), &key).unwrap();
    let header_end = 229;
    for position in 12..written.len() {
        let mut changed = written.clone();
        changed[position] ^= 0x01;
        let r = parse(&changed, &key);
        if position < header_end + 32 {
            assert!(
                matches!(r, Err(Error::HeaderHashMismatch) | Err(Error::IncompleteInput)),
                "position {}",
                position
            );
        } else if position < header_end + 64 {
            assert_eq!(r, Err(Error::MessageAuthenticationFailed(u64::MAX)));
        } else {
            assert!(
                matches!(
                    r,
                    Err(Error::MessageAuthenticationFailed(_)) | Err(Error::IncompleteInput)
                ),
                "position {}",
                position
            );
        }
    }
}

#[test]
fn changed_digest_tag_and_frame_tags_give_their_errors() {
    let key = password("abc");
    let written = dump(&sample(b"payload"), &key).unwrap();
    let flip = |position: usize| {
        let mut changed = written.clone();
        changed[position] ^= 0x40;
        parse(&changed, &key)
    };
    assert_eq!(flip(229), Err(Error::HeaderHashMismatch));
    assert_eq!(flip(229 + 31), Err(Error::HeaderHashMismatch));
    assert_eq!(flip(229 + 32), Err(Error::MessageAuthenticationFailed(u64::MAX)));
    assert_eq!(flip(229 + 63), Err(Error::MessageAuthenticationFailed(u64::MAX)));
    assert_eq!(flip(229 + 64), Err(Error::MessageAuthenticationFailed(0)));
    assert_eq!(flip(229 + 64 + 36 + 7), Err(Error::MessageAuthenticationFailed(1)));
}

#[test]
fn fresh_seed_gives_other_bytes_and_both_are_read_back() {
    let key = password("abc");
    let first = sample(b"payload");
    let mut second = sample(b"payload");
    second.header.master_seed[0] ^= 0xFF;
    let a = dump(&first, &key).unwrap();
    let b = dump(&second, &key).unwrap();
    assert_ne!(a, b);
    assert_eq!(parse(&a, &key).unwrap().payload, parse(&b, &key).unwrap().payload);
    assert_eq!(parse(&a, &key), Ok(first));
    assert_eq!(parse(&b, &key), Ok(second));
}

#[test]
fn container_that_cannot_be_written_says_why() {
    let mut container = sample(b"payload");
    container.header.cipher = OuterCipher::Aes256;
    assert_eq!(
        dump(&container, &password("abc")),
        Err(Error::MalformedHeader(7, kdbx4::error::HeaderFault::Length))
    );
}

#[test]
fn wiped_key_is_all_zeros() {
    let mut key = [0x5Au8; 64];
    wipe(&mut key);
    assert_eq!(key, [0u8; 64]);
    let mut master = vec![0xA5u8; 32];
    wipe_bytes(&mut master);
    assert_eq!(master, vec![0u8; 32]);
}
