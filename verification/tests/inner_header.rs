use kdbx4::error::{Error, HeaderFault};
use kdbx4::inner_header::{Attachment, InnerCipher, InnerHeader};

fn inner_hex(bytes: &[u8]) -> String {
    bytes.iter().map(|b| format!("{:02x}", b)).collect()
}

fn field(id: u8, payload: &[u8]) -> Vec<u8> {
    let mut out = vec![id];
    out.extend_from_slice(&(payload.len() as u32).to_le_bytes());
    out.extend_from_slice(payload);
    out
}

fn sample() -> InnerHeader {
    InnerHeader {
        cipher: InnerCipher::ChaCha20,
        key: vec![b'K'; 64],
        binaries: vec![
            Attachment { flags: 1, content: b"first".to_vec() },
            Attachment { flags: 0, content: vec![] },
            Attachment { flags: 0, content: b"third".to_vec() },
        ],
    }
}

#[test]
fn inner_header_is_written_field_by_field() {
    let k = "4b".repeat(64);
    let expected = format!(
        "010400000003000000{}{}{}{}{}{}",
        "0240000000",
        k,
        "03060000000166697273 74".replace(' ', ""),
        "03010000 0000".replace(' ', ""),
        "0306000000007468697264",
        "0000000000"
    );
    assert_eq!(inner_hex(&sample().serialize().unwrap()), expected);
}

#[test]
fn inner_header_is_read_back_and_says_where_the_document_starts() {
    let mut written = sample().serialize().unwrap();
    let length = written.len();
    written.extend_from_slice(b"<KeePassFile/>");
    assert_eq!(InnerHeader::parse(&written), Ok((sample(), length)));
    assert_eq!(&written[length..], b"<KeePassFile/>");
}

#[test]
fn ordinals_name_the_same_attachments_after_a_round_trip() {
    let before = sample();
    let (after, _) = InnerHeader::parse(&before.serialize().unwrap()).unwrap();
    for ordinal in 0..3 {
        assert_eq!(after.binary(ordinal), before.binary(ordinal));
    }
    assert_eq!(after.binary(0).unwrap().content, b"first".to_vec());
    assert_eq!(after.binary(0).unwrap().flags, 1);
    assert_eq!(after.binary(1).unwrap().content, Vec::<u8>::new());
    assert_eq!(after.binary(2).unwrap().content, b"third".to_vec());
    assert_eq!(after.binary(3), None);
}

#[test]
fn stream_ciphers_have_their_numbers() {
    assert_eq!(InnerCipher::Salsa20.code(), 2);
    assert_eq!(InnerCipher::ChaCha20.code(), 3);
    assert_eq!(InnerCipher::from_code(2), Some(InnerCipher::Salsa20));
    assert_eq!(InnerCipher::from_code(3), Some(InnerCipher::ChaCha20));
    assert_eq!(InnerCipher::from_code(0), None);
    assert_eq!(InnerCipher::from_code(1), None);
    assert_eq!(InnerCipher::from_code(4), None);
}

#[test]
fn fields_may_come_in_any_order() {
    let mut bytes = field(3, &[0, 9]);
    bytes.extend(field(2, b"key"));
    bytes.extend(field(1, &2u32.to_le_bytes()));
    bytes.extend(field(3, &[1]));
    bytes.extend(field(0, &[]));
    let expected = InnerHeader {
        cipher: InnerCipher::Salsa20,
        key: b"key".to_vec(),
        binaries: vec![
            Attachment { flags: 0, content: vec![9] },
            Attachment { flags: 1, content: vec![] },
        ],
    };
    assert_eq!(InnerHeader::parse(&bytes), Ok((expected, bytes.len())));
}

#[test]
fn unknown_stream_cipher_is_refused() {
    let mut bytes = field(1, &7u32.to_le_bytes());
    bytes.extend(field(2, b"key"));
    bytes.extend(field(0, &[]));
    assert_eq!(InnerHeader::parse(&bytes), Err(Error::UnknownInnerCipher(7)));
}

#[test]
fn stream_cipher_of_wrong_width_is_refused() {
    let mut bytes = field(1, &[2, 0]);
    bytes.extend(field(2, b"key"));
    bytes.extend(field(0, &[]));
    assert_eq!(
        InnerHeader::parse(&bytes),
        Err(Error::MalformedHeader(1, HeaderFault::Length))
    );
}

#[test]
fn missing_cipher_or_key_is_refused() {
    let mut no_cipher = field(2, b"key");
    no_cipher.extend(field(0, &[]));
    assert_eq!(InnerHeader::parse(&no_cipher), Err(Error::MissingRequiredHeaderField(1)));
    let mut no_key = field(1, &2u32.to_le_bytes());
    no_key.extend(field(0, &[]));
    assert_eq!(InnerHeader::parse(&no_key), Err(Error::MissingRequiredHeaderField(2)));
    assert_eq!(InnerHeader::parse(&field(0, &[])), Err(Error::MissingRequiredHeaderField(1)));
}

#[test]
fn second_cipher_or_key_is_refused() {
    let mut bytes = field(1, &2u32.to_le_bytes());
    bytes.extend(field(2, b"key"));
    bytes.extend(field(2, b"key"));
    bytes.extend(field(0, &[]));
    assert_eq!(
        InnerHeader::parse(&bytes),
        Err(Error::MalformedHeader(2, HeaderFault::Duplicate))
    );
    let mut twice = field(1, &2u32.to_le_bytes());
    twice.extend(field(1, &3u32.to_le_bytes()));
    twice.extend(field(0, &[]));
    assert_eq!(
        InnerHeader::parse(&twice),
        Err(Error::MalformedHeader(1, HeaderFault::Duplicate))
    );
}

#[test]
fn unknown_inner_field_is_refused() {
    let mut bytes = field(1, &2u32.to_le_bytes());
    bytes.extend(field(4, b"?"));
    bytes.extend(field(2, b"key"));
    bytes.extend(field(0, &[]));
    assert_eq!(
        InnerHeader::parse(&bytes),
        Err(Error::MalformedHeader(4, HeaderFault::UnknownField))
    );
}

#[test]
fn attachment_without_flags_is_refused() {
    let mut bytes = field(1, &2u32.to_le_bytes());
    bytes.extend(field(2, b"key"));
    bytes.extend(field(3, &[]));
    bytes.extend(field(0, &[]));
    assert_eq!(
        InnerHeader::parse(&bytes),
        Err(Error::MalformedHeader(3, HeaderFault::Length))
    );
}

#[test]
fn truncated_inner_header_is_incomplete() {
    let written = sample().serialize().unwrap();
    for cut in 0..written.len() {
        assert_eq!(InnerHeader::parse(&written[..cut]), Err(Error::IncompleteInput));
    }
}
