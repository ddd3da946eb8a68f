use kdbx4::error::{DictionaryFault, Error, HeaderFault};
use kdbx4::header::{Compression, OuterCipher, OuterHeader};
use kdbx4::variant::{VariantDictionary, VariantEntry, VariantValue};

fn header_hex(bytes: &[u8]) -> String {
    bytes.iter().map(|b| format!("{:02x}", b)).collect()
}

fn digest_of(bytes: &[u8]) -> [u8; 32] {
    kdbx4::crypt::calculate_sha256(&[bytes]).unwrap()
}

fn tlv(id: u8, payload: &[u8]) -> Vec<u8> {
    let mut out = vec![id];
    out.extend_from_slice(&(payload.len() as u32).to_le_bytes());
    out.extend_from_slice(payload);
    out
}

const PRELUDE: [u8; 12] = [0x03, 0xD9, 0xA2, 0x9A, 0x67, 0xFB, 0x4B, 0xB5, 0x01, 0x00, 0x04, 0x00];

const AES: [u8; 16] = [
    0x31, 0xC1, 0xF2, 0xE6, 0xBF, 0x71, 0x43, 0x50, 0xBE, 0x58, 0x05, 0x21, 0x6A, 0xFC, 0x5A, 0xFF,
];

/// A header made of the given fields, closed and followed by its digest.
fn file_of(fields: &[Vec<u8>]) -> Vec<u8> {
    let mut out = PRELUDE.to_vec();
    for f in fields {
        out.extend_from_slice(f);
    }
    out.extend(tlv(0, &[]));
    let digest = digest_of(&out);
    out.extend_from_slice(&digest);
    out
}

fn good_fields() -> Vec<Vec<u8>> {
    vec![
        tlv(2, &AES),
        tlv(3, &0u32.to_le_bytes()),
        tlv(4, &[9u8; 32]),
        tlv(7, &[8u8; 16]),
        tlv(11, &[0x00, 0x01, 0x00]),
    ]
}

fn kdf() -> VariantDictionary {
    let entry = |name: &[u8], value| VariantEntry { name: name.to_vec(), value };
    VariantDictionary {
        entries: vec![
            entry(b"$UUID", VariantValue::Bytes((16u8..32).collect())),
            entry(b"R", VariantValue::UInt64(60000)),
            entry(b"I32", VariantValue::Int32(-1)),
            entry(b"B", VariantValue::Bool(true)),
            entry(b"T", VariantValue::Text("hé".to_string())),
            entry(b"U", VariantValue::UInt32(7)),
            entry(b"L", VariantValue::Int64(-2)),
        ],
    }
}

fn sample() -> OuterHeader {
    let mut master_seed = [0u8; 32];
    for (i, b) in master_seed.iter_mut().enumerate() {
        *b = i as u8;
    }
    OuterHeader {
        version_minor: 1,
        cipher: OuterCipher::ChaCha20,
        compression: Compression::GZip,
        master_seed,
        outer_iv: (100u8..112).collect(),
        kdf_parameters: kdf(),
        public_custom_data: None,
    }
}

const SAMPLE: &str = "03d9a29a67fb4bb5010004000210000000d6038a2b8b6f4cb5a524339a31dbb59a\
    0304000000010000000420000000000102030405060708090a0b0c0d0e0f1011121314\
    15161718191a1b1c1d1e1f070c0000006465666768696a6b6c6d6e6f0b7b0000000001\
    4205000000245555494410000000101112131415161718191a1b1c1d1e1f0501000000\
    520800000060ea0000000000000c0300000049333204000000ffffffff080100000042\
    01000000011801000000540300000068c3a90401000000550400000007000000\
    0d010000004c08000000feffffffffffffff000000000000";

#[test]
fn header_is_written_in_the_order_of_its_fields() {
    let written = sample().serialize().unwrap();
    assert_eq!(written.len(), 229);
    assert_eq!(header_hex(&written), SAMPLE);
}

#[test]
fn header_starts_with_signatures_and_version() {
    let written = sample().serialize().unwrap();
    assert_eq!(&written[..12], &PRELUDE);
    assert_eq!(u32::from_le_bytes([written[0], written[1], written[2], written[3]]), 0x9AA2_D903);
    assert_eq!(u32::from_le_bytes([written[4], written[5], written[6], written[7]]), 0xB54B_FB67);
}

#[test]
fn header_is_read_back_with_its_length() {
    let mut bytes = sample().serialize().unwrap();
    let length = bytes.len();
    let digest = digest_of(&bytes);
    assert_eq!(
        header_hex(&digest),
        "7f5c4d1e5cee940292fe6212de5c07dbc5bd0966ddf0b27d57120055b55e7098"
    );
    bytes.extend_from_slice(&digest);
    bytes.extend_from_slice(b"what follows");
    assert_eq!(OuterHeader::parse(&bytes), Ok((sample(), length)));
}

#[test]
fn header_with_public_custom_data_is_read_back() {
    let mut header = sample();
    header.cipher = OuterCipher::Twofish;
    header.outer_iv = vec![3u8; 16];
    header.compression = Compression::Uncompressed;
    header.public_custom_data = Some(VariantDictionary {
        entries: vec![VariantEntry { name: b"app".to_vec(), value: VariantValue::Bool(false) }],
    });
    let mut bytes = header.serialize().unwrap();
    let length = bytes.len();
    let digest = digest_of(&bytes);
    bytes.extend_from_slice(&digest);
    assert_eq!(OuterHeader::parse(&bytes), Ok((header, length)));
}

#[test]
fn ciphers_have_their_uuids_and_vector_lengths() {
    assert_eq!(OuterCipher::Aes256.uuid(), AES);
    assert_eq!(header_hex(&OuterCipher::Twofish.uuid()), "ad68f29f576f4bb9a36ad47af965346c");
    assert_eq!(header_hex(&OuterCipher::ChaCha20.uuid()), "d6038a2b8b6f4cb5a524339a31dbb59a");
    assert_eq!(OuterCipher::from_uuid(&AES), Some(OuterCipher::Aes256));
    assert_eq!(OuterCipher::from_uuid(&AES[..15]), None);
    assert_eq!(OuterCipher::from_uuid(&[0u8; 16]), None);
    assert_eq!(OuterCipher::Aes256.iv_size(), 16);
    assert_eq!(OuterCipher::Twofish.iv_size(), 16);
    assert_eq!(OuterCipher::ChaCha20.iv_size(), 12);
    assert_eq!(Compression::from_code(0), Some(Compression::Uncompressed));
    assert_eq!(Compression::from_code(1), Some(Compression::GZip));
    assert_eq!(Compression::from_code(2), None);
}

#[test]
fn fields_of_a_header_may_come_in_any_order() {
    let mut fields = good_fields();
    fields.reverse();
    let bytes = file_of(&fields);
    let (header, length) = OuterHeader::parse(&bytes).unwrap();
    assert_eq!(length, bytes.len() - 32);
    assert_eq!(header.cipher, OuterCipher::Aes256);
    assert_eq!(header.compression, Compression::Uncompressed);
    assert_eq!(header.master_seed, [9u8; 32]);
    assert_eq!(header.outer_iv, vec![8u8; 16]);
    assert_eq!(header.kdf_parameters, VariantDictionary::new());
    assert_eq!(header.public_custom_data, None);
    assert_eq!(header.version_minor, 1);
}

#[test]
fn payload_of_the_closing_field_is_passed_over() {
    let mut bytes = PRELUDE.to_vec();
    for f in good_fields() {
        bytes.extend(f);
    }
    bytes.extend(tlv(0, b"\r\n\r\n"));
    let length = bytes.len();
    let digest = digest_of(&bytes);
    bytes.extend_from_slice(&digest);
    assert_eq!(OuterHeader::parse(&bytes).unwrap().1, length);
}

#[test]
fn wrong_first_signature_is_invalid_magic() {
    let mut bytes = file_of(&good_fields());
    bytes[0] ^= 1;
    assert_eq!(OuterHeader::parse(&bytes), Err(Error::InvalidMagic));
    assert_eq!(OuterHeader::parse(&[0x03, 0xD9, 0xA2, 0x9B]), Err(Error::InvalidMagic));
}

#[test]
fn wrong_second_signature_or_major_version_is_unsupported() {
    let mut family = file_of(&good_fields());
    family[4] ^= 1;
    assert_eq!(OuterHeader::parse(&family), Err(Error::UnsupportedVersion));
    let mut three = file_of(&good_fields());
    three[10] = 3;
    assert_eq!(OuterHeader::parse(&three), Err(Error::UnsupportedVersion));
    let mut five = file_of(&good_fields());
    five[10] = 5;
    assert_eq!(OuterHeader::parse(&five), Err(Error::UnsupportedVersion));
}

#[test]
fn truncated_header_is_incomplete() {
    let bytes = file_of(&good_fields());
    for cut in [0, 3, 4, 7, 8, 11, 12, 16, 17, 40, bytes.len() - 33, bytes.len() - 1] {
        assert_eq!(OuterHeader::parse(&bytes[..cut]), Err(Error::IncompleteInput));
    }
}

#[test]
fn changed_header_or_digest_is_a_hash_mismatch() {
    let bytes = file_of(&good_fields());
    let mut seed = bytes.clone();
    seed[50] ^= 0x04;
    assert_eq!(OuterHeader::parse(&seed), Err(Error::HeaderHashMismatch));
    let mut minor = bytes.clone();
    minor[8] ^= 0x01;
    assert_eq!(OuterHeader::parse(&minor), Err(Error::HeaderHashMismatch));
    let mut digest = bytes.clone();
    let last = digest.len() - 1;
    digest[last] ^= 0x80;
    assert_eq!(OuterHeader::parse(&digest), Err(Error::HeaderHashMismatch));
}

#[test]
fn digest_is_checked_before_the_fields_are_looked_into() {
    let mut fields = good_fields();
    fields.push(tlv(9, b"?"));
    let mut bytes = file_of(&fields);
    let last = bytes.len() - 1;
    bytes[last] ^= 1;
    assert_eq!(OuterHeader::parse(&bytes), Err(Error::HeaderHashMismatch));
}

#[test]
fn unknown_field_is_malformed() {
    let mut fields = good_fields();
    fields.insert(1, tlv(9, b"?"));
    assert_eq!(
        OuterHeader::parse(&file_of(&fields)),
        Err(Error::MalformedHeader(9, HeaderFault::UnknownField))
    );
}

#[test]
fn second_field_of_a_kind_is_malformed() {
    let mut fields = good_fields();
    fields.push(tlv(4, &[9u8; 32]));
    assert_eq!(
        OuterHeader::parse(&file_of(&fields)),
        Err(Error::MalformedHeader(4, HeaderFault::Duplicate))
    );
}

#[test]
fn missing_field_is_named_by_the_lowest_identifier() {
    for (index, id) in [(0usize, 2u8), (1, 3), (2, 4), (3, 7), (4, 11)] {
        let mut fields = good_fields();
        fields.remove(index);
        assert_eq!(
            OuterHeader::parse(&file_of(&fields)),
            Err(Error::MissingRequiredHeaderField(id))
        );
    }
    assert_eq!(OuterHeader::parse(&file_of(&[])), Err(Error::MissingRequiredHeaderField(2)));
}

#[test]
fn unknown_cipher_is_named_by_its_uuid() {
    let mut fields = good_fields();
    fields[0] = tlv(2, &[0x11u8; 16]);
    assert_eq!(OuterHeader::parse(&file_of(&fields)), Err(Error::UnknownCipher([0x11u8; 16])));
}

#[test]
fn payloads_of_wrong_length_or_value_are_malformed() {
    let cases: Vec<(usize, Vec<u8>, Error)> = vec![
        (0, tlv(2, &AES[..15]), Error::MalformedHeader(2, HeaderFault::Length)),
        (1, tlv(3, &[0, 0]), Error::MalformedHeader(3, HeaderFault::Length)),
        (1, tlv(3, &2u32.to_le_bytes()), Error::MalformedHeader(3, HeaderFault::Value)),
        (2, tlv(4, &[9u8; 31]), Error::MalformedHeader(4, HeaderFault::Length)),
        (3, tlv(7, &[8u8; 12]), Error::MalformedHeader(7, HeaderFault::Length)),
        (4, tlv(11, &[0x00, 0x01]), Error::InvalidVariantDictionary(DictionaryFault::Truncated)),
        (4, tlv(11, &[0x00, 0x01, 0x33]), Error::UnknownVariantType(0x33)),
    ];
    for (index, replacement, expected) in cases {
        let mut fields = good_fields();
        fields[index] = replacement;
        assert_eq!(OuterHeader::parse(&file_of(&fields)), Err(expected));
    }
}

#[test]
fn public_custom_data_must_be_a_dictionary() {
    let mut fields = good_fields();
    fields.push(tlv(12, &[0x00, 0x03, 0x00]));
    assert_eq!(
        OuterHeader::parse(&file_of(&fields)),
        Err(Error::InvalidVariantDictionary(DictionaryFault::Version))
    );
}

#[test]
fn header_with_vector_of_wrong_length_is_not_written() {
    let mut header = sample();
    header.outer_iv = vec![0u8; 16];
    assert_eq!(header.serialize(), Err(Error::MalformedHeader(7, HeaderFault::Length)));
}
