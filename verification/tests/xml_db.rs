use chrono::{Datelike, NaiveDateTime, Timelike};
use kdbx4::inner_header::InnerCipher;
use kdbx4::protect::InnerStream;
use kdbx4::xml_db::{
    decode_time, decode_timestamp, decode_uuid, encode_time, encode_timestamp, encode_uuid,
    format_bool, format_tags, get_epoch_baseline, parse_bool, parse_tags, protect_value,
    reveal_value,
};

#[test]
fn epoch_baseline_is_the_first_second_of_year_one() {
    let baseline = get_epoch_baseline();
    assert_eq!(
        baseline,
        NaiveDateTime::parse_from_str("0001-01-01T00:00:00", "%Y-%m-%dT%H:%M:%S").unwrap()
    );
    assert_eq!((baseline.year(), baseline.month(), baseline.day()), (1, 1, 1));
    assert_eq!((baseline.hour(), baseline.minute(), baseline.second()), (0, 0, 0));
    assert_eq!(baseline.nanosecond(), 0);
}

#[test]
fn timestamp_counts_seconds_from_the_baseline() {
    let when: NaiveDateTime = "2000-12-31T12:34:56".parse().unwrap();
    let seconds = when.signed_duration_since(get_epoch_baseline()).num_seconds();
    assert_eq!(seconds, 63_113_862_896);
    assert_eq!(encode_timestamp(seconds), vec![0xF0, 0x1E, 0xE1, 0xB1, 0x0E, 0, 0, 0]);
    let read = decode_timestamp(&[0xF0, 0x1E, 0xE1, 0xB1, 0x0E, 0, 0, 0]).unwrap();
    assert_eq!(get_epoch_baseline() + chrono::Duration::seconds(read), when);
}

#[test]
fn timestamps_before_the_baseline_are_negative() {
    assert_eq!(encode_timestamp(-2), vec![0xFE, 0xFF, 0xFF, 0xFF, 0xFF, 0xFF, 0xFF, 0xFF]);
    assert_eq!(decode_timestamp(&[0xFE, 0xFF, 0xFF, 0xFF, 0xFF, 0xFF, 0xFF, 0xFF]), Some(-2));
    assert_eq!(encode_timestamp(0), vec![0; 8]);
}

#[test]
fn timestamps_are_read_back() {
    for seconds in [0i64, 1, -1, 62_135_596_800, i64::MAX, i64::MIN] {
        assert_eq!(decode_timestamp(&encode_timestamp(seconds)), Some(seconds));
    }
}

#[test]
fn only_eight_bytes_are_a_timestamp() {
    assert_eq!(decode_timestamp(&[]), None);
    assert_eq!(decode_timestamp(&[0; 7]), None);
    assert_eq!(decode_timestamp(&[0; 9]), None);
}

#[test]
fn time_is_written_in_base64() {
    assert_eq!(encode_time(63_113_862_896), b"8B7hsQ4AAAA=".to_vec());
    assert_eq!(encode_time(0), b"AAAAAAAAAAA=".to_vec());
    assert_eq!(decode_time(b"8B7hsQ4AAAA="), Some(63_113_862_896));
    for seconds in [0i64, -1, 1, i64::MIN, i64::MAX, 62_135_596_800] {
        assert_eq!(decode_time(&encode_time(seconds)), Some(seconds));
    }
}

#[test]
fn time_of_a_document_is_a_date_again() {
    for text in ["2000-12-31T12:34:56", "2000-12-31T12:35:03", "0001-01-01T00:00:00"] {
        let when: NaiveDateTime = text.parse().unwrap();
        let seconds = when.signed_duration_since(get_epoch_baseline()).num_seconds();
        let read = decode_time(&encode_time(seconds)).unwrap();
        assert_eq!(get_epoch_baseline() + chrono::Duration::seconds(read), when);
    }
}

#[test]
fn text_that_is_no_time_is_refused() {
    assert_eq!(decode_time(b""), None);
    assert_eq!(decode_time(b"AAAA"), None);
    assert_eq!(decode_time(b"8B7hsQ4AAAA"), None);
    assert_eq!(decode_time(b"8B7hsQ4AAAA!"), None);
    assert_eq!(decode_time(b"2000-12-31T12:34:56"), None);
    assert_eq!(decode_time(b"AAAAAAAAAAAAAA=="), None);
}

#[test]
fn uuid_is_written_in_base64() {
    let mut uuid = [0u8; 16];
    for (i, b) in uuid.iter_mut().enumerate() {
        *b = i as u8;
    }
    assert_eq!(encode_uuid(&uuid), b"AAECAwQFBgcICQoLDA0ODw==".to_vec());
    assert_eq!(decode_uuid(b"AAECAwQFBgcICQoLDA0ODw=="), Some(uuid));
    assert_eq!(decode_uuid(b"AAECAwQFBgcICQoLDA0O"), None);
    assert_eq!(decode_uuid(b"a-fake-uuid"), None);
}

#[test]
fn protected_values_are_masked_and_written_in_base64() {
    let mut writer = InnerStream::new(InnerCipher::ChaCha20, &[b'K'; 64]).unwrap();
    let first = protect_value(&mut writer, b"klmno").unwrap();
    let second = protect_value(&mut writer, b"custom-data-value").unwrap();
    assert_eq!(first, b"Th4YBmI=".to_vec());
    assert_eq!(second, b"tAWyD0Tfi+rhTYkmfmaWKJc=".to_vec());
    let mut reader = InnerStream::new(InnerCipher::ChaCha20, &[b'K'; 64]).unwrap();
    assert_eq!(reveal_value(&mut reader, &first), Some(b"klmno".to_vec()));
    assert_eq!(reveal_value(&mut reader, &second), Some(b"custom-data-value".to_vec()));
}

#[test]
fn protected_values_in_another_order_are_both_corrupted() {
    let mut writer = InnerStream::new(InnerCipher::Salsa20, &[9u8; 32]).unwrap();
    let first = protect_value(&mut writer, b"klmno").unwrap();
    let second = protect_value(&mut writer, b"custom-data-value").unwrap();
    let mut reader = InnerStream::new(InnerCipher::Salsa20, &[9u8; 32]).unwrap();
    let second_read = reveal_value(&mut reader, &second).unwrap();
    let first_read = reveal_value(&mut reader, &first).unwrap();
    assert_eq!(second_read.len(), 17);
    assert_ne!(second_read, b"custom-data-value".to_vec());
    assert_ne!(first_read, b"klmno".to_vec());
}

#[test]
fn protected_value_that_is_no_base64_takes_no_keystream() {
    let mut reader = InnerStream::new(InnerCipher::ChaCha20, &[b'K'; 64]).unwrap();
    assert_eq!(reveal_value(&mut reader, b"not base64!"), None);
    assert_eq!(reveal_value(&mut reader, b"Th4YBmI="), Some(b"klmno".to_vec()));
}

#[test]
fn truth_values_are_read_in_either_case() {
    for text in [&b"True"[..], b"true", b"TRUE", b"tRuE"] {
        assert_eq!(parse_bool(text), Some(true));
    }
    for text in [&b"False"[..], b"false", b"FALSE", b"fAlSe"] {
        assert_eq!(parse_bool(text), Some(false));
    }
    for text in [&b""[..], b"yes", b"1", b"true ", b" true", b"truee", b"fals", b"null", b"tr-e"] {
        assert_eq!(parse_bool(text), None);
    }
    assert_eq!(parse_bool(&[0x54, 0x52, 0x55, 0x45 | 0x80]), None);
    assert_eq!(parse_bool(&[0x14, 0x72, 0x75, 0x65]), None);
}

#[test]
fn truth_values_are_written_with_a_capital() {
    assert_eq!(format_bool(true), b"True".to_vec());
    assert_eq!(format_bool(false), b"False".to_vec());
    assert_eq!(parse_bool(&format_bool(true)), Some(true));
    assert_eq!(parse_bool(&format_bool(false)), Some(false));
}

#[test]
fn tags_are_parted_by_semicolons_or_commas() {
    let tags = |text: &[u8]| -> Vec<String> {
        parse_tags(text).into_iter().map(|t| String::from_utf8(t).unwrap()).collect()
    };
    assert_eq!(tags(b"test;keepass-rs"), vec!["test", "keepass-rs"]);
    assert_eq!(tags(b"test,keepass-rs"), vec!["test", "keepass-rs"]);
    assert_eq!(tags(b"a;b,c"), vec!["a", "b", "c"]);
    assert_eq!(tags(b"one"), vec!["one"]);
    assert_eq!(tags(b""), Vec::<String>::new());
    assert_eq!(tags(b";"), Vec::<String>::new());
    assert_eq!(tags(b";a;;b,"), vec!["a", "b"]);
    assert_eq!(tags(b"a b; c"), vec!["a b", " c"]);
}

#[test]
fn tags_are_written_with_semicolons() {
    let tags = vec![b"test".to_vec(), b"keepass-rs".to_vec()];
    assert_eq!(format_tags(&tags), b"test;keepass-rs".to_vec());
    assert_eq!(format_tags(&vec![b"one".to_vec()]), b"one".to_vec());
    assert_eq!(format_tags(&vec![]), Vec::<u8>::new());
    assert_eq!(parse_tags(&format_tags(&tags)), tags);
}
