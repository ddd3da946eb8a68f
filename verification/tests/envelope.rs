use kdbx4::envelope::{frame_tag, read_envelope, write_envelope, FRAME_HEAD, MAX_FRAME};
use kdbx4::error::Error;

fn envelope_hex(bytes: &[u8]) -> String {
    bytes.iter().map(|b| format!("{:02x}", b)).collect()
}

const KEY: [u8; 64] = [b'k'; 64];

#[test]
fn envelope_of_nothing_is_the_closing_frame() {
    let written = write_envelope(&[], &KEY);
    assert_eq!(
        envelope_hex(&written),
        "5c0b9cf8bbf24a4d3473c337f844d0a11b52b340d5ff2dced285e0fe46bb9ac800000000"
    );
    assert_eq!(read_envelope(&written, &KEY), Ok(vec![]));
}

#[test]
fn envelope_of_a_short_payload() {
    let written = write_envelope(b"hello", &KEY);
    assert_eq!(
        envelope_hex(&written),
        "b90e14b9ef8632aedd989f524c9e408b5af4c0ae3cb79112033bd7575d87093d\
         0500000068656c6c6f\
         d8c5d48658d0c978db894400358fce4a0e861d2b3cde417e8a9597ae61e78f5e\
         00000000"
    );
    assert_eq!(read_envelope(&written, &KEY), Ok(b"hello".to_vec()));
}

#[test]
fn frame_tag_covers_index_length_and_payload() {
    assert_eq!(
        envelope_hex(&frame_tag(5, b"abc", &KEY)),
        "61499adf3b766ff26d9ba806fef678551c4a0b071393dedfd7e0b9937de5f9f0"
    );
    assert_ne!(frame_tag(5, b"abc", &KEY), frame_tag(6, b"abc", &KEY));
    assert_ne!(frame_tag(5, b"abc", &KEY), frame_tag(5, b"abd", &KEY));
}

#[test]
fn long_data_is_cut_into_frames_of_the_limit() {
    let data: Vec<u8> = (0..(2 * MAX_FRAME + 10)).map(|i| (i % 251) as u8).collect();
    let written = write_envelope(&data, &KEY);
    assert_eq!(written.len(), data.len() + 4 * FRAME_HEAD);
    assert_eq!(&written[32..36], &[0x00, 0x00, 0x10, 0x00]);
    let second = FRAME_HEAD + MAX_FRAME;
    assert_eq!(&written[second + 32..second + 36], &[0x00, 0x00, 0x10, 0x00]);
    let third = 2 * (FRAME_HEAD + MAX_FRAME);
    assert_eq!(&written[third + 32..third + 36], &[10, 0, 0, 0]);
    assert_eq!(read_envelope(&written, &KEY), Ok(data));
}

#[test]
fn data_of_exactly_the_limit_takes_one_frame_and_the_closing_one() {
    let data = vec![7u8; MAX_FRAME];
    let written = write_envelope(&data, &KEY);
    assert_eq!(written.len(), MAX_FRAME + 2 * FRAME_HEAD);
    assert_eq!(read_envelope(&written, &KEY), Ok(data));
}

#[test]
fn what_follows_the_closing_frame_is_not_read() {
    let mut written = write_envelope(b"hello", &KEY);
    written.extend_from_slice(b"trailing");
    assert_eq!(read_envelope(&written, &KEY), Ok(b"hello".to_vec()));
}

#[test]
fn another_key_fails_at_the_first_frame() {
    let written = write_envelope(b"hello", &KEY);
    assert_eq!(
        read_envelope(&written, &[b'x'; 64]),
        Err(Error::MessageAuthenticationFailed(0))
    );
}

#[test]
fn a_changed_tag_fails_at_its_frame() {
    let written = write_envelope(b"hello", &KEY);
    let mut first = written.clone();
    first[3] ^= 0x10;
    assert_eq!(read_envelope(&first, &KEY), Err(Error::MessageAuthenticationFailed(0)));
    let mut closing = written.clone();
    closing[FRAME_HEAD + 5 + 31] ^= 0x01;
    assert_eq!(read_envelope(&closing, &KEY), Err(Error::MessageAuthenticationFailed(1)));
}

#[test]
fn a_changed_payload_fails_at_its_frame() {
    let mut written = write_envelope(b"hello", &KEY);
    written[FRAME_HEAD + 2] ^= 0x80;
    assert_eq!(read_envelope(&written, &KEY), Err(Error::MessageAuthenticationFailed(0)));
}

#[test]
fn swapped_frames_fail() {
    let a = write_envelope(b"hello", &KEY);
    let first = a[..FRAME_HEAD + 5].to_vec();
    let mut doubled = first.clone();
    doubled.extend_from_slice(&first);
    doubled.extend_from_slice(&a[FRAME_HEAD + 5..]);
    assert_eq!(read_envelope(&doubled, &KEY), Err(Error::MessageAuthenticationFailed(1)));
}

#[test]
fn a_frame_over_the_limit_is_refused() {
    let mut bytes = vec![0u8; 32];
    bytes.extend_from_slice(&(MAX_FRAME as u32 + 1).to_le_bytes());
    bytes.extend_from_slice(&vec![0u8; MAX_FRAME + 1]);
    assert_eq!(read_envelope(&bytes, &KEY), Err(Error::MessageAuthenticationFailed(0)));
}

#[test]
fn truncated_envelopes_are_incomplete() {
    let written = write_envelope(b"hello", &KEY);
    assert_eq!(read_envelope(&[], &KEY), Err(Error::IncompleteInput));
    assert_eq!(read_envelope(&written[..35], &KEY), Err(Error::IncompleteInput));
    assert_eq!(read_envelope(&written[..FRAME_HEAD + 4], &KEY), Err(Error::IncompleteInput));
    assert_eq!(read_envelope(&written[..FRAME_HEAD + 5], &KEY), Err(Error::IncompleteInput));
    assert_eq!(
        read_envelope(&written[..written.len() - 1], &KEY),
        Err(Error::IncompleteInput)
    );
}
