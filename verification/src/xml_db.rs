//! The values of the document of a database as they are written in it.
//!
//! Time is counted in whole seconds since the first second of the year 1,
//! without a time zone, and written as eight bytes in Base64. A UUID is its
//! sixteen bytes in Base64. A protected value is masked with the next bytes
//! of the stream of the document and then written in Base64.

use crate::bytes::{
    array_of, bits_i64, i64_bits, i64_from_bits, i64_to_bits, lemma_signed_bits, to_array,
};
use crate::bytes::bytes_equal;
use crate::crypt::ciphers::{lemma_masked_twice, masked, reach};
use crate::protect::InnerStream;
use base64::engine::general_purpose::STANDARD;
use base64::Engine;
use vstd::bytes::{
    lemma_auto_spec_u64_to_from_le_bytes, spec_u64_from_le_bytes, spec_u64_to_le_bytes,
    u64_from_le_bytes, u64_to_le_bytes,
};
use vstd::prelude::*;

verus! {

/// `chrono::NaiveDate`: a day of the calendar, without a time zone.
#[verifier::external_type_specification]
#[verifier::external_body]
pub struct ExNaiveDate(chrono::NaiveDate);

/// `chrono::NaiveDateTime`: a day and a time of day, without a time zone.
#[verifier::external_type_specification]
#[verifier::external_body]
pub struct ExNaiveDateTime(chrono::NaiveDateTime);

/// The year, month and day that a date stands for.
pub uninterp spec fn calendar_date(date: chrono::NaiveDate) -> (i32, u32, u32);

/// The year, month, day, hour, minute and second that a date and time
/// stand for.
pub uninterp spec fn calendar_time(when: chrono::NaiveDateTime) -> (i32, u32, u32, u32, u32, u32);

/// The part of a second, in nanoseconds, that a date and time holds beyond
/// its whole seconds.
pub uninterp spec fn calendar_nanosecond(when: chrono::NaiveDateTime) -> u32;

/// `chrono::NaiveDate::from_ymd_opt`: the date of the given year, month and
/// day. Every year that the type holds has the days 1 to 28 in each of its
/// twelve months, so those are never refused.
pub assume_specification[ chrono::NaiveDate::from_ymd_opt ](year: i32, month: u32, day: u32) -> (r:
    Option<chrono::NaiveDate>)
    ensures
        -262143 <= year <= 262142 && 1 <= month <= 12 && 1 <= day <= 28 ==> r is Some,
        r is Some ==> calendar_date(r.unwrap()) == (year, month, day),
;

/// `chrono::NaiveDate::and_hms_opt`: the given hour, minute and second of
/// the date, with no part of a second beyond them; refused only for an hour
/// from 24, a minute or a second from 60 on.
pub assume_specification[ chrono::NaiveDate::and_hms_opt ](
    date: &chrono::NaiveDate,
    hour: u32,
    min: u32,
    sec: u32,
) -> (r: Option<chrono::NaiveDateTime>)
    ensures
        hour < 24 && min < 60 && sec < 60 ==> r is Some,
        r is Some ==> calendar_time(r.unwrap()) == (
            calendar_date(*date).0,
            calendar_date(*date).1,
            calendar_date(*date).2,
            hour,
            min,
            sec,
        ),
        r is Some ==> calendar_nanosecond(r.unwrap()) == 0,
;

/// The moment from which the timestamps of a database count:
/// 0001-01-01T00:00:00.
pub fn get_epoch_baseline() -> (r: chrono::NaiveDateTime)
    ensures
        calendar_time(r) == (1i32, 1u32, 1u32, 0u32, 0u32, 0u32),
        calendar_nanosecond(r) == 0,
{
    let date = chrono::NaiveDate::from_ymd_opt(1, 1, 1).unwrap();
    date.and_hms_opt(0, 0, 0).unwrap()
}

/// The eight bytes of a timestamp: its seconds in two's complement,
/// least significant byte first.
pub open spec fn timestamp_bytes(seconds: i64) -> Seq<u8> {
    spec_u64_to_le_bytes(i64_bits(seconds))
}

/// The timestamp that the bytes spell, if they are eight.
pub open spec fn timestamp_of(bytes: Seq<u8>) -> Option<i64> {
    if bytes.len() == 8 {
        Some(bits_i64(spec_u64_from_le_bytes(bytes)))
    } else {
        None
    }
}

/// Writes a timestamp, given in seconds since the epoch baseline.
pub fn encode_timestamp(seconds: i64) -> (bytes: Vec<u8>)
    ensures
        bytes@ == timestamp_bytes(seconds),
{
    u64_to_le_bytes(i64_to_bits(seconds))
}

/// Reads a timestamp, in seconds since the epoch baseline.
pub fn decode_timestamp(bytes: &[u8]) -> (r: Option<i64>)
    ensures
        r == timestamp_of(bytes@),
{
    if bytes.len() == 8 {
        Some(i64_from_bits(u64_from_le_bytes(bytes)))
    } else {
        None
    }
}

/// Reading a timestamp that was written gives it back, and only eight
/// bytes are a timestamp.
pub proof fn lemma_timestamp_round_trip(seconds: i64)
    ensures
        timestamp_bytes(seconds).len() == 8,
        timestamp_of(timestamp_bytes(seconds)) == Some(seconds),
{
    lemma_auto_spec_u64_to_from_le_bytes();
    lemma_signed_bits(0, 0, seconds, 0);
}

/// Whether as many bytes can be written in Base64 at once: the length of
/// their Base64 form, four bytes for every three, is a length that the
/// machine has.
pub open spec fn encodable(length: nat) -> bool {
    length / 3 < usize::MAX / 4
}

/// The Base64 form of bytes: standard alphabet, padded.
pub uninterp spec fn base64_text(data: Seq<u8>) -> Seq<u8>;

/// The bytes that a text spells in Base64, where it spells any.
pub uninterp spec fn base64_bytes(text: Seq<u8>) -> Option<Seq<u8>>;

/// `Engine::encode` on `base64::engine::general_purpose::STANDARD`: the
/// Base64 form of the bytes, which decodes to them. It is made of letters,
/// digits, `+`, `/` and `=`, so that no `<` stands in it.
#[verifier::external_body]
pub(crate) fn base64_encode(data: &[u8]) -> (text: Vec<u8>)
    requires
        encodable(data@.len()),
    ensures
        text@ == base64_text(data@),
        base64_bytes(text@) == Some(data@),
        forall|i: int| 0 <= i < text@.len() ==> text@[i] != 0x3C,
{
    STANDARD.encode(data).into_bytes()
}

/// `Engine::decode` on `base64::engine::general_purpose::STANDARD`: the
/// bytes that the text spells, or nothing where it is no Base64.
#[verifier::external_body]
pub(crate) fn base64_decode(text: &[u8]) -> (r: Option<Vec<u8>>)
    ensures
        r is Some <==> base64_bytes(text@) is Some,
        r is Some ==> r.unwrap()@ == base64_bytes(text@).unwrap(),
{
    STANDARD.decode(text).ok()
}

/// Whether bytes can be put in a document and found there again: their
/// Base64 form decodes to them and holds no `<`.
pub open spec fn decodable(data: Seq<u8>) -> bool {
    base64_bytes(base64_text(data)) == Some(data) && forall|i: int|
        0 <= i < base64_text(data).len() ==> (#[trigger] base64_text(data)[i]) != 0x3C
}

/// The timestamp that a text spells: Base64 of eight bytes.
pub open spec fn time_of(text: Seq<u8>) -> Option<i64> {
    match base64_bytes(text) {
        Some(bytes) => timestamp_of(bytes),
        None => None,
    }
}

/// The UUID that a text spells: Base64 of sixteen bytes.
pub open spec fn uuid_of(text: Seq<u8>) -> Option<[u8; 16]> {
    match base64_bytes(text) {
        Some(bytes) => if bytes.len() == 16 {
            Some(array_of::<16>(bytes))
        } else {
            None
        },
        None => None,
    }
}

/// Writes a timestamp as the document holds it. What is written reads back
/// as the timestamp.
pub fn encode_time(seconds: i64) -> (text: Vec<u8>)
    ensures
        text@ == base64_text(timestamp_bytes(seconds)),
        time_of(text@) == Some(seconds),
{
    proof {
        lemma_timestamp_round_trip(seconds);
    }
    let bytes = encode_timestamp(seconds);
    base64_encode(bytes.as_slice())
}

/// Reads a timestamp as the document holds it; nothing where the text is
/// no Base64 or spells other than eight bytes.
pub fn decode_time(text: &[u8]) -> (r: Option<i64>)
    ensures
        r == time_of(text@),
{
    match base64_decode(text) {
        Some(bytes) => decode_timestamp(bytes.as_slice()),
        None => None,
    }
}

/// Writes a UUID as the document holds it. What is written reads back as
/// the UUID.
pub fn encode_uuid(uuid: &[u8; 16]) -> (text: Vec<u8>)
    ensures
        text@ == base64_text(uuid@),
        uuid_of(text@) == Some(*uuid),
{
    let text = base64_encode(uuid.as_slice());
    assert(array_of::<16>(uuid@) =~= *uuid) by {
        assert(array_of::<16>(uuid@)@ == uuid@);
    }
    text
}

/// Reads a UUID as the document holds it; nothing where the text is no
/// Base64 or spells other than sixteen bytes.
pub fn decode_uuid(text: &[u8]) -> (r: Option<[u8; 16]>)
    ensures
        r == uuid_of(text@),
{
    match base64_decode(text) {
        Some(bytes) => {
            if bytes.len() == 16 {
                Some(to_array::<16>(bytes.as_slice()))
            } else {
                None
            }
        },
        None => None,
    }
}

/// Writes the next protected value: masks it with the next bytes of the
/// stream and writes that in Base64. Nothing, and no keystream taken, where
/// the value is longer than can be written in Base64 at once or the
/// keystream ends before the value does.
pub fn protect_value(stream: &mut InnerStream, value: &[u8]) -> (r: Option<Vec<u8>>)
    ensures
        final(stream).cipher() == old(stream).cipher(),
        final(stream).key() == old(stream).key(),
        final(stream).nonce() == old(stream).nonce(),
        match r {
            Some(text) => {
                &&& encodable(value@.len())
                &&& old(stream).position() + value@.len() <= reach(old(stream).cipher())
                &&& final(stream).position() == old(stream).position() + value@.len()
                &&& text@ == base64_text(
                    masked(
                        old(stream).cipher(),
                        old(stream).key(),
                        old(stream).nonce(),
                        old(stream).position() as int,
                        value@,
                    ),
                )
                &&& revealed(
                    old(stream).cipher(),
                    old(stream).key(),
                    old(stream).nonce(),
                    old(stream).position() as int,
                    text@,
                ) == Some(value@)
                &&& decodable(
                    masked(
                        old(stream).cipher(),
                        old(stream).key(),
                        old(stream).nonce(),
                        old(stream).position() as int,
                        value@,
                    ),
                )
            },
            None => (!encodable(value@.len()) || old(stream).position() + value@.len() > reach(
                old(stream).cipher(),
            )) && final(stream).position() == old(stream).position(),
        },
{
    if value.len() / 3 >= usize::MAX / 4 {
        return None;
    }
    proof {
        lemma_masked_twice(
            stream.cipher(),
            stream.key(),
            stream.nonce(),
            stream.position() as int,
            value@,
        );
    }
    match stream.xor_next(value) {
        Some(hidden) => Some(base64_encode(hidden.as_slice())),
        None => None,
    }
}

/// What a protected value is, read at the given position of a stream:
/// the bytes that the text spells in Base64, unmasked.
pub open spec fn revealed(
    cipher: crate::inner_header::InnerCipher,
    key: Seq<u8>,
    nonce: Seq<u8>,
    position: int,
    text: Seq<u8>,
) -> Option<Seq<u8>> {
    match base64_bytes(text) {
        Some(hidden) => if position + hidden.len() <= reach(cipher) {
            Some(masked(cipher, key, nonce, position, hidden))
        } else {
            None
        },
        None => None,
    }
}

/// Reads the next protected value: takes what the text spells in Base64
/// and unmasks it with the next bytes of the stream. Nothing, and no
/// keystream taken, where the text is no Base64 or the keystream ends
/// before the value does.
pub fn reveal_value(stream: &mut InnerStream, text: &[u8]) -> (r: Option<Vec<u8>>)
    ensures
        final(stream).cipher() == old(stream).cipher(),
        final(stream).key() == old(stream).key(),
        final(stream).nonce() == old(stream).nonce(),
        match r {
            Some(value) => {
                &&& revealed(
                    old(stream).cipher(),
                    old(stream).key(),
                    old(stream).nonce(),
                    old(stream).position() as int,
                    text@,
                ) == Some(value@)
                &&& final(stream).position() == old(stream).position() + value@.len()
            },
            None => revealed(
                old(stream).cipher(),
                old(stream).key(),
                old(stream).nonce(),
                old(stream).position() as int,
                text@,
            ) is None && final(stream).position() == old(stream).position(),
        },
{
    match base64_decode(text) {
        Some(hidden) => stream.xor_next(hidden.as_slice()),
        None => None,
    }
}

/// A letter as its small letter, any other byte as it is.
pub open spec fn lower(b: u8) -> u8 {
    if 0x41 <= b <= 0x5A {
        (b + 0x20) as u8
    } else {
        b
    }
}

/// The text `true` in small letters.
pub open spec fn text_true() -> Seq<u8> {
    seq![0x74u8, 0x72, 0x75, 0x65]
}

/// The text `false` in small letters.
pub open spec fn text_false() -> Seq<u8> {
    seq![0x66u8, 0x61, 0x6C, 0x73, 0x65]
}

/// The truth value that a text spells: `true` or `false`, in letters of
/// either case.
pub open spec fn bool_of(text: Seq<u8>) -> Option<bool> {
    if text.map_values(|b: u8| lower(b)) == text_true() {
        Some(true)
    } else if text.map_values(|b: u8| lower(b)) == text_false() {
        Some(false)
    } else {
        None
    }
}

/// The text that a truth value is written as: `True` or `False`.
pub open spec fn bool_text(value: bool) -> Seq<u8> {
    if value {
        seq![0x54u8, 0x72, 0x75, 0x65]
    } else {
        seq![0x46u8, 0x61, 0x6C, 0x73, 0x65]
    }
}

/// Reads a truth value.
pub fn parse_bool(text: &[u8]) -> (r: Option<bool>)
    ensures
        r == bool_of(text@),
{
    let mut small: Vec<u8> = Vec::new();
    let mut i: usize = 0;
    while i < text.len()
        invariant
            0 <= i <= text@.len(),
            small@ == text@.take(i as int).map_values(|b: u8| lower(b)),
        decreases text@.len() - i,
    {
        let b: u8 = text[i];
        let l: u8 = if 0x41 <= b && b <= 0x5A {
            b + 0x20
        } else {
            b
        };
        small.push(l);
        assert(small@ =~= text@.take(i + 1).map_values(|b: u8| lower(b)));
        i += 1;
    }
    assert(text@.take(i as int) =~= text@);
    let yes: [u8; 4] = [0x74, 0x72, 0x75, 0x65];
    let no: [u8; 5] = [0x66, 0x61, 0x6C, 0x73, 0x65];
    assert(yes@ =~= text_true());
    assert(no@ =~= text_false());
    if bytes_equal(small.as_slice(), yes.as_slice()) {
        Some(true)
    } else if bytes_equal(small.as_slice(), no.as_slice()) {
        Some(false)
    } else {
        None
    }
}

/// Writes a truth value. What is written reads back as the value.
pub fn format_bool(value: bool) -> (text: Vec<u8>)
    ensures
        text@ == bool_text(value),
        bool_of(text@) == Some(value),
{
    let text: Vec<u8> = if value {
        vec![0x54u8, 0x72, 0x75, 0x65]
    } else {
        vec![0x46u8, 0x61, 0x6C, 0x73, 0x65]
    };
    assert(text@ =~= bool_text(value));
    assert(bool_text(true).map_values(|b: u8| lower(b)) =~= text_true());
    assert(bool_text(false).map_values(|b: u8| lower(b)) =~= text_false());
    assert(text_true().len() != text_false().len());
    text
}

/// Whether a byte parts one tag from the next: a semicolon or a comma.
pub open spec fn is_separator(b: u8) -> bool {
    b == 0x3B || b == 0x2C
}

/// The tags that a text holds from `at` on, where a tag began at `start`:
/// what stands between separators, without what is empty.
pub open spec fn tags_from(text: Seq<u8>, start: int, at: int) -> Seq<Seq<u8>>
    decreases text.len() - at,
{
    if at >= text.len() {
        if start < text.len() {
            seq![text.subrange(start, text.len() as int)]
        } else {
            Seq::empty()
        }
    } else if is_separator(text[at]) {
        if start < at {
            seq![text.subrange(start, at)] + tags_from(text, at + 1, at + 1)
        } else {
            tags_from(text, at + 1, at + 1)
        }
    } else {
        tags_from(text, start, at + 1)
    }
}

/// The tags that a text holds.
pub open spec fn tags_of(text: Seq<u8>) -> Seq<Seq<u8>> {
    tags_from(text, 0, 0)
}

/// The text that holds the tags: the tags with a semicolon between each
/// two.
pub open spec fn tags_text(tags: Seq<Seq<u8>>) -> Seq<u8>
    decreases tags.len(),
{
    if tags.len() == 0 {
        Seq::empty()
    } else if tags.len() == 1 {
        tags[0]
    } else {
        tags_text(tags.drop_last()) + seq![0x3Bu8] + tags.last()
    }
}

/// What the tags are.
pub open spec fn tags_view(tags: Seq<Vec<u8>>) -> Seq<Seq<u8>> {
    tags.map_values(|t: Vec<u8>| t@)
}

/// Reads tags.
pub fn parse_tags(text: &[u8]) -> (tags: Vec<Vec<u8>>)
    ensures
        tags_view(tags@) == tags_of(text@),
{
    let mut tags: Vec<Vec<u8>> = Vec::new();
    let mut start: usize = 0;
    let mut at: usize = 0;
    assert(tags_view(tags@) + tags_of(text@) =~= tags_of(text@));
    while at < text.len()
        invariant
            0 <= start <= at <= text@.len(),
            tags_of(text@) == tags_view(tags@) + tags_from(text@, start as int, at as int),
        decreases text@.len() - at,
    {
        let b: u8 = text[at];
        if b == 0x3B || b == 0x2C {
            if start < at {
                let ghost before = tags_view(tags@);
                let ghost rest = tags_from(text@, at + 1, at + 1);
                let tag = vstd::slice::slice_to_vec(vstd::slice::slice_subrange(text, start, at));
                tags.push(tag);
                assert(tags_view(tags@) =~= before.push(tag@));
                assert(before + (seq![tag@] + rest) =~= before.push(tag@) + rest);
            }
            start = at + 1;
        }
        at += 1;
    }
    if start < text.len() {
        let ghost before = tags_view(tags@);
        let tag = vstd::slice::slice_to_vec(vstd::slice::slice_subrange(text, start, text.len()));
        tags.push(tag);
        assert(tags_view(tags@) =~= before + seq![tag@]);
    } else {
        assert(tags_view(tags@) + Seq::<Seq<u8>>::empty() =~= tags_view(tags@));
    }
    tags
}

/// Writes tags.
pub fn format_tags(tags: &Vec<Vec<u8>>) -> (text: Vec<u8>)
    ensures
        text@ == tags_text(tags_view(tags@)),
{
    let mut text: Vec<u8> = Vec::new();
    let mut i: usize = 0;
    let ghost all = tags_view(tags@);
    while i < tags.len()
        invariant
            0 <= i <= tags@.len(),
            all == tags_view(tags@),
            text@ == tags_text(all.take(i as int)),
        decreases tags@.len() - i,
    {
        assert(all.take(i + 1).drop_last() =~= all.take(i as int));
        assert(all.take(i + 1).last() == tags@[i as int]@);
        if i > 0 {
            text.push(0x3B);
        }
        crate::bytes::append(&mut text, tags[i].as_slice());
        proof {
            if i == 0 {
                assert(all.take(1)[0] == tags@[0]@);
                assert(text@ =~= tags@[0]@);
            } else {
                assert(text@ =~= tags_text(all.take(i as int)) + seq![0x3Bu8] + tags@[i as int]@);
            }
        }
        i += 1;
    }
    assert(all.take(i as int) =~= all);
    text
}

/// Whether a tag can be written and read back: it is not empty and holds
/// no separator.
pub open spec fn plain_tag(tag: Seq<u8>) -> bool {
    tag.len() > 0 && forall|i: int| 0 <= i < tag.len() ==> !is_separator(#[trigger] tag[i])
}

/// A stretch without a separator, up to a separator or to the end of the
/// text, is one tag.
proof fn lemma_tag_scanned(text: Seq<u8>, start: int, at: int, end: int)
    requires
        0 <= start <= at <= end <= text.len(),
        forall|i: int| start <= i < end ==> !is_separator(#[trigger] text[i]),
        end < text.len() ==> is_separator(text[end]),
    ensures
        tags_from(text, start, at) == (if start < end {
            seq![text.subrange(start, end)]
        } else {
            Seq::<Seq<u8>>::empty()
        }) + (if end < text.len() {
            tags_from(text, end + 1, end + 1)
        } else {
            Seq::<Seq<u8>>::empty()
        }),
    decreases end - at,
{
    if at < end {
        lemma_tag_scanned(text, start, at + 1, end);
    } else if end < text.len() {
        if start >= end {
            assert(Seq::<Seq<u8>>::empty() + tags_from(text, end + 1, end + 1) =~= tags_from(
                text,
                end + 1,
                end + 1,
            ));
        }
    } else {
        if start < end {
            assert(seq![text.subrange(start, end)] + Seq::<Seq<u8>>::empty() =~= seq![
                text.subrange(start, end),
            ]);
        } else {
            assert(Seq::<Seq<u8>>::empty() + Seq::<Seq<u8>>::empty() =~= Seq::<Seq<u8>>::empty());
        }
    }
}

/// A text with a semicolon and one tag more holds the tags of the text and
/// then that tag.
proof fn lemma_tag_appended(text: Seq<u8>, tag: Seq<u8>, start: int, at: int)
    requires
        0 <= start <= at <= text.len(),
        plain_tag(tag),
    ensures
        tags_from(text + seq![0x3Bu8] + tag, start, at) == tags_from(text, start, at) + seq![tag],
    decreases text.len() - at,
{
    let longer = text + seq![0x3Bu8] + tag;
    let n = text.len() as int;
    if at == n {
        assert(is_separator(longer[n]));
        assert forall|i: int| n + 1 <= i < longer.len() implies !is_separator(
            #[trigger] longer[i],
        ) by {
            assert(longer[i] == tag[i - n - 1]);
        }
        lemma_tag_scanned(longer, n + 1, n + 1, longer.len() as int);
        assert(longer.subrange(n + 1, longer.len() as int) =~= tag);
        assert(seq![tag] + Seq::<Seq<u8>>::empty() =~= seq![tag]);
        if start < n {
            assert(longer.subrange(start, n) =~= text.subrange(start, n));
        } else {
            assert(Seq::<Seq<u8>>::empty() + seq![tag] =~= seq![tag]);
        }
    } else {
        assert(longer[at] == text[at]);
        if is_separator(text[at]) {
            lemma_tag_appended(text, tag, at + 1, at + 1);
            if start < at {
                assert(longer.subrange(start, at) =~= text.subrange(start, at));
                let piece = seq![text.subrange(start, at)];
                let rest = tags_from(text, at + 1, at + 1);
                assert(piece + (rest + seq![tag]) =~= (piece + rest) + seq![tag]);
            }
        } else {
            lemma_tag_appended(text, tag, start, at + 1);
        }
    }
}

/// Reading the text of tags gives the tags back, where none of them is
/// empty or holds a separator.
pub proof fn lemma_tags_round_trip(tags: Seq<Seq<u8>>)
    requires
        forall|i: int| 0 <= i < tags.len() ==> plain_tag(#[trigger] tags[i]),
    ensures
        tags_of(tags_text(tags)) == tags,
    decreases tags.len(),
{
    if tags.len() == 0 {
        assert(tags =~= Seq::<Seq<u8>>::empty());
    } else if tags.len() == 1 {
        let tag = tags[0];
        assert(plain_tag(tag));
        lemma_tag_scanned(tag, 0, 0, tag.len() as int);
        assert(tag.subrange(0, tag.len() as int) =~= tag);
        assert(seq![tag] + Seq::<Seq<u8>>::empty() =~= tags);
    } else {
        let init = tags.drop_last();
        assert forall|i: int| 0 <= i < init.len() implies plain_tag(#[trigger] init[i]) by {
            assert(init[i] == tags[i]);
        }
        lemma_tags_round_trip(init);
        assert(plain_tag(tags.last()));
        lemma_tag_appended(tags_text(init), tags.last(), 0, 0);
        assert(init + seq![tags.last()] =~= tags);
    }
}

} // verus!
