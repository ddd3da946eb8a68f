//! A file as a whole: the outer header, its digest, its tag, and the
//! envelope that holds the encrypted payload.
//!
//! Reading checks the digest of the header, derives the HMAC key from the
//! master seed and the composite hash, checks the tag of the header and then
//! every frame of the envelope. Nothing of the payload is handed out unless
//! all of that held.

use crate::bytes::{append, bytes_equal, wipe};
use crate::crypt::{calculate_hmac, calculate_sha256, hmac_sha256, lemma_concat_few, sha256};
use crate::envelope::{
    lemma_changed_payload_is_refused, lemma_changed_tag_is_refused, lemma_opened_sealed, opened,
    payload_at, payload_retagged, read_envelope, result_view, sealed, tag_at, write_envelope,
};
use crate::error::Error;
use crate::header::{
    header_bytes, lemma_parse_written_header, parse_header, well_formed, write_fault, Header,
    OuterHeader, Parsed, DIGEST, PRELUDE,
};
use crate::key::{block_key, derive_block_key, derive_hmac_key, hmac_key};
use crate::tlv::{lemma_walk_prefix, lemma_walk_used, walk};
use vstd::prelude::*;
use vstd::slice::slice_subrange;

verus! {

/// The index under which the header is authenticated.
pub const HEADER_INDEX: u64 = 0xFFFF_FFFF_FFFF_FFFF;

/// What a file holds before anything is decrypted.
#[derive(Debug, Clone, PartialEq, Eq)]
pub struct Container {
    pub header: OuterHeader,
    /// The payload as the envelope holds it: encrypted.
    pub payload: Vec<u8>,
}

/// What a container is.
pub struct Content {
    pub header: Header,
    pub payload: Seq<u8>,
}

impl View for Container {
    type V = Content;

    open spec fn view(&self) -> Content {
        Content { header: self.header@, payload: self.payload@ }
    }
}

/// The container of a result, or its error.
pub open spec fn container_view(r: Result<Container, Error>) -> Result<Content, Error> {
    match r {
        Ok(c) => Ok(c@),
        Err(e) => Err(e),
    }
}

/// The tag of a header: HMAC-SHA256 of its bytes under the key of the frame
/// with the index `u64::MAX`.
pub open spec fn header_mac(header: Seq<u8>, hmac_key: Seq<u8>) -> [u8; 32] {
    hmac_sha256(block_key(HEADER_INDEX, hmac_key)@, header)
}

/// The bytes of a file with the given header and payload, under the given
/// composite hash.
pub open spec fn container_bytes(header: Header, payload: Seq<u8>, composite: Seq<u8>) -> Seq<u8> {
    let written = header_bytes(header);
    let key = hmac_key(header.master_seed, composite)@;
    written + sha256(written)@ + header_mac(written, key)@ + sealed(payload, key, 0)
}

/// What follows a header of `length` bytes and its digest: the payload of
/// the envelope, where the tag of the header and those of the frames hold
/// under the key. A tag of the header that does not hold is
/// `MessageAuthenticationFailed` with the index `u64::MAX`.
pub open spec fn authenticated(bytes: Seq<u8>, length: int, hmac_key: Seq<u8>) -> Result<
    Seq<u8>,
    Error,
> {
    let at = length + DIGEST;
    if bytes.len() < at + DIGEST {
        Err(Error::IncompleteInput)
    } else if bytes.subrange(at, at + DIGEST) != header_mac(bytes.take(length), hmac_key)@ {
        Err(Error::MessageAuthenticationFailed(HEADER_INDEX))
    } else {
        opened(bytes.skip(at + DIGEST), hmac_key, 0)
    }
}

/// What reading a file gives under the given composite hash: its header and
/// payload, or the first fault met.
pub open spec fn open_container(bytes: Seq<u8>, composite: Seq<u8>) -> Result<Content, Error> {
    match parse_header(bytes) {
        Err(e) => Err(e),
        Ok(p) => match authenticated(
            bytes,
            p.length,
            hmac_key(p.header.master_seed, composite)@,
        ) {
            Err(e) => Err(e),
            Ok(payload) => Ok(Content { header: p.header, payload }),
        },
    }
}

/// Computes the tag of a header.
pub fn header_tag(header: &[u8], hmac_key: &[u8]) -> (tag: [u8; 32])
    ensures
        tag == header_mac(header@, hmac_key@),
{
    let mut key = derive_block_key(HEADER_INDEX, hmac_key);
    let parts: [&[u8]; 1] = [header];
    let segments: &[&[u8]] = parts.as_slice();
    proof {
        lemma_concat_few(segments);
    }
    let tag = calculate_hmac(segments, key.as_slice()).unwrap();
    wipe(&mut key);
    tag
}

/// Checks the tag of the header and the envelope that follows it, and
/// returns the payload of the envelope.
pub(crate) fn authenticate(bytes: &[u8], length: usize, hmac_key: &[u8]) -> (r: Result<Vec<u8>, Error>)
    requires
        length + DIGEST <= bytes@.len(),
    ensures
        result_view(r) == authenticated(bytes@, length as int, hmac_key@),
{
    let total: usize = bytes.len();
    let at: usize = length + DIGEST;
    if total - at < DIGEST {
        return Err(Error::IncompleteInput);
    }
    let covered = slice_subrange(bytes, 0, length);
    assert(covered@ =~= bytes@.take(length as int));
    let tag = header_tag(covered, hmac_key);
    let stored = slice_subrange(bytes, at, at + DIGEST);
    if !bytes_equal(stored, tag.as_slice()) {
        return Err(Error::MessageAuthenticationFailed(HEADER_INDEX));
    }
    let envelope = slice_subrange(bytes, at + DIGEST, bytes.len());
    assert(envelope@ =~= bytes@.skip(at + DIGEST));
    read_envelope(envelope, hmac_key)
}

/// Reads a file under the given composite hash.
pub fn open(bytes: &[u8], composite: &[u8]) -> (r: Result<Container, Error>)
    ensures
        container_view(r) == open_container(bytes@, composite@),
{
    let (header, length) = match OuterHeader::parse(bytes) {
        Ok(parsed) => parsed,
        Err(e) => {
            return Err(e);
        },
    };
    let mut key = derive_hmac_key(header.master_seed.as_slice(), composite);
    let payload = authenticate(bytes, length, key.as_slice());
    wipe(&mut key);
    match payload {
        Ok(payload) => Ok(Container { header, payload }),
        Err(e) => Err(e),
    }
}

/// Puts a file together from the bytes of its header as they were written:
/// adds the digest and the tag of the header and the envelope of the
/// payload.
pub fn seal_written(written: &[u8], master_seed: &[u8], payload: &[u8], composite: &[u8]) -> (out:
    Vec<u8>)
    ensures
        out@ == written@ + sha256(written@)@ + header_mac(
            written@,
            hmac_key(master_seed@, composite@)@,
        )@ + sealed(payload@, hmac_key(master_seed@, composite@)@, 0),
{
    let parts: [&[u8]; 1] = [written];
    let segments: &[&[u8]] = parts.as_slice();
    proof {
        lemma_concat_few(segments);
    }
    let digest = calculate_sha256(segments).unwrap();
    let mut key = derive_hmac_key(master_seed, composite);
    let tag = header_tag(written, key.as_slice());
    let envelope = write_envelope(payload, key.as_slice());
    wipe(&mut key);
    let mut out = vstd::slice::slice_to_vec(written);
    append(&mut out, digest.as_slice());
    append(&mut out, tag.as_slice());
    append(&mut out, envelope.as_slice());
    out
}

/// Writes a file under the given composite hash; or says why its header
/// cannot be written.
pub fn seal(container: &Container, composite: &[u8]) -> (r: Result<Vec<u8>, Error>)
    ensures
        match r {
            Ok(bytes) => well_formed(container@.header) && bytes@ == container_bytes(
                container@.header,
                container@.payload,
                composite@,
            ),
            Err(e) => write_fault(container@.header) == Some(e),
        },
{
    match container.header.serialize() {
        Ok(written) => Ok(
            seal_written(
                written.as_slice(),
                container.header.master_seed.as_slice(),
                container.payload.as_slice(),
                composite,
            ),
        ),
        Err(e) => Err(e),
    }
}

/// Reading what was written, under the composite hash it was written under,
/// gives the header and the payload back.
pub proof fn lemma_open_sealed(header: Header, payload: Seq<u8>, composite: Seq<u8>)
    requires
        well_formed(header),
    ensures
        open_container(container_bytes(header, payload, composite), composite) == Ok::<
            Content,
            Error,
        >(Content { header, payload }),
{
    let written = header_bytes(header);
    let key = hmac_key(header.master_seed, composite)@;
    let digest = sha256(written)@;
    let tag = header_mac(written, key)@;
    let envelope = sealed(payload, key, 0);
    let bytes = container_bytes(header, payload, composite);
    assert(bytes =~= written + digest + (tag + envelope));
    lemma_parse_written_header(header, tag + envelope);
    let length = written.len() as int;
    let at = length + DIGEST;
    assert(bytes.take(length) =~= written);
    assert(bytes.subrange(at, at + DIGEST) =~= tag);
    assert(bytes.skip(at + DIGEST) =~= envelope + Seq::<u8>::empty());
    lemma_opened_sealed(payload, key, 0, Seq::empty());
}

/// Two files written under one composite hash are the same bytes only where
/// they have the same header and the same payload: with another master seed
/// or another initialization vector the bytes are others.
pub proof fn lemma_written_apart(
    first: Content,
    second: Content,
    composite: Seq<u8>,
)
    requires
        well_formed(first.header),
        well_formed(second.header),
        first != second,
    ensures
        container_bytes(first.header, first.payload, composite) != container_bytes(
            second.header,
            second.payload,
            composite,
        ),
{
    lemma_open_sealed(first.header, first.payload, composite);
    lemma_open_sealed(second.header, second.payload, composite);
}

/// A file that is read under another composite hash than it was written
/// under is refused at the tag of its header, unless that tag is the same
/// under both.
pub proof fn lemma_other_key_is_refused(
    header: Header,
    payload: Seq<u8>,
    composite: Seq<u8>,
    other: Seq<u8>,
)
    requires
        well_formed(header),
        header_mac(header_bytes(header), hmac_key(header.master_seed, other)@) != header_mac(
            header_bytes(header),
            hmac_key(header.master_seed, composite)@,
        ),
    ensures
        open_container(container_bytes(header, payload, composite), other) == Err::<Content, Error>(
            Error::MessageAuthenticationFailed(HEADER_INDEX),
        ),
{
    let written = header_bytes(header);
    let key = hmac_key(header.master_seed, composite)@;
    let digest = sha256(written)@;
    let tag = header_mac(written, key)@;
    let envelope = sealed(payload, key, 0);
    let bytes = container_bytes(header, payload, composite);
    assert(bytes =~= written + digest + (tag + envelope));
    lemma_parse_written_header(header, tag + envelope);
    let length = written.len() as int;
    let at = length + DIGEST;
    assert(bytes.take(length) =~= written);
    assert(bytes.subrange(at, at + DIGEST) =~= tag);
    let other_tag = header_mac(written, hmac_key(header.master_seed, other)@);
    assert(other_tag@ != tag) by {
        if other_tag@ == tag {
            assert(other_tag =~= header_mac(written, key));
        }
    }
}

/// The signatures, the version and the fields of a header depend on the
/// bytes of the header only.
proof fn lemma_same_header_bytes(a: Seq<u8>, b: Seq<u8>)
    requires
        parse_header(a) is Ok,
        b.len() >= parse_header(a).unwrap().length,
        b.take(parse_header(a).unwrap().length) == a.take(parse_header(a).unwrap().length),
    ensures
        PRELUDE + 5 <= parse_header(a).unwrap().length <= a.len() - DIGEST,
        b.subrange(0, 4) == a.subrange(0, 4),
        b.subrange(4, 8) == a.subrange(4, 8),
        b.subrange(8, 10) == a.subrange(8, 10),
        b.subrange(10, 12) == a.subrange(10, 12),
        walk(b.skip(PRELUDE as int)) == walk(a.skip(PRELUDE as int)),
{
    let length = parse_header(a).unwrap().length;
    let used = walk(a.skip(PRELUDE as int)).unwrap().used;
    lemma_walk_used(a.skip(PRELUDE as int));
    assert(a.subrange(0, 4) =~= a.take(length).subrange(0, 4));
    assert(b.subrange(0, 4) =~= b.take(length).subrange(0, 4));
    assert(a.subrange(4, 8) =~= a.take(length).subrange(4, 8));
    assert(b.subrange(4, 8) =~= b.take(length).subrange(4, 8));
    assert(a.subrange(8, 10) =~= a.take(length).subrange(8, 10));
    assert(b.subrange(8, 10) =~= b.take(length).subrange(8, 10));
    assert(a.subrange(10, 12) =~= a.take(length).subrange(10, 12));
    assert(b.subrange(10, 12) =~= b.take(length).subrange(10, 12));
    assert(a.skip(PRELUDE as int).take(used) =~= a.take(length).skip(PRELUDE as int));
    assert(b.skip(PRELUDE as int).take(used) =~= b.take(length).skip(PRELUDE as int));
    lemma_walk_prefix(a.skip(PRELUDE as int), b.skip(PRELUDE as int));
}

/// A header is read from its own bytes and its digest only: other bytes
/// that start with the same ones give the same header.
pub proof fn lemma_parse_header_prefix(a: Seq<u8>, b: Seq<u8>)
    requires
        parse_header(a) is Ok,
        b.len() >= parse_header(a).unwrap().length + DIGEST,
        b.take(parse_header(a).unwrap().length + DIGEST) == a.take(
            parse_header(a).unwrap().length + DIGEST,
        ),
    ensures
        parse_header(b) == parse_header(a),
        PRELUDE + 5 <= parse_header(a).unwrap().length <= a.len() - DIGEST,
{
    let length = parse_header(a).unwrap().length;
    let n = length + DIGEST;
    lemma_walk_used(a.skip(PRELUDE as int));
    assert(a.take(length) =~= a.take(n).take(length));
    assert(b.take(length) =~= b.take(n).take(length));
    lemma_same_header_bytes(a, b);
    assert(a.subrange(length, n) =~= a.take(n).subrange(length, n));
    assert(b.subrange(length, n) =~= b.take(n).subrange(length, n));
}

/// A changed byte in the digest of the header is found out: where the
/// header of a file is read without error, the same bytes with another
/// value at one position of the digest are refused for the digest.
pub proof fn lemma_changed_digest_is_refused(
    bytes: Seq<u8>,
    composite: Seq<u8>,
    position: int,
    value: u8,
)
    requires
        parse_header(bytes) is Ok,
        parse_header(bytes).unwrap().length <= position < parse_header(bytes).unwrap().length
            + DIGEST,
        value != bytes[position],
    ensures
        parse_header(bytes.update(position, value)) == Err::<Parsed, Error>(
            Error::HeaderHashMismatch,
        ),
        open_container(bytes.update(position, value), composite) == Err::<Content, Error>(
            Error::HeaderHashMismatch,
        ),
{
    let length = parse_header(bytes).unwrap().length;
    let changed = bytes.update(position, value);
    lemma_walk_used(bytes.skip(PRELUDE as int));
    assert(changed.take(length) =~= bytes.take(length));
    lemma_same_header_bytes(bytes, changed);
    assert(changed.subrange(length, length + DIGEST)[position - length] == value);
    assert(bytes.subrange(length, length + DIGEST)[position - length] == bytes[position]);
}

/// A changed byte in the tag of the header is found out: where a file is
/// read without error, the same bytes with another value at one position of
/// the tag of the header are refused for that tag.
pub proof fn lemma_changed_header_tag_is_refused(
    bytes: Seq<u8>,
    composite: Seq<u8>,
    position: int,
    value: u8,
)
    requires
        open_container(bytes, composite) is Ok,
        parse_header(bytes).unwrap().length + DIGEST <= position < parse_header(
            bytes,
        ).unwrap().length + DIGEST + DIGEST,
        value != bytes[position],
    ensures
        parse_header(bytes.update(position, value)) == parse_header(bytes),
        open_container(bytes.update(position, value), composite) == Err::<Content, Error>(
            Error::MessageAuthenticationFailed(HEADER_INDEX),
        ),
{
    let length = parse_header(bytes).unwrap().length;
    let at = length + DIGEST;
    let changed = bytes.update(position, value);
    lemma_walk_used(bytes.skip(PRELUDE as int));
    assert(changed.take(at) =~= bytes.take(at));
    lemma_parse_header_prefix(bytes, changed);
    assert(changed.take(length) =~= bytes.take(length));
    assert(changed.subrange(at, at + DIGEST)[position - at] == value);
    assert(bytes.subrange(at, at + DIGEST)[position - at] == bytes[position]);
}

/// A changed byte in the tag of a frame is found out: where a file is read
/// without error, the same bytes with another value at one position of the
/// tag of frame `k` are refused at that frame.
pub proof fn lemma_changed_frame_tag_is_refused(
    bytes: Seq<u8>,
    composite: Seq<u8>,
    position: int,
    value: u8,
    k: nat,
)
    requires
        open_container(bytes, composite) is Ok,
        tag_at(
            bytes.skip(parse_header(bytes).unwrap().length + DIGEST + DIGEST),
            position - (parse_header(bytes).unwrap().length + DIGEST + DIGEST),
            0,
        ) == Some(k),
        0 <= position < bytes.len(),
        value != bytes[position],
    ensures
        parse_header(bytes.update(position, value)) == parse_header(bytes),
        open_container(bytes.update(position, value), composite) == Err::<Content, Error>(
            Error::MessageAuthenticationFailed(k as u64),
        ),
{
    let p = parse_header(bytes).unwrap();
    let length = p.length;
    let at = length + DIGEST;
    let start = at + DIGEST;
    let key = hmac_key(p.header.master_seed, composite)@;
    let changed = bytes.update(position, value);
    lemma_walk_used(bytes.skip(PRELUDE as int));
    assert(changed.take(at) =~= bytes.take(at));
    lemma_parse_header_prefix(bytes, changed);
    assert(changed.take(length) =~= bytes.take(length));
    assert(changed.subrange(at, start) =~= bytes.subrange(at, start));
    assert(changed.skip(start) =~= bytes.skip(start).update(position - start, value));
    lemma_changed_tag_is_refused(bytes.skip(start), key, 0, position - start, value, k);
}

/// A changed byte in the payload of a frame is found out where the tag
/// tells the two payloads apart: where a file is read without error, the
/// same bytes with another value at one position of the payload of frame
/// `k` are refused at that frame, if the frame has another tag with that
/// value.
pub proof fn lemma_changed_frame_payload_is_refused(
    bytes: Seq<u8>,
    composite: Seq<u8>,
    position: int,
    value: u8,
    k: nat,
)
    requires
        open_container(bytes, composite) is Ok,
        payload_at(
            bytes.skip(parse_header(bytes).unwrap().length + DIGEST + DIGEST),
            position - (parse_header(bytes).unwrap().length + DIGEST + DIGEST),
            0,
        ) == Some(k),
        payload_retagged(
            bytes.skip(parse_header(bytes).unwrap().length + DIGEST + DIGEST),
            hmac_key(parse_header(bytes).unwrap().header.master_seed, composite)@,
            position - (parse_header(bytes).unwrap().length + DIGEST + DIGEST),
            value,
            0,
        ),
    ensures
        parse_header(bytes.update(position, value)) == parse_header(bytes),
        open_container(bytes.update(position, value), composite) == Err::<Content, Error>(
            Error::MessageAuthenticationFailed(k as u64),
        ),
{
    let p = parse_header(bytes).unwrap();
    let length = p.length;
    let at = length + DIGEST;
    let start = at + DIGEST;
    let key = hmac_key(p.header.master_seed, composite)@;
    lemma_walk_used(bytes.skip(PRELUDE as int));
    lemma_changed_payload_is_refused(bytes.skip(start), key, 0, position - start, value, k);
    let changed = bytes.update(position, value);
    assert(changed.take(at) =~= bytes.take(at));
    lemma_parse_header_prefix(bytes, changed);
    assert(changed.take(length) =~= bytes.take(length));
    assert(changed.subrange(at, start) =~= bytes.subrange(at, start));
    assert(changed.skip(start) =~= bytes.skip(start).update(position - start, value));
}

} // verus!
