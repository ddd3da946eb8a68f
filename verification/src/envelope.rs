//! The envelope of a file: the ciphertext cut into frames, each under a tag
//! of its own.
//!
//! A frame is a tag of 32 bytes, the length of its payload as four
//! little-endian bytes, and the payload. The frame with an empty payload ends
//! the envelope.

use crate::bytes::{append, bytes_equal, wipe};
use crate::crypt::{calculate_hmac, hmac_sha256, lemma_concat_few};
use crate::error::Error;
use crate::key::{block_key, derive_block_key};
use vstd::bytes::{
    lemma_auto_spec_u32_to_from_le_bytes, spec_u32_from_le_bytes, spec_u32_to_le_bytes,
    spec_u64_to_le_bytes, u32_from_le_bytes, u32_to_le_bytes, u64_to_le_bytes,
};
use vstd::prelude::*;
use vstd::slice::slice_subrange;

verus! {

/// The longest payload of a frame, in bytes.
pub const MAX_FRAME: usize = 1_048_576;

/// The bytes before the payload of a frame: the tag and the length.
pub const FRAME_HEAD: usize = 36;

/// The tag of the frame with the given index and payload: HMAC-SHA256, under
/// the key of the frame, of the index as eight little-endian bytes, the
/// length of the payload as four, and the payload.
pub open spec fn frame_mac(index: u64, payload: Seq<u8>, hmac_key: Seq<u8>) -> [u8; 32] {
    hmac_sha256(
        block_key(index, hmac_key)@,
        spec_u64_to_le_bytes(index) + spec_u32_to_le_bytes(payload.len() as u32) + payload,
    )
}

/// The frame with the given index and payload.
pub open spec fn frame(index: u64, payload: Seq<u8>, hmac_key: Seq<u8>) -> Seq<u8> {
    frame_mac(index, payload, hmac_key)@ + spec_u32_to_le_bytes(payload.len() as u32) + payload
}

/// The length of the first payload that `data` is cut into.
pub open spec fn first_cut(data: Seq<u8>) -> int {
    if data.len() < MAX_FRAME {
        data.len() as int
    } else {
        MAX_FRAME as int
    }
}

/// The envelope of `data` whose first frame has the given index: frames of
/// `MAX_FRAME` bytes while that much is left, a shorter one with the rest if
/// there is a rest, and the frame with the empty payload.
pub open spec fn sealed(data: Seq<u8>, hmac_key: Seq<u8>, index: nat) -> Seq<u8>
    decreases data.len(),
{
    if data.len() == 0 {
        frame(index as u64, Seq::empty(), hmac_key)
    } else {
        let n = first_cut(data);
        frame(index as u64, data.take(n), hmac_key) + sealed(data.skip(n), hmac_key, index + 1)
    }
}

/// `prefix` before what follows, where what follows was read without error.
pub open spec fn after(prefix: Seq<u8>, rest: Result<Seq<u8>, Error>) -> Result<Seq<u8>, Error> {
    match rest {
        Ok(tail) => Ok(prefix + tail),
        Err(e) => Err(e),
    }
}

/// The length that the frame at the start of `bytes` declares.
pub open spec fn declared_length(bytes: Seq<u8>) -> int
    recommends
        bytes.len() >= FRAME_HEAD,
{
    spec_u32_from_le_bytes(bytes.subrange(32, 36)) as int
}

/// What reading an envelope gives, where its first frame has the given
/// index: the payloads of the frames up to the one with the empty payload,
/// joined; or the first fault met. Bytes that end before a frame does are
/// `IncompleteInput`. A frame that declares more than `MAX_FRAME` bytes, or
/// whose tag is not that of its index, length and payload, is
/// `MessageAuthenticationFailed` with its index. What follows the frame with
/// the empty payload is not looked at.
pub open spec fn opened(bytes: Seq<u8>, hmac_key: Seq<u8>, index: nat) -> Result<Seq<u8>, Error>
    decreases bytes.len(),
{
    if bytes.len() < FRAME_HEAD {
        Err(Error::IncompleteInput)
    } else {
        let n = declared_length(bytes);
        if n > MAX_FRAME {
            Err(Error::MessageAuthenticationFailed(index as u64))
        } else if bytes.len() < FRAME_HEAD + n {
            Err(Error::IncompleteInput)
        } else {
            let payload = bytes.subrange(FRAME_HEAD as int, FRAME_HEAD + n);
            if bytes.subrange(0, 32) != frame_mac(index as u64, payload, hmac_key)@ {
                Err(Error::MessageAuthenticationFailed(index as u64))
            } else if n == 0 {
                Ok(Seq::empty())
            } else {
                after(payload, opened(bytes.skip(FRAME_HEAD + n), hmac_key, index + 1))
            }
        }
    }
}

/// The bytes of a result, or its error.
pub open spec fn result_view(r: Result<Vec<u8>, Error>) -> Result<Seq<u8>, Error> {
    match r {
        Ok(data) => Ok(data@),
        Err(e) => Err(e),
    }
}

/// Computes the tag of the frame with the given index and payload.
pub fn frame_tag(index: u64, payload: &[u8], hmac_key: &[u8]) -> (tag: [u8; 32])
    requires
        payload@.len() <= u32::MAX,
    ensures
        tag == frame_mac(index, payload@, hmac_key@),
{
    let mut key = derive_block_key(index, hmac_key);
    let index_bytes = u64_to_le_bytes(index);
    let length_bytes = u32_to_le_bytes(payload.len() as u32);
    let parts: [&[u8]; 3] = [index_bytes.as_slice(), length_bytes.as_slice(), payload];
    let segments: &[&[u8]] = parts.as_slice();
    proof {
        lemma_concat_few(segments);
    }
    let tag = calculate_hmac(segments, key.as_slice()).unwrap();
    wipe(&mut key);
    tag
}

/// Reads an envelope: checks every frame and returns the payloads joined.
pub fn read_envelope(bytes: &[u8], hmac_key: &[u8]) -> (r: Result<Vec<u8>, Error>)
    ensures
        result_view(r) == opened(bytes@, hmac_key@, 0),
{
    let mut out: Vec<u8> = Vec::new();
    let mut offset: usize = 0;
    let mut index: u64 = 0;
    assert(bytes@.skip(0) =~= bytes@);
    assert(Seq::<u8>::empty() + Seq::<u8>::empty() =~= Seq::<u8>::empty());
    loop
        invariant
            offset <= bytes@.len(),
            index * FRAME_HEAD <= offset,
            opened(bytes@, hmac_key@, 0) == after(
                out@,
                opened(bytes@.skip(offset as int), hmac_key@, index as nat),
            ),
        decreases bytes@.len() - offset,
    {
        let ghost rest = bytes@.skip(offset as int);
        if bytes.len() - offset < FRAME_HEAD {
            return Err(Error::IncompleteInput);
        }
        let stored = slice_subrange(bytes, offset, offset + 32);
        let length_bytes = slice_subrange(bytes, offset + 32, offset + FRAME_HEAD);
        let n: usize = u32_from_le_bytes(length_bytes) as usize;
        assert(stored@ =~= rest.subrange(0, 32));
        assert(length_bytes@ =~= rest.subrange(32, 36));
        if n > MAX_FRAME {
            return Err(Error::MessageAuthenticationFailed(index));
        }
        if bytes.len() - offset - FRAME_HEAD < n {
            return Err(Error::IncompleteInput);
        }
        let payload = slice_subrange(bytes, offset + FRAME_HEAD, offset + FRAME_HEAD + n);
        assert(payload@ =~= rest.subrange(FRAME_HEAD as int, FRAME_HEAD + n));
        let tag = frame_tag(index, payload, hmac_key);
        if !bytes_equal(stored, tag.as_slice()) {
            return Err(Error::MessageAuthenticationFailed(index));
        }
        if n == 0 {
            assert(out@ + Seq::<u8>::empty() =~= out@);
            return Ok(out);
        }
        proof {
            let tail = opened(rest.skip(FRAME_HEAD + n), hmac_key@, index as nat + 1);
            assert(rest.skip(FRAME_HEAD + n) =~= bytes@.skip(offset + FRAME_HEAD + n));
            assert(after(out@, after(payload@, tail)) == after(out@ + payload@, tail)) by {
                if let Ok(t) = tail {
                    assert(out@ + (payload@ + t) =~= (out@ + payload@) + t);
                }
            }
        }
        append(&mut out, payload);
        offset = offset + FRAME_HEAD + n;
        index = index + 1;
    }
}

/// Writes the envelope of `data`.
pub fn write_envelope(data: &[u8], hmac_key: &[u8]) -> (out: Vec<u8>)
    ensures
        out@ == sealed(data@, hmac_key@, 0),
{
    let mut out: Vec<u8> = Vec::new();
    let mut offset: usize = 0;
    let mut index: u64 = 0;
    assert(data@.skip(0) =~= data@);
    assert(Seq::<u8>::empty() + sealed(data@, hmac_key@, 0) =~= sealed(data@, hmac_key@, 0));
    while offset < data.len()
        invariant
            offset <= data@.len(),
            index <= offset,
            sealed(data@, hmac_key@, 0) == out@ + sealed(
                data@.skip(offset as int),
                hmac_key@,
                index as nat,
            ),
        decreases data@.len() - offset,
    {
        let ghost rest = data@.skip(offset as int);
        let left: usize = data.len() - offset;
        let n: usize = if left < MAX_FRAME {
            left
        } else {
            MAX_FRAME
        };
        let payload = slice_subrange(data, offset, offset + n);
        assert(payload@ =~= rest.take(n as int));
        assert(rest.skip(n as int) =~= data@.skip(offset + n));
        let tag = frame_tag(index, payload, hmac_key);
        let length_bytes = u32_to_le_bytes(n as u32);
        let ghost before = out@;
        append(&mut out, tag.as_slice());
        append(&mut out, length_bytes.as_slice());
        append(&mut out, payload);
        proof {
            let tail = sealed(rest.skip(n as int), hmac_key@, index as nat + 1);
            assert(out@ == before + frame(index, payload@, hmac_key@)) by {
                assert(before + tag@ + length_bytes@ + payload@ =~= before + (tag@
                    + length_bytes@ + payload@));
            }
            assert(before + (frame(index, payload@, hmac_key@) + tail) =~= (before + frame(
                index,
                payload@,
                hmac_key@,
            )) + tail);
        }
        offset = offset + n;
        index = index + 1;
    }
    let empty: [u8; 0] = [];
    let tag = frame_tag(index, empty.as_slice(), hmac_key);
    let length_bytes = u32_to_le_bytes(0u32);
    let ghost before = out@;
    assert(data@.skip(offset as int) =~= Seq::<u8>::empty());
    assert(empty@ =~= Seq::<u8>::empty());
    append(&mut out, tag.as_slice());
    append(&mut out, length_bytes.as_slice());
    assert(out@ =~= before + frame(index, Seq::empty(), hmac_key@));
    out
}

/// Reading what was written gives the data back, whatever follows the
/// envelope.
pub proof fn lemma_opened_sealed(data: Seq<u8>, hmac_key: Seq<u8>, index: nat, trailing: Seq<u8>)
    ensures
        opened(sealed(data, hmac_key, index) + trailing, hmac_key, index) == Ok::<Seq<u8>, Error>(
            data,
        ),
    decreases data.len(),
{
    lemma_auto_spec_u32_to_from_le_bytes();
    let n = if data.len() == 0 {
        0
    } else {
        first_cut(data)
    };
    let payload = data.take(n);
    let tag = frame_mac(index as u64, payload, hmac_key)@;
    let length_bytes = spec_u32_to_le_bytes(payload.len() as u32);
    let bytes = sealed(data, hmac_key, index) + trailing;
    if data.len() == 0 {
        assert(payload =~= Seq::<u8>::empty());
        assert(bytes =~= tag + length_bytes + payload + trailing);
        assert(bytes.subrange(32, 36) =~= length_bytes);
        assert(bytes.subrange(FRAME_HEAD as int, FRAME_HEAD + 0) =~= payload);
        assert(bytes.subrange(0, 32) =~= tag);
        assert(data =~= Seq::<u8>::empty());
    } else {
        let tail = sealed(data.skip(n), hmac_key, index + 1) + trailing;
        assert(bytes =~= tag + length_bytes + payload + tail);
        assert(bytes.subrange(32, 36) =~= length_bytes);
        assert(bytes.subrange(FRAME_HEAD as int, FRAME_HEAD + n) =~= payload);
        assert(bytes.subrange(0, 32) =~= tag);
        assert(bytes.skip(FRAME_HEAD + n) =~= tail);
        lemma_opened_sealed(data.skip(n), hmac_key, index + 1, trailing);
        assert(payload + data.skip(n) =~= data);
    }
}

/// The index of the frame whose tag holds the byte at `position`, counting
/// from `index` for the frame at the start of `bytes`; none where the
/// position lies in no tag of the frames up to the one with the empty
/// payload.
pub open spec fn tag_at(bytes: Seq<u8>, position: int, index: nat) -> Option<nat>
    decreases bytes.len(),
{
    if bytes.len() < FRAME_HEAD || position < 0 {
        None
    } else if position < 32 {
        Some(index)
    } else {
        let n = declared_length(bytes);
        if n == 0 || bytes.len() < FRAME_HEAD + n {
            None
        } else {
            tag_at(bytes.skip(FRAME_HEAD + n), position - FRAME_HEAD - n, index + 1)
        }
    }
}

/// A changed byte in the tag of a frame is found out: where an envelope is
/// read without error, the same bytes with another value at one position of
/// the tag of frame `k` are refused at that frame.
pub proof fn lemma_changed_tag_is_refused(
    bytes: Seq<u8>,
    hmac_key: Seq<u8>,
    index: nat,
    position: int,
    value: u8,
    k: nat,
)
    requires
        opened(bytes, hmac_key, index) is Ok,
        tag_at(bytes, position, index) == Some(k),
        value != bytes[position],
    ensures
        opened(bytes.update(position, value), hmac_key, index) == Err::<Seq<u8>, Error>(
            Error::MessageAuthenticationFailed(k as u64),
        ),
    decreases bytes.len(),
{
    let n = declared_length(bytes);
    lemma_tag_position(bytes, position, index);
    let changed = bytes.update(position, value);
    assert(changed.subrange(32, 36) =~= bytes.subrange(32, 36));
    assert(changed.subrange(FRAME_HEAD as int, FRAME_HEAD + n) =~= bytes.subrange(
        FRAME_HEAD as int,
        FRAME_HEAD + n,
    ));
    if position < 32 {
        assert(changed.subrange(0, 32)[position] == value);
        assert(bytes.subrange(0, 32)[position] == bytes[position]);
    } else {
        assert(changed.subrange(0, 32) =~= bytes.subrange(0, 32));
        let rest = bytes.skip(FRAME_HEAD + n);
        assert(changed.skip(FRAME_HEAD + n) =~= rest.update(position - FRAME_HEAD - n, value));
        lemma_changed_tag_is_refused(
            rest,
            hmac_key,
            index + 1,
            position - FRAME_HEAD - n,
            value,
            k,
        );
    }
}

/// A position in a tag lies in the bytes, and not in the length or the
/// payload of the first frame.
proof fn lemma_tag_position(bytes: Seq<u8>, position: int, index: nat)
    requires
        tag_at(bytes, position, index) is Some,
    ensures
        0 <= position < bytes.len(),
        position >= 32 ==> position >= FRAME_HEAD + declared_length(bytes) && bytes.len()
            >= FRAME_HEAD + declared_length(bytes),
    decreases bytes.len(),
{
    if position >= 32 {
        let n = declared_length(bytes);
        lemma_tag_position(bytes.skip(FRAME_HEAD + n), position - FRAME_HEAD - n, index + 1);
    }
}

/// The index of the frame whose payload holds the byte at `position`,
/// counting from `index` for the frame at the start of `bytes`; none where
/// the position lies in no payload of the frames before the one with the
/// empty payload.
pub open spec fn payload_at(bytes: Seq<u8>, position: int, index: nat) -> Option<nat>
    decreases bytes.len(),
{
    if bytes.len() < FRAME_HEAD || position < FRAME_HEAD {
        None
    } else {
        let n = declared_length(bytes);
        if n == 0 || bytes.len() < FRAME_HEAD + n {
            None
        } else if position < FRAME_HEAD + n {
            Some(index)
        } else {
            payload_at(bytes.skip(FRAME_HEAD + n), position - FRAME_HEAD - n, index + 1)
        }
    }
}

/// Whether the frame whose payload holds the byte at `position` has another
/// tag once that byte has the given value.
pub open spec fn payload_retagged(
    bytes: Seq<u8>,
    hmac_key: Seq<u8>,
    position: int,
    value: u8,
    index: nat,
) -> bool
    decreases bytes.len(),
{
    if bytes.len() < FRAME_HEAD || position < FRAME_HEAD {
        false
    } else {
        let n = declared_length(bytes);
        if n == 0 || bytes.len() < FRAME_HEAD + n {
            false
        } else if position < FRAME_HEAD + n {
            let payload = bytes.subrange(FRAME_HEAD as int, FRAME_HEAD + n);
            frame_mac(index as u64, payload.update(position - FRAME_HEAD, value), hmac_key)
                != frame_mac(index as u64, payload, hmac_key)
        } else {
            payload_retagged(
                bytes.skip(FRAME_HEAD + n),
                hmac_key,
                position - FRAME_HEAD - n,
                value,
                index + 1,
            )
        }
    }
}

/// A changed byte in the payload of a frame is found out where the tag
/// tells the two payloads apart: where an envelope is read without error,
/// the same bytes with another value at one position of the payload of
/// frame `k` are refused at that frame, if the frame has another tag with
/// that value.
pub proof fn lemma_changed_payload_is_refused(
    bytes: Seq<u8>,
    hmac_key: Seq<u8>,
    index: nat,
    position: int,
    value: u8,
    k: nat,
)
    requires
        opened(bytes, hmac_key, index) is Ok,
        payload_at(bytes, position, index) == Some(k),
        payload_retagged(bytes, hmac_key, position, value, index),
    ensures
        0 <= position < bytes.len(),
        opened(bytes.update(position, value), hmac_key, index) == Err::<Seq<u8>, Error>(
            Error::MessageAuthenticationFailed(k as u64),
        ),
    decreases bytes.len(),
{
    let n = declared_length(bytes);
    lemma_payload_position(bytes, position, index);
    let changed = bytes.update(position, value);
    assert(changed.subrange(32, 36) =~= bytes.subrange(32, 36));
    assert(changed.subrange(0, 32) =~= bytes.subrange(0, 32));
    if position < FRAME_HEAD + n {
        let payload = bytes.subrange(FRAME_HEAD as int, FRAME_HEAD + n);
        assert(changed.subrange(FRAME_HEAD as int, FRAME_HEAD + n) =~= payload.update(
            position - FRAME_HEAD,
            value,
        ));
        let there = frame_mac(index as u64, payload, hmac_key);
        let here = frame_mac(index as u64, payload.update(position - FRAME_HEAD, value), hmac_key);
        if here@ == there@ {
            assert(here =~= there);
        }
    } else {
        assert(changed.subrange(FRAME_HEAD as int, FRAME_HEAD + n) =~= bytes.subrange(
            FRAME_HEAD as int,
            FRAME_HEAD + n,
        ));
        let rest = bytes.skip(FRAME_HEAD + n);
        lemma_changed_payload_is_refused(
            rest,
            hmac_key,
            index + 1,
            position - FRAME_HEAD - n,
            value,
            k,
        );
        assert(changed.skip(FRAME_HEAD + n) =~= rest.update(position - FRAME_HEAD - n, value));
    }
}

/// A position in a payload lies in the bytes, behind the tag and the
/// length of the first frame.
proof fn lemma_payload_position(bytes: Seq<u8>, position: int, index: nat)
    requires
        payload_at(bytes, position, index) is Some,
    ensures
        FRAME_HEAD <= position < bytes.len(),
    decreases bytes.len(),
{
    let n = declared_length(bytes);
    if position >= FRAME_HEAD + n {
        lemma_payload_position(bytes.skip(FRAME_HEAD + n), position - FRAME_HEAD - n, index + 1);
    }
}

} // verus!
