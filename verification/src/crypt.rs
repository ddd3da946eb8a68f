//! Digests and message authentication codes over sequences of byte segments.
//!
//! The segments are fed to the primitive one after the other, so that the
//! result is that of their concatenation without the concatenation ever being
//! built.

use crate::error::CryptographyError;
use cipher::generic_array::typenum::{U32, U64};
use cipher::generic_array::GenericArray;
use hmac::{Hmac, Mac};
use sha2::{Digest, Sha256, Sha512};
use vstd::prelude::*;

pub mod ciphers;
pub mod kdf;

verus! {

/// The SHA-256 digest of a byte string.
pub uninterp spec fn sha256(data: Seq<u8>) -> [u8; 32];

/// The SHA-512 digest of a byte string.
pub uninterp spec fn sha512(data: Seq<u8>) -> [u8; 64];

/// The bytes of a block of SHA-256, which is the length that HMAC-SHA256
/// brings its key to.
pub const HMAC_BLOCK: usize = 64;

/// The key of HMAC-SHA256 brought to the length of a block: a key of up to
/// 64 bytes is filled up with zeros, a longer one is replaced by its
/// SHA-256 digest first.
pub open spec fn hmac_block_key(key: Seq<u8>) -> Seq<u8> {
    let short = if key.len() > HMAC_BLOCK {
        sha256(key)@
    } else {
        key
    };
    Seq::new(HMAC_BLOCK as nat, |i: int| if i < short.len() { short[i] } else { 0u8 })
}

/// Every byte of a block in exclusive or with one byte.
pub open spec fn xor_pad(block: Seq<u8>, pad: u8) -> Seq<u8> {
    Seq::new(block.len(), |i: int| block[i] ^ pad)
}

/// What HMAC-SHA256 digests last: the key of a block in exclusive or with
/// the byte 0x5C, and then the digest of that key in exclusive or with the
/// byte 0x36 and the message.
pub open spec fn hmac_outer(key: Seq<u8>, message: Seq<u8>) -> Seq<u8> {
    xor_pad(hmac_block_key(key), 0x5C) + sha256(xor_pad(hmac_block_key(key), 0x36) + message)@
}

/// The HMAC-SHA256 tag of a message under a key.
pub open spec fn hmac_sha256(key: Seq<u8>, message: Seq<u8>) -> [u8; 32] {
    sha256(hmac_outer(key, message))
}

/// Whether SHA-256 tells two byte strings apart: they have the same digest
/// only if they are the same.
pub open spec fn sha256_tells_apart(a: Seq<u8>, b: Seq<u8>) -> bool {
    sha256(a) == sha256(b) ==> a == b
}

/// Whether SHA-512 tells two byte strings apart: they have the same digest
/// only if they are the same.
pub open spec fn sha512_tells_apart(a: Seq<u8>, b: Seq<u8>) -> bool {
    sha512(a) == sha512(b) ==> a == b
}

/// The segments joined in their order.
pub open spec fn concat(elements: &[&[u8]]) -> Seq<u8> {
    elements@.map_values(|e: &[u8]| e@).flatten()
}

/// A SHA-256 computation in progress: a `sha2::Sha256`, of which the
/// contracts know what it has taken in.
#[verifier::external_body]
pub struct Sha256State {
    inner: Sha256,
}

/// A SHA-512 computation in progress: a `sha2::Sha512`, of which the
/// contracts know what it has taken in.
#[verifier::external_body]
pub struct Sha512State {
    inner: Sha512,
}

/// An HMAC-SHA256 computation in progress: an `hmac::Hmac<sha2::Sha256>`,
/// of which the contracts know its key and what it has taken in.
#[verifier::external_body]
pub struct HmacState {
    inner: Hmac<Sha256>,
}

/// The bytes that the SHA-256 computation has taken in so far.
pub uninterp spec fn sha256_absorbed(state: Sha256State) -> Seq<u8>;

/// The bytes that the SHA-512 computation has taken in so far.
pub uninterp spec fn sha512_absorbed(state: Sha512State) -> Seq<u8>;

/// The key that the HMAC computation was started with.
pub uninterp spec fn hmac_state_key(state: HmacState) -> Seq<u8>;

/// The message bytes that the HMAC computation has taken in so far.
pub uninterp spec fn hmac_absorbed(state: HmacState) -> Seq<u8>;

/// `sha2::Sha256::new` (`Digest::new`): a hasher that has taken in nothing.
#[verifier::external_body]
pub(crate) fn sha256_new() -> (state: Sha256State)
    ensures
        sha256_absorbed(state) == Seq::<u8>::empty(),
{
    Sha256State { inner: Sha256::new() }
}

/// `Digest::update` on `sha2::Sha256`: the hasher takes in `data` after what
/// it already has.
#[verifier::external_body]
pub(crate) fn sha256_update(state: &mut Sha256State, data: &[u8])
    ensures
        sha256_absorbed(*final(state)) == sha256_absorbed(*old(state)) + data@,
{
    Digest::update(&mut state.inner, data);
}

/// `Digest::finalize` on `sha2::Sha256`: the digest of everything taken in.
#[verifier::external_body]
pub(crate) fn sha256_finalize(state: Sha256State) -> (digest: [u8; 32])
    ensures
        digest == sha256(sha256_absorbed(state)),
{
    let out: GenericArray<u8, U32> = state.inner.finalize();
    out.into()
}

/// `sha2::Sha512::new` (`Digest::new`): a hasher that has taken in nothing.
#[verifier::external_body]
fn sha512_new() -> (state: Sha512State)
    ensures
        sha512_absorbed(state) == Seq::<u8>::empty(),
{
    Sha512State { inner: Sha512::new() }
}

/// `Digest::update` on `sha2::Sha512`: the hasher takes in `data` after what
/// it already has.
#[verifier::external_body]
fn sha512_update(state: &mut Sha512State, data: &[u8])
    ensures
        sha512_absorbed(*final(state)) == sha512_absorbed(*old(state)) + data@,
{
    Digest::update(&mut state.inner, data);
}

/// `Digest::finalize` on `sha2::Sha512`: the digest of everything taken in.
#[verifier::external_body]
fn sha512_finalize(state: Sha512State) -> (digest: [u8; 64])
    ensures
        digest == sha512(sha512_absorbed(state)),
{
    let out: GenericArray<u8, U64> = state.inner.finalize();
    out.into()
}

/// `Mac::new_from_slice` on `hmac::Hmac<Sha256>`: HMAC takes a key of any
/// length, so the construction succeeds; the new state holds the key and has
/// taken in no message bytes.
#[verifier::external_body]
fn hmac_new(key: &[u8]) -> (r: Result<HmacState, cipher::InvalidLength>)
    ensures
        r is Ok,
        hmac_state_key(r.unwrap()) == key@,
        hmac_absorbed(r.unwrap()) == Seq::<u8>::empty(),
{
    match <Hmac<Sha256> as Mac>::new_from_slice(key) {
        Ok(inner) => Ok(HmacState { inner }),
        Err(e) => Err(e),
    }
}

/// `Mac::update` on `hmac::Hmac<Sha256>`: the state takes in `data` after what
/// it already has, under the same key.
#[verifier::external_body]
fn hmac_update(state: &mut HmacState, data: &[u8])
    ensures
        hmac_absorbed(*final(state)) == hmac_absorbed(*old(state)) + data@,
        hmac_state_key(*final(state)) == hmac_state_key(*old(state)),
{
    Mac::update(&mut state.inner, data);
}

/// `Mac::finalize` and `CtOutput::into_bytes` on `hmac::Hmac<Sha256>`: the tag
/// of everything taken in, under the key of the state. The crate brings the
/// key to a block, digests it in exclusive or with 0x36 and the message,
/// and digests the key in exclusive or with 0x5C and that digest.
#[verifier::external_body]
fn hmac_finalize(state: HmacState) -> (tag: [u8; 32])
    ensures
        tag == hmac_sha256(hmac_state_key(state), hmac_absorbed(state)),
{
    let out: GenericArray<u8, U32> = state.inner.finalize().into_bytes();
    out.into()
}

/// `cipher::InvalidLength`: the refusal of a key by its length.
#[verifier::external_type_specification]
#[verifier::external_body]
pub struct ExInvalidLength(cipher::InvalidLength);

/// Joining one segment more appends it to what the others join to.
pub proof fn lemma_concat_step(elements: &[&[u8]], i: int)
    requires
        0 <= i < elements@.len(),
    ensures
        elements@.take(i + 1).map_values(|e: &[u8]| e@).flatten() == elements@.take(i).map_values(
            |e: &[u8]| e@,
        ).flatten() + elements@[i]@,
{
    let f = |e: &[u8]| e@;
    let head = elements@.take(i).map_values(f);
    assert(elements@.take(i + 1).map_values(f) =~= head.push(elements@[i]@));
    head.lemma_flatten_push(elements@[i]@);
}

/// What one, two and three segments join to.
pub proof fn lemma_concat_few(elements: &[&[u8]])
    ensures
        elements@.len() == 0 ==> concat(elements) == Seq::<u8>::empty(),
        elements@.len() == 1 ==> concat(elements) == elements@[0]@,
        elements@.len() == 2 ==> concat(elements) == elements@[0]@ + elements@[1]@,
        elements@.len() == 3 ==> concat(elements) == elements@[0]@ + elements@[1]@ + elements@[2]@,
{
    let n = elements@.len() as int;
    assert(elements@.take(n) =~= elements@);
    assert(elements@.take(0).map_values(|e: &[u8]| e@) =~= Seq::<Seq<u8>>::empty());
    assert(Seq::<Seq<u8>>::empty().flatten() =~= Seq::<u8>::empty());
    if n >= 1 {
        lemma_concat_step(elements, 0);
        assert(Seq::<u8>::empty() + elements@[0]@ =~= elements@[0]@);
    }
    if n >= 2 {
        lemma_concat_step(elements, 1);
    }
    if n >= 3 {
        lemma_concat_step(elements, 2);
    }
}

/// The HMAC-SHA256 tag, under `key`, of the segments joined in their order.
pub fn calculate_hmac(elements: &[&[u8]], key: &[u8]) -> (r: Result<[u8; 32], CryptographyError>)
    ensures
        r == Ok::<[u8; 32], CryptographyError>(hmac_sha256(key@, concat(elements))),
{
    let mut mac = match hmac_new(key) {
        Ok(state) => state,
        Err(_) => {
            return Err(CryptographyError::InvalidKeyLength);
        },
    };
    let mut i: usize = 0;
    while i < elements.len()
        invariant
            0 <= i <= elements@.len(),
            hmac_state_key(mac) == key@,
            hmac_absorbed(mac) == elements@.take(i as int).map_values(|e: &[u8]| e@).flatten(),
        decreases elements@.len() - i,
    {
        proof {
            lemma_concat_step(elements, i as int);
        }
        hmac_update(&mut mac, elements[i]);
        i += 1;
    }
    assert(elements@.take(i as int) =~= elements@);
    Ok(hmac_finalize(mac))
}

/// The SHA-256 digest of the segments joined in their order.
pub fn calculate_sha256(elements: &[&[u8]]) -> (r: Result<[u8; 32], CryptographyError>)
    ensures
        r == Ok::<[u8; 32], CryptographyError>(sha256(concat(elements))),
{
    let mut state = sha256_new();
    let mut i: usize = 0;
    while i < elements.len()
        invariant
            0 <= i <= elements@.len(),
            sha256_absorbed(state) == elements@.take(i as int).map_values(|e: &[u8]| e@).flatten(),
        decreases elements@.len() - i,
    {
        proof {
            lemma_concat_step(elements, i as int);
        }
        sha256_update(&mut state, elements[i]);
        i += 1;
    }
    assert(elements@.take(i as int) =~= elements@);
    Ok(sha256_finalize(state))
}

/// The SHA-512 digest of the segments joined in their order.
pub fn calculate_sha512(elements: &[&[u8]]) -> (r: Result<[u8; 64], CryptographyError>)
    ensures
        r == Ok::<[u8; 64], CryptographyError>(sha512(concat(elements))),
{
    let mut state = sha512_new();
    let mut i: usize = 0;
    while i < elements.len()
        invariant
            0 <= i <= elements@.len(),
            sha512_absorbed(state) == elements@.take(i as int).map_values(|e: &[u8]| e@).flatten(),
        decreases elements@.len() - i,
    {
        proof {
            lemma_concat_step(elements, i as int);
        }
        sha512_update(&mut state, elements[i]);
        i += 1;
    }
    assert(elements@.take(i as int) =~= elements@);
    Ok(sha512_finalize(state))
}

/// Keys that are different once brought to a block give different tags
/// for one message, where SHA-256 tells apart what is digested last under
/// the two.
pub proof fn lemma_hmac_keys_apart(first: Seq<u8>, second: Seq<u8>, message: Seq<u8>)
    requires
        hmac_block_key(first) != hmac_block_key(second),
        sha256_tells_apart(hmac_outer(first, message), hmac_outer(second, message)),
    ensures
        hmac_sha256(first, message) != hmac_sha256(second, message),
{
    let a = hmac_block_key(first);
    let b = hmac_block_key(second);
    let x = hmac_outer(first, message);
    let y = hmac_outer(second, message);
    if x == y {
        assert forall|i: int| 0 <= i < HMAC_BLOCK implies a[i] == b[i] by {
            assert(x[i] == a[i] ^ 0x5C);
            assert(y[i] == b[i] ^ 0x5C);
            let u = a[i];
            let v = b[i];
            assert(u ^ 0x5C == v ^ 0x5C ==> u == v) by (bit_vector);
        }
        assert(a =~= b);
    }
}

/// A key of a block is its own key of a block: different keys of 64 bytes
/// give different tags for one message, where SHA-256 tells apart what is
/// digested last under the two.
pub proof fn lemma_hmac_block_keys_apart(first: Seq<u8>, second: Seq<u8>, message: Seq<u8>)
    requires
        first.len() == HMAC_BLOCK,
        second.len() == HMAC_BLOCK,
        first != second,
        sha256_tells_apart(hmac_outer(first, message), hmac_outer(second, message)),
    ensures
        hmac_block_key(first) == first,
        hmac_block_key(second) == second,
        hmac_sha256(first, message) != hmac_sha256(second, message),
{
    assert(hmac_block_key(first) =~= first);
    assert(hmac_block_key(second) =~= second);
    lemma_hmac_keys_apart(first, second, message);
}

/// A key of up to 64 bytes acts as itself with zeros behind it, and a
/// longer key acts as its SHA-256 digest.
pub proof fn lemma_hmac_key_forms(key: Seq<u8>, message: Seq<u8>)
    ensures
        key.len() <= HMAC_BLOCK ==> hmac_sha256(key, message) == hmac_sha256(
            key + Seq::new((HMAC_BLOCK - key.len()) as nat, |i: int| 0u8),
            message,
        ),
        key.len() > HMAC_BLOCK ==> hmac_sha256(key, message) == hmac_sha256(
            sha256(key)@,
            message,
        ),
{
    if key.len() <= HMAC_BLOCK {
        let filled = key + Seq::new((HMAC_BLOCK - key.len()) as nat, |i: int| 0u8);
        assert(hmac_block_key(key) =~= hmac_block_key(filled));
    } else {
        assert(hmac_block_key(key) =~= hmac_block_key(sha256(key)@));
    }
}

} // verus!
