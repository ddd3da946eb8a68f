//! The composite key of a database and the keys that are derived from it.

use crate::crypt::{
    calculate_sha256, calculate_sha512, lemma_concat_few, sha256, sha256_absorbed, sha256_finalize,
    sha256_new, sha256_update, sha512,
};
use vstd::bytes::{spec_u64_to_le_bytes, u64_to_le_bytes};
use vstd::prelude::*;
use vstd::utf8::encode_utf8;

verus! {

/// One of the secrets that together unlock a database.
#[derive(Debug, Clone, PartialEq, Eq)]
pub enum KeyComponent {
    /// A password, as text.
    Password(String),
    /// The content of a key file.
    KeyFile(Vec<u8>),
    /// A credential that the platform holds for the user.
    WindowsCredential(Vec<u8>),
}

impl KeyComponent {
    /// The bytes that the component contributes: the UTF-8 form of a
    /// password, the bytes of the others as they are.
    pub open spec fn material(self) -> Seq<u8> {
        match self {
            KeyComponent::Password(text) => encode_utf8(text@),
            KeyComponent::KeyFile(content) => content@,
            KeyComponent::WindowsCredential(content) => content@,
        }
    }

    /// The element of the component: the SHA-256 digest of its material.
    pub open spec fn element(self) -> Seq<u8> {
        sha256(self.material())@
    }

    /// Computes the element of the component.
    pub fn hash(&self) -> (r: [u8; 32])
        ensures
            r@ == self.element(),
    {
        let material: &[u8] = match self {
            KeyComponent::Password(text) => text.as_str().as_bytes(),
            KeyComponent::KeyFile(content) => content.as_slice(),
            KeyComponent::WindowsCredential(content) => content.as_slice(),
        };
        let parts: [&[u8]; 1] = [material];
        let segments: &[&[u8]] = parts.as_slice();
        proof {
            lemma_concat_few(segments);
        }
        calculate_sha256(segments).unwrap()
    }
}

/// The elements of the components, joined in the order of the components.
pub open spec fn joined_elements(components: Seq<KeyComponent>) -> Seq<u8> {
    components.map_values(|c: KeyComponent| c.element()).flatten()
}

/// The composite hash: the SHA-256 digest of the joined elements. With no
/// component it is the digest of the empty string.
pub open spec fn composite_hash(components: Seq<KeyComponent>) -> [u8; 32] {
    sha256(joined_elements(components))
}

/// The key that authenticates the header and the frames of a file:
/// SHA-512 of the master seed, the composite hash and one byte 1.
pub open spec fn hmac_key(master_seed: Seq<u8>, composite: Seq<u8>) -> [u8; 64] {
    sha512(master_seed + composite + seq![1u8])
}

/// The key that authenticates the frame with the given index: SHA-512 of the
/// index, as eight little-endian bytes, and the HMAC key of the file.
pub open spec fn block_key(index: u64, hmac_key: Seq<u8>) -> [u8; 64] {
    sha512(spec_u64_to_le_bytes(index) + hmac_key)
}

/// Computes the composite hash of the components, in the order given.
pub fn composite_key(components: &[KeyComponent]) -> (r: [u8; 32])
    ensures
        r == composite_hash(components@),
{
    let mut state = sha256_new();
    let mut i: usize = 0;
    assert(components@.take(0).map_values(|c: KeyComponent| c.element()) =~= Seq::<
        Seq<u8>,
    >::empty());
    while i < components.len()
        invariant
            0 <= i <= components@.len(),
            sha256_absorbed(state) == joined_elements(components@.take(i as int)),
        decreases components@.len() - i,
    {
        let element = components[i].hash();
        proof {
            let f = |c: KeyComponent| c.element();
            let head = components@.take(i as int).map_values(f);
            assert(components@.take(i + 1).map_values(f) =~= head.push(element@));
            head.lemma_flatten_push(element@);
        }
        sha256_update(&mut state, element.as_slice());
        i += 1;
    }
    assert(components@.take(i as int) =~= components@);
    sha256_finalize(state)
}

/// Derives the HMAC key of a file from its master seed and the composite
/// hash.
pub fn derive_hmac_key(master_seed: &[u8], composite: &[u8]) -> (r: [u8; 64])
    ensures
        r == hmac_key(master_seed@, composite@),
{
    let suffix: [u8; 1] = [1u8];
    let parts: [&[u8]; 3] = [master_seed, composite, suffix.as_slice()];
    let segments: &[&[u8]] = parts.as_slice();
    proof {
        lemma_concat_few(segments);
        assert(suffix@ =~= seq![1u8]);
    }
    calculate_sha512(segments).unwrap()
}

/// Derives the key of the frame with the given index from the HMAC key of
/// the file. The header is authenticated under the index `u64::MAX`.
pub fn derive_block_key(index: u64, hmac_key: &[u8]) -> (r: [u8; 64])
    ensures
        r == block_key(index, hmac_key@),
{
    let prefix = u64_to_le_bytes(index);
    let parts: [&[u8]; 2] = [prefix.as_slice(), hmac_key];
    let segments: &[&[u8]] = parts.as_slice();
    proof {
        lemma_concat_few(segments);
    }
    calculate_sha512(segments).unwrap()
}

} // verus!
