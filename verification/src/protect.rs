//! The stream that masks the protected values of a document.
//!
//! The values are masked one after the other with one keystream, each from
//! where the one before it ended. A reader that takes them in another order
//! than the writer did gets other bytes than were written.

use crate::crypt::ciphers::{
    apply_stream, keystream, lemma_unmasked_elsewhere, masked, nonce_length, reach, KEY,
};
use crate::bytes::wipe_bytes;
use crate::crypt::{calculate_sha512, lemma_concat_few, sha512};
use crate::error::Error;
use crate::inner_header::InnerCipher;
use vstd::prelude::*;
use vstd::slice::{slice_subrange, slice_to_vec};

verus! {

/// The nonce of Salsa20 in this format.
pub open spec fn salsa20_nonce() -> Seq<u8> {
    seq![0xE8u8, 0x30, 0x09, 0x4B, 0x97, 0x20, 0x5D, 0x2A]
}

/// The key of the stream under the key that the inner header gives: for
/// Salsa20 that key itself, for ChaCha20 the first 32 bytes of its SHA-512
/// digest.
pub open spec fn stream_key(cipher: InnerCipher, inner_key: Seq<u8>) -> Seq<u8> {
    match cipher {
        InnerCipher::Salsa20 => inner_key,
        InnerCipher::ChaCha20 => sha512(inner_key)@.take(32),
    }
}

/// The nonce of the stream under the key that the inner header gives: for
/// Salsa20 the nonce of the format, for ChaCha20 the 12 bytes that follow
/// the first 32 of the SHA-512 digest of the key.
pub open spec fn stream_nonce(cipher: InnerCipher, inner_key: Seq<u8>) -> Seq<u8> {
    match cipher {
        InnerCipher::Salsa20 => salsa20_nonce(),
        InnerCipher::ChaCha20 => sha512(inner_key)@.subrange(32, 44),
    }
}

/// The stream of a document, at the position up to which it was used.
pub struct InnerStream {
    cipher: InnerCipher,
    key: Vec<u8>,
    nonce: Vec<u8>,
    position: u64,
}

impl InnerStream {
    #[verifier::type_invariant]
    spec fn well_formed(self) -> bool {
        self.key@.len() == KEY && self.nonce@.len() == nonce_length(self.cipher)
    }

    /// The cipher of the stream.
    pub closed spec fn cipher(self) -> InnerCipher {
        self.cipher
    }

    /// The key of the stream.
    pub closed spec fn key(self) -> Seq<u8> {
        self.key@
    }

    /// The nonce of the stream.
    pub closed spec fn nonce(self) -> Seq<u8> {
        self.nonce@
    }

    /// The number of bytes of keystream that were used.
    pub closed spec fn position(self) -> u64 {
        self.position
    }

    /// The stream of a document under the cipher and the key that the inner
    /// header gives, at its start. Salsa20 takes a key of 32 bytes and no
    /// other.
    pub fn new(cipher: InnerCipher, inner_key: &[u8]) -> (r: Result<InnerStream, Error>)
        ensures
            match r {
                Ok(stream) => {
                    &&& stream.cipher() == cipher
                    &&& stream.key() == stream_key(cipher, inner_key@)
                    &&& stream.nonce() == stream_nonce(cipher, inner_key@)
                    &&& stream.position() == 0
                    &&& cipher == InnerCipher::Salsa20 ==> inner_key@.len() == KEY
                },
                Err(e) => e == Error::InvalidKeyLength && cipher == InnerCipher::Salsa20
                    && inner_key@.len() != KEY,
            },
    {
        match cipher {
            InnerCipher::Salsa20 => {
                if inner_key.len() != KEY {
                    return Err(Error::InvalidKeyLength);
                }
                let nonce: Vec<u8> = vec![0xE8u8, 0x30, 0x09, 0x4B, 0x97, 0x20, 0x5D, 0x2A];
                assert(nonce@ =~= salsa20_nonce());
                Ok(InnerStream { cipher, key: slice_to_vec(inner_key), nonce, position: 0 })
            },
            InnerCipher::ChaCha20 => {
                let parts: [&[u8]; 1] = [inner_key];
                let segments: &[&[u8]] = parts.as_slice();
                proof {
                    lemma_concat_few(segments);
                }
                let digest = calculate_sha512(segments).unwrap();
                let key = slice_to_vec(slice_subrange(digest.as_slice(), 0, 32));
                let nonce = slice_to_vec(slice_subrange(digest.as_slice(), 32, 44));
                Ok(InnerStream { cipher, key, nonce, position: 0 })
            },
        }
    }

    /// Overwrites the key and the nonce of the stream with zeros, once the
    /// document is done with.
    pub fn wipe(&mut self)
        ensures
            final(self).cipher() == old(self).cipher(),
            final(self).position() == old(self).position(),
            final(self).key().len() == old(self).key().len(),
            forall|i: int| 0 <= i < final(self).key().len() ==> final(self).key()[i] == 0,
            forall|i: int| 0 <= i < final(self).nonce().len() ==> final(self).nonce()[i] == 0,
    {
        proof {
            use_type_invariant(&*self);
        }
        wipe_bytes(&mut self.key);
        wipe_bytes(&mut self.nonce);
    }

    /// Masks or unmasks the next value: takes as many bytes of keystream as
    /// the value has, from where the value before ended. Nothing, and no
    /// keystream taken, where the keystream ends before the value does.
    pub fn xor_next(&mut self, data: &[u8]) -> (r: Option<Vec<u8>>)
        ensures
            final(self).cipher() == old(self).cipher(),
            final(self).key() == old(self).key(),
            final(self).nonce() == old(self).nonce(),
            match r {
                Some(out) => {
                    &&& old(self).position() + data@.len() <= reach(old(self).cipher())
                    &&& final(self).position() == old(self).position() + data@.len()
                    &&& out@ == masked(
                        old(self).cipher(),
                        old(self).key(),
                        old(self).nonce(),
                        old(self).position() as int,
                        data@,
                    )
                },
                None => old(self).position() + data@.len() > reach(old(self).cipher())
                    && final(self).position() == old(self).position(),
            },
    {
        proof {
            use_type_invariant(&*self);
        }
        let out = apply_stream(
            self.cipher,
            self.key.as_slice(),
            self.nonce.as_slice(),
            self.position,
            data,
        );
        if out.is_some() {
            self.position = self.position + data.len() as u64;
        }
        out
    }
}

/// Two values that were masked one after the other and are unmasked in
/// the other order: each comes out as it was just where the keystream is
/// the same at the place it was masked from and at the place it is
/// unmasked from, over its length. In every other case it comes out as
/// other bytes.
pub proof fn lemma_swapped_values(
    cipher: InnerCipher,
    key: Seq<u8>,
    nonce: Seq<u8>,
    start: int,
    first: Seq<u8>,
    second: Seq<u8>,
)
    ensures
        ({
            let first_masked = masked(cipher, key, nonce, start, first);
            let second_masked = masked(cipher, key, nonce, start + first.len(), second);
            let second_read = masked(cipher, key, nonce, start, second_masked);
            let first_read = masked(cipher, key, nonce, start + second.len(), first_masked);
            &&& second_read == second <==> keystream(
                cipher,
                key,
                nonce,
                start + first.len(),
                second.len(),
            ) == keystream(cipher, key, nonce, start, second.len())
            &&& first_read == first <==> keystream(cipher, key, nonce, start, first.len())
                == keystream(cipher, key, nonce, start + second.len(), first.len())
        }),
{
    lemma_unmasked_elsewhere(cipher, key, nonce, start + first.len(), start, second);
    lemma_unmasked_elsewhere(cipher, key, nonce, start, start + second.len(), first);
}

} // verus!
