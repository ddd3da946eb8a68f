//! The ciphers of the format: AES-256 and Twofish in CBC mode with PKCS#7
//! padding and ChaCha20 for the payload of a file, Salsa20 and ChaCha20 for
//! the stream that masks protected values.

use crate::envelope::result_view;
use crate::error::{Error, HeaderFault};
use crate::header::{iv_length, OuterCipher, FIELD_IV};
use crate::inner_header::InnerCipher;
use aes::Aes256;
use chacha20::ChaCha20;
use cipher::block_padding::NoPadding;
use cipher::{BlockDecryptMut, BlockEncryptMut, KeyIvInit, StreamCipher, StreamCipherSeek};
use salsa20::Salsa20;
use twofish::Twofish;
use vstd::prelude::*;

verus! {

/// The bytes of a block of the block ciphers.
pub const BLOCK: usize = 16;

/// The bytes of a key of every cipher of the format.
pub const KEY: usize = 32;

/// The keystream of ChaCha20 that this module promises to deliver: the
/// cipher ends after 2^38 bytes, and half of that is asked for at most.
pub const CHACHA20_REACH: u64 = 0x20_0000_0000;

/// The keystream of Salsa20 that this module promises to deliver.
pub const SALSA20_REACH: u64 = 0x7FFF_FFFF_FFFF_FFFF;

/// AES-256 in CBC mode, without padding, of whole blocks.
pub uninterp spec fn aes256_cbc_encrypted(key: Seq<u8>, iv: Seq<u8>, blocks: Seq<u8>) -> Seq<u8>;

/// The inverse of AES-256 in CBC mode, without padding, on whole blocks.
pub uninterp spec fn aes256_cbc_decrypted(key: Seq<u8>, iv: Seq<u8>, blocks: Seq<u8>) -> Seq<u8>;

/// Twofish in CBC mode, without padding, of whole blocks.
pub uninterp spec fn twofish_cbc_encrypted(key: Seq<u8>, iv: Seq<u8>, blocks: Seq<u8>) -> Seq<u8>;

/// The inverse of Twofish in CBC mode, without padding, on whole blocks.
pub uninterp spec fn twofish_cbc_decrypted(key: Seq<u8>, iv: Seq<u8>, blocks: Seq<u8>) -> Seq<u8>;

/// The byte at `position` of the keystream of ChaCha20 under a key of 32
/// bytes and a nonce of 12.
pub uninterp spec fn chacha20_keystream(key: Seq<u8>, nonce: Seq<u8>, position: int) -> u8;

/// The byte at `position` of the keystream of Salsa20 under a key of 32
/// bytes and a nonce of 8.
pub uninterp spec fn salsa20_keystream(key: Seq<u8>, nonce: Seq<u8>, position: int) -> u8;

/// `cbc::Encryptor::<aes::Aes256>` (`KeyIvInit::new_from_slices`,
/// `BlockEncryptMut::encrypt_padded_vec_mut` without padding): whole blocks
/// are encrypted to as many bytes, and decrypting those under the same key
/// and vector gives the blocks back.
#[verifier::external_body]
pub(crate) fn aes256_cbc_encrypt(key: &[u8], iv: &[u8], blocks: &[u8]) -> (r: Vec<u8>)
    requires
        key@.len() == KEY,
        iv@.len() == BLOCK,
        blocks@.len() % 16 == 0,
    ensures
        r@ == aes256_cbc_encrypted(key@, iv@, blocks@),
        r@.len() == blocks@.len(),
        aes256_cbc_decrypted(key@, iv@, r@) == blocks@,
{
    let cipher = cbc::Encryptor::<Aes256>::new_from_slices(key, iv).unwrap();
    cipher.encrypt_padded_vec_mut::<NoPadding>(blocks)
}

/// `cbc::Decryptor::<aes::Aes256>` (`KeyIvInit::new_from_slices`,
/// `BlockDecryptMut::decrypt_padded_vec_mut` without padding): whole blocks
/// are decrypted to as many bytes.
#[verifier::external_body]
pub(crate) fn aes256_cbc_decrypt(key: &[u8], iv: &[u8], blocks: &[u8]) -> (r: Vec<u8>)
    requires
        key@.len() == KEY,
        iv@.len() == BLOCK,
        blocks@.len() % 16 == 0,
    ensures
        r@ == aes256_cbc_decrypted(key@, iv@, blocks@),
        r@.len() == blocks@.len(),
{
    let cipher = cbc::Decryptor::<Aes256>::new_from_slices(key, iv).unwrap();
    cipher.decrypt_padded_vec_mut::<NoPadding>(blocks).unwrap()
}

/// `cbc::Encryptor::<twofish::Twofish>` (`KeyIvInit::new_from_slices`,
/// `BlockEncryptMut::encrypt_padded_vec_mut` without padding): whole blocks
/// are encrypted to as many bytes, and decrypting those under the same key
/// and vector gives the blocks back.
#[verifier::external_body]
pub(crate) fn twofish_cbc_encrypt(key: &[u8], iv: &[u8], blocks: &[u8]) -> (r: Vec<u8>)
    requires
        key@.len() == KEY,
        iv@.len() == BLOCK,
        blocks@.len() % 16 == 0,
    ensures
        r@ == twofish_cbc_encrypted(key@, iv@, blocks@),
        r@.len() == blocks@.len(),
        twofish_cbc_decrypted(key@, iv@, r@) == blocks@,
{
    let cipher = cbc::Encryptor::<Twofish>::new_from_slices(key, iv).unwrap();
    cipher.encrypt_padded_vec_mut::<NoPadding>(blocks)
}

/// `cbc::Decryptor::<twofish::Twofish>` (`KeyIvInit::new_from_slices`,
/// `BlockDecryptMut::decrypt_padded_vec_mut` without padding): whole blocks
/// are decrypted to as many bytes.
#[verifier::external_body]
pub(crate) fn twofish_cbc_decrypt(key: &[u8], iv: &[u8], blocks: &[u8]) -> (r: Vec<u8>)
    requires
        key@.len() == KEY,
        iv@.len() == BLOCK,
        blocks@.len() % 16 == 0,
    ensures
        r@ == twofish_cbc_decrypted(key@, iv@, blocks@),
        r@.len() == blocks@.len(),
{
    let cipher = cbc::Decryptor::<Twofish>::new_from_slices(key, iv).unwrap();
    cipher.decrypt_padded_vec_mut::<NoPadding>(blocks).unwrap()
}

/// `chacha20::ChaCha20` (`KeyIvInit::new_from_slices`,
/// `StreamCipherSeek::try_seek`, `StreamCipher::try_apply_keystream` on
/// zeros): `length` bytes of the keystream from `position` on. Within
/// `CHACHA20_REACH` the cipher delivers them.
#[verifier::external_body]
pub(crate) fn chacha20_keystream_at(key: &[u8], nonce: &[u8], position: u64, length: usize) -> (r:
    Option<Vec<u8>>)
    requires
        key@.len() == KEY,
        nonce@.len() == 12,
    ensures
        position + length <= CHACHA20_REACH ==> r is Some,
        r is Some ==> r.unwrap()@ == Seq::new(
            length as nat,
            |i: int| chacha20_keystream(key@, nonce@, position + i),
        ),
{
    let mut cipher = ChaCha20::new_from_slices(key, nonce).unwrap();
    let mut out = vec![0u8; length];
    if cipher.try_seek(position).is_err() || cipher.try_apply_keystream(&mut out).is_err() {
        return None;
    }
    Some(out)
}

/// `salsa20::Salsa20` (`KeyIvInit::new_from_slices`,
/// `StreamCipherSeek::try_seek`, `StreamCipher::try_apply_keystream` on
/// zeros): `length` bytes of the keystream from `position` on. Within
/// `SALSA20_REACH` the cipher delivers them.
#[verifier::external_body]
pub(crate) fn salsa20_keystream_at(key: &[u8], nonce: &[u8], position: u64, length: usize) -> (r:
    Option<Vec<u8>>)
    requires
        key@.len() == KEY,
        nonce@.len() == 8,
    ensures
        position + length <= SALSA20_REACH ==> r is Some,
        r is Some ==> r.unwrap()@ == Seq::new(
            length as nat,
            |i: int| salsa20_keystream(key@, nonce@, position + i),
        ),
{
    let mut cipher = Salsa20::new_from_slices(key, nonce).unwrap();
    let mut out = vec![0u8; length];
    if cipher.try_seek(position).is_err() || cipher.try_apply_keystream(&mut out).is_err() {
        return None;
    }
    Some(out)
}

/// The bytes that PKCS#7 adds to `length` bytes to fill whole blocks: at
/// least one, at most a block.
pub open spec fn pkcs7_added(length: nat) -> nat {
    (BLOCK - length % BLOCK as nat) as nat
}

/// `data` padded after PKCS#7: each added byte holds the number of bytes
/// added.
pub open spec fn pkcs7_padded(data: Seq<u8>) -> Seq<u8> {
    data + Seq::new(pkcs7_added(data.len()), |i: int| pkcs7_added(data.len()) as u8)
}

/// Whether `blocks` end in a padding after PKCS#7: they are whole blocks and
/// not none, their last byte is a number from 1 to 16, and as many bytes at
/// the end hold that number.
pub open spec fn pkcs7_ends(blocks: Seq<u8>) -> bool {
    &&& blocks.len() > 0
    &&& blocks.len() % BLOCK as nat == 0
    &&& 1 <= blocks.last() <= BLOCK
    &&& forall|i: int| blocks.len() - blocks.last() <= i < blocks.len() ==> blocks[i] == blocks.last()
}

/// `blocks` without its padding, where it ends in one.
pub open spec fn pkcs7_unpadded(blocks: Seq<u8>) -> Option<Seq<u8>> {
    if pkcs7_ends(blocks) {
        Some(blocks.take(blocks.len() - blocks.last()))
    } else {
        None
    }
}

/// Pads `data` after PKCS#7.
pub fn pad(data: &[u8]) -> (r: Vec<u8>)
    ensures
        r@ == pkcs7_padded(data@),
        r@.len() % 16 == 0,
{
    let added: usize = BLOCK - data.len() % BLOCK;
    let mut r = vstd::slice::slice_to_vec(data);
    let mut i: usize = 0;
    while i < added
        invariant
            0 <= i <= added,
            added == pkcs7_added(data@.len()),
            r@ == data@ + Seq::new(i as nat, |j: int| added as u8),
        decreases added - i,
    {
        r.push(added as u8);
        assert(r@ =~= data@ + Seq::new((i + 1) as nat, |j: int| added as u8));
        i += 1;
    }
    r
}

/// Takes the padding after PKCS#7 off `blocks`, where they end in one.
pub fn unpad(blocks: &[u8]) -> (r: Option<Vec<u8>>)
    ensures
        match r {
            Some(data) => pkcs7_unpadded(blocks@) == Some(data@),
            None => pkcs7_unpadded(blocks@) is None,
        },
{
    let n: usize = blocks.len();
    if n == 0 || n % BLOCK != 0 {
        return None;
    }
    let last: u8 = blocks[n - 1];
    assert(last == blocks@.last());
    if last < 1 || last as usize > BLOCK {
        return None;
    }
    let start: usize = n - last as usize;
    let mut i: usize = start;
    while i < n
        invariant
            start <= i <= n,
            n == blocks@.len(),
            start == n - last,
            last == blocks@.last(),
            forall|j: int| start <= j < i ==> blocks@[j] == last,
        decreases n - i,
    {
        if blocks[i] != last {
            return None;
        }
        i += 1;
    }
    let data = vstd::slice::slice_subrange(blocks, 0, start);
    Some(vstd::slice::slice_to_vec(data))
}

/// Taking off the padding that was put on gives the data back.
pub proof fn lemma_unpad_padded(data: Seq<u8>)
    ensures
        pkcs7_padded(data).len() % 16 == 0,
        pkcs7_unpadded(pkcs7_padded(data)) == Some(data),
{
    let padded = pkcs7_padded(data);
    let added = pkcs7_added(data.len());
    assert(padded.last() == added as u8);
    assert(padded.take(padded.len() - added) =~= data);
}

/// The length of the nonce that a stream cipher takes.
pub open spec fn nonce_length(cipher: InnerCipher) -> nat {
    match cipher {
        InnerCipher::Salsa20 => 8,
        InnerCipher::ChaCha20 => 12,
    }
}

/// The keystream of a stream cipher that this module promises to deliver.
pub open spec fn reach(cipher: InnerCipher) -> u64 {
    match cipher {
        InnerCipher::Salsa20 => SALSA20_REACH,
        InnerCipher::ChaCha20 => CHACHA20_REACH,
    }
}

/// The byte at `position` of the keystream of a stream cipher.
pub open spec fn stream_byte(cipher: InnerCipher, key: Seq<u8>, nonce: Seq<u8>, position: int) -> u8 {
    match cipher {
        InnerCipher::Salsa20 => salsa20_keystream(key, nonce, position),
        InnerCipher::ChaCha20 => chacha20_keystream(key, nonce, position),
    }
}

/// `data` masked with the keystream from `position` on: byte by byte, the
/// exclusive or of the two.
pub open spec fn masked(
    cipher: InnerCipher,
    key: Seq<u8>,
    nonce: Seq<u8>,
    position: int,
    data: Seq<u8>,
) -> Seq<u8> {
    Seq::new(data.len(), |i: int| data[i] ^ stream_byte(cipher, key, nonce, position + i))
}

/// Masks `data` with the keystream of a stream cipher from `position` on;
/// nothing where the keystream that the module promises ends before the
/// data does.
pub fn apply_stream(cipher: InnerCipher, key: &[u8], nonce: &[u8], position: u64, data: &[u8]) -> (r:
    Option<Vec<u8>>)
    requires
        key@.len() == KEY,
        nonce@.len() == nonce_length(cipher),
    ensures
        match r {
            Some(out) => position + data@.len() <= reach(cipher) && out@ == masked(
                cipher,
                key@,
                nonce@,
                position as int,
                data@,
            ),
            None => position + data@.len() > reach(cipher),
        },
{
    let limit: u64 = match cipher {
        InnerCipher::Salsa20 => SALSA20_REACH,
        InnerCipher::ChaCha20 => CHACHA20_REACH,
    };
    let length: usize = data.len();
    if position > limit || length as u64 > limit - position {
        return None;
    }
    let keystream = match cipher {
        InnerCipher::Salsa20 => salsa20_keystream_at(key, nonce, position, length),
        InnerCipher::ChaCha20 => chacha20_keystream_at(key, nonce, position, length),
    };
    match keystream {
        None => None,
        Some(keystream) => {
            let mut out: Vec<u8> = Vec::new();
            let mut i: usize = 0;
            while i < length
                invariant
                    0 <= i <= length,
                    length == data@.len(),
                    keystream@ == Seq::new(
                        length as nat,
                        |j: int| stream_byte(cipher, key@, nonce@, position + j),
                    ),
                    out@ == masked(cipher, key@, nonce@, position as int, data@.take(i as int)),
                decreases length - i,
            {
                out.push(data[i] ^ keystream[i]);
                assert(out@ =~= masked(
                    cipher,
                    key@,
                    nonce@,
                    position as int,
                    data@.take(i + 1),
                ));
                i += 1;
            }
            assert(data@.take(length as int) =~= data@);
            Some(out)
        },
    }
}

/// The payload of a file encrypted: padded after PKCS#7 and encrypted in
/// CBC mode under AES-256 or Twofish, or masked with the keystream of
/// ChaCha20 from its start. The key has 32 bytes, or the error is
/// `InvalidKeyLength`; the vector has the length that the cipher takes.
pub open spec fn outer_encrypted(cipher: OuterCipher, key: Seq<u8>, iv: Seq<u8>, data: Seq<u8>) -> Result<
    Seq<u8>,
    Error,
> {
    if key.len() != KEY {
        Err(Error::InvalidKeyLength)
    } else if iv.len() != iv_length(cipher) {
        Err(Error::MalformedHeader(FIELD_IV, HeaderFault::Length))
    } else {
        match cipher {
            OuterCipher::Aes256 => Ok(aes256_cbc_encrypted(key, iv, pkcs7_padded(data))),
            OuterCipher::Twofish => Ok(twofish_cbc_encrypted(key, iv, pkcs7_padded(data))),
            OuterCipher::ChaCha20 => if data.len() > CHACHA20_REACH {
                Err(Error::PaddingError)
            } else {
                Ok(masked(InnerCipher::ChaCha20, key, iv, 0, data))
            },
        }
    }
}

/// The payload of a file decrypted. Under AES-256 and Twofish, what is not
/// whole blocks, or does not end in a padding once decrypted, is
/// `PaddingError`.
pub open spec fn outer_decrypted(cipher: OuterCipher, key: Seq<u8>, iv: Seq<u8>, data: Seq<u8>) -> Result<
    Seq<u8>,
    Error,
> {
    if key.len() != KEY {
        Err(Error::InvalidKeyLength)
    } else if iv.len() != iv_length(cipher) {
        Err(Error::MalformedHeader(FIELD_IV, HeaderFault::Length))
    } else {
        match cipher {
            OuterCipher::Aes256 => if data.len() % BLOCK as nat != 0 {
                Err(Error::PaddingError)
            } else {
                match pkcs7_unpadded(aes256_cbc_decrypted(key, iv, data)) {
                    Some(plain) => Ok(plain),
                    None => Err(Error::PaddingError),
                }
            },
            OuterCipher::Twofish => if data.len() % BLOCK as nat != 0 {
                Err(Error::PaddingError)
            } else {
                match pkcs7_unpadded(twofish_cbc_decrypted(key, iv, data)) {
                    Some(plain) => Ok(plain),
                    None => Err(Error::PaddingError),
                }
            },
            OuterCipher::ChaCha20 => if data.len() > CHACHA20_REACH {
                Err(Error::PaddingError)
            } else {
                Ok(masked(InnerCipher::ChaCha20, key, iv, 0, data))
            },
        }
    }
}

/// Masking twice from one position gives the data back.
pub proof fn lemma_masked_twice(
    cipher: InnerCipher,
    key: Seq<u8>,
    nonce: Seq<u8>,
    position: int,
    data: Seq<u8>,
)
    ensures
        masked(cipher, key, nonce, position, masked(cipher, key, nonce, position, data)) == data,
{
    let once = masked(cipher, key, nonce, position, data);
    let twice = masked(cipher, key, nonce, position, once);
    assert forall|i: int| 0 <= i < data.len() implies twice[i] == data[i] by {
        let x = data[i];
        let s = stream_byte(cipher, key, nonce, position + i);
        assert((x ^ s) ^ s == x) by (bit_vector);
    }
    assert(twice =~= data);
}

/// The keystream of a stream cipher from `position` on, `length` bytes of
/// it.
pub open spec fn keystream(
    cipher: InnerCipher,
    key: Seq<u8>,
    nonce: Seq<u8>,
    position: int,
    length: nat,
) -> Seq<u8> {
    Seq::new(length, |i: int| stream_byte(cipher, key, nonce, position + i))
}

/// What was masked from one position and is unmasked from another is the
/// data again just where the keystream is the same from both, over the
/// length of the data.
pub proof fn lemma_unmasked_elsewhere(
    cipher: InnerCipher,
    key: Seq<u8>,
    nonce: Seq<u8>,
    written: int,
    read: int,
    data: Seq<u8>,
)
    ensures
        masked(cipher, key, nonce, read, masked(cipher, key, nonce, written, data)) == data
            <==> keystream(cipher, key, nonce, written, data.len()) == keystream(
            cipher,
            key,
            nonce,
            read,
            data.len(),
        ),
{
    let once = masked(cipher, key, nonce, written, data);
    let twice = masked(cipher, key, nonce, read, once);
    let there = keystream(cipher, key, nonce, written, data.len());
    let here = keystream(cipher, key, nonce, read, data.len());
    assert forall|i: int| 0 <= i < data.len() implies (twice[i] == data[i] <==> there[i]
        == here[i]) by {
        let x = data[i];
        let a = stream_byte(cipher, key, nonce, written + i);
        let b = stream_byte(cipher, key, nonce, read + i);
        assert(((x ^ a) ^ b == x) <==> a == b) by (bit_vector);
    }
    if there == here {
        assert(twice =~= data);
    }
    if twice == data {
        assert(there =~= here);
    }
}

/// Encrypts the payload of a file. What comes out decrypts, under the same
/// cipher, key and vector, to the data.
pub fn encrypt_payload(cipher: OuterCipher, key: &[u8], iv: &[u8], data: &[u8]) -> (r: Result<
    Vec<u8>,
    Error,
>)
    ensures
        result_view(r) == outer_encrypted(cipher, key@, iv@, data@),
        r matches Ok(out) ==> outer_decrypted(cipher, key@, iv@, out@) == Ok::<Seq<u8>, Error>(
            data@,
        ),
{
    if key.len() != KEY {
        return Err(Error::InvalidKeyLength);
    }
    if iv.len() != cipher.iv_size() {
        return Err(Error::MalformedHeader(FIELD_IV, HeaderFault::Length));
    }
    proof {
        lemma_unpad_padded(data@);
        lemma_masked_twice(InnerCipher::ChaCha20, key@, iv@, 0, data@);
    }
    match cipher {
        OuterCipher::Aes256 => Ok(aes256_cbc_encrypt(key, iv, pad(data).as_slice())),
        OuterCipher::Twofish => Ok(twofish_cbc_encrypt(key, iv, pad(data).as_slice())),
        OuterCipher::ChaCha20 => match apply_stream(InnerCipher::ChaCha20, key, iv, 0, data) {
            Some(out) => Ok(out),
            None => Err(Error::PaddingError),
        },
    }
}

/// Decrypts the payload of a file.
pub fn decrypt_payload(cipher: OuterCipher, key: &[u8], iv: &[u8], data: &[u8]) -> (r: Result<
    Vec<u8>,
    Error,
>)
    ensures
        result_view(r) == outer_decrypted(cipher, key@, iv@, data@),
{
    if key.len() != KEY {
        return Err(Error::InvalidKeyLength);
    }
    if iv.len() != cipher.iv_size() {
        return Err(Error::MalformedHeader(FIELD_IV, HeaderFault::Length));
    }
    match cipher {
        OuterCipher::Aes256 => {
            if data.len() % BLOCK != 0 {
                return Err(Error::PaddingError);
            }
            match unpad(aes256_cbc_decrypt(key, iv, data).as_slice()) {
                Some(plain) => Ok(plain),
                None => Err(Error::PaddingError),
            }
        },
        OuterCipher::Twofish => {
            if data.len() % BLOCK != 0 {
                return Err(Error::PaddingError);
            }
            match unpad(twofish_cbc_decrypt(key, iv, data).as_slice()) {
                Some(plain) => Ok(plain),
                None => Err(Error::PaddingError),
            }
        },
        OuterCipher::ChaCha20 => match apply_stream(InnerCipher::ChaCha20, key, iv, 0, data) {
            Some(out) => Ok(out),
            None => Err(Error::PaddingError),
        },
    }
}

} // verus!
