//! A database as a file holds it around its document, and the way from the
//! bytes of a file to it and back.
//!
//! Reading takes the layers off in their order: the outer header and its
//! digest, the key derivation, the tag of the header and the frames of the
//! envelope, the cipher, the compression, the inner header, and the mask
//! of the protected values of the document. Writing puts the layers on in
//! the reverse order, each time under a master seed, a vector, a seed or
//! salt and a key of the stream that are drawn anew. A fault at any layer
//! ends the reading, and nothing of the layers below it is handed out.

use crate::bytes::{append, wipe, wipe_bytes};
use crate::compress::{compress, decompress, decompressed};
use crate::container::{
    authenticate, authenticated, container_bytes, header_mac, lemma_changed_digest_is_refused,
    lemma_changed_frame_payload_is_refused, lemma_changed_frame_tag_is_refused,
    lemma_changed_header_tag_is_refused, lemma_open_sealed,
    open_container, seal_written, HEADER_INDEX,
};
use crate::document::{
    canonical, document_bytes, document_of, lemma_document_read_back, unwritable, Doc, Document,
};
use crate::envelope::{payload_at, payload_retagged, result_view, tag_at};
use crate::protect::{stream_key, stream_nonce, InnerStream};
use crate::header::DIGEST;
use crate::crypt::ciphers::{
    decrypt_payload, encrypt_payload, outer_decrypted, CHACHA20_REACH,
};
use crate::crypt::kdf::{
    entries_of, kdf_of, lemma_kdf_of_entries, storable, transformed, Kdf, KdfSettings,
};
use crate::error::Error;
use crate::bytes::to_array;
use crate::header::{
    iv_length, parse_header, write_header, written_header, Compression, Header, OuterCipher,
    OuterHeader,
};
use crate::inner_header::{
    inner_bytes, lemma_parse_written_inner, parse_inner, write_inner, written_inner, Attachment,
    Binary, Inner, InnerCipher, InnerHeader,
};
use crate::crypt::{
    hmac_outer, lemma_hmac_block_keys_apart, sha256_tells_apart, sha512_tells_apart,
};
use crate::key::{
    block_key, composite_hash, composite_key, derive_hmac_key, hmac_key, KeyComponent,
};
use vstd::bytes::{lemma_auto_spec_u64_to_from_le_bytes, spec_u64_to_le_bytes};
use crate::variant::{Entry, VariantDictionary};
use vstd::prelude::*;
use vstd::slice::{slice_subrange, slice_to_vec};

verus! {

/// The minor version that is written.
pub const VERSION_MINOR: u16 = 0;

/// How a database is kept in its file.
#[derive(Debug, Clone, PartialEq, Eq)]
pub struct DatabaseConfig {
    pub outer_cipher: OuterCipher,
    pub compression: Compression,
    pub inner_cipher: InnerCipher,
    pub kdf: KdfSettings,
    pub public_custom_data: Option<VariantDictionary>,
}

/// A database around its document.
#[derive(Debug, Clone, PartialEq, Eq)]
pub struct Database {
    pub config: DatabaseConfig,
    /// The binary attachments, which the document names by their ordinals.
    pub binaries: Vec<Attachment>,
    /// The document: the tree of groups and entries in its written form,
    /// its protected values not masked.
    pub document: Document,
}

/// What is drawn anew each time a database is written.
#[derive(Debug, Clone, PartialEq, Eq)]
pub struct Fresh {
    pub master_seed: [u8; 32],
    pub outer_iv: Vec<u8>,
    /// The seed of AES-KDF or the salt of Argon2.
    pub kdf_salt: Vec<u8>,
    /// The key of the stream that masks the protected values of the
    /// document.
    pub inner_key: Vec<u8>,
}

/// What was drawn for a writing.
pub struct Drawn {
    pub master_seed: Seq<u8>,
    pub outer_iv: Seq<u8>,
    pub kdf_salt: Seq<u8>,
    pub inner_key: Seq<u8>,
}

impl View for Fresh {
    type V = Drawn;

    open spec fn view(&self) -> Drawn {
        Drawn {
            master_seed: self.master_seed@,
            outer_iv: self.outer_iv@,
            kdf_salt: self.kdf_salt@,
            inner_key: self.inner_key@,
        }
    }
}

/// What a database is.
pub struct Db {
    pub outer_cipher: OuterCipher,
    pub compression: Compression,
    pub inner_cipher: InnerCipher,
    pub kdf: Kdf,
    pub public_custom_data: Option<Seq<Entry>>,
    pub binaries: Seq<Binary>,
    pub document: Doc,
}

impl View for Database {
    type V = Db;

    open spec fn view(&self) -> Db {
        Db {
            outer_cipher: self.config.outer_cipher,
            compression: self.config.compression,
            inner_cipher: self.config.inner_cipher,
            kdf: self.config.kdf@,
            public_custom_data: match self.config.public_custom_data {
                Some(d) => Some(d@),
                None => None,
            },
            binaries: self.binaries@.map_values(|a: Attachment| a@),
            document: self.document@,
        }
    }
}

/// The database of a result, or its error.
pub open spec fn database_view(r: Result<Database, Error>) -> Result<Db, Error> {
    match r {
        Ok(db) => Ok(db@),
        Err(e) => Err(e),
    }
}

/// The settings with another seed or salt.
pub open spec fn with_salt(kdf: Kdf, fresh: Seq<u8>) -> Kdf {
    match kdf {
        Kdf::Aes { seed, rounds } => Kdf::Aes { seed: fresh, rounds },
        Kdf::Argon2 { variant, salt, iterations, memory, parallelism, version } => Kdf::Argon2 {
            variant,
            salt: fresh,
            iterations,
            memory,
            parallelism,
            version,
        },
    }
}

/// The database as it is read back once it was written: its key
/// derivation has the seed or salt that was drawn for the writing.
pub open spec fn refreshed(db: Db, kdf_salt: Seq<u8>) -> Db {
    Db { kdf: with_salt(db.kdf, kdf_salt), ..db }
}

/// The outer header that a database is written under.
pub open spec fn header_of(db: Db, master_seed: Seq<u8>, outer_iv: Seq<u8>, kdf_salt: Seq<u8>) -> Header {
    Header {
        version_minor: VERSION_MINOR,
        cipher: db.outer_cipher,
        compression: db.compression,
        master_seed,
        outer_iv,
        kdf_parameters: entries_of(with_salt(db.kdf, kdf_salt)),
        public_custom_data: db.public_custom_data,
    }
}

/// The inner header of a database under the key that was drawn for its
/// stream.
pub open spec fn inner_of(db: Db, inner_key: Seq<u8>) -> Inner {
    Inner { cipher: db.inner_cipher, key: inner_key, binaries: db.binaries }
}

/// The length of the key that is drawn for a stream: 32 bytes for Salsa20,
/// 64 for ChaCha20.
pub open spec fn inner_key_length(cipher: InnerCipher) -> nat {
    match cipher {
        InnerCipher::Salsa20 => 32,
        InnerCipher::ChaCha20 => 64,
    }
}

/// Whether a stream cipher takes the key that the inner header gives:
/// Salsa20 takes a key of 32 bytes and no other.
pub open spec fn stream_takes(cipher: InnerCipher, inner_key: Seq<u8>) -> bool {
    cipher == InnerCipher::Salsa20 ==> inner_key.len() == 32
}

/// The written form of the document of a database, its protected values
/// masked with the stream under the key that was drawn.
pub open spec fn masked_document(db: Db, inner_key: Seq<u8>) -> Seq<u8> {
    document_bytes(
        db.document,
        db.inner_cipher,
        stream_key(db.inner_cipher, inner_key),
        stream_nonce(db.inner_cipher, inner_key),
        0,
    )
}

/// What is compressed and encrypted: the inner header and the document.
pub open spec fn plain_payload(db: Db, inner_key: Seq<u8>) -> Seq<u8> {
    inner_bytes(inner_of(db, inner_key)) + masked_document(db, inner_key)
}

/// The database that a header and the plain payload of its file make, or
/// the first fault met: that of the inner header, a key that the stream
/// cipher does not take, or that of the document.
pub open spec fn assembled(header: Header, kdf: Kdf, plain: Seq<u8>) -> Result<Db, Error> {
    match parse_inner(plain) {
        Err(e) => Err(e),
        Ok(inner) => if !stream_takes(inner.header.cipher, inner.header.key) {
            Err(Error::InvalidKeyLength)
        } else {
            match document_of(
                plain.skip(inner.length),
                inner.header.cipher,
                stream_key(inner.header.cipher, inner.header.key),
                stream_nonce(inner.header.cipher, inner.header.key),
                0,
                0,
            ) {
                Err(e) => Err(e),
                Ok(document) => Ok(
                    Db {
                        outer_cipher: header.cipher,
                        compression: header.compression,
                        inner_cipher: inner.header.cipher,
                        kdf,
                        public_custom_data: header.public_custom_data,
                        binaries: inner.header.binaries,
                        document,
                    },
                ),
            }
        },
    }
}

/// The database that the encrypted payload of a file holds under the
/// master key, or the first fault met.
pub open spec fn unwrapped(header: Header, kdf: Kdf, master: Seq<u8>, ciphertext: Seq<u8>) -> Result<
    Db,
    Error,
> {
    match outer_decrypted(header.cipher, master, header.outer_iv, ciphertext) {
        Err(e) => Err(e),
        Ok(compressed) => match decompressed(header.compression, compressed) {
            Err(e) => Err(e),
            Ok(plain) => assembled(header, kdf, plain),
        },
    }
}

/// What reading a file gives under the given composite hash: the database,
/// or the first fault met. The faults come in the order of the layers: those
/// of the outer header and its digest, those of the key derivation, a tag
/// that does not hold, those of the cipher, of the compression and of the
/// inner header.
pub open spec fn parsed(bytes: Seq<u8>, composite: Seq<u8>) -> Result<Db, Error> {
    match parse_header(bytes) {
        Err(e) => Err(e),
        Ok(p) => match kdf_of(p.header.kdf_parameters) {
            Err(e) => Err(e),
            Ok(kdf) => match transformed(kdf, composite) {
                Err(e) => Err(e),
                Ok(master) => match authenticated(
                    bytes,
                    p.length,
                    hmac_key(p.header.master_seed, composite)@,
                ) {
                    Err(e) => Err(e),
                    Ok(ciphertext) => unwrapped(p.header, kdf, master, ciphertext),
                },
            },
        },
    }
}

/// The key of the stream of the document that a file holds in its inner
/// header, where the file is read that far under the composite hash.
pub open spec fn inner_key_in(bytes: Seq<u8>, composite: Seq<u8>) -> Option<Seq<u8>> {
    match parse_header(bytes) {
        Err(_) => None,
        Ok(p) => match kdf_of(p.header.kdf_parameters) {
            Err(_) => None,
            Ok(kdf) => match transformed(kdf, composite) {
                Err(_) => None,
                Ok(master) => match authenticated(
                    bytes,
                    p.length,
                    hmac_key(p.header.master_seed, composite)@,
                ) {
                    Err(_) => None,
                    Ok(ciphertext) => match outer_decrypted(
                        p.header.cipher,
                        master,
                        p.header.outer_iv,
                        ciphertext,
                    ) {
                        Err(_) => None,
                        Ok(compressed) => match decompressed(p.header.compression, compressed) {
                            Err(_) => None,
                            Ok(plain) => match parse_inner(plain) {
                                Err(_) => None,
                                Ok(inner) => Some(inner.header.key),
                            },
                        },
                    },
                },
            },
        },
    }
}

/// Whether the bytes of a file start with the given header and its digest.
pub open spec fn written_under(bytes: Seq<u8>, header: Header) -> bool {
    parse_header(bytes) matches Ok(p) && p.header == header
}

/// Why a database cannot be written, as far as that shows before anything
/// is compressed or encrypted: its key derivation cannot be held in a
/// dictionary, one of its headers cannot be written, the stream cipher does
/// not take the key, the document is not canonical or holds a value that
/// cannot be masked, or its key derivation gives no key.
pub open spec fn dump_fault(db: Db, drawn: Drawn, composite: Seq<u8>) -> Option<Error> {
    let header = header_of(db, drawn.master_seed, drawn.outer_iv, drawn.kdf_salt);
    if !storable(with_salt(db.kdf, drawn.kdf_salt)) {
        Some(Error::InvalidKdfParams)
    } else if crate::header::write_fault(header) is Some {
        crate::header::write_fault(header)
    } else if crate::inner_header::write_fault(inner_of(db, drawn.inner_key)) is Some {
        crate::inner_header::write_fault(inner_of(db, drawn.inner_key))
    } else if !stream_takes(db.inner_cipher, drawn.inner_key) {
        Some(Error::InvalidKeyLength)
    } else if !canonical(db.document) {
        Some(Error::DocumentParseError(0))
    } else if unwritable(db.document, db.inner_cipher, 0, 0) is Some {
        Some(
            Error::InvalidValueEncoding(
                unwritable(db.document, db.inner_cipher, 0, 0).unwrap() as u64,
            ),
        )
    } else {
        match transformed(with_salt(db.kdf, drawn.kdf_salt), composite) {
            Err(e) => Some(e),
            Ok(_) => None,
        }
    }
}

/// What the random source gave for a writing, put together: a master seed
/// of 32 bytes, a vector of the length that the cipher takes, 32 bytes of
/// seed or salt, and a key of the length that is drawn for the stream;
/// nothing where the source failed for one of them or gave another length.
pub open spec fn drawn_of(
    cipher: OuterCipher,
    inner_cipher: InnerCipher,
    master_seed: Option<Seq<u8>>,
    outer_iv: Option<Seq<u8>>,
    kdf_salt: Option<Seq<u8>>,
    inner_key: Option<Seq<u8>>,
) -> Option<Drawn> {
    match (master_seed, outer_iv, kdf_salt, inner_key) {
        (Some(master_seed), Some(outer_iv), Some(kdf_salt), Some(inner_key)) => if master_seed.len()
            == 32 && outer_iv.len() == iv_length(cipher) && kdf_salt.len() == 32
            && inner_key.len() == inner_key_length(inner_cipher) {
            Some(Drawn { master_seed, outer_iv, kdf_salt, inner_key })
        } else {
            None
        },
        _ => None,
    }
}

/// Whether what was drawn has the lengths that are drawn for a database.
pub open spec fn drawn_for(db: Db, drawn: Drawn) -> bool {
    drawn.master_seed.len() == 32 && drawn.outer_iv.len() == iv_length(db.outer_cipher)
        && drawn.kdf_salt.len() == 32 && drawn.inner_key.len() == inner_key_length(
        db.inner_cipher,
    )
}

/// Whether `r` is what writing a database gives under the composite hash
/// with what was drawn. Bytes are read back, under the same composite hash,
/// as the database with the seed or salt that was drawn, start with the
/// header of the database and of what was drawn, and hold the key of the
/// stream that was drawn. An error is the fault
/// that shows before anything is compressed or encrypted, or, where there
/// is none, that of ChaCha20 for a payload beyond its reach. Where nothing
/// stands against the writing there are bytes.
pub open spec fn written(db: Db, composite: Seq<u8>, drawn: Drawn, r: Result<Seq<u8>, Error>) -> bool {
    let fault = dump_fault(db, drawn, composite);
    &&& match r {
        Ok(bytes) => parsed(bytes, composite) == Ok::<Db, Error>(refreshed(db, drawn.kdf_salt))
            && written_under(
            bytes,
            header_of(db, drawn.master_seed, drawn.outer_iv, drawn.kdf_salt),
        ) && inner_key_in(bytes, composite) == Some(drawn.inner_key),
        Err(e) => match fault {
            Some(fault) => e == fault,
            None => e == Error::PaddingError && db.outer_cipher == OuterCipher::ChaCha20,
        },
    }
    &&& fault is None && (db.outer_cipher != OuterCipher::ChaCha20 || (db.compression
        == Compression::Uncompressed && plain_payload(db, drawn.inner_key).len()
        <= CHACHA20_REACH)) ==> r is Ok
}

/// Whether `r` is what writing a database gives once the random source
/// was asked: `InvalidKeyLength` where the source gave nothing, else what
/// the writing gives with what was drawn.
pub open spec fn written_after_draw(
    db: Db,
    composite: Seq<u8>,
    drawn: Option<Drawn>,
    r: Result<Seq<u8>, Error>,
) -> bool {
    match drawn {
        None => r == Err::<Seq<u8>, Error>(Error::InvalidKeyLength),
        Some(drawn) => written(db, composite, drawn, r),
    }
}

/// What was drawn, if anything was.
pub open spec fn drawn_view(drawn: Option<Fresh>) -> Option<Drawn> {
    match drawn {
        Some(fresh) => Some(fresh@),
        None => None,
    }
}

/// The bytes that were given, if any were.
pub open spec fn bytes_view(bytes: Option<Vec<u8>>) -> Option<Seq<u8>> {
    match bytes {
        Some(bytes) => Some(bytes@),
        None => None,
    }
}

impl KdfSettings {
    /// The settings with another seed or salt.
    pub fn with_salt(&self, fresh: &[u8]) -> (r: KdfSettings)
        ensures
            r@ == with_salt(self@, fresh@),
    {
        match self {
            KdfSettings::Aes { seed, rounds } => KdfSettings::Aes {
                seed: slice_to_vec(fresh),
                rounds: *rounds,
            },
            KdfSettings::Argon2 { variant, salt, iterations, memory, parallelism, version } => {
                KdfSettings::Argon2 {
                    variant: *variant,
                    salt: slice_to_vec(fresh),
                    iterations: *iterations,
                    memory: *memory,
                    parallelism: *parallelism,
                    version: *version,
                }
            },
        }
    }
}

/// Makes the database of a header and the plain payload of its file.
pub fn assemble(header: OuterHeader, kdf: KdfSettings, plain: &[u8]) -> (r: Result<Database, Error>)
    ensures
        database_view(r) == assembled(header@, kdf@, plain@),
{
    let (inner, start) = match InnerHeader::parse(plain) {
        Ok(read) => read,
        Err(e) => {
            return Err(e);
        },
    };
    let mut stream = match InnerStream::new(inner.cipher, inner.key.as_slice()) {
        Ok(stream) => stream,
        Err(e) => {
            return Err(e);
        },
    };
    let written = slice_subrange(plain, start, plain.len());
    assert(written@ =~= plain@.skip(start as int));
    let document = Document::read(written, &mut stream);
    stream.wipe();
    match document {
        Ok(document) => Ok(
            Database {
                config: DatabaseConfig {
                    outer_cipher: header.cipher,
                    compression: header.compression,
                    inner_cipher: inner.cipher,
                    kdf,
                    public_custom_data: header.public_custom_data,
                },
                binaries: inner.binaries,
                document,
            },
        ),
        Err(e) => Err(e),
    }
}

/// Takes the cipher, the compression and the inner header off the payload
/// of a file.
pub fn unwrap_payload(header: OuterHeader, kdf: KdfSettings, master: &[u8], ciphertext: &[u8]) -> (r:
    Result<Database, Error>)
    ensures
        database_view(r) == unwrapped(header@, kdf@, master@, ciphertext@),
{
    let compressed = match decrypt_payload(
        header.cipher,
        master,
        header.outer_iv.as_slice(),
        ciphertext,
    ) {
        Ok(compressed) => compressed,
        Err(e) => {
            return Err(e);
        },
    };
    let plain = match decompress(header.compression, compressed.as_slice()) {
        Ok(plain) => plain,
        Err(e) => {
            return Err(e);
        },
    };
    assemble(header, kdf, plain.as_slice())
}

/// Reads a file under the given composite hash.
pub fn parse_under(bytes: &[u8], composite: &[u8]) -> (r: Result<Database, Error>)
    ensures
        database_view(r) == parsed(bytes@, composite@),
{
    let (header, length) = match OuterHeader::parse(bytes) {
        Ok(read) => read,
        Err(e) => {
            return Err(e);
        },
    };
    let kdf = match KdfSettings::from_dictionary(&header.kdf_parameters) {
        Ok(kdf) => kdf,
        Err(e) => {
            return Err(e);
        },
    };
    let mut master = match kdf.transform_key(composite) {
        Ok(master) => master,
        Err(e) => {
            return Err(e);
        },
    };
    let mut key = derive_hmac_key(header.master_seed.as_slice(), composite);
    let ciphertext = authenticate(bytes, length, key.as_slice());
    wipe(&mut key);
    let r = match ciphertext {
        Ok(ciphertext) => unwrap_payload(header, kdf, master.as_slice(), ciphertext.as_slice()),
        Err(e) => Err(e),
    };
    wipe_bytes(&mut master);
    r
}

/// Reads a file with the given key components.
pub fn parse(bytes: &[u8], components: &[KeyComponent]) -> (r: Result<Database, Error>)
    ensures
        database_view(r) == parsed(bytes@, composite_hash(components@)@),
{
    let mut composite = composite_key(components);
    let r = parse_under(bytes, composite.as_slice());
    wipe(&mut composite);
    r
}

/// `getrandom::getrandom`: as many bytes as asked for, from the random
/// source of the system; nothing where the source fails.
#[verifier::external_body]
pub(crate) fn random_bytes(length: usize) -> (r: Option<Vec<u8>>)
    ensures
        r is Some ==> r.unwrap()@.len() == length,
{
    let mut out = vec![0u8; length];
    match getrandom::getrandom(&mut out) {
        Ok(()) => Some(out),
        Err(_) => None,
    }
}

impl Fresh {
    /// Puts together what the random source gave for a writing; nothing
    /// where the source failed for one of the four or gave another length
    /// than was asked for.
    pub fn from_drawn(
        cipher: OuterCipher,
        inner_cipher: InnerCipher,
        master_seed: Option<Vec<u8>>,
        outer_iv: Option<Vec<u8>>,
        kdf_salt: Option<Vec<u8>>,
        inner_key: Option<Vec<u8>>,
    ) -> (r: Option<Fresh>)
        ensures
            drawn_view(r) == drawn_of(
                cipher,
                inner_cipher,
                bytes_view(master_seed),
                bytes_view(outer_iv),
                bytes_view(kdf_salt),
                bytes_view(inner_key),
            ),
    {
        let key_length: usize = match inner_cipher {
            InnerCipher::Salsa20 => 32,
            InnerCipher::ChaCha20 => 64,
        };
        match (master_seed, outer_iv, kdf_salt, inner_key) {
            (Some(master_seed), Some(outer_iv), Some(kdf_salt), Some(inner_key)) => {
                if master_seed.len() == 32 && outer_iv.len() == cipher.iv_size() && kdf_salt.len()
                    == 32 && inner_key.len() == key_length {
                    Some(
                        Fresh {
                            master_seed: to_array::<32>(master_seed.as_slice()),
                            outer_iv,
                            kdf_salt,
                            inner_key,
                        },
                    )
                } else {
                    None
                }
            },
            _ => None,
        }
    }

    /// Draws what a writing needs from the random source of the system: a
    /// master seed, a vector of the length that the cipher takes, 32 bytes
    /// of seed or salt for the key derivation, and the key of the stream
    /// of the document. Nothing where the source fails.
    pub fn draw(cipher: OuterCipher, inner_cipher: InnerCipher) -> (r: Option<Fresh>)
        ensures
            r matches Some(fresh) ==> fresh.outer_iv@.len() == iv_length(cipher)
                && fresh.kdf_salt@.len() == 32 && fresh.inner_key@.len() == inner_key_length(
                inner_cipher,
            ),
    {
        let master_seed = random_bytes(32);
        let outer_iv = random_bytes(cipher.iv_size());
        let kdf_salt = random_bytes(32);
        let inner_key = random_bytes(
            match inner_cipher {
                InnerCipher::Salsa20 => 32,
                InnerCipher::ChaCha20 => 64,
            },
        );
        Fresh::from_drawn(cipher, inner_cipher, master_seed, outer_iv, kdf_salt, inner_key)
    }
}

/// Writes a database under the given composite hash, with the master seed,
/// the vector, the seed or salt and the key of the stream given. What
/// comes out is read back, under the same composite hash, as the database
/// with that seed or salt. Where nothing stands against the writing
/// beforehand, only ChaCha20 can still fail, for a payload beyond its
/// reach.
pub fn dump_under(db: &Database, composite: &[u8], fresh: &Fresh) -> (r: Result<Vec<u8>, Error>)
    ensures
        written(db@, composite@, fresh@, result_view(r)),
{
    let ghost header = header_of(db@, fresh.master_seed@, fresh.outer_iv@, fresh.kdf_salt@);
    let ghost inner = inner_of(db@, fresh.inner_key@);
    let ghost cipher = db@.inner_cipher;
    let ghost key = stream_key(cipher, fresh.inner_key@);
    let ghost nonce = stream_nonce(cipher, fresh.inner_key@);
    let kdf = db.config.kdf.with_salt(fresh.kdf_salt.as_slice());
    let dictionary = match kdf.to_dictionary() {
        Ok(dictionary) => dictionary,
        Err(e) => {
            return Err(e);
        },
    };
    assert(written_header(
        VERSION_MINOR,
        db.config.outer_cipher,
        db.config.compression,
        fresh.master_seed@,
        fresh.outer_iv@,
        &dictionary,
        &db.config.public_custom_data,
    ) == header);
    let written = match write_header(
        VERSION_MINOR,
        db.config.outer_cipher,
        db.config.compression,
        &fresh.master_seed,
        fresh.outer_iv.as_slice(),
        &dictionary,
        &db.config.public_custom_data,
    ) {
        Ok(written) => written,
        Err(e) => {
            return Err(e);
        },
    };
    assert(written_inner(db.config.inner_cipher, fresh.inner_key@, &db.binaries) == inner);
    let mut plain = match write_inner(
        db.config.inner_cipher,
        fresh.inner_key.as_slice(),
        &db.binaries,
    ) {
        Ok(bytes) => bytes,
        Err(e) => {
            return Err(e);
        },
    };
    let mut stream = match InnerStream::new(db.config.inner_cipher, fresh.inner_key.as_slice()) {
        Ok(stream) => stream,
        Err(e) => {
            return Err(e);
        },
    };
    if !db.document.is_canonical() {
        stream.wipe();
        return Err(Error::DocumentParseError(0));
    }
    let document = db.document.write(&mut stream);
    stream.wipe();
    let mut document = match document {
        Ok(document) => document,
        Err(e) => {
            return Err(e);
        },
    };
    append(&mut plain, document.as_slice());
    wipe_bytes(&mut document);
    assert(plain@ == plain_payload(db@, fresh.inner_key@));
    let mut master = match kdf.transform_key(composite) {
        Ok(master) => master,
        Err(e) => {
            wipe_bytes(&mut plain);
            return Err(e);
        },
    };
    let ghost plain_view = plain@;
    let compressed = compress(db.config.compression, plain.as_slice());
    wipe_bytes(&mut plain);
    let compressed = match compressed {
        Ok(compressed) => compressed,
        Err(e) => {
            wipe_bytes(&mut master);
            return Err(e);
        },
    };
    let ghost master_view = master@;
    let ciphertext = encrypt_payload(
        db.config.outer_cipher,
        master.as_slice(),
        fresh.outer_iv.as_slice(),
        compressed.as_slice(),
    );
    wipe_bytes(&mut master);
    let ciphertext = match ciphertext {
        Ok(ciphertext) => ciphertext,
        Err(e) => {
            return Err(e);
        },
    };
    let bytes = seal_written(
        written.as_slice(),
        fresh.master_seed.as_slice(),
        ciphertext.as_slice(),
        composite,
    );
    proof {
        assert(bytes@ == container_bytes(header, ciphertext@, composite@));
        lemma_open_sealed(header, ciphertext@, composite@);
        lemma_kdf_of_entries(kdf@);
        lemma_parse_written_inner(inner, masked_document(db@, fresh.inner_key@));
        assert(plain_view.skip(inner_bytes(inner).len() as int) =~= masked_document(
            db@,
            fresh.inner_key@,
        ));
        lemma_document_read_back(db@.document, cipher, key, nonce, 0, 0);
        assert(assembled(header, kdf@, plain_view) == Ok::<Db, Error>(
            refreshed(db@, fresh.kdf_salt@),
        ));
        assert(unwrapped(header, kdf@, master_view, ciphertext@) == Ok::<Db, Error>(
            refreshed(db@, fresh.kdf_salt@),
        ));
    }
    Ok(bytes)
}

/// Writes a database with the given key components, with the master seed,
/// the vector, the seed or salt and the key of the stream given.
pub fn dump_with(db: &Database, components: &[KeyComponent], fresh: &Fresh) -> (r: Result<
    Vec<u8>,
    Error,
>)
    ensures
        written(db@, composite_hash(components@)@, fresh@, result_view(r)),
{
    let mut composite = composite_key(components);
    let r = dump_under(db, composite.as_slice(), fresh);
    wipe(&mut composite);
    r
}

/// Writes a database with the given key components once the random source
/// was asked: with what was drawn, or not at all where nothing was drawn.
pub fn dump_drawn(db: &Database, components: &[KeyComponent], drawn: Option<Fresh>) -> (r: Result<
    Vec<u8>,
    Error,
>)
    ensures
        written_after_draw(
            db@,
            composite_hash(components@)@,
            drawn_view(drawn),
            result_view(r),
        ),
{
    match drawn {
        Some(fresh) => dump_with(db, components, &fresh),
        None => Err(Error::InvalidKeyLength),
    }
}

/// Writes a database with the given key components, with a master seed, a
/// vector and a seed or salt drawn anew. The result is that of the writing
/// with what was drawn: a master seed of 32 bytes, a vector of the length
/// that the cipher takes and 32 bytes of seed or salt. What comes out is
/// read back, with the same components, as the database with the seed or
/// salt that was drawn. Where the random source fails the error is
/// `InvalidKeyLength`.
pub fn dump(db: &Database, components: &[KeyComponent]) -> (r: Result<Vec<u8>, Error>)
    ensures
        exists|drawn: Option<Drawn>|
            {
                &&& #[trigger] written_after_draw(
                    db@,
                    composite_hash(components@)@,
                    drawn,
                    result_view(r),
                )
                &&& drawn matches Some(d) ==> drawn_for(db@, d)
            },
        r matches Ok(bytes) ==> exists|kdf_salt: Seq<u8>|
            parsed(bytes@, composite_hash(components@)@) == Ok::<Db, Error>(
                #[trigger] refreshed(db@, kdf_salt),
            ),
{
    let drawn = Fresh::draw(db.config.outer_cipher, db.config.inner_cipher);
    let ghost given = drawn_view(drawn);
    let r = dump_drawn(db, components, drawn);
    proof {
        assert(written_after_draw(db@, composite_hash(components@)@, given, result_view(r)));
        if r is Ok {
            let kdf_salt = given.unwrap().kdf_salt;
            assert(parsed(r.unwrap()@, composite_hash(components@)@) == Ok::<Db, Error>(
                refreshed(db@, kdf_salt),
            ));
        }
    }
    r
}

/// Files that were written with another master seed, another vector or
/// another seed or salt of the key derivation are other bytes.
pub proof fn lemma_drawn_apart(
    first: Seq<u8>,
    second: Seq<u8>,
    db: Db,
    first_drawn: (Seq<u8>, Seq<u8>, Seq<u8>),
    second_drawn: (Seq<u8>, Seq<u8>, Seq<u8>),
)
    requires
        written_under(first, header_of(db, first_drawn.0, first_drawn.1, first_drawn.2)),
        written_under(second, header_of(db, second_drawn.0, second_drawn.1, second_drawn.2)),
        first_drawn != second_drawn,
    ensures
        first != second,
{
    let a = header_of(db, first_drawn.0, first_drawn.1, first_drawn.2);
    let b = header_of(db, second_drawn.0, second_drawn.1, second_drawn.2);
    if first_drawn.2 != second_drawn.2 {
        let x = entries_of(with_salt(db.kdf, first_drawn.2));
        let y = entries_of(with_salt(db.kdf, second_drawn.2));
        match db.kdf {
            Kdf::Aes { .. } => {
                assert(x[2].value != y[2].value);
            },
            Kdf::Argon2 { .. } => {
                assert(x[1].value != y[1].value);
            },
        }
        assert(a.kdf_parameters != b.kdf_parameters);
    }
    assert(a != b);
}

/// A file that is read under another composite hash than it was written
/// under is refused at the tag of its header, where the key derivation
/// gives a key for the other hash too and the tag of the header is not the
/// same under both.
pub proof fn lemma_other_key_is_refused(bytes: Seq<u8>, composite: Seq<u8>, other: Seq<u8>)
    requires
        parsed(bytes, composite) is Ok,
        transformed(kdf_of(parse_header(bytes).unwrap().header.kdf_parameters).unwrap(), other)
            is Ok,
        ({
            let p = parse_header(bytes).unwrap();
            header_mac(bytes.take(p.length), hmac_key(p.header.master_seed, other)@) != header_mac(
                bytes.take(p.length),
                hmac_key(p.header.master_seed, composite)@,
            )
        }),
    ensures
        parsed(bytes, other) == Err::<Db, Error>(Error::MessageAuthenticationFailed(HEADER_INDEX)),
{
    let p = parse_header(bytes).unwrap();
    let there = header_mac(bytes.take(p.length), hmac_key(p.header.master_seed, composite)@);
    let here = header_mac(bytes.take(p.length), hmac_key(p.header.master_seed, other)@);
    if here@ == there@ {
        assert(here =~= there);
    }
}

/// A changed byte in the digest of the header, in the tag of the header or
/// in the tag of a frame is found out: where a file is read without error,
/// the same bytes with another value at one such position are refused, for
/// the digest, for the tag of the header, or at the frame.
pub proof fn lemma_changed_byte_is_refused(
    bytes: Seq<u8>,
    composite: Seq<u8>,
    position: int,
    value: u8,
)
    requires
        parsed(bytes, composite) is Ok,
        0 <= position < bytes.len(),
        value != bytes[position],
    ensures
        ({
            let length = parse_header(bytes).unwrap().length;
            let changed = parsed(bytes.update(position, value), composite);
            &&& length <= position < length + DIGEST ==> changed == Err::<Db, Error>(
                Error::HeaderHashMismatch,
            )
            &&& length + DIGEST <= position < length + DIGEST + DIGEST ==> changed == Err::<
                Db,
                Error,
            >(Error::MessageAuthenticationFailed(HEADER_INDEX))
            &&& forall|k: nat|
                tag_at(
                    bytes.skip(length + DIGEST + DIGEST),
                    position - (length + DIGEST + DIGEST),
                    0,
                ) == Some(k) ==> changed == Err::<Db, Error>(
                    Error::MessageAuthenticationFailed(k as u64),
                )
        }),
{
    let length = parse_header(bytes).unwrap().length;
    let there = bytes.update(position, value);
    assert(open_container(bytes, composite) is Ok);
    if length <= position < length + DIGEST {
        lemma_changed_digest_is_refused(bytes, composite, position, value);
    }
    if length + DIGEST <= position < length + DIGEST + DIGEST {
        lemma_changed_header_tag_is_refused(bytes, composite, position, value);
    }
    assert forall|k: nat|
        tag_at(
            bytes.skip(length + DIGEST + DIGEST),
            position - (length + DIGEST + DIGEST),
            0,
        ) == Some(k) implies parsed(there, composite) == Err::<Db, Error>(
        Error::MessageAuthenticationFailed(k as u64),
    ) by {
        lemma_changed_frame_tag_is_refused(bytes, composite, position, value, k);
    }
}

/// A changed byte in the payload of a frame is found out where the tag
/// tells the two payloads apart: where a file is read without error, the
/// same bytes with another value at one position of the payload of frame
/// `k` are refused at that frame, if the frame has another tag with that
/// value.
pub proof fn lemma_changed_payload_byte_is_refused(
    bytes: Seq<u8>,
    composite: Seq<u8>,
    position: int,
    value: u8,
    k: nat,
)
    requires
        parsed(bytes, composite) is Ok,
        payload_at(
            bytes.skip(parse_header(bytes).unwrap().length + DIGEST + DIGEST),
            position - (parse_header(bytes).unwrap().length + DIGEST + DIGEST),
            0,
        ) == Some(k),
        payload_retagged(
            bytes.skip(parse_header(bytes).unwrap().length + DIGEST + DIGEST),
            hmac_key(parse_header(bytes).unwrap().header.master_seed, composite)@,
            position - (parse_header(bytes).unwrap().length + DIGEST + DIGEST),
            value,
            0,
        ),
    ensures
        parsed(bytes.update(position, value), composite) == Err::<Db, Error>(
            Error::MessageAuthenticationFailed(k as u64),
        ),
{
    assert(open_container(bytes, composite) is Ok);
    lemma_changed_frame_payload_is_refused(bytes, composite, position, value, k);
}

/// Whether the digests tell apart what the keys under two composite
/// hashes are made of, down to the tag of the header: the two inputs of the
/// HMAC keys, the two inputs of the keys of the header, and what
/// HMAC-SHA256 digests last of the header under those.
pub open spec fn keys_told_apart(
    header: Seq<u8>,
    master_seed: Seq<u8>,
    composite: Seq<u8>,
    other: Seq<u8>,
) -> bool {
    let first = hmac_key(master_seed, composite)@;
    let second = hmac_key(master_seed, other)@;
    &&& sha512_tells_apart(master_seed + composite + seq![1u8], master_seed + other + seq![1u8])
    &&& sha512_tells_apart(
        spec_u64_to_le_bytes(HEADER_INDEX) + first,
        spec_u64_to_le_bytes(HEADER_INDEX) + second,
    )
    &&& sha256_tells_apart(
        hmac_outer(block_key(HEADER_INDEX, first)@, header),
        hmac_outer(block_key(HEADER_INDEX, second)@, header),
    )
}

/// A file that is read under another composite hash than it was written
/// under is refused at the tag of its header, where the key derivation
/// gives a key for the other hash too and the digests tell apart what the
/// keys under the two hashes are made of.
pub proof fn lemma_other_composite_is_refused(bytes: Seq<u8>, composite: Seq<u8>, other: Seq<u8>)
    requires
        parsed(bytes, composite) is Ok,
        transformed(kdf_of(parse_header(bytes).unwrap().header.kdf_parameters).unwrap(), other)
            is Ok,
        composite != other,
        keys_told_apart(
            bytes.take(parse_header(bytes).unwrap().length),
            parse_header(bytes).unwrap().header.master_seed,
            composite,
            other,
        ),
    ensures
        parsed(bytes, other) == Err::<Db, Error>(Error::MessageAuthenticationFailed(HEADER_INDEX)),
{
    lemma_auto_spec_u64_to_from_le_bytes();
    let p = parse_header(bytes).unwrap();
    let seed = p.header.master_seed;
    let header = bytes.take(p.length);
    let x = seed + composite + seq![1u8];
    let y = seed + other + seq![1u8];
    assert(x != y) by {
        if x == y {
            let n = seed.len() as int;
            assert(x.len() == n + composite.len() + 1);
            assert(y.len() == n + other.len() + 1);
            assert(composite.len() == other.len());
            assert forall|i: int| 0 <= i < composite.len() implies composite[i] == other[i] by {
                assert(x[n + i] == composite[i]);
                assert(y[n + i] == other[i]);
            }
            assert(composite =~= other);
        }
    }
    let first = hmac_key(seed, composite);
    let second = hmac_key(seed, other);
    assert(first != second);
    assert(first@ != second@) by {
        if first@ == second@ {
            assert(first =~= second);
        }
    }
    let index = spec_u64_to_le_bytes(HEADER_INDEX);
    let u = index + first@;
    let v = index + second@;
    assert(u != v) by {
        if u == v {
            assert(first@ =~= u.skip(8));
            assert(second@ =~= v.skip(8));
        }
    }
    let first_block = block_key(HEADER_INDEX, first@);
    let second_block = block_key(HEADER_INDEX, second@);
    assert(first_block != second_block);
    assert(first_block@ != second_block@) by {
        if first_block@ == second_block@ {
            assert(first_block =~= second_block);
        }
    }
    lemma_hmac_block_keys_apart(first_block@, second_block@, header);
    lemma_other_key_is_refused(bytes, composite, other);
}

/// Files that hold another key of the stream of the document are other
/// bytes.
pub proof fn lemma_stream_keys_apart(
    first: Seq<u8>,
    second: Seq<u8>,
    composite: Seq<u8>,
    first_key: Seq<u8>,
    second_key: Seq<u8>,
)
    requires
        inner_key_in(first, composite) == Some(first_key),
        inner_key_in(second, composite) == Some(second_key),
        first_key != second_key,
    ensures
        first != second,
{
}

} // verus!
