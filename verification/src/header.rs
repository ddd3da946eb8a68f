//! The outer header of a file: what a reader must know before it can
//! decrypt anything.
//!
//! The header starts with two signatures and the version of the format.
//! Its fields follow, and the digest of all of that closes it.

use crate::bytes::{append, array_of, bytes_equal, to_array};
use crate::crypt::{calculate_sha256, lemma_concat_few, sha256};
use crate::error::{Error, HeaderFault};
use crate::tlv::{
    field_bytes, field_occurs_before, fields_bytes, fields_fit, fields_view, find, find_field,
    lemma_fields_bytes_push, lemma_find_at, lemma_find_none, lemma_walk_written, occurs_before,
    payloads_fit, read_fields, walk, write_field, Field, RawField, END,
};
use crate::variant::{
    dictionary_bytes, entries_fit, lemma_parse_written_dictionary, parse_dictionary, Entry,
    VariantDictionary,
};
use vstd::bytes::{
    lemma_auto_spec_u16_to_from_le_bytes, lemma_auto_spec_u32_to_from_le_bytes,
    spec_u16_from_le_bytes, spec_u16_to_le_bytes, spec_u32_from_le_bytes, spec_u32_to_le_bytes,
    u16_from_le_bytes, u16_to_le_bytes, u32_from_le_bytes, u32_to_le_bytes,
};
use vstd::prelude::*;
use vstd::slice::slice_subrange;

verus! {

/// The signature that every file starts with.
pub const MAGIC: u32 = 0x9AA2_D903;

/// The signature that tells the family of versions.
pub const VERSION_MAGIC: u32 = 0xB54B_FB67;

/// The major version that this codec reads and writes.
pub const VERSION_MAJOR: u16 = 4;

/// The bytes of the signatures and the version.
pub const PRELUDE: usize = 12;

/// The bytes of a SHA-256 digest or an HMAC-SHA256 tag.
pub const DIGEST: usize = 32;

/// The field that names the cipher of the payload.
pub const FIELD_CIPHER: u8 = 2;

/// The field that tells the compression of the payload.
pub const FIELD_COMPRESSION: u8 = 3;

/// The field that holds the master seed.
pub const FIELD_MASTER_SEED: u8 = 4;

/// The field that holds the initialization vector of the cipher.
pub const FIELD_IV: u8 = 7;

/// The field that holds the parameters of the key derivation.
pub const FIELD_KDF_PARAMETERS: u8 = 11;

/// The field that holds data of applications, which need not be there.
pub const FIELD_PUBLIC_CUSTOM_DATA: u8 = 12;

/// The cipher that encrypts the payload of a file.
#[derive(Debug, Clone, Copy, PartialEq, Eq)]
pub enum OuterCipher {
    Aes256,
    Twofish,
    ChaCha20,
}

/// How the payload of a file is compressed before it is encrypted.
#[derive(Debug, Clone, Copy, PartialEq, Eq)]
pub enum Compression {
    Uncompressed,
    GZip,
}

/// The sixteen bytes that name a cipher in the header.
pub open spec fn cipher_uuid(cipher: OuterCipher) -> Seq<u8> {
    match cipher {
        OuterCipher::Aes256 => seq![
            0x31u8, 0xC1, 0xF2, 0xE6, 0xBF, 0x71, 0x43, 0x50,
            0xBE, 0x58, 0x05, 0x21, 0x6A, 0xFC, 0x5A, 0xFF,
        ],
        OuterCipher::Twofish => seq![
            0xADu8, 0x68, 0xF2, 0x9F, 0x57, 0x6F, 0x4B, 0xB9,
            0xA3, 0x6A, 0xD4, 0x7A, 0xF9, 0x65, 0x34, 0x6C,
        ],
        OuterCipher::ChaCha20 => seq![
            0xD6u8, 0x03, 0x8A, 0x2B, 0x8B, 0x6F, 0x4C, 0xB5,
            0xA5, 0x24, 0x33, 0x9A, 0x31, 0xDB, 0xB5, 0x9A,
        ],
    }
}

/// The cipher that the bytes name, if they name one.
pub open spec fn cipher_named(uuid: Seq<u8>) -> Option<OuterCipher> {
    if uuid == cipher_uuid(OuterCipher::Aes256) {
        Some(OuterCipher::Aes256)
    } else if uuid == cipher_uuid(OuterCipher::Twofish) {
        Some(OuterCipher::Twofish)
    } else if uuid == cipher_uuid(OuterCipher::ChaCha20) {
        Some(OuterCipher::ChaCha20)
    } else {
        None
    }
}

/// The length of the initialization vector that a cipher takes.
pub open spec fn iv_length(cipher: OuterCipher) -> nat {
    match cipher {
        OuterCipher::Aes256 => 16,
        OuterCipher::Twofish => 16,
        OuterCipher::ChaCha20 => 12,
    }
}

/// The number that stands for a compression in the header.
pub open spec fn compression_code(compression: Compression) -> u32 {
    match compression {
        Compression::Uncompressed => 0,
        Compression::GZip => 1,
    }
}

/// The compression that a number stands for, if it stands for one.
pub open spec fn compression_coded(code: u32) -> Option<Compression> {
    if code == 0 {
        Some(Compression::Uncompressed)
    } else if code == 1 {
        Some(Compression::GZip)
    } else {
        None
    }
}

impl OuterCipher {
    /// The sixteen bytes that name the cipher in the header.
    pub fn uuid(&self) -> (r: [u8; 16])
        ensures
            r@ == cipher_uuid(*self),
    {
        let r: [u8; 16] = match self {
            OuterCipher::Aes256 => [
                0x31, 0xC1, 0xF2, 0xE6, 0xBF, 0x71, 0x43, 0x50,
                0xBE, 0x58, 0x05, 0x21, 0x6A, 0xFC, 0x5A, 0xFF,
            ],
            OuterCipher::Twofish => [
                0xAD, 0x68, 0xF2, 0x9F, 0x57, 0x6F, 0x4B, 0xB9,
                0xA3, 0x6A, 0xD4, 0x7A, 0xF9, 0x65, 0x34, 0x6C,
            ],
            OuterCipher::ChaCha20 => [
                0xD6, 0x03, 0x8A, 0x2B, 0x8B, 0x6F, 0x4C, 0xB5,
                0xA5, 0x24, 0x33, 0x9A, 0x31, 0xDB, 0xB5, 0x9A,
            ],
        };
        assert(r@ =~= cipher_uuid(*self));
        r
    }

    /// The cipher that the bytes name, if they name one.
    pub fn from_uuid(uuid: &[u8]) -> (r: Option<OuterCipher>)
        ensures
            r == cipher_named(uuid@),
    {
        if bytes_equal(uuid, OuterCipher::Aes256.uuid().as_slice()) {
            Some(OuterCipher::Aes256)
        } else if bytes_equal(uuid, OuterCipher::Twofish.uuid().as_slice()) {
            Some(OuterCipher::Twofish)
        } else if bytes_equal(uuid, OuterCipher::ChaCha20.uuid().as_slice()) {
            Some(OuterCipher::ChaCha20)
        } else {
            None
        }
    }

    /// The length of the initialization vector that the cipher takes.
    pub fn iv_size(&self) -> (n: usize)
        ensures
            n == iv_length(*self),
    {
        match self {
            OuterCipher::Aes256 => 16,
            OuterCipher::Twofish => 16,
            OuterCipher::ChaCha20 => 12,
        }
    }
}

impl Compression {
    /// The number that stands for the compression in the header.
    pub fn code(&self) -> (code: u32)
        ensures
            code == compression_code(*self),
    {
        match self {
            Compression::Uncompressed => 0,
            Compression::GZip => 1,
        }
    }

    /// The compression that a number stands for, if it stands for one.
    pub fn from_code(code: u32) -> (r: Option<Compression>)
        ensures
            r == compression_coded(code),
    {
        if code == 0 {
            Some(Compression::Uncompressed)
        } else if code == 1 {
            Some(Compression::GZip)
        } else {
            None
        }
    }
}

/// The outer header of a file.
#[derive(Debug, Clone, PartialEq, Eq)]
pub struct OuterHeader {
    pub version_minor: u16,
    pub cipher: OuterCipher,
    pub compression: Compression,
    pub master_seed: [u8; 32],
    pub outer_iv: Vec<u8>,
    pub kdf_parameters: VariantDictionary,
    pub public_custom_data: Option<VariantDictionary>,
}

/// What an outer header is.
pub struct Header {
    pub version_minor: u16,
    pub cipher: OuterCipher,
    pub compression: Compression,
    pub master_seed: Seq<u8>,
    pub outer_iv: Seq<u8>,
    pub kdf_parameters: Seq<Entry>,
    pub public_custom_data: Option<Seq<Entry>>,
}

impl View for OuterHeader {
    type V = Header;

    open spec fn view(&self) -> Header {
        Header {
            version_minor: self.version_minor,
            cipher: self.cipher,
            compression: self.compression,
            master_seed: self.master_seed@,
            outer_iv: self.outer_iv@,
            kdf_parameters: self.kdf_parameters@,
            public_custom_data: match self.public_custom_data {
                Some(d) => Some(d@),
                None => None,
            },
        }
    }
}

/// Whether the identifier names a field of the outer header.
pub open spec fn known_field(id: u8) -> bool {
    id == FIELD_CIPHER || id == FIELD_COMPRESSION || id == FIELD_MASTER_SEED || id == FIELD_IV
        || id == FIELD_KDF_PARAMETERS || id == FIELD_PUBLIC_CUSTOM_DATA
}

/// The fault of the first field, from `from` on, that the header does not
/// take: one with an identifier that names no field, or one that occurs a
/// second time.
pub open spec fn field_fault(fields: Seq<Field>, from: int) -> Option<Error>
    decreases fields.len() - from,
{
    if from < 0 || from >= fields.len() {
        None
    } else if !known_field(fields[from].id) {
        Some(Error::MalformedHeader(fields[from].id, HeaderFault::UnknownField))
    } else if occurs_before(fields, fields[from].id, from) {
        Some(Error::MalformedHeader(fields[from].id, HeaderFault::Duplicate))
    } else {
        field_fault(fields, from + 1)
    }
}

/// The first of the fields that must be there and is not, in the order of
/// the identifiers.
pub open spec fn missing_field(fields: Seq<Field>) -> Option<u8> {
    if find(fields, FIELD_CIPHER) is None {
        Some(FIELD_CIPHER)
    } else if find(fields, FIELD_COMPRESSION) is None {
        Some(FIELD_COMPRESSION)
    } else if find(fields, FIELD_MASTER_SEED) is None {
        Some(FIELD_MASTER_SEED)
    } else if find(fields, FIELD_IV) is None {
        Some(FIELD_IV)
    } else if find(fields, FIELD_KDF_PARAMETERS) is None {
        Some(FIELD_KDF_PARAMETERS)
    } else {
        None
    }
}

/// The public custom data that the fields hold, if they hold any.
pub open spec fn custom_data_of(fields: Seq<Field>) -> Result<Option<Seq<Entry>>, Error> {
    match find(fields, FIELD_PUBLIC_CUSTOM_DATA) {
        None => Ok(None),
        Some(payload) => match parse_dictionary(payload) {
            Ok(d) => Ok(Some(d)),
            Err(e) => Err(e),
        },
    }
}

/// The header that the fields make, or the first fault met. A field that
/// the header does not take comes first, then a field that is not there,
/// then the payloads in the order of their identifiers: the cipher is one of
/// those that the format knows, the compression is 0 or 1, the master seed
/// has 32 bytes, the initialization vector has the length that the cipher
/// takes, and the dictionaries are dictionaries.
pub open spec fn interpret(version_minor: u16, fields: Seq<Field>) -> Result<Header, Error> {
    if let Some(e) = field_fault(fields, 0) {
        Err(e)
    } else if let Some(id) = missing_field(fields) {
        Err(Error::MissingRequiredHeaderField(id))
    } else {
        let uuid = find(fields, FIELD_CIPHER).unwrap();
        let code = find(fields, FIELD_COMPRESSION).unwrap();
        let master_seed = find(fields, FIELD_MASTER_SEED).unwrap();
        let outer_iv = find(fields, FIELD_IV).unwrap();
        let kdf = find(fields, FIELD_KDF_PARAMETERS).unwrap();
        if uuid.len() != 16 {
            Err(Error::MalformedHeader(FIELD_CIPHER, HeaderFault::Length))
        } else if cipher_named(uuid) is None {
            Err(Error::UnknownCipher(array_of::<16>(uuid)))
        } else if code.len() != 4 {
            Err(Error::MalformedHeader(FIELD_COMPRESSION, HeaderFault::Length))
        } else if compression_coded(spec_u32_from_le_bytes(code)) is None {
            Err(Error::MalformedHeader(FIELD_COMPRESSION, HeaderFault::Value))
        } else if master_seed.len() != 32 {
            Err(Error::MalformedHeader(FIELD_MASTER_SEED, HeaderFault::Length))
        } else if outer_iv.len() != iv_length(cipher_named(uuid).unwrap()) {
            Err(Error::MalformedHeader(FIELD_IV, HeaderFault::Length))
        } else {
            match parse_dictionary(kdf) {
                Err(e) => Err(e),
                Ok(kdf_parameters) => match custom_data_of(fields) {
                    Err(e) => Err(e),
                    Ok(public_custom_data) => Ok(
                        Header {
                            version_minor,
                            cipher: cipher_named(uuid).unwrap(),
                            compression: compression_coded(spec_u32_from_le_bytes(code)).unwrap(),
                            master_seed,
                            outer_iv,
                            kdf_parameters,
                            public_custom_data,
                        },
                    ),
                },
            }
        }
    }
}

/// The header of a result, or its error.
pub open spec fn header_view(r: Result<OuterHeader, Error>) -> Result<Header, Error> {
    match r {
        Ok(h) => Ok(h@),
        Err(e) => Err(e),
    }
}

/// Whether the identifier names a field of the outer header.
pub(crate) fn is_known_field(id: u8) -> (known: bool)
    ensures
        known == known_field(id),
{
    id == FIELD_CIPHER || id == FIELD_COMPRESSION || id == FIELD_MASTER_SEED || id == FIELD_IV
        || id == FIELD_KDF_PARAMETERS || id == FIELD_PUBLIC_CUSTOM_DATA
}

/// The fault of the first field that the header does not take.
pub(crate) fn find_field_fault<'a>(fields: &Vec<RawField<'a>>) -> (r: Option<Error>)
    ensures
        r == field_fault(fields_view(fields@), 0),
{
    let mut i: usize = 0;
    while i < fields.len()
        invariant
            0 <= i <= fields@.len(),
            field_fault(fields_view(fields@), 0) == field_fault(fields_view(fields@), i as int),
        decreases fields@.len() - i,
    {
        let id: u8 = fields[i].id;
        assert(fields_view(fields@)[i as int].id == id);
        if !is_known_field(id) {
            return Some(Error::MalformedHeader(id, HeaderFault::UnknownField));
        }
        if field_occurs_before(fields, id, i) {
            return Some(Error::MalformedHeader(id, HeaderFault::Duplicate));
        }
        i += 1;
    }
    None
}

/// Makes the header of the fields that were read.
pub(crate) fn interpret_fields<'a>(version_minor: u16, fields: &Vec<RawField<'a>>) -> (r: Result<
    OuterHeader,
    Error,
>)
    requires
        payloads_fit(fields@),
    ensures
        header_view(r) == interpret(version_minor, fields_view(fields@)),
        r matches Ok(h) ==> well_formed(h@),
{
    if let Some(e) = find_field_fault(fields) {
        return Err(e);
    }
    let uuid = match find_field(fields, FIELD_CIPHER) {
        Some(payload) => payload,
        None => {
            return Err(Error::MissingRequiredHeaderField(FIELD_CIPHER));
        },
    };
    let code = match find_field(fields, FIELD_COMPRESSION) {
        Some(payload) => payload,
        None => {
            return Err(Error::MissingRequiredHeaderField(FIELD_COMPRESSION));
        },
    };
    let master_seed = match find_field(fields, FIELD_MASTER_SEED) {
        Some(payload) => payload,
        None => {
            return Err(Error::MissingRequiredHeaderField(FIELD_MASTER_SEED));
        },
    };
    let outer_iv = match find_field(fields, FIELD_IV) {
        Some(payload) => payload,
        None => {
            return Err(Error::MissingRequiredHeaderField(FIELD_IV));
        },
    };
    let kdf = match find_field(fields, FIELD_KDF_PARAMETERS) {
        Some(payload) => payload,
        None => {
            return Err(Error::MissingRequiredHeaderField(FIELD_KDF_PARAMETERS));
        },
    };
    if uuid.len() != 16 {
        return Err(Error::MalformedHeader(FIELD_CIPHER, HeaderFault::Length));
    }
    let cipher = match OuterCipher::from_uuid(uuid) {
        Some(cipher) => cipher,
        None => {
            return Err(Error::UnknownCipher(to_array::<16>(uuid)));
        },
    };
    if code.len() != 4 {
        return Err(Error::MalformedHeader(FIELD_COMPRESSION, HeaderFault::Length));
    }
    let compression = match Compression::from_code(u32_from_le_bytes(code)) {
        Some(compression) => compression,
        None => {
            return Err(Error::MalformedHeader(FIELD_COMPRESSION, HeaderFault::Value));
        },
    };
    if master_seed.len() != 32 {
        return Err(Error::MalformedHeader(FIELD_MASTER_SEED, HeaderFault::Length));
    }
    if outer_iv.len() != cipher.iv_size() {
        return Err(Error::MalformedHeader(FIELD_IV, HeaderFault::Length));
    }
    let kdf_parameters = match VariantDictionary::parse(kdf) {
        Ok(d) => d,
        Err(e) => {
            return Err(e);
        },
    };
    let public_custom_data = match find_field(fields, FIELD_PUBLIC_CUSTOM_DATA) {
        None => None,
        Some(payload) => match VariantDictionary::parse(payload) {
            Ok(d) => Some(d),
            Err(e) => {
                return Err(e);
            },
        },
    };
    Ok(
        OuterHeader {
            version_minor,
            cipher,
            compression,
            master_seed: to_array::<32>(master_seed),
            outer_iv: vstd::slice::slice_to_vec(outer_iv),
            kdf_parameters,
            public_custom_data,
        },
    )
}

/// The signatures and the version that a header starts with.
pub open spec fn prelude(version_minor: u16) -> Seq<u8> {
    spec_u32_to_le_bytes(MAGIC) + spec_u32_to_le_bytes(VERSION_MAGIC) + spec_u16_to_le_bytes(
        version_minor,
    ) + spec_u16_to_le_bytes(VERSION_MAJOR)
}

/// The fields of a header as they are written: in the order of their
/// identifiers, the public custom data only where there is any.
pub open spec fn header_fields(h: Header) -> Seq<Field> {
    let required = seq![
        Field { id: FIELD_CIPHER, payload: cipher_uuid(h.cipher) },
        Field {
            id: FIELD_COMPRESSION,
            payload: spec_u32_to_le_bytes(compression_code(h.compression)),
        },
        Field { id: FIELD_MASTER_SEED, payload: h.master_seed },
        Field { id: FIELD_IV, payload: h.outer_iv },
        Field { id: FIELD_KDF_PARAMETERS, payload: dictionary_bytes(h.kdf_parameters) },
    ];
    match h.public_custom_data {
        Some(d) => required.push(
            Field { id: FIELD_PUBLIC_CUSTOM_DATA, payload: dictionary_bytes(d) },
        ),
        None => required,
    }
}

/// The bytes of a header, up to and without its digest.
pub open spec fn header_bytes(h: Header) -> Seq<u8> {
    prelude(h.version_minor) + fields_bytes(header_fields(h)) + field_bytes(
        Field { id: END, payload: Seq::empty() },
    )
}

/// Why a header cannot be written, if it cannot: the initialization vector
/// has not the length that the cipher takes, or a dictionary has an entry
/// that does not fit or is itself too long for a field.
pub open spec fn write_fault(h: Header) -> Option<Error> {
    if h.outer_iv.len() != iv_length(h.cipher) {
        Some(Error::MalformedHeader(FIELD_IV, HeaderFault::Length))
    } else if !entries_fit(h.kdf_parameters) {
        Some(Error::MalformedHeader(FIELD_KDF_PARAMETERS, HeaderFault::Value))
    } else if dictionary_bytes(h.kdf_parameters).len() > u32::MAX {
        Some(Error::MalformedHeader(FIELD_KDF_PARAMETERS, HeaderFault::Length))
    } else if h.public_custom_data matches Some(d) && !entries_fit(d) {
        Some(Error::MalformedHeader(FIELD_PUBLIC_CUSTOM_DATA, HeaderFault::Value))
    } else if h.public_custom_data matches Some(d) && dictionary_bytes(d).len() > u32::MAX {
        Some(Error::MalformedHeader(FIELD_PUBLIC_CUSTOM_DATA, HeaderFault::Length))
    } else {
        None
    }
}

/// Whether a header can be written and read back: the master seed has 32
/// bytes and nothing stands against the writing.
pub open spec fn well_formed(h: Header) -> bool {
    h.master_seed.len() == 32 && write_fault(h) is None
}

/// A header that was read, and the number of bytes that it took, without
/// its digest.
pub struct Parsed {
    pub header: Header,
    pub length: int,
}

/// The header at the start of `bytes`, or the first fault met: bytes that
/// end too early are `IncompleteInput` wherever it shows, a wrong first
/// signature is `InvalidMagic`, a wrong second signature or another major
/// version than 4 is `UnsupportedVersion`, a digest that is not that of the
/// header is `HeaderHashMismatch`; only then are the fields looked into.
pub open spec fn parse_header(bytes: Seq<u8>) -> Result<Parsed, Error> {
    if bytes.len() < 4 {
        Err(Error::IncompleteInput)
    } else if spec_u32_from_le_bytes(bytes.subrange(0, 4)) != MAGIC {
        Err(Error::InvalidMagic)
    } else if bytes.len() < 8 {
        Err(Error::IncompleteInput)
    } else if spec_u32_from_le_bytes(bytes.subrange(4, 8)) != VERSION_MAGIC {
        Err(Error::UnsupportedVersion)
    } else if bytes.len() < PRELUDE {
        Err(Error::IncompleteInput)
    } else if spec_u16_from_le_bytes(bytes.subrange(10, 12)) != VERSION_MAJOR {
        Err(Error::UnsupportedVersion)
    } else {
        match walk(bytes.skip(PRELUDE as int)) {
            Err(e) => Err(e),
            Ok(w) => {
                let length = PRELUDE + w.used;
                if bytes.len() < length + DIGEST {
                    Err(Error::IncompleteInput)
                } else if bytes.subrange(length, length + DIGEST) != sha256(bytes.take(length))@ {
                    Err(Error::HeaderHashMismatch)
                } else {
                    match interpret(spec_u16_from_le_bytes(bytes.subrange(8, 10)), w.fields) {
                        Err(e) => Err(e),
                        Ok(header) => Ok(Parsed { header, length }),
                    }
                }
            },
        }
    }
}

/// The header that is written of the given parts.
pub open spec fn written_header(
    version_minor: u16,
    cipher: OuterCipher,
    compression: Compression,
    master_seed: Seq<u8>,
    outer_iv: Seq<u8>,
    kdf_parameters: &VariantDictionary,
    public_custom_data: &Option<VariantDictionary>,
) -> Header {
    Header {
        version_minor,
        cipher,
        compression,
        master_seed,
        outer_iv,
        kdf_parameters: kdf_parameters@,
        public_custom_data: match public_custom_data {
            Some(d) => Some(d@),
            None => None,
        },
    }
}

/// The bytes of the header with the given parts, up to and without its
/// digest; or why it cannot be written.
pub fn write_header(
    version_minor: u16,
    cipher: OuterCipher,
    compression: Compression,
    master_seed: &[u8; 32],
    outer_iv: &[u8],
    kdf_parameters: &VariantDictionary,
    public_custom_data: &Option<VariantDictionary>,
) -> (r: Result<Vec<u8>, Error>)
    ensures
        match r {
            Ok(bytes) => well_formed(
                written_header(
                    version_minor,
                    cipher,
                    compression,
                    master_seed@,
                    outer_iv@,
                    kdf_parameters,
                    public_custom_data,
                ),
            ) && bytes@ == header_bytes(
                written_header(
                    version_minor,
                    cipher,
                    compression,
                    master_seed@,
                    outer_iv@,
                    kdf_parameters,
                    public_custom_data,
                ),
            ),
            Err(e) => write_fault(
                written_header(
                    version_minor,
                    cipher,
                    compression,
                    master_seed@,
                    outer_iv@,
                    kdf_parameters,
                    public_custom_data,
                ),
            ) == Some(e),
        },
{
    let ghost h = written_header(
        version_minor,
        cipher,
        compression,
        master_seed@,
        outer_iv@,
        kdf_parameters,
        public_custom_data,
    );
    if outer_iv.len() != cipher.iv_size() {
        return Err(Error::MalformedHeader(FIELD_IV, HeaderFault::Length));
    }
    if !kdf_parameters.fits() {
        return Err(Error::MalformedHeader(FIELD_KDF_PARAMETERS, HeaderFault::Value));
    }
    let kdf = kdf_parameters.serialize();
    if kdf.len() > 0xFFFF_FFFF {
        return Err(Error::MalformedHeader(FIELD_KDF_PARAMETERS, HeaderFault::Length));
    }
    let custom: Option<Vec<u8>> = match public_custom_data {
        None => None,
        Some(d) => {
            if !d.fits() {
                return Err(
                    Error::MalformedHeader(FIELD_PUBLIC_CUSTOM_DATA, HeaderFault::Value),
                );
            }
            let bytes = d.serialize();
            if bytes.len() > 0xFFFF_FFFF {
                return Err(
                    Error::MalformedHeader(FIELD_PUBLIC_CUSTOM_DATA, HeaderFault::Length),
                );
            }
            Some(bytes)
        },
    };
    let mut out: Vec<u8> = Vec::new();
    append(&mut out, u32_to_le_bytes(MAGIC).as_slice());
    append(&mut out, u32_to_le_bytes(VERSION_MAGIC).as_slice());
    append(&mut out, u16_to_le_bytes(version_minor).as_slice());
    append(&mut out, u16_to_le_bytes(VERSION_MAJOR).as_slice());
    assert(out@ =~= prelude(version_minor));
    let ghost start = out@;
    let ghost f0 = Field { id: FIELD_CIPHER, payload: cipher_uuid(cipher) };
    let ghost f1 = Field {
        id: FIELD_COMPRESSION,
        payload: spec_u32_to_le_bytes(compression_code(compression)),
    };
    let ghost f2 = Field { id: FIELD_MASTER_SEED, payload: master_seed@ };
    let ghost f3 = Field { id: FIELD_IV, payload: outer_iv@ };
    let ghost f4 = Field {
        id: FIELD_KDF_PARAMETERS,
        payload: dictionary_bytes(kdf_parameters@),
    };
    let ghost none = Seq::<Field>::empty();
    proof {
        lemma_fields_bytes_push(none, f0);
        lemma_fields_bytes_push(none.push(f0), f1);
        lemma_fields_bytes_push(none.push(f0).push(f1), f2);
        lemma_fields_bytes_push(none.push(f0).push(f1).push(f2), f3);
        lemma_fields_bytes_push(none.push(f0).push(f1).push(f2).push(f3), f4);
    }
    let ghost required = none.push(f0).push(f1).push(f2).push(f3).push(f4);
    write_field(&mut out, FIELD_CIPHER, cipher.uuid().as_slice());
    write_field(&mut out, FIELD_COMPRESSION, u32_to_le_bytes(compression.code()).as_slice());
    write_field(&mut out, FIELD_MASTER_SEED, master_seed.as_slice());
    write_field(&mut out, FIELD_IV, outer_iv);
    write_field(&mut out, FIELD_KDF_PARAMETERS, kdf.as_slice());
    assert(out@ =~= start + fields_bytes(required));
    assert(required =~= seq![f0, f1, f2, f3, f4]);
    let ghost written = header_fields(h);
    match custom {
        None => {},
        Some(bytes) => {
            proof {
                lemma_fields_bytes_push(
                    required,
                    Field { id: FIELD_PUBLIC_CUSTOM_DATA, payload: bytes@ },
                );
            }
            write_field(&mut out, FIELD_PUBLIC_CUSTOM_DATA, bytes.as_slice());
        },
    }
    assert(out@ =~= start + fields_bytes(written));
    let empty: [u8; 0] = [];
    assert(empty@ =~= Seq::<u8>::empty());
    write_field(&mut out, END, empty.as_slice());
    Ok(out)
}

impl OuterHeader {
    /// The bytes of the header, up to and without its digest; or why it
    /// cannot be written.
    pub fn serialize(&self) -> (r: Result<Vec<u8>, Error>)
        ensures
            match r {
                Ok(bytes) => well_formed(self@) && bytes@ == header_bytes(self@),
                Err(e) => write_fault(self@) == Some(e),
            },
    {
        write_header(
            self.version_minor,
            self.cipher,
            self.compression,
            &self.master_seed,
            self.outer_iv.as_slice(),
            &self.kdf_parameters,
            &self.public_custom_data,
        )
    }

    /// Reads the header at the start of `bytes` and checks its digest.
    /// Returns the header and the number of bytes that it took, without the
    /// digest.
    pub fn parse(bytes: &[u8]) -> (r: Result<(OuterHeader, usize), Error>)
        ensures
            match r {
                Ok((header, length)) => parse_header(bytes@) == Ok::<Parsed, Error>(
                    Parsed { header: header@, length: length as int },
                ) && length + DIGEST <= bytes@.len() && well_formed(header@),
                Err(e) => parse_header(bytes@) == Err::<Parsed, Error>(e),
            },
    {
        if bytes.len() < 4 {
            return Err(Error::IncompleteInput);
        }
        if u32_from_le_bytes(slice_subrange(bytes, 0, 4)) != MAGIC {
            return Err(Error::InvalidMagic);
        }
        if bytes.len() < 8 {
            return Err(Error::IncompleteInput);
        }
        if u32_from_le_bytes(slice_subrange(bytes, 4, 8)) != VERSION_MAGIC {
            return Err(Error::UnsupportedVersion);
        }
        if bytes.len() < PRELUDE {
            return Err(Error::IncompleteInput);
        }
        if u16_from_le_bytes(slice_subrange(bytes, 10, 12)) != VERSION_MAJOR {
            return Err(Error::UnsupportedVersion);
        }
        let version_minor = u16_from_le_bytes(slice_subrange(bytes, 8, 10));
        let (fields, length) = match read_fields(bytes, PRELUDE) {
            Ok(read) => read,
            Err(e) => {
                return Err(e);
            },
        };
        if bytes.len() - length < DIGEST {
            return Err(Error::IncompleteInput);
        }
        let covered = slice_subrange(bytes, 0, length);
        assert(covered@ =~= bytes@.take(length as int));
        let parts: [&[u8]; 1] = [covered];
        let segments: &[&[u8]] = parts.as_slice();
        proof {
            lemma_concat_few(segments);
        }
        let digest = calculate_sha256(segments).unwrap();
        let stored = slice_subrange(bytes, length, length + DIGEST);
        if !bytes_equal(stored, digest.as_slice()) {
            return Err(Error::HeaderHashMismatch);
        }
        match interpret_fields(version_minor, &fields) {
            Err(e) => Err(e),
            Ok(header) => Ok((header, length)),
        }
    }
}

/// The bytes that name a cipher name that cipher and no other.
pub proof fn lemma_uuid_names(cipher: OuterCipher)
    ensures
        cipher_named(cipher_uuid(cipher)) == Some(cipher),
        cipher_uuid(cipher).len() == 16,
{
    assert(cipher_uuid(OuterCipher::Aes256)[0] == 0x31);
    assert(cipher_uuid(OuterCipher::Twofish)[0] == 0xAD);
    assert(cipher_uuid(OuterCipher::ChaCha20)[0] == 0xD6);
}

/// Where every field from `from` on is one that the header takes and has
/// another identifier than each field before it, there is no fault.
pub proof fn lemma_no_fault(fields: Seq<Field>, from: int)
    requires
        0 <= from,
        forall|i: int| from <= i < fields.len() ==> known_field((#[trigger] fields[i]).id),
        forall|i: int, j: int|
            0 <= j < i < fields.len() ==> (#[trigger] fields[j]).id != (#[trigger] fields[i]).id,
    ensures
        field_fault(fields, from) is None,
    decreases fields.len() - from,
{
    if from < fields.len() {
        assert(known_field(fields[from].id));
        assert(!occurs_before(fields, fields[from].id, from));
        lemma_no_fault(fields, from + 1);
    }
}

/// The identifiers of the fields of a header, as they are written, in
/// their order.
pub open spec fn written_id(index: int) -> u8 {
    if index == 0 {
        FIELD_CIPHER
    } else if index == 1 {
        FIELD_COMPRESSION
    } else if index == 2 {
        FIELD_MASTER_SEED
    } else if index == 3 {
        FIELD_IV
    } else if index == 4 {
        FIELD_KDF_PARAMETERS
    } else {
        FIELD_PUBLIC_CUSTOM_DATA
    }
}

/// The fields of a header are written each once, in the order of their
/// identifiers.
pub proof fn lemma_written_ids(h: Header)
    ensures
        5 <= header_fields(h).len() <= 6,
        header_fields(h).len() == 6 <==> h.public_custom_data is Some,
        forall|i: int|
            0 <= i < header_fields(h).len() ==> (#[trigger] header_fields(h)[i]).id == written_id(
                i,
            ),
{
    let fields = header_fields(h);
    assert(fields[0].id == FIELD_CIPHER);
    assert(fields[1].id == FIELD_COMPRESSION);
    assert(fields[2].id == FIELD_MASTER_SEED);
    assert(fields[3].id == FIELD_IV);
    assert(fields[4].id == FIELD_KDF_PARAMETERS);
    if h.public_custom_data is Some {
        assert(fields[5].id == FIELD_PUBLIC_CUSTOM_DATA);
    }
}

/// What is found in the fields of a header, as they are written.
pub proof fn lemma_written_found(h: Header)
    ensures
        find(header_fields(h), FIELD_CIPHER) == Some(cipher_uuid(h.cipher)),
        find(header_fields(h), FIELD_COMPRESSION) == Some(
            spec_u32_to_le_bytes(compression_code(h.compression)),
        ),
        find(header_fields(h), FIELD_MASTER_SEED) == Some(h.master_seed),
        find(header_fields(h), FIELD_IV) == Some(h.outer_iv),
        find(header_fields(h), FIELD_KDF_PARAMETERS) == Some(dictionary_bytes(h.kdf_parameters)),
        find(header_fields(h), FIELD_PUBLIC_CUSTOM_DATA) == match h.public_custom_data {
            Some(d) => Some(dictionary_bytes(d)),
            None => None,
        },
{
    let fields = header_fields(h);
    lemma_written_ids(h);
    lemma_find_at(fields, FIELD_CIPHER, 0, 0);
    lemma_find_at(fields, FIELD_COMPRESSION, 0, 1);
    lemma_find_at(fields, FIELD_MASTER_SEED, 0, 2);
    lemma_find_at(fields, FIELD_IV, 0, 3);
    lemma_find_at(fields, FIELD_KDF_PARAMETERS, 0, 4);
    match h.public_custom_data {
        Some(d) => {
            lemma_find_at(fields, FIELD_PUBLIC_CUSTOM_DATA, 0, 5);
        },
        None => {
            lemma_find_none(fields, FIELD_PUBLIC_CUSTOM_DATA, 0);
        },
    }
}

/// The fields of a well-formed header, as they are written, can be written
/// and read back.
pub proof fn lemma_written_fields_fit(h: Header)
    requires
        well_formed(h),
    ensures
        fields_fit(header_fields(h)),
{
    let fields = header_fields(h);
    lemma_auto_spec_u32_to_from_le_bytes();
    lemma_uuid_names(h.cipher);
    lemma_written_ids(h);
    assert forall|i: int| 0 <= i < fields.len() implies (#[trigger] fields[i]).id != END
        && fields[i].payload.len() <= u32::MAX by {
        assert(fields[i].id == written_id(i));
        if i == 0 {
            assert(fields[0].payload == cipher_uuid(h.cipher));
        } else if i == 1 {
            assert(fields[1].payload == spec_u32_to_le_bytes(compression_code(h.compression)));
        } else if i == 2 {
            assert(fields[2].payload == h.master_seed);
        } else if i == 3 {
            assert(fields[3].payload == h.outer_iv);
        } else if i == 4 {
            assert(fields[4].payload == dictionary_bytes(h.kdf_parameters));
        } else {
            assert(fields[5].payload == dictionary_bytes(h.public_custom_data.unwrap()));
        }
    }
}

/// The fields of a well-formed header, as they are written, make that
/// header.
pub proof fn lemma_interpret_written(h: Header)
    requires
        well_formed(h),
    ensures
        interpret(h.version_minor, header_fields(h)) == Ok::<Header, Error>(h),
        fields_fit(header_fields(h)),
{
    let fields = header_fields(h);
    lemma_written_fields_fit(h);
    lemma_written_ids(h);
    lemma_written_found(h);
    lemma_no_fault(fields, 0);
    assert(field_fault(fields, 0) is None);
    assert(missing_field(fields) is None);
    lemma_auto_spec_u32_to_from_le_bytes();
    lemma_uuid_names(h.cipher);
    let uuid = find(fields, FIELD_CIPHER).unwrap();
    let code = find(fields, FIELD_COMPRESSION).unwrap();
    assert(uuid.len() == 16);
    assert(cipher_named(uuid) == Some(h.cipher));
    assert(code.len() == 4);
    assert(compression_coded(spec_u32_from_le_bytes(code)) == Some(h.compression));
    let kdf = dictionary_bytes(h.kdf_parameters);
    lemma_parse_written_dictionary(h.kdf_parameters, Seq::empty());
    assert(kdf + Seq::<u8>::empty() =~= kdf);
    assert(parse_dictionary(find(fields, FIELD_KDF_PARAMETERS).unwrap()) == Ok::<
        Seq<Entry>,
        Error,
    >(h.kdf_parameters));
    match h.public_custom_data {
        Some(d) => {
            let custom = dictionary_bytes(d);
            lemma_parse_written_dictionary(d, Seq::empty());
            assert(custom + Seq::<u8>::empty() =~= custom);
            assert(custom_data_of(fields) == Ok::<Option<Seq<Entry>>, Error>(Some(d)));
        },
        None => {
            assert(custom_data_of(fields) == Ok::<Option<Seq<Entry>>, Error>(None));
        },
    }
}

/// Reading what was written gives the header back, whatever follows its
/// digest.
pub proof fn lemma_parse_written_header(h: Header, trailing: Seq<u8>)
    requires
        well_formed(h),
    ensures
        parse_header(header_bytes(h) + sha256(header_bytes(h))@ + trailing) == Ok::<Parsed, Error>(
            Parsed { header: h, length: header_bytes(h).len() as int },
        ),
{
    lemma_auto_spec_u16_to_from_le_bytes();
    lemma_auto_spec_u32_to_from_le_bytes();
    let written = header_bytes(h);
    let digest = sha256(written)@;
    let bytes = written + digest + trailing;
    let fields = header_fields(h);
    let end = field_bytes(Field { id: END, payload: Seq::empty() });
    assert(prelude(h.version_minor).len() == PRELUDE);
    assert(bytes.subrange(0, 4) =~= spec_u32_to_le_bytes(MAGIC));
    assert(bytes.subrange(4, 8) =~= spec_u32_to_le_bytes(VERSION_MAGIC));
    assert(bytes.subrange(8, 10) =~= spec_u16_to_le_bytes(h.version_minor));
    assert(bytes.subrange(10, 12) =~= spec_u16_to_le_bytes(VERSION_MAJOR));
    assert(bytes.skip(PRELUDE as int) =~= fields_bytes(fields) + end + (digest + trailing));
    lemma_interpret_written(h);
    lemma_walk_written(fields, digest + trailing);
    let length = written.len() as int;
    assert(end.len() == 5);
    assert(bytes.take(length) =~= written);
    assert(bytes.subrange(length, length + DIGEST) =~= digest);
}

} // verus!
