//! Error values of the codec.

use vstd::prelude::*;

verus! {

/// What a cryptographic primitive can refuse.
#[derive(Debug, Clone, Copy, PartialEq, Eq)]
pub enum CryptographyError {
    /// A key of a length that the primitive does not take.
    InvalidKeyLength,
}

/// What is wrong with a header field.
#[derive(Debug, Clone, Copy, PartialEq, Eq)]
pub enum HeaderFault {
    /// The identifier names no field of this header.
    UnknownField,
    /// The field occurs a second time.
    Duplicate,
    /// The payload has a length that the field does not take.
    Length,
    /// The payload has the right length and a value that the field does not
    /// take.
    Value,
}

/// What is wrong with a variant dictionary.
#[derive(Debug, Clone, Copy, PartialEq, Eq)]
pub enum DictionaryFault {
    /// The bytes end before the dictionary does.
    Truncated,
    /// The version is not the one that this codec reads.
    Version,
    /// A value has a length that its type does not take.
    ValueLength,
    /// A text value is not UTF-8.
    Encoding,
}

/// Why a file was not read.
#[derive(Debug, Clone, Copy, PartialEq, Eq)]
pub enum Error {
    /// The file does not start with the signature of the format.
    InvalidMagic,
    /// The file is of a version that this codec does not read.
    UnsupportedVersion,
    /// A header field, named by its identifier, is not as it must be.
    MalformedHeader(u8, HeaderFault),
    /// A header field that must be there, named by its identifier, is not.
    MissingRequiredHeaderField(u8),
    /// The outer cipher, named by its UUID, is none that the format knows.
    UnknownCipher([u8; 16]),
    /// The inner stream cipher, named by its number, is none that the format
    /// knows.
    UnknownInnerCipher(u32),
    /// A variant dictionary is not as it must be.
    InvalidVariantDictionary(DictionaryFault),
    /// A value in a variant dictionary has a type that the format does not
    /// know.
    UnknownVariantType(u8),
    /// The digest stored after the header is not that of the header.
    HeaderHashMismatch,
    /// A tag is not that of the bytes it stands for: that of the frame with
    /// the given index, or, with index `u64::MAX`, that of the header.
    MessageAuthenticationFailed(u64),
    /// What was decrypted does not end in a padding, or what is to be
    /// encrypted or decrypted is more than the cipher takes.
    PaddingError,
    /// What was decrypted does not decompress.
    DecompressionError,
    /// The parameters of the key derivation are none that it takes.
    InvalidKdfParams,
    /// The key derivation, named by its UUID, is none that the format knows.
    UnknownKdf([u8; 16]),
    /// The document ends within a protected value, named by its ordinal
    /// among the protected values; or, on writing, the document holds the
    /// mark of a protected value where none is.
    DocumentParseError(u64),
    /// A protected value, named by its ordinal among the protected values,
    /// is not written as it must be, or cannot be masked and written.
    InvalidValueEncoding(u64),
    /// A key of a length that a primitive does not take.
    InvalidKeyLength,
    /// The bytes end before the file does.
    IncompleteInput,
}

} // verus!
