//! The compression of the payload of a file before it is encrypted.

use crate::envelope::result_view;
use crate::error::Error;
use crate::header::Compression;
use flate2::read::GzDecoder;
use flate2::write::GzEncoder;
use std::io::{Read, Write};
use vstd::prelude::*;
use vstd::slice::slice_to_vec;

verus! {

/// What a gzip stream decompresses to, where it is one.
pub uninterp spec fn gunzipped(data: Seq<u8>) -> Option<Seq<u8>>;

/// `flate2::write::GzEncoder` (`new` with the default level, `write_all`,
/// `finish`): a gzip stream that decompresses to the data. The encoder
/// writes into a vector, which takes every write, and a new encoder has no
/// state that it could refuse the data for: there is always a stream.
#[verifier::external_body]
pub(crate) fn gzip(data: &[u8]) -> (r: Option<Vec<u8>>)
    ensures
        r is Some,
        gunzipped(r.unwrap()@) == Some(data@),
{
    let mut encoder = GzEncoder::new(Vec::new(), flate2::Compression::default());
    if encoder.write_all(data).is_err() {
        return None;
    }
    encoder.finish().ok()
}

/// `flate2::read::GzDecoder` (`new`, `read_to_end`): what the gzip stream
/// decompresses to, or nothing where it is none.
#[verifier::external_body]
pub(crate) fn gunzip(data: &[u8]) -> (r: Option<Vec<u8>>)
    ensures
        r is Some <==> gunzipped(data@) is Some,
        r is Some ==> r.unwrap()@ == gunzipped(data@).unwrap(),
{
    let mut out = Vec::new();
    match GzDecoder::new(data).read_to_end(&mut out) {
        Ok(_) => Some(out),
        Err(_) => None,
    }
}

/// The payload as it was before it was compressed; what does not decompress
/// is `DecompressionError`.
pub open spec fn decompressed(compression: Compression, data: Seq<u8>) -> Result<Seq<u8>, Error> {
    match compression {
        Compression::Uncompressed => Ok(data),
        Compression::GZip => match gunzipped(data) {
            Some(plain) => Ok(plain),
            None => Err(Error::DecompressionError),
        },
    }
}

/// Compresses the payload of a file. There is always a result, and it
/// decompresses to the data; without compression it is the data as it is.
pub fn compress(compression: Compression, data: &[u8]) -> (r: Result<Vec<u8>, Error>)
    ensures
        r is Ok,
        decompressed(compression, r.unwrap()@) == Ok::<Seq<u8>, Error>(data@),
        compression == Compression::Uncompressed ==> r.unwrap()@ == data@,
{
    match compression {
        Compression::Uncompressed => Ok(slice_to_vec(data)),
        Compression::GZip => match gzip(data) {
            Some(out) => Ok(out),
            None => Err(Error::DecompressionError),
        },
    }
}

/// Decompresses the payload of a file.
pub fn decompress(compression: Compression, data: &[u8]) -> (r: Result<Vec<u8>, Error>)
    ensures
        result_view(r) == decompressed(compression, data@),
{
    match compression {
        Compression::Uncompressed => Ok(slice_to_vec(data)),
        Compression::GZip => match gunzip(data) {
            Some(plain) => Ok(plain),
            None => Err(Error::DecompressionError),
        },
    }
}

} // verus!
