use kdbx4::compress::{compress, decompress};
use kdbx4::error::Error;
use kdbx4::header::Compression;

#[test]
fn without_compression_the_payload_is_as_it_is() {
    assert_eq!(compress(Compression::Uncompressed, b"payload"), Ok(b"payload".to_vec()));
    assert_eq!(decompress(Compression::Uncompressed, b"payload"), Ok(b"payload".to_vec()));
    assert_eq!(decompress(Compression::Uncompressed, b""), Ok(vec![]));
}

#[test]
fn gzip_payload_is_a_gzip_stream_that_gives_the_payload_back() {
    let data: Vec<u8> = b"hello hello hello ".repeat(200);
    let out = compress(Compression::GZip, &data).unwrap();
    assert_eq!(&out[..3], &[0x1f, 0x8b, 0x08]);
    assert!(out.len() < data.len());
    assert_ne!(out, data);
    assert_eq!(decompress(Compression::GZip, &out), Ok(data));
    let nothing = compress(Compression::GZip, b"").unwrap();
    assert_eq!(decompress(Compression::GZip, &nothing), Ok(vec![]));
}

#[test]
fn gzip_stream_of_another_writer_is_read() {
    let stream = [
        0x1fu8, 0x8b, 0x08, 0x00, 0x00, 0x00, 0x00, 0x00, 0x02, 0x03, 0xcb, 0x48, 0xcd, 0xc9,
        0xc9, 0x57, 0xc8, 0x40, 0x90, 0x00, 0x80, 0x88, 0xf9, 0xe5, 0x11, 0x00, 0x00, 0x00,
    ];
    assert_eq!(decompress(Compression::GZip, &stream), Ok(b"hello hello hello".to_vec()));
}

#[test]
fn what_is_no_gzip_stream_is_a_decompression_error() {
    assert_eq!(decompress(Compression::GZip, b"payload"), Err(Error::DecompressionError));
    assert_eq!(decompress(Compression::GZip, b""), Err(Error::DecompressionError));
    let mut out = compress(Compression::GZip, b"some payload").unwrap();
    let last = out.len() - 1;
    out.truncate(last);
    assert_eq!(decompress(Compression::GZip, &out), Err(Error::DecompressionError));
    let mut changed = compress(Compression::GZip, b"some payload").unwrap();
    let crc = changed.len() - 8;
    changed[crc] ^= 1;
    assert_eq!(decompress(Compression::GZip, &changed), Err(Error::DecompressionError));
}
