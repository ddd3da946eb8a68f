//! Reading and writing the files of KDBX4 password databases.
//!
//! A file is an outer header under its digest and its tag, and an envelope
//! of frames, each under a tag of its own, that holds the payload: the inner
//! header and the document, compressed and encrypted, the protected values
//! of the document masked. [`database`] goes the whole way between the
//! bytes of a file and what it holds; the other modules are the layers on
//! that way.

pub mod bytes;
pub mod compress;
pub mod container;
pub mod crypt;
pub mod database;
pub mod document;
pub mod envelope;
pub mod error;
pub mod header;
pub mod inner_header;
pub mod key;
pub mod protect;
pub mod tlv;
pub mod variant;
pub mod xml_db;
