use kdbx4::document::{find_mark, find_open, Document, ProtectedValue};
use kdbx4::error::Error;
use kdbx4::inner_header::InnerCipher;
use kdbx4::protect::InnerStream;

fn stream() -> InnerStream {
    InnerStream::new(InnerCipher::ChaCha20, &[b'K'; 64]).unwrap()
}

fn sample() -> Document {
    Document {
        values: vec![
            ProtectedValue {
                before: b"<Entry><Value Protected=\"True\">".to_vec(),
                value: b"klmno".to_vec(),
            },
            ProtectedValue {
                before: b"</Value><Value Protected=\"True\">".to_vec(),
                value: b"custom-data-value".to_vec(),
            },
        ],
        tail: b"</Value></Entry>".to_vec(),
    }
}

const WRITTEN: &[u8] = b"<Entry><Value Protected=\"True\">Th4YBmI=</Value>\
    <Value Protected=\"True\">tAWyD0Tfi+rhTYkmfmaWKJc=</Value></Entry>";

#[test]
fn mark_and_open_are_found_where_they_stand_first() {
    let text = b"ab Protected=\"True\">cd<ef Protected=\"True\">";
    assert_eq!(find_mark(text, 0), 3);
    assert_eq!(find_mark(text, 3), 3);
    assert_eq!(find_mark(text, 4), 26);
    assert_eq!(find_mark(text, 27), text.len());
    assert_eq!(find_mark(b"Protected=\"True\"", 0), 16);
    assert_eq!(find_mark(b"protected=\"True\">", 0), 17);
    assert_eq!(find_mark(b"", 0), 0);
    assert_eq!(find_open(text, 0), 22);
    assert_eq!(find_open(text, 22), 22);
    assert_eq!(find_open(text, 23), text.len());
    assert_eq!(find_open(b"", 0), 0);
}

#[test]
fn document_is_written_with_its_values_masked_in_their_order() {
    let mut writer = stream();
    assert!(sample().is_canonical());
    assert_eq!(sample().write(&mut writer), Ok(WRITTEN.to_vec()));
}

#[test]
fn written_document_is_read_back() {
    let mut reader = stream();
    assert_eq!(Document::read(WRITTEN, &mut reader), Ok(sample()));
    let plain = Document { values: vec![], tail: b"<KeePassFile/>".to_vec() };
    assert_eq!(plain.write(&mut stream()), Ok(b"<KeePassFile/>".to_vec()));
    assert_eq!(Document::read(b"<KeePassFile/>", &mut stream()), Ok(plain));
    assert_eq!(
        Document::read(b"", &mut stream()),
        Ok(Document { values: vec![], tail: vec![] })
    );
}

#[test]
fn values_written_in_another_order_than_they_are_read_are_corrupted() {
    let mut swapped = sample();
    swapped.values[0].value = b"custom-data-value".to_vec();
    swapped.values[1].value = b"klmno".to_vec();
    let first = sample().write(&mut stream()).unwrap();
    let second = swapped.write(&mut stream()).unwrap();
    let cut = "<Entry><Value Protected=\"True\">".len();
    let mut crossed = first[..cut].to_vec();
    crossed.extend_from_slice(b"tAWyD0Tfi+rhTYkmfmaWKJc=</Value><Value Protected=\"True\">Th4YBmI=");
    crossed.extend_from_slice(b"</Value></Entry>");
    let read = Document::read(&crossed, &mut stream()).unwrap();
    assert_ne!(read.values[0].value, b"custom-data-value".to_vec());
    assert_ne!(read.values[1].value, b"klmno".to_vec());
    assert_ne!(first, second);
    assert_eq!(Document::read(&second, &mut stream()), Ok(swapped));
}

#[test]
fn value_that_is_no_base64_is_refused_with_its_ordinal() {
    let bad = b"<Value Protected=\"True\">AAAA</Value><Value Protected=\"True\">not base64</Value>";
    assert_eq!(Document::read(bad, &mut stream()), Err(Error::InvalidValueEncoding(1)));
    let first = b"<Value Protected=\"True\">A</Value>";
    assert_eq!(Document::read(first, &mut stream()), Err(Error::InvalidValueEncoding(0)));
}

#[test]
fn document_that_ends_within_a_value_is_refused_with_its_ordinal() {
    assert_eq!(
        Document::read(b"<Value Protected=\"True\">AAAA", &mut stream()),
        Err(Error::DocumentParseError(0))
    );
    assert_eq!(
        Document::read(b"<Value Protected=\"True\">AAAA</Value><Value Protected=\"True\">", &mut stream()),
        Err(Error::DocumentParseError(1))
    );
}

#[test]
fn canonical_documents_are_told_from_others() {
    assert!(Document { values: vec![], tail: vec![] }.is_canonical());
    let change = |f: &dyn Fn(&mut Document)| {
        let mut d = sample();
        f(&mut d);
        d.is_canonical()
    };
    assert!(change(&|_| {}));
    assert!(!change(&|d| d.tail = b"no open".to_vec()));
    assert!(!change(&|d| d.tail = vec![]));
    assert!(!change(&|d| d.tail = b"<a Protected=\"True\">".to_vec()));
    assert!(!change(&|d| d.values[0].before = b"<Value>".to_vec()));
    assert!(!change(&|d| d.values[0].before = b"Protected=\"True\"><Value Protected=\"True\">".to_vec()));
    assert!(!change(&|d| d.values[1].before = b"Value Protected=\"True\">".to_vec()));
    assert!(change(&|d| d.values[0].before = b"Protected=\"True\">".to_vec()));
    assert!(change(&|d| d.values[0].value = b"<Protected=\"True\">".to_vec()));
}

#[test]
fn empty_protected_values_are_read_back() {
    let mut d = sample();
    d.values[0].value = vec![];
    let written = d.write(&mut stream()).unwrap();
    assert_eq!(Document::read(&written, &mut stream()), Ok(d));
}

#[test]
fn mark_is_read_with_true_in_either_case() {
    assert_eq!(find_mark(b"<a Protected=\"tRUE\">", 0), 3);
    assert_eq!(find_mark(b"<a Protected=\"true\">", 0), 3);
    assert_eq!(find_mark(b"<a PROTECTED=\"True\">", 0), 20);
    assert_eq!(find_mark(b"<a Protected=\"False\">", 0), 21);
    assert_eq!(find_mark(b"<a Protected='True'>", 0), 20);
    let read = Document::read(b"<Value Protected=\"true\">Th4YBmI=</Value>", &mut stream()).unwrap();
    assert_eq!(read.values.len(), 1);
    assert_eq!(read.values[0].value, b"klmno".to_vec());
    assert_eq!(read.values[0].before, b"<Value Protected=\"true\">".to_vec());
    assert!(read.is_canonical());
    let plain = Document::read(b"<Value Protected=\"False\">Th4YBmI=</Value>", &mut stream()).unwrap();
    assert_eq!(plain.values.len(), 0);
}
