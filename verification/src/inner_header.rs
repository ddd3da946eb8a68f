//! The inner header of a file: what stands before the document once the
//! payload is decrypted and decompressed.
//!
//! It names the stream cipher that masks the protected values of the
//! document, gives the key of that cipher, and holds the binary attachments.
//! An attachment has no name of its own: the document refers to it by its
//! ordinal, its place among the attachments, counted from 0.

use crate::bytes::append;
use crate::error::{Error, HeaderFault};
use crate::tlv::{
    field_bytes, field_occurs_before, fields_bytes, fields_fit, fields_view, find, find_field,
    first_with, lemma_fields_bytes_push, lemma_walk_written, occurs_before, read_fields, walk,
    write_field, Field, RawField, END,
};
use vstd::bytes::{
    lemma_auto_spec_u32_to_from_le_bytes, spec_u32_from_le_bytes, spec_u32_to_le_bytes,
    u32_from_le_bytes, u32_to_le_bytes,
};
use vstd::prelude::*;
use vstd::slice::{slice_subrange, slice_to_vec};

verus! {

/// The field that names the stream cipher.
pub const FIELD_STREAM_CIPHER: u8 = 1;

/// The field that holds the key of the stream cipher.
pub const FIELD_STREAM_KEY: u8 = 2;

/// The field that holds one binary attachment.
pub const FIELD_BINARY: u8 = 3;

/// The stream cipher that masks the protected values of the document.
#[derive(Debug, Clone, Copy, PartialEq, Eq)]
pub enum InnerCipher {
    Salsa20,
    ChaCha20,
}

/// A binary attachment as the inner header holds it.
#[derive(Debug, Clone, PartialEq, Eq)]
pub struct Attachment {
    pub flags: u8,
    pub content: Vec<u8>,
}

/// The inner header of a file.
#[derive(Debug, Clone, PartialEq, Eq)]
pub struct InnerHeader {
    pub cipher: InnerCipher,
    pub key: Vec<u8>,
    pub binaries: Vec<Attachment>,
}

/// What an attachment is.
pub struct Binary {
    pub flags: u8,
    pub content: Seq<u8>,
}

/// What an inner header is.
pub struct Inner {
    pub cipher: InnerCipher,
    pub key: Seq<u8>,
    pub binaries: Seq<Binary>,
}

impl View for Attachment {
    type V = Binary;

    open spec fn view(&self) -> Binary {
        Binary { flags: self.flags, content: self.content@ }
    }
}

impl View for InnerHeader {
    type V = Inner;

    open spec fn view(&self) -> Inner {
        Inner {
            cipher: self.cipher,
            key: self.key@,
            binaries: self.binaries@.map_values(|a: Attachment| a@),
        }
    }
}

/// The number that stands for a stream cipher in the header.
pub open spec fn cipher_code(cipher: InnerCipher) -> u32 {
    match cipher {
        InnerCipher::Salsa20 => 2,
        InnerCipher::ChaCha20 => 3,
    }
}

/// The stream cipher that a number stands for, if it stands for one.
pub open spec fn cipher_coded(code: u32) -> Option<InnerCipher> {
    if code == 2 {
        Some(InnerCipher::Salsa20)
    } else if code == 3 {
        Some(InnerCipher::ChaCha20)
    } else {
        None
    }
}

impl InnerCipher {
    /// The number that stands for the cipher in the header.
    pub fn code(&self) -> (code: u32)
        ensures
            code == cipher_code(*self),
    {
        match self {
            InnerCipher::Salsa20 => 2,
            InnerCipher::ChaCha20 => 3,
        }
    }

    /// The stream cipher that a number stands for, if it stands for one.
    pub fn from_code(code: u32) -> (r: Option<InnerCipher>)
        ensures
            r == cipher_coded(code),
    {
        if code == 2 {
            Some(InnerCipher::Salsa20)
        } else if code == 3 {
            Some(InnerCipher::ChaCha20)
        } else {
            None
        }
    }
}

/// The field that holds an attachment: its flags, then its content.
pub open spec fn binary_field(binary: Binary) -> Field {
    Field { id: FIELD_BINARY, payload: seq![binary.flags] + binary.content }
}

/// The attachment that a payload holds.
pub open spec fn binary_of(payload: Seq<u8>) -> Binary
    recommends
        payload.len() >= 1,
{
    Binary { flags: payload[0], content: payload.skip(1) }
}

/// The attachments that the fields hold, in the order of the fields.
pub open spec fn binaries_of(fields: Seq<Field>) -> Seq<Binary>
    decreases fields.len(),
{
    if fields.len() == 0 {
        Seq::empty()
    } else if fields.last().id == FIELD_BINARY {
        binaries_of(fields.drop_last()).push(binary_of(fields.last().payload))
    } else {
        binaries_of(fields.drop_last())
    }
}

/// The fields of an inner header as they are written: the cipher, the key,
/// and the attachments in their order.
pub open spec fn inner_fields(h: Inner) -> Seq<Field> {
    seq![
        Field { id: FIELD_STREAM_CIPHER, payload: spec_u32_to_le_bytes(cipher_code(h.cipher)) },
        Field { id: FIELD_STREAM_KEY, payload: h.key },
    ] + h.binaries.map_values(|b: Binary| binary_field(b))
}

/// The bytes of an inner header.
pub open spec fn inner_bytes(h: Inner) -> Seq<u8> {
    fields_bytes(inner_fields(h)) + field_bytes(Field { id: END, payload: Seq::empty() })
}

/// The first attachment, from `from` on, that is too long for a field.
pub open spec fn long_binary(binaries: Seq<Binary>, from: int) -> Option<int>
    decreases binaries.len() - from,
{
    if from < 0 || from >= binaries.len() {
        None
    } else if binaries[from].content.len() + 1 > u32::MAX {
        Some(from)
    } else {
        long_binary(binaries, from + 1)
    }
}

/// Why an inner header cannot be written, if it cannot: the key or an
/// attachment is too long for a field.
pub open spec fn write_fault(h: Inner) -> Option<Error> {
    if h.key.len() > u32::MAX {
        Some(Error::MalformedHeader(FIELD_STREAM_KEY, HeaderFault::Length))
    } else if long_binary(h.binaries, 0) is Some {
        Some(Error::MalformedHeader(FIELD_BINARY, HeaderFault::Length))
    } else {
        None
    }
}

/// Whether an inner header can be written and read back.
pub open spec fn well_formed(h: Inner) -> bool {
    write_fault(h) is None
}

/// The fault of the first field, from `from` on, that the header does not
/// take: one with an identifier that names no field, a second cipher or key,
/// or an attachment without the byte of its flags.
pub open spec fn field_fault(fields: Seq<Field>, from: int) -> Option<Error>
    decreases fields.len() - from,
{
    if from < 0 || from >= fields.len() {
        None
    } else {
        let id = fields[from].id;
        if id != FIELD_STREAM_CIPHER && id != FIELD_STREAM_KEY && id != FIELD_BINARY {
            Some(Error::MalformedHeader(id, HeaderFault::UnknownField))
        } else if id != FIELD_BINARY && occurs_before(fields, id, from) {
            Some(Error::MalformedHeader(id, HeaderFault::Duplicate))
        } else if id == FIELD_BINARY && fields[from].payload.len() < 1 {
            Some(Error::MalformedHeader(id, HeaderFault::Length))
        } else {
            field_fault(fields, from + 1)
        }
    }
}

/// The inner header that the fields make, or the first fault met. A field
/// that the header does not take comes first, then a cipher or a key that
/// is not there, then a cipher whose number has not four bytes or is none
/// that the format knows.
pub open spec fn interpret(fields: Seq<Field>) -> Result<Inner, Error> {
    if let Some(e) = field_fault(fields, 0) {
        Err(e)
    } else if find(fields, FIELD_STREAM_CIPHER) is None {
        Err(Error::MissingRequiredHeaderField(FIELD_STREAM_CIPHER))
    } else if find(fields, FIELD_STREAM_KEY) is None {
        Err(Error::MissingRequiredHeaderField(FIELD_STREAM_KEY))
    } else {
        let code = find(fields, FIELD_STREAM_CIPHER).unwrap();
        if code.len() != 4 {
            Err(Error::MalformedHeader(FIELD_STREAM_CIPHER, HeaderFault::Length))
        } else if cipher_coded(spec_u32_from_le_bytes(code)) is None {
            Err(Error::UnknownInnerCipher(spec_u32_from_le_bytes(code)))
        } else {
            Ok(
                Inner {
                    cipher: cipher_coded(spec_u32_from_le_bytes(code)).unwrap(),
                    key: find(fields, FIELD_STREAM_KEY).unwrap(),
                    binaries: binaries_of(fields),
                },
            )
        }
    }
}

/// An inner header that was read, and the number of bytes that it took: the
/// document starts there.
pub struct ParsedInner {
    pub header: Inner,
    pub length: int,
}

/// The inner header at the start of `bytes`, or the first fault met; bytes
/// that end before the header does are `IncompleteInput`.
pub open spec fn parse_inner(bytes: Seq<u8>) -> Result<ParsedInner, Error> {
    match walk(bytes) {
        Err(e) => Err(e),
        Ok(w) => match interpret(w.fields) {
            Err(e) => Err(e),
            Ok(header) => Ok(ParsedInner { header, length: w.used }),
        },
    }
}

/// The fault of the first field that the header does not take.
pub(crate) fn find_field_fault<'a>(fields: &Vec<RawField<'a>>) -> (r: Option<Error>)
    ensures
        r == field_fault(fields_view(fields@), 0),
{
    let mut i: usize = 0;
    while i < fields.len()
        invariant
            0 <= i <= fields@.len(),
            field_fault(fields_view(fields@), 0) == field_fault(fields_view(fields@), i as int),
        decreases fields@.len() - i,
    {
        let id: u8 = fields[i].id;
        assert(fields_view(fields@)[i as int] == fields@[i as int]@);
        if id != FIELD_STREAM_CIPHER && id != FIELD_STREAM_KEY && id != FIELD_BINARY {
            return Some(Error::MalformedHeader(id, HeaderFault::UnknownField));
        }
        if id != FIELD_BINARY && field_occurs_before(fields, id, i) {
            return Some(Error::MalformedHeader(id, HeaderFault::Duplicate));
        }
        if id == FIELD_BINARY && fields[i].payload.len() < 1 {
            return Some(Error::MalformedHeader(id, HeaderFault::Length));
        }
        i += 1;
    }
    None
}

/// The attachments that the fields hold, in the order of the fields.
pub(crate) fn collect_binaries<'a>(fields: &Vec<RawField<'a>>) -> (binaries: Vec<Attachment>)
    requires
        field_fault(fields_view(fields@), 0) is None,
    ensures
        binaries@.map_values(|a: Attachment| a@) == binaries_of(fields_view(fields@)),
{
    let mut binaries: Vec<Attachment> = Vec::new();
    let mut i: usize = 0;
    let ghost all = fields_view(fields@);
    assert(binaries@.map_values(|a: Attachment| a@) =~= Seq::<Binary>::empty());
    while i < fields.len()
        invariant
            0 <= i <= fields@.len(),
            all == fields_view(fields@),
            field_fault(all, i as int) is None,
            binaries@.map_values(|a: Attachment| a@) == binaries_of(all.take(i as int)),
        decreases fields@.len() - i,
    {
        let ghost seen = binaries@.map_values(|a: Attachment| a@);
        assert(all.take(i + 1).drop_last() =~= all.take(i as int));
        assert(all.take(i + 1).last() == all[i as int]);
        assert(all[i as int] == fields@[i as int]@);
        if fields[i].id == FIELD_BINARY {
            let payload = fields[i].payload;
            let content = slice_subrange(payload, 1, payload.len());
            let attachment = Attachment { flags: payload[0], content: slice_to_vec(content) };
            assert(attachment@ == binary_of(payload@)) by {
                assert(content@ =~= payload@.skip(1));
            }
            binaries.push(attachment);
            assert(binaries@.map_values(|a: Attachment| a@) =~= seen.push(attachment@));
        }
        i += 1;
    }
    assert(all.take(i as int) =~= all);
    binaries
}

/// The inner header that is written of the given parts.
pub open spec fn written_inner(cipher: InnerCipher, key: Seq<u8>, binaries: &Vec<Attachment>) -> Inner {
    Inner { cipher, key, binaries: binaries@.map_values(|a: Attachment| a@) }
}

/// The bytes of the inner header with the given parts; or why it cannot be
/// written.
pub fn write_inner(cipher: InnerCipher, key: &[u8], binaries: &Vec<Attachment>) -> (r: Result<
    Vec<u8>,
    Error,
>)
    ensures
        match r {
            Ok(bytes) => well_formed(written_inner(cipher, key@, binaries)) && bytes@
                == inner_bytes(written_inner(cipher, key@, binaries)),
            Err(e) => write_fault(written_inner(cipher, key@, binaries)) == Some(e),
        },
{
    let ghost h = written_inner(cipher, key@, binaries);
    if key.len() > 0xFFFF_FFFF {
        return Err(Error::MalformedHeader(FIELD_STREAM_KEY, HeaderFault::Length));
    }
    let mut out: Vec<u8> = Vec::new();
    let ghost f0 = Field {
        id: FIELD_STREAM_CIPHER,
        payload: spec_u32_to_le_bytes(cipher_code(cipher)),
    };
    let ghost f1 = Field { id: FIELD_STREAM_KEY, payload: key@ };
    let ghost none = Seq::<Field>::empty();
    let ghost to_field = |b: Binary| binary_field(b);
    let ghost all = h.binaries;
    proof {
        lemma_fields_bytes_push(none, f0);
        lemma_fields_bytes_push(none.push(f0), f1);
        assert(none.push(f0).push(f1) =~= seq![f0, f1] + all.take(0).map_values(to_field));
    }
    write_field(&mut out, FIELD_STREAM_CIPHER, u32_to_le_bytes(cipher.code()).as_slice());
    write_field(&mut out, FIELD_STREAM_KEY, key);
    assert(out@ =~= fields_bytes(none.push(f0).push(f1)));
    let mut i: usize = 0;
    while i < binaries.len()
        invariant
            0 <= i <= binaries@.len(),
            h == written_inner(cipher, key@, binaries),
            all == h.binaries,
            h.key.len() <= u32::MAX,
            f0 == (Field {
                id: FIELD_STREAM_CIPHER,
                payload: spec_u32_to_le_bytes(cipher_code(cipher)),
            }),
            f1 == (Field { id: FIELD_STREAM_KEY, payload: key@ }),
            to_field == |b: Binary| binary_field(b),
            long_binary(all, 0) == long_binary(all, i as int),
            out@ == fields_bytes(seq![f0, f1] + all.take(i as int).map_values(to_field)),
        decreases binaries@.len() - i,
    {
        let attachment = &binaries[i];
        assert(all[i as int] == attachment@);
        if attachment.content.len() >= 0xFFFF_FFFF {
            return Err(Error::MalformedHeader(FIELD_BINARY, HeaderFault::Length));
        }
        let mut payload: Vec<u8> = Vec::new();
        payload.push(attachment.flags);
        append(&mut payload, attachment.content.as_slice());
        assert(payload@ =~= binary_field(attachment@).payload);
        proof {
            let before = seq![f0, f1] + all.take(i as int).map_values(to_field);
            lemma_fields_bytes_push(before, binary_field(attachment@));
            assert(before.push(binary_field(attachment@)) =~= seq![f0, f1] + all.take(
                i + 1,
            ).map_values(to_field));
        }
        write_field(&mut out, FIELD_BINARY, payload.as_slice());
        i += 1;
    }
    assert(all.take(i as int) =~= all);
    let empty: [u8; 0] = [];
    assert(empty@ =~= Seq::<u8>::empty());
    write_field(&mut out, END, empty.as_slice());
    Ok(out)
}

impl InnerHeader {
    /// The attachment with the given ordinal, if there is one.
    pub fn binary(&self, ordinal: usize) -> (r: Option<&Attachment>)
        ensures
            match r {
                Some(a) => ordinal < self@.binaries.len() && a@ == self@.binaries[ordinal as int],
                None => ordinal >= self@.binaries.len(),
            },
    {
        if ordinal < self.binaries.len() {
            Some(&self.binaries[ordinal])
        } else {
            None
        }
    }

    /// The bytes of the inner header; or why it cannot be written.
    pub fn serialize(&self) -> (r: Result<Vec<u8>, Error>)
        ensures
            match r {
                Ok(bytes) => well_formed(self@) && bytes@ == inner_bytes(self@),
                Err(e) => write_fault(self@) == Some(e),
            },
    {
        write_inner(self.cipher, self.key.as_slice(), &self.binaries)
    }

    /// Reads the inner header at the start of `bytes`. Returns the header
    /// and the number of bytes that it took: the document starts there.
    pub fn parse(bytes: &[u8]) -> (r: Result<(InnerHeader, usize), Error>)
        ensures
            match r {
                Ok((header, length)) => parse_inner(bytes@) == Ok::<ParsedInner, Error>(
                    ParsedInner { header: header@, length: length as int },
                ) && length <= bytes@.len(),
                Err(e) => parse_inner(bytes@) == Err::<ParsedInner, Error>(e),
            },
    {
        assert(bytes@.skip(0) =~= bytes@);
        let (fields, length) = match read_fields(bytes, 0) {
            Ok(read) => read,
            Err(e) => {
                return Err(e);
            },
        };
        if let Some(e) = find_field_fault(&fields) {
            return Err(e);
        }
        let code = match find_field(&fields, FIELD_STREAM_CIPHER) {
            Some(payload) => payload,
            None => {
                return Err(Error::MissingRequiredHeaderField(FIELD_STREAM_CIPHER));
            },
        };
        let key = match find_field(&fields, FIELD_STREAM_KEY) {
            Some(payload) => payload,
            None => {
                return Err(Error::MissingRequiredHeaderField(FIELD_STREAM_KEY));
            },
        };
        if code.len() != 4 {
            return Err(Error::MalformedHeader(FIELD_STREAM_CIPHER, HeaderFault::Length));
        }
        let number = u32_from_le_bytes(code);
        let cipher = match InnerCipher::from_code(number) {
            Some(cipher) => cipher,
            None => {
                return Err(Error::UnknownInnerCipher(number));
            },
        };
        let binaries = collect_binaries(&fields);
        Ok((InnerHeader { cipher, key: slice_to_vec(key), binaries }, length))
    }
}

/// Where no attachment is too long, each fits in a field.
pub proof fn lemma_binaries_fit(binaries: Seq<Binary>, from: int)
    requires
        0 <= from,
        long_binary(binaries, from) is None,
    ensures
        forall|i: int|
            from <= i < binaries.len() ==> (#[trigger] binaries[i]).content.len() + 1 <= u32::MAX,
    decreases binaries.len() - from,
{
    if from < binaries.len() {
        lemma_binaries_fit(binaries, from + 1);
    }
}

/// The attachments that their own fields hold, after other fields, are the
/// attachments of those other fields and then they themselves, in their
/// order.
pub proof fn lemma_binaries_of_written(prefix: Seq<Field>, binaries: Seq<Binary>)
    ensures
        binaries_of(prefix + binaries.map_values(|b: Binary| binary_field(b))) == binaries_of(
            prefix,
        ) + binaries,
    decreases binaries.len(),
{
    let to_field = |b: Binary| binary_field(b);
    let fields = prefix + binaries.map_values(to_field);
    if binaries.len() == 0 {
        assert(fields =~= prefix);
        assert(binaries_of(prefix) + binaries =~= binaries_of(prefix));
    } else {
        let init = binaries.drop_last();
        let last = binaries.last();
        assert(fields.drop_last() =~= prefix + init.map_values(to_field));
        assert(fields.last() == binary_field(last));
        lemma_binaries_of_written(prefix, init);
        assert(binary_of(binary_field(last).payload) == last) by {
            assert(binary_field(last).payload.skip(1) =~= last.content);
        }
        assert((binaries_of(prefix) + init).push(last) =~= binaries_of(prefix) + binaries);
    }
}

/// From the third on, the fields of a well-formed inner header are
/// attachments that the header takes.
pub proof fn lemma_written_binaries_taken(h: Inner, from: int)
    requires
        well_formed(h),
        2 <= from,
    ensures
        field_fault(inner_fields(h), from) is None,
    decreases inner_fields(h).len() - from,
{
    let fields = inner_fields(h);
    if from < fields.len() {
        assert(fields[from] == binary_field(h.binaries[from - 2]));
        lemma_written_binaries_taken(h, from + 1);
    }
}

/// The fields of a well-formed inner header, as they are written, make that
/// header.
pub proof fn lemma_interpret_written(h: Inner)
    requires
        well_formed(h),
    ensures
        interpret(inner_fields(h)) == Ok::<Inner, Error>(h),
        fields_fit(inner_fields(h)),
{
    reveal_with_fuel(first_with, 3);
    reveal_with_fuel(field_fault, 3);
    reveal_with_fuel(binaries_of, 3);
    lemma_auto_spec_u32_to_from_le_bytes();
    let fields = inner_fields(h);
    let head = seq![
        Field { id: FIELD_STREAM_CIPHER, payload: spec_u32_to_le_bytes(cipher_code(h.cipher)) },
        Field { id: FIELD_STREAM_KEY, payload: h.key },
    ];
    assert(fields[0] == head[0]);
    assert(fields[1] == head[1]);
    lemma_binaries_fit(h.binaries, 0);
    assert forall|i: int| 0 <= i < fields.len() implies (#[trigger] fields[i]).id != END
        && fields[i].payload.len() <= u32::MAX by {
        if i >= 2 {
            assert(fields[i] == binary_field(h.binaries[i - 2]));
        }
    }
    lemma_written_binaries_taken(h, 2);
    assert(field_fault(fields, 0) is None);
    lemma_binaries_of_written(head, h.binaries);
    assert(head.drop_last().drop_last() =~= Seq::<Field>::empty());
    assert(binaries_of(head) =~= Seq::<Binary>::empty());
    assert(binaries_of(head) + h.binaries =~= h.binaries);
}

/// Reading what was written gives the inner header back, whatever follows
/// it.
pub proof fn lemma_parse_written_inner(h: Inner, trailing: Seq<u8>)
    requires
        well_formed(h),
    ensures
        parse_inner(inner_bytes(h) + trailing) == Ok::<ParsedInner, Error>(
            ParsedInner { header: h, length: inner_bytes(h).len() as int },
        ),
{
    lemma_auto_spec_u32_to_from_le_bytes();
    lemma_interpret_written(h);
    lemma_walk_written(inner_fields(h), trailing);
}

/// An ordinal names the same attachment after the header was written and
/// read as before.
pub proof fn lemma_ordinals_stable(h: Inner, trailing: Seq<u8>, ordinal: int)
    requires
        well_formed(h),
        0 <= ordinal < h.binaries.len(),
    ensures
        parse_inner(inner_bytes(h) + trailing) is Ok,
        parse_inner(inner_bytes(h) + trailing).unwrap().header.binaries.len() == h.binaries.len(),
        parse_inner(inner_bytes(h) + trailing).unwrap().header.binaries[ordinal]
            == h.binaries[ordinal],
{
    lemma_parse_written_inner(h, trailing);
}

} // verus!
