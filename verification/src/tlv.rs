//! The fields that both headers of a file are made of.
//!
//! A field is an identifier of one byte, the length of its payload as four
//! little-endian bytes, and the payload. The field with the identifier 0
//! ends a header.

use crate::bytes::append;
use crate::error::Error;
use vstd::bytes::{
    lemma_auto_spec_u32_to_from_le_bytes, spec_u32_from_le_bytes, spec_u32_to_le_bytes,
    u32_from_le_bytes, u32_to_le_bytes,
};
use vstd::prelude::*;
use vstd::slice::slice_subrange;

verus! {

/// The identifier of the field that ends a header.
pub const END: u8 = 0;

/// The bytes of a field before its payload.
pub const FIELD_HEAD: usize = 5;

/// What a field is.
pub struct Field {
    pub id: u8,
    pub payload: Seq<u8>,
}

/// A field as it lies in the bytes that were read.
pub struct RawField<'a> {
    pub id: u8,
    pub payload: &'a [u8],
}

impl<'a> View for RawField<'a> {
    type V = Field;

    open spec fn view(&self) -> Field {
        Field { id: self.id, payload: self.payload@ }
    }
}

/// What the fields are.
pub open spec fn fields_view(fields: Seq<RawField>) -> Seq<Field> {
    fields.map_values(|f: RawField| f@)
}

/// The bytes of a field.
pub open spec fn field_bytes(field: Field) -> Seq<u8> {
    seq![field.id] + spec_u32_to_le_bytes(field.payload.len() as u32) + field.payload
}

/// The bytes of the fields, one after the other.
pub open spec fn fields_bytes(fields: Seq<Field>) -> Seq<u8> {
    fields.map_values(|f: Field| field_bytes(f)).flatten()
}

/// Whether the fields can be written and read back: none has the identifier
/// that ends a header, and the length of each payload fits in four bytes.
pub open spec fn fields_fit(fields: Seq<Field>) -> bool {
    forall|i: int|
        0 <= i < fields.len() ==> (#[trigger] fields[i]).id != END && fields[i].payload.len()
            <= u32::MAX
}

/// The fields of a header and the number of bytes that they take, the field
/// that ends the header included.
pub struct Walk {
    pub fields: Seq<Field>,
    pub used: int,
}

/// `field` before what follows, where what follows was read without error.
pub open spec fn field_before(field: Field, rest: Result<Walk, Error>) -> Result<Walk, Error> {
    match rest {
        Ok(w) => Ok(
            Walk {
                fields: seq![field] + w.fields,
                used: FIELD_HEAD + field.payload.len() + w.used,
            },
        ),
        Err(e) => Err(e),
    }
}

/// The length that the field at the start of `bytes` declares.
pub open spec fn declared_length(bytes: Seq<u8>) -> int
    recommends
        bytes.len() >= FIELD_HEAD,
{
    spec_u32_from_le_bytes(bytes.subrange(1, 5)) as int
}

/// The fields at the start of `bytes`, up to the one that ends the header;
/// `IncompleteInput` where the bytes end before that. The payload of the
/// field that ends the header is passed over.
pub open spec fn walk(bytes: Seq<u8>) -> Result<Walk, Error>
    decreases bytes.len(),
{
    if bytes.len() < FIELD_HEAD {
        Err(Error::IncompleteInput)
    } else {
        let n = declared_length(bytes);
        if bytes.len() < FIELD_HEAD + n {
            Err(Error::IncompleteInput)
        } else if bytes[0] == END {
            Ok(Walk { fields: Seq::empty(), used: FIELD_HEAD + n })
        } else {
            field_before(
                Field { id: bytes[0], payload: bytes.subrange(FIELD_HEAD as int, FIELD_HEAD + n) },
                walk(bytes.skip(FIELD_HEAD + n)),
            )
        }
    }
}

/// The payload of the first field from `from` on that has the identifier.
pub open spec fn first_with(fields: Seq<Field>, id: u8, from: int) -> Option<Seq<u8>>
    decreases fields.len() - from,
{
    if from < 0 || from >= fields.len() {
        None
    } else if fields[from].id == id {
        Some(fields[from].payload)
    } else {
        first_with(fields, id, from + 1)
    }
}

/// The payload of the first field that has the identifier.
pub open spec fn find(fields: Seq<Field>, id: u8) -> Option<Seq<u8>> {
    first_with(fields, id, 0)
}

/// Whether one of the first `upto` fields has the identifier.
pub open spec fn occurs_before(fields: Seq<Field>, id: u8, upto: int) -> bool {
    exists|j: int| 0 <= j < upto && j < fields.len() && (#[trigger] fields[j]).id == id
}

/// Appends the field with the given identifier and payload to `out`.
pub(crate) fn write_field(out: &mut Vec<u8>, id: u8, payload: &[u8])
    requires
        payload@.len() <= u32::MAX,
    ensures
        final(out)@ == old(out)@ + field_bytes(Field { id, payload: payload@ }),
{
    let length = u32_to_le_bytes(payload.len() as u32);
    out.push(id);
    append(out, length.as_slice());
    append(out, payload);
    assert(out@ =~= old(out)@ + field_bytes(Field { id, payload: payload@ }));
}

/// Reads the fields that start at `start`, up to the one that ends the
/// header, and returns them with the offset at which that one ends.
pub(crate) fn read_fields<'a>(bytes: &'a [u8], start: usize) -> (r: Result<
    (Vec<RawField<'a>>, usize),
    Error,
>)
    requires
        start <= bytes@.len(),
    ensures
        match r {
            Ok((fields, end)) => start <= end <= bytes@.len() && walk(bytes@.skip(start as int))
                == Ok::<Walk, Error>(Walk { fields: fields_view(fields@), used: end - start })
                && payloads_fit(fields@),
            Err(e) => walk(bytes@.skip(start as int)) == Err::<Walk, Error>(e),
        },
{
    let mut fields: Vec<RawField<'a>> = Vec::new();
    let mut offset: usize = start;
    assert(fields_view(fields@) =~= Seq::<Field>::empty());
    assert(before(Seq::empty(), 0, walk(bytes@.skip(start as int))) == walk(
        bytes@.skip(start as int),
    )) by {
        if let Ok(w) = walk(bytes@.skip(start as int)) {
            assert(Seq::<Field>::empty() + w.fields =~= w.fields);
        }
    }
    loop
        invariant
            start <= offset <= bytes@.len(),
            payloads_fit(fields@),
            walk(bytes@.skip(start as int)) == before(
                fields_view(fields@),
                offset - start,
                walk(bytes@.skip(offset as int)),
            ),
        decreases bytes@.len() - offset,
    {
        let ghost rest = bytes@.skip(offset as int);
        let left: usize = bytes.len() - offset;
        if left < FIELD_HEAD {
            return Err(Error::IncompleteInput);
        }
        let id: u8 = bytes[offset];
        assert(id == rest[0]);
        let length = slice_subrange(bytes, offset + 1, offset + FIELD_HEAD);
        assert(length@ =~= rest.subrange(1, 5));
        let n: usize = u32_from_le_bytes(length) as usize;
        if left - FIELD_HEAD < n {
            return Err(Error::IncompleteInput);
        }
        let end: usize = offset + FIELD_HEAD + n;
        if id == END {
            assert(fields_view(fields@) + Seq::<Field>::empty() =~= fields_view(fields@));
            return Ok((fields, end));
        }
        let payload = slice_subrange(bytes, offset + FIELD_HEAD, end);
        assert(payload@ =~= rest.subrange(FIELD_HEAD as int, FIELD_HEAD + n));
        let field = RawField { id, payload };
        proof {
            let seen = fields_view(fields@);
            let tail = walk(rest.skip(FIELD_HEAD + n));
            assert(rest.skip(FIELD_HEAD + n) =~= bytes@.skip(end as int));
            assert(fields_view(fields@.push(field)) =~= seen.push(field@));
            assert(before(seen, offset - start, field_before(field@, tail)) == before(
                seen.push(field@),
                end - start,
                tail,
            )) by {
                if let Ok(w) = tail {
                    assert(seen + (seq![field@] + w.fields) =~= seen.push(field@) + w.fields);
                }
            }
        }
        fields.push(field);
        offset = end;
    }
}

/// `fields`, which took `used` bytes, before what follows, where what
/// follows was read without error.
pub open spec fn before(fields: Seq<Field>, used: int, rest: Result<Walk, Error>) -> Result<
    Walk,
    Error,
> {
    match rest {
        Ok(w) => Ok(Walk { fields: fields + w.fields, used: used + w.used }),
        Err(e) => Err(e),
    }
}

/// Whether the length of each payload fits in four bytes.
pub open spec fn payloads_fit(fields: Seq<RawField>) -> bool {
    forall|i: int| 0 <= i < fields.len() ==> (#[trigger] fields[i]).payload@.len() <= u32::MAX
}

/// The payload of the first field that has the identifier.
pub(crate) fn find_field<'a>(fields: &Vec<RawField<'a>>, id: u8) -> (r: Option<&'a [u8]>)
    ensures
        match r {
            Some(payload) => find(fields_view(fields@), id) == Some(payload@) && (payloads_fit(
                fields@,
            ) ==> payload@.len() <= u32::MAX),
            None => find(fields_view(fields@), id) is None,
        },
{
    let mut i: usize = 0;
    while i < fields.len()
        invariant
            0 <= i <= fields@.len(),
            find(fields_view(fields@), id) == first_with(fields_view(fields@), id, i as int),
        decreases fields@.len() - i,
    {
        if fields[i].id == id {
            return Some(fields[i].payload);
        }
        i += 1;
    }
    None
}

/// Whether one of the first `upto` fields has the identifier.
pub(crate) fn field_occurs_before<'a>(fields: &Vec<RawField<'a>>, id: u8, upto: usize) -> (r: bool)
    requires
        upto <= fields@.len(),
    ensures
        r == occurs_before(fields_view(fields@), id, upto as int),
{
    let mut i: usize = 0;
    while i < upto
        invariant
            0 <= i <= upto <= fields@.len(),
            !occurs_before(fields_view(fields@), id, i as int),
        decreases upto - i,
    {
        if fields[i].id == id {
            assert(fields_view(fields@)[i as int].id == id);
            return true;
        }
        i += 1;
    }
    false
}

/// Reading the bytes of fields that fit, followed by the field that ends the
/// header with an empty payload, gives the fields back, whatever follows.
pub proof fn lemma_walk_written(fields: Seq<Field>, trailing: Seq<u8>)
    requires
        fields_fit(fields),
    ensures
        walk(fields_bytes(fields) + field_bytes(Field { id: END, payload: Seq::empty() }) + trailing)
            == Ok::<Walk, Error>(
            Walk { fields, used: fields_bytes(fields).len() + FIELD_HEAD },
        ),
    decreases fields.len(),
{
    lemma_auto_spec_u32_to_from_le_bytes();
    let end = field_bytes(Field { id: END, payload: Seq::empty() });
    let bytes = fields_bytes(fields) + end + trailing;
    let f = |f: Field| field_bytes(f);
    if fields.len() == 0 {
        assert(fields.map_values(f) =~= Seq::<Seq<u8>>::empty());
        assert(bytes =~= end + trailing);
        assert(bytes.subrange(1, 5) =~= spec_u32_to_le_bytes(0u32));
        assert(bytes[0] == END);
        assert(fields =~= Seq::<Field>::empty());
    } else {
        let first = fields[0];
        let others = fields.drop_first();
        let n = first.payload.len() as int;
        assert(fields_fit(others)) by {
            assert forall|i: int| 0 <= i < others.len() implies (#[trigger] others[i]).id != END
                && others[i].payload.len() <= u32::MAX by {
                assert(others[i] == fields[i + 1]);
            }
        }
        assert(fields.map_values(f).drop_first() =~= others.map_values(f));
        let tail = fields_bytes(others) + end + trailing;
        assert(bytes =~= field_bytes(first) + tail);
        assert(bytes[0] == first.id);
        assert(bytes.subrange(1, 5) =~= spec_u32_to_le_bytes(n as u32));
        assert(bytes.subrange(FIELD_HEAD as int, FIELD_HEAD + n) =~= first.payload);
        assert(bytes.skip(FIELD_HEAD + n) =~= tail);
        lemma_walk_written(others, trailing);
        assert(seq![first] + others =~= fields);
        assert(fields_bytes(fields).len() == field_bytes(first).len() + fields_bytes(others).len());
    }
}

/// The bytes of fields with one more are the bytes of the fields and then
/// those of the one more; no fields have no bytes.
pub proof fn lemma_fields_bytes_push(fields: Seq<Field>, field: Field)
    ensures
        fields_bytes(fields.push(field)) == fields_bytes(fields) + field_bytes(field),
        fields_bytes(Seq::empty()) == Seq::<u8>::empty(),
{
    let f = |f: Field| field_bytes(f);
    assert(fields.push(field).map_values(f) =~= fields.map_values(f).push(field_bytes(field)));
    fields.map_values(f).lemma_flatten_push(field_bytes(field));
    assert(Seq::<Field>::empty().map_values(f) =~= Seq::<Seq<u8>>::empty());
}

/// What is read depends on the bytes that are read only: other bytes that
/// start with the same ones give the same fields.
pub proof fn lemma_walk_prefix(a: Seq<u8>, b: Seq<u8>)
    requires
        walk(a) is Ok,
        b.len() >= walk(a).unwrap().used,
        b.take(walk(a).unwrap().used) == a.take(walk(a).unwrap().used),
    ensures
        walk(b) == walk(a),
        0 <= walk(a).unwrap().used <= a.len(),
    decreases a.len(),
{
    let used = walk(a).unwrap().used;
    let n = declared_length(a);
    lemma_walk_used(a);
    assert(a.subrange(1, 5) =~= a.take(used).subrange(1, 5));
    assert(b.subrange(1, 5) =~= b.take(used).subrange(1, 5));
    assert(a[0] == a.take(used)[0]);
    assert(b[0] == b.take(used)[0]);
    if a[0] != END {
        let rest = a.skip(FIELD_HEAD + n);
        let used_after = walk(rest).unwrap().used;
        lemma_walk_used(rest);
        assert(b.skip(FIELD_HEAD + n).take(used_after) =~= b.take(used).skip(FIELD_HEAD + n));
        assert(rest.take(used_after) =~= a.take(used).skip(FIELD_HEAD + n));
        lemma_walk_prefix(rest, b.skip(FIELD_HEAD + n));
        assert(a.subrange(FIELD_HEAD as int, FIELD_HEAD + n) =~= a.take(used).subrange(
            FIELD_HEAD as int,
            FIELD_HEAD + n,
        ));
        assert(b.subrange(FIELD_HEAD as int, FIELD_HEAD + n) =~= b.take(used).subrange(
            FIELD_HEAD as int,
            FIELD_HEAD + n,
        ));
    }
}

/// The bytes that were read are at least those of one field and lie within
/// the bytes given.
pub proof fn lemma_walk_used(bytes: Seq<u8>)
    requires
        walk(bytes) is Ok,
    ensures
        FIELD_HEAD <= walk(bytes).unwrap().used <= bytes.len(),
    decreases bytes.len(),
{
    if bytes[0] != END {
        lemma_walk_used(bytes.skip(FIELD_HEAD + declared_length(bytes)));
    }
}

/// The first field with an identifier is found: where no field before the
/// one at `index` has the identifier and that one has it, its payload is
/// what is found from `from` on.
pub proof fn lemma_find_at(fields: Seq<Field>, id: u8, from: int, index: int)
    requires
        0 <= from <= index < fields.len(),
        fields[index].id == id,
        forall|j: int| from <= j < index ==> (#[trigger] fields[j]).id != id,
    ensures
        first_with(fields, id, from) == Some(fields[index].payload),
    decreases index - from,
{
    if from < index {
        lemma_find_at(fields, id, from + 1, index);
    }
}

/// Where no field from `from` on has an identifier, nothing is found.
pub proof fn lemma_find_none(fields: Seq<Field>, id: u8, from: int)
    requires
        0 <= from,
        forall|j: int| from <= j < fields.len() ==> (#[trigger] fields[j]).id != id,
    ensures
        first_with(fields, id, from) is None,
    decreases fields.len() - from,
{
    if from < fields.len() {
        lemma_find_none(fields, id, from + 1);
    }
}

} // verus!
