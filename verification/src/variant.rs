//! Variant dictionaries: typed values under names, as the header stores the
//! parameters of the key derivation.
//!
//! On the wire a dictionary is a version of two bytes, then one entry after
//! the other, then one byte 0. An entry is the type of its value as one byte,
//! the length of its name as four little-endian bytes, the name, the length
//! of the value as four little-endian bytes, and the value.

use crate::bytes::{
    append, bits_i32, bits_i64, i32_bits, i32_from_bits, i32_to_bits, i64_bits, i64_from_bits,
    i64_to_bits, lemma_signed_bits,
};
use crate::error::{DictionaryFault, Error};
use vstd::bytes::{
    lemma_auto_spec_u16_to_from_le_bytes, lemma_auto_spec_u32_to_from_le_bytes,
    lemma_auto_spec_u64_to_from_le_bytes, spec_u16_from_le_bytes, spec_u16_to_le_bytes,
    spec_u32_from_le_bytes, spec_u32_to_le_bytes, spec_u64_from_le_bytes, spec_u64_to_le_bytes,
    u16_from_le_bytes, u16_to_le_bytes, u32_from_le_bytes, u32_to_le_bytes, u64_from_le_bytes,
    u64_to_le_bytes,
};
use vstd::prelude::*;
use vstd::slice::{slice_subrange, slice_to_vec};
use vstd::utf8::{
    decode_utf8, encode_utf8, encode_utf8_decode_utf8, encode_utf8_valid_utf8, valid_utf8,
};

verus! {

/// The version that a dictionary starts with.
pub const VERSION: u16 = 0x0100;

/// The byte that ends a dictionary.
pub const TYPE_END: u8 = 0x00;

/// The type of an unsigned number of 32 bits.
pub const TYPE_UINT32: u8 = 0x04;

/// The type of an unsigned number of 64 bits.
pub const TYPE_UINT64: u8 = 0x05;

/// The type of a truth value.
pub const TYPE_BOOL: u8 = 0x08;

/// The type of a signed number of 32 bits.
pub const TYPE_INT32: u8 = 0x0C;

/// The type of a signed number of 64 bits.
pub const TYPE_INT64: u8 = 0x0D;

/// The type of a text in UTF-8.
pub const TYPE_TEXT: u8 = 0x18;

/// The type of a byte string.
pub const TYPE_BYTES: u8 = 0x42;

/// A value of a dictionary.
#[derive(Debug, Clone, PartialEq, Eq)]
pub enum VariantValue {
    UInt32(u32),
    UInt64(u64),
    Bool(bool),
    Int32(i32),
    Int64(i64),
    Text(String),
    Bytes(Vec<u8>),
}

/// A value under its name.
#[derive(Debug, Clone, PartialEq, Eq)]
pub struct VariantEntry {
    pub name: Vec<u8>,
    pub value: VariantValue,
}

/// The entries of a dictionary, in their order.
#[derive(Debug, Clone, PartialEq, Eq)]
pub struct VariantDictionary {
    pub entries: Vec<VariantEntry>,
}

/// What a value is.
pub enum Variant {
    UInt32(u32),
    UInt64(u64),
    Bool(bool),
    Int32(i32),
    Int64(i64),
    Text(Seq<char>),
    Bytes(Seq<u8>),
}

/// What an entry is.
pub struct Entry {
    pub name: Seq<u8>,
    pub value: Variant,
}

impl View for VariantValue {
    type V = Variant;

    open spec fn view(&self) -> Variant {
        match self {
            VariantValue::UInt32(x) => Variant::UInt32(*x),
            VariantValue::UInt64(x) => Variant::UInt64(*x),
            VariantValue::Bool(x) => Variant::Bool(*x),
            VariantValue::Int32(x) => Variant::Int32(*x),
            VariantValue::Int64(x) => Variant::Int64(*x),
            VariantValue::Text(x) => Variant::Text(x@),
            VariantValue::Bytes(x) => Variant::Bytes(x@),
        }
    }
}

impl View for VariantEntry {
    type V = Entry;

    open spec fn view(&self) -> Entry {
        Entry { name: self.name@, value: self.value@ }
    }
}

impl View for VariantDictionary {
    type V = Seq<Entry>;

    open spec fn view(&self) -> Seq<Entry> {
        self.entries@.map_values(|e: VariantEntry| e@)
    }
}

/// The byte that stands for the type of a value.
pub open spec fn type_code(value: Variant) -> u8 {
    match value {
        Variant::UInt32(_) => TYPE_UINT32,
        Variant::UInt64(_) => TYPE_UINT64,
        Variant::Bool(_) => TYPE_BOOL,
        Variant::Int32(_) => TYPE_INT32,
        Variant::Int64(_) => TYPE_INT64,
        Variant::Text(_) => TYPE_TEXT,
        Variant::Bytes(_) => TYPE_BYTES,
    }
}

/// Whether the byte stands for a type of value.
pub open spec fn known_type(code: u8) -> bool {
    code == TYPE_UINT32 || code == TYPE_UINT64 || code == TYPE_BOOL || code == TYPE_INT32 || code
        == TYPE_INT64 || code == TYPE_TEXT || code == TYPE_BYTES
}

/// The bytes of a value: numbers little-endian, signed ones in two's
/// complement, a truth value as one byte 1 or 0, text as UTF-8.
pub open spec fn value_bytes(value: Variant) -> Seq<u8> {
    match value {
        Variant::UInt32(x) => spec_u32_to_le_bytes(x),
        Variant::UInt64(x) => spec_u64_to_le_bytes(x),
        Variant::Bool(x) => seq![if x { 1u8 } else { 0u8 }],
        Variant::Int32(x) => spec_u32_to_le_bytes(i32_bits(x)),
        Variant::Int64(x) => spec_u64_to_le_bytes(i64_bits(x)),
        Variant::Text(x) => encode_utf8(x),
        Variant::Bytes(x) => x,
    }
}

/// The bytes of an entry.
pub open spec fn entry_bytes(entry: Entry) -> Seq<u8> {
    seq![type_code(entry.value)] + spec_u32_to_le_bytes(entry.name.len() as u32) + entry.name
        + spec_u32_to_le_bytes(value_bytes(entry.value).len() as u32) + value_bytes(entry.value)
}

/// The bytes of the entries, one after the other.
pub open spec fn entries_bytes(entries: Seq<Entry>) -> Seq<u8> {
    entries.map_values(|e: Entry| entry_bytes(e)).flatten()
}

/// The bytes of a dictionary.
pub open spec fn dictionary_bytes(entries: Seq<Entry>) -> Seq<u8> {
    spec_u16_to_le_bytes(VERSION) + entries_bytes(entries) + seq![TYPE_END]
}

/// Whether the lengths of the name and of the value fit in four bytes each.
pub open spec fn entry_fits(entry: Entry) -> bool {
    entry.name.len() <= u32::MAX && value_bytes(entry.value).len() <= u32::MAX
}

/// Whether every entry fits.
pub open spec fn entries_fit(entries: Seq<Entry>) -> bool {
    forall|i: int| 0 <= i < entries.len() ==> entry_fits(#[trigger] entries[i])
}

/// The value of the given type that the bytes spell. A number or a truth
/// value takes exactly the bytes of its width; a truth value is false for
/// the byte 0 and true for any other; text is UTF-8.
pub open spec fn decode_value(code: u8, raw: Seq<u8>) -> Result<Variant, Error> {
    if code == TYPE_UINT32 {
        if raw.len() == 4 {
            Ok(Variant::UInt32(spec_u32_from_le_bytes(raw)))
        } else {
            Err(Error::InvalidVariantDictionary(DictionaryFault::ValueLength))
        }
    } else if code == TYPE_UINT64 {
        if raw.len() == 8 {
            Ok(Variant::UInt64(spec_u64_from_le_bytes(raw)))
        } else {
            Err(Error::InvalidVariantDictionary(DictionaryFault::ValueLength))
        }
    } else if code == TYPE_BOOL {
        if raw.len() == 1 {
            Ok(Variant::Bool(raw[0] != 0))
        } else {
            Err(Error::InvalidVariantDictionary(DictionaryFault::ValueLength))
        }
    } else if code == TYPE_INT32 {
        if raw.len() == 4 {
            Ok(Variant::Int32(bits_i32(spec_u32_from_le_bytes(raw))))
        } else {
            Err(Error::InvalidVariantDictionary(DictionaryFault::ValueLength))
        }
    } else if code == TYPE_INT64 {
        if raw.len() == 8 {
            Ok(Variant::Int64(bits_i64(spec_u64_from_le_bytes(raw))))
        } else {
            Err(Error::InvalidVariantDictionary(DictionaryFault::ValueLength))
        }
    } else if code == TYPE_TEXT {
        if valid_utf8(raw) {
            Ok(Variant::Text(decode_utf8(raw)))
        } else {
            Err(Error::InvalidVariantDictionary(DictionaryFault::Encoding))
        }
    } else if code == TYPE_BYTES {
        Ok(Variant::Bytes(raw))
    } else {
        Err(Error::UnknownVariantType(code))
    }
}

/// `prefix` before the entries that follow, where those were read without
/// error.
pub open spec fn entries_before(prefix: Seq<Entry>, rest: Result<Seq<Entry>, Error>) -> Result<
    Seq<Entry>,
    Error,
> {
    match rest {
        Ok(tail) => Ok(prefix + tail),
        Err(e) => Err(e),
    }
}

/// The entries that the bytes spell, up to the byte 0 that ends them; or the
/// first fault met. The type of an entry is looked at before its name and
/// value are. What follows the byte 0 is not looked at.
pub open spec fn parse_entries(bytes: Seq<u8>) -> Result<Seq<Entry>, Error>
    decreases bytes.len(),
{
    if bytes.len() < 1 {
        Err(Error::InvalidVariantDictionary(DictionaryFault::Truncated))
    } else if bytes[0] == TYPE_END {
        Ok(Seq::empty())
    } else if !known_type(bytes[0]) {
        Err(Error::UnknownVariantType(bytes[0]))
    } else if bytes.len() < 5 {
        Err(Error::InvalidVariantDictionary(DictionaryFault::Truncated))
    } else {
        let name_len = spec_u32_from_le_bytes(bytes.subrange(1, 5)) as int;
        if bytes.len() < 9 + name_len {
            Err(Error::InvalidVariantDictionary(DictionaryFault::Truncated))
        } else {
            let value_len = spec_u32_from_le_bytes(bytes.subrange(5 + name_len, 9 + name_len))
                as int;
            if bytes.len() < 9 + name_len + value_len {
                Err(Error::InvalidVariantDictionary(DictionaryFault::Truncated))
            } else {
                match decode_value(
                    bytes[0],
                    bytes.subrange(9 + name_len, 9 + name_len + value_len),
                ) {
                    Err(e) => Err(e),
                    Ok(value) => entries_before(
                        seq![Entry { name: bytes.subrange(5, 5 + name_len), value }],
                        parse_entries(bytes.skip(9 + name_len + value_len)),
                    ),
                }
            }
        }
    }
}

/// The dictionary that the bytes spell, or the first fault met.
pub open spec fn parse_dictionary(bytes: Seq<u8>) -> Result<Seq<Entry>, Error> {
    if bytes.len() < 2 {
        Err(Error::InvalidVariantDictionary(DictionaryFault::Truncated))
    } else if spec_u16_from_le_bytes(bytes.subrange(0, 2)) != VERSION {
        Err(Error::InvalidVariantDictionary(DictionaryFault::Version))
    } else {
        parse_entries(bytes.skip(2))
    }
}

/// `String::from_utf8` of std: the text that the bytes spell in UTF-8, if
/// they are UTF-8.
#[verifier::external_body]
fn text_from_utf8(bytes: &[u8]) -> (r: Option<String>)
    ensures
        r is Some <==> valid_utf8(bytes@),
        r is Some ==> r.unwrap()@ == decode_utf8(bytes@),
{
    match String::from_utf8(bytes.to_vec()) {
        Ok(text) => Some(text),
        Err(_) => None,
    }
}

/// Whether the byte stands for a type of value.
pub fn is_known_type(code: u8) -> (known: bool)
    ensures
        known == known_type(code),
{
    code == TYPE_UINT32 || code == TYPE_UINT64 || code == TYPE_BOOL || code == TYPE_INT32 || code
        == TYPE_INT64 || code == TYPE_TEXT || code == TYPE_BYTES
}

/// The dictionary of a result, or its error.
pub open spec fn dictionary_view(r: Result<VariantDictionary, Error>) -> Result<Seq<Entry>, Error> {
    match r {
        Ok(d) => Ok(d@),
        Err(e) => Err(e),
    }
}

/// The value of a result, or its error.
pub open spec fn value_view(r: Result<VariantValue, Error>) -> Result<Variant, Error> {
    match r {
        Ok(v) => Ok(v@),
        Err(e) => Err(e),
    }
}

impl VariantValue {
    /// The byte that stands for the type of the value.
    pub fn code(&self) -> (code: u8)
        ensures
            code == type_code(self@),
    {
        match self {
            VariantValue::UInt32(_) => TYPE_UINT32,
            VariantValue::UInt64(_) => TYPE_UINT64,
            VariantValue::Bool(_) => TYPE_BOOL,
            VariantValue::Int32(_) => TYPE_INT32,
            VariantValue::Int64(_) => TYPE_INT64,
            VariantValue::Text(_) => TYPE_TEXT,
            VariantValue::Bytes(_) => TYPE_BYTES,
        }
    }

    /// The bytes of the value.
    pub fn encode(&self) -> (out: Vec<u8>)
        ensures
            out@ == value_bytes(self@),
    {
        match self {
            VariantValue::UInt32(x) => u32_to_le_bytes(*x),
            VariantValue::UInt64(x) => u64_to_le_bytes(*x),
            VariantValue::Bool(x) => {
                let byte: u8 = if *x {
                    1
                } else {
                    0
                };
                let out = vec![byte];
                assert(out@ =~= seq![byte]);
                out
            },
            VariantValue::Int32(x) => u32_to_le_bytes(i32_to_bits(*x)),
            VariantValue::Int64(x) => u64_to_le_bytes(i64_to_bits(*x)),
            VariantValue::Text(x) => slice_to_vec(x.as_str().as_bytes()),
            VariantValue::Bytes(x) => slice_to_vec(x.as_slice()),
        }
    }

    /// The value of the given type that the bytes spell.
    pub fn decode(code: u8, raw: &[u8]) -> (r: Result<VariantValue, Error>)
        ensures
            value_view(r) == decode_value(code, raw@),
    {
        let bad_length = Err(Error::InvalidVariantDictionary(DictionaryFault::ValueLength));
        if code == TYPE_UINT32 {
            if raw.len() == 4 {
                Ok(VariantValue::UInt32(u32_from_le_bytes(raw)))
            } else {
                bad_length
            }
        } else if code == TYPE_UINT64 {
            if raw.len() == 8 {
                Ok(VariantValue::UInt64(u64_from_le_bytes(raw)))
            } else {
                bad_length
            }
        } else if code == TYPE_BOOL {
            if raw.len() == 1 {
                Ok(VariantValue::Bool(raw[0] != 0))
            } else {
                bad_length
            }
        } else if code == TYPE_INT32 {
            if raw.len() == 4 {
                Ok(VariantValue::Int32(i32_from_bits(u32_from_le_bytes(raw))))
            } else {
                bad_length
            }
        } else if code == TYPE_INT64 {
            if raw.len() == 8 {
                Ok(VariantValue::Int64(i64_from_bits(u64_from_le_bytes(raw))))
            } else {
                bad_length
            }
        } else if code == TYPE_TEXT {
            match text_from_utf8(raw) {
                Some(text) => Ok(VariantValue::Text(text)),
                None => Err(Error::InvalidVariantDictionary(DictionaryFault::Encoding)),
            }
        } else if code == TYPE_BYTES {
            Ok(VariantValue::Bytes(slice_to_vec(raw)))
        } else {
            Err(Error::UnknownVariantType(code))
        }
    }
}

impl VariantEntry {
    /// Appends the bytes of the entry to `out`.
    pub(crate) fn write(&self, out: &mut Vec<u8>)
        requires
            entry_fits(self@),
        ensures
            final(out)@ == old(out)@ + entry_bytes(self@),
    {
        let value = self.value.encode();
        let name_length = u32_to_le_bytes(self.name.len() as u32);
        let value_length = u32_to_le_bytes(value.len() as u32);
        out.push(self.value.code());
        append(out, name_length.as_slice());
        append(out, self.name.as_slice());
        append(out, value_length.as_slice());
        append(out, value.as_slice());
        assert(out@ =~= old(out)@ + entry_bytes(self@));
    }

    /// Whether the lengths of the name and of the value fit in four bytes
    /// each.
    pub fn fits(&self) -> (fits: bool)
        ensures
            fits == entry_fits(self@),
    {
        let value = self.value.encode();
        self.name.len() <= 0xFFFF_FFFF && value.len() <= 0xFFFF_FFFF
    }
}

impl VariantDictionary {
    /// A dictionary without entries.
    pub fn new() -> (d: VariantDictionary)
        ensures
            d@ == Seq::<Entry>::empty(),
    {
        let d = VariantDictionary { entries: Vec::new() };
        assert(d@ =~= Seq::<Entry>::empty());
        d
    }

    /// Whether every entry can be written: the lengths of its name and of
    /// its value fit in four bytes each.
    pub fn fits(&self) -> (fits: bool)
        ensures
            fits == entries_fit(self@),
    {
        let mut i: usize = 0;
        while i < self.entries.len()
            invariant
                0 <= i <= self.entries@.len(),
                forall|j: int| 0 <= j < i ==> entry_fits(#[trigger] self@[j]),
            decreases self.entries@.len() - i,
        {
            if !self.entries[i].fits() {
                assert(!entry_fits(self@[i as int]));
                return false;
            }
            i += 1;
        }
        true
    }

    /// The bytes of the dictionary.
    pub fn serialize(&self) -> (out: Vec<u8>)
        requires
            entries_fit(self@),
        ensures
            out@ == dictionary_bytes(self@),
    {
        let mut out = u16_to_le_bytes(VERSION);
        let mut i: usize = 0;
        assert(self@.take(0).map_values(|e: Entry| entry_bytes(e)) =~= Seq::<Seq<u8>>::empty());
        assert(out@ + Seq::<u8>::empty() =~= out@);
        while i < self.entries.len()
            invariant
                0 <= i <= self.entries@.len(),
                entries_fit(self@),
                out@ == spec_u16_to_le_bytes(VERSION) + entries_bytes(self@.take(i as int)),
            decreases self.entries@.len() - i,
        {
            proof {
                let f = |e: Entry| entry_bytes(e);
                let head = self@.take(i as int).map_values(f);
                let entry = self@[i as int];
                assert(self@.take(i + 1).map_values(f) =~= head.push(entry_bytes(entry)));
                head.lemma_flatten_push(entry_bytes(entry));
                assert(spec_u16_to_le_bytes(VERSION) + entries_bytes(self@.take(i as int))
                    + entry_bytes(entry) =~= spec_u16_to_le_bytes(VERSION) + (entries_bytes(
                    self@.take(i as int),
                ) + entry_bytes(entry)));
            }
            self.entries[i].write(&mut out);
            i += 1;
        }
        assert(self@.take(i as int) =~= self@);
        out.push(TYPE_END);
        assert(out@ =~= dictionary_bytes(self@));
        out
    }

    /// The dictionary that the bytes spell.
    pub fn parse(bytes: &[u8]) -> (r: Result<VariantDictionary, Error>)
        ensures
            dictionary_view(r) == parse_dictionary(bytes@),
            r matches Ok(d) ==> entries_fit(d@) && dictionary_bytes(d@).len() <= bytes@.len(),
    {
        if bytes.len() < 2 {
            return Err(Error::InvalidVariantDictionary(DictionaryFault::Truncated));
        }
        if u16_from_le_bytes(slice_subrange(bytes, 0, 2)) != VERSION {
            return Err(Error::InvalidVariantDictionary(DictionaryFault::Version));
        }
        let mut entries: Vec<VariantEntry> = Vec::new();
        let mut offset: usize = 2;
        let ghost f = |e: VariantEntry| e@;
        assert(entries@.map_values(f) =~= Seq::<Entry>::empty());
        assert(entries_before(Seq::empty(), parse_entries(bytes@.skip(2))) == parse_entries(
            bytes@.skip(2),
        )) by {
            if let Ok(t) = parse_entries(bytes@.skip(2)) {
                assert(Seq::<Entry>::empty() + t =~= t);
            }
        }
        loop
            invariant
                2 <= offset <= bytes@.len(),
                parse_dictionary(bytes@) == parse_entries(bytes@.skip(2)),
                entries_fit(entries@.map_values(f)),
                f == |e: VariantEntry| e@,
                parse_entries(bytes@.skip(2)) == entries_before(
                    entries@.map_values(f),
                    parse_entries(bytes@.skip(offset as int)),
                ),
            decreases bytes@.len() - offset,
        {
            let ghost rest = bytes@.skip(offset as int);
            let left: usize = bytes.len() - offset;
            if left < 1 {
                return Err(Error::InvalidVariantDictionary(DictionaryFault::Truncated));
            }
            let code: u8 = bytes[offset];
            assert(code == rest[0]);
            if code == TYPE_END {
                let d = VariantDictionary { entries };
                assert(d@ + Seq::<Entry>::empty() =~= d@);
                proof {
                    lemma_auto_spec_u16_to_from_le_bytes();
                    lemma_parsed_entries_length(bytes@.skip(2));
                }
                return Ok(d);
            }
            if !is_known_type(code) {
                return Err(Error::UnknownVariantType(code));
            }
            if left < 5 {
                return Err(Error::InvalidVariantDictionary(DictionaryFault::Truncated));
            }
            let name_length_bytes = slice_subrange(bytes, offset + 1, offset + 5);
            assert(name_length_bytes@ =~= rest.subrange(1, 5));
            let name_len: usize = u32_from_le_bytes(name_length_bytes) as usize;
            if left - 5 < 4 || left - 9 < name_len {
                return Err(Error::InvalidVariantDictionary(DictionaryFault::Truncated));
            }
            let name = slice_subrange(bytes, offset + 5, offset + 5 + name_len);
            assert(name@ =~= rest.subrange(5, 5 + name_len));
            let value_length_bytes = slice_subrange(
                bytes,
                offset + 5 + name_len,
                offset + 9 + name_len,
            );
            assert(value_length_bytes@ =~= rest.subrange(5 + name_len, 9 + name_len));
            let value_len: usize = u32_from_le_bytes(value_length_bytes) as usize;
            if left - 9 - name_len < value_len {
                return Err(Error::InvalidVariantDictionary(DictionaryFault::Truncated));
            }
            let raw = slice_subrange(
                bytes,
                offset + 9 + name_len,
                offset + 9 + name_len + value_len,
            );
            assert(raw@ =~= rest.subrange(9 + name_len, 9 + name_len + value_len));
            let value = match VariantValue::decode(code, raw) {
                Ok(value) => value,
                Err(e) => {
                    return Err(e);
                },
            };
            let entry = VariantEntry { name: slice_to_vec(name), value };
            proof {
                let before = entries@.map_values(f);
                let tail = parse_entries(rest.skip(9 + name_len + value_len));
                lemma_decoded_length(code, raw@);
                assert(rest.skip(9 + name_len + value_len) =~= bytes@.skip(
                    offset + 9 + name_len + value_len,
                ));
                assert(entries@.push(entry).map_values(f) =~= before.push(entry@));
                assert(entries_before(before, entries_before(seq![entry@], tail))
                    == entries_before(before.push(entry@), tail)) by {
                    if let Ok(t) = tail {
                        assert(before + (seq![entry@] + t) =~= before.push(entry@) + t);
                    }
                }
            }
            entries.push(entry);
            offset = offset + 9 + name_len + value_len;
        }
    }
}

/// A value that was read has as many bytes as it was read from.
pub proof fn lemma_decoded_length(code: u8, raw: Seq<u8>)
    requires
        decode_value(code, raw) is Ok,
    ensures
        value_bytes(decode_value(code, raw).unwrap()).len() == raw.len(),
{
    lemma_auto_spec_u32_to_from_le_bytes();
    lemma_auto_spec_u64_to_from_le_bytes();
    if code == TYPE_TEXT {
        vstd::utf8::decode_utf8_encode_utf8(raw);
    }
}

/// Reading the bytes of a value gives the value back.
pub proof fn lemma_decode_encoded(value: Variant)
    ensures
        decode_value(type_code(value), value_bytes(value)) == Ok::<Variant, Error>(value),
{
    lemma_auto_spec_u32_to_from_le_bytes();
    lemma_auto_spec_u64_to_from_le_bytes();
    match value {
        Variant::Int32(x) => {
            lemma_signed_bits(x, 0, 0, 0);
        },
        Variant::Int64(x) => {
            lemma_signed_bits(0, 0, x, 0);
        },
        Variant::Text(x) => {
            encode_utf8_valid_utf8(x);
            encode_utf8_decode_utf8(x);
        },
        _ => {},
    }
}

/// Reading the bytes of entries that fit gives the entries back, whatever
/// follows the byte that ends them.
pub proof fn lemma_parse_written_entries(entries: Seq<Entry>, trailing: Seq<u8>)
    requires
        entries_fit(entries),
    ensures
        parse_entries(entries_bytes(entries) + seq![TYPE_END] + trailing) == Ok::<
            Seq<Entry>,
            Error,
        >(entries),
    decreases entries.len(),
{
    let bytes = entries_bytes(entries) + seq![TYPE_END] + trailing;
    let f = |e: Entry| entry_bytes(e);
    if entries.len() == 0 {
        assert(entries.map_values(f) =~= Seq::<Seq<u8>>::empty());
        assert(bytes[0] == TYPE_END);
        assert(entries =~= Seq::<Entry>::empty());
    } else {
        lemma_auto_spec_u32_to_from_le_bytes();
        let entry = entries[0];
        let others = entries.drop_first();
        let name_len = entry.name.len() as int;
        let value = value_bytes(entry.value);
        let value_len = value.len() as int;
        assert(entry_fits(entry));
        assert(entries_fit(others)) by {
            assert forall|i: int| 0 <= i < others.len() implies entry_fits(
                #[trigger] others[i],
            ) by {
                assert(others[i] == entries[i + 1]);
            }
        }
        assert(entries.map_values(f).drop_first() =~= others.map_values(f));
        let tail = entries_bytes(others) + seq![TYPE_END] + trailing;
        assert(bytes =~= entry_bytes(entry) + tail);
        assert(bytes[0] == type_code(entry.value));
        assert(bytes.subrange(1, 5) =~= spec_u32_to_le_bytes(name_len as u32));
        assert(bytes.subrange(5, 5 + name_len) =~= entry.name);
        assert(bytes.subrange(5 + name_len, 9 + name_len) =~= spec_u32_to_le_bytes(
            value_len as u32,
        ));
        assert(bytes.subrange(9 + name_len, 9 + name_len + value_len) =~= value);
        assert(bytes.skip(9 + name_len + value_len) =~= tail);
        lemma_decode_encoded(entry.value);
        lemma_parse_written_entries(others, trailing);
        assert(seq![entry] + others =~= entries);
    }
}

/// Reading the bytes of a dictionary that fits gives the dictionary back,
/// whatever follows them.
pub proof fn lemma_parse_written_dictionary(entries: Seq<Entry>, trailing: Seq<u8>)
    requires
        entries_fit(entries),
    ensures
        parse_dictionary(dictionary_bytes(entries) + trailing) == Ok::<Seq<Entry>, Error>(entries),
{
    lemma_auto_spec_u16_to_from_le_bytes();
    let bytes = dictionary_bytes(entries) + trailing;
    assert(bytes.subrange(0, 2) =~= spec_u16_to_le_bytes(VERSION));
    assert(bytes.skip(2) =~= entries_bytes(entries) + seq![TYPE_END] + trailing);
    lemma_parse_written_entries(entries, trailing);
}

/// Entries that were read fit, and their bytes with the byte that ends them
/// are not more than they were read from.
pub proof fn lemma_parsed_entries_length(bytes: Seq<u8>)
    requires
        parse_entries(bytes) is Ok,
    ensures
        entries_fit(parse_entries(bytes).unwrap()),
        entries_bytes(parse_entries(bytes).unwrap()).len() + 1 <= bytes.len(),
    decreases bytes.len(),
{
    lemma_auto_spec_u32_to_from_le_bytes();
    let f = |e: Entry| entry_bytes(e);
    let entries = parse_entries(bytes).unwrap();
    if bytes[0] == TYPE_END {
        assert(entries.map_values(f) =~= Seq::<Seq<u8>>::empty());
    } else {
        let name_len = spec_u32_from_le_bytes(bytes.subrange(1, 5)) as int;
        let value_len = spec_u32_from_le_bytes(bytes.subrange(5 + name_len, 9 + name_len)) as int;
        let raw = bytes.subrange(9 + name_len, 9 + name_len + value_len);
        let rest = bytes.skip(9 + name_len + value_len);
        let entry = Entry {
            name: bytes.subrange(5, 5 + name_len),
            value: decode_value(bytes[0], raw).unwrap(),
        };
        let others = parse_entries(rest).unwrap();
        lemma_decoded_length(bytes[0], raw);
        lemma_parsed_entries_length(rest);
        assert(entries == seq![entry] + others);
        assert(entries.map_values(f).drop_first() =~= others.map_values(f));
        assert(entries_bytes(entries).len() == entry_bytes(entry).len() + entries_bytes(
            others,
        ).len());
        assert forall|i: int| 0 <= i < entries.len() implies entry_fits(#[trigger] entries[i]) by {
            if i > 0 {
                assert(entries[i] == others[i - 1]);
            }
        }
    }
}

/// The value of the first entry from `from` on that has the name.
pub open spec fn first_named(entries: Seq<Entry>, name: Seq<u8>, from: int) -> Option<Variant>
    decreases entries.len() - from,
{
    if from < 0 || from >= entries.len() {
        None
    } else if entries[from].name == name {
        Some(entries[from].value)
    } else {
        first_named(entries, name, from + 1)
    }
}

/// The value of the first entry that has the name.
pub open spec fn lookup(entries: Seq<Entry>, name: Seq<u8>) -> Option<Variant> {
    first_named(entries, name, 0)
}

/// The bytes under a name, where the first entry of that name holds bytes.
pub open spec fn bytes_under(entries: Seq<Entry>, name: Seq<u8>) -> Option<Seq<u8>> {
    match lookup(entries, name) {
        Some(Variant::Bytes(b)) => Some(b),
        _ => None,
    }
}

/// The number under a name, where the first entry of that name holds an
/// unsigned number of 64 bits.
pub open spec fn u64_under(entries: Seq<Entry>, name: Seq<u8>) -> Option<u64> {
    match lookup(entries, name) {
        Some(Variant::UInt64(x)) => Some(x),
        _ => None,
    }
}

/// The number under a name, where the first entry of that name holds an
/// unsigned number of 32 bits.
pub open spec fn u32_under(entries: Seq<Entry>, name: Seq<u8>) -> Option<u32> {
    match lookup(entries, name) {
        Some(Variant::UInt32(x)) => Some(x),
        _ => None,
    }
}

impl VariantDictionary {
    /// The value of the first entry that has the name.
    pub fn get(&self, name: &[u8]) -> (r: Option<&VariantValue>)
        ensures
            match r {
                Some(value) => lookup(self@, name@) == Some(value@),
                None => lookup(self@, name@) is None,
            },
    {
        let mut i: usize = 0;
        while i < self.entries.len()
            invariant
                0 <= i <= self.entries@.len(),
                lookup(self@, name@) == first_named(self@, name@, i as int),
            decreases self.entries@.len() - i,
        {
            assert(self@[i as int] == self.entries@[i as int]@);
            if crate::bytes::bytes_equal(self.entries[i].name.as_slice(), name) {
                return Some(&self.entries[i].value);
            }
            i += 1;
        }
        None
    }

    /// The bytes under a name.
    pub fn get_bytes(&self, name: &[u8]) -> (r: Option<Vec<u8>>)
        ensures
            match r {
                Some(b) => bytes_under(self@, name@) == Some(b@),
                None => bytes_under(self@, name@) is None,
            },
    {
        match self.get(name) {
            Some(VariantValue::Bytes(b)) => Some(slice_to_vec(b.as_slice())),
            _ => None,
        }
    }

    /// The unsigned number of 64 bits under a name.
    pub fn get_u64(&self, name: &[u8]) -> (r: Option<u64>)
        ensures
            r == u64_under(self@, name@),
    {
        match self.get(name) {
            Some(VariantValue::UInt64(x)) => Some(*x),
            _ => None,
        }
    }

    /// The unsigned number of 32 bits under a name.
    pub fn get_u32(&self, name: &[u8]) -> (r: Option<u32>)
        ensures
            r == u32_under(self@, name@),
    {
        match self.get(name) {
            Some(VariantValue::UInt32(x)) => Some(*x),
            _ => None,
        }
    }
}

/// The first entry of a name is found: where no entry before the one at
/// `index` has the name and that one has it, its value is what is found
/// from `from` on.
pub proof fn lemma_named_at(entries: Seq<Entry>, name: Seq<u8>, from: int, index: int)
    requires
        0 <= from <= index < entries.len(),
        entries[index].name == name,
        forall|j: int| from <= j < index ==> (#[trigger] entries[j]).name != name,
    ensures
        first_named(entries, name, from) == Some(entries[index].value),
    decreases index - from,
{
    if from < index {
        lemma_named_at(entries, name, from + 1, index);
    }
}

} // verus!
