//! The document of a database as far as the codec looks into it: its
//! protected values and the text between them.
//!
//! A protected value stands in the written document behind the mark
//! `Protected="True">`, the word `True` in letters of either case, in
//! Base64, up to the next `<`. In the file it is
//! masked with the keystream of the document; the values are masked one
//! after the other, in the order in which they stand.

use crate::bytes::{append, bytes_equal};
use crate::crypt::ciphers::{lemma_masked_twice, masked, reach};
use crate::error::Error;
use crate::inner_header::InnerCipher;
use crate::protect::InnerStream;
use crate::xml_db::{
    base64_text, bool_of, decodable, encodable, parse_bool, protect_value, reveal_value, revealed,
};
use vstd::prelude::*;
use vstd::slice::{slice_subrange, slice_to_vec};

verus! {

/// The bytes of the mark of a protected value.
pub const MARK: usize = 17;

/// The byte `<`, which ends a protected value.
pub const OPEN: u8 = 0x3C;

/// What the mark of a protected value starts with: `Protected="`.
pub open spec fn mark_start() -> Seq<u8> {
    seq![0x50u8, 0x72, 0x6F, 0x74, 0x65, 0x63, 0x74, 0x65, 0x64, 0x3D, 0x22]
}

/// What the mark of a protected value ends with: `">`.
pub open spec fn mark_end() -> Seq<u8> {
    seq![0x22u8, 0x3E]
}

/// Whether the mark stands at `at`: `Protected="True">`, the word `True`
/// in letters of either case.
pub open spec fn mark_at(bytes: Seq<u8>, at: int) -> bool {
    &&& 0 <= at
    &&& at + MARK <= bytes.len()
    &&& bytes.subrange(at, at + 11) == mark_start()
    &&& bool_of(bytes.subrange(at + 11, at + 15)) == Some(true)
    &&& bytes.subrange(at + 15, at + MARK) == mark_end()
}

/// Where the mark stands first from `from` on; the length of the bytes
/// where it stands nowhere.
pub open spec fn first_mark(bytes: Seq<u8>, from: int) -> int
    decreases bytes.len() - from,
{
    if from < 0 || from + MARK > bytes.len() {
        bytes.len() as int
    } else if mark_at(bytes, from) {
        from
    } else {
        first_mark(bytes, from + 1)
    }
}

/// Where a `<` stands first from `from` on; the length of the bytes where
/// none stands.
pub open spec fn first_open(bytes: Seq<u8>, from: int) -> int
    decreases bytes.len() - from,
{
    if from < 0 || from >= bytes.len() {
        bytes.len() as int
    } else if bytes[from] == OPEN {
        from
    } else {
        first_open(bytes, from + 1)
    }
}

/// A protected value and the text that stands before it, from the value
/// before it on.
#[derive(Debug, Clone, PartialEq, Eq)]
pub struct ProtectedValue {
    /// The text up to the value; its last bytes are the mark.
    pub before: Vec<u8>,
    /// The value, not masked.
    pub value: Vec<u8>,
}

/// A document: its protected values in their order, each with the text
/// before it, and the text behind the last of them.
#[derive(Debug, Clone, PartialEq, Eq)]
pub struct Document {
    pub values: Vec<ProtectedValue>,
    pub tail: Vec<u8>,
}

/// What a protected value with the text before it is.
pub struct Hidden {
    pub before: Seq<u8>,
    pub value: Seq<u8>,
}

/// What a document is.
pub struct Doc {
    pub values: Seq<Hidden>,
    pub tail: Seq<u8>,
}

impl View for ProtectedValue {
    type V = Hidden;

    open spec fn view(&self) -> Hidden {
        Hidden { before: self.before@, value: self.value@ }
    }
}

impl View for Document {
    type V = Doc;

    open spec fn view(&self) -> Doc {
        Doc { values: self.values@.map_values(|v: ProtectedValue| v@), tail: self.tail@ }
    }
}

/// The document of a result, or its error.
pub open spec fn document_view(r: Result<Document, Error>) -> Result<Doc, Error> {
    match r {
        Ok(d) => Ok(d@),
        Err(e) => Err(e),
    }
}

/// The document without its first protected value.
pub open spec fn rest(doc: Doc) -> Doc {
    Doc { values: doc.values.drop_first(), tail: doc.tail }
}

/// Whether the text before a protected value marks that value and no
/// other: it ends in the mark, and the mark stands nowhere else in it.
pub open spec fn marks_its_end(before: Seq<u8>) -> bool {
    before.len() >= MARK && first_mark(before, 0) == before.len() - MARK
}

/// Whether a document is written and read as the same document: the text
/// before each value marks that value and no other; the text behind a
/// value starts with `<`; and the mark does not stand in the text behind
/// the last value.
pub open spec fn canonical(doc: Doc) -> bool {
    &&& forall|i: int|
        0 <= i < doc.values.len() ==> marks_its_end((#[trigger] doc.values[i]).before)
    &&& forall|i: int| 1 <= i < doc.values.len() ==> (#[trigger] doc.values[i]).before[0] == OPEN
    &&& first_mark(doc.tail, 0) == doc.tail.len()
    &&& doc.values.len() > 0 ==> doc.tail.len() > 0 && doc.tail[0] == OPEN
}

/// The written form of a document whose values are masked from `position`
/// of the keystream on: the text as it is, each value masked and in Base64.
pub open spec fn document_bytes(
    doc: Doc,
    cipher: InnerCipher,
    key: Seq<u8>,
    nonce: Seq<u8>,
    position: int,
) -> Seq<u8>
    decreases doc.values.len(),
{
    if doc.values.len() == 0 {
        doc.tail
    } else {
        let first = doc.values[0];
        first.before + base64_text(masked(cipher, key, nonce, position, first.value))
            + document_bytes(rest(doc), cipher, key, nonce, position + first.value.len())
    }
}

/// The ordinal of the first value, counted from `ordinal`, that cannot be
/// masked from `position` on: it is longer than can be written in Base64
/// at once, or the keystream ends before it does.
pub open spec fn unwritable(doc: Doc, cipher: InnerCipher, position: int, ordinal: nat) -> Option<
    nat,
>
    decreases doc.values.len(),
{
    if doc.values.len() == 0 {
        None
    } else if !encodable(doc.values[0].value.len()) || position + doc.values[0].value.len()
        > reach(cipher) {
        Some(ordinal)
    } else {
        unwritable(rest(doc), cipher, position + doc.values[0].value.len(), ordinal + 1)
    }
}

/// Where the keystream stands behind the values of a document.
pub open spec fn position_behind(doc: Doc, position: int) -> int
    decreases doc.values.len(),
{
    if doc.values.len() == 0 {
        position
    } else {
        position_behind(rest(doc), position + doc.values[0].value.len())
    }
}

/// Whether every masked value of a document can be found in the written
/// form again.
pub open spec fn all_decodable(
    doc: Doc,
    cipher: InnerCipher,
    key: Seq<u8>,
    nonce: Seq<u8>,
    position: int,
) -> bool
    decreases doc.values.len(),
{
    doc.values.len() == 0 || (decodable(
        masked(cipher, key, nonce, position, doc.values[0].value),
    ) && all_decodable(rest(doc), cipher, key, nonce, position + doc.values[0].value.len()))
}

/// `values` before the values that follow, where those were read without
/// error.
pub open spec fn values_before(values: Seq<Hidden>, others: Result<Doc, Error>) -> Result<
    Doc,
    Error,
> {
    match others {
        Ok(doc) => Ok(Doc { values: values + doc.values, tail: doc.tail }),
        Err(e) => Err(e),
    }
}

/// The document that the bytes spell, its values unmasked from `position`
/// of the keystream on and counted from `ordinal`; or the first fault met.
/// Bytes that end within a protected value are `DocumentParseError`; a
/// value that is no Base64, or for which the keystream does not reach, is
/// `InvalidValueEncoding`.
pub open spec fn document_of(
    bytes: Seq<u8>,
    cipher: InnerCipher,
    key: Seq<u8>,
    nonce: Seq<u8>,
    position: int,
    ordinal: nat,
) -> Result<Doc, Error>
    decreases bytes.len(),
{
    let start = first_mark(bytes, 0) + MARK;
    let end = first_open(bytes, start);
    if first_mark(bytes, 0) >= bytes.len() {
        Ok(Doc { values: Seq::empty(), tail: bytes })
    } else if start < MARK || end < start || end >= bytes.len() {
        Err(Error::DocumentParseError(ordinal as u64))
    } else {
        match revealed(cipher, key, nonce, position, bytes.subrange(start, end)) {
            None => Err(Error::InvalidValueEncoding(ordinal as u64)),
            Some(value) => values_before(
                seq![Hidden { before: bytes.take(start), value }],
                document_of(bytes.skip(end), cipher, key, nonce, position + value.len(), ordinal + 1),
            ),
        }
    }
}

/// Finds where the mark stands first from `from` on.
pub fn find_mark(bytes: &[u8], from: usize) -> (at: usize)
    ensures
        at == first_mark(bytes@, from as int),
        at <= bytes@.len(),
        from <= bytes@.len() ==> from <= at,
        at < bytes@.len() ==> mark_at(bytes@, at as int),
{
    if from > bytes.len() {
        return bytes.len();
    }
    let start: [u8; 11] = [0x50, 0x72, 0x6F, 0x74, 0x65, 0x63, 0x74, 0x65, 0x64, 0x3D, 0x22];
    let end: [u8; 2] = [0x22, 0x3E];
    assert(start@ =~= mark_start());
    assert(end@ =~= mark_end());
    let n: usize = bytes.len();
    let mut at: usize = from;
    while n - at >= MARK
        invariant
            from <= at <= n,
            n == bytes@.len(),
            start@ == mark_start(),
            end@ == mark_end(),
            first_mark(bytes@, from as int) == first_mark(bytes@, at as int),
        decreases n - at,
    {
        if bytes_equal(slice_subrange(bytes, at, at + 11), start.as_slice()) && bytes_equal(
            slice_subrange(bytes, at + 15, at + MARK),
            end.as_slice(),
        ) {
            let truth = parse_bool(slice_subrange(bytes, at + 11, at + 15));
            if truth == Some(true) {
                return at;
            }
        }
        at += 1;
    }
    n
}

/// Finds where a `<` stands first from `from` on.
pub fn find_open(bytes: &[u8], from: usize) -> (at: usize)
    ensures
        at == first_open(bytes@, from as int),
        at <= bytes@.len(),
        from <= bytes@.len() ==> from <= at,
{
    if from > bytes.len() {
        return bytes.len();
    }
    let n: usize = bytes.len();
    let mut at: usize = from;
    while at < n
        invariant
            from <= at <= n,
            n == bytes@.len(),
            first_open(bytes@, from as int) == first_open(bytes@, at as int),
        decreases n - at,
    {
        if bytes[at] == OPEN {
            return at;
        }
        at += 1;
    }
    n
}

impl Document {
    /// Whether the document is written and read as the same document.
    pub fn is_canonical(&self) -> (r: bool)
        ensures
            r == canonical(self@),
    {
        let n: usize = self.values.len();
        let mut i: usize = 0;
        while i < n
            invariant
                0 <= i <= n,
                n == self.values@.len(),
                forall|j: int| 0 <= j < i ==> marks_its_end((#[trigger] self@.values[j]).before),
                forall|j: int| 1 <= j < i ==> (#[trigger] self@.values[j]).before[0] == OPEN,
            decreases n - i,
        {
            let before = self.values[i].before.as_slice();
            assert(self@.values[i as int].before == before@);
            if before.len() < MARK || find_mark(before, 0) != before.len() - MARK {
                return false;
            }
            if i >= 1 && before[0] != OPEN {
                return false;
            }
            i += 1;
        }
        if find_mark(self.tail.as_slice(), 0) != self.tail.len() {
            return false;
        }
        n == 0 || (self.tail.len() > 0 && self.tail[0] == OPEN)
    }

    /// Writes the document, its values masked with the next bytes of the
    /// stream; `InvalidValueEncoding` with the ordinal of the first value
    /// that is longer than can be written in Base64 at once or for which
    /// the keystream does not reach.
    pub fn write(&self, stream: &mut InnerStream) -> (r: Result<Vec<u8>, Error>)
        ensures
            final(stream).cipher() == old(stream).cipher(),
            final(stream).key() == old(stream).key(),
            final(stream).nonce() == old(stream).nonce(),
            match r {
                Ok(bytes) => {
                    &&& unwritable(
                        self@,
                        old(stream).cipher(),
                        old(stream).position() as int,
                        0,
                    ) is None
                    &&& bytes@ == document_bytes(
                        self@,
                        old(stream).cipher(),
                        old(stream).key(),
                        old(stream).nonce(),
                        old(stream).position() as int,
                    )
                    &&& all_decodable(
                        self@,
                        old(stream).cipher(),
                        old(stream).key(),
                        old(stream).nonce(),
                        old(stream).position() as int,
                    )
                    &&& final(stream).position() == position_behind(
                        self@,
                        old(stream).position() as int,
                    )
                },
                Err(e) => unwritable(
                    self@,
                    old(stream).cipher(),
                    old(stream).position() as int,
                    0,
                ) matches Some(ordinal) && e == Error::InvalidValueEncoding(ordinal as u64),
            },
    {
        let ghost cipher = stream.cipher();
        let ghost key = stream.key();
        let ghost nonce = stream.nonce();
        let ghost start = stream.position() as int;
        let ghost all = self@.values;
        let mut out: Vec<u8> = Vec::new();
        let n: usize = self.values.len();
        let mut i: usize = 0;
        assert(all.skip(0) =~= all);
        assert(out@ + document_bytes(self@, cipher, key, nonce, start) =~= document_bytes(
            self@,
            cipher,
            key,
            nonce,
            start,
        ));
        while i < n
            invariant
                0 <= i <= n,
                n == self.values@.len(),
                all == self@.values,
                stream.cipher() == cipher,
                stream.key() == key,
                stream.nonce() == nonce,
                cipher == old(stream).cipher(),
                key == old(stream).key(),
                nonce == old(stream).nonce(),
                start == old(stream).position(),
                document_bytes(self@, cipher, key, nonce, start) == out@ + document_bytes(
                    Doc { values: all.skip(i as int), tail: self@.tail },
                    cipher,
                    key,
                    nonce,
                    stream.position() as int,
                ),
                unwritable(self@, cipher, start, 0) == unwritable(
                    Doc { values: all.skip(i as int), tail: self@.tail },
                    cipher,
                    stream.position() as int,
                    i as nat,
                ),
                all_decodable(
                    Doc { values: all.skip(i as int), tail: self@.tail },
                    cipher,
                    key,
                    nonce,
                    stream.position() as int,
                ) ==> all_decodable(self@, cipher, key, nonce, start),
                position_behind(self@, start) == position_behind(
                    Doc { values: all.skip(i as int), tail: self@.tail },
                    stream.position() as int,
                ),
            decreases n - i,
        {
            let ghost here = Doc { values: all.skip(i as int), tail: self@.tail };
            let ghost position = stream.position() as int;
            let ghost before_out = out@;
            let entry = &self.values[i];
            assert(here.values[0] == entry@);
            assert(rest(here) == (Doc { values: all.skip(i + 1), tail: self@.tail })) by {
                assert(all.skip(i as int).drop_first() =~= all.skip(i + 1));
            }
            let text = match protect_value(stream, entry.value.as_slice()) {
                Some(text) => text,
                None => {
                    return Err(Error::InvalidValueEncoding(i as u64));
                },
            };
            append(&mut out, entry.before.as_slice());
            append(&mut out, text.as_slice());
            proof {
                let tail = document_bytes(
                    rest(here),
                    cipher,
                    key,
                    nonce,
                    position + entry@.value.len(),
                );
                assert(before_out + (entry@.before + text@ + tail) =~= (before_out
                    + entry@.before + text@) + tail);
            }
            i += 1;
        }
        assert(all.skip(n as int) =~= Seq::<Hidden>::empty());
        append(&mut out, self.tail.as_slice());
        Ok(out)
    }

    /// Reads a document, its values unmasked with the next bytes of the
    /// stream.
    pub fn read(bytes: &[u8], stream: &mut InnerStream) -> (r: Result<Document, Error>)
        ensures
            final(stream).cipher() == old(stream).cipher(),
            final(stream).key() == old(stream).key(),
            final(stream).nonce() == old(stream).nonce(),
            document_view(r) == document_of(
                bytes@,
                old(stream).cipher(),
                old(stream).key(),
                old(stream).nonce(),
                old(stream).position() as int,
                0,
            ),
    {
        let ghost cipher = stream.cipher();
        let ghost key = stream.key();
        let ghost nonce = stream.nonce();
        let ghost start = stream.position() as int;
        let mut values: Vec<ProtectedValue> = Vec::new();
        let n: usize = bytes.len();
        let mut offset: usize = 0;
        let ghost f = |v: ProtectedValue| v@;
        assert(bytes@.skip(0) =~= bytes@);
        assert(values@.map_values(f) =~= Seq::<Hidden>::empty());
        assert(values_before(
            Seq::empty(),
            document_of(bytes@, cipher, key, nonce, start, 0),
        ) == document_of(bytes@, cipher, key, nonce, start, 0)) by {
            if let Ok(d) = document_of(bytes@, cipher, key, nonce, start, 0) {
                assert(Seq::<Hidden>::empty() + d.values =~= d.values);
            }
        }
        loop
            invariant
                0 <= offset <= n,
                n == bytes@.len(),
                f == |v: ProtectedValue| v@,
                stream.cipher() == cipher,
                stream.key() == key,
                stream.nonce() == nonce,
                cipher == old(stream).cipher(),
                key == old(stream).key(),
                nonce == old(stream).nonce(),
                start == old(stream).position(),
                document_of(bytes@, cipher, key, nonce, start, 0) == values_before(
                    values@.map_values(f),
                    document_of(
                        bytes@.skip(offset as int),
                        cipher,
                        key,
                        nonce,
                        stream.position() as int,
                        values@.len(),
                    ),
                ),
            decreases n - offset,
        {
            let ghost position = stream.position() as int;
            let ghost seen = values@.map_values(f);
            let remaining = slice_subrange(bytes, offset, n);
            assert(remaining@ =~= bytes@.skip(offset as int));
            let at = find_mark(remaining, 0);
            if at >= remaining.len() {
                let d = Document { values, tail: slice_to_vec(remaining) };
                assert(d@.values + Seq::<Hidden>::empty() =~= d@.values);
                return Ok(d);
            }
            let begin: usize = at + MARK;
            let end = find_open(remaining, begin);
            if end >= remaining.len() {
                return Err(Error::DocumentParseError(values.len() as u64));
            }
            let text = slice_subrange(remaining, begin, end);
            let value = match reveal_value(stream, text) {
                Some(value) => value,
                None => {
                    return Err(Error::InvalidValueEncoding(values.len() as u64));
                },
            };
            let entry = ProtectedValue { before: slice_to_vec(slice_subrange(remaining, 0, begin)), value };
            proof {
                assert(entry@.before =~= remaining@.take(begin as int));
                let others = document_of(
                    remaining@.skip(end as int),
                    cipher,
                    key,
                    nonce,
                    position + entry@.value.len(),
                    values@.len() + 1,
                );
                assert(remaining@.skip(end as int) =~= bytes@.skip(offset + end));
                assert(values@.push(entry).map_values(f) =~= seen.push(entry@));
                assert(values_before(seen, values_before(seq![entry@], others)) == values_before(
                    seen.push(entry@),
                    others,
                )) by {
                    if let Ok(d) = others {
                        assert(seen + (seq![entry@] + d.values) =~= seen.push(entry@) + d.values);
                    }
                }
            }
            values.push(entry);
            offset = offset + end;
        }
    }
}

/// A mark that stands in bytes stands there first in longer bytes too.
proof fn lemma_mark_stays(bytes: Seq<u8>, more: Seq<u8>, from: int)
    requires
        0 <= from,
        first_mark(bytes, from) < bytes.len(),
    ensures
        first_mark(bytes + more, from) == first_mark(bytes, from),
    decreases bytes.len() - from,
{
    if from + MARK <= bytes.len() {
        assert((bytes + more).subrange(from, from + 11) =~= bytes.subrange(from, from + 11));
        assert((bytes + more).subrange(from + 11, from + 15) =~= bytes.subrange(
            from + 11,
            from + 15,
        ));
        assert((bytes + more).subrange(from + 15, from + MARK) =~= bytes.subrange(
            from + 15,
            from + MARK,
        ));
        if !mark_at(bytes, from) {
            lemma_mark_stays(bytes, more, from + 1);
        }
    }
}

/// The first `<` behind bytes without one is the first.
proof fn lemma_open_found(bytes: Seq<u8>, from: int, to: int)
    requires
        0 <= from <= to < bytes.len(),
        bytes[to] == OPEN,
        forall|i: int| from <= i < to ==> bytes[i] != OPEN,
    ensures
        first_open(bytes, from) == to,
    decreases to - from,
{
    if from < to {
        lemma_open_found(bytes, from + 1, to);
    }
}

/// The written form of a canonical document behind a protected value
/// starts with `<`.
proof fn lemma_written_starts_open(
    doc: Doc,
    cipher: InnerCipher,
    key: Seq<u8>,
    nonce: Seq<u8>,
    position: int,
)
    requires
        doc.values.len() > 0 ==> doc.values[0].before.len() >= MARK && doc.values[0].before[0]
            == OPEN,
        doc.values.len() == 0 ==> doc.tail.len() > 0 && doc.tail[0] == OPEN,
    ensures
        document_bytes(doc, cipher, key, nonce, position).len() > 0,
        document_bytes(doc, cipher, key, nonce, position)[0] == OPEN,
{
}

/// Reading the written form of a canonical document gives the document
/// back, where its values could be masked and each masked value can be
/// found in the written form again.
pub proof fn lemma_document_read_back(
    doc: Doc,
    cipher: InnerCipher,
    key: Seq<u8>,
    nonce: Seq<u8>,
    position: int,
    ordinal: nat,
)
    requires
        canonical(doc),
        all_decodable(doc, cipher, key, nonce, position),
        unwritable(doc, cipher, position, ordinal) is None,
    ensures
        document_of(
            document_bytes(doc, cipher, key, nonce, position),
            cipher,
            key,
            nonce,
            position,
            ordinal,
        ) == Ok::<Doc, Error>(doc),
    decreases doc.values.len(),
{
    let written = document_bytes(doc, cipher, key, nonce, position);
    if doc.values.len() == 0 {
        assert(doc.values =~= Seq::<Hidden>::empty());
    } else {
        let first = doc.values[0];
        let others = rest(doc);
        let hidden = masked(cipher, key, nonce, position, first.value);
        let text = base64_text(hidden);
        let behind = document_bytes(others, cipher, key, nonce, position + first.value.len());
        let start = first.before.len() as int;
        let end = start + text.len();
        assert(marks_its_end(first.before));
        assert(canonical(others)) by {
            assert forall|i: int| 0 <= i < others.values.len() implies marks_its_end(
                (#[trigger] others.values[i]).before,
            ) by {
                assert(others.values[i] == doc.values[i + 1]);
            }
            assert forall|i: int| 1 <= i < others.values.len() implies (
            #[trigger] others.values[i]).before[0] == OPEN by {
                assert(others.values[i] == doc.values[i + 1]);
            }
        }
        if others.values.len() > 0 {
            assert(others.values[0] == doc.values[1]);
            assert(marks_its_end(doc.values[1].before));
        }
        lemma_written_starts_open(others, cipher, key, nonce, position + first.value.len());
        assert(written == first.before + text + behind);
        lemma_mark_stays(first.before, text + behind, 0);
        assert(first.before + (text + behind) =~= written);
        assert(first_mark(written, 0) + MARK == start);
        assert forall|i: int| start <= i < end implies written[i] != OPEN by {
            assert(written[i] == text[i - start]);
        }
        assert(written[end] == behind[0]);
        lemma_open_found(written, start, end);
        assert(written.subrange(start, end) =~= text);
        assert(written.take(start) =~= first.before);
        assert(written.skip(end) =~= behind);
        lemma_masked_twice(cipher, key, nonce, position, first.value);
        assert(revealed(cipher, key, nonce, position, text) == Some(first.value));
        lemma_document_read_back(
            others,
            cipher,
            key,
            nonce,
            position + first.value.len(),
            ordinal + 1,
        );
        assert(seq![first] + others.values =~= doc.values);
    }
}

} // verus!
