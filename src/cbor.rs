//! The binary encoding: a strict profile of a concise binary object
//! representation, with text strings, arrays, maps, the three simple values
//! false, true and null, and double-precision floats.

use vstd::prelude::*;
use vstd::slice::slice_subrange;
use vstd::utf8::{decode_utf8, encode_utf8, valid_utf8};

use crate::legacy_f64::{is_valid_bits, LegacyF64};
use crate::value::{
    holds_at, lemma_holds_split, utf8_str,
    data_wf, entries_data, keys_distinct, keys_of, lemma_entries_data, lemma_values_data,
    ObjectAccessState,
    values_data, Data, Value,
};

verus! {

broadcast use vstd::utf8::group_utf8_lib;

// ---------------------------------------------------------------------------
// The encoding, as a function of the model.

/// The `k` low bytes of `n`, most significant first.
pub open spec fn be_bytes(n: nat, k: nat) -> Seq<u8>
    decreases k,
{
    if k == 0 {
        Seq::empty()
    } else {
        be_bytes(n / 256, (k - 1) as nat).push((n % 256) as u8)
    }
}

/// The head of an item of the given major type whose length is `len`, in the
/// smallest width that holds it.
pub open spec fn head(major: int, len: nat) -> Seq<u8> {
    let m = major * 32;
    if len <= 23 {
        seq![(m + len) as u8]
    } else if len < 0x100 {
        seq![(m + 24) as u8, len as u8]
    } else if len < 0x1_0000 {
        seq![(m + 25) as u8] + be_bytes(len, 2)
    } else if len < 0x1_0000_0000 {
        seq![(m + 26) as u8] + be_bytes(len, 4)
    } else {
        seq![(m + 27) as u8] + be_bytes(len, 8)
    }
}

/// The encoding of a text string.
pub open spec fn text_bytes(s: Seq<char>) -> Seq<u8> {
    head(3, encode_utf8(s).len()) + encode_utf8(s)
}

/// The binary encoding of a value.
pub open spec fn cbor_of(d: Data) -> Seq<u8>
    decreases d,
{
    match d {
        Data::Null => seq![0xf6u8],
        Data::Bool(b) => if b {
            seq![0xf5u8]
        } else {
            seq![0xf4u8]
        },
        Data::Float(bits) => seq![0xfbu8] + be_bytes(bits as nat, 8),
        Data::Str(s) => text_bytes(s),
        Data::Array(items) => head(4, items.len()) + items_cbor(items),
        Data::Object(entries) => head(5, entries.len()) + entries_cbor(entries),
    }
}

/// The encodings of a sequence of values, one after the other.
pub open spec fn items_cbor(items: Seq<Data>) -> Seq<u8>
    decreases items,
{
    if items.len() == 0 {
        Seq::empty()
    } else {
        items_cbor(items.drop_last()) + cbor_of(items.last())
    }
}

/// The encodings of a sequence of object entries, each key before its value.
pub open spec fn entries_cbor(entries: Seq<(Seq<char>, Data)>) -> Seq<u8>
    decreases entries,
{
    if entries.len() == 0 {
        Seq::empty()
    } else {
        entries_cbor(entries.drop_last()) + text_bytes(entries.last().0) + cbor_of(
            entries.last().1,
        )
    }
}

// ---------------------------------------------------------------------------
// The encoder.

/// A structure for serializing legacy values into the binary encoding.
pub struct CborSerializer {
    writer: Vec<u8>,
}

impl CborSerializer {
    /// The bytes written so far.
    pub closed spec fn written(&self) -> Seq<u8> {
        self.writer@
    }

    /// Creates a new serializer that appends to `writer`.
    pub fn new(writer: Vec<u8>) -> (r: CborSerializer)
        ensures
            r.written() == writer@,
    {
        CborSerializer { writer }
    }

    /// Unwrap the bytes from the serializer.
    pub fn into_inner(self) -> (r: Vec<u8>)
        ensures
            r@ == self.written(),
    {
        self.writer
    }

    // Writes the `k` low bytes of `n`, most significant first.
    fn write_be(&mut self, n: u64, k: usize)
        ensures
            final(self).writer@ == old(self).writer@ + be_bytes(n as nat, k as nat),
        decreases k,
    {
        if k == 0 {
            assert(old(self).writer@ + be_bytes(n as nat, 0) =~= old(self).writer@);
        } else {
            self.write_be(n / 256, k - 1);
            self.writer.push((n % 256) as u8);
            assert(final(self).writer@ =~= old(self).writer@ + be_bytes(n as nat, k as nat));
        }
    }

    // Writes the head of an item of the given major type.
    fn write_head(&mut self, major: u8, len: u64)
        requires
            major < 8,
        ensures
            final(self).writer@ == old(self).writer@ + head(major as int, len as nat),
    {
        let m: u8 = major * 32;
        if len <= 23 {
            self.writer.push(m + len as u8);
            assert(final(self).writer@ =~= old(self).writer@ + head(major as int, len as nat));
        } else if len < 0x100 {
            self.writer.push(m + 24);
            self.writer.push(len as u8);
            assert(final(self).writer@ =~= old(self).writer@ + head(major as int, len as nat));
        } else if len < 0x1_0000 {
            self.writer.push(m + 25);
            self.write_be(len, 2);
            assert(final(self).writer@ =~= old(self).writer@ + head(major as int, len as nat));
        } else if len < 0x1_0000_0000 {
            self.writer.push(m + 26);
            self.write_be(len, 4);
            assert(final(self).writer@ =~= old(self).writer@ + head(major as int, len as nat));
        } else {
            self.writer.push(m + 27);
            self.write_be(len, 8);
            assert(final(self).writer@ =~= old(self).writer@ + head(major as int, len as nat));
        }
    }

    /// Writes a boolean.
    pub fn serialize_bool(&mut self, v: bool)
        ensures
            final(self).written() == old(self).written() + cbor_of(Data::Bool(v)),
    {
        if v {
            self.writer.push(0xf5);
        } else {
            self.writer.push(0xf4);
        }
        assert(final(self).writer@ =~= old(self).writer@ + cbor_of(Data::Bool(v)));
    }

    /// Writes null.
    pub fn serialize_null(&mut self)
        ensures
            final(self).written() == old(self).written() + cbor_of(Data::Null),
    {
        self.writer.push(0xf6);
        assert(final(self).writer@ =~= old(self).writer@ + cbor_of(Data::Null));
    }

    /// Writes a float, always in the nine-byte form.
    pub fn serialize_f64(&mut self, v: LegacyF64)
        ensures
            final(self).written() == old(self).written() + cbor_of(Data::Float(v.spec_bits())),
    {
        self.writer.push(0xfb);
        self.write_be(v.to_bits(), 8);
        assert(final(self).writer@ =~= old(self).writer@ + cbor_of(Data::Float(v.spec_bits())));
    }

    /// Writes a text string.
    pub fn serialize_str(&mut self, v: &str)
        ensures
            final(self).written() == old(self).written() + text_bytes(v@),
    {
        let bytes = v.as_bytes();
        self.write_head(3, bytes.len() as u64);
        let ghost start = self.writer@;
        let mut i: usize = 0;
        while i < bytes.len()
            invariant
                0 <= i <= bytes@.len(),
                bytes@ == encode_utf8(v@),
                start == old(self).writer@ + head(3, bytes@.len() as nat),
                self.writer@ == start + bytes@.subrange(0, i as int),
            decreases bytes@.len() - i,
        {
            self.writer.push(bytes[i]);
            i = i + 1;
            assert(self.writer@ =~= start + bytes@.subrange(0, i as int));
        }
        assert(self.writer@ =~= old(self).writer@ + text_bytes(v@));
    }

    /// Writes a value.
    pub fn serialize_value(&mut self, v: &Value)
        ensures
            final(self).written() == old(self).written() + cbor_of(v@),
        decreases v,
    {
        match v {
            Value::Null => self.serialize_null(),
            Value::Bool(b) => self.serialize_bool(*b),
            Value::Float(f) => self.serialize_f64(*f),
            Value::String(s) => self.serialize_str(s.as_str()),
            Value::Array(items) => {
                proof {
                    lemma_values_data(items@);
                }
                self.write_head(4, items.len() as u64);
                let ghost start = self.writer@;
                let mut i: usize = 0;
                while i < items.len()
                    invariant
                        0 <= i <= items@.len(),
                        *v == Value::Array(*items),
                        start == old(self).writer@ + head(4, items@.len() as nat),
                        self.writer@ == start + items_cbor(values_data(items@.subrange(0, i as int))),
                    decreases items@.len() - i,
                {
                    proof {
                        vstd::std_specs::vec::axiom_vec_index_decreases(*items, i as int);
                        assert(decreases_to!(*v => (*v)->Array_0));
                        assert(decreases_to!(*v => items[i as int]));
                    }
                    self.serialize_value(&items[i]);
                    proof {
                        let s = items@.subrange(0, i + 1);
                        assert(s.drop_last() =~= items@.subrange(0, i as int));
                        let ds = values_data(s);
                        assert(ds.drop_last() =~= values_data(items@.subrange(0, i as int)));
                    }
                    i = i + 1;
                    assert(self.writer@ =~= start + items_cbor(values_data(items@.subrange(0, i as int))));
                }
                assert(items@.subrange(0, items@.len() as int) =~= items@);
                assert(self.writer@ =~= old(self).writer@ + cbor_of(v@));
            },
            Value::Object(entries) => {
                proof {
                    lemma_entries_data(entries@);
                }
                self.write_head(5, entries.len() as u64);
                let ghost start = self.writer@;
                let mut i: usize = 0;
                while i < entries.len()
                    invariant
                        0 <= i <= entries@.len(),
                        *v == Value::Object(*entries),
                        start == old(self).writer@ + head(5, entries@.len() as nat),
                        self.writer@ == start + entries_cbor(entries_data(entries@.subrange(0, i as int))),
                    decreases entries@.len() - i,
                {
                    proof {
                        vstd::std_specs::vec::axiom_vec_index_decreases(*entries, i as int);
                        assert(decreases_to!(*v => (*v)->Object_0));
                        assert(decreases_to!(*v => entries[i as int]));
                        assert(decreases_to!(*v => entries[i as int].1));
                    }
                    let entry = &entries[i];
                    self.serialize_str(entry.0.as_str());
                    self.serialize_value(&entry.1);
                    proof {
                        let s = entries@.subrange(0, i + 1);
                        assert(s.drop_last() =~= entries@.subrange(0, i as int));
                        let ds = entries_data(s);
                        assert(ds.drop_last() =~= entries_data(entries@.subrange(0, i as int)));
                    }
                    i = i + 1;
                    assert(self.writer@ =~= start + entries_cbor(entries_data(entries@.subrange(0, i as int))));
                }
                assert(entries@.subrange(0, entries@.len() as int) =~= entries@);
                assert(self.writer@ =~= old(self).writer@ + cbor_of(v@));
            },
        }
    }
}

/// Serializes a value into the binary encoding.
pub fn to_vec(v: &Value) -> (r: Vec<u8>)
    requires
        data_wf(v@),
    ensures
        r@ == cbor_of(v@),
{
    let mut ser = CborSerializer::new(Vec::new());
    ser.serialize_value(v);
    ser.into_inner()
}

// ---------------------------------------------------------------------------
// The decoding, as a function of the input.

/// Everything that can go wrong while decoding the binary encoding.
#[derive(PartialEq, Eq, Debug, Clone, Copy)]
pub enum DecodeCborError {
    /// Needed more data but got the end of the input instead.
    UnexpectedEndOfInput,
    /// Encountered a major type or additional type that is disallowed.
    ForbiddenType,
    /// A float is negative zero, an infinity or a NaN.
    InvalidNumber,
    /// The content of a string is not utf8.
    InvalidStringContent,
    /// A string claims a length longer than the remaining input.
    InvalidLength,
    /// An object has two entries with equal keys.
    DuplicateKey,
    /// The input held a value followed by at least one more byte.
    TrailingBytes,
    /// An object key is not a text string.
    ExpectedString,
}

/// The big-endian number held in the `k` bytes of `b` from `pos` on.
pub open spec fn be_value(b: Seq<u8>, pos: int, k: nat) -> nat
    decreases k,
{
    if k == 0 {
        0
    } else {
        be_value(b, pos, (k - 1) as nat) * 256 + b[pos + k - 1] as nat
    }
}

/// How many bytes follow the initial byte to hold a length, for the
/// additional types 24 to 27.
pub open spec fn extra_bytes(ai: int) -> nat {
    if ai == 24 {
        1
    } else if ai == 25 {
        2
    } else if ai == 26 {
        4
    } else {
        8
    }
}

/// The length that additional type `ai` gives, with `pos` just past the
/// initial byte, and where the bytes after it begin.
pub open spec fn read_len(b: Seq<u8>, pos: int, ai: int) -> Result<(nat, int), DecodeCborError> {
    if ai <= 23 {
        Ok((ai as nat, pos))
    } else if pos + extra_bytes(ai) > b.len() {
        Err(DecodeCborError::UnexpectedEndOfInput)
    } else {
        Ok((be_value(b, pos, extra_bytes(ai)), pos + extra_bytes(ai)))
    }
}

/// The text string that starts at `pos`, and where it ends.
pub open spec fn parse_text(b: Seq<u8>, pos: int) -> Result<(Seq<char>, int), DecodeCborError> {
    if pos < 0 || pos >= b.len() {
        Err(DecodeCborError::UnexpectedEndOfInput)
    } else if 0x60 <= b[pos] <= 0x7b {
        match read_len(b, pos + 1, b[pos] - 0x60) {
            Err(e) => Err(e),
            Ok((n, p)) => if p + n > b.len() {
                Err(DecodeCborError::InvalidLength)
            } else if valid_utf8(b.subrange(p, p + n)) {
                Ok((decode_utf8(b.subrange(p, p + n)), p + n))
            } else {
                Err(DecodeCborError::InvalidStringContent)
            },
        }
    } else {
        Err(DecodeCborError::ExpectedString)
    }
}

/// Whether a parse that started at `pos` and stopped at `p` moved forward and
/// stayed within the input.
pub open spec fn advanced(pos: int, p: int, len: int) -> bool {
    pos < p <= len
}

/// The value that starts at `pos`, and where it ends.
pub open spec fn parse(b: Seq<u8>, pos: int) -> Result<(Data, int), DecodeCborError>
    decreases b.len() - pos, 0int,
{
    if pos < 0 || pos >= b.len() {
        Err(DecodeCborError::UnexpectedEndOfInput)
    } else {
        let t = b[pos];
        if t == 0xf4 {
            Ok((Data::Bool(false), pos + 1))
        } else if t == 0xf5 {
            Ok((Data::Bool(true), pos + 1))
        } else if t == 0xf6 {
            Ok((Data::Null, pos + 1))
        } else if t == 0xfb {
            if pos + 9 > b.len() {
                Err(DecodeCborError::UnexpectedEndOfInput)
            } else if is_valid_bits(be_value(b, pos + 1, 8) as u64) {
                Ok((Data::Float(be_value(b, pos + 1, 8) as u64), pos + 9))
            } else {
                Err(DecodeCborError::InvalidNumber)
            }
        } else if 0x60 <= t <= 0x7b {
            match parse_text(b, pos) {
                Ok((s, p)) => Ok((Data::Str(s), p)),
                Err(e) => Err(e),
            }
        } else if 0x80 <= t <= 0x9b {
            match read_len(b, pos + 1, t - 0x80) {
                Err(e) => Err(e),
                Ok((n, p)) => if advanced(pos, p, b.len() as int) {
                    match parse_items(b, p, n, Seq::empty()) {
                        Ok((items, q)) => Ok((Data::Array(items), q)),
                        Err(e) => Err(e),
                    }
                } else {
                    Err(DecodeCborError::UnexpectedEndOfInput)
                },
            }
        } else if 0xa0 <= t <= 0xbb {
            match read_len(b, pos + 1, t - 0xa0) {
                Err(e) => Err(e),
                Ok((n, p)) => if advanced(pos, p, b.len() as int) {
                    match parse_entries(b, p, n, Seq::empty()) {
                        Ok((entries, q)) => Ok((Data::Object(entries), q)),
                        Err(e) => Err(e),
                    }
                } else {
                    Err(DecodeCborError::UnexpectedEndOfInput)
                },
            }
        } else {
            Err(DecodeCborError::ForbiddenType)
        }
    }
}

/// `n` more array elements from `pos` on, after the elements `acc`.
pub open spec fn parse_items(b: Seq<u8>, pos: int, n: nat, acc: Seq<Data>) -> Result<
    (Seq<Data>, int),
    DecodeCborError,
>
    decreases b.len() - pos, 1int,
{
    if n == 0 {
        Ok((acc, pos))
    } else {
        match parse(b, pos) {
            Err(e) => Err(e),
            Ok((d, p)) => if advanced(pos, p, b.len() as int) {
                parse_items(b, p, (n - 1) as nat, acc.push(d))
            } else {
                Err(DecodeCborError::UnexpectedEndOfInput)
            },
        }
    }
}

/// `n` more object entries from `pos` on, after the entries `acc`.
pub open spec fn parse_entries(
    b: Seq<u8>,
    pos: int,
    n: nat,
    acc: Seq<(Seq<char>, Data)>,
) -> Result<(Seq<(Seq<char>, Data)>, int), DecodeCborError>
    decreases b.len() - pos, 1int,
{
    if n == 0 {
        Ok((acc, pos))
    } else {
        match parse_text(b, pos) {
            Err(e) => Err(e),
            Ok((k, p1)) => if keys_of(acc).contains(k) {
                Err(DecodeCborError::DuplicateKey)
            } else if !advanced(pos, p1, b.len() as int) {
                Err(DecodeCborError::UnexpectedEndOfInput)
            } else {
                match parse(b, p1) {
                    Err(e) => Err(e),
                    Ok((d, p2)) => if advanced(p1, p2, b.len() as int) {
                        parse_entries(b, p2, (n - 1) as nat, acc.push((k, d)))
                    } else {
                        Err(DecodeCborError::UnexpectedEndOfInput)
                    },
                }
            },
        }
    }
}

/// The value that the whole input encodes.
pub open spec fn decode(b: Seq<u8>) -> Result<Data, DecodeCborError> {
    match parse(b, 0) {
        Ok((d, p)) => if p == b.len() {
            Ok(d)
        } else {
            Err(DecodeCborError::TrailingBytes)
        },
        Err(e) => Err(e),
    }
}

// ---------------------------------------------------------------------------
// The decoder.

/// `256` to the power `k`.
pub open spec fn byte_bound(k: nat) -> nat
    decreases k,
{
    if k == 0 {
        1
    } else {
        byte_bound((k - 1) as nat) * 256
    }
}

proof fn lemma_be_value_bound(b: Seq<u8>, pos: int, k: nat)
    ensures
        be_value(b, pos, k) < byte_bound(k),
    decreases k,
{
    if k > 0 {
        lemma_be_value_bound(b, pos, (k - 1) as nat);
        let v = be_value(b, pos, (k - 1) as nat);
        let c = byte_bound((k - 1) as nat);
        assert(v * 256 + (b[pos + k - 1] as nat) < c * 256) by (nonlinear_arith)
            requires
                v < c,
                b[pos + k - 1] < 256,
        ;
    }
}

proof fn lemma_byte_bound_8()
    ensures
        byte_bound(8) == 0x1_0000_0000_0000_0000,
{
    reveal_with_fuel(byte_bound, 9);
}

/// A structure that deserializes values from the binary encoding.
pub struct CborDeserializer<'de> {
    input: &'de [u8],
    pos: usize,
}

impl<'de> CborDeserializer<'de> {
    /// The whole input.
    pub closed spec fn spec_input(&self) -> Seq<u8> {
        self.input@
    }

    /// How much of the input has been consumed.
    pub closed spec fn spec_pos(&self) -> int {
        self.pos as int
    }

    /// The position lies within the input.
    pub closed spec fn wf(&self) -> bool {
        self.pos <= self.input@.len()
    }

    /// Creates a deserializer that reads `input` from its start.
    pub fn from_slice(input: &'de [u8]) -> (r: CborDeserializer<'de>)
        ensures
            r.wf(),
            r.spec_input() == input@,
            r.spec_pos() == 0,
    {
        CborDeserializer { input, pos: 0 }
    }

    /// Checks whether the end of the input has been reached.
    pub fn end(&self) -> (r: Result<(), DecodeCborError>)
        requires
            self.wf(),
        ensures
            r is Ok <==> self.spec_pos() == self.spec_input().len(),
            r is Err ==> r == Err::<(), DecodeCborError>(DecodeCborError::TrailingBytes),
    {
        if self.pos == self.input.len() {
            Ok(())
        } else {
            Err(DecodeCborError::TrailingBytes)
        }
    }

    // Reads a big-endian number of `k` bytes.
    fn read_be(&mut self, k: usize) -> (r: Result<u64, DecodeCborError>)
        requires
            old(self).wf(),
            k <= 8,
        ensures
            final(self).wf(),
            final(self).input == old(self).input,
            old(self).pos + k > old(self).input@.len() ==> r == Err::<u64, DecodeCborError>(
                DecodeCborError::UnexpectedEndOfInput,
            ),
            old(self).pos + k <= old(self).input@.len() ==> r == Ok::<u64, DecodeCborError>(
                be_value(old(self).input@, old(self).pos as int, k as nat) as u64,
            ) && final(self).pos == old(self).pos + k,
    {
        if self.input.len() - self.pos < k {
            return Err(DecodeCborError::UnexpectedEndOfInput);
        }
        let ghost b = self.input@;
        let ghost start = self.pos as int;
        let mut val: u64 = 0;
        let mut i: usize = 0;
        proof {
            lemma_byte_bound_8();
        }
        while i < k
            invariant
                self.wf(),
                self.input@ == b,
                0 <= i <= k <= 8,
                start + k <= b.len(),
                self.pos == start + i,
                val == be_value(b, start, i as nat),
                byte_bound(8) == 0x1_0000_0000_0000_0000,
            decreases k - i,
        {
            proof {
                lemma_be_value_bound(b, start, (i + 1) as nat);
                assert(byte_bound((i + 1) as nat) <= byte_bound(8)) by {
                    lemma_byte_bound_mono((i + 1) as nat, 8);
                }
            }
            val = val * 256 + self.input[self.pos] as u64;
            self.pos = self.pos + 1;
            i = i + 1;
        }
        Ok(val)
    }

    // Decodes the length that the additional type of `tag` gives.
    fn decode_len(&mut self, tag: u8) -> (r: Result<u64, DecodeCborError>)
        requires
            old(self).wf(),
            tag % 32 <= 27,
        ensures
            final(self).wf(),
            final(self).input == old(self).input,
            match read_len(old(self).input@, old(self).pos as int, (tag % 32) as int) {
                Ok((n, p)) => r == Ok::<u64, DecodeCborError>(n as u64) && final(self).pos == p
                    && n < 0x1_0000_0000_0000_0000,
                Err(e) => r == Err::<u64, DecodeCborError>(e),
            },
    {
        let ai = tag % 32;
        proof {
            lemma_byte_bound_8();
            lemma_be_value_bound(self.input@, self.pos as int, extra_bytes(ai as int));
            lemma_byte_bound_mono(extra_bytes(ai as int), 8);
        }
        if ai <= 23 {
            Ok(ai as u64)
        } else if ai == 24 {
            self.read_be(1)
        } else if ai == 25 {
            self.read_be(2)
        } else if ai == 26 {
            self.read_be(4)
        } else {
            self.read_be(8)
        }
    }

    // Parses a text string.
    fn parse_string(&mut self) -> (r: Result<String, DecodeCborError>)
        requires
            old(self).wf(),
        ensures
            final(self).wf(),
            final(self).input == old(self).input,
            match parse_text(old(self).input@, old(self).pos as int) {
                Ok((s, p)) => r matches Ok(t) && t@ == s && final(self).pos == p,
                Err(e) => r == Err::<String, DecodeCborError>(e),
            },
    {
        if self.pos >= self.input.len() {
            return Err(DecodeCborError::UnexpectedEndOfInput);
        }
        let tag = self.input[self.pos];
        if tag < 0x60 || tag > 0x7b {
            return Err(DecodeCborError::ExpectedString);
        }
        self.pos = self.pos + 1;
        let n = match self.decode_len(tag) {
            Ok(n) => n,
            Err(e) => return Err(e),
        };
        if ((self.input.len() - self.pos) as u64) < n {
            return Err(DecodeCborError::InvalidLength);
        }
        let n = n as usize;
        let bytes = slice_subrange(self.input, self.pos, self.pos + n);
        match utf8_str(bytes) {
            Some(s) => {
                self.pos = self.pos + n;
                Ok(s.to_owned())
            },
            None => Err(DecodeCborError::InvalidStringContent),
        }
    }

    /// Parses the value that starts at the current position.
    #[verifier::rlimit(100)]
    pub fn parse_value(&mut self) -> (r: Result<Value, DecodeCborError>)
        requires
            old(self).wf(),
        ensures
            final(self).wf(),
            final(self).spec_input() == old(self).spec_input(),
            match parse(old(self).spec_input(), old(self).spec_pos()) {
                Ok((d, p)) => r matches Ok(v) && v@ == d && final(self).spec_pos() == p,
                Err(e) => r == Err::<Value, DecodeCborError>(e),
            },
            r is Ok ==> old(self).spec_pos() < final(self).spec_pos(),
            r matches Ok(v) ==> data_wf(v@),
        decreases old(self).spec_input().len() - old(self).spec_pos(),
    {
        let ghost b = self.input@;
        let ghost start = self.pos as int;
        if self.pos >= self.input.len() {
            return Err(DecodeCborError::UnexpectedEndOfInput);
        }
        let tag = self.input[self.pos];
        if tag == 0xf4 {
            self.pos = self.pos + 1;
            Ok(Value::Bool(false))
        } else if tag == 0xf5 {
            self.pos = self.pos + 1;
            Ok(Value::Bool(true))
        } else if tag == 0xf6 {
            self.pos = self.pos + 1;
            Ok(Value::Null)
        } else if tag == 0xfb {
            self.pos = self.pos + 1;
            let bits = match self.read_be(8) {
                Ok(bits) => bits,
                Err(e) => return Err(e),
            };
            match LegacyF64::from_bits(bits) {
                Some(f) => Ok(Value::Float(f)),
                None => Err(DecodeCborError::InvalidNumber),
            }
        } else if 0x60 <= tag && tag <= 0x7b {
            match self.parse_string() {
                Ok(s) => Ok(Value::String(s)),
                Err(e) => Err(e),
            }
        } else if 0x80 <= tag && tag <= 0x9b {
            self.pos = self.pos + 1;
            let n = match self.decode_len(tag) {
                Ok(n) => n,
                Err(e) => return Err(e),
            };
            let ghost p0 = self.pos as int;
            let mut items: Vec<Value> = Vec::new();
            let mut left: u64 = n;
            while left > 0
                invariant
                    self.wf(),
                    self.input == old(self).input,
                    b == old(self).input@,
                    start == old(self).pos,
                    self.input@ == b,
                    start < p0 <= self.pos,
                    parse(b, start) == match parse_items(b, p0, n as nat, Seq::empty()) {
                        Ok((items, q)) => Ok((Data::Array(items), q)),
                        Err(e) => Err(e),
                    },
                    parse_items(b, p0, n as nat, Seq::empty()) == parse_items(
                        b,
                        self.pos as int,
                        left as nat,
                        values_data(items@),
                    ),
                    forall|i: int| 0 <= i < items@.len() ==> data_wf(#[trigger] values_data(items@)[i]),
                decreases left,
            {
                let ghost before = self.pos as int;
                match self.parse_value() {
                    Ok(v) => {
                        proof {
                            lemma_values_data(items@);
                            assert(items@.push(v).drop_last() =~= items@);
                        }
                        items.push(v);
                        left = left - 1;
                        proof {
                            lemma_values_data(items@);
                            assert(values_data(items@) =~= values_data(items@.drop_last()).push(v@));
                        }
                    },
                    Err(e) => return Err(e),
                }
            }
            proof {
                lemma_values_data(items@);
            }
            Ok(Value::Array(items))
        } else if 0xa0 <= tag && tag <= 0xbb {
            self.pos = self.pos + 1;
            let n = match self.decode_len(tag) {
                Ok(n) => n,
                Err(e) => return Err(e),
            };
            let ghost p0 = self.pos as int;
            let mut entries: Vec<(String, Value)> = Vec::new();
            let mut left: u64 = n;
            while left > 0
                invariant
                    self.wf(),
                    self.input == old(self).input,
                    b == old(self).input@,
                    start == old(self).pos,
                    self.input@ == b,
                    start < p0 <= self.pos,
                    parse(b, start) == match parse_entries(b, p0, n as nat, Seq::empty()) {
                        Ok((entries, q)) => Ok((Data::Object(entries), q)),
                        Err(e) => Err(e),
                    },
                    parse_entries(b, p0, n as nat, Seq::empty()) == parse_entries(
                        b,
                        self.pos as int,
                        left as nat,
                        entries_data(entries@),
                    ),
                    keys_distinct(entries_data(entries@)),
                    forall|i: int|
                        0 <= i < entries@.len() ==> data_wf(#[trigger] entries_data(entries@)[i].1),
                decreases left,
            {
                let key = match self.parse_string() {
                    Ok(key) => key,
                    Err(e) => return Err(e),
                };
                if entries.has_key(&key) {
                    return Err(DecodeCborError::DuplicateKey);
                }
                match self.parse_value() {
                    Ok(v) => {
                        proof {
                            lemma_entries_data(entries@);
                            assert(entries@.push((key, v)).drop_last() =~= entries@);
                        }
                        let ghost old_entries = entries@;
                        entries.push((key, v));
                        left = left - 1;
                        proof {
                            lemma_entries_data(entries@);
                            lemma_entries_data(old_entries);
                            let od = entries_data(old_entries);
                            let nd = entries_data(entries@);
                            assert(nd =~= od.push((key@, v@)));
                            assert forall|i: int, j: int|
                                0 <= i < nd.len() && 0 <= j < nd.len() && i != j implies nd[i].0
                                != nd[j].0 by {
                                if i == od.len() {
                                    assert(keys_of(od)[j] == od[j].0);
                                } else if j == od.len() {
                                    assert(keys_of(od)[i] == od[i].0);
                                }
                            }
                        }
                    },
                    Err(e) => return Err(e),
                }
            }
            proof {
                lemma_entries_data(entries@);
            }
            Ok(Value::Object(entries))
        } else {
            Err(DecodeCborError::ForbiddenType)
        }
    }
}

proof fn lemma_byte_bound_mono(i: nat, j: nat)
    requires
        i <= j,
    ensures
        byte_bound(i) <= byte_bound(j),
    decreases j,
{
    if i < j {
        lemma_byte_bound_mono(i, (j - 1) as nat);
    }
}

/// Decodes the value at the start of the input, and returns it with the
/// input that follows it.
pub fn from_slice_partial(input: &[u8]) -> (r: Result<(Value, &[u8]), DecodeCborError>)
    ensures
        match parse(input@, 0) {
            Ok((d, p)) => r matches Ok((v, rest)) && v@ == d && rest@ == input@.subrange(
                p,
                input@.len() as int,
            ),
            Err(e) => r == Err::<(Value, &[u8]), DecodeCborError>(e),
        },
        r matches Ok((v, rest)) ==> data_wf(v@),
{
    let mut de = CborDeserializer::from_slice(input);
    match de.parse_value() {
        Ok(v) => {
            let rest = slice_subrange(input, de.pos, input.len());
            Ok((v, rest))
        },
        Err(e) => Err(e),
    }
}

/// Decodes a value from the binary encoding. The input must hold exactly one
/// value and nothing after it.
pub fn from_slice(input: &[u8]) -> (r: Result<Value, DecodeCborError>)
    ensures
        match decode(input@) {
            Ok(d) => r matches Ok(v) && v@ == d,
            Err(e) => r == Err::<Value, DecodeCborError>(e),
        },
        r matches Ok(v) ==> data_wf(v@),
{
    let mut de = CborDeserializer::from_slice(input);
    match de.parse_value() {
        Ok(v) => match de.end() {
            Ok(()) => Ok(v),
            Err(e) => Err(e),
        },
        Err(e) => Err(e),
    }
}

// ---------------------------------------------------------------------------
// Decoding undoes encoding.

proof fn lemma_be_bytes(n: nat, k: nat)
    ensures
        be_bytes(n, k).len() == k,
        n < byte_bound(k) ==> be_value(be_bytes(n, k), 0, k) == n,
    decreases k,
{
    if k > 0 {
        lemma_be_bytes(n / 256, (k - 1) as nat);
        let s = be_bytes(n, k);
        let t = be_bytes(n / 256, (k - 1) as nat);
        assert(s == t.push((n % 256) as u8));
        lemma_be_value_prefix(s, t, 0, (k - 1) as nat);
        if n < byte_bound(k) {
            assert(n / 256 < byte_bound((k - 1) as nat)) by (nonlinear_arith)
                requires
                    n < byte_bound((k - 1) as nat) * 256,
            ;
            assert(be_value(s, 0, k) == be_value(t, 0, (k - 1) as nat) * 256 + s[k - 1] as nat);
            assert(n == (n / 256) * 256 + n % 256) by (nonlinear_arith);
        }
    }
}

proof fn lemma_be_value_prefix(s: Seq<u8>, t: Seq<u8>, p: int, k: nat)
    requires
        0 <= p,
        p + k <= s.len(),
        p + k <= t.len(),
        forall|i: int| p <= i < p + k ==> s[i] == t[i],
    ensures
        be_value(s, p, k) == be_value(t, p, k),
    decreases k,
{
    if k > 0 {
        lemma_be_value_prefix(s, t, p, (k - 1) as nat);
    }
}

proof fn lemma_be_value_shift(b: Seq<u8>, p: int, t: Seq<u8>, k: nat)
    requires
        0 <= p,
        k <= t.len(),
        p + t.len() <= b.len(),
        b.subrange(p, p + t.len()) == t,
    ensures
        be_value(b, p, k) == be_value(t, 0, k),
    decreases k,
{
    if k > 0 {
        lemma_be_value_shift(b, p, t, (k - 1) as nat);
        assert(b[p + k - 1] == b.subrange(p, p + t.len())[k - 1]);
    }
}

proof fn lemma_read_head(b: Seq<u8>, pos: int, major: int, n: nat)
    requires
        3 <= major <= 5,
        0 <= pos,
        pos + head(major, n).len() <= b.len(),
        b.subrange(pos, pos + head(major, n).len()) == head(major, n),
        n < 0x1_0000_0000_0000_0000,
    ensures
        head(major, n).len() >= 1,
        b[pos] == head(major, n)[0],
        major * 32 <= b[pos] <= major * 32 + 27,
        read_len(b, pos + 1, b[pos] - major * 32) == Ok::<(nat, int), DecodeCborError>(
            (n, pos + head(major, n).len()),
        ),
{
    let h = head(major, n);
    assert(b[pos] == b.subrange(pos, pos + h.len())[0]);
    lemma_byte_bound_8();
    if n > 23 {
        let k: nat = if n < 0x100 {
            1
        } else if n < 0x1_0000 {
            2
        } else if n < 0x1_0000_0000 {
            4
        } else {
            8
        };
        let t = if k == 1 {
            seq![n as u8]
        } else {
            be_bytes(n, k)
        };
        lemma_be_bytes(n, k);
        reveal_with_fuel(byte_bound, 9);
        assert(h =~= seq![h[0]] + t);
        assert(b.subrange(pos + 1, pos + 1 + k) =~= t) by {
            assert forall|i: int| 0 <= i < k implies b.subrange(pos + 1, pos + 1 + k)[i] == t[i] by {
                assert(b[pos + 1 + i] == b.subrange(pos, pos + h.len())[1 + i]);
            }
        }
        if k == 1 {
            assert(be_value(b, pos + 1, 1) == be_value(b, pos + 1, 0) * 256 + b[pos + 1] as nat);
        } else {
            lemma_be_value_shift(b, pos + 1, t, k);
        }
    }
}

proof fn lemma_text_parse(b: Seq<u8>, pos: int, s: Seq<char>)
    requires
        0 <= pos,
        pos + text_bytes(s).len() <= b.len(),
        b.subrange(pos, pos + text_bytes(s).len()) == text_bytes(s),
        encode_utf8(s).len() < 0x1_0000_0000_0000_0000,
    ensures
        parse_text(b, pos) == Ok::<(Seq<char>, int), DecodeCborError>(
            (s, pos + text_bytes(s).len()),
        ),
{
    let u = encode_utf8(s);
    let h = head(3, u.len());
    assert(b.subrange(pos, pos + h.len()) =~= h) by {
        assert forall|i: int| 0 <= i < h.len() implies b.subrange(pos, pos + h.len())[i] == h[i] by {
            assert(b[pos + i] == b.subrange(pos, pos + text_bytes(s).len())[i]);
            assert(text_bytes(s)[i] == h[i]);
        }
    }
    lemma_read_head(b, pos, 3, u.len());
    let p = pos + h.len();
    assert(b.subrange(p, p + u.len()) =~= u) by {
        assert forall|i: int| 0 <= i < u.len() implies b.subrange(p, p + u.len())[i] == u[i] by {
            assert(b[p + i] == b.subrange(pos, pos + text_bytes(s).len())[h.len() + i]);
            assert(text_bytes(s)[h.len() + i] == u[i]);
        }
    }
}

/// The encoding of a non-empty sequence of values, front first.
proof fn lemma_items_cbor_front(items: Seq<Data>)
    requires
        items.len() > 0,
    ensures
        items_cbor(items) == cbor_of(items[0]) + items_cbor(items.drop_first()),
    decreases items.len(),
{
    if items.len() == 1 {
        assert(items.drop_last() =~= Seq::<Data>::empty());
        assert(items.drop_first() =~= Seq::<Data>::empty());
        assert(items_cbor(items) =~= cbor_of(items[0]) + items_cbor(items.drop_first()));
    } else {
        lemma_items_cbor_front(items.drop_last());
        assert(items.drop_last().drop_first() =~= items.drop_first().drop_last());
        assert(items.drop_first().last() == items.last());
        assert(items_cbor(items) =~= cbor_of(items[0]) + items_cbor(items.drop_first()));
    }
}

/// The encoding of a non-empty sequence of entries, front first.
proof fn lemma_entries_cbor_front(entries: Seq<(Seq<char>, Data)>)
    requires
        entries.len() > 0,
    ensures
        entries_cbor(entries) == text_bytes(entries[0].0) + cbor_of(entries[0].1) + entries_cbor(
            entries.drop_first(),
        ),
    decreases entries.len(),
{
    if entries.len() == 1 {
        assert(entries.drop_last() =~= Seq::<(Seq<char>, Data)>::empty());
        assert(entries.drop_first() =~= Seq::<(Seq<char>, Data)>::empty());
        assert(entries_cbor(entries) =~= text_bytes(entries[0].0) + cbor_of(entries[0].1)
            + entries_cbor(entries.drop_first()));
    } else {
        lemma_entries_cbor_front(entries.drop_last());
        assert(entries.drop_last().drop_first() =~= entries.drop_first().drop_last());
        assert(entries.drop_first().last() == entries.last());
        assert(entries_cbor(entries) =~= text_bytes(entries[0].0) + cbor_of(entries[0].1)
            + entries_cbor(entries.drop_first()));
    }
}

/// Lengths in a well-formed value fit in 64 bits.
pub open spec fn lengths_fit(d: Data) -> bool
    decreases d,
{
    match d {
        Data::Str(s) => encode_utf8(s).len() < 0x1_0000_0000_0000_0000,
        Data::Array(items) => items.len() < 0x1_0000_0000_0000_0000 && items_fit(items),
        Data::Object(entries) => entries.len() < 0x1_0000_0000_0000_0000 && entries_fit(entries),
        _ => true,
    }
}

/// Lengths in each value fit in 64 bits.
pub open spec fn items_fit(items: Seq<Data>) -> bool
    decreases items,
{
    items.len() > 0 ==> lengths_fit(items.last()) && items_fit(items.drop_last())
}

/// Lengths in each entry fit in 64 bits.
pub open spec fn entries_fit(entries: Seq<(Seq<char>, Data)>) -> bool
    decreases entries,
{
    entries.len() > 0 ==> encode_utf8(entries.last().0).len() < 0x1_0000_0000_0000_0000
        && lengths_fit(entries.last().1) && entries_fit(entries.drop_last())
}

proof fn lemma_items_fit(items: Seq<Data>, i: int)
    requires
        items_fit(items),
        0 <= i < items.len(),
    ensures
        lengths_fit(items[i]),
        items_fit(items.drop_first()),
    decreases items.len(),
{
    if i < items.len() - 1 {
        lemma_items_fit(items.drop_last(), i);
    }
    if items.len() > 1 {
        lemma_items_fit(items.drop_last(), 0);
        assert(items.drop_first().drop_last() =~= items.drop_last().drop_first());
    } else {
        assert(items.drop_first() =~= Seq::<Data>::empty());
    }
}

proof fn lemma_entries_fit(entries: Seq<(Seq<char>, Data)>, i: int)
    requires
        entries_fit(entries),
        0 <= i < entries.len(),
    ensures
        lengths_fit(entries[i].1),
        encode_utf8(entries[i].0).len() < 0x1_0000_0000_0000_0000,
        entries_fit(entries.drop_first()),
    decreases entries.len(),
{
    if i < entries.len() - 1 {
        lemma_entries_fit(entries.drop_last(), i);
    }
    if entries.len() > 1 {
        lemma_entries_fit(entries.drop_last(), 0);
        assert(entries.drop_first().drop_last() =~= entries.drop_last().drop_first());
    } else {
        assert(entries.drop_first() =~= Seq::<(Seq<char>, Data)>::empty());
    }
}

proof fn lemma_parse_value(b: Seq<u8>, pos: int, d: Data)
    requires
        data_wf(d),
        lengths_fit(d),
        holds_at(b, pos, cbor_of(d)),
    ensures
        cbor_of(d).len() >= 1,
        parse(b, pos) == Ok::<(Data, int), DecodeCborError>((d, pos + cbor_of(d).len())),
    decreases d, 0int,
{
    let e = cbor_of(d);
    assert(b[pos] == b.subrange(pos, pos + e.len())[0]);
    match d {
        Data::Null => {},
        Data::Bool(v) => {},
        Data::Float(bits) => {
            let t = be_bytes(bits as nat, 8);
            lemma_be_bytes(bits as nat, 8);
            lemma_byte_bound_8();
            assert(e == seq![0xfbu8] + t);
            lemma_holds_split(b, pos, seq![0xfbu8], t);
            assert(b[pos] == b.subrange(pos, pos + 1)[0]);
            lemma_be_value_shift(b, pos + 1, t, 8);
        },
        Data::Str(s) => {
            lemma_text_parse(b, pos, s);
            lemma_holds_split(b, pos, head(3, encode_utf8(s).len()), encode_utf8(s));
            lemma_read_head(b, pos, 3, encode_utf8(s).len());
        },
        Data::Array(items) => {
            let h = head(4, items.len());
            lemma_holds_split(b, pos, h, items_cbor(items));
            lemma_read_head(b, pos, 4, items.len());
            assert(decreases_to!(d => d->Array_0));
            lemma_parse_items(b, pos + h.len(), items, Seq::empty());
            assert(Seq::<Data>::empty() + items =~= items);
        },
        Data::Object(entries) => {
            let h = head(5, entries.len());
            lemma_holds_split(b, pos, h, entries_cbor(entries));
            lemma_read_head(b, pos, 5, entries.len());
            assert(decreases_to!(d => d->Object_0));
            lemma_parse_entries(b, pos + h.len(), entries, Seq::empty());
            assert(Seq::<(Seq<char>, Data)>::empty() + entries =~= entries);
        },
    }
}

proof fn lemma_parse_items(b: Seq<u8>, pos: int, items: Seq<Data>, acc: Seq<Data>)
    requires
        forall|i: int| 0 <= i < items.len() ==> data_wf(#[trigger] items[i]),
        items_fit(items),
        holds_at(b, pos, items_cbor(items)),
    ensures
        parse_items(b, pos, items.len(), acc) == Ok::<(Seq<Data>, int), DecodeCborError>(
            (acc + items, pos + items_cbor(items).len()),
        ),
    decreases items, 1int,
{
    if items.len() == 0 {
        assert(acc + items =~= acc);
    } else {
        lemma_items_cbor_front(items);
        lemma_holds_split(b, pos, cbor_of(items[0]), items_cbor(items.drop_first()));
        lemma_items_fit(items, 0);
        assert(decreases_to!(items => items[0]));
        lemma_parse_value(b, pos, items[0]);
        let rest = items.drop_first();
        assert forall|i: int| 0 <= i < rest.len() implies data_wf(#[trigger] rest[i]) by {
            assert(rest[i] == items[i + 1]);
        }
        lemma_parse_items(b, pos + cbor_of(items[0]).len(), rest, acc.push(items[0]));
        assert(acc.push(items[0]) + rest =~= acc + items);
    }
}

proof fn lemma_parse_entries(
    b: Seq<u8>,
    pos: int,
    entries: Seq<(Seq<char>, Data)>,
    acc: Seq<(Seq<char>, Data)>,
)
    requires
        forall|i: int| 0 <= i < entries.len() ==> data_wf(#[trigger] entries[i].1),
        keys_distinct(acc + entries),
        entries_fit(entries),
        holds_at(b, pos, entries_cbor(entries)),
    ensures
        parse_entries(b, pos, entries.len(), acc) == Ok::<
            (Seq<(Seq<char>, Data)>, int),
            DecodeCborError,
        >((acc + entries, pos + entries_cbor(entries).len())),
    decreases entries, 1int,
{
    if entries.len() == 0 {
        assert(acc + entries =~= acc);
    } else {
        let k = entries[0].0;
        let kb = text_bytes(k);
        let vb = cbor_of(entries[0].1);
        let rest = entries.drop_first();
        lemma_entries_cbor_front(entries);
        lemma_holds_split(b, pos, kb + vb, entries_cbor(rest));
        lemma_holds_split(b, pos, kb, vb);
        lemma_entries_fit(entries, 0);
        lemma_text_parse(b, pos, k);
        assert(!keys_of(acc).contains(k)) by {
            if keys_of(acc).contains(k) {
                let j = choose|j: int| 0 <= j < keys_of(acc).len() && keys_of(acc)[j] == k;
                assert((acc + entries)[j].0 == (acc + entries)[acc.len() as int].0);
            }
        }
        assert(decreases_to!(entries => entries[0]));
        assert(decreases_to!(entries => entries[0].1));
        lemma_parse_value(b, pos + kb.len(), entries[0].1);
        assert(forall|i: int| 0 <= i < rest.len() ==> data_wf(#[trigger] rest[i].1)) by {
            assert forall|i: int| 0 <= i < rest.len() implies data_wf(#[trigger] rest[i].1) by {
                assert(rest[i] == entries[i + 1]);
            }
        }
        assert(acc.push(entries[0]) + rest =~= acc + entries);
        lemma_parse_entries(b, pos + kb.len() + vb.len(), rest, acc.push(entries[0]));
    }
}

/// Decoding the binary encoding of a well-formed value gives the value back,
/// for every value whose lengths fit the encoding's 64-bit length fields.
pub proof fn lemma_binary_round_trip(d: Data)
    requires
        data_wf(d),
        lengths_fit(d),
    ensures
        decode(cbor_of(d)) == Ok::<Data, DecodeCborError>(d),
{
    let b = cbor_of(d);
    assert(b.subrange(0, b.len() as int) =~= b);
    lemma_parse_value(b, 0, d);
}

} // verus!
