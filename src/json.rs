//! The textual encoding: a canonical subset of the common object notation, in
//! a compact form and in the signing form with fixed whitespace.

use vstd::prelude::*;
use vstd::slice::slice_subrange;
use vstd::utf8::{
    decode_first_scalar, decode_utf8, decode_utf8_first_scalar, encode_scalar, encode_utf8,
    is_scalar, length_of_first_scalar, pop_first_scalar, take_first_scalar, valid_first_scalar,
    valid_utf8,
};

use crate::legacy_f64::{is_valid_bits, LegacyF64};
use crate::ordered::{canonical, canonical_form, lemma_canonical_fixpoint, ValueOrdered};
use crate::value::{
    holds_at, lemma_holds_index, lemma_holds_split, utf8_str,
    data_wf, entries_data, keys_distinct, keys_of, lemma_entries_data, lemma_values_data,
    values_data, Data, ObjectAccessState, Value,
};

verus! {

broadcast use vstd::utf8::group_utf8_lib;

// ---------------------------------------------------------------------------
// The encoding, as a function of the model.

/// The lowercase hexadecimal digit for `n < 16`.
pub open spec fn hex_digit(n: nat) -> u8 {
    if n < 10 {
        (0x30 + n) as u8
    } else {
        (0x61 + n - 10) as u8
    }
}

/// How one byte of a string's UTF-8 encoding is written between the quotes.
pub open spec fn escape_byte(c: u8) -> Seq<u8> {
    if c == 0x22 {
        seq![0x5cu8, 0x22u8]
    } else if c == 0x5c {
        seq![0x5cu8, 0x5cu8]
    } else if c == 0x08 {
        seq![0x5cu8, 0x62u8]
    } else if c == 0x0c {
        seq![0x5cu8, 0x66u8]
    } else if c == 0x0a {
        seq![0x5cu8, 0x6eu8]
    } else if c == 0x0d {
        seq![0x5cu8, 0x72u8]
    } else if c == 0x09 {
        seq![0x5cu8, 0x74u8]
    } else if c < 0x20 {
        seq![0x5cu8, 0x75u8, 0x30u8, 0x30u8, hex_digit(c as nat / 16), hex_digit(c as nat % 16)]
    } else {
        seq![c]
    }
}

/// The escaped form of a sequence of bytes.
pub open spec fn escape_all(s: Seq<u8>) -> Seq<u8>
    decreases s.len(),
{
    if s.len() == 0 {
        Seq::empty()
    } else {
        escape_all(s.drop_last()) + escape_byte(s.last())
    }
}

/// A string literal.
pub open spec fn string_json(s: Seq<char>) -> Seq<u8> {
    seq![0x22u8] + escape_all(encode_utf8(s)) + seq![0x22u8]
}

/// The text that `numbers` gives for the float with these bits: that of the
/// first entry for them, or nothing if there is none.
pub open spec fn number_text(numbers: Seq<(u64, String)>, bits: u64) -> Seq<u8>
    decreases numbers.len(),
{
    if numbers.len() == 0 {
        Seq::empty()
    } else if numbers[0].0 == bits {
        encode_utf8(numbers[0].1@)
    } else {
        number_text(numbers.drop_first(), bits)
    }
}

/// A line break and the indentation of the given level, in the signing form;
/// nothing in the compact form.
pub open spec fn newline_indent(compact: bool, level: nat) -> Seq<u8> {
    if compact {
        Seq::empty()
    } else {
        seq![0x0au8] + Seq::new(2 * level, |i: int| 0x20u8)
    }
}

/// The text of a value nested at the given level.
pub open spec fn json_of(d: Data, compact: bool, level: nat, numbers: Seq<(u64, String)>) -> Seq<
    u8,
>
    decreases d,
{
    match d {
        Data::Null => seq![0x6eu8, 0x75u8, 0x6cu8, 0x6cu8],
        Data::Bool(b) => if b {
            seq![0x74u8, 0x72u8, 0x75u8, 0x65u8]
        } else {
            seq![0x66u8, 0x61u8, 0x6cu8, 0x73u8, 0x65u8]
        },
        Data::Float(bits) => number_text(numbers, bits),
        Data::Str(s) => string_json(s),
        Data::Array(items) => if items.len() == 0 {
            seq![0x5bu8, 0x5du8]
        } else {
            seq![0x5bu8] + items_json(items, compact, level + 1, numbers) + newline_indent(
                compact,
                level,
            ) + seq![0x5du8]
        },
        Data::Object(entries) => if entries.len() == 0 {
            seq![0x7bu8, 0x7du8]
        } else {
            seq![0x7bu8] + entries_json(entries, compact, level + 1, numbers) + newline_indent(
                compact,
                level,
            ) + seq![0x7du8]
        },
    }
}

/// The elements of an array, each on its own line in the signing form.
pub open spec fn items_json(
    items: Seq<Data>,
    compact: bool,
    level: nat,
    numbers: Seq<(u64, String)>,
) -> Seq<u8>
    decreases items,
{
    if items.len() == 0 {
        Seq::empty()
    } else {
        items_json(items.drop_last(), compact, level, numbers) + (if items.len() > 1 {
            seq![0x2cu8]
        } else {
            Seq::empty()
        }) + newline_indent(compact, level) + json_of(items.last(), compact, level, numbers)
    }
}

/// The separator between a key and its value.
pub open spec fn colon(compact: bool) -> Seq<u8> {
    if compact {
        seq![0x3au8]
    } else {
        seq![0x3au8, 0x20u8]
    }
}

/// The entries of an object, each on its own line in the signing form.
pub open spec fn entries_json(
    entries: Seq<(Seq<char>, Data)>,
    compact: bool,
    level: nat,
    numbers: Seq<(u64, String)>,
) -> Seq<u8>
    decreases entries,
{
    if entries.len() == 0 {
        Seq::empty()
    } else {
        entries_json(entries.drop_last(), compact, level, numbers) + (if entries.len() > 1 {
            seq![0x2cu8]
        } else {
            Seq::empty()
        }) + newline_indent(compact, level) + string_json(entries.last().0) + colon(compact)
            + json_of(entries.last().1, compact, level, numbers)
    }
}

/// How deeply arrays and objects nest in a value.
pub open spec fn depth(d: Data) -> nat
    decreases d,
{
    match d {
        Data::Array(items) => 1 + items_depth(items),
        Data::Object(entries) => 1 + entries_depth(entries),
        _ => 0,
    }
}

/// The deepest nesting among values.
pub open spec fn items_depth(items: Seq<Data>) -> nat
    decreases items,
{
    if items.len() == 0 {
        0
    } else {
        let a = items_depth(items.drop_last());
        let b = depth(items.last());
        if a >= b {
            a
        } else {
            b
        }
    }
}

/// The deepest nesting among the values of entries.
pub open spec fn entries_depth(entries: Seq<(Seq<char>, Data)>) -> nat
    decreases entries,
{
    if entries.len() == 0 {
        0
    } else {
        let a = entries_depth(entries.drop_last());
        let b = depth(entries.last().1);
        if a >= b {
            a
        } else {
            b
        }
    }
}

proof fn lemma_items_depth(items: Seq<Data>)
    ensures
        forall|i: int| 0 <= i < items.len() ==> depth(#[trigger] items[i]) <= items_depth(items),
    decreases items.len(),
{
    if items.len() > 0 {
        lemma_items_depth(items.drop_last());
        assert forall|i: int| 0 <= i < items.len() implies depth(#[trigger] items[i])
            <= items_depth(items) by {
            if i < items.len() - 1 {
                assert(items[i] == items.drop_last()[i]);
            }
        }
    }
}

proof fn lemma_entries_depth(entries: Seq<(Seq<char>, Data)>)
    ensures
        forall|i: int|
            0 <= i < entries.len() ==> depth(#[trigger] entries[i].1) <= entries_depth(entries),
    decreases entries.len(),
{
    if entries.len() > 0 {
        lemma_entries_depth(entries.drop_last());
        assert forall|i: int| 0 <= i < entries.len() implies depth(#[trigger] entries[i].1)
            <= entries_depth(entries) by {
            if i < entries.len() - 1 {
                assert(entries[i] == entries.drop_last()[i]);
            }
        }
    }
}

// ---------------------------------------------------------------------------
// The encoder.

/// A structure for serializing legacy values into the textual encoding.
pub struct JsonSerializer {
    writer: Vec<u8>,
    compact: bool,
    indent: usize,
}

// The lowercase hexadecimal digit for `n < 16`.
fn hex_digit_of(n: u8) -> (r: u8)
    requires
        n < 16,
    ensures
        r == hex_digit(n as nat),
{
    if n < 10 {
        0x30 + n
    } else {
        0x61 + n - 10
    }
}

impl JsonSerializer {
    /// The bytes written so far.
    pub closed spec fn written(&self) -> Seq<u8> {
        self.writer@
    }

    /// Whether this serializer omits all whitespace.
    pub closed spec fn is_compact(&self) -> bool {
        self.compact
    }

    /// The nesting level of what is written next.
    pub closed spec fn level(&self) -> nat {
        self.indent as nat
    }

    /// Creates a new serializer that appends to `writer`.
    ///
    /// If `compact`, this omits all whitespace; otherwise it produces the
    /// signing form.
    pub fn new(writer: Vec<u8>, compact: bool) -> (r: JsonSerializer)
        ensures
            r.written() == writer@,
            r.is_compact() == compact,
            r.level() == 0,
    {
        JsonSerializer { writer, compact, indent: 0 }
    }

    /// Unwrap the bytes from the serializer.
    pub fn into_inner(self) -> (r: Vec<u8>)
        ensures
            r@ == self.written(),
    {
        self.writer
    }

    // Writes the bytes of a string as they are.
    fn write_raw(&mut self, v: &str)
        ensures
            final(self).writer@ == old(self).writer@ + encode_utf8(v@),
            final(self).compact == old(self).compact,
            final(self).indent == old(self).indent,
    {
        let bytes = v.as_bytes();
        let ghost start = self.writer@;
        let mut i: usize = 0;
        while i < bytes.len()
            invariant
                0 <= i <= bytes@.len(),
                bytes@ == encode_utf8(v@),
                start == old(self).writer@,
                self.compact == old(self).compact,
                self.indent == old(self).indent,
                self.writer@ == start + bytes@.subrange(0, i as int),
            decreases bytes@.len() - i,
        {
            self.writer.push(bytes[i]);
            i = i + 1;
            assert(self.writer@ =~= start + bytes@.subrange(0, i as int));
        }
        assert(bytes@.subrange(0, bytes@.len() as int) =~= bytes@);
    }

    // Writes a line break and the indentation of `level`, unless compact.
    fn write_newline_indent(&mut self, level: usize)
        ensures
            final(self).writer@ == old(self).writer@ + newline_indent(
                old(self).compact,
                level as nat,
            ),
            final(self).compact == old(self).compact,
            final(self).indent == old(self).indent,
    {
        if self.compact {
            assert(old(self).writer@ + newline_indent(old(self).compact, level as nat)
                =~= old(self).writer@);
            return ;
        }
        self.writer.push(0x0a);
        let ghost start = self.writer@;
        let mut i: usize = 0;
        while i < level
            invariant
                0 <= i <= level,
                start == old(self).writer@.push(0x0au8),
                self.compact == old(self).compact,
                self.indent == old(self).indent,
                self.writer@ == start + Seq::new(2 * i as nat, |j: int| 0x20u8),
            decreases level - i,
        {
            self.writer.push(0x20);
            self.writer.push(0x20);
            i = i + 1;
            assert(self.writer@ =~= start + Seq::new(2 * i as nat, |j: int| 0x20u8));
        }
        assert(self.writer@ =~= old(self).writer@ + newline_indent(
            old(self).compact,
            level as nat,
        ));
    }

    // Writes one byte of a string's UTF-8 encoding, escaped as needed.
    fn write_escaped(&mut self, c: u8)
        ensures
            final(self).writer@ == old(self).writer@ + escape_byte(c),
            final(self).compact == old(self).compact,
            final(self).indent == old(self).indent,
    {
        if c == 0x22 {
            self.writer.push(0x5c);
            self.writer.push(0x22);
        } else if c == 0x5c {
            self.writer.push(0x5c);
            self.writer.push(0x5c);
        } else if c == 0x08 {
            self.writer.push(0x5c);
            self.writer.push(0x62);
        } else if c == 0x0c {
            self.writer.push(0x5c);
            self.writer.push(0x66);
        } else if c == 0x0a {
            self.writer.push(0x5c);
            self.writer.push(0x6e);
        } else if c == 0x0d {
            self.writer.push(0x5c);
            self.writer.push(0x72);
        } else if c == 0x09 {
            self.writer.push(0x5c);
            self.writer.push(0x74);
        } else if c < 0x20 {
            self.writer.push(0x5c);
            self.writer.push(0x75);
            self.writer.push(0x30);
            self.writer.push(0x30);
            let hi = hex_digit_of(c / 16);
            let lo = hex_digit_of(c % 16);
            self.writer.push(hi);
            self.writer.push(lo);
        } else {
            self.writer.push(c);
        }
        assert(self.writer@ =~= old(self).writer@ + escape_byte(c));
    }

    /// Writes a boolean.
    pub fn serialize_bool(&mut self, v: bool)
        ensures
            final(self).written() == old(self).written() + json_of(
                Data::Bool(v),
                old(self).is_compact(),
                old(self).level(),
                Seq::empty(),
            ),
            final(self).is_compact() == old(self).is_compact(),
            final(self).level() == old(self).level(),
    {
        if v {
            self.writer.push(0x74);
            self.writer.push(0x72);
            self.writer.push(0x75);
            self.writer.push(0x65);
        } else {
            self.writer.push(0x66);
            self.writer.push(0x61);
            self.writer.push(0x6c);
            self.writer.push(0x73);
            self.writer.push(0x65);
        }
        assert(self.writer@ =~= old(self).writer@ + json_of(
            Data::Bool(v),
            old(self).is_compact(),
            old(self).level(),
            Seq::empty(),
        ));
    }

    /// Writes null.
    pub fn serialize_null(&mut self)
        ensures
            final(self).written() == old(self).written() + json_of(
                Data::Null,
                old(self).is_compact(),
                old(self).level(),
                Seq::empty(),
            ),
            final(self).is_compact() == old(self).is_compact(),
            final(self).level() == old(self).level(),
    {
        self.writer.push(0x6e);
        self.writer.push(0x75);
        self.writer.push(0x6c);
        self.writer.push(0x6c);
        assert(self.writer@ =~= old(self).writer@ + json_of(
            Data::Null,
            old(self).is_compact(),
            old(self).level(),
            Seq::empty(),
        ));
    }

    /// Writes a float as the text that `numbers` gives for it.
    pub fn serialize_f64(&mut self, v: LegacyF64, numbers: &Vec<(u64, String)>)
        ensures
            final(self).written() == old(self).written() + number_text(numbers@, v.spec_bits()),
            final(self).is_compact() == old(self).is_compact(),
            final(self).level() == old(self).level(),
    {
        let bits = v.to_bits();
        let mut i: usize = 0;
        assert(numbers@.subrange(0, numbers@.len() as int) =~= numbers@);
        while i < numbers.len()
            invariant
                0 <= i <= numbers@.len(),
                bits == v.spec_bits(),
                self.writer@ == old(self).writer@,
                self.compact == old(self).compact,
                self.indent == old(self).indent,
                number_text(numbers@, bits) == number_text(
                    numbers@.subrange(i as int, numbers@.len() as int),
                    bits,
                ),
            decreases numbers@.len() - i,
        {
            let ghost rest = numbers@.subrange(i as int, numbers@.len() as int);
            assert(rest[0] == numbers@[i as int]);
            assert(rest.drop_first() =~= numbers@.subrange(i + 1, numbers@.len() as int));
            if numbers[i].0 == bits {
                assert(number_text(rest, bits) == encode_utf8(numbers@[i as int].1@));
                self.write_raw(numbers[i].1.as_str());
                return ;
            }
            i = i + 1;
        }
        assert(numbers@.subrange(i as int, numbers@.len() as int).len() == 0);
    }

    /// Writes a string literal.
    pub fn serialize_str(&mut self, v: &str)
        ensures
            final(self).written() == old(self).written() + string_json(v@),
            final(self).is_compact() == old(self).is_compact(),
            final(self).level() == old(self).level(),
    {
        self.writer.push(0x22);
        let bytes = v.as_bytes();
        let ghost start = self.writer@;
        let mut i: usize = 0;
        while i < bytes.len()
            invariant
                0 <= i <= bytes@.len(),
                bytes@ == encode_utf8(v@),
                start == old(self).writer@.push(0x22u8),
                self.compact == old(self).compact,
                self.indent == old(self).indent,
                self.writer@ == start + escape_all(bytes@.subrange(0, i as int)),
            decreases bytes@.len() - i,
        {
            self.write_escaped(bytes[i]);
            assert(bytes@.subrange(0, i + 1).drop_last() =~= bytes@.subrange(0, i as int));
            i = i + 1;
            assert(self.writer@ =~= start + escape_all(bytes@.subrange(0, i as int)));
        }
        assert(bytes@.subrange(0, bytes@.len() as int) =~= bytes@);
        self.writer.push(0x22);
        assert(self.writer@ =~= old(self).writer@ + string_json(v@));
    }

    /// Writes a value.
    #[verifier::rlimit(100)]
    pub fn serialize_value(&mut self, v: &Value, numbers: &Vec<(u64, String)>)
        requires
            old(self).level() + depth(v@) <= usize::MAX,
        ensures
            final(self).written() == old(self).written() + json_of(
                v@,
                old(self).is_compact(),
                old(self).level(),
                numbers@,
            ),
            final(self).is_compact() == old(self).is_compact(),
            final(self).level() == old(self).level(),
        decreases v,
    {
        match v {
            Value::Null => self.serialize_null(),
            Value::Bool(b) => self.serialize_bool(*b),
            Value::Float(f) => self.serialize_f64(*f, numbers),
            Value::String(s) => self.serialize_str(s.as_str()),
            Value::Array(items) => {
                proof {
                    lemma_values_data(items@);
                    lemma_items_depth(values_data(items@));
                }
                if items.len() == 0 {
                    self.writer.push(0x5b);
                    self.writer.push(0x5d);
                    assert(self.writer@ =~= old(self).writer@ + json_of(
                        v@,
                        old(self).compact,
                        old(self).indent as nat,
                        numbers@,
                    ));
                    return ;
                }
                self.writer.push(0x5b);
                let level = self.indent;
                self.indent = level + 1;
                let ghost start = self.writer@;
                let mut i: usize = 0;
                while i < items.len()
                    invariant
                        0 <= i <= items@.len(),
                        *v == Value::Array(*items),
                        self.compact == old(self).compact,
                        level == old(self).indent,
                        self.indent == level + 1,
                        level + 1 + items_depth(values_data(items@)) <= usize::MAX,
                        values_data(items@).len() == items@.len(),
                        forall|j: int|
                            0 <= j < items@.len() ==> #[trigger] values_data(items@)[j]
                                == value_data_of(items@[j]),
                        forall|j: int|
                            0 <= j < items@.len() ==> depth(#[trigger] values_data(items@)[j])
                                <= items_depth(values_data(items@)),
                        start == old(self).writer@.push(0x5bu8),
                        self.writer@ == start + items_json(
                            values_data(items@.subrange(0, i as int)),
                            self.compact,
                            (level + 1) as nat,
                            numbers@,
                        ),
                    decreases items@.len() - i,
                {
                    if i > 0 {
                        self.writer.push(0x2c);
                    }
                    self.write_newline_indent(level + 1);
                    proof {
                        vstd::std_specs::vec::axiom_vec_index_decreases(*items, i as int);
                        assert(decreases_to!(*v => (*v)->Array_0));
                        assert(decreases_to!(*v => items[i as int]));
                        assert(values_data(items@)[i as int] == value_data_of(items@[i as int]));
                    }
                    self.serialize_value(&items[i], numbers);
                    proof {
                        let s = items@.subrange(0, i + 1);
                        assert(s.drop_last() =~= items@.subrange(0, i as int));
                        lemma_values_data(s);
                        lemma_values_data(items@.subrange(0, i as int));
                        let ds = values_data(s);
                        assert(ds.drop_last() =~= values_data(items@.subrange(0, i as int)));
                    }
                    i = i + 1;
                    assert(self.writer@ =~= start + items_json(
                        values_data(items@.subrange(0, i as int)),
                        self.compact,
                        (level + 1) as nat,
                        numbers@,
                    ));
                }
                assert(items@.subrange(0, items@.len() as int) =~= items@);
                self.indent = level;
                self.write_newline_indent(level);
                self.writer.push(0x5d);
                assert(self.writer@ =~= old(self).writer@ + json_of(
                    v@,
                    old(self).compact,
                    old(self).indent as nat,
                    numbers@,
                ));
            },
            Value::Object(entries) => {
                proof {
                    lemma_entries_data(entries@);
                    lemma_entries_depth(entries_data(entries@));
                }
                if entries.len() == 0 {
                    self.writer.push(0x7b);
                    self.writer.push(0x7d);
                    assert(self.writer@ =~= old(self).writer@ + json_of(
                        v@,
                        old(self).compact,
                        old(self).indent as nat,
                        numbers@,
                    ));
                    return ;
                }
                self.writer.push(0x7b);
                let level = self.indent;
                self.indent = level + 1;
                let ghost start = self.writer@;
                let mut i: usize = 0;
                while i < entries.len()
                    invariant
                        0 <= i <= entries@.len(),
                        *v == Value::Object(*entries),
                        self.compact == old(self).compact,
                        level == old(self).indent,
                        self.indent == level + 1,
                        level + 1 + entries_depth(entries_data(entries@)) <= usize::MAX,
                        entries_data(entries@).len() == entries@.len(),
                        forall|j: int|
                            0 <= j < entries@.len() ==> #[trigger] entries_data(entries@)[j] == (
                                entries@[j].0@,
                                value_data_of(entries@[j].1),
                            ),
                        forall|j: int|
                            0 <= j < entries@.len() ==> depth(
                                #[trigger] entries_data(entries@)[j].1,
                            ) <= entries_depth(entries_data(entries@)),
                        start == old(self).writer@.push(0x7bu8),
                        self.writer@ == start + entries_json(
                            entries_data(entries@.subrange(0, i as int)),
                            self.compact,
                            (level + 1) as nat,
                            numbers@,
                        ),
                    decreases entries@.len() - i,
                {
                    if i > 0 {
                        self.writer.push(0x2c);
                    }
                    self.write_newline_indent(level + 1);
                    let entry = &entries[i];
                    self.serialize_str(entry.0.as_str());
                    if self.compact {
                        self.writer.push(0x3a);
                    } else {
                        self.writer.push(0x3a);
                        self.writer.push(0x20);
                    }
                    proof {
                        vstd::std_specs::vec::axiom_vec_index_decreases(*entries, i as int);
                        assert(decreases_to!(*v => (*v)->Object_0));
                        assert(decreases_to!(*v => entries[i as int]));
                        assert(decreases_to!(*v => entries[i as int].1));
                        assert(entries_data(entries@)[i as int].1 == value_data_of(
                            entries@[i as int].1,
                        ));
                    }
                    self.serialize_value(&entry.1, numbers);
                    proof {
                        let s = entries@.subrange(0, i + 1);
                        assert(s.drop_last() =~= entries@.subrange(0, i as int));
                        lemma_entries_data(s);
                        lemma_entries_data(entries@.subrange(0, i as int));
                        let ds = entries_data(s);
                        assert(ds.drop_last() =~= entries_data(entries@.subrange(0, i as int)));
                    }
                    i = i + 1;
                    assert(self.writer@ =~= start + entries_json(
                        entries_data(entries@.subrange(0, i as int)),
                        self.compact,
                        (level + 1) as nat,
                        numbers@,
                    ));
                }
                assert(entries@.subrange(0, entries@.len() as int) =~= entries@);
                self.indent = level;
                self.write_newline_indent(level);
                self.writer.push(0x7d);
                assert(self.writer@ =~= old(self).writer@ + json_of(
                    v@,
                    old(self).compact,
                    old(self).indent as nat,
                    numbers@,
                ));
            },
        }
    }
}

/// The model of a value, as a function usable in quantifiers.
pub open spec fn value_data_of(v: Value) -> Data {
    v@
}

/// Serializes a well-formed value into the textual encoding: compact if
/// `compact`, the signing form otherwise. Each float is written as the text
/// that the first entry of `numbers` with its bits gives, which must be one
/// number token.
pub fn to_vec(v: &Value, compact: bool, numbers: &Vec<(u64, String)>) -> (r: Vec<u8>)
    requires
        depth(v@) <= usize::MAX,
        data_wf(v@),
        numbers_cover(v@, numbers@),
    ensures
        r@ == json_of(v@, compact, 0, numbers@),
{
    let mut ser = JsonSerializer::new(Vec::new(), compact);
    ser.serialize_value(v, numbers);
    ser.into_inner()
}

// ---------------------------------------------------------------------------
// The decoding, as a function of the input.

/// Everything that can go wrong while decoding the textual encoding.
#[derive(PartialEq, Eq, Debug, Clone, Copy)]
pub enum DecodeJsonError {
    /// Needed more data but got the end of the input instead.
    UnexpectedEndOfInput,
    /// A generic syntax error.
    Syntax,
    /// A number is well-formed but evaluates to negative zero or an infinity.
    InvalidNumber,
    /// The content of a string is not utf8, uses a wrong escape sequence, etc.
    InvalidStringContent,
    /// An object has two entries with equal keys.
    DuplicateKey,
    /// The input held a value followed by at least one non-whitespace byte.
    TrailingCharacters,
    /// A number has no digit where one must be.
    ExpectedNumber,
    /// An object key is not a string.
    ExpectedString,
}

/// The name for what the decimal-to-float routine gives for a number's text:
/// the bits of the nearest float, if it gives one.
pub uninterp spec fn decimal_bits(text: Seq<char>) -> Option<u64>;

/// Whether every exponent marker of a number text has at most nine bytes
/// after it: the decimal routine collects the exponent in 32 bits, which nine
/// digits cannot overflow.
pub open spec fn exponent_fits(t: Seq<u8>) -> bool {
    forall|i: int| 0 <= i < t.len() && (t[i] == 0x65 || t[i] == 0x45) ==> t.len() - i <= 10
}

/// Relies on `strtod::strtod`: parses decimal text to the nearest float; the
/// result is a function of the text alone. It panics when an exponent has ten
/// or more significant digits, which `exponent_fits` leaves out.
#[verifier::external_body]
fn parse_decimal(text: &str) -> (r: Option<u64>)
    requires
        exponent_fits(encode_utf8(text@)),
    ensures
        r == decimal_bits(text@),
{
    strtod::strtod(text).map(|x| x.to_bits())
}

/// The first position from `i` on that holds an exponent marker, or the end.
pub open spec fn exponent_at(t: Seq<u8>, i: int) -> int
    decreases t.len() - i,
{
    if i < 0 || i >= t.len() {
        t.len() as int
    } else if t[i] == 0x65 || t[i] == 0x45 {
        i
    } else {
        exponent_at(t, i + 1)
    }
}

/// The first position from `i` on that is not a leading zero of the digits
/// that run to the end; a last zero stays.
pub open spec fn skip_leading_zeros(t: Seq<u8>, i: int) -> int
    decreases t.len() - i,
{
    if 0 <= i && i + 1 < t.len() && t[i] == 0x30 {
        skip_leading_zeros(t, i + 1)
    } else {
        i
    }
}

/// A number text with its exponent written so that the decimal routine reads
/// it without overflow and to the same float: leading zeros of the exponent
/// dropped, and an exponent of more than eight significant digits replaced by
/// 19999, the value that routine takes for every such exponent.
pub open spec fn clamp_exponent(t: Seq<u8>) -> Seq<u8> {
    let k = exponent_at(t, 0);
    if k >= t.len() {
        t
    } else {
        let h = if k + 1 < t.len() && (t[k + 1] == 0x2b || t[k + 1] == 0x2d) {
            k + 2
        } else {
            k + 1
        };
        let z = skip_leading_zeros(t, h);
        let digits = t.subrange(z, t.len() as int);
        t.subrange(0, h) + if digits.len() > 8 {
            seq![0x31u8, 0x39u8, 0x39u8, 0x39u8, 0x39u8]
        } else {
            digits
        }
    }
}

proof fn lemma_exponent_at(t: Seq<u8>, i: int)
    requires
        0 <= i <= t.len(),
    ensures
        i <= exponent_at(t, i) <= t.len(),
        forall|j: int| i <= j < exponent_at(t, i) ==> t[j] != 0x65 && t[j] != 0x45,
        exponent_at(t, i) < t.len() ==> (t[exponent_at(t, i)] == 0x65 || t[exponent_at(t, i)]
            == 0x45),
    decreases t.len() - i,
{
    if i < t.len() && !(t[i] == 0x65 || t[i] == 0x45) {
        lemma_exponent_at(t, i + 1);
    }
}

proof fn lemma_skip_leading_zeros(t: Seq<u8>, i: int)
    requires
        0 <= i <= t.len(),
    ensures
        i <= skip_leading_zeros(t, i) <= t.len(),
    decreases t.len() - i,
{
    if i + 1 < t.len() && t[i] == 0x30 {
        lemma_skip_leading_zeros(t, i + 1);
    }
}

/// A clamped number text keeps every exponent within the decimal routine's
/// limits, and an ASCII text stays ASCII.
proof fn lemma_clamp_exponent(t: Seq<u8>)
    ensures
        exponent_fits(clamp_exponent(t)) || exponent_at(t, 0) >= t.len(),
        (forall|i: int| 0 <= i < t.len() ==> t[i] < 0x80) ==> forall|i: int|
            0 <= i < clamp_exponent(t).len() ==> clamp_exponent(t)[i] < 0x80,
{
    lemma_exponent_at(t, 0);
    let k = exponent_at(t, 0);
    if k < t.len() {
        let h = if k + 1 < t.len() && (t[k + 1] == 0x2b || t[k + 1] == 0x2d) {
            k + 2
        } else {
            k + 1
        };
        lemma_skip_leading_zeros(t, h);
        let c = clamp_exponent(t);
        assert forall|i: int| 0 <= i < c.len() && (c[i] == 0x65 || c[i] == 0x45) implies c.len()
            - i <= 10 by {
            if i < k {
                assert(c[i] == t[i]);
            }
        }
    }
}

/// Relies on encode_unicode's `Utf8Char::from_slice_start`: it accepts a slice
/// exactly when it starts with the well-formed UTF-8 encoding of one scalar
/// value, and then returns the length of that encoding.
#[verifier::external_body]
fn first_scalar_len(bytes: &[u8]) -> (r: Option<usize>)
    ensures
        r is Some <==> valid_first_scalar(bytes@),
        r matches Some(n) ==> n == length_of_first_scalar(bytes@),
{
    encode_unicode::Utf8Char::from_slice_start(bytes).ok().map(|(_, n)| n)
}

/// Whether a byte is whitespace between tokens.
pub open spec fn is_ws(c: u8) -> bool {
    c == 0x09 || c == 0x0a || c == 0x0d || c == 0x20
}

/// Whether a byte is a decimal digit.
pub open spec fn is_digit(c: u8) -> bool {
    0x30 <= c <= 0x39
}

/// The first position from `i` on that holds no whitespace.
pub open spec fn skip_ws(b: Seq<u8>, i: int) -> int
    decreases b.len() - i,
{
    if 0 <= i < b.len() && is_ws(b[i]) {
        skip_ws(b, i + 1)
    } else {
        i
    }
}

/// The first position from `i` on that holds no decimal digit.
pub open spec fn skip_digits(b: Seq<u8>, i: int) -> int
    decreases b.len() - i,
{
    if 0 <= i < b.len() && is_digit(b[i]) {
        skip_digits(b, i + 1)
    } else {
        i
    }
}

/// The value of a hexadecimal digit.
pub open spec fn hex_value(c: u8) -> Option<nat> {
    if 0x30 <= c <= 0x39 {
        Some((c - 0x30) as nat)
    } else if 0x61 <= c <= 0x66 {
        Some((c - 0x61 + 10) as nat)
    } else if 0x41 <= c <= 0x46 {
        Some((c - 0x41 + 10) as nat)
    } else {
        None
    }
}

/// The number that the four hexadecimal digits from `p` on give.
pub open spec fn hex4(b: Seq<u8>, p: int) -> Option<nat> {
    match (hex_value(b[p]), hex_value(b[p + 1]), hex_value(b[p + 2]), hex_value(b[p + 3])) {
        (Some(a), Some(c), Some(d), Some(e)) => Some(a * 4096 + c * 256 + d * 16 + e),
        _ => None,
    }
}

/// The code point of a `\u` escape whose digits start at `p`, with a low
/// surrogate escape after a high one, and where the escape ends.
pub open spec fn unicode_escape(b: Seq<u8>, p: int) -> Result<(nat, int), DecodeJsonError> {
    if p + 4 > b.len() {
        Err(DecodeJsonError::InvalidStringContent)
    } else {
        match hex4(b, p) {
            None => Err(DecodeJsonError::InvalidStringContent),
            Some(hi) => if 0xd800 <= hi <= 0xdbff {
                if p + 4 >= b.len() {
                    Err(DecodeJsonError::UnexpectedEndOfInput)
                } else if b[p + 4] != 0x5c {
                    Err(DecodeJsonError::InvalidStringContent)
                } else if p + 5 >= b.len() {
                    Err(DecodeJsonError::UnexpectedEndOfInput)
                } else if b[p + 5] != 0x75 {
                    Err(DecodeJsonError::InvalidStringContent)
                } else if p + 10 > b.len() {
                    Err(DecodeJsonError::InvalidStringContent)
                } else {
                    match hex4(b, p + 6) {
                        Some(lo) => if 0xdc00 <= lo <= 0xdfff {
                            Ok(((0x10000 + (hi - 0xd800) * 0x400 + (lo - 0xdc00)) as nat, p + 10))
                        } else {
                            Err(DecodeJsonError::InvalidStringContent)
                        },
                        None => Err(DecodeJsonError::InvalidStringContent),
                    }
                }
            } else if 0xdc00 <= hi <= 0xdfff {
                Err(DecodeJsonError::InvalidStringContent)
            } else {
                Ok((hi, p + 4))
            },
        }
    }
}

/// The byte that a single-character escape stands for.
pub open spec fn simple_escape(c: u8) -> Option<u8> {
    if c == 0x22 {
        Some(0x22u8)
    } else if c == 0x5c {
        Some(0x5cu8)
    } else if c == 0x2f {
        Some(0x2fu8)
    } else if c == 0x62 {
        Some(0x08u8)
    } else if c == 0x66 {
        Some(0x0cu8)
    } else if c == 0x6e {
        Some(0x0au8)
    } else if c == 0x72 {
        Some(0x0du8)
    } else if c == 0x74 {
        Some(0x09u8)
    } else {
        None
    }
}

/// The rest of a string literal from `pos` on, after the characters `acc`:
/// its characters and the position after its closing quote.
pub open spec fn string_body(b: Seq<u8>, pos: int, acc: Seq<char>) -> Result<
    (Seq<char>, int),
    DecodeJsonError,
>
    decreases b.len() - pos,
{
    if pos < 0 || pos >= b.len() {
        Err(DecodeJsonError::UnexpectedEndOfInput)
    } else if b[pos] == 0x22 {
        Ok((acc, pos + 1))
    } else if b[pos] == 0x5c {
        if pos + 1 >= b.len() {
            Err(DecodeJsonError::UnexpectedEndOfInput)
        } else if simple_escape(b[pos + 1]) is Some {
            string_body(b, pos + 2, acc.push(simple_escape(b[pos + 1])->0 as char))
        } else if b[pos + 1] == 0x75 {
            match unicode_escape(b, pos + 2) {
                Err(e) => Err(e),
                Ok((cp, p)) => if pos < p {
                    string_body(b, p, acc.push(cp as u32 as char))
                } else {
                    Err(DecodeJsonError::InvalidStringContent)
                },
            }
        } else {
            Err(DecodeJsonError::InvalidStringContent)
        }
    } else if b[pos] < 0x20 {
        Err(DecodeJsonError::InvalidStringContent)
    } else if valid_first_scalar(b.subrange(pos, b.len() as int)) {
        let rest = b.subrange(pos, b.len() as int);
        string_body(
            b,
            pos + length_of_first_scalar(rest),
            acc.push(decode_first_scalar(rest) as char),
        )
    } else {
        Err(DecodeJsonError::InvalidStringContent)
    }
}

/// The string literal that starts at `pos`, and where it ends.
pub open spec fn parse_string(b: Seq<u8>, pos: int) -> Result<(Seq<char>, int), DecodeJsonError> {
    if pos < 0 || pos >= b.len() {
        Err(DecodeJsonError::UnexpectedEndOfInput)
    } else if b[pos] != 0x22 {
        Err(DecodeJsonError::ExpectedString)
    } else {
        string_body(b, pos + 1, Seq::empty())
    }
}

/// The end of a number's exponent part, which may start at `q`.
pub open spec fn number_exponent(b: Seq<u8>, q: int) -> Result<int, DecodeJsonError> {
    if 0 <= q < b.len() && (b[q] == 0x65 || b[q] == 0x45) {
        if q + 1 >= b.len() {
            Err(DecodeJsonError::UnexpectedEndOfInput)
        } else {
            let r = if b[q + 1] == 0x2b || b[q + 1] == 0x2d {
                q + 2
            } else {
                q + 1
            };
            if r >= b.len() {
                Err(DecodeJsonError::UnexpectedEndOfInput)
            } else if !is_digit(b[r]) {
                Err(DecodeJsonError::Syntax)
            } else {
                Ok(skip_digits(b, r + 1))
            }
        }
    } else {
        Ok(q)
    }
}

/// The end of a number's fraction and exponent parts, which may start at `q`.
pub open spec fn number_fraction(b: Seq<u8>, q: int) -> Result<int, DecodeJsonError> {
    if 0 <= q < b.len() && b[q] == 0x2e {
        if q + 1 >= b.len() {
            Err(DecodeJsonError::UnexpectedEndOfInput)
        } else if !is_digit(b[q + 1]) {
            Err(DecodeJsonError::Syntax)
        } else {
            number_exponent(b, skip_digits(b, q + 2))
        }
    } else {
        number_exponent(b, q)
    }
}

/// The end of the number that starts at `p`.
pub open spec fn number_end(b: Seq<u8>, p: int) -> Result<int, DecodeJsonError> {
    let q = if 0 <= p < b.len() && b[p] == 0x2d {
        p + 1
    } else {
        p
    };
    if q < 0 || q >= b.len() {
        Err(DecodeJsonError::UnexpectedEndOfInput)
    } else if b[q] == 0x30 {
        number_fraction(b, q + 1)
    } else if 0x31 <= b[q] <= 0x39 {
        number_fraction(b, skip_digits(b, q + 1))
    } else {
        Err(DecodeJsonError::ExpectedNumber)
    }
}

/// The number that starts at `p`, and where it ends.
pub open spec fn parse_number(b: Seq<u8>, p: int) -> Result<(u64, int), DecodeJsonError> {
    match number_end(b, p) {
        Err(e) => Err(e),
        Ok(q) => match decimal_bits(decode_utf8(clamp_exponent(b.subrange(p, q)))) {
            Some(bits) => if is_valid_bits(bits) {
                Ok((bits, q))
            } else {
                Err(DecodeJsonError::InvalidNumber)
            },
            None => Err(DecodeJsonError::InvalidNumber),
        },
    }
}

/// Whether the three bytes from `p` on are `a`, `c` and `d`.
pub open spec fn holds3(b: Seq<u8>, p: int, a: u8, c: u8, d: u8) -> bool {
    p + 3 <= b.len() && b[p] == a && b[p + 1] == c && b[p + 2] == d
}

/// The value that starts at `pos`, after optional whitespace, and where it ends.
#[verifier::opaque]
pub open spec fn parse(b: Seq<u8>, pos: int) -> Result<(Data, int), DecodeJsonError>
    decreases b.len() - pos, 0int,
{
    let p = skip_ws(b, pos);
    if pos < 0 || p < pos || p >= b.len() {
        Err(DecodeJsonError::UnexpectedEndOfInput)
    } else {
        let t = b[p];
        if t == 0x6e {
            if holds3(b, p + 1, 0x75, 0x6c, 0x6c) {
                Ok((Data::Null, p + 4))
            } else {
                Err(DecodeJsonError::Syntax)
            }
        } else if t == 0x66 {
            if p + 5 <= b.len() && holds3(b, p + 1, 0x61, 0x6c, 0x73) && b[p + 4] == 0x65 {
                Ok((Data::Bool(false), p + 5))
            } else {
                Err(DecodeJsonError::Syntax)
            }
        } else if t == 0x74 {
            if holds3(b, p + 1, 0x72, 0x75, 0x65) {
                Ok((Data::Bool(true), p + 4))
            } else {
                Err(DecodeJsonError::Syntax)
            }
        } else if t == 0x22 {
            match parse_string(b, p) {
                Ok((s, q)) => Ok((Data::Str(s), q)),
                Err(e) => Err(e),
            }
        } else if t == 0x5b {
            match parse_items(b, p + 1, true, Seq::empty()) {
                Ok((items, q)) => Ok((Data::Array(items), q)),
                Err(e) => Err(e),
            }
        } else if t == 0x7b {
            match parse_entries(b, p + 1, true, Seq::empty()) {
                Ok((entries, q)) => Ok((Data::Object(entries), q)),
                Err(e) => Err(e),
            }
        } else if t == 0x2d || is_digit(t) {
            match parse_number(b, p) {
                Ok((bits, q)) => Ok((Data::Float(bits), q)),
                Err(e) => Err(e),
            }
        } else {
            Err(DecodeJsonError::Syntax)
        }
    }
}

/// Where the next element or entry starts once the separator before it, if
/// any, is consumed: the position `p` of the first non-whitespace byte for the
/// first one, the position after a comma at `p` otherwise.
pub open spec fn after_separator(b: Seq<u8>, p: int, first: bool) -> Result<int, DecodeJsonError> {
    if first {
        Ok(p)
    } else if b[p] == 0x2c {
        Ok(p + 1)
    } else {
        Err(DecodeJsonError::Syntax)
    }
}

/// The remaining elements of an array from `pos` on, after the elements
/// `acc`, and the position after its closing bracket.
pub open spec fn parse_items(b: Seq<u8>, pos: int, first: bool, acc: Seq<Data>) -> Result<
    (Seq<Data>, int),
    DecodeJsonError,
>
    decreases b.len() - pos, 1int,
{
    let p = skip_ws(b, pos);
    if pos < 0 || p < pos || p >= b.len() {
        Err(DecodeJsonError::UnexpectedEndOfInput)
    } else if b[p] == 0x5d {
        Ok((acc, p + 1))
    } else {
        match after_separator(b, p, first) {
            Err(e) => Err(e),
            Ok(p2) => {
                let p3 = skip_ws(b, p2);
                if p3 < p2 || p3 >= b.len() {
                    Err(DecodeJsonError::UnexpectedEndOfInput)
                } else {
                    match parse(b, p3) {
                        Err(e) => Err(e),
                        Ok((d, q)) => if advanced(pos, q, b.len() as int) {
                            parse_items(b, q, false, acc.push(d))
                        } else {
                            Err(DecodeJsonError::UnexpectedEndOfInput)
                        },
                    }
                }
            },
        }
    }
}

/// The remaining entries of an object from `pos` on, after the entries `acc`,
/// and the position after its closing brace.
pub open spec fn parse_entries(
    b: Seq<u8>,
    pos: int,
    first: bool,
    acc: Seq<(Seq<char>, Data)>,
) -> Result<(Seq<(Seq<char>, Data)>, int), DecodeJsonError>
    decreases b.len() - pos, 1int,
{
    let p = skip_ws(b, pos);
    if pos < 0 || p < pos || p >= b.len() {
        Err(DecodeJsonError::UnexpectedEndOfInput)
    } else if b[p] == 0x7d {
        Ok((acc, p + 1))
    } else {
        match after_separator(b, p, first) {
            Err(e) => Err(e),
            Ok(p2) => {
                let p3 = skip_ws(b, p2);
                if p3 < p2 || p3 >= b.len() {
                    Err(DecodeJsonError::UnexpectedEndOfInput)
                } else {
                    match parse_string(b, p3) {
                        Err(e) => Err(e),
                        Ok((k, p4)) => if keys_of(acc).contains(k) {
                            Err(DecodeJsonError::DuplicateKey)
                        } else {
                            let p5 = skip_ws(b, p4);
                            if p4 < p3 || p5 < p4 || p5 >= b.len() {
                                Err(DecodeJsonError::UnexpectedEndOfInput)
                            } else if b[p5] != 0x3a {
                                Err(DecodeJsonError::Syntax)
                            } else {
                                let p6 = skip_ws(b, p5 + 1);
                                if p6 < p5 + 1 || p6 >= b.len() {
                                    Err(DecodeJsonError::UnexpectedEndOfInput)
                                } else {
                                    match parse(b, p6) {
                                        Err(e) => Err(e),
                                        Ok((d, q)) => if advanced(pos, q, b.len() as int) {
                                            parse_entries(b, q, false, acc.push((k, d)))
                                        } else {
                                            Err(DecodeJsonError::UnexpectedEndOfInput)
                                        },
                                    }
                                }
                            }
                        },
                    }
                }
            },
        }
    }
}

/// Whether a parse that started at `pos` and stopped at `p` moved forward and
/// stayed within the input.
pub open spec fn advanced(pos: int, p: int, len: int) -> bool {
    pos < p <= len
}

/// The value that the whole input encodes; only whitespace may follow it.
pub open spec fn decode(b: Seq<u8>) -> Result<Data, DecodeJsonError> {
    match parse(b, 0) {
        Ok((d, p)) => if skip_ws(b, p) == b.len() {
            Ok(d)
        } else {
            Err(DecodeJsonError::TrailingCharacters)
        },
        Err(e) => Err(e),
    }
}

// ---------------------------------------------------------------------------
// The decoder.

proof fn lemma_skip_ws(b: Seq<u8>, i: int)
    requires
        0 <= i <= b.len(),
    ensures
        i <= skip_ws(b, i) <= b.len(),
        skip_ws(b, i) < b.len() ==> !is_ws(b[skip_ws(b, i)]),
    decreases b.len() - i,
{
    if i < b.len() && is_ws(b[i]) {
        lemma_skip_ws(b, i + 1);
    }
}

proof fn lemma_skip_digits(b: Seq<u8>, i: int)
    requires
        0 <= i <= b.len(),
    ensures
        i <= skip_digits(b, i) <= b.len(),
        forall|k: int| i <= k < skip_digits(b, i) ==> is_digit(#[trigger] b[k]),
    decreases b.len() - i,
{
    if i < b.len() && is_digit(b[i]) {
        lemma_skip_digits(b, i + 1);
    }
}

/// The UTF-8 encoding of a sequence with one more character.
pub proof fn lemma_encode_utf8_push(a: Seq<char>, c: char)
    ensures
        encode_utf8(a.push(c)) == encode_utf8(a) + encode_scalar(c as u32),
    decreases a.len(),
{
    if a.len() == 0 {
        assert(a.push(c).drop_first() =~= Seq::<char>::empty());
        assert(a.push(c)[0] == c);
        assert(encode_utf8(Seq::<char>::empty()) =~= Seq::<u8>::empty());
        assert(encode_utf8(a) =~= Seq::<u8>::empty());
        assert(encode_utf8(a.push(c)) =~= encode_utf8(a) + encode_scalar(c as u32));
    } else {
        lemma_encode_utf8_push(a.drop_first(), c);
        assert(a.push(c).drop_first() =~= a.drop_first().push(c));
        assert(a.push(c)[0] == a[0]);
        assert(encode_utf8(a.push(c)) == encode_scalar(a[0] as u32) + encode_utf8(
            a.drop_first().push(c),
        ));
        assert(encode_utf8(a) == encode_scalar(a[0] as u32) + encode_utf8(a.drop_first()));
        assert(encode_utf8(a.push(c)) =~= encode_utf8(a) + encode_scalar(c as u32));
    }
}

proof fn lemma_ascii_valid(s: Seq<u8>)
    requires
        forall|i: int| 0 <= i < s.len() ==> s[i] < 0x80,
    ensures
        valid_utf8(s),
    decreases s.len(),
{
    if s.len() > 0 {
        let rest = pop_first_scalar(s);
        assert(rest =~= s.subrange(1, s.len() as int));
        lemma_ascii_valid(rest);
    }
}

proof fn lemma_first_scalar(rest: Seq<u8>)
    requires
        valid_first_scalar(rest),
    ensures
        1 <= length_of_first_scalar(rest) <= 4,
        length_of_first_scalar(rest) <= rest.len(),
        encode_scalar((decode_first_scalar(rest) as char) as u32) == rest.subrange(
            0,
            length_of_first_scalar(rest),
        ),
{
    let n = length_of_first_scalar(rest);
    let sub = rest.subrange(0, n);
    assert(forall|i: int| 0 <= i < n ==> sub[i] == rest[i]);
    assert(valid_first_scalar(sub));
    assert(decode_first_scalar(sub) == decode_first_scalar(rest));
    assert(pop_first_scalar(sub) =~= Seq::<u8>::empty());
    reveal_with_fuel(valid_utf8, 2);
    assert(valid_utf8(sub));
    decode_utf8_first_scalar(sub);
    assert(take_first_scalar(sub) =~= sub);
}

// The value of a hexadecimal digit.
fn hex_value_of(c: u8) -> (r: Option<u32>)
    ensures
        r matches Some(v) ==> hex_value(c) == Some(v as nat),
        r is None ==> hex_value(c) is None,
{
    if 0x30 <= c && c <= 0x39 {
        Some((c - 0x30) as u32)
    } else if 0x61 <= c && c <= 0x66 {
        Some((c - 0x61 + 10) as u32)
    } else if 0x41 <= c && c <= 0x46 {
        Some((c - 0x41 + 10) as u32)
    } else {
        None
    }
}

// The number that four hexadecimal digits give.
fn hex4_of(b: &[u8], p: usize) -> (r: Option<u32>)
    requires
        p + 4 <= b@.len(),
    ensures
        r matches Some(v) ==> hex4(b@, p as int) == Some(v as nat),
        r is None ==> hex4(b@, p as int) is None,
{
    let a = match hex_value_of(b[p]) {
        Some(a) => a,
        None => return None,
    };
    let c = match hex_value_of(b[p + 1]) {
        Some(c) => c,
        None => return None,
    };
    let d = match hex_value_of(b[p + 2]) {
        Some(d) => d,
        None => return None,
    };
    let e = match hex_value_of(b[p + 3]) {
        Some(e) => e,
        None => return None,
    };
    Some(a * 4096 + c * 256 + d * 16 + e)
}

// The byte that a single-character escape stands for.
fn simple_escape_of(c: u8) -> (r: Option<u8>)
    ensures
        r == simple_escape(c),
{
    if c == 0x22 {
        Some(0x22)
    } else if c == 0x5c {
        Some(0x5c)
    } else if c == 0x2f {
        Some(0x2f)
    } else if c == 0x62 {
        Some(0x08)
    } else if c == 0x66 {
        Some(0x0c)
    } else if c == 0x6e {
        Some(0x0a)
    } else if c == 0x72 {
        Some(0x0d)
    } else if c == 0x74 {
        Some(0x09)
    } else {
        None
    }
}

// Appends the UTF-8 encoding of a scalar value.
fn push_scalar(buf: &mut Vec<u8>, cp: u32)
    requires
        is_scalar(cp),
    ensures
        final(buf)@ == old(buf)@ + encode_scalar(cp),
{
    if cp <= 0x7f {
        buf.push((cp & 0x7f) as u8);
    } else if cp <= 0x7ff {
        buf.push(0xc0 | ((cp >> 6) & 0x1f) as u8);
        buf.push(0x80 | (cp & 0x3f) as u8);
    } else if cp <= 0xffff {
        buf.push(0xe0 | ((cp >> 12) & 0x0f) as u8);
        buf.push(0x80 | ((cp >> 6) & 0x3f) as u8);
        buf.push(0x80 | (cp & 0x3f) as u8);
    } else {
        buf.push(0xf0 | ((cp >> 18) & 0x7) as u8);
        buf.push(0x80 | ((cp >> 12) & 0x3f) as u8);
        buf.push(0x80 | ((cp >> 6) & 0x3f) as u8);
        buf.push(0x80 | (cp & 0x3f) as u8);
    }
    assert(final(buf)@ =~= old(buf)@ + encode_scalar(cp));
}

// A number text with its exponent written as `clamp_exponent` says.
fn clamp_exponent_of(t: &[u8]) -> (r: Vec<u8>)
    ensures
        r@ == clamp_exponent(t@),
{
    let mut k: usize = 0;
    while k < t.len() && t[k] != 0x65 && t[k] != 0x45
        invariant
            0 <= k <= t@.len(),
            exponent_at(t@, 0) == exponent_at(t@, k as int),
        decreases t@.len() - k,
    {
        k = k + 1;
    }
    let mut out: Vec<u8> = Vec::new();
    if k >= t.len() {
        let mut i: usize = 0;
        while i < t.len()
            invariant
                0 <= i <= t@.len(),
                out@ == t@.subrange(0, i as int),
            decreases t@.len() - i,
        {
            out.push(t[i]);
            i = i + 1;
            assert(out@ =~= t@.subrange(0, i as int));
        }
        assert(t@.subrange(0, i as int) =~= t@);
        return out;
    }
    let h = if k + 1 < t.len() && (t[k + 1] == 0x2b || t[k + 1] == 0x2d) {
        k + 2
    } else {
        k + 1
    };
    let mut z: usize = h;
    while t.len() > 0 && z < t.len() - 1 && t[z] == 0x30
        invariant
            h <= z <= t@.len(),
            skip_leading_zeros(t@, h as int) == skip_leading_zeros(t@, z as int),
        decreases t@.len() - z,
    {
        z = z + 1;
    }
    let mut i: usize = 0;
    while i < h
        invariant
            0 <= i <= h <= t@.len(),
            out@ == t@.subrange(0, i as int),
        decreases h - i,
    {
        out.push(t[i]);
        i = i + 1;
        assert(out@ =~= t@.subrange(0, i as int));
    }
    let ghost prefix = out@;
    if t.len() - z > 8 {
        out.push(0x31);
        out.push(0x39);
        out.push(0x39);
        out.push(0x39);
        out.push(0x39);
        assert(out@ =~= prefix + seq![0x31u8, 0x39u8, 0x39u8, 0x39u8, 0x39u8]);
    } else {
        let mut j: usize = z;
        while j < t.len()
            invariant
                z <= j <= t@.len(),
                out@ == prefix + t@.subrange(z as int, j as int),
            decreases t@.len() - j,
        {
            out.push(t[j]);
            j = j + 1;
            assert(out@ =~= prefix + t@.subrange(z as int, j as int));
        }
    }
    out
}

/// A structure that deserializes values from the textual encoding.
pub struct JsonDeserializer<'de> {
    input: &'de [u8],
    pos: usize,
}

impl<'de> JsonDeserializer<'de> {
    /// The whole input.
    pub closed spec fn spec_input(&self) -> Seq<u8> {
        self.input@
    }

    /// How much of the input has been consumed.
    pub closed spec fn spec_pos(&self) -> int {
        self.pos as int
    }

    /// The position lies within the input.
    pub closed spec fn wf(&self) -> bool {
        self.pos <= self.input@.len()
    }

    /// Creates a deserializer that reads `input` from its start.
    pub fn from_slice(input: &'de [u8]) -> (r: JsonDeserializer<'de>)
        ensures
            r.wf(),
            r.spec_input() == input@,
            r.spec_pos() == 0,
    {
        JsonDeserializer { input, pos: 0 }
    }

    /// Checks that only whitespace remains until the end of the input.
    pub fn end(&mut self) -> (r: Result<(), DecodeJsonError>)
        requires
            old(self).wf(),
        ensures
            final(self).wf(),
            r is Ok <==> skip_ws(old(self).spec_input(), old(self).spec_pos())
                == old(self).spec_input().len(),
            r is Err ==> r == Err::<(), DecodeJsonError>(DecodeJsonError::TrailingCharacters),
    {
        self.skip_ws();
        if self.pos == self.input.len() {
            Ok(())
        } else {
            Err(DecodeJsonError::TrailingCharacters)
        }
    }

    // Consumes as much whitespace as possible.
    fn skip_ws(&mut self)
        requires
            old(self).wf(),
        ensures
            final(self).wf(),
            final(self).input == old(self).input,
            final(self).pos == skip_ws(old(self).input@, old(self).pos as int),
    {
        proof {
            lemma_skip_ws(self.input@, self.pos as int);
        }
        while self.pos < self.input.len() && (self.input[self.pos] == 0x09
            || self.input[self.pos] == 0x0a || self.input[self.pos] == 0x0d
            || self.input[self.pos] == 0x20)
            invariant
                self.wf(),
                self.input == old(self).input,
                skip_ws(self.input@, self.pos as int) == skip_ws(
                    old(self).input@,
                    old(self).pos as int,
                ),
            decreases self.input@.len() - self.pos,
        {
            self.pos = self.pos + 1;
        }
    }

    // Consumes as many decimal digits as possible.
    fn skip_digits(&mut self)
        requires
            old(self).wf(),
        ensures
            final(self).wf(),
            final(self).input == old(self).input,
            final(self).pos == skip_digits(old(self).input@, old(self).pos as int),
    {
        while self.pos < self.input.len() && 0x30 <= self.input[self.pos] && self.input[self.pos]
            <= 0x39
            invariant
                self.wf(),
                self.input == old(self).input,
                skip_digits(self.input@, self.pos as int) == skip_digits(
                    old(self).input@,
                    old(self).pos as int,
                ),
            decreases self.input@.len() - self.pos,
        {
            self.pos = self.pos + 1;
        }
    }

    // Parses the digits of a `\u` escape that start at `p`, and a low
    // surrogate escape after a high surrogate.
    fn unicode_escape(&self, p: usize) -> (r: Result<(u32, usize), DecodeJsonError>)
        requires
            self.wf(),
            p <= self.input@.len(),
        ensures
            match unicode_escape(self.input@, p as int) {
                Ok((cp, q)) => r == Ok::<(u32, usize), DecodeJsonError>((cp as u32, q as usize))
                    && is_scalar(cp as u32) && cp < 0x110000 && p < q <= self.input@.len(),
                Err(e) => r == Err::<(u32, usize), DecodeJsonError>(e),
            },
    {
        if self.input.len() - p < 4 {
            return Err(DecodeJsonError::InvalidStringContent);
        }
        let hi = match hex4_of(self.input, p) {
            Some(hi) => hi,
            None => return Err(DecodeJsonError::InvalidStringContent),
        };
        if 0xd800 <= hi && hi <= 0xdbff {
            if p + 4 >= self.input.len() {
                return Err(DecodeJsonError::UnexpectedEndOfInput);
            }
            if self.input[p + 4] != 0x5c {
                return Err(DecodeJsonError::InvalidStringContent);
            }
            if p + 5 >= self.input.len() {
                return Err(DecodeJsonError::UnexpectedEndOfInput);
            }
            if self.input[p + 5] != 0x75 {
                return Err(DecodeJsonError::InvalidStringContent);
            }
            if self.input.len() - p < 10 {
                return Err(DecodeJsonError::InvalidStringContent);
            }
            match hex4_of(self.input, p + 6) {
                Some(lo) => if 0xdc00 <= lo && lo <= 0xdfff {
                    Ok((0x10000 + (hi - 0xd800) * 0x400 + (lo - 0xdc00), p + 10))
                } else {
                    Err(DecodeJsonError::InvalidStringContent)
                },
                None => Err(DecodeJsonError::InvalidStringContent),
            }
        } else if 0xdc00 <= hi && hi <= 0xdfff {
            Err(DecodeJsonError::InvalidStringContent)
        } else {
            Ok((hi, p + 4))
        }
    }

    // Parses a string literal.
    fn parse_string(&mut self) -> (r: Result<String, DecodeJsonError>)
        requires
            old(self).wf(),
        ensures
            final(self).wf(),
            final(self).input == old(self).input,
            match parse_string(old(self).input@, old(self).pos as int) {
                Ok((s, q)) => r matches Ok(t) && t@ == s && final(self).pos == q,
                Err(e) => r == Err::<String, DecodeJsonError>(e),
            },
            r is Ok ==> old(self).pos < final(self).pos,
    {
        let ghost b = self.input@;
        let ghost start = self.pos as int;
        if self.pos >= self.input.len() {
            return Err(DecodeJsonError::UnexpectedEndOfInput);
        }
        if self.input[self.pos] != 0x22 {
            return Err(DecodeJsonError::ExpectedString);
        }
        self.pos = self.pos + 1;
        let mut buf: Vec<u8> = Vec::new();
        let ghost mut acc: Seq<char> = Seq::empty();
        loop
            invariant
                self.wf(),
                self.input == old(self).input,
                b == old(self).input@,
                start == old(self).pos,
                start < self.pos,
                parse_string(b, start) == string_body(b, self.pos as int, acc),
                buf@ == encode_utf8(acc),
            decreases self.input@.len() - self.pos,
        {
            if self.pos >= self.input.len() {
                return Err(DecodeJsonError::UnexpectedEndOfInput);
            }
            let c = self.input[self.pos];
            if c == 0x22 {
                self.pos = self.pos + 1;
                match utf8_str(buf.as_slice()) {
                    Some(s) => {
                        proof {
                            assert(decode_utf8(encode_utf8(s@)) == decode_utf8(encode_utf8(acc)));
                        }
                        return Ok(s.to_owned());
                    },
                    None => return Err(DecodeJsonError::InvalidStringContent),
                }
            } else if c == 0x5c {
                if self.pos + 1 >= self.input.len() {
                    return Err(DecodeJsonError::UnexpectedEndOfInput);
                }
                let e = self.input[self.pos + 1];
                match simple_escape_of(e) {
                    Some(x) => {
                        proof {
                            lemma_encode_utf8_push(acc, x as char);
                            assert((x as u32 & 0x7f) as u8 == x) by (bit_vector)
                                requires
                                    x < 0x80,
                            ;
                            assert((x as char) as u32 == x as u32);
                        }
                        buf.push(x);
                        proof {
                            acc = acc.push(x as char);
                        }
                        assert(buf@ =~= encode_utf8(acc));
                        self.pos = self.pos + 2;
                    },
                    None => {
                        if e != 0x75 {
                            return Err(DecodeJsonError::InvalidStringContent);
                        }
                        let (cp, q) = match self.unicode_escape(self.pos + 2) {
                            Ok(r) => r,
                            Err(e) => return Err(e),
                        };
                        proof {
                            lemma_encode_utf8_push(acc, cp as char);
                        }
                        push_scalar(&mut buf, cp);
                        proof {
                            acc = acc.push(cp as char);
                        }
                        self.pos = q;
                    },
                }
            } else if c < 0x20 {
                return Err(DecodeJsonError::InvalidStringContent);
            } else {
                let rest = slice_subrange(self.input, self.pos, self.input.len());
                let n = match first_scalar_len(rest) {
                    Some(n) => n,
                    None => return Err(DecodeJsonError::InvalidStringContent),
                };
                proof {
                    lemma_first_scalar(rest@);
                    lemma_encode_utf8_push(acc, decode_first_scalar(rest@) as char);
                }
                let ghost before = buf@;
                let mut k: usize = 0;
                while k < n
                    invariant
                        0 <= k <= n,
                        n <= rest@.len(),
                        buf@ == before + rest@.subrange(0, k as int),
                    decreases n - k,
                {
                    buf.push(rest[k]);
                    k = k + 1;
                    assert(buf@ =~= before + rest@.subrange(0, k as int));
                }
                proof {
                    acc = acc.push(decode_first_scalar(rest@) as char);
                }
                self.pos = self.pos + n;
            }
        }
    }

    // Finds the end of a number that starts at the current position, which
    // holds a minus sign or a digit, and consumes it.
    #[verifier::rlimit(100)]
    fn scan_number(&mut self) -> (r: Result<(), DecodeJsonError>)
        requires
            old(self).wf(),
            old(self).pos < old(self).input@.len(),
        ensures
            final(self).wf(),
            final(self).input == old(self).input,
            match number_end(old(self).input@, old(self).pos as int) {
                Ok(q) => r is Ok && final(self).pos == q,
                Err(e) => r == Err::<(), DecodeJsonError>(e),
            },
            r is Ok ==> old(self).pos < final(self).pos,
            r is Ok ==> forall|k: int|
                old(self).pos <= k < final(self).pos ==> old(self).input@[k] < 0x80,
    {
        let ghost b = self.input@;
        let start = self.pos;
        if self.input[self.pos] == 0x2d {
            self.pos = self.pos + 1;
        }
        if self.pos >= self.input.len() {
            return Err(DecodeJsonError::UnexpectedEndOfInput);
        }
        let c = self.input[self.pos];
        self.pos = self.pos + 1;
        if c == 0x30 {
        } else if 0x31 <= c && c <= 0x39 {
            proof {
                lemma_skip_digits(b, self.pos as int);
            }
            self.skip_digits();
        } else {
            return Err(DecodeJsonError::ExpectedNumber);
        }
        assert(forall|k: int| start <= k < self.pos ==> b[k] < 0x80);
        let ghost q1 = self.pos as int;
        if self.pos < self.input.len() && self.input[self.pos] == 0x2e {
            self.pos = self.pos + 1;
            if self.pos >= self.input.len() {
                return Err(DecodeJsonError::UnexpectedEndOfInput);
            }
            if !(0x30 <= self.input[self.pos] && self.input[self.pos] <= 0x39) {
                return Err(DecodeJsonError::Syntax);
            }
            self.pos = self.pos + 1;
            proof {
                lemma_skip_digits(b, self.pos as int);
            }
            self.skip_digits();
        }
        assert(forall|k: int| start <= k < self.pos ==> b[k] < 0x80);
        let ghost q2 = self.pos as int;
        assert(number_fraction(b, q1) == number_exponent(b, q2));
        if self.pos < self.input.len() && (self.input[self.pos] == 0x65 || self.input[self.pos]
            == 0x45) {
            self.pos = self.pos + 1;
            if self.pos >= self.input.len() {
                return Err(DecodeJsonError::UnexpectedEndOfInput);
            }
            if self.input[self.pos] == 0x2b || self.input[self.pos] == 0x2d {
                self.pos = self.pos + 1;
            }
            if self.pos >= self.input.len() {
                return Err(DecodeJsonError::UnexpectedEndOfInput);
            }
            if !(0x30 <= self.input[self.pos] && self.input[self.pos] <= 0x39) {
                return Err(DecodeJsonError::Syntax);
            }
            self.pos = self.pos + 1;
            proof {
                lemma_skip_digits(b, self.pos as int);
            }
            self.skip_digits();
        }
        assert(forall|k: int| start <= k < self.pos ==> b[k] < 0x80);
        assert(number_end(b, start as int) == Ok::<int, DecodeJsonError>(self.pos as int));
        Ok(())
    }

    // Parses a number that starts at the current position, which holds a
    // minus sign or a digit.
    #[verifier::rlimit(100)]
    fn parse_number(&mut self) -> (r: Result<LegacyF64, DecodeJsonError>)
        requires
            old(self).wf(),
            old(self).pos < old(self).input@.len(),
        ensures
            final(self).wf(),
            final(self).input == old(self).input,
            match parse_number(old(self).input@, old(self).pos as int) {
                Ok((bits, q)) => r matches Ok(f) && f.spec_bits() == bits && final(self).pos == q,
                Err(e) => r == Err::<LegacyF64, DecodeJsonError>(e),
            },
            r is Ok ==> old(self).pos < final(self).pos,
    {
        let ghost b = self.input@;
        let start = self.pos;
        match self.scan_number() {
            Ok(()) => {},
            Err(e) => return Err(e),
        }
        let text = slice_subrange(self.input, start, self.pos);
        let clamped = clamp_exponent_of(text);
        proof {
            lemma_clamp_exponent(text@);
            lemma_ascii_valid(clamped@);
        }
        match utf8_str(clamped.as_slice()) {
            Some(t) => {
                proof {
                    assert(decode_utf8(encode_utf8(t@)) == decode_utf8(clamped@));
                    lemma_exponent_at(clamped@, 0);
                }
                match parse_decimal(t) {
                    Some(bits) => match LegacyF64::from_bits(bits) {
                        Some(f) => Ok(f),
                        None => Err(DecodeJsonError::InvalidNumber),
                    },
                    None => Err(DecodeJsonError::InvalidNumber),
                }
            },
            None => Err(DecodeJsonError::InvalidNumber),
        }
    }

    // Consumes the byte at the current position if it is `c`.
    fn holds_at(&self, p: usize, c: u8) -> (r: bool)
        requires
            self.wf(),
        ensures
            r == (p < self.input@.len() && self.input@[p as int] == c),
    {
        p < self.input.len() && self.input[p] == c
    }

    /// Parses the value that starts at the current position, after optional
    /// whitespace.
    #[verifier::rlimit(100)]
    pub fn parse_value(&mut self) -> (r: Result<Value, DecodeJsonError>)
        requires
            old(self).wf(),
        ensures
            final(self).wf(),
            final(self).spec_input() == old(self).spec_input(),
            match parse(old(self).spec_input(), old(self).spec_pos()) {
                Ok((d, p)) => r matches Ok(v) && v@ == d && final(self).spec_pos() == p,
                Err(e) => r == Err::<Value, DecodeJsonError>(e),
            },
            r is Ok ==> old(self).spec_pos() < final(self).spec_pos(),
            r matches Ok(v) ==> data_wf(v@),
        decreases old(self).spec_input().len() - old(self).spec_pos(),
    {
        let ghost b = self.input@;
        let ghost start = self.pos as int;
        proof {
            reveal(parse);
            lemma_skip_ws(b, start);
        }
        self.skip_ws();
        if self.pos >= self.input.len() {
            return Err(DecodeJsonError::UnexpectedEndOfInput);
        }
        let p = self.pos;
        let t = self.input[p];
        if t == 0x6e {
            if self.holds_at(p + 1, 0x75) && self.holds_at(p + 2, 0x6c) && self.holds_at(p + 3, 0x6c) {
                self.pos = p + 4;
                Ok(Value::Null)
            } else {
                Err(DecodeJsonError::Syntax)
            }
        } else if t == 0x66 {
            if self.holds_at(p + 1, 0x61) && self.holds_at(p + 2, 0x6c) && self.holds_at(p + 3, 0x73)
                && self.holds_at(p + 4, 0x65) {
                self.pos = p + 5;
                Ok(Value::Bool(false))
            } else {
                Err(DecodeJsonError::Syntax)
            }
        } else if t == 0x74 {
            if self.holds_at(p + 1, 0x72) && self.holds_at(p + 2, 0x75) && self.holds_at(p + 3, 0x65) {
                self.pos = p + 4;
                Ok(Value::Bool(true))
            } else {
                Err(DecodeJsonError::Syntax)
            }
        } else if t == 0x22 {
            match self.parse_string() {
                Ok(s) => Ok(Value::String(s)),
                Err(e) => Err(e),
            }
        } else if t == 0x2d || (0x30 <= t && t <= 0x39) {
            match self.parse_number() {
                Ok(f) => Ok(Value::Float(f)),
                Err(e) => Err(e),
            }
        } else if t == 0x5b {
            self.pos = p + 1;
            let mut items: Vec<Value> = Vec::new();
            let mut first = true;
            loop
                invariant
                    self.wf(),
                    self.input == old(self).input,
                    b == old(self).input@,
                    start == old(self).pos,
                    start <= p < self.pos,
                    b[p as int] == 0x5b,
                    skip_ws(b, start) == p,
                    parse_items(b, p + 1, true, Seq::empty()) == parse_items(
                        b,
                        self.pos as int,
                        first,
                        values_data(items@),
                    ),
                    forall|i: int|
                        0 <= i < items@.len() ==> data_wf(#[trigger] values_data(items@)[i]),
                decreases self.input@.len() - self.pos,
            {
                let ghost here = self.pos as int;
                proof {
                    reveal(parse);
                    lemma_skip_ws(b, here);
                }
                self.skip_ws();
                if self.pos >= self.input.len() {
                    return Err(DecodeJsonError::UnexpectedEndOfInput);
                }
                if self.input[self.pos] == 0x5d {
                    self.pos = self.pos + 1;
                    proof {
                        lemma_values_data(items@);
                    }
                    return Ok(Value::Array(items));
                }
                if !first {
                    if self.input[self.pos] != 0x2c {
                        return Err(DecodeJsonError::Syntax);
                    }
                    self.pos = self.pos + 1;
                }
                proof {
                    lemma_skip_ws(b, self.pos as int);
                }
                self.skip_ws();
                if self.pos >= self.input.len() {
                    return Err(DecodeJsonError::UnexpectedEndOfInput);
                }
                match self.parse_value() {
                    Ok(v) => {
                        proof {
                            lemma_values_data(items@);
                        }
                        let ghost old_items = items@;
                        items.push(v);
                        first = false;
                        proof {
                            lemma_values_data(items@);
                            assert(items@.drop_last() =~= old_items);
                            assert(values_data(items@) =~= values_data(old_items).push(v@));
                        }
                    },
                    Err(e) => return Err(e),
                }
            }
        } else if t == 0x7b {
            self.pos = p + 1;
            let mut entries: Vec<(String, Value)> = Vec::new();
            let mut first = true;
            loop
                invariant
                    self.wf(),
                    self.input == old(self).input,
                    b == old(self).input@,
                    start == old(self).pos,
                    start <= p < self.pos,
                    b[p as int] == 0x7b,
                    skip_ws(b, start) == p,
                    parse_entries(b, p + 1, true, Seq::empty()) == parse_entries(
                        b,
                        self.pos as int,
                        first,
                        entries_data(entries@),
                    ),
                    keys_distinct(entries_data(entries@)),
                    forall|i: int|
                        0 <= i < entries@.len() ==> data_wf(#[trigger] entries_data(entries@)[i].1),
                decreases self.input@.len() - self.pos,
            {
                let ghost here = self.pos as int;
                proof {
                    reveal(parse);
                    lemma_skip_ws(b, here);
                }
                self.skip_ws();
                if self.pos >= self.input.len() {
                    return Err(DecodeJsonError::UnexpectedEndOfInput);
                }
                if self.input[self.pos] == 0x7d {
                    self.pos = self.pos + 1;
                    proof {
                        lemma_entries_data(entries@);
                    }
                    return Ok(Value::Object(entries));
                }
                if !first {
                    if self.input[self.pos] != 0x2c {
                        return Err(DecodeJsonError::Syntax);
                    }
                    self.pos = self.pos + 1;
                }
                proof {
                    lemma_skip_ws(b, self.pos as int);
                }
                self.skip_ws();
                if self.pos >= self.input.len() {
                    return Err(DecodeJsonError::UnexpectedEndOfInput);
                }
                let ghost p3 = self.pos as int;
                let key = match self.parse_string() {
                    Ok(key) => key,
                    Err(e) => return Err(e),
                };
                if entries.has_key(&key) {
                    return Err(DecodeJsonError::DuplicateKey);
                }
                proof {
                    lemma_skip_ws(b, self.pos as int);
                }
                self.skip_ws();
                if self.pos >= self.input.len() {
                    return Err(DecodeJsonError::UnexpectedEndOfInput);
                }
                if self.input[self.pos] != 0x3a {
                    return Err(DecodeJsonError::Syntax);
                }
                self.pos = self.pos + 1;
                proof {
                    lemma_skip_ws(b, self.pos as int);
                }
                self.skip_ws();
                if self.pos >= self.input.len() {
                    return Err(DecodeJsonError::UnexpectedEndOfInput);
                }
                match self.parse_value() {
                    Ok(v) => {
                        proof {
                            lemma_entries_data(entries@);
                        }
                        let ghost old_entries = entries@;
                        entries.push((key, v));
                        first = false;
                        proof {
                            lemma_entries_data(entries@);
                            assert(entries@.drop_last() =~= old_entries);
                            let od = entries_data(old_entries);
                            let nd = entries_data(entries@);
                            assert(nd =~= od.push((key@, v@)));
                            assert forall|i: int, j: int|
                                0 <= i < nd.len() && 0 <= j < nd.len() && i != j implies nd[i].0
                                != nd[j].0 by {
                                if i == od.len() {
                                    assert(keys_of(od)[j] == od[j].0);
                                } else if j == od.len() {
                                    assert(keys_of(od)[i] == od[i].0);
                                }
                            }
                        }
                    },
                    Err(e) => return Err(e),
                }
            }
        } else {
            Err(DecodeJsonError::Syntax)
        }
    }
}

/// Decodes a value from the textual encoding. Only whitespace may follow the
/// value.
pub fn from_slice(input: &[u8]) -> (r: Result<Value, DecodeJsonError>)
    ensures
        match decode(input@) {
            Ok(d) => r matches Ok(v) && v@ == d,
            Err(e) => r == Err::<Value, DecodeJsonError>(e),
        },
        r matches Ok(v) ==> data_wf(v@),
{
    let mut de = JsonDeserializer::from_slice(input);
    match de.parse_value() {
        Ok(v) => match de.end() {
            Ok(()) => Ok(v),
            Err(e) => Err(e),
        },
        Err(e) => Err(e),
    }
}



/// Decodes a value from the textual encoding, with every object's entries in
/// canonical order. This is the form to re-encode for signature checking.
pub fn from_slice_ordered(input: &[u8]) -> (r: Result<ValueOrdered, DecodeJsonError>)
    ensures
        match decode(input@) {
            Ok(d) => r matches Ok(v) && v@ == canonical(d),
            Err(e) => r == Err::<ValueOrdered, DecodeJsonError>(e),
        },
        r matches Ok(v) ==> data_wf(v@),
{
    match from_slice(input) {
        Ok(v) => {
            proof {
                crate::ordered::lemma_canonical_wf(v@);
            }
            Ok(ValueOrdered::from_value(&v))
        },
        Err(e) => Err(e),
    }
}

/// Serializes an ordered value into the textual encoding, its objects' entries
/// in iteration order: compact if `compact`, the signing form otherwise.
pub fn to_vec_ordered(v: &ValueOrdered, compact: bool, numbers: &Vec<(u64, String)>) -> (r: Vec<
    u8,
>)
    requires
        depth(v@) <= usize::MAX,
        data_wf(v@),
        numbers_cover(v@, numbers@),
    ensures
        r@ == json_of(v@, compact, 0, numbers@),
{
    let plain = v.to_value();
    to_vec(&plain, compact, numbers)
}

// ---------------------------------------------------------------------------
// Decoding undoes encoding.

proof fn lemma_escape_concat(x: Seq<u8>, y: Seq<u8>)
    ensures
        escape_all(x + y) == escape_all(x) + escape_all(y),
    decreases y.len(),
{
    if y.len() == 0 {
        assert(x + y =~= x);
        assert(escape_all(x) + escape_all(y) =~= escape_all(x));
    } else {
        lemma_escape_concat(x, y.drop_last());
        assert((x + y).drop_last() =~= x + y.drop_last());
        assert((x + y).last() == y.last());
        assert(escape_all(x + y) =~= escape_all(x) + escape_all(y));
    }
}

proof fn lemma_escape_high(x: Seq<u8>)
    requires
        forall|i: int| 0 <= i < x.len() ==> x[i] >= 0x80,
    ensures
        escape_all(x) == x,
    decreases x.len(),
{
    if x.len() > 0 {
        lemma_escape_high(x.drop_last());
        assert(escape_all(x) =~= x);
    }
}

/// How one character is written inside a string literal.
pub open spec fn escaped_char(c: char) -> Seq<u8> {
    escape_all(encode_scalar(c as u32))
}

proof fn lemma_escaped_utf8(s: Seq<char>)
    requires
        s.len() > 0,
    ensures
        escape_all(encode_utf8(s)) == escaped_char(s[0]) + escape_all(encode_utf8(s.drop_first())),
{
    lemma_escape_concat(encode_scalar(s[0] as u32), encode_utf8(s.drop_first()));
}

proof fn lemma_scalar_prefix(rest: Seq<u8>, c: char)
    requires
        rest.len() >= encode_scalar(c as u32).len(),
        forall|i: int| 0 <= i < encode_scalar(c as u32).len() ==> rest[i] == encode_scalar(c as u32)[i],
    ensures
        valid_first_scalar(rest),
        decode_first_scalar(rest) == c as u32,
        length_of_first_scalar(rest) == encode_scalar(c as u32).len(),
{
    let e = encode_utf8(seq![c]);
    vstd::utf8::encode_utf8_first_scalar(seq![c]);
    assert(seq![c].drop_first() =~= Seq::<char>::empty());
    assert(seq![c][0] == c);
    assert(encode_utf8(Seq::<char>::empty()) =~= Seq::<u8>::empty());
    assert(e =~= encode_scalar(c as u32));
}

#[verifier::rlimit(100)]
#[verifier::spinoff_prover]
proof fn lemma_char_ascii(b: Seq<u8>, pos: int, c: char, acc: Seq<char>)
    requires
        (c as u32) < 0x80,
        holds_at(b, pos, escaped_char(c)),
        pos + escaped_char(c).len() < b.len(),
    ensures
        escaped_char(c).len() >= 1,
        string_body(b, pos, acc) == string_body(b, pos + escaped_char(c).len(), acc.push(c)),
{
    let v = c as u32;
    let e = encode_scalar(v);
    let x = escaped_char(c);
    vstd::utf8::char_u32_cast(c, v);
    let y = (v & 0x7f) as u8;
    assert(((v & 0x7f) as u8) as u32 == v) by (bit_vector)
        requires
            v < 0x80,
    ;
    assert(e == seq![y]);
    assert(e.drop_last() =~= Seq::<u8>::empty());
    assert(escape_all(e.drop_last()) =~= Seq::<u8>::empty());
    assert(e.last() == y);
    assert(escape_all(e) =~= escape_byte(y));
    lemma_holds_index(b, pos, x, 0);
    if y == 0x22 || y == 0x5c || y == 0x08 || y == 0x0c || y == 0x0a || y == 0x0d || y == 0x09 {
        lemma_holds_index(b, pos, x, 1);
        assert((y as char) as u32 == y as u32);
        vstd::utf8::char_u32_cast(y as char, y as u32);
    } else if y < 0x20 {
        lemma_holds_index(b, pos, x, 1);
        lemma_holds_index(b, pos, x, 2);
        lemma_holds_index(b, pos, x, 3);
        lemma_holds_index(b, pos, x, 4);
        lemma_holds_index(b, pos, x, 5);
        assert(hex4(b, pos + 2) == Some(y as nat));
    } else {
        let rest = b.subrange(pos, b.len() as int);
        assert(rest[0] == y);
        lemma_scalar_prefix(rest, c);
    }
}

#[verifier::rlimit(100)]
#[verifier::spinoff_prover]
proof fn lemma_char_high(b: Seq<u8>, pos: int, c: char, acc: Seq<char>)
    requires
        (c as u32) >= 0x80,
        holds_at(b, pos, escaped_char(c)),
        pos + escaped_char(c).len() < b.len(),
    ensures
        escaped_char(c).len() >= 1,
        string_body(b, pos, acc) == string_body(b, pos + escaped_char(c).len(), acc.push(c)),
{
    let v = c as u32;
    let e = encode_scalar(v);
    let x = escaped_char(c);
    vstd::utf8::char_u32_cast(c, v);
    assert(forall|i: int| 0 <= i < e.len() ==> e[i] >= 0x80) by {
        assert((0xc0 | ((v >> 6) & 0x1f) as u8) >= 0x80) by (bit_vector);
        assert((0xe0 | ((v >> 12) & 0x0f) as u8) >= 0x80) by (bit_vector);
        assert((0xf0 | ((v >> 18) & 0x7) as u8) >= 0x80) by (bit_vector);
        assert((0x80 | (v & 0x3f) as u8) >= 0x80) by (bit_vector);
        assert((0x80 | ((v >> 6) & 0x3f) as u8) >= 0x80) by (bit_vector);
        assert((0x80 | ((v >> 12) & 0x3f) as u8) >= 0x80) by (bit_vector);
    }
    lemma_escape_high(e);
    let rest = b.subrange(pos, b.len() as int);
    assert forall|i: int| 0 <= i < e.len() implies rest[i] == e[i] by {
        lemma_holds_index(b, pos, x, i);
    }
    lemma_scalar_prefix(rest, c);
    lemma_holds_index(b, pos, x, 0);
}

proof fn lemma_char_body(b: Seq<u8>, pos: int, c: char, acc: Seq<char>)
    requires
        holds_at(b, pos, escaped_char(c)),
        pos + escaped_char(c).len() < b.len(),
    ensures
        escaped_char(c).len() >= 1,
        string_body(b, pos, acc) == string_body(b, pos + escaped_char(c).len(), acc.push(c)),
{
    if (c as u32) < 0x80 {
        lemma_char_ascii(b, pos, c, acc);
    } else {
        lemma_char_high(b, pos, c, acc);
    }
}

proof fn lemma_string_body(b: Seq<u8>, pos: int, s: Seq<char>, acc: Seq<char>)
    requires
        holds_at(b, pos, escape_all(encode_utf8(s)) + seq![0x22u8]),
    ensures
        string_body(b, pos, acc) == Ok::<(Seq<char>, int), DecodeJsonError>(
            (acc + s, pos + escape_all(encode_utf8(s)).len() + 1),
        ),
    decreases s.len(),
{
    let x = escape_all(encode_utf8(s));
    if s.len() == 0 {
        assert(x =~= Seq::<u8>::empty());
        lemma_holds_index(b, pos, x + seq![0x22u8], 0);
        assert(acc + s =~= acc);
    } else {
        lemma_escaped_utf8(s);
        let xc = escaped_char(s[0]);
        let xr = escape_all(encode_utf8(s.drop_first()));
        assert(x + seq![0x22u8] =~= xc + (xr + seq![0x22u8]));
        lemma_holds_split(b, pos, xc, xr + seq![0x22u8]);
        lemma_char_body(b, pos, s[0], acc);
        lemma_string_body(b, pos + xc.len(), s.drop_first(), acc.push(s[0]));
        assert(acc.push(s[0]) + s.drop_first() =~= acc + s);
    }
}

/// Parsing a string literal that the encoder wrote gives the string back.
proof fn lemma_string_parse(b: Seq<u8>, pos: int, s: Seq<char>)
    requires
        holds_at(b, pos, string_json(s)),
    ensures
        parse_string(b, pos) == Ok::<(Seq<char>, int), DecodeJsonError>(
            (s, pos + string_json(s).len()),
        ),
{
    let x = escape_all(encode_utf8(s));
    assert(string_json(s) =~= seq![0x22u8] + (x + seq![0x22u8]));
    lemma_holds_split(b, pos, seq![0x22u8], x + seq![0x22u8]);
    lemma_holds_index(b, pos, seq![0x22u8], 0);
    lemma_string_body(b, pos + 1, s, Seq::empty());
    assert(Seq::<char>::empty() + s =~= s);
}

/// Whether `t` is a well-formed number token that the decimal routine reads
/// as the float with these bits.
pub open spec fn number_reads_back(t: Seq<u8>, bits: u64) -> bool {
    &&& t.len() > 0
    &&& (t[0] == 0x2d || is_digit(t[0]))
    &&& number_end(t, 0) == Ok::<int, DecodeJsonError>(t.len() as int)
    &&& decimal_bits(decode_utf8(clamp_exponent(t))) == Some(bits)
}

/// Whether every float of a value has, in `numbers`, a text that reads back
/// as that float.
pub open spec fn numbers_read_back(d: Data, numbers: Seq<(u64, String)>) -> bool
    decreases d,
{
    match d {
        Data::Float(bits) => number_reads_back(number_text(numbers, bits), bits),
        Data::Array(items) => items_read_back(items, numbers),
        Data::Object(entries) => entries_read_back(entries, numbers),
        _ => true,
    }
}

/// Whether every float of some values reads back.
pub open spec fn items_read_back(items: Seq<Data>, numbers: Seq<(u64, String)>) -> bool
    decreases items,
{
    items.len() > 0 ==> numbers_read_back(items.last(), numbers) && items_read_back(
        items.drop_last(),
        numbers,
    )
}

/// Whether every float of the values of some entries reads back.
pub open spec fn entries_read_back(
    entries: Seq<(Seq<char>, Data)>,
    numbers: Seq<(u64, String)>,
) -> bool
    decreases entries,
{
    entries.len() > 0 ==> numbers_read_back(entries.last().1, numbers) && entries_read_back(
        entries.drop_last(),
        numbers,
    )
}

proof fn lemma_items_read_back(items: Seq<Data>, numbers: Seq<(u64, String)>)
    requires
        items_read_back(items, numbers),
        items.len() > 0,
    ensures
        numbers_read_back(items[0], numbers),
        items_read_back(items.drop_first(), numbers),
    decreases items.len(),
{
    if items.len() > 1 {
        lemma_items_read_back(items.drop_last(), numbers);
        assert(items.drop_first().drop_last() =~= items.drop_last().drop_first());
        assert(items.drop_first().last() == items.last());
    } else {
        assert(items.drop_first() =~= Seq::<Data>::empty());
        assert(items.last() == items[0]);
    }
}

proof fn lemma_entries_read_back(entries: Seq<(Seq<char>, Data)>, numbers: Seq<(u64, String)>)
    requires
        entries_read_back(entries, numbers),
        entries.len() > 0,
    ensures
        numbers_read_back(entries[0].1, numbers),
        entries_read_back(entries.drop_first(), numbers),
    decreases entries.len(),
{
    if entries.len() > 1 {
        lemma_entries_read_back(entries.drop_last(), numbers);
        assert(entries.drop_first().drop_last() =~= entries.drop_last().drop_first());
        assert(entries.drop_first().last() == entries.last());
    } else {
        assert(entries.drop_first() =~= Seq::<(Seq<char>, Data)>::empty());
        assert(entries.last() == entries[0]);
    }
}

/// Whether the byte at `q`, if any, cannot continue a number.
pub open spec fn number_stops(b: Seq<u8>, q: int) -> bool {
    q == b.len() || (q < b.len() && !is_digit(b[q]) && b[q] != 0x2e && b[q] != 0x65 && b[q] != 0x45)
}

proof fn lemma_skip_digits_shift(b: Seq<u8>, p: int, t: Seq<u8>, j: int)
    requires
        holds_at(b, p, t),
        0 <= j <= t.len(),
        number_stops(b, p + t.len()),
    ensures
        skip_digits(b, p + j) == p + skip_digits(t, j),
    decreases t.len() - j,
{
    if j < t.len() {
        lemma_holds_index(b, p, t, j);
        if is_digit(t[j]) {
            lemma_skip_digits_shift(b, p, t, j + 1);
        }
    }
}

#[verifier::rlimit(100)]
#[verifier::spinoff_prover]
proof fn lemma_number_shift(b: Seq<u8>, p: int, t: Seq<u8>, bits: u64)
    requires
        holds_at(b, p, t),
        number_reads_back(t, bits),
        is_valid_bits(bits),
        number_stops(b, p + t.len()),
    ensures
        b[p] == t[0],
        parse_number(b, p) == Ok::<(u64, int), DecodeJsonError>((bits, p + t.len())),
{
    let n = t.len() as int;
    assert forall|j: int| 0 <= j < n implies b[p + j] == t[j] by {
        lemma_holds_index(b, p, t, j);
    }
    let q = if t[0] == 0x2d {
        1int
    } else {
        0int
    };
    lemma_skip_digits(t, q + 1);
    lemma_skip_digits_shift(b, p, t, q + 1);
    let a = if t[q] == 0x30 {
        q + 1
    } else {
        skip_digits(t, q + 1)
    };
    if 0 <= a < n && t[a] == 0x2e {
        lemma_skip_digits(t, a + 2);
        lemma_skip_digits_shift(b, p, t, a + 2);
        let c = skip_digits(t, a + 2);
        if 0 <= c < n && (t[c] == 0x65 || t[c] == 0x45) {
            let r = if t[c + 1] == 0x2b || t[c + 1] == 0x2d {
                c + 2
            } else {
                c + 1
            };
            lemma_skip_digits(t, r + 1);
            lemma_skip_digits_shift(b, p, t, r + 1);
        }
    } else if 0 <= a < n && (t[a] == 0x65 || t[a] == 0x45) {
        let r = if t[a + 1] == 0x2b || t[a + 1] == 0x2d {
            a + 2
        } else {
            a + 1
        };
        lemma_skip_digits(t, r + 1);
        lemma_skip_digits_shift(b, p, t, r + 1);
    }
    assert(number_end(b, p) == Ok::<int, DecodeJsonError>(p + n));
    assert(b.subrange(p, p + n) == t);
}

/// The elements of an array after the first, each after a comma.
pub open spec fn items_tail(
    items: Seq<Data>,
    compact: bool,
    level: nat,
    numbers: Seq<(u64, String)>,
) -> Seq<u8>
    decreases items.len(),
{
    if items.len() == 0 {
        Seq::empty()
    } else {
        items_tail(items.drop_last(), compact, level, numbers) + seq![0x2cu8] + newline_indent(
            compact,
            level,
        ) + json_of(items.last(), compact, level, numbers)
    }
}

/// One object entry on its line.
pub open spec fn entry_json(
    e: (Seq<char>, Data),
    compact: bool,
    level: nat,
    numbers: Seq<(u64, String)>,
) -> Seq<u8> {
    newline_indent(compact, level) + string_json(e.0) + colon(compact) + json_of(
        e.1,
        compact,
        level,
        numbers,
    )
}

/// The entries of an object after the first, each after a comma.
pub open spec fn entries_tail(
    entries: Seq<(Seq<char>, Data)>,
    compact: bool,
    level: nat,
    numbers: Seq<(u64, String)>,
) -> Seq<u8>
    decreases entries.len(),
{
    if entries.len() == 0 {
        Seq::empty()
    } else {
        entries_tail(entries.drop_last(), compact, level, numbers) + seq![0x2cu8] + entry_json(
            entries.last(),
            compact,
            level,
            numbers,
        )
    }
}

#[verifier::rlimit(100)]
#[verifier::spinoff_prover]
proof fn lemma_items_json_front(items: Seq<Data>, compact: bool, level: nat, numbers: Seq<(u64, String)>)
    requires
        items.len() > 0,
    ensures
        items_json(items, compact, level, numbers) == newline_indent(compact, level) + json_of(
            items[0],
            compact,
            level,
            numbers,
        ) + items_tail(items.drop_first(), compact, level, numbers),
    decreases items.len(),
{
    if items.len() == 1 {
        assert(items.drop_last() =~= Seq::<Data>::empty());
        assert(items.drop_first() =~= Seq::<Data>::empty());
        assert(items.last() == items[0]);
        assert(items_json(Seq::<Data>::empty(), compact, level, numbers) =~= Seq::<u8>::empty());
        assert(items_tail(Seq::<Data>::empty(), compact, level, numbers) =~= Seq::<u8>::empty());
        assert(items_json(items, compact, level, numbers) == items_json(
            items.drop_last(),
            compact,
            level,
            numbers,
        ) + Seq::<u8>::empty() + newline_indent(compact, level) + json_of(
            items.last(),
            compact,
            level,
            numbers,
        ));
    } else {
        lemma_items_json_front(items.drop_last(), compact, level, numbers);
        assert(items.drop_last().drop_first() =~= items.drop_first().drop_last());
        assert(items.drop_first().last() == items.last());
        assert(items.drop_last()[0] == items[0]);
        assert(items_json(items, compact, level, numbers) == items_json(
            items.drop_last(),
            compact,
            level,
            numbers,
        ) + seq![0x2cu8] + newline_indent(compact, level) + json_of(
            items.last(),
            compact,
            level,
            numbers,
        ));
        assert(items_tail(items.drop_first(), compact, level, numbers) == items_tail(
            items.drop_last().drop_first(),
            compact,
            level,
            numbers,
        ) + seq![0x2cu8] + newline_indent(compact, level) + json_of(
            items.last(),
            compact,
            level,
            numbers,
        ));
    }
    assert(items_json(items, compact, level, numbers) =~= newline_indent(compact, level) + json_of(
        items[0],
        compact,
        level,
        numbers,
    ) + items_tail(items.drop_first(), compact, level, numbers));
}

#[verifier::rlimit(100)]
#[verifier::spinoff_prover]
proof fn lemma_items_tail_front(items: Seq<Data>, compact: bool, level: nat, numbers: Seq<(u64, String)>)
    requires
        items.len() > 0,
    ensures
        items_tail(items, compact, level, numbers) == seq![0x2cu8] + newline_indent(compact, level)
            + json_of(items[0], compact, level, numbers) + items_tail(
            items.drop_first(),
            compact,
            level,
            numbers,
        ),
    decreases items.len(),
{
    if items.len() == 1 {
        assert(items.drop_last() =~= Seq::<Data>::empty());
        assert(items.drop_first() =~= Seq::<Data>::empty());
        assert(items.last() == items[0]);
    } else {
        lemma_items_tail_front(items.drop_last(), compact, level, numbers);
        assert(items.drop_last().drop_first() =~= items.drop_first().drop_last());
        assert(items.drop_first().last() == items.last());
        assert(items.drop_last()[0] == items[0]);
    }
    assert(items_tail(items, compact, level, numbers) =~= seq![0x2cu8] + newline_indent(
        compact,
        level,
    ) + json_of(items[0], compact, level, numbers) + items_tail(
        items.drop_first(),
        compact,
        level,
        numbers,
    ));
}

#[verifier::rlimit(100)]
#[verifier::spinoff_prover]
proof fn lemma_entries_json_front(
    entries: Seq<(Seq<char>, Data)>,
    compact: bool,
    level: nat,
    numbers: Seq<(u64, String)>,
)
    requires
        entries.len() > 0,
    ensures
        entries_json(entries, compact, level, numbers) == entry_json(
            entries[0],
            compact,
            level,
            numbers,
        ) + entries_tail(entries.drop_first(), compact, level, numbers),
    decreases entries.len(),
{
    if entries.len() == 1 {
        assert(entries.drop_last() =~= Seq::<(Seq<char>, Data)>::empty());
        assert(entries.drop_first() =~= Seq::<(Seq<char>, Data)>::empty());
        assert(entries.last() == entries[0]);
    } else {
        lemma_entries_json_front(entries.drop_last(), compact, level, numbers);
        assert(entries.drop_last().drop_first() =~= entries.drop_first().drop_last());
        assert(entries.drop_first().last() == entries.last());
        assert(entries.drop_last()[0] == entries[0]);
        assert(entries_json(entries, compact, level, numbers) == entries_json(
            entries.drop_last(),
            compact,
            level,
            numbers,
        ) + seq![0x2cu8] + entry_json(entries.last(), compact, level, numbers));
        assert(entries_tail(entries.drop_first(), compact, level, numbers) == entries_tail(
            entries.drop_last().drop_first(),
            compact,
            level,
            numbers,
        ) + seq![0x2cu8] + entry_json(entries.last(), compact, level, numbers));
    }
    assert(entries_json(entries, compact, level, numbers) =~= entry_json(
        entries[0],
        compact,
        level,
        numbers,
    ) + entries_tail(entries.drop_first(), compact, level, numbers));
}

#[verifier::rlimit(100)]
#[verifier::spinoff_prover]
proof fn lemma_entries_tail_front(
    entries: Seq<(Seq<char>, Data)>,
    compact: bool,
    level: nat,
    numbers: Seq<(u64, String)>,
)
    requires
        entries.len() > 0,
    ensures
        entries_tail(entries, compact, level, numbers) == seq![0x2cu8] + entry_json(
            entries[0],
            compact,
            level,
            numbers,
        ) + entries_tail(entries.drop_first(), compact, level, numbers),
    decreases entries.len(),
{
    if entries.len() == 1 {
        assert(entries.drop_last() =~= Seq::<(Seq<char>, Data)>::empty());
        assert(entries.drop_first() =~= Seq::<(Seq<char>, Data)>::empty());
        assert(entries.last() == entries[0]);
    } else {
        lemma_entries_tail_front(entries.drop_last(), compact, level, numbers);
        assert(entries.drop_last().drop_first() =~= entries.drop_first().drop_last());
        assert(entries.drop_first().last() == entries.last());
        assert(entries.drop_last()[0] == entries[0]);
    }
    assert(entries_tail(entries, compact, level, numbers) =~= seq![0x2cu8] + entry_json(
        entries[0],
        compact,
        level,
        numbers,
    ) + entries_tail(entries.drop_first(), compact, level, numbers));
}

proof fn lemma_skip_ws_run(b: Seq<u8>, p: int, w: Seq<u8>)
    requires
        holds_at(b, p, w),
        forall|i: int| 0 <= i < w.len() ==> is_ws(#[trigger] w[i]),
        p + w.len() < b.len(),
        !is_ws(b[p + w.len()]),
    ensures
        skip_ws(b, p) == p + w.len(),
    decreases w.len(),
{
    if w.len() > 0 {
        lemma_holds_index(b, p, w, 0);
        assert(w =~= seq![w[0]] + w.drop_first());
        lemma_holds_split(b, p, seq![w[0]], w.drop_first());
        lemma_skip_ws_run(b, p + 1, w.drop_first());
    }
}

proof fn lemma_newline_ws(compact: bool, level: nat)
    ensures
        forall|i: int|
            0 <= i < newline_indent(compact, level).len() ==> is_ws(
                #[trigger] newline_indent(compact, level)[i],
            ),
        !compact ==> newline_indent(compact, level).len() > 0 && newline_indent(compact, level)[0]
            == 0x0a,
        compact ==> newline_indent(compact, level).len() == 0,
{
}

/// Whether the byte at `q`, if any, may follow a value.
pub open spec fn value_stops(b: Seq<u8>, q: int) -> bool {
    q == b.len() || (q < b.len() && (b[q] == 0x2c || b[q] == 0x5d || b[q] == 0x7d || b[q] == 0x0a))
}

proof fn lemma_json_first(d: Data, compact: bool, level: nat, numbers: Seq<(u64, String)>)
    requires
        numbers_read_back(d, numbers),
    ensures
        json_of(d, compact, level, numbers).len() > 0,
        !is_ws(json_of(d, compact, level, numbers)[0]),
        json_of(d, compact, level, numbers)[0] != 0x5d,
        json_of(d, compact, level, numbers)[0] != 0x7d,
{
}

#[verifier::rlimit(100)]
#[verifier::spinoff_prover]
proof fn lemma_parse_scalar(
    b: Seq<u8>,
    pos: int,
    d: Data,
    compact: bool,
    level: nat,
    numbers: Seq<(u64, String)>,
)
    requires
        d is Null || d is Bool || d is Float || d is Str,
        data_wf(d),
        numbers_read_back(d, numbers),
        holds_at(b, pos, json_of(d, compact, level, numbers)),
        value_stops(b, pos + json_of(d, compact, level, numbers).len()),
    ensures
        parse(b, pos) == Ok::<(Data, int), DecodeJsonError>(
            (d, pos + json_of(d, compact, level, numbers).len()),
        ),
{
    reveal(parse);
    let e = json_of(d, compact, level, numbers);
    lemma_json_first(d, compact, level, numbers);
    lemma_holds_index(b, pos, e, 0);
    assert(skip_ws(b, pos) == pos);
    match d {
        Data::Null => {
            lemma_holds_index(b, pos, e, 1);
            lemma_holds_index(b, pos, e, 2);
            lemma_holds_index(b, pos, e, 3);
        },
        Data::Bool(v) => {
            lemma_holds_index(b, pos, e, 1);
            lemma_holds_index(b, pos, e, 2);
            lemma_holds_index(b, pos, e, 3);
            if !v {
                lemma_holds_index(b, pos, e, 4);
            }
        },
        Data::Float(bits) => {
            lemma_number_shift(b, pos, number_text(numbers, bits), bits);
        },
        Data::Str(s) => {
            lemma_string_parse(b, pos, s);
        },
        _ => {},
    }
}

proof fn lemma_parse_json(b: Seq<u8>, pos: int, d: Data, compact: bool, level: nat, numbers: Seq<(u64, String)>)
    requires
        data_wf(d),
        numbers_read_back(d, numbers),
        holds_at(b, pos, json_of(d, compact, level, numbers)),
        value_stops(b, pos + json_of(d, compact, level, numbers).len()),
    ensures
        parse(b, pos) == Ok::<(Data, int), DecodeJsonError>(
            (d, pos + json_of(d, compact, level, numbers).len()),
        ),
    decreases d, 0int,
{
    match d {
        Data::Array(items) => {
            assert(decreases_to!(d => d->Array_0));
            lemma_parse_array(b, pos, items, compact, level, numbers);
        },
        Data::Object(entries) => {
            assert(decreases_to!(d => d->Object_0));
            lemma_parse_object(b, pos, entries, compact, level, numbers);
        },
        _ => {
            lemma_parse_scalar(b, pos, d, compact, level, numbers);
        },
    }
}

#[verifier::rlimit(100)]
#[verifier::spinoff_prover]
proof fn lemma_parse_array(
    b: Seq<u8>,
    pos: int,
    items: Seq<Data>,
    compact: bool,
    level: nat,
    numbers: Seq<(u64, String)>,
)
    requires
        data_wf(Data::Array(items)),
        numbers_read_back(Data::Array(items), numbers),
        holds_at(b, pos, json_of(Data::Array(items), compact, level, numbers)),
        value_stops(b, pos + json_of(Data::Array(items), compact, level, numbers).len()),
    ensures
        parse(b, pos) == Ok::<(Data, int), DecodeJsonError>(
            (Data::Array(items), pos + json_of(Data::Array(items), compact, level, numbers).len()),
        ),
    decreases items, 3int,
{
    reveal(parse);
    let d = Data::Array(items);
    let e = json_of(d, compact, level, numbers);
    lemma_holds_index(b, pos, e, 0);
    assert(skip_ws(b, pos) == pos);
    lemma_holds_index(b, pos, e, 1);
    if items.len() > 0 {
        let x = items_json(items, compact, level + 1, numbers);
        let cl = newline_indent(compact, level) + seq![0x5du8];
        assert(e =~= seq![0x5bu8] + (x + cl));
        lemma_holds_split(b, pos, seq![0x5bu8], x + cl);
        lemma_wf_items(items);
        lemma_parse_items(b, pos + 1, items, true, Seq::empty(), compact, level, numbers);
        assert(Seq::<Data>::empty() + items =~= items);
    } else {
        assert(skip_ws(b, pos + 1) == pos + 1);
        assert(Seq::<Data>::empty() =~= items);
    }
}

#[verifier::rlimit(100)]
#[verifier::spinoff_prover]
proof fn lemma_parse_object(
    b: Seq<u8>,
    pos: int,
    entries: Seq<(Seq<char>, Data)>,
    compact: bool,
    level: nat,
    numbers: Seq<(u64, String)>,
)
    requires
        data_wf(Data::Object(entries)),
        numbers_read_back(Data::Object(entries), numbers),
        holds_at(b, pos, json_of(Data::Object(entries), compact, level, numbers)),
        value_stops(b, pos + json_of(Data::Object(entries), compact, level, numbers).len()),
    ensures
        parse(b, pos) == Ok::<(Data, int), DecodeJsonError>(
            (
                Data::Object(entries),
                pos + json_of(Data::Object(entries), compact, level, numbers).len(),
            ),
        ),
    decreases entries, 3int,
{
    reveal(parse);
    let d = Data::Object(entries);
    let e = json_of(d, compact, level, numbers);
    lemma_holds_index(b, pos, e, 0);
    assert(skip_ws(b, pos) == pos);
    lemma_holds_index(b, pos, e, 1);
    if entries.len() > 0 {
        let x = entries_json(entries, compact, level + 1, numbers);
        let cl = newline_indent(compact, level) + seq![0x7du8];
        assert(e =~= seq![0x7bu8] + (x + cl));
        lemma_holds_split(b, pos, seq![0x7bu8], x + cl);
        lemma_wf_entries(entries);
        assert(Seq::<(Seq<char>, Data)>::empty() + entries =~= entries);
        lemma_parse_entries(b, pos + 1, entries, true, Seq::empty(), compact, level, numbers);
    } else {
        assert(skip_ws(b, pos + 1) == pos + 1);
        assert(Seq::<(Seq<char>, Data)>::empty() =~= entries);
    }
}

proof fn lemma_wf_items(items: Seq<Data>)
    requires
        data_wf(Data::Array(items)),
    ensures
        forall|i: int| 0 <= i < items.len() ==> data_wf(#[trigger] items[i]),
{
    assert forall|i: int| 0 <= i < items.len() implies data_wf(#[trigger] items[i]) by {
        crate::value::lemma_wf_item(items, i);
    }
}

proof fn lemma_wf_entries(entries: Seq<(Seq<char>, Data)>)
    requires
        data_wf(Data::Object(entries)),
    ensures
        keys_distinct(entries),
        forall|i: int| 0 <= i < entries.len() ==> data_wf(#[trigger] entries[i].1),
{
    if entries.len() > 0 {
        crate::value::lemma_wf_entry(entries, 0);
    }
    assert forall|i: int| 0 <= i < entries.len() implies data_wf(#[trigger] entries[i].1) by {
        crate::value::lemma_wf_entry(entries, i);
    }
}

proof fn lemma_items_unfold(
    b: Seq<u8>,
    p: int,
    first: bool,
    acc: Seq<Data>,
    p2: int,
    p3: int,
    d0: Data,
    q: int,
)
    requires
        0 <= p <= skip_ws(b, p) < b.len(),
        b[skip_ws(b, p)] != 0x5d,
        after_separator(b, skip_ws(b, p), first) == Ok::<int, DecodeJsonError>(p2),
        skip_ws(b, p2) == p3,
        p2 <= p3 < b.len(),
        parse(b, p3) == Ok::<(Data, int), DecodeJsonError>((d0, q)),
        advanced(p, q, b.len() as int),
    ensures
        parse_items(b, p, first, acc) == parse_items(b, q, false, acc.push(d0)),
{
    reveal(parse);
}

proof fn lemma_entries_unfold(
    b: Seq<u8>,
    p: int,
    first: bool,
    acc: Seq<(Seq<char>, Data)>,
    p2: int,
    p3: int,
    k: Seq<char>,
    p4: int,
    p5: int,
    p6: int,
    d0: Data,
    q: int,
)
    requires
        0 <= p <= skip_ws(b, p) < b.len(),
        b[skip_ws(b, p)] != 0x7d,
        after_separator(b, skip_ws(b, p), first) == Ok::<int, DecodeJsonError>(p2),
        skip_ws(b, p2) == p3,
        p2 <= p3 < b.len(),
        parse_string(b, p3) == Ok::<(Seq<char>, int), DecodeJsonError>((k, p4)),
        !keys_of(acc).contains(k),
        p3 <= p4 <= p5 < b.len(),
        skip_ws(b, p4) == p5,
        b[p5] == 0x3a,
        skip_ws(b, p5 + 1) == p6,
        p5 + 1 <= p6 < b.len(),
        parse(b, p6) == Ok::<(Data, int), DecodeJsonError>((d0, q)),
        advanced(p, q, b.len() as int),
    ensures
        parse_entries(b, p, first, acc) == parse_entries(b, q, false, acc.push((k, d0))),
{
    reveal(parse);
}

proof fn lemma_entry_layout(
    b: Seq<u8>,
    p: int,
    sep: Seq<u8>,
    nl: Seq<u8>,
    ks: Seq<u8>,
    co: Seq<u8>,
    j0: Seq<u8>,
    rest: Seq<u8>,
)
    requires
        holds_at(b, p, sep + (nl + (ks + (co + (j0 + rest))))),
    ensures
        holds_at(b, p, sep),
        holds_at(b, p + sep.len(), nl),
        holds_at(b, p + sep.len() + nl.len(), ks),
        holds_at(b, p + sep.len() + nl.len() + ks.len(), co),
        holds_at(b, p + sep.len() + nl.len() + ks.len() + co.len(), j0),
        holds_at(b, p + sep.len() + nl.len() + ks.len() + co.len() + j0.len(), rest),
{
    lemma_holds_split(b, p, sep, nl + (ks + (co + (j0 + rest))));
    lemma_holds_split(b, p + sep.len(), nl, ks + (co + (j0 + rest)));
    lemma_holds_split(b, p + sep.len() + nl.len(), ks, co + (j0 + rest));
    lemma_holds_split(b, p + sep.len() + nl.len() + ks.len(), co, j0 + rest);
    lemma_holds_split(b, p + sep.len() + nl.len() + ks.len() + co.len(), j0, rest);
}

#[verifier::rlimit(100)]
#[verifier::spinoff_prover]
proof fn lemma_entries_bytes_first(
    rest: Seq<(Seq<char>, Data)>,
    compact: bool,
    lv: nat,
    numbers: Seq<(u64, String)>,
    cl: Seq<u8>,
)
    requires
        rest.len() > 0,
    ensures
        entries_json(rest, compact, lv, numbers) + cl == Seq::<u8>::empty() + (newline_indent(
            compact,
            lv,
        ) + (string_json(rest[0].0) + (colon(compact) + (json_of(rest[0].1, compact, lv, numbers)
            + (entries_tail(rest.drop_first(), compact, lv, numbers) + cl))))),
{
    lemma_entries_json_front(rest, compact, lv, numbers);
    let x = entry_json(rest[0], compact, lv, numbers);
    let t = entries_tail(rest.drop_first(), compact, lv, numbers);
    assert(entries_json(rest, compact, lv, numbers) + cl =~= x + (t + cl));
    assert(Seq::<u8>::empty() + (newline_indent(compact, lv) + (string_json(rest[0].0) + (colon(
        compact,
    ) + (json_of(rest[0].1, compact, lv, numbers) + (t + cl))))) =~= x + (t + cl));
}

#[verifier::rlimit(100)]
#[verifier::spinoff_prover]
proof fn lemma_entries_bytes_tail(
    rest: Seq<(Seq<char>, Data)>,
    compact: bool,
    lv: nat,
    numbers: Seq<(u64, String)>,
    cl: Seq<u8>,
)
    requires
        rest.len() > 0,
    ensures
        entries_tail(rest, compact, lv, numbers) + cl == seq![0x2cu8] + (newline_indent(compact, lv)
            + (string_json(rest[0].0) + (colon(compact) + (json_of(rest[0].1, compact, lv, numbers)
            + (entries_tail(rest.drop_first(), compact, lv, numbers) + cl))))),
{
    lemma_entries_tail_front(rest, compact, lv, numbers);
    let x = entry_json(rest[0], compact, lv, numbers);
    let t = entries_tail(rest.drop_first(), compact, lv, numbers);
    assert(entries_tail(rest, compact, lv, numbers) + cl =~= seq![0x2cu8] + (x + (t + cl)));
    assert(seq![0x2cu8] + (newline_indent(compact, lv) + (string_json(rest[0].0) + (colon(compact)
        + (json_of(rest[0].1, compact, lv, numbers) + (t + cl))))) =~= seq![0x2cu8] + (x + (t
        + cl)));
}

proof fn lemma_key_fresh(acc: Seq<(Seq<char>, Data)>, rest: Seq<(Seq<char>, Data)>)
    requires
        keys_distinct(acc + rest),
        rest.len() > 0,
    ensures
        !keys_of(acc).contains(rest[0].0),
{
    if keys_of(acc).contains(rest[0].0) {
        let j = choose|j: int| 0 <= j < keys_of(acc).len() && keys_of(acc)[j] == rest[0].0;
        assert((acc + rest)[j].0 == (acc + rest)[acc.len() as int].0);
    }
}

proof fn lemma_parse_close(
    b: Seq<u8>,
    p: int,
    compact: bool,
    outer: nat,
    closer: u8,
)
    requires
        closer == 0x5d || closer == 0x7d,
        holds_at(b, p, newline_indent(compact, outer) + seq![closer]),
    ensures
        skip_ws(b, p) == p + newline_indent(compact, outer).len(),
        b[p + newline_indent(compact, outer).len()] == closer,
{
    lemma_newline_ws(compact, outer);
    lemma_holds_split(b, p, newline_indent(compact, outer), seq![closer]);
    lemma_holds_index(b, p + newline_indent(compact, outer).len(), seq![closer], 0);
    lemma_skip_ws_run(b, p, newline_indent(compact, outer));
}

#[verifier::rlimit(100)]
#[verifier::spinoff_prover]
proof fn lemma_parse_items(
    b: Seq<u8>,
    p: int,
    rest: Seq<Data>,
    first: bool,
    acc: Seq<Data>,
    compact: bool,
    outer: nat,
    numbers: Seq<(u64, String)>,
)
    requires
        forall|i: int| 0 <= i < rest.len() ==> data_wf(#[trigger] rest[i]),
        items_read_back(rest, numbers),
        first ==> rest.len() > 0,
        holds_at(
            b,
            p,
            (if first {
                items_json(rest, compact, outer + 1, numbers)
            } else {
                items_tail(rest, compact, outer + 1, numbers)
            }) + (newline_indent(compact, outer) + seq![0x5du8]),
        ),
    ensures
        parse_items(b, p, first, acc) == Ok::<(Seq<Data>, int), DecodeJsonError>(
            (
                acc + rest,
                p + (if first {
                    items_json(rest, compact, outer + 1, numbers)
                } else {
                    items_tail(rest, compact, outer + 1, numbers)
                }).len() + newline_indent(compact, outer).len() + 1,
            ),
        ),
    decreases rest, 2int,
{
    reveal(parse);
    let lv = outer + 1;
    let cl = newline_indent(compact, outer) + seq![0x5du8];
    let nl = newline_indent(compact, lv);
    lemma_newline_ws(compact, outer);
    lemma_newline_ws(compact, lv);
    if rest.len() == 0 {
        assert(items_tail(rest, compact, lv, numbers) =~= Seq::<u8>::empty());
        assert(Seq::<u8>::empty() + cl =~= cl);
        lemma_parse_close(b, p, compact, outer, 0x5du8);
        assert(acc + rest =~= acc);
    } else {
        lemma_items_step(b, p, rest, first, acc, compact, outer, numbers);
    }
}

#[verifier::rlimit(100)]
#[verifier::rlimit(100)]
#[verifier::spinoff_prover]
proof fn lemma_items_step(
    b: Seq<u8>,
    p: int,
    rest: Seq<Data>,
    first: bool,
    acc: Seq<Data>,
    compact: bool,
    outer: nat,
    numbers: Seq<(u64, String)>,
)
    requires
        forall|i: int| 0 <= i < rest.len() ==> data_wf(#[trigger] rest[i]),
        items_read_back(rest, numbers),
        rest.len() > 0,
        holds_at(
            b,
            p,
            (if first {
                items_json(rest, compact, outer + 1, numbers)
            } else {
                items_tail(rest, compact, outer + 1, numbers)
            }) + (newline_indent(compact, outer) + seq![0x5du8]),
        ),
    ensures
        parse_items(b, p, first, acc) == Ok::<(Seq<Data>, int), DecodeJsonError>(
            (
                acc + rest,
                p + (if first {
                    items_json(rest, compact, outer + 1, numbers)
                } else {
                    items_tail(rest, compact, outer + 1, numbers)
                }).len() + newline_indent(compact, outer).len() + 1,
            ),
        ),
    decreases rest, 1int,
{
    let lv = outer + 1;
    let cl = newline_indent(compact, outer) + seq![0x5du8];
    let nl = newline_indent(compact, lv);
    lemma_newline_ws(compact, outer);
    lemma_newline_ws(compact, lv);
    let d0 = rest[0];
    let j0 = json_of(d0, compact, lv, numbers);
    let tl = items_tail(rest.drop_first(), compact, lv, numbers);
    lemma_items_read_back(rest, numbers);
    lemma_json_first(d0, compact, lv, numbers);
    let sep: Seq<u8> = if first {
        Seq::empty()
    } else {
        seq![0x2cu8]
    };
    if first {
        lemma_items_json_front(rest, compact, lv, numbers);
    } else {
        lemma_items_tail_front(rest, compact, lv, numbers);
    }
    let whole = sep + nl + j0 + (tl + cl);
    assert((if first {
        items_json(rest, compact, lv, numbers)
    } else {
        items_tail(rest, compact, lv, numbers)
    }) + cl =~= whole);
    assert(whole =~= sep + (nl + (j0 + (tl + cl))));
    lemma_holds_split(b, p, sep, nl + (j0 + (tl + cl)));
    lemma_holds_split(b, p + sep.len(), nl, j0 + (tl + cl));
    lemma_holds_split(b, p + sep.len() + nl.len(), j0, tl + cl);
    let q = p + sep.len() + nl.len() + j0.len();
    lemma_holds_index(b, p + sep.len() + nl.len(), j0, 0);
    lemma_holds_index(b, q, tl + cl, 0);
    if rest.len() > 1 {
        lemma_items_tail_front(rest.drop_first(), compact, lv, numbers);
    } else {
        assert(tl =~= Seq::<u8>::empty());
    }
    assert(value_stops(b, q));
    let p3 = p + sep.len() + nl.len();
    assert(skip_ws(b, p3) == p3);
    if first {
        lemma_skip_ws_run(b, p, nl);
        assert(after_separator(b, p3, first) == Ok::<int, DecodeJsonError>(p3));
    } else {
        lemma_holds_index(b, p, sep, 0);
        assert(skip_ws(b, p) == p);
        lemma_skip_ws_run(b, p + 1, nl);
        assert(after_separator(b, p, first) == Ok::<int, DecodeJsonError>(p + 1));
    }
    assert(decreases_to!(rest => rest[0]));
    lemma_parse_json(b, p3, d0, compact, lv, numbers);
    assert(decreases_to!(rest => rest.drop_first()));
    let r2 = rest.drop_first();
    assert forall|i: int| 0 <= i < r2.len() implies data_wf(#[trigger] r2[i]) by {
        assert(r2[i] == rest[i + 1]);
    }
    lemma_parse_items(b, q, r2, false, acc.push(d0), compact, outer, numbers);
    assert(acc.push(d0) + r2 =~= acc + rest);
    if first {
        assert(skip_ws(b, p) == p3);
        lemma_items_unfold(b, p, first, acc, p3, p3, d0, q);
    } else {
        assert(skip_ws(b, p + 1) == p3);
        lemma_items_unfold(b, p, first, acc, p + 1, p3, d0, q);
    }
}


#[verifier::rlimit(100)]
#[verifier::spinoff_prover]
proof fn lemma_parse_entries(
    b: Seq<u8>,
    p: int,
    rest: Seq<(Seq<char>, Data)>,
    first: bool,
    acc: Seq<(Seq<char>, Data)>,
    compact: bool,
    outer: nat,
    numbers: Seq<(u64, String)>,
)
    requires
        forall|i: int| 0 <= i < rest.len() ==> data_wf(#[trigger] rest[i].1),
        keys_distinct(acc + rest),
        entries_read_back(rest, numbers),
        first ==> rest.len() > 0,
        holds_at(
            b,
            p,
            (if first {
                entries_json(rest, compact, outer + 1, numbers)
            } else {
                entries_tail(rest, compact, outer + 1, numbers)
            }) + (newline_indent(compact, outer) + seq![0x7du8]),
        ),
    ensures
        parse_entries(b, p, first, acc) == Ok::<(Seq<(Seq<char>, Data)>, int), DecodeJsonError>(
            (
                acc + rest,
                p + (if first {
                    entries_json(rest, compact, outer + 1, numbers)
                } else {
                    entries_tail(rest, compact, outer + 1, numbers)
                }).len() + newline_indent(compact, outer).len() + 1,
            ),
        ),
    decreases rest, 2int,
{
    reveal(parse);
    let lv = outer + 1;
    let cl = newline_indent(compact, outer) + seq![0x7du8];
    let nl = newline_indent(compact, lv);
    lemma_newline_ws(compact, outer);
    lemma_newline_ws(compact, lv);
    if rest.len() == 0 {
        assert(entries_tail(rest, compact, lv, numbers) =~= Seq::<u8>::empty());
        assert(Seq::<u8>::empty() + cl =~= cl);
        lemma_parse_close(b, p, compact, outer, 0x7du8);
        assert(acc + rest =~= acc);
    } else {
        lemma_entries_step(b, p, rest, first, acc, compact, outer, numbers);
    }
}

#[verifier::rlimit(100)]
#[verifier::rlimit(100)]
#[verifier::spinoff_prover]
proof fn lemma_entry_scan(
    b: Seq<u8>,
    p: int,
    first: bool,
    compact: bool,
    lv: nat,
    k: Seq<char>,
    j0: Seq<u8>,
)
    requires
        j0.len() > 0,
        !is_ws(j0[0]),
        holds_at(b, p, if first { Seq::<u8>::empty() } else { seq![0x2cu8] }),
        holds_at(b, p + (if first { 0int } else { 1int }), newline_indent(compact, lv)),
        holds_at(
            b,
            p + (if first { 0int } else { 1int }) + newline_indent(compact, lv).len(),
            string_json(k),
        ),
        holds_at(
            b,
            p + (if first { 0int } else { 1int }) + newline_indent(compact, lv).len()
                + string_json(k).len(),
            colon(compact),
        ),
        holds_at(
            b,
            p + (if first { 0int } else { 1int }) + newline_indent(compact, lv).len()
                + string_json(k).len() + colon(compact).len(),
            j0,
        ),
    ensures
        ({
            let p2 = p + (if first { 0int } else { 1int });
            let p3 = p2 + newline_indent(compact, lv).len();
            let p4 = p3 + string_json(k).len();
            let p6 = p4 + colon(compact).len();
            &&& 0 <= p <= skip_ws(b, p) < b.len()
            &&& b[skip_ws(b, p)] != 0x7d
            &&& after_separator(b, skip_ws(b, p), first) == Ok::<int, DecodeJsonError>(
                if first { p3 } else { p2 },
            )
            &&& skip_ws(b, if first { p3 } else { p2 }) == p3
            &&& (if first { p3 } else { p2 }) <= p3 < b.len()
            &&& parse_string(b, p3) == Ok::<(Seq<char>, int), DecodeJsonError>((k, p4))
            &&& p3 <= p4 < b.len()
            &&& skip_ws(b, p4) == p4
            &&& b[p4] == 0x3a
            &&& skip_ws(b, p4 + 1) == p6
            &&& p4 + 1 <= p6 < b.len()
        }),
{
    let nl = newline_indent(compact, lv);
    let p2 = p + (if first { 0int } else { 1int });
    let p3 = p2 + nl.len();
    let p4 = p3 + string_json(k).len();
    let co = colon(compact);
    let p6 = p4 + co.len();
    lemma_newline_ws(compact, lv);
    assert(string_json(k)[0] == 0x22u8);
    lemma_holds_index(b, p3, string_json(k), 0);
    lemma_holds_index(b, p4, co, 0);
    lemma_holds_index(b, p6, j0, 0);
    if !compact {
        lemma_holds_index(b, p4, co, 1);
    }
    assert(skip_ws(b, p3) == p3);
    if first {
        lemma_skip_ws_run(b, p, nl);
    } else {
        lemma_holds_index(b, p, seq![0x2cu8], 0);
        assert(skip_ws(b, p) == p);
        lemma_skip_ws_run(b, p + 1, nl);
    }
    lemma_string_parse(b, p3, k);
    assert(skip_ws(b, p4) == p4);
    if compact {
        assert(skip_ws(b, p4 + 1) == p4 + 1);
    } else {
        assert(skip_ws(b, p4 + 2) == p4 + 2);
        assert(skip_ws(b, p4 + 1) == p4 + 2);
    }
}

#[verifier::rlimit(100)]
#[verifier::spinoff_prover]
proof fn lemma_entries_step(
    b: Seq<u8>,
    p: int,
    rest: Seq<(Seq<char>, Data)>,
    first: bool,
    acc: Seq<(Seq<char>, Data)>,
    compact: bool,
    outer: nat,
    numbers: Seq<(u64, String)>,
)
    requires
        forall|i: int| 0 <= i < rest.len() ==> data_wf(#[trigger] rest[i].1),
        keys_distinct(acc + rest),
        entries_read_back(rest, numbers),
        rest.len() > 0,
        holds_at(
            b,
            p,
            (if first {
                entries_json(rest, compact, outer + 1, numbers)
            } else {
                entries_tail(rest, compact, outer + 1, numbers)
            }) + (newline_indent(compact, outer) + seq![0x7du8]),
        ),
    ensures
        parse_entries(b, p, first, acc) == Ok::<(Seq<(Seq<char>, Data)>, int), DecodeJsonError>(
            (
                acc + rest,
                p + (if first {
                    entries_json(rest, compact, outer + 1, numbers)
                } else {
                    entries_tail(rest, compact, outer + 1, numbers)
                }).len() + newline_indent(compact, outer).len() + 1,
            ),
        ),
    decreases rest, 1int,
{
    let lv = outer + 1;
    let cl = newline_indent(compact, outer) + seq![0x7du8];
    let nl = newline_indent(compact, lv);
    lemma_newline_ws(compact, outer);
    let e0 = rest[0];
    let ks = string_json(e0.0);
    let co = colon(compact);
    let j0 = json_of(e0.1, compact, lv, numbers);
    let tl = entries_tail(rest.drop_first(), compact, lv, numbers);
    lemma_entries_read_back(rest, numbers);
    lemma_json_first(e0.1, compact, lv, numbers);
    let sep: Seq<u8> = if first {
        Seq::empty()
    } else {
        seq![0x2cu8]
    };
    if first {
        lemma_entries_bytes_first(rest, compact, lv, numbers, cl);
    } else {
        lemma_entries_bytes_tail(rest, compact, lv, numbers, cl);
    }
    let p3 = p + sep.len() + nl.len();
    let p4 = p3 + ks.len();
    let p6 = p4 + co.len();
    let q = p6 + j0.len();
    lemma_entry_layout(b, p, sep, nl, ks, co, j0, tl + cl);
    lemma_entry_scan(b, p, first, compact, lv, e0.0, j0);
    lemma_holds_index(b, q, tl + cl, 0);
    if rest.len() > 1 {
        lemma_entries_tail_front(rest.drop_first(), compact, lv, numbers);
    } else {
        assert(tl =~= Seq::<u8>::empty());
    }
    assert(value_stops(b, q));
    lemma_key_fresh(acc, rest);
    assert(decreases_to!(rest => rest[0]));
    assert(decreases_to!(rest => rest[0].1));
    lemma_parse_json(b, p6, e0.1, compact, lv, numbers);
    let r2 = rest.drop_first();
    assert forall|i: int| 0 <= i < r2.len() implies data_wf(#[trigger] r2[i].1) by {
        assert(r2[i] == rest[i + 1]);
    }
    assert(acc.push(e0) + r2 =~= acc + rest);
    lemma_parse_entries(b, q, r2, false, acc.push(e0), compact, outer, numbers);
    let p2 = if first {
        p3
    } else {
        p + 1
    };
    lemma_entries_unfold(b, p, first, acc, p2, p3, e0.0, p4, p4, p6, e0.1, q);
}


/// Decoding the textual encoding of a well-formed value gives the value back,
/// in both forms, when the text given for each float reads back as that float.
pub proof fn lemma_text_round_trip(d: Data, compact: bool, numbers: Seq<(u64, String)>)
    requires
        data_wf(d),
        numbers_read_back(d, numbers),
    ensures
        decode(json_of(d, compact, 0, numbers)) == Ok::<Data, DecodeJsonError>(d),
{
    let b = json_of(d, compact, 0, numbers);
    assert(b.subrange(0, b.len() as int) =~= b);
    lemma_parse_json(b, 0, d, compact, 0, numbers);
}

/// The signing form depends on an ordered value alone: two ordered values
/// that are equal as values are signed over the same bytes.
pub proof fn lemma_signing_canonical(a: ValueOrdered, b: ValueOrdered, numbers: Seq<(u64, String)>)
    requires
        a@ == b@,
    ensures
        json_of(a@, false, 0, numbers) == json_of(b@, false, 0, numbers),
{
}

// ---------------------------------------------------------------------------
// What the textual encoder needs of its number table.

/// Whether a text is one number token of the textual encoding.
pub open spec fn number_token(t: Seq<u8>) -> bool {
    &&& t.len() > 0
    &&& (t[0] == 0x2d || is_digit(t[0]))
    &&& number_end(t, 0) == Ok::<int, DecodeJsonError>(t.len() as int)
}

/// Whether every float of a value has, in `numbers`, a text that is one
/// number token.
pub open spec fn numbers_cover(d: Data, numbers: Seq<(u64, String)>) -> bool
    decreases d,
{
    match d {
        Data::Float(bits) => number_token(number_text(numbers, bits)),
        Data::Array(items) => items_covered(items, numbers),
        Data::Object(entries) => entries_covered(entries, numbers),
        _ => true,
    }
}

/// Whether every float of some values has a number token in `numbers`.
pub open spec fn items_covered(items: Seq<Data>, numbers: Seq<(u64, String)>) -> bool
    decreases items,
{
    items.len() > 0 ==> numbers_cover(items.last(), numbers) && items_covered(
        items.drop_last(),
        numbers,
    )
}

/// Whether every float of the values of some entries has a number token in
/// `numbers`.
pub open spec fn entries_covered(entries: Seq<(Seq<char>, Data)>, numbers: Seq<(u64, String)>) -> bool
    decreases entries,
{
    entries.len() > 0 ==> numbers_cover(entries.last().1, numbers) && entries_covered(
        entries.drop_last(),
        numbers,
    )
}

/// Checks whether a text is one number token of the textual encoding.
pub fn is_number_token(t: &[u8]) -> (r: bool)
    ensures
        r == number_token(t@),
{
    if t.len() == 0 {
        return false;
    }
    if !(t[0] == 0x2d || (0x30 <= t[0] && t[0] <= 0x39)) {
        return false;
    }
    let mut de = JsonDeserializer::from_slice(t);
    match de.scan_number() {
        Ok(()) => de.pos == t.len(),
        Err(_) => false,
    }
}

// The position of the first entry of `numbers` for these bits.
fn find_number(numbers: &Vec<(u64, String)>, bits: u64) -> (r: Option<usize>)
    ensures
        r matches Some(i) ==> i < numbers@.len() && number_text(numbers@, bits) == encode_utf8(
            numbers@[i as int].1@,
        ),
        r is None ==> number_text(numbers@, bits) == Seq::<u8>::empty(),
{
    let mut i: usize = 0;
    assert(numbers@.subrange(0, numbers@.len() as int) =~= numbers@);
    while i < numbers.len()
        invariant
            0 <= i <= numbers@.len(),
            number_text(numbers@, bits) == number_text(
                numbers@.subrange(i as int, numbers@.len() as int),
                bits,
            ),
        decreases numbers@.len() - i,
    {
        let ghost rest = numbers@.subrange(i as int, numbers@.len() as int);
        assert(rest[0] == numbers@[i as int]);
        assert(rest.drop_first() =~= numbers@.subrange(i + 1, numbers@.len() as int));
        if numbers[i].0 == bits {
            return Some(i);
        }
        i = i + 1;
    }
    None
}

/// Checks whether every float of a value has, in `numbers`, a text that is
/// one number token, as the textual encoder needs.
pub fn numbers_cover_value(v: &Value, numbers: &Vec<(u64, String)>) -> (r: bool)
    ensures
        r == numbers_cover(v@, numbers@),
    decreases v,
{
    match v {
        Value::Float(f) => match find_number(numbers, f.to_bits()) {
            Some(i) => is_number_token(numbers[i].1.as_str().as_bytes()),
            None => false,
        },
        Value::Array(items) => {
            let mut ok = true;
            let mut i: usize = 0;
            while i < items.len()
                invariant
                    0 <= i <= items@.len(),
                    *v == Value::Array(*items),
                    ok == items_covered(values_data(items@.subrange(0, i as int)), numbers@),
                decreases items@.len() - i,
            {
                proof {
                    vstd::std_specs::vec::axiom_vec_index_decreases(*items, i as int);
                    assert(decreases_to!(*v => (*v)->Array_0));
                    assert(decreases_to!(*v => items[i as int]));
                }
                let c = numbers_cover_value(&items[i], numbers);
                proof {
                    let s = items@.subrange(0, i + 1);
                    assert(s.drop_last() =~= items@.subrange(0, i as int));
                    lemma_values_data(s);
                    lemma_values_data(items@.subrange(0, i as int));
                    assert(values_data(s).drop_last() =~= values_data(items@.subrange(0, i as int)));
                }
                ok = ok && c;
                i = i + 1;
            }
            assert(items@.subrange(0, i as int) =~= items@);
            ok
        },
        Value::Object(entries) => {
            let mut ok = true;
            let mut i: usize = 0;
            while i < entries.len()
                invariant
                    0 <= i <= entries@.len(),
                    *v == Value::Object(*entries),
                    ok == entries_covered(entries_data(entries@.subrange(0, i as int)), numbers@),
                decreases entries@.len() - i,
            {
                proof {
                    vstd::std_specs::vec::axiom_vec_index_decreases(*entries, i as int);
                    assert(decreases_to!(*v => (*v)->Object_0));
                    assert(decreases_to!(*v => entries[i as int]));
                    assert(decreases_to!(*v => entries[i as int].1));
                }
                let c = numbers_cover_value(&entries[i].1, numbers);
                proof {
                    let s = entries@.subrange(0, i + 1);
                    assert(s.drop_last() =~= entries@.subrange(0, i as int));
                    lemma_entries_data(s);
                    lemma_entries_data(entries@.subrange(0, i as int));
                    assert(entries_data(s).drop_last() =~= entries_data(entries@.subrange(0, i as int)));
                }
                ok = ok && c;
                i = i + 1;
            }
            assert(entries@.subrange(0, i as int) =~= entries@);
            ok
        },
        _ => true,
    }
}

/// Decoding the textual encoding of a value whose objects are in canonical
/// order, and putting the result in canonical order, gives the value back:
/// the round trip of ordered values through `to_vec_ordered` and
/// `from_slice_ordered`.
pub proof fn lemma_ordered_round_trip(d: Data, compact: bool, numbers: Seq<(u64, String)>)
    requires
        data_wf(d),
        numbers_read_back(d, numbers),
        canonical_form(d),
    ensures
        decode(json_of(d, compact, 0, numbers)) == Ok::<Data, DecodeJsonError>(d),
        canonical(d) == d,
{
    lemma_text_round_trip(d, compact, numbers);
    lemma_canonical_fixpoint(d);
}

} // verus!
