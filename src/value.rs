use vstd::prelude::*;

use vstd::utf8::{encode_utf8, valid_utf8};

use crate::legacy_f64::{is_valid_bits, LegacyF64};

verus! {

/// The mathematical model of a legacy value: floats by their bits, strings as
/// sequences of Unicode scalar values, objects as their entries in order.
pub enum Data {
    Null,
    Bool(bool),
    Float(u64),
    Str(Seq<char>),
    Array(Seq<Data>),
    Object(Seq<(Seq<char>, Data)>),
}

/// Whether no two entries share a key.
pub open spec fn keys_distinct<V>(entries: Seq<(Seq<char>, V)>) -> bool {
    forall|i: int, j: int|
        0 <= i < entries.len() && 0 <= j < entries.len() && i != j ==> entries[i].0 != entries[j].0
}

/// The keys of a sequence of entries, in order.
pub open spec fn keys_of<V>(entries: Seq<(Seq<char>, V)>) -> Seq<Seq<char>> {
    entries.map_values(|e: (Seq<char>, V)| e.0)
}

/// Whether a modelled value satisfies the invariants of the data model: every
/// float is valid, and no object holds a key twice.
pub open spec fn data_wf(d: Data) -> bool
    decreases d,
{
    match d {
        Data::Float(bits) => is_valid_bits(bits),
        Data::Array(items) => forall|i: int| 0 <= i < items.len() ==> data_wf(#[trigger] items[i]),
        Data::Object(entries) => {
            &&& keys_distinct(entries)
            &&& forall|i: int| 0 <= i < entries.len() ==> data_wf(#[trigger] entries[i].1)
        },
        _ => true,
    }
}

/// Represents any valid legacy message value.
#[derive(PartialEq, Eq, Debug)]
pub enum Value {
    /// The null value.
    Null,
    /// A boolean.
    Bool(bool),
    /// A float.
    Float(LegacyF64),
    /// A utf8 string.
    String(String),
    /// An array.
    Array(Vec<Value>),
    /// An object, as its entries; no key occurs twice.
    Object(Vec<(String, Value)>),
}

/// The model of a value.
pub open spec fn value_data(v: Value) -> Data
    decreases v,
{
    match v {
        Value::Null => Data::Null,
        Value::Bool(b) => Data::Bool(b),
        Value::Float(f) => Data::Float(f.spec_bits()),
        Value::String(s) => Data::Str(s@),
        Value::Array(items) => Data::Array(values_data(items@)),
        Value::Object(entries) => Data::Object(entries_data(entries@)),
    }
}

/// The models of a sequence of values.
pub open spec fn values_data(s: Seq<Value>) -> Seq<Data>
    decreases s,
{
    if s.len() == 0 {
        Seq::empty()
    } else {
        values_data(s.drop_last()).push(value_data(s.last()))
    }
}

/// The models of a sequence of object entries.
pub open spec fn entries_data(s: Seq<(String, Value)>) -> Seq<(Seq<char>, Data)>
    decreases s,
{
    if s.len() == 0 {
        Seq::empty()
    } else {
        entries_data(s.drop_last()).push((s.last().0@, value_data(s.last().1)))
    }
}

impl View for Value {
    type V = Data;

    open spec fn view(&self) -> Data {
        value_data(*self)
    }
}

} // verus!

verus! {

/// The models of a sequence of values are the models of its elements.
pub proof fn lemma_values_data(s: Seq<Value>)
    ensures
        values_data(s).len() == s.len(),
        forall|i: int| 0 <= i < s.len() ==> #[trigger] values_data(s)[i] == value_data(s[i]),
    decreases s.len(),
{
    if s.len() > 0 {
        lemma_values_data(s.drop_last());
    }
}

/// The models of a sequence of entries are the models of its entries.
pub proof fn lemma_entries_data(s: Seq<(String, Value)>)
    ensures
        entries_data(s).len() == s.len(),
        forall|i: int|
            0 <= i < s.len() ==> #[trigger] entries_data(s)[i] == (s[i].0@, value_data(s[i].1)),
    decreases s.len(),
{
    if s.len() > 0 {
        lemma_entries_data(s.drop_last());
    }
}

} // verus!

verus! {

/// Answers, while an object is being decoded, whether it already holds a key,
/// so that a decoder can reject duplicate keys.
pub trait ObjectAccessState {
    /// Whether the object holds the key.
    spec fn spec_has_key(&self, key: Seq<char>) -> bool;

    /// Whether the object holds the key.
    fn has_key(&self, key: &String) -> (r: bool)
        ensures
            r == self.spec_has_key(key@),
    ;
}

impl ObjectAccessState for Vec<(String, Value)> {
    open spec fn spec_has_key(&self, key: Seq<char>) -> bool {
        keys_of(entries_data(self@)).contains(key)
    }

    fn has_key(&self, key: &String) -> (r: bool) {
        proof {
            lemma_entries_data(self@);
        }
        let mut j: usize = 0;
        while j < self.len()
            invariant
                0 <= j <= self@.len(),
                entries_data(self@).len() == self@.len(),
                forall|i: int| 0 <= i < j ==> self@[i].0@ != key@,
            decreases self@.len() - j,
        {
            if self[j].0 == *key {
                proof {
                    lemma_entries_data(self@);
                    assert(keys_of(entries_data(self@))[j as int] == key@);
                }
                return true;
            }
            j = j + 1;
        }
        proof {
            lemma_entries_data(self@);
            if keys_of(entries_data(self@)).contains(key@) {
                let i = choose|i: int|
                    0 <= i < keys_of(entries_data(self@)).len() && keys_of(entries_data(self@))[i]
                        == key@;
                assert(self@[i].0@ == key@);
            }
        }
        false
    }
}

} // verus!

verus! {

/// The elements of a well-formed array are well-formed.
pub proof fn lemma_wf_item(items: Seq<Data>, i: int)
    requires
        data_wf(Data::Array(items)),
        0 <= i < items.len(),
    ensures
        data_wf(items[i]),
{
    let d = Data::Array(items);
    assert(decreases_to!(d => d->Array_0));
    assert(decreases_to!(d => d->Array_0[i]));
}

/// The entries of a well-formed object have distinct keys and well-formed
/// values.
pub proof fn lemma_wf_entry(entries: Seq<(Seq<char>, Data)>, i: int)
    requires
        data_wf(Data::Object(entries)),
        0 <= i < entries.len(),
    ensures
        keys_distinct(entries),
        data_wf(entries[i].1),
{
    let d = Data::Object(entries);
    assert(decreases_to!(d => d->Object_0));
    assert(decreases_to!(d => d->Object_0[i]));
    assert(decreases_to!(d => d->Object_0[i].1));
}

/// Relies on `std::str::from_utf8`: it accepts exactly the well-formed UTF-8
/// byte sequences, and the string it returns holds those bytes.
#[verifier::external_body]
pub(crate) fn utf8_str(bytes: &[u8]) -> (r: Option<&str>)
    ensures
        r is Some <==> valid_utf8(bytes@),
        r matches Some(s) ==> encode_utf8(s@) == bytes@,
{
    std::str::from_utf8(bytes).ok()
}

/// Whether `enc` stands in `b` from `pos` on.
pub open spec fn holds_at(b: Seq<u8>, pos: int, enc: Seq<u8>) -> bool {
    0 <= pos && pos + enc.len() <= b.len() && b.subrange(pos, pos + enc.len()) == enc
}

/// A sequence that stands in `b` splits into two that stand one after the other.
pub proof fn lemma_holds_split(b: Seq<u8>, pos: int, x: Seq<u8>, y: Seq<u8>)
    requires
        holds_at(b, pos, x + y),
    ensures
        holds_at(b, pos, x),
        holds_at(b, pos + x.len(), y),
{
    let w = b.subrange(pos, pos + (x + y).len());
    assert forall|i: int| 0 <= i < x.len() implies b.subrange(pos, pos + x.len())[i] == x[i] by {
        assert(b[pos + i] == w[i]);
        assert((x + y)[i] == x[i]);
    }
    assert forall|i: int| 0 <= i < y.len() implies b.subrange(
        pos + x.len(),
        pos + x.len() + y.len(),
    )[i] == y[i] by {
        assert(b[pos + x.len() + i] == w[x.len() + i]);
        assert((x + y)[x.len() + i] == y[i]);
    }
    assert(b.subrange(pos, pos + x.len()) =~= x);
    assert(b.subrange(pos + x.len(), pos + x.len() + y.len()) =~= y);
}

/// Each byte of a sequence that stands in `b` is the byte of `b` at its place.
pub proof fn lemma_holds_index(b: Seq<u8>, pos: int, x: Seq<u8>, i: int)
    requires
        holds_at(b, pos, x),
        0 <= i < x.len(),
    ensures
        b[pos + i] == x[i],
{
    assert(b[pos + i] == b.subrange(pos, pos + x.len())[i]);
}

/// A modelled array is well-formed exactly when each element is.
pub proof fn lemma_wf_array(items: Seq<Data>)
    ensures
        data_wf(Data::Array(items)) == (forall|i: int|
            0 <= i < items.len() ==> data_wf(#[trigger] items[i])),
{
    let d = Data::Array(items);
    assert(decreases_to!(d => d->Array_0));
    if forall|i: int| 0 <= i < items.len() ==> data_wf(#[trigger] items[i]) {
        assert forall|i: int| 0 <= i < items.len() implies data_wf(#[trigger] d->Array_0[i]) by {
            assert(decreases_to!(d => d->Array_0[i]));
            assert(d->Array_0[i] == items[i]);
        }
    } else {
        let i = choose|i: int| 0 <= i < items.len() && !data_wf(#[trigger] items[i]);
        if data_wf(d) {
            lemma_wf_item(items, i);
        }
    }
}

/// A modelled object is well-formed exactly when its keys are distinct and
/// each value is well-formed.
pub proof fn lemma_wf_object(entries: Seq<(Seq<char>, Data)>)
    ensures
        data_wf(Data::Object(entries)) == (keys_distinct(entries) && forall|i: int|
            0 <= i < entries.len() ==> data_wf(#[trigger] entries[i].1)),
{
    let d = Data::Object(entries);
    assert(decreases_to!(d => d->Object_0));
    if keys_distinct(entries) && forall|i: int|
        0 <= i < entries.len() ==> data_wf(#[trigger] entries[i].1) {
        assert forall|i: int| 0 <= i < entries.len() implies data_wf(
            #[trigger] d->Object_0[i].1,
        ) by {
            assert(decreases_to!(d => d->Object_0[i]));
            assert(decreases_to!(d => d->Object_0[i].1));
            assert(d->Object_0[i] == entries[i]);
        }
    } else if data_wf(d) {
        if entries.len() > 0 {
            lemma_wf_entry(entries, 0);
        }
        let i = choose|i: int| 0 <= i < entries.len() && !data_wf(#[trigger] entries[i].1);
        lemma_wf_entry(entries, i);
    }
}

/// Checks whether a value satisfies the invariants of the data model: no
/// object holds a key twice (floats are valid by construction).
pub fn is_well_formed(v: &Value) -> (r: bool)
    ensures
        r == data_wf(v@),
    decreases v,
{
    match v {
        Value::Float(f) => {
            let _ = f.to_bits();
            true
        },
        Value::Array(items) => {
            proof {
                lemma_values_data(items@);
                lemma_wf_array(values_data(items@));
            }
            let mut ok = true;
            let mut i: usize = 0;
            while i < items.len()
                invariant
                    0 <= i <= items@.len(),
                    *v == Value::Array(*items),
                    values_data(items@).len() == items@.len(),
                    forall|j: int| 0 <= j < items@.len() ==> #[trigger] values_data(items@)[j] == value_data(items@[j]),
                    ok == (forall|j: int| 0 <= j < i ==> data_wf(#[trigger] values_data(items@)[j])),
                decreases items@.len() - i,
            {
                proof {
                    vstd::std_specs::vec::axiom_vec_index_decreases(*items, i as int);
                    assert(decreases_to!(*v => (*v)->Array_0));
                    assert(decreases_to!(*v => items[i as int]));
                }
                let c = is_well_formed(&items[i]);
                proof {
                    assert(values_data(items@)[i as int] == value_data(items@[i as int]));
                }
                ok = ok && c;
                i = i + 1;
                proof {
                    assert forall|j: int| 0 <= j < i && ok implies data_wf(
                        #[trigger] values_data(items@)[j],
                    ) by {}
                }
            }
            ok
        },
        Value::Object(entries) => {
            proof {
                lemma_entries_data(entries@);
                lemma_wf_object(entries_data(entries@));
            }
            let ghost ed = entries_data(entries@);
            let mut ok = true;
            let mut i: usize = 0;
            while i < entries.len()
                invariant
                    0 <= i <= entries@.len(),
                    *v == Value::Object(*entries),
                    ed == entries_data(entries@),
                    ed.len() == entries@.len(),
                    forall|j: int| 0 <= j < entries@.len() ==> #[trigger] ed[j] == (entries@[j].0@, value_data(entries@[j].1)),
                    ok == (keys_distinct(ed.subrange(0, i as int)) && forall|j: int|
                        0 <= j < i ==> data_wf(#[trigger] ed[j].1)),
                decreases entries@.len() - i,
            {
                proof {
                    vstd::std_specs::vec::axiom_vec_index_decreases(*entries, i as int);
                    assert(decreases_to!(*v => (*v)->Object_0));
                    assert(decreases_to!(*v => entries[i as int]));
                    assert(decreases_to!(*v => entries[i as int].1));
                }
                let mut fresh = true;
                let mut j: usize = 0;
                while j < i
                    invariant
                        0 <= j <= i < entries@.len(),
                        ed.len() == entries@.len(),
                        forall|m: int| 0 <= m < entries@.len() ==> #[trigger] ed[m] == (entries@[m].0@, value_data(entries@[m].1)),
                        fresh == (forall|m: int| 0 <= m < j ==> ed[m].0 != ed[i as int].0),
                    decreases i - j,
                {
                    let same = entries[j].0 == entries[i].0;
                    proof {
                        assert(same == (ed[j as int].0 == ed[i as int].0));
                    }
                    if same {
                        fresh = false;
                    }
                    j = j + 1;
                }
                let c = is_well_formed(&entries[i].1);
                proof {
                    assert(ed[i as int].1 == value_data(entries@[i as int].1));
                    assert(c == data_wf(ed[i as int].1));
                    let p = ed.subrange(0, i as int);
                    let q = ed.subrange(0, i + 1);
                    if keys_distinct(p) && fresh {
                        assert forall|a: int, b: int|
                            0 <= a < q.len() && 0 <= b < q.len() && a != b implies q[a].0 != q[b].0 by {
                            if a < i && b < i {
                                assert(q[a] == p[a] && q[b] == p[b]);
                            }
                        }
                    }
                    if keys_distinct(q) {
                        assert forall|a: int, b: int|
                            0 <= a < p.len() && 0 <= b < p.len() && a != b implies p[a].0 != p[b].0 by {
                            assert(q[a] == p[a] && q[b] == p[b]);
                        }
                        assert forall|m: int| 0 <= m < i implies ed[m].0 != ed[i as int].0 by {
                            assert(q[m] == ed[m] && q[i as int] == ed[i as int]);
                        }
                    }
                }
                let ghost old_ok = ok;
                ok = ok && fresh && c;
                i = i + 1;
                proof {
                    if ok {
                        assert forall|j: int| 0 <= j < i implies data_wf(#[trigger] ed[j].1) by {}
                    }
                    if !old_ok && keys_distinct(ed.subrange(0, i as int)) {
                        let p = ed.subrange(0, i - 1);
                        let q = ed.subrange(0, i as int);
                        assert forall|a: int, b: int|
                            0 <= a < p.len() && 0 <= b < p.len() && a != b implies p[a].0 != p[b].0 by {
                            assert(q[a] == p[a] && q[b] == p[b]);
                        }
                    }
                }
            }
            assert(ed.subrange(0, i as int) =~= ed);
            ok
        },
        _ => true,
    }
}

} // verus!
