//! The order-preserving object container: entries whose key looks like a
//! natural number come first, in graphicolexical order; the other entries
//! follow in insertion order.

use vstd::prelude::*;
use vstd::string::StrSliceExecFns;
use vstd::utf8::encode_utf8;

use crate::legacy_f64::LegacyF64;
use crate::value::{
    data_wf, entries_data, keys_distinct, keys_of, lemma_entries_data, lemma_values_data,
    lemma_wf_entry, lemma_wf_item, values_data, Data, Value,
};

verus! {

/// Whether `a` comes before `b` in byte-lexicographic order.
pub open spec fn lex_lt(a: Seq<u8>, b: Seq<u8>) -> bool {
    exists|i: int|
        0 <= i < a.len() && i < b.len() && a[i] < b[i] && (forall|j: int|
            0 <= j < i ==> a[j] == b[j])
}

/// Graphicolexical order on bytes: shorter first, then byte-lexicographic.
pub open spec fn grapho_lt(a: Seq<u8>, b: Seq<u8>) -> bool {
    a.len() < b.len() || (a.len() == b.len() && lex_lt(a, b))
}

/// Graphicolexical order on strings, by their UTF-8 encodings.
pub open spec fn key_lt(a: Seq<char>, b: Seq<char>) -> bool {
    grapho_lt(encode_utf8(a), encode_utf8(b))
}

/// Whether a string is a nonzero decimal digit followed by decimal digits.
pub open spec fn nonzero_digits(k: Seq<char>) -> bool {
    k.len() >= 1 && '1' <= k[0] <= '9' && forall|i: int|
        1 <= i < k.len() ==> '0' <= #[trigger] k[i] <= '9'
}

/// Whether a string looks like a natural number: it is `"0"`, or a nonzero
/// decimal digit followed by decimal digits.
pub open spec fn natural_like(k: Seq<char>) -> bool {
    k == seq!['0'] || nonzero_digits(k)
}

/// Graphicolexical order is transitive.
pub proof fn lemma_grapho_transitive(a: Seq<u8>, b: Seq<u8>, c: Seq<u8>)
    requires
        grapho_lt(a, b),
        grapho_lt(b, c),
    ensures
        grapho_lt(a, c),
{
    if a.len() == b.len() && b.len() == c.len() {
        let i = choose|i: int|
            0 <= i < a.len() && i < b.len() && a[i] < b[i] && (forall|j: int|
                0 <= j < i ==> a[j] == b[j]);
        let k = choose|k: int|
            0 <= k < b.len() && k < c.len() && b[k] < c[k] && (forall|j: int|
                0 <= j < k ==> b[j] == c[j]);
        if i <= k {
            assert(a[i] < c[i]);
            assert(forall|j: int| 0 <= j < i ==> a[j] == c[j]);
        } else {
            assert(a[k] < c[k]);
            assert(forall|j: int| 0 <= j < k ==> a[j] == c[j]);
        }
    }
}

/// No string comes before itself.
pub proof fn lemma_grapho_irreflexive(a: Seq<u8>)
    ensures
        !grapho_lt(a, a),
{
}

/// A string wrapper that compares by length first and uses lexicographical
/// order as a tie-breaker.
#[derive(PartialEq, Eq, Clone, Hash, Debug)]
pub struct GraphicolexicalString(String);

impl View for GraphicolexicalString {
    type V = Seq<char>;

    closed spec fn view(&self) -> Seq<char> {
        self.0@
    }
}

impl GraphicolexicalString {
    /// Wraps a string.
    pub fn new(s: String) -> (r: GraphicolexicalString)
        ensures
            r@ == s@,
    {
        GraphicolexicalString(s)
    }

    /// The wrapped string.
    pub fn as_str(&self) -> (r: &str)
        ensures
            r@ == self@,
    {
        self.0.as_str()
    }

    /// Unwraps the string.
    pub fn into_string(self) -> (r: String)
        ensures
            r@ == self@,
    {
        self.0
    }

    /// Compares two strings by length first, then byte by byte.
    pub fn compare(&self, other: &GraphicolexicalString) -> (r: core::cmp::Ordering)
        ensures
            (r == core::cmp::Ordering::Less) == key_lt(self@, other@),
            (r == core::cmp::Ordering::Greater) == key_lt(other@, self@),
            (r == core::cmp::Ordering::Equal) == (self@ == other@),
    {
        let a = self.0.as_str().as_bytes();
        let b = other.0.as_str().as_bytes();
        proof {
            vstd::utf8::encode_utf8_decode_utf8(self@);
            vstd::utf8::encode_utf8_decode_utf8(other@);
        }
        if a.len() < b.len() {
            return core::cmp::Ordering::Less;
        }
        if a.len() > b.len() {
            return core::cmp::Ordering::Greater;
        }
        let mut i: usize = 0;
        while i < a.len()
            invariant
                0 <= i <= a@.len(),
                a@.len() == b@.len(),
                a@ == encode_utf8(self@),
                b@ == encode_utf8(other@),
                forall|j: int| 0 <= j < i ==> a@[j] == b@[j],
            decreases a@.len() - i,
        {
            if a[i] < b[i] {
                assert(lex_lt(a@, b@));
                return core::cmp::Ordering::Less;
            }
            if a[i] > b[i] {
                assert(lex_lt(b@, a@));
                return core::cmp::Ordering::Greater;
            }
            i = i + 1;
        }
        assert(a@ =~= b@);
        core::cmp::Ordering::Equal
    }
}

/// Checks whether a string is a nonzero decimal digit followed by decimal
/// digits. The string `"0"` also looks like a natural number, but is told
/// apart on its own.
pub fn is_nat_str(s: &str) -> (r: bool)
    ensures
        r == nonzero_digits(s@),
{
    let n = s.unicode_len();
    if n == 0 {
        return false;
    }
    let c = s.get_char(0);
    if !('1' <= c && c <= '9') {
        return false;
    }
    let mut i: usize = 1;
    while i < n
        invariant
            1 <= i <= n,
            n == s@.len(),
            forall|j: int| 1 <= j < i ==> '0' <= #[trigger] s@[j] <= '9',
        decreases n - i,
    {
        let d = s.get_char(i);
        if !('0' <= d && d <= '9') {
            return false;
        }
        i = i + 1;
    }
    true
}

/// Checks whether a string is `"0"`.
fn is_zero_str(s: &str) -> (r: bool)
    ensures
        r == (s@ == seq!['0']),
{
    if s.unicode_len() != 1 {
        return false;
    }
    let c = s.get_char(0);
    if c == '0' {
        assert(s@ =~= seq!['0']);
        true
    } else {
        false
    }
}

/// The entries of a bucket, with their keys as sequences of characters.
pub open spec fn bucket_view<K: View<V = Seq<char>>, V>(b: Seq<(K, V)>) -> Seq<(Seq<char>, V)> {
    b.map_values(|e: (K, V)| (e.0@, e.1))
}

/// A map with string keys that sorts the keys that look like natural numbers
/// by numeric value, and keeps the insertion order of all other keys.
#[derive(PartialEq, Eq, Debug)]
pub struct RidiculousStringMap<V> {
    naturals: Vec<(GraphicolexicalString, V)>,
    others: Vec<(String, V)>,
}

impl<V> RidiculousStringMap<V> {
    /// The entries whose key looks like a natural number, in order.
    pub closed spec fn naturals_view(&self) -> Seq<(Seq<char>, V)> {
        bucket_view(self.naturals@)
    }

    /// The other entries, in insertion order.
    pub closed spec fn others_view(&self) -> Seq<(Seq<char>, V)> {
        bucket_view(self.others@)
    }

    /// The entries in iteration order.
    pub open spec fn entries(&self) -> Seq<(Seq<char>, V)> {
        self.naturals_view() + self.others_view()
    }

    /// The natural-like keys are sorted graphicolexically, no other key is
    /// natural-like, and no key occurs twice.
    pub open spec fn wf(&self) -> bool {
        let n = self.naturals_view();
        let o = self.others_view();
        &&& forall|i: int| 0 <= i < n.len() ==> natural_like(#[trigger] n[i].0)
        &&& forall|i: int, j: int| 0 <= i < j < n.len() ==> key_lt(#[trigger] n[i].0, #[trigger] n[j].0)
        &&& forall|i: int| 0 <= i < o.len() ==> !natural_like(#[trigger] o[i].0)
        &&& keys_distinct(o)
    }

    /// Creates an empty map with room for `capacity` other entries.
    pub fn with_capacity(capacity: usize) -> (r: RidiculousStringMap<V>)
        ensures
            r.wf(),
            r.entries() == Seq::<(Seq<char>, V)>::empty(),
    {
        let r = RidiculousStringMap { naturals: Vec::new(), others: Vec::with_capacity(capacity) };
        assert(r.entries() =~= Seq::<(Seq<char>, V)>::empty());
        r
    }

    /// The number of entries.
    pub fn len(&self) -> (r: usize)
        requires
            self.entries().len() <= usize::MAX,
        ensures
            r == self.entries().len(),
    {
        self.naturals.len() + self.others.len()
    }

    /// The entry at a position of the iteration order.
    pub fn entry(&self, i: usize) -> (r: (&String, &V))
        requires
            i < self.entries().len(),
        ensures
            r.0@ == self.entries()[i as int].0,
            *r.1 == self.entries()[i as int].1,
    {
        if i < self.naturals.len() {
            let e = &self.naturals[i];
            (&e.0.0, &e.1)
        } else {
            let e = &self.others[i - self.naturals.len()];
            (&e.0, &e.1)
        }
    }

    /// Inserts an entry. A natural-like key goes to its place in graphicolexical
    /// order, any other key after the other keys; a key that is present keeps
    /// its place and gets the new value. Returns the value it had, if any.
    #[verifier::rlimit(100)]
    pub fn insert(&mut self, key: String, val: V) -> (r: Option<V>)
        requires
            old(self).wf(),
        ensures
            final(self).wf(),
            (exists|i: int|
                0 <= i < old(self).entries().len() && old(self).entries()[i].0 == key@) ==> {
                exists|i: int|
                    0 <= i < old(self).entries().len() && old(self).entries()[i].0 == key@
                        && r == Some(old(self).entries()[i].1) && final(self).entries()
                        == old(self).entries().update(i, (key@, val))
            },
            (forall|i: int|
                0 <= i < old(self).entries().len() ==> old(self).entries()[i].0 != key@) ==> {
                &&& r is None
                &&& natural_like(key@) ==> exists|j: int|
                    0 <= j <= old(self).naturals_view().len() && final(self).entries()
                        == old(self).entries().insert(j, (key@, val)) && (forall|m: int|
                        0 <= m < j ==> key_lt(#[trigger] old(self).entries()[m].0, key@)) && (
                    forall|m: int|
                        j <= m < old(self).naturals_view().len() ==> key_lt(
                            key@,
                            #[trigger] old(self).entries()[m].0,
                        ))
                &&& !natural_like(key@) ==> final(self).entries() == old(self).entries().push(
                    (key@, val),
                )
            },
            natural_like(key@) ==> final(self).others_view() == old(self).others_view(),
            !natural_like(key@) ==> final(self).naturals_view() == old(self).naturals_view(),
    {
        if is_zero_str(key.as_str()) || is_nat_str(key.as_str()) {
            let k = GraphicolexicalString::new(key);
            let mut j: usize = 0;
            while j < self.naturals.len()
                invariant
                    0 <= j <= self.naturals@.len(),
                    self.wf(),
                    self.naturals == old(self).naturals,
                    self.others == old(self).others,
                    natural_like(k@),
                    k@ == key@,
                    forall|m: int| 0 <= m < j ==> key_lt(#[trigger] self.naturals_view()[m].0, k@),
                ensures
                    0 <= j <= self.naturals@.len(),
                    self.wf(),
                    self.naturals == old(self).naturals,
                    self.others == old(self).others,
                    natural_like(k@),
                    k@ == key@,
                    forall|m: int| 0 <= m < j ==> key_lt(#[trigger] self.naturals_view()[m].0, k@),
                    j < self.naturals@.len() ==> key_lt(k@, self.naturals_view()[j as int].0),
                decreases self.naturals@.len() - j,
            {
                let c = k.compare(&self.naturals[j].0);
                proof {
                    assert(self.naturals_view()[j as int].0 == self.naturals@[j as int].0@);
                    assert(old(self).entries()[j as int] == old(self).naturals_view()[j as int]);
                }
                if let core::cmp::Ordering::Equal = c {
                    let (kk, old_val) = self.naturals.remove(j);
                    self.naturals.insert(j, (kk, val));
                    proof {
                        assert(self.naturals_view() =~= old(self).naturals_view().update(
                            j as int,
                            (k@, val),
                        ));
                        assert(self.entries() =~= old(self).entries().update(j as int, (k@, val)));
                        assert(old(self).entries()[j as int].0 == k@);
                    }
                    return Some(old_val);
                }
                if let core::cmp::Ordering::Less = c {
                    break;
                }
                j = j + 1;
            }
            proof {
                let n = old(self).naturals_view();
                assert forall|m: int| j <= m < n.len() implies key_lt(k@, #[trigger] n[m].0) by {
                    if m > j {
                        lemma_grapho_transitive(
                            encode_utf8(k@),
                            encode_utf8(n[j as int].0),
                            encode_utf8(n[m].0),
                        );
                    }
                }
                assert forall|m: int| 0 <= m < n.len() implies #[trigger] old(self).entries()[m]
                    == n[m] by {}
                assert forall|m: int| 0 <= m < old(self).entries().len() implies old(
                    self,
                ).entries()[m].0 != k@ by {
                    if m < n.len() {
                        if m >= j {
                            lemma_grapho_irreflexive(encode_utf8(k@));
                        }
                    } else {
                        assert(old(self).entries()[m] == old(self).others_view()[m - n.len()]);
                    }
                }
            }
            self.naturals.insert(j, (k, val));
            proof {
                let n = old(self).naturals_view();
                assert(self.naturals_view() =~= n.insert(j as int, (k@, val)));
                assert(self.entries() =~= old(self).entries().insert(j as int, (k@, val)));
                let n2 = self.naturals_view();
                assert forall|a: int, b: int| 0 <= a < b < n2.len() implies key_lt(
                    #[trigger] n2[a].0,
                    #[trigger] n2[b].0,
                ) by {
                    if a < j && b == j {
                    } else if a < j && b > j {
                        assert(n2[b] == n[b - 1]);
                        lemma_grapho_transitive(
                            encode_utf8(n[a].0),
                            encode_utf8(k@),
                            encode_utf8(n[b - 1].0),
                        );
                    } else if a == j {
                        assert(n2[b] == n[b - 1]);
                    } else if a > j {
                        assert(n2[a] == n[a - 1]);
                        assert(n2[b] == n[b - 1]);
                    } else {
                        assert(n2[a] == n[a]);
                        assert(n2[b] == n[b]);
                    }
                }
            }
            None
        } else {
            let mut j: usize = 0;
            while j < self.others.len()
                invariant
                    0 <= j <= self.others@.len(),
                    self.wf(),
                    self.naturals == old(self).naturals,
                    self.others == old(self).others,
                    !natural_like(key@),
                    forall|m: int| 0 <= m < j ==> #[trigger] self.others_view()[m].0 != key@,
                decreases self.others@.len() - j,
            {
                if self.others[j].0 == key {
                    let (kk, old_val) = self.others.remove(j);
                    self.others.insert(j, (kk, val));
                    proof {
                        let nl = old(self).naturals_view().len();
                        assert(self.others_view() =~= old(self).others_view().update(
                            j as int,
                            (key@, val),
                        ));
                        assert(self.entries() =~= old(self).entries().update(
                            nl + j,
                            (key@, val),
                        ));
                        assert(old(self).entries()[nl + j].0 == key@);
                        assert(keys_distinct(self.others_view()));
                    }
                    return Some(old_val);
                }
                j = j + 1;
            }
            proof {
                let n = old(self).naturals_view();
                assert forall|m: int| 0 <= m < old(self).entries().len() implies old(
                    self,
                ).entries()[m].0 != key@ by {
                    if m >= n.len() {
                        assert(old(self).entries()[m] == old(self).others_view()[m - n.len()]);
                    }
                }
            }
            self.others.push((key, val));
            proof {
                assert(self.others_view() =~= old(self).others_view().push((key@, val)));
                assert(self.entries() =~= old(self).entries().push((key@, val)));
            }
            None
        }
    }
}

/// The iteration order of a well-formed map: the natural-like keys come
/// first, each shorter than or graphicolexically before the next, and all
/// other keys after them.
pub proof fn lemma_iteration_order<V>(m: RidiculousStringMap<V>)
    requires
        m.wf(),
    ensures
        ({
            let e = m.entries();
            let n = m.naturals_view().len();
            &&& forall|i: int| 0 <= i < n ==> natural_like(#[trigger] e[i].0)
            &&& forall|i: int| n <= i < e.len() ==> !natural_like(#[trigger] e[i].0)
            &&& forall|i: int, j: int| 0 <= i < j < n ==> key_lt(#[trigger] e[i].0, #[trigger] e[j].0)
            &&& keys_distinct(e)
        }),
{
    let e = m.entries();
    let nv = m.naturals_view();
    let ov = m.others_view();
    let n = nv.len();
    assert forall|i: int| 0 <= i < n implies natural_like(#[trigger] e[i].0) by {
        assert(e[i] == nv[i]);
    }
    assert forall|i: int| n <= i < e.len() implies !natural_like(#[trigger] e[i].0) by {
        assert(e[i] == ov[i - n]);
    }
    assert forall|i: int, j: int| 0 <= i < j < n implies key_lt(#[trigger] e[i].0, #[trigger] e[j].0) by {
        assert(e[i] == nv[i]);
        assert(e[j] == nv[j]);
    }
    assert forall|i: int, j: int|
        0 <= i < e.len() && 0 <= j < e.len() && i != j implies e[i].0 != e[j].0 by {
        if i < n && j < n {
            assert(e[i] == nv[i]);
            assert(e[j] == nv[j]);
            if i < j {
                lemma_grapho_irreflexive(encode_utf8(e[i].0));
            } else {
                lemma_grapho_irreflexive(encode_utf8(e[j].0));
            }
        } else if i >= n && j >= n {
            assert(e[i] == ov[i - n]);
            assert(e[j] == ov[j - n]);
        } else if i < n {
            assert(e[i] == nv[i]);
            assert(e[j] == ov[j - n]);
        } else {
            assert(e[i] == ov[i - n]);
            assert(e[j] == nv[j]);
        }
    }
}

// ---------------------------------------------------------------------------
// Values whose objects keep the canonical entry order.

/// Represents any valid legacy message value, with objects in the canonical
/// entry order. This is the form to use for checking message signatures.
#[derive(PartialEq, Eq, Debug)]
pub enum ValueOrdered {
    /// The null value.
    Null,
    /// A boolean.
    Bool(bool),
    /// A float.
    Float(LegacyF64),
    /// A utf8 string.
    String(String),
    /// An array.
    Array(Vec<ValueOrdered>),
    /// An order-preserving object.
    Object(RidiculousStringMap<ValueOrdered>),
}

/// The model of an ordered value, with object entries in iteration order.
pub closed spec fn ordered_data(v: ValueOrdered) -> Data
    decreases v,
{
    match v {
        ValueOrdered::Null => Data::Null,
        ValueOrdered::Bool(b) => Data::Bool(b),
        ValueOrdered::Float(f) => Data::Float(f.spec_bits()),
        ValueOrdered::String(s) => Data::Str(s@),
        ValueOrdered::Array(items) => Data::Array(ordered_items_data(items@)),
        ValueOrdered::Object(m) => Data::Object(
            naturals_data(m.naturals@) + others_data(m.others@),
        ),
    }
}

spec fn ordered_items_data(s: Seq<ValueOrdered>) -> Seq<Data>
    decreases s,
{
    if s.len() == 0 {
        Seq::empty()
    } else {
        ordered_items_data(s.drop_last()).push(ordered_data(s.last()))
    }
}

spec fn naturals_data(s: Seq<(GraphicolexicalString, ValueOrdered)>) -> Seq<(Seq<char>, Data)>
    decreases s,
{
    if s.len() == 0 {
        Seq::empty()
    } else {
        naturals_data(s.drop_last()).push((s.last().0@, ordered_data(s.last().1)))
    }
}

spec fn others_data(s: Seq<(String, ValueOrdered)>) -> Seq<(Seq<char>, Data)>
    decreases s,
{
    if s.len() == 0 {
        Seq::empty()
    } else {
        others_data(s.drop_last()).push((s.last().0@, ordered_data(s.last().1)))
    }
}

impl View for ValueOrdered {
    type V = Data;

    closed spec fn view(&self) -> Data {
        ordered_data(*self)
    }
}

/// The models of the values of some entries.
pub open spec fn pairs_data(s: Seq<(Seq<char>, ValueOrdered)>) -> Seq<(Seq<char>, Data)>
    decreases s.len(),
{
    if s.len() == 0 {
        Seq::empty()
    } else {
        pairs_data(s.drop_last()).push((s.last().0, s.last().1@))
    }
}

proof fn lemma_pairs_data(s: Seq<(Seq<char>, ValueOrdered)>)
    ensures
        pairs_data(s).len() == s.len(),
        forall|i: int| 0 <= i < s.len() ==> #[trigger] pairs_data(s)[i] == (s[i].0, s[i].1@),
    decreases s.len(),
{
    if s.len() > 0 {
        lemma_pairs_data(s.drop_last());
    }
}

proof fn lemma_ordered_items(s: Seq<ValueOrdered>)
    ensures
        ordered_items_data(s).len() == s.len(),
        forall|i: int| 0 <= i < s.len() ==> #[trigger] ordered_items_data(s)[i] == s[i]@,
    decreases s.len(),
{
    if s.len() > 0 {
        lemma_ordered_items(s.drop_last());
    }
}

proof fn lemma_naturals_data(s: Seq<(GraphicolexicalString, ValueOrdered)>)
    ensures
        naturals_data(s).len() == s.len(),
        forall|i: int| 0 <= i < s.len() ==> #[trigger] naturals_data(s)[i] == (s[i].0@, s[i].1@),
    decreases s.len(),
{
    if s.len() > 0 {
        lemma_naturals_data(s.drop_last());
    }
}

proof fn lemma_others_data(s: Seq<(String, ValueOrdered)>)
    ensures
        others_data(s).len() == s.len(),
        forall|i: int| 0 <= i < s.len() ==> #[trigger] others_data(s)[i] == (s[i].0@, s[i].1@),
    decreases s.len(),
{
    if s.len() > 0 {
        lemma_others_data(s.drop_last());
    }
}

/// The model of an ordered object is its entries, in iteration order.
pub proof fn lemma_object_data(m: RidiculousStringMap<ValueOrdered>)
    ensures
        ValueOrdered::Object(m)@ == Data::Object(pairs_data(m.entries())),
{
    lemma_naturals_data(m.naturals@);
    lemma_others_data(m.others@);
    lemma_pairs_data(m.entries());
    let e = m.entries();
    let n = m.naturals@.len();
    assert forall|i: int| 0 <= i < e.len() implies #[trigger] e[i] == if i < n {
        (m.naturals@[i].0@, m.naturals@[i].1)
    } else {
        (m.others@[i - n].0@, m.others@[i - n].1)
    } by {}
    assert(naturals_data(m.naturals@) + others_data(m.others@) =~= pairs_data(m.entries()));
}

/// The number of natural-like keys among some entries that come before `k`.
pub open spec fn count_before<V>(es: Seq<(Seq<char>, V)>, k: Seq<char>) -> nat
    decreases es.len(),
{
    if es.len() == 0 {
        0
    } else {
        count_before(es.drop_last(), k) + if natural_like(es.last().0) && key_lt(es.last().0, k) {
            1nat
        } else {
            0nat
        }
    }
}

/// Entries after inserting a new key in canonical order: a natural-like key
/// after the natural-like keys before it, any other key at the end.
pub open spec fn insert_canonical(es: Seq<(Seq<char>, Data)>, k: Seq<char>, d: Data) -> Seq<
    (Seq<char>, Data),
> {
    if natural_like(k) {
        es.insert(count_before(es, k) as int, (k, d))
    } else {
        es.push((k, d))
    }
}

/// A value with every object's entries put in canonical order.
pub open spec fn canonical(d: Data) -> Data
    decreases d,
{
    match d {
        Data::Array(items) => Data::Array(canonical_items(items)),
        Data::Object(entries) => Data::Object(canonical_entries(entries)),
        _ => d,
    }
}

/// Canonical forms of values.
pub open spec fn canonical_items(items: Seq<Data>) -> Seq<Data>
    decreases items,
{
    if items.len() == 0 {
        Seq::empty()
    } else {
        canonical_items(items.drop_last()).push(canonical(items.last()))
    }
}

/// Entries inserted one after the other in canonical order, each value in
/// canonical form.
pub open spec fn canonical_entries(entries: Seq<(Seq<char>, Data)>) -> Seq<(Seq<char>, Data)>
    decreases entries,
{
    if entries.len() == 0 {
        Seq::empty()
    } else {
        insert_canonical(
            canonical_entries(entries.drop_last()),
            entries.last().0,
            canonical(entries.last().1),
        )
    }
}

proof fn lemma_count_before<V>(es: Seq<(Seq<char>, V)>, k: Seq<char>, j: int)
    requires
        0 <= j <= es.len(),
        forall|m: int| 0 <= m < j ==> natural_like(#[trigger] es[m].0) && key_lt(es[m].0, k),
        forall|m: int| j <= m < es.len() ==> !(natural_like(#[trigger] es[m].0) && key_lt(es[m].0, k)),
    ensures
        count_before(es, k) == j,
    decreases es.len(),
{
    if es.len() > 0 {
        if es.len() > j {
            lemma_count_before(es.drop_last(), k, j);
        } else {
            lemma_count_before(es.drop_last(), k, j - 1);
        }
    }
}

proof fn lemma_key_lt_asymmetric(a: Seq<char>, b: Seq<char>)
    requires
        key_lt(a, b),
    ensures
        !key_lt(b, a),
{
    if key_lt(b, a) {
        lemma_grapho_transitive(encode_utf8(a), encode_utf8(b), encode_utf8(a));
    }
}

impl ValueOrdered {
    /// The value with objects as plain entry lists, in iteration order.
    pub fn to_value(&self) -> (r: Value)
        ensures
            r@ == self@,
        decreases self,
    {
        match self {
            ValueOrdered::Null => Value::Null,
            ValueOrdered::Bool(b) => Value::Bool(*b),
            ValueOrdered::Float(f) => Value::Float(*f),
            ValueOrdered::String(s) => Value::String(s.clone()),
            ValueOrdered::Array(items) => {
                let mut out: Vec<Value> = Vec::new();
                let mut i: usize = 0;
                proof {
                    lemma_ordered_items(items@);
                }
                while i < items.len()
                    invariant
                        0 <= i <= items@.len(),
                        *self == ValueOrdered::Array(*items),
                        ordered_items_data(items@).len() == items@.len(),
                        forall|j: int| 0 <= j < items@.len() ==> #[trigger] ordered_items_data(items@)[j] == items@[j]@,
                        values_data(out@) == ordered_items_data(items@).subrange(0, i as int),
                    decreases items@.len() - i,
                {
                    proof {
                        vstd::std_specs::vec::axiom_vec_index_decreases(*items, i as int);
                        assert(decreases_to!(*self => (*self)->Array_0));
                        assert(decreases_to!(*self => items[i as int]));
                    }
                    let v = items[i].to_value();
                    let ghost old_out = out@;
                    out.push(v);
                    proof {
                        assert(out@.drop_last() =~= old_out);
                        assert(values_data(out@) =~= ordered_items_data(items@).subrange(0, i + 1));
                    }
                    i = i + 1;
                }
                assert(ordered_items_data(items@).subrange(0, i as int) =~= ordered_items_data(items@));
                Value::Array(out)
            },
            ValueOrdered::Object(m) => {
                let mut out: Vec<(String, Value)> = Vec::new();
                let mut i: usize = 0;
                proof {
                    lemma_naturals_data(m.naturals@);
                    lemma_others_data(m.others@);
                }
                while i < m.naturals.len()
                    invariant
                        0 <= i <= m.naturals@.len(),
                        *self == ValueOrdered::Object(*m),
                        naturals_data(m.naturals@).len() == m.naturals@.len(),
                        forall|j: int| 0 <= j < m.naturals@.len() ==> #[trigger] naturals_data(m.naturals@)[j] == (m.naturals@[j].0@, m.naturals@[j].1@),
                        entries_data(out@) == naturals_data(m.naturals@).subrange(0, i as int),
                    decreases m.naturals@.len() - i,
                {
                    proof {
                        vstd::std_specs::vec::axiom_vec_index_decreases(m.naturals, i as int);
                        assert(decreases_to!(*self => (*self)->Object_0));
                        assert(decreases_to!(*self => (*self)->Object_0.naturals));
                        assert(decreases_to!(*self => m.naturals[i as int]));
                        assert(decreases_to!(*self => m.naturals[i as int].1));
                    }
                    let e = &m.naturals[i];
                    let v = e.1.to_value();
                    let k = e.0.as_str().to_owned();
                    let ghost old_out = out@;
                    out.push((k, v));
                    proof {
                        assert(out@.drop_last() =~= old_out);
                        assert(entries_data(out@) =~= naturals_data(m.naturals@).subrange(0, i + 1));
                    }
                    i = i + 1;
                }
                let ghost mid = out@;
                assert(entries_data(mid) =~= naturals_data(m.naturals@));
                let mut i: usize = 0;
                while i < m.others.len()
                    invariant
                        0 <= i <= m.others@.len(),
                        *self == ValueOrdered::Object(*m),
                        others_data(m.others@).len() == m.others@.len(),
                        forall|j: int| 0 <= j < m.others@.len() ==> #[trigger] others_data(m.others@)[j] == (m.others@[j].0@, m.others@[j].1@),
                        entries_data(out@) == naturals_data(m.naturals@) + others_data(m.others@).subrange(0, i as int),
                    decreases m.others@.len() - i,
                {
                    proof {
                        vstd::std_specs::vec::axiom_vec_index_decreases(m.others, i as int);
                        assert(decreases_to!(*self => (*self)->Object_0));
                        assert(decreases_to!(*self => (*self)->Object_0.others));
                        assert(decreases_to!(*self => m.others[i as int]));
                        assert(decreases_to!(*self => m.others[i as int].1));
                    }
                    let e = &m.others[i];
                    let v = e.1.to_value();
                    let k = e.0.clone();
                    let ghost old_out = out@;
                    out.push((k, v));
                    proof {
                        assert(out@.drop_last() =~= old_out);
                        assert(entries_data(out@) =~= naturals_data(m.naturals@) + others_data(m.others@).subrange(0, i + 1));
                    }
                    i = i + 1;
                }
                assert(others_data(m.others@).subrange(0, i as int) =~= others_data(m.others@));
                Value::Object(out)
            },
        }
    }
}

/// The largest number of entries that a conversion reserves room for up front.
pub const MAX_ALLOC: usize = 2048;

proof fn lemma_pairs_data_insert(s: Seq<(Seq<char>, ValueOrdered)>, j: int, k: Seq<char>, v: ValueOrdered)
    requires
        0 <= j <= s.len(),
    ensures
        pairs_data(s.insert(j, (k, v))) == pairs_data(s).insert(j, (k, v@)),
        pairs_data(s.push((k, v))) == pairs_data(s).push((k, v@)),
{
    lemma_pairs_data(s);
    lemma_pairs_data(s.insert(j, (k, v)));
    lemma_pairs_data(s.push((k, v)));
    assert(pairs_data(s.insert(j, (k, v))) =~= pairs_data(s).insert(j, (k, v@)));
    assert(pairs_data(s.push((k, v))) =~= pairs_data(s).push((k, v@)));
}

impl ValueOrdered {
    /// The value with every object's entries in canonical order.
    #[verifier::rlimit(100)]
    pub fn from_value(v: &Value) -> (r: ValueOrdered)
        requires
            data_wf(v@),
        ensures
            r@ == canonical(v@),
        decreases v,
    {
        match v {
            Value::Null => ValueOrdered::Null,
            Value::Bool(b) => ValueOrdered::Bool(*b),
            Value::Float(f) => ValueOrdered::Float(*f),
            Value::String(s) => ValueOrdered::String(s.clone()),
            Value::Array(items) => {
                let mut out: Vec<ValueOrdered> = Vec::new();
                let mut i: usize = 0;
                proof {
                    lemma_values_data(items@);
                }
                while i < items.len()
                    invariant
                        0 <= i <= items@.len(),
                        *v == Value::Array(*items),
                        data_wf(v@),
                        values_data(items@).len() == items@.len(),
                        forall|j: int| 0 <= j < items@.len() ==> #[trigger] values_data(items@)[j] == items@[j]@,
                        ordered_items_data(out@) == canonical_items(values_data(items@).subrange(0, i as int)),
                    decreases items@.len() - i,
                {
                    proof {
                        vstd::std_specs::vec::axiom_vec_index_decreases(*items, i as int);
                        assert(decreases_to!(*v => (*v)->Array_0));
                        assert(decreases_to!(*v => items[i as int]));
                        assert(v@ == Data::Array(values_data(items@)));
                        lemma_wf_item(values_data(items@), i as int);
                    }
                    let c = ValueOrdered::from_value(&items[i]);
                    let ghost old_out = out@;
                    out.push(c);
                    proof {
                        assert(out@.drop_last() =~= old_out);
                        let p = values_data(items@).subrange(0, i + 1);
                        assert(p.drop_last() =~= values_data(items@).subrange(0, i as int));
                    }
                    i = i + 1;
                }
                assert(values_data(items@).subrange(0, i as int) =~= values_data(items@));
                ValueOrdered::Array(out)
            },
            Value::Object(entries) => {
                let cap = if entries.len() < MAX_ALLOC {
                    entries.len()
                } else {
                    MAX_ALLOC
                };
                let mut map: RidiculousStringMap<ValueOrdered> = RidiculousStringMap::with_capacity(cap);
                let ghost ed = entries_data(entries@);
                let mut i: usize = 0;
                proof {
                    lemma_entries_data(entries@);
                    lemma_pairs_data(map.entries());
                    assert(pairs_data(map.entries()) =~= canonical_entries(ed.subrange(0, 0)));
                }
                while i < entries.len()
                    invariant
                        0 <= i <= entries@.len(),
                        *v == Value::Object(*entries),
                        data_wf(v@),
                        ed == entries_data(entries@),
                        ed.len() == entries@.len(),
                        forall|j: int| 0 <= j < entries@.len() ==> #[trigger] ed[j] == (entries@[j].0@, entries@[j].1@),
                        map.wf(),
                        pairs_data(map.entries()) == canonical_entries(ed.subrange(0, i as int)),
                        forall|m: int| 0 <= m < map.entries().len() ==> exists|j: int| 0 <= j < i && #[trigger] map.entries()[m].0 == ed[j].0,
                    decreases entries@.len() - i,
                {
                    proof {
                        vstd::std_specs::vec::axiom_vec_index_decreases(*entries, i as int);
                        assert(decreases_to!(*v => (*v)->Object_0));
                        assert(decreases_to!(*v => entries[i as int]));
                        assert(decreases_to!(*v => entries[i as int].1));
                        assert(v@ == Data::Object(ed));
                        lemma_wf_entry(ed, i as int);
                    }
                    let e = &entries[i];
                    let c = ValueOrdered::from_value(&e.1);
                    let k = e.0.clone();
                    let ghost old_entries = map.entries();
                    let ghost old_nat_len = map.naturals_view().len();
                    let ghost old_nat = map.naturals_view();
                    let ghost old_oth = map.others_view();
                    proof {
                        assert forall|m: int| 0 <= m < old_entries.len() implies old_entries[m].0 != k@ by {
                            let j = choose|j: int| 0 <= j < i && #[trigger] old_entries[m].0 == ed[j].0;
                            assert(ed[j].0 != ed[i as int].0);
                        }
                        lemma_pairs_data(old_entries);
                    }
                    let prior = map.insert(k, c);
                    proof {
                        let ce = canonical_entries(ed.subrange(0, i as int));
                        let p = ed.subrange(0, i + 1);
                        assert(p.drop_last() =~= ed.subrange(0, i as int));
                        assert(p.last() == ed[i as int]);
                        if natural_like(k@) {
                            let j = choose|j: int|
                                0 <= j <= old_nat_len && map.entries()
                                    == old_entries.insert(j, (k@, c)) && (forall|m: int|
                                    0 <= m < j ==> key_lt(#[trigger] old_entries[m].0, k@)) && (
                                forall|m: int|
                                    j <= m < old_nat_len ==> key_lt(k@, #[trigger] old_entries[m].0));
                            lemma_pairs_data_insert(old_entries, j, k@, c);
                            assert forall|m: int| 0 <= m < j implies natural_like(#[trigger] ce[m].0) && key_lt(ce[m].0, k@) by {
                                assert(ce[m] == pairs_data(old_entries)[m]);
                                assert(old_entries[m] == old_nat[m]);
                            }
                            assert forall|m: int| j <= m < ce.len() implies !(natural_like(#[trigger] ce[m].0) && key_lt(ce[m].0, k@)) by {
                                assert(ce[m] == pairs_data(old_entries)[m]);
                                if m < old_nat_len {
                                    lemma_key_lt_asymmetric(k@, old_entries[m].0);
                                } else {
                                    assert(old_entries[m] == old_oth[m - old_nat_len]);
                                }
                            }
                            lemma_count_before(ce, k@, j);
                        } else {
                            lemma_pairs_data_insert(old_entries, 0, k@, c);
                        }
                        assert forall|m: int| 0 <= m < map.entries().len() implies exists|jj: int| 0 <= jj < i + 1 && #[trigger] map.entries()[m].0 == ed[jj].0 by {
                            if map.entries()[m].0 != k@ {
                                let ne = map.entries();
                                if natural_like(k@) {
                                    let j = choose|j: int| 0 <= j <= old_nat_len && ne == old_entries.insert(j, (k@, c));
                                    if m < j {
                                        assert(ne[m] == old_entries[m]);
                                    } else if m > j {
                                        assert(ne[m] == old_entries[m - 1]);
                                    }
                                } else {
                                    assert(ne[m] == old_entries[m]);
                                }
                            }
                        }
                    }
                    i = i + 1;
                }
                assert(ed.subrange(0, i as int) =~= ed);
                proof {
                    lemma_object_data(map);
                }
                ValueOrdered::Object(map)
            },
        }
    }
}

/// Whether every entry of `r` carries a key of `e` and the canonical form of
/// a value that `e` binds to that key.
pub open spec fn entries_from(r: Seq<(Seq<char>, Data)>, e: Seq<(Seq<char>, Data)>) -> bool {
    forall|m: int|
        0 <= m < r.len() ==> exists|j: int|
            0 <= j < e.len() && #[trigger] r[m].0 == e[j].0 && r[m].1 == canonical(e[j].1)
}

proof fn lemma_count_before_le<V>(es: Seq<(Seq<char>, V)>, k: Seq<char>)
    ensures
        count_before(es, k) <= es.len(),
    decreases es.len(),
{
    if es.len() > 0 {
        lemma_count_before_le(es.drop_last(), k);
    }
}

proof fn lemma_canonical_entries_keys(e: Seq<(Seq<char>, Data)>)
    requires
        keys_distinct(e),
    ensures
        keys_distinct(canonical_entries(e)),
        canonical_entries(e).len() == e.len(),
        entries_from(canonical_entries(e), e),
    decreases e.len(),
{
    if e.len() > 0 {
        let p = e.drop_last();
        assert forall|a: int, b: int|
            0 <= a < p.len() && 0 <= b < p.len() && a != b implies p[a].0 != p[b].0 by {
            assert(p[a] == e[a] && p[b] == e[b]);
        }
        lemma_canonical_entries_keys(p);
        let r0 = canonical_entries(p);
        let k = e.last().0;
        let d = canonical(e.last().1);
        let r = canonical_entries(e);
        assert(forall|m: int| 0 <= m < r0.len() ==> r0[m].0 != k) by {
            assert forall|m: int| 0 <= m < r0.len() implies r0[m].0 != k by {
                let j = choose|j: int|
                    0 <= j < p.len() && #[trigger] r0[m].0 == p[j].0 && r0[m].1 == canonical(p[j].1);
                assert(p[j] == e[j]);
                assert(e[j].0 != e[e.len() - 1].0);
            }
        }
        let pos: int = if natural_like(k) {
            count_before(r0, k) as int
        } else {
            r0.len() as int
        };
        lemma_count_before_le(r0, k);
        assert(r =~= r0.insert(pos, (k, d)));
        r0.insert_ensures(pos, (k, d));
        assert forall|m: int| 0 <= m < r.len() implies exists|j: int|
            0 <= j < e.len() && #[trigger] r[m].0 == e[j].0 && r[m].1 == canonical(e[j].1) by {
            if m == pos {
                assert(r[m] == (k, d));
                assert(e[e.len() - 1].0 == k);
            } else {
                let mm = if m < pos { m } else { m - 1 };
                assert(r[m] == r0[mm]);
                let j = choose|j: int|
                    0 <= j < p.len() && #[trigger] r0[mm].0 == p[j].0 && r0[mm].1 == canonical(p[j].1);
                assert(p[j] == e[j]);
            }
        }
        assert forall|a: int, b: int|
            0 <= a < r.len() && 0 <= b < r.len() && a != b implies r[a].0 != r[b].0 by {
            if a != pos && b != pos {
                let aa = if a < pos { a } else { a - 1 };
                let bb = if b < pos { b } else { b - 1 };
                assert(r[a] == r0[aa] && r[b] == r0[bb]);
            } else if a == pos {
                let bb = if b < pos { b } else { b - 1 };
                assert(r[b] == r0[bb]);
            } else {
                let aa = if a < pos { a } else { a - 1 };
                assert(r[a] == r0[aa]);
            }
        }
    }
}

proof fn lemma_canonical_items(items: Seq<Data>)
    ensures
        canonical_items(items).len() == items.len(),
        forall|i: int| 0 <= i < items.len() ==> #[trigger] canonical_items(items)[i] == canonical(items[i]),
    decreases items.len(),
{
    if items.len() > 0 {
        lemma_canonical_items(items.drop_last());
    }
}

/// Putting every object's entries in canonical order keeps a value
/// well-formed.
pub proof fn lemma_canonical_wf(d: Data)
    requires
        data_wf(d),
    ensures
        data_wf(canonical(d)),
    decreases d,
{
    match d {
        Data::Array(items) => {
            crate::value::lemma_wf_array(items);
            lemma_canonical_items(items);
            let c = canonical_items(items);
            assert(decreases_to!(d => d->Array_0));
            assert forall|i: int| 0 <= i < c.len() implies data_wf(#[trigger] c[i]) by {
                assert(decreases_to!(d => d->Array_0[i]));
                lemma_canonical_wf(items[i]);
            }
            crate::value::lemma_wf_array(c);
        },
        Data::Object(entries) => {
            crate::value::lemma_wf_object(entries);
            lemma_canonical_entries_keys(entries);
            let c = canonical_entries(entries);
            assert(decreases_to!(d => d->Object_0));
            assert forall|m: int| 0 <= m < c.len() implies data_wf(#[trigger] c[m].1) by {
                let j = choose|j: int|
                    0 <= j < entries.len() && #[trigger] c[m].0 == entries[j].0 && c[m].1
                        == canonical(entries[j].1);
                assert(decreases_to!(d => d->Object_0[j]));
                assert(decreases_to!(d => d->Object_0[j].1));
                lemma_canonical_wf(entries[j].1);
            }
            crate::value::lemma_wf_object(c);
        },
        _ => {},
    }
}

/// Whether entries are in canonical order: every natural-like key comes
/// before all other keys and after the natural-like keys graphicolexically
/// before it.
pub open spec fn canonical_order(e: Seq<(Seq<char>, Data)>) -> bool {
    forall|i: int, j: int|
        0 <= i < j < e.len() && natural_like(#[trigger] e[j].0) ==> natural_like(
            #[trigger] e[i].0,
        ) && key_lt(e[i].0, e[j].0)
}

/// Whether every object of a value has its entries in canonical order.
pub open spec fn canonical_form(d: Data) -> bool
    decreases d,
{
    match d {
        Data::Array(items) => items_canonical(items),
        Data::Object(entries) => canonical_order(entries) && entries_canonical(entries),
        _ => true,
    }
}

/// Whether each of some values is in canonical form.
pub open spec fn items_canonical(items: Seq<Data>) -> bool
    decreases items,
{
    items.len() > 0 ==> canonical_form(items.last()) && items_canonical(items.drop_last())
}

/// Whether the value of each of some entries is in canonical form.
pub open spec fn entries_canonical(entries: Seq<(Seq<char>, Data)>) -> bool
    decreases entries,
{
    entries.len() > 0 ==> canonical_form(entries.last().1) && entries_canonical(
        entries.drop_last(),
    )
}

/// A value whose objects already have their entries in canonical order is its
/// own canonical form.
pub proof fn lemma_canonical_fixpoint(d: Data)
    requires
        canonical_form(d),
    ensures
        canonical(d) == d,
    decreases d, 1int,
{
    match d {
        Data::Array(items) => {
            assert(decreases_to!(d => d->Array_0));
            lemma_canonical_items_fixpoint(items);
        },
        Data::Object(entries) => {
            assert(decreases_to!(d => d->Object_0));
            lemma_canonical_entries_fixpoint(entries);
        },
        _ => {},
    }
}

proof fn lemma_canonical_items_fixpoint(items: Seq<Data>)
    requires
        items_canonical(items),
    ensures
        canonical_items(items) == items,
    decreases items, 0int,
{
    if items.len() > 0 {
        lemma_canonical_items_fixpoint(items.drop_last());
        assert(decreases_to!(items => items[items.len() - 1]));
        lemma_canonical_fixpoint(items.last());
        assert(canonical_items(items) =~= items);
    } else {
        assert(canonical_items(items) =~= items);
    }
}

proof fn lemma_canonical_entries_fixpoint(e: Seq<(Seq<char>, Data)>)
    requires
        canonical_order(e),
        entries_canonical(e),
    ensures
        canonical_entries(e) == e,
    decreases e, 0int,
{
    if e.len() > 0 {
        let p = e.drop_last();
        assert forall|i: int, j: int|
            0 <= i < j < p.len() && natural_like(#[trigger] p[j].0) implies natural_like(
            #[trigger] p[i].0,
        ) && key_lt(p[i].0, p[j].0) by {
            assert(p[i] == e[i] && p[j] == e[j]);
        }
        lemma_canonical_entries_fixpoint(p);
        assert(decreases_to!(e => e[e.len() - 1]));
        assert(decreases_to!(e => e[e.len() - 1].1));
        lemma_canonical_fixpoint(e.last().1);
        let k = e.last().0;
        if natural_like(k) {
            assert forall|m: int| 0 <= m < p.len() implies natural_like(#[trigger] p[m].0)
                && key_lt(p[m].0, k) by {
                assert(p[m] == e[m]);
                assert(e[e.len() - 1].0 == k);
            }
            lemma_count_before(p, k, p.len() as int);
        }
        assert(canonical_entries(e) =~= e);
    }
}

} // verus!
