//! The decoded value tree: what one message body turns into. Records are
//! ordered key/value objects; a key keeps the position of its first insertion
//! and a later insertion under the same key overwrites the value in place.

use vstd::prelude::*;

verus! {

broadcast use vstd::std_specs::vec::group_vec_axioms;


/// Mathematical form of a decoded value.
pub enum ValueV {
    Null,
    Bool(bool),
    U8(u8),
    I8(i8),
    U16(u16),
    I16(i16),
    U32(u32),
    I32(i32),
    U64(u64),
    Str(Seq<char>),
    /// IEEE 754 single-precision bits, kept uninterpreted.
    FloatBits(u32),
    /// IEEE 754 double-precision bits, kept uninterpreted.
    DoubleBits(u64),
    Bytes(Seq<u8>),
    Array(Seq<ValueV>),
    Object(Seq<(Seq<char>, ValueV)>),
}

/// A decoded value. Floating-point fields carry their raw IEEE 754 bits: the
/// wire holds the bits, and interpreting them is the embedding application's
/// concern.
#[derive(Debug)]
pub enum Value {
    Null,
    Bool(bool),
    U8(u8),
    I8(i8),
    U16(u16),
    I16(i16),
    U32(u32),
    I32(i32),
    U64(u64),
    Str(String),
    FloatBits(u32),
    DoubleBits(u64),
    Bytes(Vec<u8>),
    Array(Vec<Value>),
    Object(Fields),
}

/// An ordered key/value object.
#[derive(Debug)]
pub struct Fields {
    entries: Vec<(String, Value)>,
}

impl Value {
    pub open spec fn view(&self) -> ValueV
        decreases self,
    {
        match self {
            Value::Null => ValueV::Null,
            Value::Bool(b) => ValueV::Bool(*b),
            Value::U8(v) => ValueV::U8(*v),
            Value::I8(v) => ValueV::I8(*v),
            Value::U16(v) => ValueV::U16(*v),
            Value::I16(v) => ValueV::I16(*v),
            Value::U32(v) => ValueV::U32(*v),
            Value::I32(v) => ValueV::I32(*v),
            Value::U64(v) => ValueV::U64(*v),
            Value::Str(s) => ValueV::Str(s@),
            Value::FloatBits(v) => ValueV::FloatBits(*v),
            Value::DoubleBits(v) => ValueV::DoubleBits(*v),
            Value::Bytes(b) => ValueV::Bytes(b@),
            Value::Array(items) => ValueV::Array(values_view(items@)),
            Value::Object(f) => ValueV::Object(f.view()),
        }
    }
}

/// Views of a sequence of values, elementwise, in order.
pub open spec fn values_view(s: Seq<Value>) -> Seq<ValueV>
    decreases s,
{
    if s.len() == 0 {
        Seq::empty()
    } else {
        values_view(s.subrange(0, s.len() - 1)).push(s[s.len() - 1].view())
    }
}

/// Views of a sequence of entries, elementwise, in order.
pub open spec fn entries_view(s: Seq<(String, Value)>) -> Seq<(Seq<char>, ValueV)>
    decreases s,
{
    if s.len() == 0 {
        Seq::empty()
    } else {
        entries_view(s.subrange(0, s.len() - 1)).push(
            (s[s.len() - 1].0@, s[s.len() - 1].1.view()),
        )
    }
}

/// Mathematical form of an ordered key/value object.
pub type FieldsV = Seq<(Seq<char>, ValueV)>;

/// Inserting under a key that is present overwrites the value in place;
/// a fresh key goes to the end.
pub open spec fn spec_fields_insert(m: FieldsV, k: Seq<char>, v: ValueV) -> FieldsV
    decreases m.len(),
{
    if m.len() == 0 {
        seq![(k, v)]
    } else if m[0].0 == k {
        seq![(k, v)] + m.subrange(1, m.len() as int)
    } else {
        seq![m[0]] + spec_fields_insert(m.subrange(1, m.len() as int), k, v)
    }
}

/// Merging inserts the entries of `b` into `a`, in order.
pub open spec fn spec_fields_merge(a: FieldsV, b: FieldsV) -> FieldsV
    decreases b.len(),
{
    if b.len() == 0 {
        a
    } else {
        spec_fields_merge(spec_fields_insert(a, b[0].0, b[0].1), b.subrange(1, b.len() as int))
    }
}

/// First entry under the key, if any.
pub open spec fn spec_fields_get(m: FieldsV, k: Seq<char>) -> Option<ValueV>
    decreases m.len(),
{
    if m.len() == 0 {
        None
    } else if m[0].0 == k {
        Some(m[0].1)
    } else {
        spec_fields_get(m.subrange(1, m.len() as int), k)
    }
}

/// The view of an entry sequence has the same length and views each entry.
pub proof fn lemma_entries_view_props(s: Seq<(String, Value)>)
    ensures
        entries_view(s).len() == s.len(),
        forall|i: int|
            0 <= i < s.len() ==> #[trigger] entries_view(s)[i] == (s[i].0@, s[i].1.view()),
    decreases s.len(),
{
    if s.len() > 0 {
        lemma_entries_view_props(s.subrange(0, s.len() - 1));
    }
}

/// The view of a value sequence has the same length and views each element.
pub proof fn lemma_values_view_props(s: Seq<Value>)
    ensures
        values_view(s).len() == s.len(),
        forall|i: int| 0 <= i < s.len() ==> #[trigger] values_view(s)[i] == s[i].view(),
    decreases s.len(),
{
    if s.len() > 0 {
        lemma_values_view_props(s.subrange(0, s.len() - 1));
    }
}

/// Inserting an absent key appends the entry.
pub proof fn lemma_fields_insert_absent(m: FieldsV, k: Seq<char>, v: ValueV)
    requires
        forall|i: int| 0 <= i < m.len() ==> (#[trigger] m[i]).0 != k,
    ensures
        spec_fields_insert(m, k, v) == m.push((k, v)),
    decreases m.len(),
{
    if m.len() == 0 {
        assert(spec_fields_insert(m, k, v) =~= m.push((k, v)));
    } else {
        let tail = m.subrange(1, m.len() as int);
        assert(forall|i: int| 0 <= i < tail.len() ==> (#[trigger] tail[i]).0 != k) by {
            assert(forall|i: int| 0 <= i < tail.len() ==> tail[i] == m[i + 1]);
        }
        lemma_fields_insert_absent(tail, k, v);
        assert(spec_fields_insert(m, k, v) =~= m.push((k, v)));
    }
}

/// Inserting a present key overwrites the first entry under it, in place.
pub proof fn lemma_fields_insert_found(m: FieldsV, j: int, k: Seq<char>, v: ValueV)
    requires
        0 <= j < m.len(),
        m[j].0 == k,
        forall|i: int| 0 <= i < j ==> (#[trigger] m[i]).0 != k,
    ensures
        spec_fields_insert(m, k, v) == m.update(j, (k, v)),
    decreases j,
{
    if j == 0 {
        assert(spec_fields_insert(m, k, v) =~= m.update(0, (k, v)));
    } else {
        let tail = m.subrange(1, m.len() as int);
        assert(forall|i: int| 0 <= i < j - 1 ==> (#[trigger] tail[i]).0 != k) by {
            assert(forall|i: int| 0 <= i < tail.len() ==> tail[i] == m[i + 1]);
        }
        lemma_fields_insert_found(tail, j - 1, k, v);
        assert(spec_fields_insert(m, k, v) =~= m.update(j, (k, v)));
    }
}

impl Fields {
    pub closed spec fn view(&self) -> FieldsV
        decreases self,
    {
        entries_view(self.entries@)
    }

    pub fn new() -> (r: Fields)
        ensures
            r.view() == Seq::<(Seq<char>, ValueV)>::empty(),
    {
        let f = Fields { entries: Vec::new() };
        proof {
            assert(f.view() =~= Seq::<(Seq<char>, ValueV)>::empty());
        }
        f
    }

    pub fn len(&self) -> (r: usize)
        ensures
            r == self.view().len(),
    {
        proof {
            lemma_entries_view_props(self.entries@);
        }
        self.entries.len()
    }

    pub fn key_at(&self, i: usize) -> (r: &String)
        requires
            i < self.view().len(),
        ensures
            r@ == self.view()[i as int].0,
    {
        proof {
            lemma_entries_view_props(self.entries@);
        }
        &self.entries[i].0
    }

    pub fn value_at(&self, i: usize) -> (r: &Value)
        requires
            i < self.view().len(),
        ensures
            r.view() == self.view()[i as int].1,
    {
        proof {
            lemma_entries_view_props(self.entries@);
        }
        &self.entries[i].1
    }

    /// Inserts `v` under `k`: a present key is overwritten in place, a fresh
    /// key goes to the end.
    pub fn insert(&mut self, k: String, v: Value)
        ensures
            final(self).view() == spec_fields_insert(old(self).view(), k@, v.view()),
    {
        proof {
            lemma_entries_view_props(self.entries@);
        }
        let n = self.entries.len();
        let mut j: usize = 0;
        while j < n
            invariant
                *self == *old(self),
                n == self.entries@.len(),
                j <= n,
                forall|i: int| 0 <= i < j ==> (#[trigger] self.entries@[i]).0@ != k@,
            decreases n - j,
        {
            if self.entries[j].0 == k {
                proof {
                    lemma_entries_view_props(self.entries@);
                    lemma_fields_insert_found(self.view(), j as int, k@, v.view());
                }
                let ghost mpre = self.view();
                let e = vstd::std_specs::vec::vec_index_mut(&mut self.entries, j);
                *e = (k, v);
                proof {
                    lemma_entries_view_props(self.entries@);
                    assert(self.view() =~= mpre.update(j as int, (k@, v.view())));
                }
                return ;
            }
            j = j + 1;
        }
        proof {
            lemma_entries_view_props(self.entries@);
            lemma_fields_insert_absent(self.view(), k@, v.view());
        }
        let ghost mpre = self.view();
        self.entries.push((k, v));
        proof {
            lemma_entries_view_props(self.entries@);
            assert(self.view() =~= mpre.push((k@, v.view())));
        }
    }

    /// Moves every entry of `other` into `self`, in order.
    pub fn merge(&mut self, other: Fields)
        ensures
            final(self).view() == spec_fields_merge(old(self).view(), other.view()),
    {
        let mut rest = other;
        while rest.entries.len() > 0
            invariant
                spec_fields_merge(self.view(), rest.view()) == spec_fields_merge(
                    old(self).view(),
                    other.view(),
                ),
            decreases rest.entries@.len(),
        {
            proof {
                lemma_entries_view_props(rest.entries@);
            }
            let ghost pre_self = self.view();
            let ghost pre_rest = rest.view();
            let e = rest.entries.remove(0);
            self.insert(e.0, e.1);
            proof {
                lemma_entries_view_props(rest.entries@);
                assert(rest.view() =~= pre_rest.subrange(1, pre_rest.len() as int));
            }
        }
        proof {
            lemma_entries_view_props(rest.entries@);
        }
    }

    /// First value under the key, if any.
    pub fn get(&self, k: &String) -> (r: Option<&Value>)
        ensures
            match spec_fields_get(self.view(), k@) {
                Some(v) => r matches Some(rv) && rv.view() == v,
                None => r is None,
            },
    {
        proof {
            lemma_entries_view_props(self.entries@);
        }
        let n = self.entries.len();
        proof {
            assert(self.view().subrange(0, n as int) =~= self.view());
        }
        let mut j: usize = 0;
        while j < n
            invariant
                n == self.entries@.len(),
                j <= n,
                spec_fields_get(self.view(), k@) == spec_fields_get(
                    self.view().subrange(j as int, n as int),
                    k@,
                ),
            decreases n - j,
        {
            proof {
                lemma_entries_view_props(self.entries@);
            }
            let ghost seen = self.view().subrange(j as int, n as int);
            if self.entries[j].0 == *k {
                return Some(&self.entries[j].1);
            }
            proof {
                assert(seen.subrange(1, seen.len() as int) =~= self.view().subrange(
                    j + 1,
                    n as int,
                ));
            }
            j = j + 1;
        }
        None
    }
}

} // verus!
