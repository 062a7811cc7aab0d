//! The document model: an ordered mapping from string keys to values, where a
//! value is a scalar, an array, or a nested table. Keys are unique within a
//! table and nesting is tree-shaped.

use vstd::prelude::*;

verus! {

broadcast use vstd::std_specs::vec::group_vec_axioms;

/// Mathematical model of a value: the deep view of `Value`.
pub enum SpecValue {
    Str(Seq<char>),
    Int(i64),
    Float(Seq<char>),
    Bool(bool),
    Datetime(Seq<char>),
    Arr(Seq<SpecValue>),
    Table(Seq<(Seq<char>, SpecValue)>),
}

/// A value of the configuration document. Float and datetime scalars keep
/// their source text: this core never computes with them, it only carries
/// them through.
pub enum Value {
    Str(String),
    Int(i64),
    Float(String),
    Bool(bool),
    Datetime(String),
    Arr(Vec<Value>),
    Table(Document),
}

/// An ordered mapping from keys to values. Insertion order is kept; keys are
/// unique when the document was built by this crate's parser or mutators.
pub struct Document {
    pub entries: Vec<(String, Value)>,
}

/// The deep views of the values of a sequence, in order.
pub open spec fn values_view(items: Seq<Value>) -> Seq<SpecValue>
    decreases items,
{
    if items.len() == 0 {
        Seq::empty()
    } else {
        seq![items[0].view()] + values_view(items.drop_first())
    }
}

/// The deep views of the entries of a table, in order.
pub open spec fn entries_view(es: Seq<(String, Value)>) -> Seq<(Seq<char>, SpecValue)>
    decreases es,
{
    if es.len() == 0 {
        Seq::empty()
    } else {
        seq![(es[0].0@, es[0].1.view())] + entries_view(es.drop_first())
    }
}

impl Value {
    /// The mathematical value this exec value stands for.
    pub open spec fn view(self) -> SpecValue
        decreases self,
    {
        match self {
            Value::Str(s) => SpecValue::Str(s@),
            Value::Int(i) => SpecValue::Int(i),
            Value::Float(t) => SpecValue::Float(t@),
            Value::Bool(b) => SpecValue::Bool(b),
            Value::Datetime(t) => SpecValue::Datetime(t@),
            Value::Arr(items) => SpecValue::Arr(values_view(items@)),
            Value::Table(d) => SpecValue::Table(entries_view(d.entries@)),
        }
    }
}

impl Document {
    /// The mathematical table this document stands for: its entries in order.
    pub open spec fn view(self) -> Seq<(Seq<char>, SpecValue)> {
        entries_view(self.entries@)
    }
}

/// Pointwise reading of `values_view`.
pub proof fn lemma_values_view(items: Seq<Value>)
    ensures
        values_view(items).len() == items.len(),
        forall|i: int| 0 <= i < items.len() ==> values_view(items)[i] == items[i].view(),
    decreases items.len(),
{
    if items.len() > 0 {
        lemma_values_view(items.drop_first());
    }
}

/// Pointwise reading of `entries_view`.
pub proof fn lemma_entries_view(es: Seq<(String, Value)>)
    ensures
        entries_view(es).len() == es.len(),
        forall|i: int| 0 <= i < es.len()
            ==> entries_view(es)[i] == (es[i].0@, es[i].1.view()),
    decreases es.len(),
{
    if es.len() > 0 {
        lemma_entries_view(es.drop_first());
    }
}

/// Whether `t` has an entry with key `k`.
pub open spec fn table_contains_key(t: Seq<(Seq<char>, SpecValue)>, k: Seq<char>) -> bool {
    exists|i: int| 0 <= i < t.len() && t[i].0 == k
}

/// The index of the entry with key `k` (meaningful when the key is present
/// and keys are unique).
pub open spec fn table_index_of(t: Seq<(Seq<char>, SpecValue)>, k: Seq<char>) -> int {
    choose|i: int| 0 <= i < t.len() && t[i].0 == k
}

/// The value at key `k`.
pub open spec fn table_get(t: Seq<(Seq<char>, SpecValue)>, k: Seq<char>) -> SpecValue {
    t[table_index_of(t, k)].1
}

/// Keys are pairwise distinct.
pub open spec fn table_keys_unique(t: Seq<(Seq<char>, SpecValue)>) -> bool {
    forall|i: int, j: int| 0 <= i < j < t.len() ==> t[i].0 != t[j].0
}

/// Set key `k` to `v`: replace the entry in place when the key is present,
/// append it otherwise.
pub open spec fn table_set(
    t: Seq<(Seq<char>, SpecValue)>,
    k: Seq<char>,
    v: SpecValue,
) -> Seq<(Seq<char>, SpecValue)> {
    if table_contains_key(t, k) {
        t.update(table_index_of(t, k), (k, v))
    } else {
        t.push((k, v))
    }
}

/// Keys are unique at every nesting level.
pub open spec fn table_wf(t: Seq<(Seq<char>, SpecValue)>) -> bool
    decreases t,
{
    table_keys_unique(t) && forall|i: int| 0 <= i < t.len() ==> value_wf(#[trigger] t[i].1)
}

pub open spec fn value_wf(v: SpecValue) -> bool
    decreases v,
{
    match v {
        SpecValue::Arr(items) => forall|i: int| 0 <= i < items.len() ==> value_wf(#[trigger] items[i]),
        SpecValue::Table(t) => table_wf(t),
        _ => true,
    }
}

/// `values_view` of a sequence with one value appended.
pub proof fn lemma_values_view_push(items: Seq<Value>, v: Value)
    ensures
        values_view(items.push(v)) == values_view(items).push(v.view()),
{
    lemma_values_view(items);
    lemma_values_view(items.push(v));
    assert(values_view(items.push(v)) =~= values_view(items).push(v.view()));
}

/// `entries_view` of a sequence with one entry appended.
pub proof fn lemma_entries_view_push(es: Seq<(String, Value)>, e: (String, Value))
    ensures
        entries_view(es.push(e)) == entries_view(es).push((e.0@, e.1.view())),
{
    lemma_entries_view(es);
    lemma_entries_view(es.push(e));
    assert(entries_view(es.push(e)) =~= entries_view(es).push((e.0@, e.1.view())));
}

/// Appending a fresh key with a well-formed value keeps a table well formed.
pub proof fn lemma_table_push_wf(t: Seq<(Seq<char>, SpecValue)>, k: Seq<char>, v: SpecValue)
    requires
        table_wf(t),
        !table_contains_key(t, k),
        value_wf(v),
    ensures
        table_wf(t.push((k, v))),
        table_contains_key(t.push((k, v)), k),
{
    let t2 = t.push((k, v));
    assert(forall|i: int| 0 <= i < t.len() ==> t[i].0 != k);
    assert(t2[t.len() as int].0 == k);
    assert forall|i: int, j: int| 0 <= i < j < t2.len() implies t2[i].0 != t2[j].0 by {
        if j < t.len() {
        } else {
            assert(t2[i].0 == t[i].0);
        }
    }
    assert forall|i: int| 0 <= i < t2.len() implies value_wf(#[trigger] t2[i].1) by {
        if i < t.len() {
            assert(t2[i] == t[i]);
        }
    }
}

/// Setting a key preserves key uniqueness.
pub proof fn lemma_table_set_unique(t: Seq<(Seq<char>, SpecValue)>, k: Seq<char>, v: SpecValue)
    requires
        table_keys_unique(t),
    ensures
        table_keys_unique(table_set(t, k, v)),
        table_contains_key(table_set(t, k, v), k),
        table_get(table_set(t, k, v), k) == v,
        forall|k2: Seq<char>| k2 != k ==> table_contains_key(table_set(t, k, v), k2)
            == table_contains_key(t, k2),
        forall|k2: Seq<char>| k2 != k && table_contains_key(t, k2)
            ==> table_get(table_set(t, k, v), k2) == table_get(t, k2),
{
    let t2 = table_set(t, k, v);
    if table_contains_key(t, k) {
        let i = table_index_of(t, k);
        assert(0 <= i < t.len() && t[i].0 == k);
        assert(t2[i].0 == k);
        assert(forall|j: int| 0 <= j < t.len() && j != i ==> t[j].0 != k);
        lemma_unique_index(t2, k, i);
        assert forall|k2: Seq<char>| k2 != k && table_contains_key(t, k2)
            implies table_contains_key(t2, k2) && table_get(t2, k2) == table_get(t, k2) by {
            let j = table_index_of(t, k2);
            assert(0 <= j < t.len() && t[j].0 == k2);
            assert(j != i);
            assert(t2[j].0 == k2);
            lemma_unique_index(t, k2, j);
            lemma_unique_index(t2, k2, j);
        }
        assert forall|k2: Seq<char>| k2 != k && table_contains_key(t2, k2)
            implies table_contains_key(t, k2) by {
            let j = table_index_of(t2, k2);
            assert(t[j].0 == k2);
        }
    } else {
        let i = t.len() as int;
        assert(t2[i].0 == k);
        assert(forall|j: int| 0 <= j < t.len() ==> t[j].0 != k);
        lemma_unique_index(t2, k, i);
        assert forall|k2: Seq<char>| k2 != k && table_contains_key(t, k2)
            implies table_contains_key(t2, k2) && table_get(t2, k2) == table_get(t, k2) by {
            let j = table_index_of(t, k2);
            assert(t2[j].0 == k2);
            lemma_unique_index(t, k2, j);
            lemma_unique_index(t2, k2, j);
        }
        assert forall|k2: Seq<char>| k2 != k && table_contains_key(t2, k2)
            implies table_contains_key(t, k2) by {
            let j = table_index_of(t2, k2);
            assert(j != i);
            assert(t[j].0 == k2);
        }
    }
}

/// With unique keys, the index of a present key is the one index that holds it.
pub proof fn lemma_unique_index(t: Seq<(Seq<char>, SpecValue)>, k: Seq<char>, i: int)
    requires
        table_keys_unique(t),
        0 <= i < t.len(),
        t[i].0 == k,
    ensures
        table_contains_key(t, k),
        table_index_of(t, k) == i,
{
    assert(table_contains_key(t, k));
    let j = table_index_of(t, k);
    assert(0 <= j < t.len() && t[j].0 == k);
    if i < j {
        assert(t[i].0 != t[j].0);
    } else if j < i {
        assert(t[j].0 != t[i].0);
    }
}

/// Exec equality of two string slices, decided character by character.
pub fn str_eq(a: &str, b: &str) -> (r: bool)
    ensures
        r == (a@ == b@),
{
    let alen = a.unicode_len();
    let blen = b.unicode_len();
    if alen != blen {
        proof {
            assert(a@ != b@);
        }
        return false;
    }
    let mut i: usize = 0;
    while i < alen
        invariant
            0 <= i <= alen,
            alen == a@.len(),
            alen == b@.len(),
            forall|j: int| 0 <= j < i ==> a@[j] == b@[j],
        decreases alen - i,
    {
        if a.get_char(i) != b.get_char(i) {
            proof {
                assert(a@[i as int] != b@[i as int]);
            }
            return false;
        }
        i += 1;
    }
    proof {
        assert(a@ =~= b@);
    }
    true
}

impl Value {
    /// A copy of this value, equal to it in the model.
    pub fn deep_clone(&self) -> (r: Value)
        ensures
            r.view() == self.view(),
        decreases self,
    {
        match self {
            Value::Str(s) => Value::Str(s.clone()),
            Value::Int(i) => Value::Int(*i),
            Value::Float(t) => Value::Float(t.clone()),
            Value::Bool(b) => Value::Bool(*b),
            Value::Datetime(t) => Value::Datetime(t.clone()),
            Value::Arr(items) => {
                let n = items.len();
                let mut out: Vec<Value> = Vec::new();
                let mut j: usize = 0;
                while j < n
                    invariant
                        0 <= j <= n,
                        n == items@.len(),
                        *self == Value::Arr(*items),
                        out@.len() == j,
                        forall|k: int| 0 <= k < j ==> out@[k].view() == items@[k].view(),
                    decreases n - j,
                {
                    proof {
                        assert(decreases_to!(*self => self->Arr_0));
                        assert(decreases_to!(self->Arr_0 => self->Arr_0@));
                        assert(decreases_to!(self->Arr_0@ => self->Arr_0@[j as int]));
                        assert(items@ == self->Arr_0@);
                    }
                    out.push(items[j].deep_clone());
                    j += 1;
                }
                proof {
                    lemma_values_view(out@);
                    lemma_values_view(items@);
                    assert(values_view(out@) =~= values_view(items@));
                }
                Value::Arr(out)
            }
            Value::Table(d) => Value::Table(d.deep_clone()),
        }
    }
}

impl Document {
    /// A copy of this document, equal to it in the model.
    pub fn deep_clone(&self) -> (r: Document)
        ensures
            r.view() == self.view(),
        decreases self,
    {
        let n = self.entries.len();
        let mut out: Vec<(String, Value)> = Vec::new();
        let mut j: usize = 0;
        while j < n
            invariant
                0 <= j <= n,
                n == self.entries@.len(),
                out@.len() == j,
                forall|k: int| 0 <= k < j
                    ==> out@[k].0@ == self.entries@[k].0@
                        && out@[k].1.view() == self.entries@[k].1.view(),
            decreases n - j,
        {
            let ent = &self.entries[j];
            out.push((ent.0.clone(), ent.1.deep_clone()));
            j += 1;
        }
        proof {
            lemma_entries_view(out@);
            lemma_entries_view(self.entries@);
            assert(entries_view(out@) =~= entries_view(self.entries@));
        }
        Document { entries: out }
    }
}

impl Document {
    /// An empty document.
    pub fn new() -> (d: Document)
        ensures
            d.view() == Seq::<(Seq<char>, SpecValue)>::empty(),
    {
        let d = Document { entries: Vec::new() };
        proof {
            assert(d.view() =~= Seq::<(Seq<char>, SpecValue)>::empty());
        }
        d
    }

    /// The index of the first entry whose key is `key`, if any.
    pub fn index_of(&self, key: &str) -> (r: Option<usize>)
        ensures
            match r {
                Some(i) => i < self.view().len() && self.view()[i as int].0 == key@
                    && forall|j: int| 0 <= j < i ==> self.view()[j].0 != key@,
                None => !table_contains_key(self.view(), key@),
            },
    {
        proof {
            lemma_entries_view(self.entries@);
        }
        let n = self.entries.len();
        let mut i: usize = 0;
        while i < n
            invariant
                0 <= i <= n,
                n == self.entries@.len(),
                self.view() == entries_view(self.entries@),
                self.view().len() == n,
                forall|j: int| 0 <= j < self.view().len()
                    ==> self.view()[j] == (self.entries@[j].0@, self.entries@[j].1.view()),
                forall|j: int| 0 <= j < i ==> self.view()[j].0 != key@,
            decreases n - i,
        {
            if str_eq(self.entries[i].0.as_str(), key) {
                return Some(i);
            }
            i += 1;
        }
        None
    }

    /// A borrow of the value at `key`, if the key is present.
    pub fn get<'a>(&'a self, key: &str) -> (r: Option<&'a Value>)
        ensures
            match r {
                Some(v) => table_contains_key(self.view(), key@)
                    && (table_keys_unique(self.view()) ==> v.view() == table_get(self.view(), key@)),
                None => !table_contains_key(self.view(), key@),
            },
    {
        match self.index_of(key) {
            Some(i) => {
                proof {
                    lemma_entries_view(self.entries@);
                }
                let v = &self.entries[i].1;
                proof {
                    assert(self.view()[i as int].1 == v.view());
                    if table_keys_unique(self.view()) {
                        lemma_unique_index(self.view(), key@, i as int);
                    }
                }
                Some(v)
            }
            None => None,
        }
    }

    /// Set `key` to `val`: replace the existing entry in place, or append a
    /// new one.
    pub fn set(&mut self, key: String, val: Value)
        requires
            table_keys_unique(old(self).view()),
        ensures
            final(self).view() == table_set(old(self).view(), key@, val.view()),
            table_keys_unique(final(self).view()),
    {
        proof {
            lemma_table_set_unique(old(self).view(), key@, val.view());
            lemma_entries_view(old(self).entries@);
        }
        match self.index_of(key.as_str()) {
            Some(i) => {
                proof {
                    lemma_unique_index(old(self).view(), key@, i as int);
                }
                self.entries[i] = (key, val);
                proof {
                    lemma_entries_view(self.entries@);
                    assert(self.view() =~= table_set(old(self).view(), key@, val.view()));
                }
            }
            None => {
                self.entries.push((key, val));
                proof {
                    lemma_entries_view(self.entries@);
                    assert(self.view() =~= table_set(old(self).view(), key@, val.view()));
                }
            }
        }
    }
}

} // verus!
