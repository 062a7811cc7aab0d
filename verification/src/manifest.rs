//! The manifest: one document, mutated through the dependency-insertion API.

use vstd::prelude::*;
use crate::doc::{
    Document, SpecValue, Value, entries_view, lemma_entries_view, lemma_table_set_unique,
    lemma_unique_index, table_contains_key, table_get, table_keys_unique, table_set, table_wf,
    value_wf,
};
use crate::errors::{ErrorKind, ManifestError, ParseError};

verus! {

/// A dependency: a name and its version/feature specification.
pub type Dependency = (String, Value);

/// A parsed manifest, owning its document model.
pub struct Manifest {
    /// Manifest contents as document data.
    pub data: Document,
}

/// What a single dependency insertion does to a document: the dependency
/// table is created when absent, the entry is set (last write wins), and a
/// non-table value under the table's key refuses the insertion.
pub open spec fn spec_insert(
    doc: Seq<(Seq<char>, SpecValue)>,
    table: Seq<char>,
    name: Seq<char>,
    v: SpecValue,
) -> Option<Seq<(Seq<char>, SpecValue)>> {
    let t0 = if table_contains_key(doc, table) {
        table_get(doc, table)
    } else {
        SpecValue::Table(Seq::empty())
    };
    match t0 {
        SpecValue::Table(t) => Some(table_set(doc, table, SpecValue::Table(table_set(t, name, v)))),
        _ => None,
    }
}

/// What `add_deps` does: insertions in order, stopping at the first failure.
/// Returns the resulting document and the index of the first failing entry,
/// if any; entries before that index remain applied.
pub open spec fn spec_add_deps(
    doc: Seq<(Seq<char>, SpecValue)>,
    table: Seq<char>,
    deps: Seq<(Seq<char>, SpecValue)>,
) -> (Seq<(Seq<char>, SpecValue)>, Option<int>)
    decreases deps.len(),
{
    if deps.len() == 0 {
        (doc, None)
    } else {
        match spec_insert(doc, table, deps[0].0, deps[0].1) {
            Some(d2) => {
                let (d3, f) = spec_add_deps(d2, table, deps.drop_first());
                (d3, match f {
                    None => None,
                    Some(j) => Some(j + 1),
                })
            }
            None => (doc, Some(0int)),
        }
    }
}

/// Setting a key to a well-formed value keeps the table well formed.
pub proof fn lemma_table_set_wf(t: Seq<(Seq<char>, SpecValue)>, k: Seq<char>, v: SpecValue)
    requires
        table_wf(t),
        value_wf(v),
    ensures
        table_wf(table_set(t, k, v)),
{
    lemma_table_set_unique(t, k, v);
    let t2 = table_set(t, k, v);
    assert forall|i: int| 0 <= i < t2.len() implies value_wf(#[trigger] t2[i].1) by {
        if table_contains_key(t, k) {
            let idx = crate::doc::table_index_of(t, k);
            if i != idx {
                assert(t2[i] == t[i]);
            }
        } else {
            if i < t.len() {
                assert(t2[i] == t[i]);
            }
        }
    }
}

/// A successful insertion keeps the document well formed.
pub proof fn lemma_spec_insert_wf(
    doc: Seq<(Seq<char>, SpecValue)>,
    table: Seq<char>,
    name: Seq<char>,
    v: SpecValue,
)
    requires
        table_wf(doc),
        value_wf(v),
        spec_insert(doc, table, name, v) is Some,
    ensures
        table_wf(spec_insert(doc, table, name, v)->Some_0),
{
    let t0 = if table_contains_key(doc, table) {
        table_get(doc, table)
    } else {
        SpecValue::Table(Seq::empty())
    };
    let t = t0->Table_0;
    if table_contains_key(doc, table) {
        let idx = crate::doc::table_index_of(doc, table);
        assert(value_wf(doc[idx].1));
    }
    assert(table_wf(t));
    lemma_table_set_wf(t, name, v);
    lemma_table_set_wf(doc, table, SpecValue::Table(table_set(t, name, v)));
}

impl Manifest {
    /// Read manifest data from a string, stopping at the first structural
    /// error of the text. A parsed manifest has unique keys at every level.
    pub fn from_str(input: &str) -> (r: Result<Manifest, ParseError>)
        ensures
            match r {
                Ok(m) => crate::parse::spec_parse_doc(input@, 0, Seq::empty(), None)
                    == Some(m.data.view()) && table_wf(m.data.view()),
                Err(_) => crate::parse::spec_parse_doc(input@, 0, Seq::empty(), None) is None,
            },
    {
        match crate::parse::parse_text(input) {
            Ok(d) => Ok(Manifest { data: d }),
            Err(e) => Err(e),
        }
    }

    /// The manifest serialized back to text: the primary section ("package",
    /// else "project") first, whatever its position in the model, then every
    /// other top-level entry as a section, in entry order. A manifest with no
    /// primary section, or with a top-level value that is not a table, is
    /// refused.
    pub fn render(&self) -> (r: Result<String, ManifestError>)
        requires
            table_keys_unique(self.data.view()),
        ensures
            match r {
                Ok(text) => crate::render::renders_ok(self.data.view())
                    && text@ == crate::render::render_doc(self.data.view()),
                Err(e) => !crate::render::renders_ok(self.data.view())
                    && if !crate::render::has_primary(self.data.view()) {
                        e.kind == ErrorKind::MissingPrimarySection
                    } else {
                        e.kind == ErrorKind::TypeConflict
                    },
            },
    {
        crate::render::render_document(&self.data)
    }

    /// Add an entry to a dependency table of the manifest, creating the table
    /// when it is absent and replacing an entry of the same name. Fails, and
    /// leaves the document unchanged, when the table's key already holds a
    /// value that is not a table.
    pub fn insert_into_table(&mut self, table: &str, dep: &Dependency) -> (r: Result<
        (),
        ManifestError,
    >)
        requires
            table_wf(old(self).data.view()),
            value_wf(dep.1.view()),
        ensures
            match r {
                Ok(()) => spec_insert(old(self).data.view(), table@, dep.0@, dep.1.view())
                    == Some(final(self).data.view()),
                Err(e) => spec_insert(old(self).data.view(), table@, dep.0@, dep.1.view()) is None
                    && *final(self) == *old(self)
                    && e.kind == ErrorKind::TypeConflict,
            },
            table_wf(final(self).data.view()),
    {
        proof {
            lemma_entries_view(self.data.entries@);
        }
        let name = dep.0.clone();
        let val = dep.1.deep_clone();
        match self.data.index_of(table) {
            None => {
                let mut inner = Document::new();
                inner.set(name, val);
                let tv = Value::Table(inner);
                proof {
                    lemma_unique_index_absent(self.data.view(), table@);
                    lemma_spec_insert_wf(self.data.view(), table@, dep.0@, dep.1.view());
                }
                self.data.set(string_copy(table), tv);
                Ok(())
            }
            Some(i) => {
                proof {
                    lemma_unique_index(self.data.view(), table@, i as int);
                }
                let is_table = match &self.data.entries[i].1 {
                    Value::Table(_) => true,
                    _ => false,
                };
                if !is_table {
                    return Err(ManifestError::new(ErrorKind::TypeConflict));
                }
                let inner_ref = match &self.data.entries[i].1 {
                    Value::Table(d) => d,
                    _ => unreached(),
                };
                let mut inner = inner_ref.deep_clone();
                proof {
                    assert(self.data.view()[i as int].1 == self.data.entries@[i as int].1.view());
                    assert(self.data.view()[i as int].1 == SpecValue::Table(inner_ref.view()));
                    assert(value_wf(self.data.view()[i as int].1));
                    assert(table_wf(inner_ref.view()));
                    assert(table_keys_unique(inner.view()));
                }
                inner.set(name, val);
                let tv = Value::Table(inner);
                proof {
                    lemma_spec_insert_wf(self.data.view(), table@, dep.0@, dep.1.view());
                }
                self.data.set(string_copy(table), tv);
                Ok(())
            }
        }
    }

    /// Add multiple dependencies to one table, in order, failing fast on the
    /// first refused insertion; entries inserted before it remain applied.
    pub fn add_deps(&mut self, table: &str, deps: &Vec<Dependency>) -> (r: Result<
        (),
        ManifestError,
    >)
        requires
            table_wf(old(self).data.view()),
            forall|i: int| 0 <= i < deps@.len() ==> value_wf(#[trigger] deps@[i].1.view()),
        ensures
            final(self).data.view()
                == spec_add_deps(old(self).data.view(), table@, entries_view(deps@)).0,
            match r {
                Ok(()) => spec_add_deps(old(self).data.view(), table@, entries_view(deps@)).1
                    is None,
                Err(e) => spec_add_deps(old(self).data.view(), table@, entries_view(deps@)).1
                    is Some && e.kind == ErrorKind::TypeConflict,
            },
            table_wf(final(self).data.view()),
    {
        proof {
            lemma_entries_view(deps@);
        }
        let ghost full = entries_view(deps@);
        let ghost doc0 = self.data.view();
        proof {
            assert(full.skip(0) =~= full);
        }
        let n = deps.len();
        let mut i: usize = 0;
        while i < n
            invariant
                0 <= i <= n,
                n == deps@.len(),
                doc0 == old(self).data.view(),
                full == entries_view(deps@),
                full.len() == n,
                forall|k: int| 0 <= k < n ==> full[k] == (deps@[k].0@, deps@[k].1.view()),
                forall|k: int| 0 <= k < deps@.len() ==> value_wf(#[trigger] deps@[k].1.view()),
                table_wf(self.data.view()),
                spec_add_deps(doc0, table@, full)
                    == (spec_add_deps(self.data.view(), table@, full.skip(i as int)).0,
                        shift_failure(
                            spec_add_deps(self.data.view(), table@, full.skip(i as int)).1,
                            i as int,
                        )),
            decreases n - i,
        {
            let ghost before = self.data.view();
            let ghost rest = full.skip(i as int);
            match self.insert_into_table(table, &deps[i]) {
                Ok(()) => {
                    proof {
                        assert(rest.len() > 0);
                        assert(rest[0] == full[i as int]);
                        assert(rest.drop_first() =~= full.skip(i as int + 1));
                        assert(spec_insert(before, table@, rest[0].0, rest[0].1)
                            == Some(self.data.view()));
                        assert(spec_add_deps(before, table@, rest).0
                            == spec_add_deps(self.data.view(), table@, full.skip(i as int + 1)).0);
                        assert(spec_add_deps(before, table@, rest).1 == shift_failure(
                            spec_add_deps(self.data.view(), table@, full.skip(i as int + 1)).1,
                            1,
                        ));
                    }
                }
                Err(e) => {
                    proof {
                        assert(rest.len() > 0);
                        assert(rest[0] == full[i as int]);
                        assert(spec_add_deps(before, table@, rest).1 == Some(0int));
                        assert(spec_add_deps(before, table@, rest).0 == before);
                        assert(self.data.view() == spec_add_deps(doc0, table@, full).0);
                        assert(spec_add_deps(doc0, table@, full).1 == Some(i as int));
                    }
                    return Err(e);
                }
            }
            i += 1;
        }
        proof {
            assert(full.skip(n as int) =~= Seq::<(Seq<char>, SpecValue)>::empty());
            assert(spec_add_deps(self.data.view(), table@, full.skip(n as int))
                == (self.data.view(), None::<int>));
        }
        Ok(())
    }
}

/// The failure index seen from `i` entries earlier.
pub open spec fn shift_failure(f: Option<int>, i: int) -> Option<int> {
    match f {
        None => None,
        Some(j) => Some(j + i),
    }
}

/// A key that `index_of` misses is absent.
proof fn lemma_unique_index_absent(t: Seq<(Seq<char>, SpecValue)>, k: Seq<char>)
    requires
        !table_contains_key(t, k),
    ensures
        forall|i: int| 0 <= i < t.len() ==> t[i].0 != k,
{
}

/// An owned copy of a borrowed string slice.
pub fn string_copy(s: &str) -> (r: String)
    ensures
        r@ == s@,
{
    s.to_owned()
}

/// Inserting the same dependency twice yields the same document as inserting
/// it once.
pub proof fn lemma_insert_idempotent(
    doc: Seq<(Seq<char>, SpecValue)>,
    table: Seq<char>,
    name: Seq<char>,
    v: SpecValue,
)
    requires
        table_wf(doc),
        spec_insert(doc, table, name, v) is Some,
    ensures
        spec_insert(spec_insert(doc, table, name, v)->Some_0, table, name, v)
            == spec_insert(doc, table, name, v),
{
    let t0 = if table_contains_key(doc, table) {
        table_get(doc, table)
    } else {
        SpecValue::Table(Seq::empty())
    };
    let t = t0->Table_0;
    assert(t0 is Table);
    if table_contains_key(doc, table) {
        let idx = crate::doc::table_index_of(doc, table);
        assert(value_wf(doc[idx].1));
        assert(doc[idx].1 == t0);
        assert(table_wf(t));
    } else {
        assert(t =~= Seq::<(Seq<char>, SpecValue)>::empty());
        assert(table_wf(t));
    }
    assert(table_keys_unique(t));
    let t1 = table_set(t, name, v);
    lemma_table_set_unique(t, name, v);
    let d1 = table_set(doc, table, SpecValue::Table(t1));
    lemma_table_set_unique(doc, table, SpecValue::Table(t1));
    assert(table_contains_key(d1, table));
    assert(table_get(d1, table) == SpecValue::Table(t1));
    // setting (name, v) again in t1 changes nothing
    lemma_table_set_unique(t1, name, v);
    let i1 = crate::doc::table_index_of(t1, name);
    assert(t1[i1] == (name, v));
    assert(table_set(t1, name, v) =~= t1);
    // setting the table's key to the same table value changes nothing
    let i2 = crate::doc::table_index_of(d1, table);
    assert(d1[i2] == (table, SpecValue::Table(t1)));
    assert(table_set(d1, table, SpecValue::Table(t1)) =~= d1);
}

/// Adding one dependency twice in one call yields the same document as adding
/// it once.
pub proof fn lemma_add_deps_idempotent(
    doc: Seq<(Seq<char>, SpecValue)>,
    table: Seq<char>,
    dep: (Seq<char>, SpecValue),
)
    requires
        table_wf(doc),
    ensures
        spec_add_deps(doc, table, seq![dep, dep]).0 == spec_add_deps(doc, table, seq![dep]).0,
{
    let two = seq![dep, dep];
    let one = seq![dep];
    let e = Seq::<(Seq<char>, SpecValue)>::empty();
    match spec_insert(doc, table, dep.0, dep.1) {
        Some(d2) => {
            lemma_insert_idempotent(doc, table, dep.0, dep.1);
            assert(spec_insert(d2, table, dep.0, dep.1) == Some(d2));
            assert(two.drop_first() =~= one);
            assert(one.drop_first() =~= e);
            assert(spec_add_deps(d2, table, e) == (d2, None::<int>));
            assert(spec_add_deps(d2, table, one).0 == d2);
            assert(spec_add_deps(doc, table, one).0 == d2);
            assert(spec_add_deps(doc, table, two).0 == spec_add_deps(d2, table, one).0);
        }
        None => {
            assert(spec_add_deps(doc, table, two).0 == doc);
            assert(spec_add_deps(doc, table, one).0 == doc);
        }
    }
}

/// Fail-fast without rollback: when `add_deps` fails at index `j`, exactly
/// the first `j` entries are applied, in order, and the failing insertion is
/// refused from that intermediate document.
pub proof fn lemma_add_deps_fail_fast(
    doc: Seq<(Seq<char>, SpecValue)>,
    table: Seq<char>,
    deps: Seq<(Seq<char>, SpecValue)>,
)
    ensures
        match spec_add_deps(doc, table, deps).1 {
            Some(j) => 0 <= j < deps.len()
                && spec_add_deps(doc, table, deps.take(j)) == (spec_add_deps(doc, table, deps).0, None::<int>)
                && spec_insert(spec_add_deps(doc, table, deps).0, table, deps[j].0, deps[j].1) is None,
            None => true,
        },
    decreases deps.len(),
{
    if deps.len() > 0 {
        match spec_insert(doc, table, deps[0].0, deps[0].1) {
            Some(d2) => {
                lemma_add_deps_fail_fast(d2, table, deps.drop_first());
                match spec_add_deps(d2, table, deps.drop_first()).1 {
                    Some(j) => {
                        assert(deps.take(j + 1).drop_first() =~= deps.drop_first().take(j));
                        assert(deps.drop_first()[j] == deps[j + 1]);
                    }
                    None => {}
                }
            }
            None => {
                assert(deps.take(0) =~= Seq::<(Seq<char>, SpecValue)>::empty());
            }
        }
    }
}

} // verus!
