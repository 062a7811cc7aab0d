//! Serialization: the document rendered back to text, primary section first.
//! Scalars render to their literal forms, arrays and nested tables to inline
//! bracketed forms, and every top-level entry to a `[name]` section.

use vstd::prelude::*;
use crate::doc::{Document, SpecValue, Value, table_contains_key, table_get, table_keys_unique};
use crate::errors::{ErrorKind, ManifestError};

verus! {

/// How one character of a string value is written: the five characters that
/// would break the quoted form are escaped, all others stand as themselves.
pub open spec fn esc_char(c: char) -> Seq<char> {
    if c == '"' {
        seq!['\\', '"']
    } else if c == '\\' {
        seq!['\\', '\\']
    } else if c == '\n' {
        seq!['\\', 'n']
    } else if c == '\t' {
        seq!['\\', 't']
    } else if c == '\r' {
        seq!['\\', 'r']
    } else {
        seq![c]
    }
}

/// The escaped body of a quoted string.
pub open spec fn render_escaped(s: Seq<char>) -> Seq<char>
    decreases s.len(),
{
    if s.len() == 0 {
        Seq::empty()
    } else {
        render_escaped(s.drop_last()) + esc_char(s.last())
    }
}

pub open spec fn digit_char(d: nat) -> char {
    if d == 0 { '0' }
    else if d == 1 { '1' }
    else if d == 2 { '2' }
    else if d == 3 { '3' }
    else if d == 4 { '4' }
    else if d == 5 { '5' }
    else if d == 6 { '6' }
    else if d == 7 { '7' }
    else if d == 8 { '8' }
    else { '9' }
}

/// The decimal digits of `n`, most significant first.
pub open spec fn dec_digits(n: nat) -> Seq<char>
    decreases n,
{
    if n < 10 {
        seq![digit_char(n)]
    } else {
        dec_digits(n / 10).push(digit_char(n % 10))
    }
}

/// The literal form of an integer.
pub open spec fn render_int(i: i64) -> Seq<char> {
    if i < 0 {
        seq!['-'] + dec_digits((-(i as int)) as nat)
    } else {
        dec_digits(i as nat)
    }
}

/// The text of one value.
pub open spec fn render_value(v: SpecValue) -> Seq<char>
    decreases v,
{
    match v {
        SpecValue::Str(s) => seq!['"'] + render_escaped(s) + seq!['"'],
        SpecValue::Int(i) => render_int(i),
        SpecValue::Float(t) => t,
        SpecValue::Bool(b) => if b {
            seq!['t', 'r', 'u', 'e']
        } else {
            seq!['f', 'a', 'l', 's', 'e']
        },
        SpecValue::Datetime(t) => t,
        SpecValue::Arr(items) => seq!['['] + render_items(items) + seq![']'],
        SpecValue::Table(t) => if t.len() == 0 {
            seq!['{', '}']
        } else {
            seq!['{', ' '] + render_pairs(t) + seq![' ', '}']
        },
    }
}

/// Array elements, separated by commas.
pub open spec fn render_items(items: Seq<SpecValue>) -> Seq<char>
    decreases items,
{
    if items.len() == 0 {
        Seq::empty()
    } else if items.len() == 1 {
        render_value(items[0])
    } else {
        render_items(items.drop_last()) + seq![',', ' '] + render_value(items.last())
    }
}

/// Inline-table pairs, separated by commas.
pub open spec fn render_pairs(t: Seq<(Seq<char>, SpecValue)>) -> Seq<char>
    decreases t,
{
    if t.len() == 0 {
        Seq::empty()
    } else if t.len() == 1 {
        t[0].0 + seq![' ', '=', ' '] + render_value(t[0].1)
    } else {
        render_pairs(t.drop_last()) + seq![',', ' '] + t.last().0 + seq![' ', '=', ' ']
            + render_value(t.last().1)
    }
}

/// One `key = value` line.
pub open spec fn render_kv_line(p: (Seq<char>, SpecValue)) -> Seq<char> {
    p.0 + seq![' ', '=', ' '] + render_value(p.1) + seq!['\n']
}

/// The `key = value` lines of a section body, in entry order.
pub open spec fn render_kv_lines(t: Seq<(Seq<char>, SpecValue)>) -> Seq<char>
    decreases t,
{
    if t.len() == 0 {
        Seq::empty()
    } else {
        render_kv_lines(t.drop_last()) + render_kv_line(t.last())
    }
}

/// One `[name]` section with its body.
pub open spec fn render_section(name: Seq<char>, body: Seq<(Seq<char>, SpecValue)>) -> Seq<char> {
    seq!['['] + name + seq![']', '\n'] + render_kv_lines(body)
}

/// Every top-level entry but the one named `skip`, each as a section, in
/// entry order.
pub open spec fn render_rest(t: Seq<(Seq<char>, SpecValue)>, skip: Seq<char>) -> Seq<char>
    decreases t,
{
    if t.len() == 0 {
        Seq::empty()
    } else {
        render_rest(t.drop_last(), skip) + (if t.last().0 == skip {
            Seq::empty()
        } else {
            render_section(t.last().0, t.last().1->Table_0)
        })
    }
}

/// Whether the document has a primary section.
pub open spec fn has_primary(doc: Seq<(Seq<char>, SpecValue)>) -> bool {
    table_contains_key(doc, "package"@) || table_contains_key(doc, "project"@)
}

/// The primary section's key: "package" when present, else "project".
pub open spec fn primary_key(doc: Seq<(Seq<char>, SpecValue)>) -> Seq<char> {
    if table_contains_key(doc, "package"@) {
        "package"@
    } else {
        "project"@
    }
}

/// A document is writable when it has a primary section and every top-level
/// value is a table.
pub open spec fn renders_ok(doc: Seq<(Seq<char>, SpecValue)>) -> bool {
    has_primary(doc) && forall|i: int| 0 <= i < doc.len() ==> (#[trigger] doc[i].1) is Table
}

/// The whole document: the primary section first, regardless of its position
/// in the model, then every other section in entry order.
pub open spec fn render_doc(doc: Seq<(Seq<char>, SpecValue)>) -> Seq<char> {
    render_section(primary_key(doc), table_get(doc, primary_key(doc))->Table_0)
        + render_rest(doc, primary_key(doc))
}

fn digit_to_char(d: u64) -> (c: char)
    requires
        d < 10,
    ensures
        c == digit_char(d as nat),
{
    if d == 0 { '0' }
    else if d == 1 { '1' }
    else if d == 2 { '2' }
    else if d == 3 { '3' }
    else if d == 4 { '4' }
    else if d == 5 { '5' }
    else if d == 6 { '6' }
    else if d == 7 { '7' }
    else if d == 8 { '8' }
    else { '9' }
}

fn push_digits(out: &mut Vec<char>, n: u64)
    ensures
        final(out)@ == old(out)@ + dec_digits(n as nat),
    decreases n,
{
    if n < 10 {
        out.push(digit_to_char(n));
        proof {
            assert(final(out)@ =~= old(out)@ + dec_digits(n as nat));
        }
    } else {
        push_digits(out, n / 10);
        out.push(digit_to_char(n % 10));
        proof {
            assert(final(out)@ =~= old(out)@ + dec_digits(n as nat));
        }
    }
}

fn push_int(out: &mut Vec<char>, i: i64)
    ensures
        final(out)@ == old(out)@ + render_int(i),
{
    if i < 0 {
        out.push('-');
        let m: u64 = (-(i as i128)) as u64;
        proof {
            assert(m as nat == (-(i as int)) as nat);
        }
        push_digits(out, m);
        proof {
            assert(final(out)@ =~= old(out)@ + render_int(i));
        }
    } else {
        push_digits(out, i as u64);
    }
}

fn push_str_chars(out: &mut Vec<char>, s: &str)
    ensures
        final(out)@ == old(out)@ + s@,
{
    let n = s.unicode_len();
    let mut i: usize = 0;
    while i < n
        invariant
            0 <= i <= n,
            n == s@.len(),
            out@ == old(out)@ + s@.take(i as int),
        decreases n - i,
    {
        let c = s.get_char(i);
        out.push(c);
        proof {
            assert(s@.take(i as int + 1) =~= s@.take(i as int).push(s@[i as int]));
            assert(out@ =~= old(out)@ + s@.take(i as int + 1));
        }
        i += 1;
    }
    proof {
        assert(s@.take(n as int) =~= s@);
    }
}

fn push_escaped(out: &mut Vec<char>, s: &str)
    ensures
        final(out)@ == old(out)@ + render_escaped(s@),
{
    let n = s.unicode_len();
    let mut i: usize = 0;
    proof {
        assert(out@ =~= old(out)@ + render_escaped(s@.take(0)));
    }
    while i < n
        invariant
            0 <= i <= n,
            n == s@.len(),
            out@ == old(out)@ + render_escaped(s@.take(i as int)),
        decreases n - i,
    {
        let c = s.get_char(i);
        if c == '"' {
            out.push('\\');
            out.push('"');
        } else if c == '\\' {
            out.push('\\');
            out.push('\\');
        } else if c == '\n' {
            out.push('\\');
            out.push('n');
        } else if c == '\t' {
            out.push('\\');
            out.push('t');
        } else if c == '\r' {
            out.push('\\');
            out.push('r');
        } else {
            out.push(c);
        }
        proof {
            assert(s@.take(i as int + 1).drop_last() =~= s@.take(i as int));
            assert(s@.take(i as int + 1).last() == s@[i as int]);
            assert(out@ =~= old(out)@ + render_escaped(s@.take(i as int + 1)));
        }
        i += 1;
    }
    proof {
        assert(s@.take(n as int) =~= s@);
    }
}

/// Append the text of `v` to `out`.
fn push_value(out: &mut Vec<char>, v: &Value)
    ensures
        final(out)@ == old(out)@ + render_value(v.view()),
    decreases v,
{
    match v {
        Value::Str(s) => {
            out.push('"');
            push_escaped(out, s.as_str());
            out.push('"');
            proof {
                assert(out@ =~= old(out)@ + render_value(v.view()));
            }
        }
        Value::Int(i) => {
            push_int(out, *i);
        }
        Value::Float(t) => {
            push_str_chars(out, t.as_str());
        }
        Value::Bool(b) => {
            if *b {
                out.push('t');
                out.push('r');
                out.push('u');
                out.push('e');
            } else {
                out.push('f');
                out.push('a');
                out.push('l');
                out.push('s');
                out.push('e');
            }
            proof {
                assert(out@ =~= old(out)@ + render_value(v.view()));
            }
        }
        Value::Datetime(t) => {
            push_str_chars(out, t.as_str());
        }
        Value::Arr(items) => {
            out.push('[');
            let n = items.len();
            let mut j: usize = 0;
            proof {
                crate::doc::lemma_values_view(items@);
                assert(out@ =~= old(out)@ + seq!['[']
                    + render_items(crate::doc::values_view(items@).take(0)));
            }
            while j < n
                invariant
                    0 <= j <= n,
                    n == items@.len(),
                    *v == Value::Arr(*items),
                    crate::doc::values_view(items@).len() == n,
                    forall|k: int| 0 <= k < n
                        ==> crate::doc::values_view(items@)[k] == items@[k].view(),
                    out@ == old(out)@ + seq!['[']
                        + render_items(crate::doc::values_view(items@).take(j as int)),
                decreases n - j,
            {
                proof {
                    assert(decreases_to!(*v => v->Arr_0));
                    assert(decreases_to!(v->Arr_0 => v->Arr_0@));
                    assert(decreases_to!(v->Arr_0@ => v->Arr_0@[j as int]));
                    assert(items@ == v->Arr_0@);
                }
                if j > 0 {
                    out.push(',');
                    out.push(' ');
                }
                push_value(out, &items[j]);
                proof {
                    let vs = crate::doc::values_view(items@);
                    assert(vs.take(j as int + 1).drop_last() =~= vs.take(j as int));
                    assert(vs.take(j as int + 1).last() == items@[j as int].view());
                    if j == 0 {
                        assert(vs.take(1).len() == 1);
                        assert(vs.take(1)[0] == items@[0].view());
                        assert(render_items(vs.take(1)) == render_value(items@[0].view()));
                    }
                    assert(out@ =~= old(out)@ + seq!['['] + render_items(vs.take(j as int + 1)));
                }
                j += 1;
            }
            out.push(']');
            proof {
                let vs = crate::doc::values_view(items@);
                assert(vs.take(n as int) =~= vs);
                assert(out@ =~= old(out)@ + render_value(v.view()));
            }
        }
        Value::Table(d) => {
            let n = d.entries.len();
            if n == 0 {
                out.push('{');
                out.push('}');
                proof {
                    crate::doc::lemma_entries_view(d.entries@);
                    assert(out@ =~= old(out)@ + render_value(v.view()));
                }
                return;
            }
            out.push('{');
            out.push(' ');
            let mut j: usize = 0;
            proof {
                crate::doc::lemma_entries_view(d.entries@);
                assert(out@ =~= old(out)@ + seq!['{', ' ']
                    + render_pairs(crate::doc::entries_view(d.entries@).take(0)));
            }
            while j < n
                invariant
                    0 <= j <= n,
                    0 < n == d.entries@.len(),
                    *v == Value::Table(*d),
                    crate::doc::entries_view(d.entries@).len() == n,
                    forall|k: int| 0 <= k < n
                        ==> crate::doc::entries_view(d.entries@)[k]
                            == (d.entries@[k].0@, d.entries@[k].1.view()),
                    out@ == old(out)@ + seq!['{', ' ']
                        + render_pairs(crate::doc::entries_view(d.entries@).take(j as int)),
                decreases n - j,
            {
                proof {
                    assert(decreases_to!(*v => v->Table_0));
                    assert(decreases_to!(v->Table_0 => v->Table_0.entries));
                    assert(decreases_to!(v->Table_0.entries => v->Table_0.entries@));
                    assert(decreases_to!(v->Table_0.entries@ => v->Table_0.entries@[j as int]));
                    assert(decreases_to!(v->Table_0.entries@[j as int]
                        => v->Table_0.entries@[j as int].1));
                    assert(d.entries@ == v->Table_0.entries@);
                }
                if j > 0 {
                    out.push(',');
                    out.push(' ');
                }
                let ent = &d.entries[j];
                push_str_chars(out, ent.0.as_str());
                out.push(' ');
                out.push('=');
                out.push(' ');
                push_value(out, &ent.1);
                proof {
                    let ps = crate::doc::entries_view(d.entries@);
                    assert(ps.take(j as int + 1).drop_last() =~= ps.take(j as int));
                    assert(ps.take(j as int + 1).last()
                        == (d.entries@[j as int].0@, d.entries@[j as int].1.view()));
                    if j == 0 {
                        assert(ps.take(1).len() == 1);
                        assert(ps.take(1)[0] == (d.entries@[0].0@, d.entries@[0].1.view()));
                    }
                    assert(out@ =~= old(out)@ + seq!['{', ' ']
                        + render_pairs(ps.take(j as int + 1)));
                }
                j += 1;
            }
            out.push(' ');
            out.push('}');
            proof {
                let ps = crate::doc::entries_view(d.entries@);
                assert(ps.take(n as int) =~= ps);
                assert(out@ =~= old(out)@ + render_value(v.view()));
            }
        }
    }
}

/// Append one section: `[name]`, then the body's `key = value` lines.
fn push_section(out: &mut Vec<char>, name: &str, body: &Document)
    ensures
        final(out)@ == old(out)@ + render_section(name@, body.view()),
{
    out.push('[');
    push_str_chars(out, name);
    out.push(']');
    out.push('\n');
    let n = body.entries.len();
    let mut j: usize = 0;
    proof {
        crate::doc::lemma_entries_view(body.entries@);
        assert(out@ =~= old(out)@ + seq!['['] + name@ + seq![']', '\n']
            + render_kv_lines(body.view().take(0)));
    }
    while j < n
        invariant
            0 <= j <= n,
            n == body.entries@.len(),
            body.view() == crate::doc::entries_view(body.entries@),
            body.view().len() == n,
            forall|k: int| 0 <= k < n
                ==> body.view()[k] == (body.entries@[k].0@, body.entries@[k].1.view()),
            out@ == old(out)@ + seq!['['] + name@ + seq![']', '\n']
                + render_kv_lines(body.view().take(j as int)),
        decreases n - j,
    {
        let ent = &body.entries[j];
        push_str_chars(out, ent.0.as_str());
        out.push(' ');
        out.push('=');
        out.push(' ');
        push_value(out, &ent.1);
        out.push('\n');
        proof {
            let ps = body.view();
            assert(ps.take(j as int + 1).drop_last() =~= ps.take(j as int));
            assert(ps.take(j as int + 1).last()
                == (body.entries@[j as int].0@, body.entries@[j as int].1.view()));
            assert(out@ =~= old(out)@ + seq!['['] + name@ + seq![']', '\n']
                + render_kv_lines(ps.take(j as int + 1)));
        }
        j += 1;
    }
    proof {
        assert(body.view().take(n as int) =~= body.view());
    }
}

/// Relies on `String` collecting an iterator of `char`s: the result holds
/// exactly the vector's characters, in order.
#[verifier::external_body]
pub(crate) fn chars_to_string(v: &Vec<char>) -> (r: String)
    ensures
        r@ == v@,
{
    v.iter().collect()
}

impl Document {
    /// Whether every top-level value of this document is a table.
    pub fn all_values_are_tables(&self) -> (r: bool)
        ensures
            r == forall|i: int| 0 <= i < self.view().len() ==> (#[trigger] self.view()[i].1) is Table,
    {
        proof {
            crate::doc::lemma_entries_view(self.entries@);
        }
        let n = self.entries.len();
        let mut j: usize = 0;
        while j < n
            invariant
                0 <= j <= n,
                n == self.entries@.len(),
                self.view().len() == n,
                forall|k: int| 0 <= k < n
                    ==> self.view()[k] == (self.entries@[k].0@, self.entries@[k].1.view()),
                forall|k: int| 0 <= k < j ==> (#[trigger] self.view()[k].1) is Table,
            decreases n - j,
        {
            let is_table = match &self.entries[j].1 {
                Value::Table(_) => true,
                _ => false,
            };
            if !is_table {
                proof {
                    assert(!(self.view()[j as int].1 is Table));
                }
                return false;
            }
            j += 1;
        }
        true
    }
}

/// The serialized document: the primary section ("package", else "project")
/// first, then every other top-level entry as a section, in entry order. A
/// document with no primary section, or with a top-level value that is not a
/// table, is refused.
pub fn render_document(data: &Document) -> (r: Result<String, ManifestError>)
    requires
        table_keys_unique(data.view()),
    ensures
        match r {
            Ok(text) => renders_ok(data.view()) && text@ == render_doc(data.view()),
            Err(e) => !renders_ok(data.view()) && if !has_primary(data.view()) {
                e.kind == ErrorKind::MissingPrimarySection
            } else {
                e.kind == ErrorKind::TypeConflict
            },
        },
{
    proof {
        crate::doc::lemma_entries_view(data.entries@);
    }
    let pk: &str = if data.index_of("package").is_some() {
        "package"
    } else {
        "project"
    };
    let pi = match data.index_of(pk) {
        Some(i) => i,
        None => {
            proof {
                assert(!table_contains_key(data.view(), "package"@));
                assert(!table_contains_key(data.view(), "project"@));
            }
            return Err(ManifestError::new(ErrorKind::MissingPrimarySection));
        }
    };
    proof {
        assert(pk@ == primary_key(data.view()));
        crate::doc::lemma_unique_index(data.view(), pk@, pi as int);
    }
    if !data.all_values_are_tables() {
        return Err(ManifestError::new(ErrorKind::TypeConflict));
    }
    let primary = match &data.entries[pi].1 {
        Value::Table(d) => d,
        _ => unreached(),
    };
    proof {
        assert(data.view()[pi as int].1 == SpecValue::Table(primary.view()));
        assert(table_get(data.view(), pk@) == SpecValue::Table(primary.view()));
    }
    let mut out: Vec<char> = Vec::new();
    push_section(&mut out, pk, primary);
    let n = data.entries.len();
    let mut j: usize = 0;
    proof {
        assert(render_rest(data.view().take(0), pk@) =~= Seq::<char>::empty());
        assert(out@ =~= render_section(pk@, primary.view())
            + render_rest(data.view().take(0), pk@));
    }
    while j < n
        invariant
            0 <= j <= n,
            n == data.entries@.len(),
            data.view().len() == n,
            pk@ == primary_key(data.view()),
            forall|k: int| 0 <= k < n
                ==> data.view()[k] == (data.entries@[k].0@, data.entries@[k].1.view()),
            forall|k: int| 0 <= k < n ==> (#[trigger] data.view()[k].1) is Table,
            out@ == render_section(pk@, table_get(data.view(), pk@)->Table_0)
                + render_rest(data.view().take(j as int), pk@),
        decreases n - j,
    {
        let ent = &data.entries[j];
        let ghost pre = out@;
        if !crate::doc::str_eq(ent.0.as_str(), pk) {
            let body = match &ent.1 {
                Value::Table(d) => d,
                _ => unreached(),
            };
            proof {
                assert(data.view()[j as int].1 == SpecValue::Table(body.view()));
            }
            push_section(&mut out, ent.0.as_str(), body);
        }
        proof {
            let dv = data.view();
            assert(dv.take(j as int + 1).drop_last() =~= dv.take(j as int));
            assert(dv.take(j as int + 1).last() == dv[j as int]);
            if dv[j as int].0 == pk@ {
                assert(out@ == pre);
            }
            assert(out@ =~= render_section(pk@, table_get(dv, pk@)->Table_0)
                + render_rest(dv.take(j as int + 1), pk@));
        }
        j += 1;
    }
    proof {
        assert(data.view().take(n as int) =~= data.view());
        assert(out@ == render_doc(data.view()));
    }
    Ok(chars_to_string(&out))
}

} // verus!
