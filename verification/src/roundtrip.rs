//! Round-trip laws: parsing the rendered text of a value yields exactly that
//! value, wherever it stands in a larger text. Proved for every value made of
//! strings, integers, booleans, arrays and nested tables; float and datetime
//! scalars, whose texts pass through this core unread, are left out. The
//! document-level shape (primary section first, every entry rendered) is
//! pinned by `render`'s contract.

use vstd::prelude::*;
use crate::doc::{SpecValue, table_contains_key, table_keys_unique};
use crate::parse::{
    all_digits, digit_val, digits_val, int_token_val, is_digit, is_int_token, is_key_char,
    is_token_char, is_ws, spec_classify_token, spec_key_end, spec_parse_items, spec_parse_pairs,
    spec_parse_string_body, spec_parse_value, spec_skip_ws, spec_token_end, unescape,
};
use crate::render::{
    dec_digits, digit_char, esc_char, render_escaped, render_int, render_items, render_pairs,
    render_value,
};

verus! {

/// The values this law covers: everything but float and datetime scalars,
/// with table keys that are nonempty bare keys, unique within their table.
pub open spec fn renderable(v: SpecValue) -> bool
    decreases v,
{
    match v {
        SpecValue::Str(_) => true,
        SpecValue::Int(_) => true,
        SpecValue::Bool(_) => true,
        SpecValue::Float(_) => false,
        SpecValue::Datetime(_) => false,
        SpecValue::Arr(items) => forall|k: int| 0 <= k < items.len()
            ==> renderable(#[trigger] items[k]),
        SpecValue::Table(t) => table_keys_unique(t) && forall|k: int| 0 <= k < t.len()
            ==> (#[trigger] t[k]).0.len() > 0
                && (forall|m: int| 0 <= m < t[k].0.len() ==> is_key_char(#[trigger] t[k].0[m]))
                && renderable(t[k].1),
    }
}

/// `render_escaped` peeled from the front instead of the back.
proof fn lemma_render_escaped_first(s: Seq<char>)
    requires
        s.len() > 0,
    ensures
        render_escaped(s) == esc_char(s[0]) + render_escaped(s.drop_first()),
    decreases s.len(),
{
    if s.len() == 1 {
        assert(s.drop_last() =~= Seq::<char>::empty());
        assert(s.drop_first() =~= Seq::<char>::empty());
        assert(render_escaped(s) =~= esc_char(s[0]) + render_escaped(s.drop_first()));
    } else {
        let d = s.drop_last();
        lemma_render_escaped_first(d);
        assert(s.drop_first().drop_last() =~= d.drop_first());
        assert(s.drop_first().last() == s.last());
        assert((esc_char(s[0]) + render_escaped(d.drop_first())) + esc_char(s.last())
            =~= esc_char(s[0]) + (render_escaped(d.drop_first()) + esc_char(s.last())));
        assert(render_escaped(s) =~= esc_char(s[0]) + render_escaped(s.drop_first()));
    }
}

/// `render_items` peeled from the front instead of the back.
proof fn lemma_render_items_first(items: Seq<SpecValue>)
    requires
        items.len() >= 2,
    ensures
        render_items(items) == render_value(items[0]) + seq![',', ' ']
            + render_items(items.drop_first()),
    decreases items.len(),
{
    if items.len() == 2 {
        assert(items.drop_last() =~= seq![items[0]]);
        assert(items.drop_first() =~= seq![items[1]]);
        assert(render_items(seq![items[0]]) == render_value(items[0]));
        assert(render_items(seq![items[1]]) == render_value(items[1]));
        assert(render_items(items) =~= render_value(items[0]) + seq![',', ' ']
            + render_items(items.drop_first()));
    } else {
        let d = items.drop_last();
        lemma_render_items_first(d);
        assert(items.drop_first().drop_last() =~= d.drop_first());
        assert(items.drop_first().last() == items.last());
        assert(items.drop_first().len() >= 2);
        assert((render_value(items[0]) + seq![',', ' '] + render_items(d.drop_first()))
            + seq![',', ' '] + render_value(items.last())
            =~= render_value(items[0]) + seq![',', ' ']
                + (render_items(d.drop_first()) + seq![',', ' ']
                    + render_value(items.last())));
        assert(render_items(items) =~= render_value(items[0]) + seq![',', ' ']
            + render_items(items.drop_first()));
    }
}

/// One rendered pair: the key, ` = `, and the value's text.
pub open spec fn render_pair(p: (Seq<char>, SpecValue)) -> Seq<char> {
    p.0 + seq![' ', '=', ' '] + render_value(p.1)
}

/// `render_pairs` peeled from the front instead of the back.
proof fn lemma_render_pairs_first(t: Seq<(Seq<char>, SpecValue)>)
    requires
        t.len() >= 2,
    ensures
        render_pairs(t) == render_pair(t[0]) + seq![',', ' '] + render_pairs(t.drop_first()),
    decreases t.len(),
{
    if t.len() == 2 {
        assert(t.drop_last() =~= seq![t[0]]);
        assert(t.drop_first() =~= seq![t[1]]);
        assert(render_pairs(seq![t[0]]) == render_pair(t[0]));
        assert(render_pairs(seq![t[1]]) == render_pair(t[1]));
        assert(render_pairs(t) =~= render_pair(t[0]) + seq![',', ' ']
            + render_pairs(t.drop_first()));
    } else {
        let d = t.drop_last();
        lemma_render_pairs_first(d);
        assert(t.drop_first().drop_last() =~= d.drop_first());
        assert(t.drop_first().last() == t.last());
        assert(t.drop_first().len() >= 2);
        assert((render_pair(t[0]) + seq![',', ' '] + render_pairs(d.drop_first()))
            + seq![',', ' '] + render_pair(t.last())
            =~= render_pair(t[0]) + seq![',', ' ']
                + (render_pairs(d.drop_first()) + seq![',', ' '] + render_pair(t.last())));
        assert(render_pairs(t) =~= render_pair(t[0]) + seq![',', ' ']
            + render_pairs(t.drop_first()));
    }
}

/// Reading an escaped string body back gives the original characters.
proof fn lemma_parse_escaped(pre: Seq<char>, t: Seq<char>, acc: Seq<char>, suf: Seq<char>)
    ensures
        spec_parse_string_body(pre + render_escaped(t) + seq!['"'] + suf, pre.len() as int, acc)
            == Some((acc + t, (pre.len() + render_escaped(t).len() + 1) as int)),
    decreases t.len(),
{
    let full = pre + render_escaped(t) + seq!['"'] + suf;
    let i = pre.len() as int;
    if t.len() == 0 {
        assert(full[i] == '"');
        assert(acc + t =~= acc);
    } else {
        let c = t[0];
        lemma_render_escaped_first(t);
        let rest = t.drop_first();
        let pre2 = pre + esc_char(c);
        assert(full =~= pre2 + render_escaped(rest) + seq!['"'] + suf);
        lemma_parse_escaped(pre2, rest, acc.push(c), suf);
        assert(acc.push(c) + rest =~= acc + t);
        if c == '"' || c == '\\' || c == '\n' || c == '\t' || c == '\r' {
            let code = esc_char(c)[1];
            assert(esc_char(c).len() == 2 && esc_char(c)[0] == '\\');
            assert(full[i] == '\\');
            assert(full[i + 1] == code);
            assert(unescape(code) == Some(c));
            assert(pre2.len() == i + 2);
            assert(spec_parse_string_body(full, i, acc)
                == spec_parse_string_body(full, i + 2, acc.push(c)));
        } else {
            assert(esc_char(c) =~= seq![c]);
            assert(full[i] == c);
            assert(pre2.len() == i + 1);
            assert(spec_parse_string_body(full, i, acc)
                == spec_parse_string_body(full, i + 1, acc.push(c)));
        }
    }
}

/// The decimal digits of `n` are digits, and read back as `n`.
proof fn lemma_dec_digits_props(n: nat)
    ensures
        dec_digits(n).len() >= 1,
        all_digits(dec_digits(n), 0, dec_digits(n).len() as int),
        digits_val(dec_digits(n), 0, dec_digits(n).len() as int) == n,
    decreases n,
{
    let s = dec_digits(n);
    if n < 10 {
        assert(s =~= seq![digit_char(n)]);
        assert(is_digit(digit_char(n)));
        assert(digits_val(s, 0, 1) == digits_val(s, 0, 0) * 10 + digit_val(s[0]));
        assert(digit_val(digit_char(n)) == n);
    } else {
        lemma_dec_digits_props(n / 10);
        let p = dec_digits(n / 10);
        assert(s =~= p.push(digit_char(n % 10)));
        assert(is_digit(digit_char(n % 10)));
        assert forall|k: int| 0 <= k < s.len() implies is_digit(#[trigger] s[k]) by {
            if k < p.len() {
                assert(s[k] == p[k]);
            }
        }
        lemma_digits_val_shift(s, 0, p, 0, p.len() as int);
        assert(digits_val(s, 0, s.len() as int)
            == digits_val(s, 0, s.len() as int - 1) * 10 + digit_val(s[s.len() - 1]));
        assert(digit_val(digit_char(n % 10)) == n % 10);
        assert(n == (n / 10) * 10 + n % 10);
    }
}

/// `digits_val` reads the characters alone: equal runs give equal values.
proof fn lemma_digits_val_shift(s1: Seq<char>, a1: int, s2: Seq<char>, a2: int, n: int)
    requires
        n >= 0,
        forall|k: int| 0 <= k < n ==> s1[a1 + k] == #[trigger] s2[a2 + k],
    ensures
        digits_val(s1, a1, a1 + n) == digits_val(s2, a2, a2 + n),
    decreases n,
{
    if n > 0 {
        lemma_digits_val_shift(s1, a1, s2, a2, n - 1);
        assert(s1[a1 + (n - 1)] == s2[a2 + (n - 1)]);
    }
}

/// A run of token characters, up to a non-token character or the end, scans
/// to exactly its end.
proof fn lemma_token_end_stops(s: Seq<char>, i: int, e: int)
    requires
        0 <= i <= e <= s.len(),
        forall|k: int| i <= k < e ==> is_token_char(#[trigger] s[k]),
        e == s.len() || !is_token_char(s[e]),
    ensures
        spec_token_end(s, i) == e,
    decreases e - i,
{
    if i < e {
        lemma_token_end_stops(s, i + 1, e);
    }
}

/// A run of key characters, up to a non-key character, scans to its end.
proof fn lemma_key_end_stops(s: Seq<char>, i: int, e: int)
    requires
        0 <= i <= e <= s.len(),
        forall|k: int| i <= k < e ==> is_key_char(#[trigger] s[k]),
        e == s.len() || !is_key_char(s[e]),
    ensures
        spec_key_end(s, i) == e,
    decreases e - i,
{
    if i < e {
        lemma_key_end_stops(s, i + 1, e);
    }
}

/// A rendered value's text is nonempty, and its first character is no
/// whitespace and no closing delimiter.
proof fn lemma_render_value_start(v: SpecValue)
    requires
        renderable(v),
    ensures
        render_value(v).len() > 0,
        !is_ws(render_value(v)[0]),
        render_value(v)[0] != ']',
        render_value(v)[0] != '}',
        render_value(v)[0] != ',',
{
    let s = render_value(v);
    match v {
        SpecValue::Int(n) => {
            if n < 0 {
                assert(s[0] == '-');
            } else {
                lemma_dec_digits_props(n as nat);
                assert(s == dec_digits(n as nat));
                assert(is_digit(s[0]));
                assert(48 <= s[0] as u32 <= 57);
            }
        }
        _ => {}
    }
}

/// Parsing the rendered text of an integer, embedded before a non-token
/// character, gives back exactly that integer.
proof fn lemma_int_embedded(pre: Seq<char>, v: i64, suf: Seq<char>)
    requires
        suf.len() == 0 || !is_token_char(suf[0]),
    ensures
        spec_parse_value(pre + render_int(v) + suf, pre.len() as int)
            == Some((SpecValue::Int(v), (pre.len() + render_int(v).len()) as int)),
{
    let s = render_int(v);
    let full = pre + s + suf;
    let i = pre.len() as int;
    let e = i + s.len() as int;
    let m: nat = if v < 0 { (-(v as int)) as nat } else { v as nat };
    lemma_dec_digits_props(m);
    let d = dec_digits(m);
    if v < 0 {
        assert(s =~= seq!['-'] + d);
        assert(full[i] == '-');
        assert forall|k: int| i <= k < e implies is_token_char(#[trigger] full[k]) by {
            if k > i {
                assert(full[k] == d[k - i - 1]);
                assert(is_digit(full[k]));
            }
        }
        assert forall|k: int| i + 1 <= k < e implies is_digit(#[trigger] full[k]) by {
            assert(full[k] == d[k - i - 1]);
        }
        lemma_token_end_stops(full, i, e);
        assert(is_int_token(full, i, e));
        lemma_digits_val_shift(full, i + 1, d, 0, d.len() as int);
        assert(digits_val(full, i + 1, e) == m);
        assert(int_token_val(full, i, e) == v as int);
        assert(spec_classify_token(full, i, e) == Some(SpecValue::Int(v)));
        assert(!is_digit('-') && '-' != '"' && '-' != 't' && '-' != 'f' && '-' != '['
            && '-' != '{');
    } else {
        assert(s == d);
        assert forall|k: int| i <= k < e implies is_digit(#[trigger] full[k])
            && is_token_char(full[k]) by {
            assert(full[k] == d[k - i]);
        }
        lemma_token_end_stops(full, i, e);
        assert(is_digit(full[i]));
        assert(full[i] != '-' && full[i] != '"' && full[i] != 't' && full[i] != 'f' && full[i]
            != '[' && full[i] != '{') by {
            assert(48 <= full[i] as u32 <= 57);
        }
        lemma_digits_val_shift(full, i, d, 0, d.len() as int);
        assert(is_int_token(full, i, e));
        assert(int_token_val(full, i, e) == v as int);
        assert(spec_classify_token(full, i, e) == Some(SpecValue::Int(v)));
    }
}

/// Round trip at the value level, in context: parsing at the position where
/// a rendered value was placed gives back exactly that value and stops at
/// its end, whatever stands before it and whatever non-token text follows.
#[verifier::rlimit(100)]
pub proof fn lemma_value_round_trip_embedded(pre: Seq<char>, v: SpecValue, suf: Seq<char>)
    requires
        renderable(v),
        suf.len() == 0 || !is_token_char(suf[0]),
    ensures
        spec_parse_value(pre + render_value(v) + suf, pre.len() as int)
            == Some((v, (pre.len() + render_value(v).len()) as int)),
    decreases v, 1int,
{
    let full = pre + render_value(v) + suf;
    let i = pre.len() as int;
    match v {
        SpecValue::Str(t) => {
            assert(full[i] == '"');
            assert(full =~= (pre + seq!['"']) + render_escaped(t) + seq!['"'] + suf);
            lemma_parse_escaped(pre + seq!['"'], t, Seq::empty(), suf);
            assert(Seq::empty() + t =~= t);
        }
        SpecValue::Int(n) => {
            lemma_int_embedded(pre, n, suf);
        }
        SpecValue::Bool(b) => {
            if b {
                assert(full[i] == 't' && full[i + 1] == 'r' && full[i + 2] == 'u' && full[i + 3]
                    == 'e');
            } else {
                assert(full[i] == 'f' && full[i + 1] == 'a' && full[i + 2] == 'l' && full[i + 3]
                    == 's' && full[i + 4] == 'e');
            }
        }
        SpecValue::Arr(items) => {
            assert(full[i] == '[');
            if items.len() == 0 {
                assert(full[i + 1] == ']');
                assert(!is_ws(']'));
                assert(spec_skip_ws(full, i + 1) == i + 1);
                assert(spec_parse_items(full, i + 1, Seq::empty())
                    == Some((Seq::<SpecValue>::empty(), i + 2)));
                assert(Seq::<SpecValue>::empty() =~= items);
            } else {
                let pre2 = pre + seq!['['];
                assert(full =~= pre2 + render_items(items) + seq![']'] + suf);
                lemma_items_round_trip(pre2, items, Seq::empty(), suf);
                assert(Seq::<SpecValue>::empty() + items =~= items);
                assert(items[0] == items.first());
                assert(renderable(items[0]));
                lemma_render_value_start(items[0]);
                if items.len() == 1 {
                    assert(full[i + 1] == render_value(items[0])[0]);
                } else {
                    lemma_render_items_first(items);
                    assert(full[i + 1] == render_value(items[0])[0]);
                }
                assert(!is_ws(full[i + 1]));
                assert(spec_skip_ws(full, i + 1) == i + 1);
            }
        }
        SpecValue::Table(t) => {
            assert(full[i] == '{');
            if t.len() == 0 {
                assert(full[i + 1] == '}');
                assert(!is_ws('}'));
                assert(spec_skip_ws(full, i + 1) == i + 1);
                assert(spec_parse_pairs(full, i + 1, Seq::empty())
                    == Some((Seq::<(Seq<char>, SpecValue)>::empty(), i + 2)));
                assert(Seq::<(Seq<char>, SpecValue)>::empty() =~= t);
            } else {
                assert(full[i + 1] == ' ');
                let pre2 = pre + seq!['{', ' '];
                assert(full =~= pre2 + render_pairs(t) + seq![' ', '}'] + suf);
                lemma_pairs_round_trip(pre2, t, Seq::empty(), suf);
                assert(Seq::<(Seq<char>, SpecValue)>::empty() + t =~= t);
                assert(is_ws(' ') && spec_skip_ws(full, i + 1) == spec_skip_ws(full, i + 2));
                if t.len() == 1 {
                    assert(full[i + 2] == t[0].0[0]);
                } else {
                    lemma_render_pairs_first(t);
                    assert(full[i + 2] == t[0].0[0]);
                }
                assert(is_key_char(t[0].0[0]));
                assert(!is_ws(full[i + 2]));
                assert(spec_skip_ws(full, i + 2) == i + 2);
            }
        }
        _ => {}
    }
}

/// Array elements read back in order: parsing the rendered elements and the
/// closing bracket extends `acc` by exactly those elements.
proof fn lemma_items_round_trip(
    pre: Seq<char>,
    rest: Seq<SpecValue>,
    acc: Seq<SpecValue>,
    suf: Seq<char>,
)
    requires
        rest.len() > 0,
        forall|k: int| 0 <= k < rest.len() ==> renderable(#[trigger] rest[k]),
        suf.len() == 0 || !is_token_char(suf[0]),
    ensures
        spec_parse_items(pre + render_items(rest) + seq![']'] + suf, pre.len() as int, acc)
            == Some((acc + rest, (pre.len() + render_items(rest).len() + 1) as int)),
    decreases rest, 0int,
{
    let full = pre + render_items(rest) + seq![']'] + suf;
    let i = pre.len() as int;
    let v0 = rest[0];
    assert(v0 == rest.first());
    lemma_render_value_start(v0);
    let rv = render_value(v0);
    if rest.len() == 1 {
        assert(render_items(rest) == rv);
        assert(full =~= pre + rv + (seq![']'] + suf));
        lemma_value_round_trip_embedded(pre, v0, seq![']'] + suf);
        let j1 = i + rv.len() as int;
        assert(full[i] == rv[0]);
        assert(full[i] != ']');
        assert(full[j1] == ']');
        assert(!is_ws(']'));
        assert(spec_skip_ws(full, j1) == j1);
        assert(acc.push(v0) =~= acc + rest);
    } else {
        lemma_render_items_first(rest);
        let tail = rest.drop_first();
        let pre2 = pre + rv + seq![',', ' '];
        assert(full =~= pre2 + render_items(tail) + seq![']'] + suf);
        assert(full =~= pre + rv + (seq![',', ' '] + render_items(tail) + seq![']'] + suf));
        lemma_value_round_trip_embedded(pre, v0, seq![',', ' '] + render_items(tail) + seq![']']
            + suf);
        let j1 = i + rv.len() as int;
        assert(full[i] == rv[0]);
        assert(full[i] != ']');
        assert(full[j1] == ',');
        assert(!is_ws(','));
        assert(spec_skip_ws(full, j1) == j1);
        assert(full[j1 + 1] == ' ');
        assert(tail[0] == tail.first());
        assert(renderable(tail[0]));
        lemma_render_value_start(tail[0]);
        if tail.len() == 1 {
            assert(full[j1 + 2] == render_value(tail[0])[0]);
        } else {
            lemma_render_items_first(tail);
            assert(full[j1 + 2] == render_value(tail[0])[0]);
        }
        assert(is_ws(' ') && spec_skip_ws(full, j1 + 1) == spec_skip_ws(full, j1 + 2));
        assert(!is_ws(full[j1 + 2]));
        assert(spec_skip_ws(full, j1 + 2) == j1 + 2);
        lemma_items_round_trip(pre2, tail, acc.push(v0), suf);
        assert(acc.push(v0) + tail =~= acc + rest);
    }
}

/// Inline-table pairs read back in order: parsing the rendered pairs and the
/// closing ` }` extends `acc` by exactly those pairs.
#[verifier::rlimit(100)]
proof fn lemma_pairs_round_trip(
    pre: Seq<char>,
    rest: Seq<(Seq<char>, SpecValue)>,
    acc: Seq<(Seq<char>, SpecValue)>,
    suf: Seq<char>,
)
    requires
        rest.len() > 0,
        table_keys_unique(acc + rest),
        forall|k: int| 0 <= k < rest.len() ==> (#[trigger] rest[k]).0.len() > 0
            && (forall|m: int| 0 <= m < rest[k].0.len() ==> is_key_char(#[trigger] rest[k].0[m]))
            && renderable(rest[k].1),
        suf.len() == 0 || !is_token_char(suf[0]),
    ensures
        spec_parse_pairs(pre + render_pairs(rest) + seq![' ', '}'] + suf, pre.len() as int, acc)
            == Some((acc + rest, (pre.len() + render_pairs(rest).len() + 2) as int)),
    decreases rest, 0int,
{
    let full = pre + render_pairs(rest) + seq![' ', '}'] + suf;
    let i = pre.len() as int;
    let p0 = rest[0];
    assert(p0 == rest.first());
    let key = p0.0;
    let rv = render_value(p0.1);
    assert(renderable(p0.1));
    lemma_render_value_start(p0.1);
    let single = rest.len() == 1;
    let rp = render_pair(p0);
    if single {
        assert(render_pairs(rest) == key + seq![' ', '=', ' '] + rv);
    } else {
        lemma_render_pairs_first(rest);
    }
    // the key scans to its end, which holds a blank
    let ke = i + key.len() as int;
    assert forall|k: int| i <= k < ke implies is_key_char(#[trigger] full[k]) by {
        assert(full[k] == key[k - i]);
    }
    assert(full[ke] == ' ');
    assert(!is_key_char(' '));
    lemma_key_end_stops(full, i, ke);
    assert(full.subrange(i, ke) =~= key);
    assert(is_key_char(full[i]) && full[i] != '}');
    // the fresh key is not among the accumulated ones
    assert(!table_contains_key(acc, key)) by {
        let all = acc + rest;
        assert(all[acc.len() as int].0 == key);
        assert forall|k: int| 0 <= k < acc.len() implies acc[k].0 != key by {
            assert(all[k] == acc[k]);
        }
    }
    // ` = ` between the key and the value
    assert(is_ws(' ') && !is_ws('='));
    assert(spec_skip_ws(full, ke) == spec_skip_ws(full, ke + 1));
    assert(full[ke + 1] == '=');
    assert(spec_skip_ws(full, ke) == ke + 1);
    assert(full[ke + 2] == ' ');
    assert(full[ke + 3] == rv[0]);
    assert(!is_ws(rv[0]));
    assert(spec_skip_ws(full, ke + 2) == spec_skip_ws(full, ke + 3));
    assert(spec_skip_ws(full, ke + 2) == ke + 3);
    let pre1 = pre + key + seq![' ', '=', ' '];
    assert(pre1.len() == ke + 3);
    let j3 = ke + 3 + rv.len() as int;
    if single {
        assert(full =~= pre1 + rv + (seq![' ', '}'] + suf));
        lemma_value_round_trip_embedded(pre1, p0.1, seq![' ', '}'] + suf);
        assert(full[j3] == ' ');
        assert(full[j3 + 1] == '}');
        assert(spec_skip_ws(full, j3) == spec_skip_ws(full, j3 + 1));
        assert(!is_ws('}'));
        assert(spec_skip_ws(full, j3 + 1) == j3 + 1);
        assert(acc.push(p0) =~= acc + rest);
        assert(spec_parse_pairs(full, i, acc) == Some((acc.push(p0), j3 + 2)));
    } else {
        let tail = rest.drop_first();
        let pre2 = pre + rp + seq![',', ' '];
        assert(full =~= pre2 + render_pairs(tail) + seq![' ', '}'] + suf);
        assert(full =~= pre1 + rv + (seq![',', ' '] + render_pairs(tail) + seq![' ', '}'] + suf));
        lemma_value_round_trip_embedded(pre1, p0.1, seq![',', ' '] + render_pairs(tail)
            + seq![' ', '}'] + suf);
        assert(full[j3] == ',');
        assert(!is_ws(','));
        assert(spec_skip_ws(full, j3) == j3);
        assert(full[j3 + 1] == ' ');
        assert(tail[0] == tail.first());
        if tail.len() == 1 {
            assert(full[j3 + 2] == tail[0].0[0]);
        } else {
            lemma_render_pairs_first(tail);
            assert(full[j3 + 2] == tail[0].0[0]);
        }
        assert(is_key_char(tail[0].0[0]));
        assert(!is_ws(full[j3 + 2]));
        assert(spec_skip_ws(full, j3 + 1) == spec_skip_ws(full, j3 + 2));
        assert(spec_skip_ws(full, j3 + 2) == j3 + 2);
        assert(pre2.len() == j3 + 2);
        assert(acc.push(p0) + tail =~= acc + rest);
        assert(table_keys_unique(acc.push(p0) + tail));
        lemma_pairs_round_trip(pre2, tail, acc.push(p0), suf);
    }
}

/// A key the renderer can emit: nonempty, bare characters only.
pub open spec fn bare_key(s: Seq<char>) -> bool {
    s.len() > 0 && forall|m: int| 0 <= m < s.len() ==> is_key_char(#[trigger] s[m])
}

/// A top-level document this law covers: unique keys, every entry a section
/// under a bare key, every section body renderable.
pub open spec fn doc_renderable(doc: Seq<(Seq<char>, SpecValue)>) -> bool {
    table_keys_unique(doc) && forall|k: int| 0 <= k < doc.len()
        ==> bare_key((#[trigger] doc[k]).0) && doc[k].1 is Table && renderable(doc[k].1)
}

/// The entries whose key is not `k0`, in order.
pub open spec fn remove_key(doc: Seq<(Seq<char>, SpecValue)>, k0: Seq<char>) -> Seq<
    (Seq<char>, SpecValue),
>
    decreases doc,
{
    if doc.len() == 0 {
        Seq::empty()
    } else {
        remove_key(doc.drop_last(), k0) + (if doc.last().0 == k0 {
            Seq::empty()
        } else {
            seq![doc.last()]
        })
    }
}

/// What `remove_key` keeps: sections of the original document, none named
/// `k0`, keys still unique, still renderable.
proof fn lemma_remove_key_props(doc: Seq<(Seq<char>, SpecValue)>, k0: Seq<char>)
    requires
        doc_renderable(doc),
    ensures
        table_keys_unique(remove_key(doc, k0)),
        forall|j: int| 0 <= j < remove_key(doc, k0).len()
            ==> (#[trigger] remove_key(doc, k0)[j]).0 != k0
                && bare_key(remove_key(doc, k0)[j].0)
                && remove_key(doc, k0)[j].1 is Table
                && renderable(remove_key(doc, k0)[j].1)
                && table_contains_key(doc, remove_key(doc, k0)[j].0),
    decreases doc.len(),
{
    if doc.len() > 0 {
        let d = doc.drop_last();
        assert(doc_renderable(d)) by {
            assert(forall|k: int| 0 <= k < d.len() ==> d[k] == doc[k]);
        }
        lemma_remove_key_props(d, k0);
        let r = remove_key(doc, k0);
        let rd = remove_key(d, k0);
        assert forall|j: int| 0 <= j < r.len() implies (#[trigger] r[j]).0 != k0
            && bare_key(r[j].0) && r[j].1 is Table && renderable(r[j].1)
            && table_contains_key(doc, r[j].0) by {
            if j < rd.len() {
                assert(r[j] == rd[j]);
                let i0 = crate::doc::table_index_of(d, rd[j].0);
                assert(d[i0] == doc[i0]);
            } else {
                assert(doc.last().0 != k0);
                assert(r[j] == doc.last());
                assert(doc[doc.len() - 1].0 == r[j].0);
            }
        }
        assert forall|a: int, b: int| 0 <= a < b < r.len() implies r[a].0 != r[b].0 by {
            if b < rd.len() {
            } else if rd.len() <= b {
                assert(r[b] == doc.last());
                assert(r[a].0 != k0);
                let ia = crate::doc::table_index_of(d, r[a].0);
                assert(0 <= ia < d.len() && d[ia].0 == r[a].0);
                assert(doc[ia].0 == r[a].0);
                assert(doc[ia].0 != doc[doc.len() - 1].0);
            }
        }
    }
}

/// Parsing one rendered `key = value` line gives back exactly that pair.
proof fn lemma_line_pair(pre: Seq<char>, p: (Seq<char>, SpecValue), suf: Seq<char>)
    requires
        bare_key(p.0),
        renderable(p.1),
    ensures
        crate::parse::spec_parse_line(pre + crate::render::render_kv_line(p) + suf,
            pre.len() as int)
            == Some((crate::parse::SpecLine::Pair(p.0, p.1),
                (pre.len() + crate::render::render_kv_line(p).len()) as int)),
{
    let line = crate::render::render_kv_line(p);
    let full = pre + line + suf;
    let i = pre.len() as int;
    let rv = render_value(p.1);
    lemma_render_value_start(p.1);
    assert(full =~= (pre + p.0 + seq![' ', '=', ' ']) + rv + (seq!['\n'] + suf));
    // the key scans to its end, which holds a blank
    let ke = i + p.0.len() as int;
    assert forall|k: int| i <= k < ke implies is_key_char(#[trigger] full[k]) by {
        assert(full[k] == p.0[k - i]);
    }
    assert(full[ke] == ' ');
    assert(!is_key_char(' '));
    lemma_key_end_stops(full, i, ke);
    assert(full.subrange(i, ke) =~= p.0);
    // the line starts with a key character, no blank, comment or bracket
    assert(is_key_char(full[i]));
    assert(!is_ws(full[i]) && full[i] != '\n' && full[i] != '#' && full[i] != '[') by {
        let u = full[i] as u32;
        assert(48 <= u <= 57 || 97 <= u <= 122 || 65 <= u <= 90 || full[i] == '-' || full[i]
            == '_');
    }
    assert(spec_skip_ws(full, i) == i);
    // ` = ` between the key and the value
    assert(full[ke + 1] == '=');
    assert(is_ws(' ') && !is_ws('='));
    assert(spec_skip_ws(full, ke) == spec_skip_ws(full, ke + 1));
    assert(spec_skip_ws(full, ke) == ke + 1);
    assert(full[ke + 2] == ' ');
    assert(full[ke + 3] == rv[0]);
    assert(spec_skip_ws(full, ke + 2) == spec_skip_ws(full, ke + 3));
    assert(spec_skip_ws(full, ke + 2) == ke + 3);
    // the value, then the newline that ends the line
    lemma_value_round_trip_embedded(pre + p.0 + seq![' ', '=', ' '], p.1, seq!['\n'] + suf);
    let j4 = ke + 3 + rv.len() as int;
    assert(full[j4] == '\n');
    assert(!is_ws('\n'));
    assert(spec_skip_ws(full, j4) == j4);
    assert(crate::parse::spec_line_end(full, j4) == Some(j4 + 1));
}

/// `render_kv_lines` peeled from the front.
proof fn lemma_render_kv_lines_first(t: Seq<(Seq<char>, SpecValue)>)
    requires
        t.len() > 0,
    ensures
        crate::render::render_kv_lines(t) == crate::render::render_kv_line(t[0])
            + crate::render::render_kv_lines(t.drop_first()),
    decreases t.len(),
{
    if t.len() == 1 {
        assert(t.drop_last() =~= Seq::<(Seq<char>, SpecValue)>::empty());
        assert(t.drop_first() =~= Seq::<(Seq<char>, SpecValue)>::empty());
        assert(crate::render::render_kv_lines(t) =~= crate::render::render_kv_line(t[0])
            + crate::render::render_kv_lines(t.drop_first()));
    } else {
        let d = t.drop_last();
        lemma_render_kv_lines_first(d);
        assert(t.drop_first().drop_last() =~= d.drop_first());
        assert(t.drop_first().last() == t.last());
        assert((crate::render::render_kv_line(t[0]) + crate::render::render_kv_lines(
            d.drop_first())) + crate::render::render_kv_line(t.last())
            =~= crate::render::render_kv_line(t[0]) + (crate::render::render_kv_lines(
                d.drop_first()) + crate::render::render_kv_line(t.last())));
        assert(crate::render::render_kv_lines(t) =~= crate::render::render_kv_line(t[0])
            + crate::render::render_kv_lines(t.drop_first()));
    }
}

/// Setting the same key twice keeps only the second value.
proof fn lemma_table_set_twice(
    t: Seq<(Seq<char>, SpecValue)>,
    k: Seq<char>,
    v1: SpecValue,
    v2: SpecValue,
)
    requires
        table_keys_unique(t),
    ensures
        crate::doc::table_set(crate::doc::table_set(t, k, v1), k, v2)
            == crate::doc::table_set(t, k, v2),
{
    let t1 = crate::doc::table_set(t, k, v1);
    crate::doc::lemma_table_set_unique(t, k, v1);
    if table_contains_key(t, k) {
        let idx = crate::doc::table_index_of(t, k);
        assert(t1[idx].0 == k);
        crate::doc::lemma_unique_index(t1, k, idx);
        assert(crate::doc::table_set(t1, k, v2) =~= crate::doc::table_set(t, k, v2));
    } else {
        let idx = t.len() as int;
        assert(t1[idx].0 == k);
        crate::doc::lemma_unique_index(t1, k, idx);
        assert(crate::doc::table_set(t1, k, v2) =~= crate::doc::table_set(t, k, v2));
    }
}

/// Body lines of an open section: each rendered `key = value` line lands in
/// that section's table, in order, and parsing continues just past them.
proof fn lemma_body_lines(
    pre: Seq<char>,
    h: Seq<char>,
    body: Seq<(Seq<char>, SpecValue)>,
    t0: Seq<(Seq<char>, SpecValue)>,
    acc: Seq<(Seq<char>, SpecValue)>,
    suf: Seq<char>,
)
    requires
        table_keys_unique(acc),
        table_contains_key(acc, h),
        crate::doc::table_get(acc, h) == SpecValue::Table(t0),
        table_keys_unique(t0 + body),
        forall|k: int| 0 <= k < body.len() ==> bare_key((#[trigger] body[k]).0)
            && renderable(body[k].1),
    ensures
        crate::parse::spec_parse_doc(pre + crate::render::render_kv_lines(body) + suf,
            pre.len() as int, acc, Some(h))
            == crate::parse::spec_parse_doc(pre + crate::render::render_kv_lines(body) + suf,
                (pre.len() + crate::render::render_kv_lines(body).len()) as int,
                crate::doc::table_set(acc, h, SpecValue::Table(t0 + body)), Some(h)),
    decreases body.len(),
{
    let full = pre + crate::render::render_kv_lines(body) + suf;
    let i = pre.len() as int;
    if body.len() == 0 {
        assert(t0 + body =~= t0);
        let idx = crate::doc::table_index_of(acc, h);
        assert(0 <= idx < acc.len() && acc[idx].0 == h);
        assert(acc[idx] == (h, SpecValue::Table(t0)));
        assert(crate::doc::table_set(acc, h, SpecValue::Table(t0)) =~= acc);
    } else {
        lemma_render_kv_lines_first(body);
        let p0 = body[0];
        assert(p0 == (p0.0, p0.1));
        let line = crate::render::render_kv_line(p0);
        let tail = body.drop_first();
        assert(full =~= pre + line + (crate::render::render_kv_lines(tail) + suf));
        lemma_line_pair(pre, p0, crate::render::render_kv_lines(tail) + suf);
        lemma_render_value_start(p0.1);
        assert(line.len() > 0);
        assert(!table_contains_key(t0, p0.0)) by {
            let all = t0 + body;
            assert(all[t0.len() as int].0 == p0.0);
            assert forall|k: int| 0 <= k < t0.len() implies t0[k].0 != p0.0 by {
                assert(all[k] == t0[k]);
            }
        }
        let acc1 = crate::doc::table_set(acc, h, SpecValue::Table(t0.push(p0)));
        crate::doc::lemma_table_set_unique(acc, h, SpecValue::Table(t0.push(p0)));
        let pre2 = pre + line;
        assert(full =~= pre2 + crate::render::render_kv_lines(tail) + suf);
        assert(t0.push(p0) + tail =~= t0 + body);
        assert forall|k: int| 0 <= k < tail.len() implies bare_key((#[trigger] tail[k]).0)
            && renderable(tail[k].1) by {
            assert(tail[k] == body[k + 1]);
        }
        lemma_body_lines(pre2, h, tail, t0.push(p0), acc1, suf);
        lemma_table_set_twice(acc, h, SpecValue::Table(t0.push(p0)),
            SpecValue::Table(t0.push(p0) + tail));
        assert(crate::parse::spec_parse_doc(full, i, acc, Some(h))
            == crate::parse::spec_parse_doc(full, i + line.len() as int, acc1, Some(h)));
    }
}

/// A list of sections rendered one after the other.
pub open spec fn render_sections(secs: Seq<(Seq<char>, SpecValue)>) -> Seq<char>
    decreases secs,
{
    if secs.len() == 0 {
        Seq::empty()
    } else {
        render_sections(secs.drop_last()) + crate::render::render_section(secs.last().0,
            secs.last().1->Table_0)
    }
}

/// What `render_rest` emits is the sections of the kept entries.
proof fn lemma_render_rest_is_sections(doc: Seq<(Seq<char>, SpecValue)>, k0: Seq<char>)
    ensures
        crate::render::render_rest(doc, k0) == render_sections(remove_key(doc, k0)),
    decreases doc.len(),
{
    if doc.len() > 0 {
        lemma_render_rest_is_sections(doc.drop_last(), k0);
        let rd = remove_key(doc.drop_last(), k0);
        if doc.last().0 == k0 {
            assert(remove_key(doc, k0) =~= rd);
            assert(crate::render::render_rest(doc, k0) =~= render_sections(remove_key(doc, k0)));
        } else {
            let r = remove_key(doc, k0);
            assert(r == rd + seq![doc.last()]);
            assert(r.drop_last() =~= rd);
            assert(r.last() == doc.last());
            assert(crate::render::render_rest(doc, k0) =~= render_sections(remove_key(doc, k0)));
        }
    }
}

/// `render_sections` peeled from the front.
proof fn lemma_render_sections_first(secs: Seq<(Seq<char>, SpecValue)>)
    requires
        secs.len() > 0,
    ensures
        render_sections(secs) == crate::render::render_section(secs[0].0, secs[0].1->Table_0)
            + render_sections(secs.drop_first()),
    decreases secs.len(),
{
    if secs.len() == 1 {
        assert(secs.drop_last() =~= Seq::<(Seq<char>, SpecValue)>::empty());
        assert(secs.drop_first() =~= Seq::<(Seq<char>, SpecValue)>::empty());
        assert(render_sections(secs) =~= crate::render::render_section(secs[0].0,
            secs[0].1->Table_0) + render_sections(secs.drop_first()));
    } else {
        let d = secs.drop_last();
        lemma_render_sections_first(d);
        assert(secs.drop_first().drop_last() =~= d.drop_first());
        assert(secs.drop_first().last() == secs.last());
        assert((crate::render::render_section(secs[0].0, secs[0].1->Table_0) + render_sections(
            d.drop_first())) + crate::render::render_section(secs.last().0, secs.last().1->Table_0)
            =~= crate::render::render_section(secs[0].0, secs[0].1->Table_0) + (render_sections(
                d.drop_first()) + crate::render::render_section(secs.last().0,
                secs.last().1->Table_0)));
        assert(render_sections(secs) =~= crate::render::render_section(secs[0].0,
            secs[0].1->Table_0) + render_sections(secs.drop_first()));
    }
}

/// Parsing one rendered `[name]` header line gives back exactly that header.
proof fn lemma_line_header(pre: Seq<char>, h: Seq<char>, suf: Seq<char>)
    requires
        bare_key(h),
    ensures
        crate::parse::spec_parse_line(pre + seq!['['] + h + seq![']', '\n'] + suf,
            pre.len() as int)
            == Some((crate::parse::SpecLine::Header(h), (pre.len() + h.len() + 3) as int)),
{
    let full = pre + seq!['['] + h + seq![']', '\n'] + suf;
    let i = pre.len() as int;
    assert(full[i] == '[');
    assert(!is_ws('[') && '[' != '\n' && '[' != '#');
    assert(spec_skip_ws(full, i) == i);
    let ke = i + 1 + h.len() as int;
    assert forall|k: int| i + 1 <= k < ke implies is_key_char(#[trigger] full[k]) by {
        assert(full[k] == h[k - i - 1]);
    }
    assert(full[ke] == ']');
    assert(!is_key_char(']'));
    lemma_key_end_stops(full, i + 1, ke);
    assert(full.subrange(i + 1, ke) =~= h);
    assert(full[ke + 1] == '\n');
    assert(!is_ws('\n'));
    assert(spec_skip_ws(full, ke + 1) == ke + 1);
    assert(crate::parse::spec_line_end(full, ke + 1) == Some(ke + 2));
}

/// Sections read back in order: parsing the rendered sections at the end of
/// the text extends the document by exactly those sections.
proof fn lemma_sections_round_trip(
    pre: Seq<char>,
    secs: Seq<(Seq<char>, SpecValue)>,
    acc: Seq<(Seq<char>, SpecValue)>,
    cur: Option<Seq<char>>,
)
    requires
        table_keys_unique(acc + secs),
        forall|k: int| 0 <= k < secs.len() ==> bare_key((#[trigger] secs[k]).0)
            && secs[k].1 is Table && renderable(secs[k].1),
    ensures
        crate::parse::spec_parse_doc(pre + render_sections(secs), pre.len() as int, acc, cur)
            == Some(acc + secs),
    decreases secs.len(),
{
    let full = pre + render_sections(secs);
    let i = pre.len() as int;
    if secs.len() == 0 {
        assert(full =~= pre);
        assert(acc + secs =~= acc);
        assert(table_keys_unique(acc)) by {
            assert(forall|k: int| 0 <= k < acc.len() ==> acc[k] == (acc + secs)[k]);
        }
    } else {
        lemma_render_sections_first(secs);
        let sec0 = secs[0];
        let h = sec0.0;
        let body = sec0.1->Table_0;
        assert(sec0.1 == SpecValue::Table(body));
        let header = seq!['['] + h + seq![']', '\n'];
        let kv = crate::render::render_kv_lines(body);
        let tail = secs.drop_first();
        assert(crate::render::render_section(h, body) == header + kv) by {
            assert(seq!['['] + h + seq![']', '\n'] + kv =~= header + kv);
        }
        assert(full =~= pre + seq!['['] + h + seq![']', '\n'] + (kv + render_sections(tail)));
        lemma_line_header(pre, h, kv + render_sections(tail));
        let j = i + h.len() as int + 3;
        assert(!table_contains_key(acc, h)) by {
            let all = acc + secs;
            assert(all[acc.len() as int].0 == h);
            assert forall|k: int| 0 <= k < acc.len() implies acc[k].0 != h by {
                assert(all[k] == acc[k]);
            }
        }
        let acc1 = crate::doc::table_set(acc, h, SpecValue::Table(Seq::empty()));
        assert(acc1 == acc.push((h, SpecValue::Table(Seq::empty()))));
        assert(table_keys_unique(acc)) by {
            assert(forall|k: int| 0 <= k < acc.len() ==> acc[k] == (acc + secs)[k]);
        }
        crate::doc::lemma_table_set_unique(acc, h, SpecValue::Table(Seq::empty()));
        let pre2 = pre + header;
        assert(pre2.len() == j);
        assert(full =~= pre2 + kv + render_sections(tail));
        assert(Seq::<(Seq<char>, SpecValue)>::empty() + body =~= body);
        assert(table_keys_unique(body));
        assert forall|k: int| 0 <= k < body.len() implies bare_key((#[trigger] body[k]).0)
            && renderable(body[k].1) by {
            assert(renderable(sec0.1));
        }
        lemma_body_lines(pre2, h, body, Seq::empty(), acc1, render_sections(tail));
        let acc2 = crate::doc::table_set(acc1, h, SpecValue::Table(body));
        lemma_table_set_twice(acc, h, SpecValue::Table(Seq::empty()), SpecValue::Table(body));
        assert(acc2 == crate::doc::table_set(acc, h, SpecValue::Table(body)));
        assert(acc2 == acc.push(sec0));
        let pre3 = pre2 + kv;
        assert(pre3.len() == j + kv.len());
        assert(full =~= pre3 + render_sections(tail));
        assert(acc.push(sec0) + tail =~= acc + secs);
        assert forall|k: int| 0 <= k < tail.len() implies bare_key((#[trigger] tail[k]).0)
            && tail[k].1 is Table && renderable(tail[k].1) by {
            assert(tail[k] == secs[k + 1]);
        }
        lemma_sections_round_trip(pre3, tail, acc.push(sec0), Some(h));
        assert(crate::parse::spec_parse_doc(full, i, acc, cur)
            == crate::parse::spec_parse_doc(full, j, acc1, Some(h)));
    }
}

/// Round trip at the document level: parsing a rendered document yields
/// exactly the document's own entries — the primary section first, then every
/// other section in its original order, each with its data unchanged.
pub proof fn lemma_document_round_trip(doc: Seq<(Seq<char>, SpecValue)>)
    requires
        doc_renderable(doc),
        crate::render::has_primary(doc),
    ensures
        crate::parse::spec_parse_doc(crate::render::render_doc(doc), 0, Seq::empty(), None)
            == Some(seq![(crate::render::primary_key(doc),
                crate::doc::table_get(doc, crate::render::primary_key(doc)))]
                + remove_key(doc, crate::render::primary_key(doc))),
{
    let pk = crate::render::primary_key(doc);
    assert(bare_key(pk)) by {
        reveal_strlit("package");
        reveal_strlit("project");
        assert(is_key_char('p') && is_key_char('a') && is_key_char('c') && is_key_char('k')
            && is_key_char('g') && is_key_char('e') && is_key_char('r') && is_key_char('o')
            && is_key_char('j') && is_key_char('t'));
        if table_contains_key(doc, "package"@) {
            assert forall|m: int| 0 <= m < pk.len() implies is_key_char(#[trigger] pk[m]) by {
                assert(pk == "package"@);
            }
        } else {
            assert forall|m: int| 0 <= m < pk.len() implies is_key_char(#[trigger] pk[m]) by {
                assert(pk == "project"@);
            }
        }
    }
    assert(table_contains_key(doc, pk));
    let tpk = crate::doc::table_get(doc, pk);
    let idx = crate::doc::table_index_of(doc, pk);
    assert(doc[idx].1 == tpk);
    assert(tpk is Table && renderable(tpk));
    let body = tpk->Table_0;
    assert(tpk == SpecValue::Table(body));
    let secs = remove_key(doc, pk);
    lemma_remove_key_props(doc, pk);
    lemma_render_rest_is_sections(doc, pk);
    let header = seq!['['] + pk + seq![']', '\n'];
    let kv = crate::render::render_kv_lines(body);
    let full = crate::render::render_doc(doc);
    assert(full =~= Seq::empty() + seq!['['] + pk + seq![']', '\n'] + (kv + render_sections(
        secs)));
    lemma_line_header(Seq::empty(), pk, kv + render_sections(secs));
    let j = pk.len() as int + 3;
    assert(!table_contains_key(Seq::<(Seq<char>, SpecValue)>::empty(), pk));
    let acc1 = crate::doc::table_set(Seq::<(Seq<char>, SpecValue)>::empty(), pk,
        SpecValue::Table(Seq::empty()));
    assert(table_keys_unique(Seq::<(Seq<char>, SpecValue)>::empty()));
    crate::doc::lemma_table_set_unique(Seq::<(Seq<char>, SpecValue)>::empty(), pk,
        SpecValue::Table(Seq::empty()));
    let pre2 = Seq::empty() + header;
    assert(pre2.len() == j);
    assert(full =~= pre2 + kv + render_sections(secs));
    assert(Seq::<(Seq<char>, SpecValue)>::empty() + body =~= body);
    assert(table_keys_unique(body));
    assert forall|k: int| 0 <= k < body.len() implies bare_key((#[trigger] body[k]).0)
        && renderable(body[k].1) by {
        assert(renderable(tpk));
    }
    lemma_body_lines(pre2, pk, body, Seq::empty(), acc1, render_sections(secs));
    lemma_table_set_twice(Seq::<(Seq<char>, SpecValue)>::empty(), pk,
        SpecValue::Table(Seq::empty()), SpecValue::Table(body));
    let acc2 = crate::doc::table_set(acc1, pk, SpecValue::Table(body));
    assert(acc2 =~= seq![(pk, tpk)]);
    let pre3 = pre2 + kv;
    assert(full =~= pre3 + render_sections(secs));
    assert(table_keys_unique(acc2 + secs)) by {
        assert forall|a: int, b: int| 0 <= a < b < (acc2 + secs).len()
            implies (acc2 + secs)[a].0 != (acc2 + secs)[b].0 by {
            if a == 0 {
                assert((acc2 + secs)[b] == secs[b - 1]);
                assert(secs[b - 1].0 != pk);
            } else {
                assert((acc2 + secs)[a] == secs[a - 1]);
                assert((acc2 + secs)[b] == secs[b - 1]);
            }
        }
    }
    lemma_sections_round_trip(pre3, secs, acc2, Some(pk));
    assert(crate::parse::spec_parse_doc(full, 0, Seq::empty(), None)
        == crate::parse::spec_parse_doc(full, j, acc1, Some(pk)));
    assert(acc2 + secs =~= seq![(pk, tpk)] + secs);
}

/// Round trip at the value level: parsing the rendered text of a value gives
/// back exactly that value, consuming the whole text.
pub proof fn lemma_value_round_trip(v: SpecValue)
    requires
        renderable(v),
    ensures
        spec_parse_value(render_value(v), 0) == Some((v, render_value(v).len() as int)),
{
    lemma_value_round_trip_embedded(Seq::empty(), v, Seq::empty());
    assert(Seq::empty() + render_value(v) + Seq::empty() =~= render_value(v));
}

} // verus!
