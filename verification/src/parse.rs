//! Parsing: document text to the document model. The format is line-based:
//! `[name]` section headers, `key = value` lines, blank lines and `#`
//! comments. Values are quoted strings with escapes, integers, booleans,
//! float and datetime tokens kept as text, bracketed arrays, and braced
//! inline tables. The parser stops at the first structural error; duplicate
//! keys are structural errors, so parsed documents have unique keys at every
//! level.

use vstd::prelude::*;
use crate::doc::{
    Document, SpecValue, Value, entries_view, lemma_entries_view, lemma_values_view,
    table_contains_key, table_get, table_keys_unique, table_set, table_wf, value_wf, values_view,
};

verus! {

pub open spec fn is_ws(c: char) -> bool {
    c == ' ' || c == '\t' || c == '\r'
}

pub open spec fn is_digit(c: char) -> bool {
    48 <= c as u32 <= 57
}

pub open spec fn is_letter(c: char) -> bool {
    (97 <= c as u32 <= 122) || (65 <= c as u32 <= 90)
}

/// Characters of a bare key.
pub open spec fn is_key_char(c: char) -> bool {
    is_digit(c) || is_letter(c) || c == '-' || c == '_'
}

/// Characters of an unquoted scalar token (integer, float or datetime).
pub open spec fn is_token_char(c: char) -> bool {
    is_digit(c) || is_letter(c) || c == '.' || c == ':' || c == '-' || c == '+' || c == '_'
}

/// Characters a float token may hold.
pub open spec fn is_float_char(c: char) -> bool {
    is_digit(c) || c == '.' || c == 'e' || c == 'E' || c == '-' || c == '+'
}

/// The first position at or after `i` that does not hold inline whitespace.
pub open spec fn spec_skip_ws(s: Seq<char>, i: int) -> int
    decreases s.len() - i when 0 <= i <= s.len()
{
    if i < s.len() && is_ws(s[i]) {
        spec_skip_ws(s, i + 1)
    } else {
        i
    }
}

/// The first position at or after `i` past a run of key characters.
pub open spec fn spec_key_end(s: Seq<char>, i: int) -> int
    decreases s.len() - i when 0 <= i <= s.len()
{
    if i < s.len() && is_key_char(s[i]) {
        spec_key_end(s, i + 1)
    } else {
        i
    }
}

/// The first position at or after `i` past a run of token characters.
pub open spec fn spec_token_end(s: Seq<char>, i: int) -> int
    decreases s.len() - i when 0 <= i <= s.len()
{
    if i < s.len() && is_token_char(s[i]) {
        spec_token_end(s, i + 1)
    } else {
        i
    }
}

/// The first position at or after `i` holding a newline, or the end.
pub open spec fn spec_to_eol(s: Seq<char>, i: int) -> int
    decreases s.len() - i when 0 <= i <= s.len()
{
    if i < s.len() && s[i] != '\n' {
        spec_to_eol(s, i + 1)
    } else {
        i
    }
}

pub proof fn lemma_skip_ws_bounds(s: Seq<char>, i: int)
    requires
        0 <= i <= s.len(),
    ensures
        i <= spec_skip_ws(s, i) <= s.len(),
    decreases s.len() - i,
{
    if i < s.len() && is_ws(s[i]) {
        lemma_skip_ws_bounds(s, i + 1);
    }
}

pub proof fn lemma_key_end_bounds(s: Seq<char>, i: int)
    requires
        0 <= i <= s.len(),
    ensures
        i <= spec_key_end(s, i) <= s.len(),
    decreases s.len() - i,
{
    if i < s.len() && is_key_char(s[i]) {
        lemma_key_end_bounds(s, i + 1);
    }
}

pub proof fn lemma_token_end_bounds(s: Seq<char>, i: int)
    requires
        0 <= i <= s.len(),
    ensures
        i <= spec_token_end(s, i) <= s.len(),
    decreases s.len() - i,
{
    if i < s.len() && is_token_char(s[i]) {
        lemma_token_end_bounds(s, i + 1);
    }
}

pub proof fn lemma_to_eol_bounds(s: Seq<char>, i: int)
    requires
        0 <= i <= s.len(),
    ensures
        i <= spec_to_eol(s, i) <= s.len(),
    decreases s.len() - i,
{
    if i < s.len() && s[i] != '\n' {
        lemma_to_eol_bounds(s, i + 1);
    }
}

/// What one escape introducer stands for, if it is recognized.
pub open spec fn unescape(c: char) -> Option<char> {
    if c == '"' {
        Some('"')
    } else if c == '\\' {
        Some('\\')
    } else if c == 'n' {
        Some('\n')
    } else if c == 't' {
        Some('\t')
    } else if c == 'r' {
        Some('\r')
    } else {
        None
    }
}

/// The body of a quoted string, from just after the opening quote to just
/// after the closing one. A raw newline or an unknown escape is refused.
pub open spec fn spec_parse_string_body(s: Seq<char>, i: int, acc: Seq<char>) -> Option<
    (Seq<char>, int),
>
    decreases s.len() - i when 0 <= i <= s.len()
{
    if i >= s.len() {
        None
    } else if s[i] == '"' {
        Some((acc, i + 1))
    } else if s[i] == '\n' {
        None
    } else if s[i] == '\\' {
        if i + 1 < s.len() {
            match unescape(s[i + 1]) {
                Some(c) => spec_parse_string_body(s, i + 2, acc.push(c)),
                None => None,
            }
        } else {
            None
        }
    } else {
        spec_parse_string_body(s, i + 1, acc.push(s[i]))
    }
}

pub open spec fn digit_val(c: char) -> int {
    c as u32 - 48
}

/// Every character in `[a, b)` is a digit.
pub open spec fn all_digits(s: Seq<char>, a: int, b: int) -> bool {
    forall|k: int| a <= k < b ==> is_digit(#[trigger] s[k])
}

/// Some character in `[a, b)` is `c`.
pub open spec fn contains_char(s: Seq<char>, a: int, b: int, c: char) -> bool {
    exists|k: int| a <= k < b && s[k] == c
}

/// Some character in `[a, b)` is a digit.
pub open spec fn contains_digit(s: Seq<char>, a: int, b: int) -> bool {
    exists|k: int| a <= k < b && is_digit(#[trigger] s[k])
}

/// Every character in `[a, b)` may stand in a float token.
pub open spec fn all_float_chars(s: Seq<char>, a: int, b: int) -> bool {
    forall|k: int| a <= k < b ==> is_float_char(#[trigger] s[k])
}

/// The value of the digit run in `[a, b)`.
pub open spec fn digits_val(s: Seq<char>, a: int, b: int) -> int
    decreases b - a when a <= b
{
    if b <= a {
        0
    } else {
        digits_val(s, a, b - 1) * 10 + digit_val(s[b - 1])
    }
}

pub proof fn lemma_digits_val_nonneg(s: Seq<char>, a: int, b: int)
    requires
        a <= b,
        all_digits(s, a, b),
    ensures
        digits_val(s, a, b) >= 0,
    decreases b - a,
{
    if b > a {
        lemma_digits_val_nonneg(s, a, b - 1);
    }
}

/// More digits never lessen the value.
pub proof fn lemma_digits_val_monotone(s: Seq<char>, a: int, m: int, b: int)
    requires
        a <= m <= b,
        all_digits(s, a, b),
    ensures
        digits_val(s, a, b) >= digits_val(s, a, m),
    decreases b - m,
{
    if b > m {
        lemma_digits_val_monotone(s, a, m, b - 1);
        lemma_digits_val_nonneg(s, a, b - 1);
    }
}

/// Whether the token in `[a, b)` is an integer literal.
pub open spec fn is_int_token(s: Seq<char>, a: int, b: int) -> bool {
    a < b && if s[a] == '-' {
        a + 1 < b && all_digits(s, a + 1, b)
    } else {
        all_digits(s, a, b)
    }
}

/// The signed value of an integer token.
pub open spec fn int_token_val(s: Seq<char>, a: int, b: int) -> int {
    if s[a] == '-' {
        -digits_val(s, a + 1, b)
    } else {
        digits_val(s, a, b)
    }
}

/// How an unquoted token in `[a, b)` reads: an integer when it is all digits
/// (signed, and it must fit the integer width); a datetime when it holds a
/// colon, or an inner dash with no exponent letter; a float when its
/// characters fit a float shape with a digit and a dot or exponent; else
/// nothing.
pub open spec fn spec_classify_token(s: Seq<char>, a: int, b: int) -> Option<SpecValue> {
    if is_int_token(s, a, b) {
        if -0x8000_0000_0000_0000 <= int_token_val(s, a, b) <= 0x7fff_ffff_ffff_ffff {
            Some(SpecValue::Int(int_token_val(s, a, b) as i64))
        } else {
            None
        }
    } else if contains_char(s, a, b, ':') {
        Some(SpecValue::Datetime(s.subrange(a, b)))
    } else if contains_char(s, a + 1, b, '-') && !contains_char(s, a, b, 'e') && !contains_char(
        s,
        a,
        b,
        'E',
    ) {
        Some(SpecValue::Datetime(s.subrange(a, b)))
    } else if all_float_chars(s, a, b) && contains_digit(s, a, b) && (contains_char(s, a, b, '.')
        || contains_char(s, a, b, 'e') || contains_char(s, a, b, 'E')) {
        Some(SpecValue::Float(s.subrange(a, b)))
    } else {
        None
    }
}

/// One value, starting at `i`: its model and the position just after it.
pub open spec fn spec_parse_value(s: Seq<char>, i: int) -> Option<(SpecValue, int)>
    decreases s.len() - i, 0int when 0 <= i <= s.len()
{
    if i >= s.len() {
        None
    } else if s[i] == '"' {
        match spec_parse_string_body(s, i + 1, Seq::empty()) {
            Some((t, j)) => Some((SpecValue::Str(t), j)),
            None => None,
        }
    } else if s[i] == 't' {
        if i + 4 <= s.len() && s[i + 1] == 'r' && s[i + 2] == 'u' && s[i + 3] == 'e' {
            Some((SpecValue::Bool(true), i + 4))
        } else {
            None
        }
    } else if s[i] == 'f' {
        if i + 5 <= s.len() && s[i + 1] == 'a' && s[i + 2] == 'l' && s[i + 3] == 's' && s[i + 4]
            == 'e' {
            Some((SpecValue::Bool(false), i + 5))
        } else {
            None
        }
    } else if is_digit(s[i]) || s[i] == '-' {
        let e = spec_token_end(s, i);
        if e <= i || e > s.len() {
            None
        } else {
            match spec_classify_token(s, i, e) {
                Some(v) => Some((v, e)),
                None => None,
            }
        }
    } else if s[i] == '[' {
        let j = spec_skip_ws(s, i + 1);
        if j <= i || j > s.len() {
            None
        } else {
            match spec_parse_items(s, j, Seq::empty()) {
                Some((items, j2)) => Some((SpecValue::Arr(items), j2)),
                None => None,
            }
        }
    } else if s[i] == '{' {
        let j = spec_skip_ws(s, i + 1);
        if j <= i || j > s.len() {
            None
        } else {
            match spec_parse_pairs(s, j, Seq::empty()) {
                Some((t, j2)) => Some((SpecValue::Table(t), j2)),
                None => None,
            }
        }
    } else {
        None
    }
}

/// Array elements from `i` up to the closing bracket.
pub open spec fn spec_parse_items(s: Seq<char>, i: int, acc: Seq<SpecValue>) -> Option<
    (Seq<SpecValue>, int),
>
    decreases s.len() - i, 1int when 0 <= i <= s.len()
{
    if i >= s.len() {
        None
    } else if s[i] == ']' {
        Some((acc, i + 1))
    } else {
        match spec_parse_value(s, i) {
            None => None,
            Some((v, j)) => {
                if j <= i || j > s.len() {
                    None
                } else {
                    let j2 = spec_skip_ws(s, j);
                    if j2 < j || j2 > s.len() || j2 >= s.len() {
                        None
                    } else if s[j2] == ',' {
                        let j3 = spec_skip_ws(s, j2 + 1);
                        if j3 <= j2 || j3 > s.len() {
                            None
                        } else {
                            spec_parse_items(s, j3, acc.push(v))
                        }
                    } else if s[j2] == ']' {
                        Some((acc.push(v), j2 + 1))
                    } else {
                        None
                    }
                }
            }
        }
    }
}

/// Inline-table pairs from `i` up to the closing brace; a repeated key is
/// refused.
pub open spec fn spec_parse_pairs(
    s: Seq<char>,
    i: int,
    acc: Seq<(Seq<char>, SpecValue)>,
) -> Option<(Seq<(Seq<char>, SpecValue)>, int)>
    decreases s.len() - i, 1int when 0 <= i <= s.len()
{
    if i >= s.len() {
        None
    } else if s[i] == '}' {
        Some((acc, i + 1))
    } else {
        let ke = spec_key_end(s, i);
        if ke <= i || ke > s.len() {
            None
        } else {
            let k = s.subrange(i, ke);
            if table_contains_key(acc, k) {
                None
            } else {
                let j = spec_skip_ws(s, ke);
                if j < ke || j > s.len() || j >= s.len() {
                    None
                } else if s[j] == '=' {
                    let j2 = spec_skip_ws(s, j + 1);
                    if j2 <= j || j2 > s.len() {
                        None
                    } else {
                        match spec_parse_value(s, j2) {
                            None => None,
                            Some((v, j3)) => {
                                if j3 <= j2 || j3 > s.len() {
                                    None
                                } else {
                                    let j4 = spec_skip_ws(s, j3);
                                    if j4 < j3 || j4 > s.len() || j4 >= s.len() {
                                        None
                                    } else if s[j4] == ',' {
                                        let j5 = spec_skip_ws(s, j4 + 1);
                                        if j5 <= j4 || j5 > s.len() {
                                            None
                                        } else {
                                            spec_parse_pairs(s, j5, acc.push((k, v)))
                                        }
                                    } else if s[j4] == '}' {
                                        Some((acc.push((k, v)), j4 + 1))
                                    } else {
                                        None
                                    }
                                }
                            }
                        }
                    }
                } else {
                    None
                }
            }
        }
    }
}

/// What one line contributes to the document.
pub enum SpecLine {
    Blank,
    Header(Seq<char>),
    Pair(Seq<char>, SpecValue),
}

/// The position just after the rest of a line that may end with whitespace
/// and a comment, or nothing when something else stands there.
pub open spec fn spec_line_end(s: Seq<char>, i: int) -> Option<int> {
    let j = spec_skip_ws(s, i);
    if j < i || j > s.len() {
        None
    } else if j == s.len() {
        Some(j)
    } else if s[j] == '\n' {
        Some(j + 1)
    } else if s[j] == '#' {
        let k = spec_to_eol(s, j);
        if k < j || k > s.len() {
            None
        } else if k < s.len() {
            Some(k + 1)
        } else {
            Some(k)
        }
    } else {
        None
    }
}

/// One line, starting at `i`: blank (or comment), a `[name]` header, or a
/// `key = value` pair, and the position of the next line.
pub open spec fn spec_parse_line(s: Seq<char>, i: int) -> Option<(SpecLine, int)> {
    let j = spec_skip_ws(s, i);
    if j < i || j > s.len() {
        None
    } else if j == s.len() {
        Some((SpecLine::Blank, j))
    } else if s[j] == '\n' {
        Some((SpecLine::Blank, j + 1))
    } else if s[j] == '#' {
        let k = spec_to_eol(s, j);
        if k < j || k > s.len() {
            None
        } else if k < s.len() {
            Some((SpecLine::Blank, k + 1))
        } else {
            Some((SpecLine::Blank, k))
        }
    } else if s[j] == '[' {
        let ke = spec_key_end(s, j + 1);
        if ke <= j + 1 || ke > s.len() {
            None
        } else if ke < s.len() && s[ke] == ']' {
            match spec_line_end(s, ke + 1) {
                Some(e) => Some((SpecLine::Header(s.subrange(j + 1, ke)), e)),
                None => None,
            }
        } else {
            None
        }
    } else {
        let ke = spec_key_end(s, j);
        if ke <= j || ke > s.len() {
            None
        } else {
            let j2 = spec_skip_ws(s, ke);
            if j2 < ke || j2 > s.len() || j2 >= s.len() {
                None
            } else if s[j2] == '=' {
                let j3 = spec_skip_ws(s, j2 + 1);
                if j3 <= j2 || j3 > s.len() {
                    None
                } else {
                    match spec_parse_value(s, j3) {
                        None => None,
                        Some((v, j4)) => {
                            if j4 <= j3 || j4 > s.len() {
                                None
                            } else {
                                match spec_line_end(s, j4) {
                                    Some(e) => Some((SpecLine::Pair(s.subrange(j, ke), v), e)),
                                    None => None,
                                }
                            }
                        }
                    }
                }
            } else {
                None
            }
        }
    }
}

/// The whole document from `i` on: `acc` holds what earlier lines built and
/// `cur` the open section, if any. A `key = value` line lands in the open
/// section, or at the top level before any header. Repeated keys, at the top
/// level or within one section, are refused.
pub open spec fn spec_parse_doc(
    s: Seq<char>,
    i: int,
    acc: Seq<(Seq<char>, SpecValue)>,
    cur: Option<Seq<char>>,
) -> Option<Seq<(Seq<char>, SpecValue)>>
    decreases s.len() - i when 0 <= i <= s.len()
{
    if i >= s.len() {
        Some(acc)
    } else {
        match spec_parse_line(s, i) {
            None => None,
            Some((lk, j)) => {
                if j <= i || j > s.len() {
                    None
                } else {
                    match lk {
                        SpecLine::Blank => spec_parse_doc(s, j, acc, cur),
                        SpecLine::Header(h) => {
                            if table_contains_key(acc, h) {
                                None
                            } else {
                                spec_parse_doc(
                                    s,
                                    j,
                                    acc.push((h, SpecValue::Table(Seq::empty()))),
                                    Some(h),
                                )
                            }
                        }
                        SpecLine::Pair(k, v) => match cur {
                            None => {
                                if table_contains_key(acc, k) {
                                    None
                                } else {
                                    spec_parse_doc(s, j, acc.push((k, v)), None)
                                }
                            }
                            Some(h) => {
                                if !table_contains_key(acc, h) {
                                    None
                                } else {
                                    match table_get(acc, h) {
                                        SpecValue::Table(t) => {
                                            if table_contains_key(t, k) {
                                                None
                                            } else {
                                                spec_parse_doc(
                                                    s,
                                                    j,
                                                    table_set(
                                                        acc,
                                                        h,
                                                        SpecValue::Table(t.push((k, v))),
                                                    ),
                                                    cur,
                                                )
                                            }
                                        }
                                        _ => None,
                                    }
                                }
                            }
                        },
                    }
                }
            }
        }
    }
}

fn ch_is_ws(c: char) -> (r: bool)
    ensures
        r == is_ws(c),
{
    c == ' ' || c == '\t' || c == '\r'
}

fn ch_is_digit(c: char) -> (r: bool)
    ensures
        r == is_digit(c),
{
    let u = c as u32;
    48 <= u && u <= 57
}

fn ch_is_key(c: char) -> (r: bool)
    ensures
        r == is_key_char(c),
{
    let u = c as u32;
    (48 <= u && u <= 57) || (97 <= u && u <= 122) || (65 <= u && u <= 90) || c == '-' || c == '_'
}

fn ch_is_token(c: char) -> (r: bool)
    ensures
        r == is_token_char(c),
{
    let u = c as u32;
    (48 <= u && u <= 57) || (97 <= u && u <= 122) || (65 <= u && u <= 90) || c == '.' || c == ':'
        || c == '-' || c == '+' || c == '_'
}

fn ch_is_float(c: char) -> (r: bool)
    ensures
        r == is_float_char(c),
{
    let u = c as u32;
    (48 <= u && u <= 57) || c == '.' || c == 'e' || c == 'E' || c == '-' || c == '+'
}

fn skip_ws(s: &Vec<char>, i: usize) -> (j: usize)
    requires
        i <= s@.len(),
    ensures
        j as int == spec_skip_ws(s@, i as int),
        i <= j <= s@.len(),
{
    let mut j = i;
    while j < s.len() && ch_is_ws(s[j])
        invariant
            i <= j <= s@.len(),
            spec_skip_ws(s@, i as int) == spec_skip_ws(s@, j as int),
        decreases s@.len() - j,
    {
        j += 1;
    }
    j
}

fn key_end(s: &Vec<char>, i: usize) -> (j: usize)
    requires
        i <= s@.len(),
    ensures
        j as int == spec_key_end(s@, i as int),
        i <= j <= s@.len(),
{
    let mut j = i;
    while j < s.len() && ch_is_key(s[j])
        invariant
            i <= j <= s@.len(),
            spec_key_end(s@, i as int) == spec_key_end(s@, j as int),
        decreases s@.len() - j,
    {
        j += 1;
    }
    j
}

fn token_end(s: &Vec<char>, i: usize) -> (j: usize)
    requires
        i <= s@.len(),
    ensures
        j as int == spec_token_end(s@, i as int),
        i <= j <= s@.len(),
{
    let mut j = i;
    while j < s.len() && ch_is_token(s[j])
        invariant
            i <= j <= s@.len(),
            spec_token_end(s@, i as int) == spec_token_end(s@, j as int),
        decreases s@.len() - j,
    {
        j += 1;
    }
    j
}

fn to_eol(s: &Vec<char>, i: usize) -> (j: usize)
    requires
        i <= s@.len(),
    ensures
        j as int == spec_to_eol(s@, i as int),
        i <= j <= s@.len(),
{
    let mut j = i;
    while j < s.len() && s[j] != '\n'
        invariant
            i <= j <= s@.len(),
            spec_to_eol(s@, i as int) == spec_to_eol(s@, j as int),
        decreases s@.len() - j,
    {
        j += 1;
    }
    j
}

fn unescape_char(c: char) -> (r: Option<char>)
    ensures
        r == unescape(c),
{
    if c == '"' {
        Some('"')
    } else if c == '\\' {
        Some('\\')
    } else if c == 'n' {
        Some('\n')
    } else if c == 't' {
        Some('\t')
    } else if c == 'r' {
        Some('\r')
    } else {
        None
    }
}

fn parse_string_body(s: &Vec<char>, i: usize) -> (r: Option<(Vec<char>, usize)>)
    requires
        i <= s@.len(),
    ensures
        match r {
            Some(p) => spec_parse_string_body(s@, i as int, Seq::empty())
                == Some((p.0@, p.1 as int)) && i < p.1 <= s@.len(),
            None => spec_parse_string_body(s@, i as int, Seq::empty()) is None,
        },
{
    let mut j = i;
    let mut out: Vec<char> = Vec::new();
    loop
        invariant
            i <= j <= s@.len(),
            spec_parse_string_body(s@, i as int, Seq::empty())
                == spec_parse_string_body(s@, j as int, out@),
        decreases s@.len() - j,
    {
        if j >= s.len() {
            return None;
        }
        let c = s[j];
        if c == '"' {
            return Some((out, j + 1));
        }
        if c == '\n' {
            return None;
        }
        if c == '\\' {
            if j + 1 >= s.len() {
                return None;
            }
            match unescape_char(s[j + 1]) {
                Some(c2) => {
                    out.push(c2);
                    j += 2;
                }
                None => {
                    return None;
                }
            }
        } else {
            out.push(c);
            j += 1;
        }
    }
}

fn all_digits_in(s: &Vec<char>, a: usize, b: usize) -> (r: bool)
    requires
        a <= b <= s@.len(),
    ensures
        r == all_digits(s@, a as int, b as int),
{
    let mut k = a;
    while k < b
        invariant
            a <= k <= b <= s@.len(),
            forall|m: int| a <= m < k ==> is_digit(#[trigger] s@[m]),
        decreases b - k,
    {
        if !ch_is_digit(s[k]) {
            return false;
        }
        k += 1;
    }
    true
}

fn contains_char_in(s: &Vec<char>, a: usize, b: usize, c: char) -> (r: bool)
    requires
        a <= b <= s@.len(),
    ensures
        r == contains_char(s@, a as int, b as int, c),
{
    let mut k = a;
    while k < b
        invariant
            a <= k <= b <= s@.len(),
            forall|m: int| a <= m < k ==> s@[m] != c,
        decreases b - k,
    {
        if s[k] == c {
            return true;
        }
        k += 1;
    }
    false
}

fn contains_digit_in(s: &Vec<char>, a: usize, b: usize) -> (r: bool)
    requires
        a <= b <= s@.len(),
    ensures
        r == contains_digit(s@, a as int, b as int),
{
    let mut k = a;
    while k < b
        invariant
            a <= k <= b <= s@.len(),
            forall|m: int| a <= m < k ==> !is_digit(#[trigger] s@[m]),
        decreases b - k,
    {
        if ch_is_digit(s[k]) {
            return true;
        }
        k += 1;
    }
    false
}

fn all_float_in(s: &Vec<char>, a: usize, b: usize) -> (r: bool)
    requires
        a <= b <= s@.len(),
    ensures
        r == all_float_chars(s@, a as int, b as int),
{
    let mut k = a;
    while k < b
        invariant
            a <= k <= b <= s@.len(),
            forall|m: int| a <= m < k ==> is_float_char(#[trigger] s@[m]),
        decreases b - k,
    {
        if !ch_is_float(s[k]) {
            return false;
        }
        k += 1;
    }
    true
}

/// The characters in `[a, b)` as an owned string.
fn chars_substring(s: &Vec<char>, a: usize, b: usize) -> (r: String)
    requires
        a <= b <= s@.len(),
    ensures
        r@ == s@.subrange(a as int, b as int),
{
    let mut v: Vec<char> = Vec::new();
    let mut k = a;
    while k < b
        invariant
            a <= k <= b <= s@.len(),
            v@ == s@.subrange(a as int, k as int),
        decreases b - k,
    {
        v.push(s[k]);
        proof {
            assert(v@ =~= s@.subrange(a as int, k as int + 1));
        }
        k += 1;
    }
    crate::render::chars_to_string(&v)
}

/// The value of the digit run in `[a, b)`, when it does not exceed `bound`.
fn digits_value(s: &Vec<char>, a: usize, b: usize, bound: u64) -> (r: Option<u64>)
    requires
        a < b <= s@.len(),
        all_digits(s@, a as int, b as int),
        bound >= 10,
    ensures
        match r {
            Some(v) => v as int == digits_val(s@, a as int, b as int) && v <= bound,
            None => digits_val(s@, a as int, b as int) > bound,
        },
{
    let mut v: u64 = 0;
    let mut k = a;
    while k < b
        invariant
            a <= k <= b <= s@.len(),
            all_digits(s@, a as int, b as int),
            bound >= 10,
            v as int == digits_val(s@, a as int, k as int),
            v <= bound,
        decreases b - k,
    {
        let d: u64 = ((s[k] as u32) - 48) as u64;
        proof {
            assert(is_digit(s@[k as int]));
            assert(d < 10);
        }
        if v > (bound - d) / 10 {
            proof {
                assert((bound - d) == 10 * ((bound - d) / 10) + (bound - d) % 10);
                assert(v as int * 10 + d > bound);
                assert(digits_val(s@, a as int, k as int + 1) == v as int * 10 + d);
                lemma_digits_val_monotone(s@, a as int, k as int + 1, b as int);
            }
            return None;
        }
        proof {
            assert((bound - d) == 10 * ((bound - d) / 10) + (bound - d) % 10);
            assert(v as int * 10 + d <= bound);
        }
        v = v * 10 + d;
        proof {
            assert(v as int == digits_val(s@, a as int, k as int + 1));
        }
        k += 1;
    }
    Some(v)
}

/// An unquoted token read as an integer, datetime or float value.
fn classify_token(s: &Vec<char>, a: usize, b: usize) -> (r: Option<Value>)
    requires
        a < b <= s@.len(),
    ensures
        match r {
            Some(v) => spec_classify_token(s@, a as int, b as int) == Some(v.view())
                && value_wf(v.view()),
            None => spec_classify_token(s@, a as int, b as int) is None,
        },
{
    let neg = s[a] == '-';
    let m = if neg { a + 1 } else { a };
    let is_int = if neg {
        a + 1 < b && all_digits_in(s, a + 1, b)
    } else {
        all_digits_in(s, a, b)
    };
    proof {
        assert(is_int == is_int_token(s@, a as int, b as int));
    }
    if is_int {
        let bound: u64 = if neg {
            9223372036854775808
        } else {
            9223372036854775807
        };
        proof {
            lemma_digits_val_nonneg(s@, m as int, b as int);
        }
        match digits_value(s, m, b, bound) {
            Some(v) => {
                let iv: i64 = if neg {
                    if v == 9223372036854775808 {
                        i64::MIN
                    } else {
                        -(v as i64)
                    }
                } else {
                    v as i64
                };
                proof {
                    assert(iv as int == int_token_val(s@, a as int, b as int));
                }
                Some(Value::Int(iv))
            }
            None => {
                proof {
                    if neg {
                        assert(int_token_val(s@, a as int, b as int) < -0x8000_0000_0000_0000);
                    } else {
                        assert(int_token_val(s@, a as int, b as int) > 0x7fff_ffff_ffff_ffff);
                    }
                }
                None
            }
        }
    } else if contains_char_in(s, a, b, ':') {
        Some(Value::Datetime(chars_substring(s, a, b)))
    } else if contains_char_in(s, a + 1, b, '-') && !contains_char_in(s, a, b, 'e')
        && !contains_char_in(s, a, b, 'E') {
        Some(Value::Datetime(chars_substring(s, a, b)))
    } else if all_float_in(s, a, b) && contains_digit_in(s, a, b) && (contains_char_in(
        s,
        a,
        b,
        '.',
    ) || contains_char_in(s, a, b, 'e') || contains_char_in(s, a, b, 'E')) {
        Some(Value::Float(chars_substring(s, a, b)))
    } else {
        None
    }
}

/// One value, starting at `i`.
fn parse_value(s: &Vec<char>, i: usize) -> (r: Option<(Value, usize)>)
    requires
        i <= s@.len(),
    ensures
        match r {
            Some(p) => spec_parse_value(s@, i as int) == Some((p.0.view(), p.1 as int))
                && i < p.1 <= s@.len() && value_wf(p.0.view()),
            None => spec_parse_value(s@, i as int) is None,
        },
    decreases s@.len() - i, 0int,
{
    if i >= s.len() {
        return None;
    }
    let c = s[i];
    if c == '"' {
        match parse_string_body(s, i + 1) {
            Some((t, j)) => Some((Value::Str(crate::render::chars_to_string(&t)), j)),
            None => None,
        }
    } else if c == 't' {
        if s.len() - i >= 4 && s[i + 1] == 'r' && s[i + 2] == 'u' && s[i + 3] == 'e' {
            Some((Value::Bool(true), i + 4))
        } else {
            None
        }
    } else if c == 'f' {
        if s.len() - i >= 5 && s[i + 1] == 'a' && s[i + 2] == 'l' && s[i + 3] == 's' && s[i + 4]
            == 'e' {
            Some((Value::Bool(false), i + 5))
        } else {
            None
        }
    } else if ch_is_digit(c) || c == '-' {
        let e = token_end(s, i);
        proof {
            assert(is_token_char(s@[i as int]));
            assert(spec_token_end(s@, i as int) == spec_token_end(s@, i as int + 1));
            lemma_token_end_bounds(s@, i as int + 1);
            assert(e > i);
        }
        match classify_token(s, i, e) {
            Some(v) => Some((v, e)),
            None => None,
        }
    } else if c == '[' {
        let j = skip_ws(s, i + 1);
        match parse_items(s, j) {
            Some((items, j2)) => {
                proof {
                    lemma_values_view(items@);
                    assert(value_wf(SpecValue::Arr(values_view(items@))));
                }
                Some((Value::Arr(items), j2))
            }
            None => None,
        }
    } else if c == '{' {
        let j = skip_ws(s, i + 1);
        match parse_pairs(s, j) {
            Some((t, j2)) => Some((Value::Table(t), j2)),
            None => None,
        }
    } else {
        None
    }
}

/// Array elements up to the closing bracket.
fn parse_items(s: &Vec<char>, i: usize) -> (r: Option<(Vec<Value>, usize)>)
    requires
        i <= s@.len(),
    ensures
        match r {
            Some(p) => spec_parse_items(s@, i as int, Seq::empty())
                == Some((values_view(p.0@), p.1 as int)) && i < p.1 <= s@.len()
                && forall|k: int| 0 <= k < p.0@.len() ==> value_wf(#[trigger] p.0@[k].view()),
            None => spec_parse_items(s@, i as int, Seq::empty()) is None,
        },
    decreases s@.len() - i, 1int,
{
    let mut j = i;
    let mut out: Vec<Value> = Vec::new();
    proof {
        assert(values_view(out@) =~= Seq::<SpecValue>::empty());
    }
    loop
        invariant
            i <= j <= s@.len(),
            forall|k: int| 0 <= k < out@.len() ==> value_wf(#[trigger] out@[k].view()),
            spec_parse_items(s@, i as int, Seq::empty())
                == spec_parse_items(s@, j as int, values_view(out@)),
        decreases s@.len() - j,
    {
        if j >= s.len() {
            return None;
        }
        if s[j] == ']' {
            return Some((out, j + 1));
        }
        match parse_value(s, j) {
            None => {
                return None;
            }
            Some((v, j1)) => {
                let j2 = skip_ws(s, j1);
                if j2 >= s.len() {
                    return None;
                }
                if s[j2] == ',' {
                    let j3 = skip_ws(s, j2 + 1);
                    let ghost preout = out@;
                    out.push(v);
                    proof {
                        crate::doc::lemma_values_view_push(preout, v);
                    }
                    j = j3;
                } else if s[j2] == ']' {
                    let ghost preout = out@;
                    out.push(v);
                    proof {
                        crate::doc::lemma_values_view_push(preout, v);
                    }
                    return Some((out, j2 + 1));
                } else {
                    return None;
                }
            }
        }
    }
}

/// Inline-table pairs up to the closing brace.
fn parse_pairs(s: &Vec<char>, i: usize) -> (r: Option<(Document, usize)>)
    requires
        i <= s@.len(),
    ensures
        match r {
            Some(p) => spec_parse_pairs(s@, i as int, Seq::empty())
                == Some((p.0.view(), p.1 as int)) && i < p.1 <= s@.len() && table_wf(p.0.view()),
            None => spec_parse_pairs(s@, i as int, Seq::empty()) is None,
        },
    decreases s@.len() - i, 1int,
{
    let mut j = i;
    let mut out = Document::new();
    loop
        invariant
            i <= j <= s@.len(),
            table_wf(out.view()),
            spec_parse_pairs(s@, i as int, Seq::empty())
                == spec_parse_pairs(s@, j as int, out.view()),
        decreases s@.len() - j,
    {
        if j >= s.len() {
            return None;
        }
        if s[j] == '}' {
            return Some((out, j + 1));
        }
        let ke = key_end(s, j);
        if ke <= j {
            return None;
        }
        let key = chars_substring(s, j, ke);
        if out.index_of(key.as_str()).is_some() {
            return None;
        }
        let j1 = skip_ws(s, ke);
        if j1 >= s.len() {
            return None;
        }
        if s[j1] != '=' {
            return None;
        }
        let j2 = skip_ws(s, j1 + 1);
        match parse_value(s, j2) {
            None => {
                return None;
            }
            Some((v, j3)) => {
                let j4 = skip_ws(s, j3);
                if j4 >= s.len() {
                    return None;
                }
                if s[j4] == ',' {
                    let j5 = skip_ws(s, j4 + 1);
                    let ghost pe = out.entries@;
                    proof {
                        crate::doc::lemma_table_push_wf(out.view(), key@, v.view());
                    }
                    out.entries.push((key, v));
                    proof {
                        crate::doc::lemma_entries_view_push(pe, (key, v));
                    }
                    j = j5;
                } else if s[j4] == '}' {
                    let ghost pe = out.entries@;
                    proof {
                        crate::doc::lemma_table_push_wf(out.view(), key@, v.view());
                    }
                    out.entries.push((key, v));
                    proof {
                        crate::doc::lemma_entries_view_push(pe, (key, v));
                    }
                    return Some((out, j4 + 1));
                } else {
                    return None;
                }
            }
        }
    }
}

/// What one parsed line holds.
enum LineItem {
    Blank,
    Header(String),
    Pair(String, Value),
}

impl LineItem {
    spec fn view(self) -> SpecLine {
        match self {
            LineItem::Blank => SpecLine::Blank,
            LineItem::Header(h) => SpecLine::Header(h@),
            LineItem::Pair(k, v) => SpecLine::Pair(k@, v.view()),
        }
    }
}

fn line_end(s: &Vec<char>, i: usize) -> (r: Option<usize>)
    requires
        i <= s@.len(),
    ensures
        match r {
            Some(e) => spec_line_end(s@, i as int) == Some(e as int) && i <= e <= s@.len(),
            None => spec_line_end(s@, i as int) is None,
        },
{
    let j = skip_ws(s, i);
    if j >= s.len() {
        Some(j)
    } else if s[j] == '\n' {
        Some(j + 1)
    } else if s[j] == '#' {
        let k = to_eol(s, j);
        if k < s.len() {
            Some(k + 1)
        } else {
            Some(k)
        }
    } else {
        None
    }
}

/// One line: blank or comment, a section header, or a `key = value` pair.
fn parse_line(s: &Vec<char>, i: usize) -> (r: Option<(LineItem, usize)>)
    requires
        i < s@.len(),
    ensures
        match r {
            Some(p) => spec_parse_line(s@, i as int) == Some((p.0.view(), p.1 as int))
                && i < p.1 <= s@.len()
                && (p.0 is Pair ==> value_wf(p.0->Pair_1.view())),
            None => spec_parse_line(s@, i as int) is None,
        },
{
    let j = skip_ws(s, i);
    if j >= s.len() {
        return Some((LineItem::Blank, j));
    }
    let c = s[j];
    if c == '\n' {
        return Some((LineItem::Blank, j + 1));
    }
    if c == '#' {
        let k = to_eol(s, j);
        proof {
            assert(s@[j as int] != '\n');
            assert(spec_to_eol(s@, j as int) == spec_to_eol(s@, j as int + 1));
            lemma_to_eol_bounds(s@, j as int + 1);
        }
        if k < s.len() {
            return Some((LineItem::Blank, k + 1));
        } else {
            return Some((LineItem::Blank, k));
        }
    }
    if c == '[' {
        let ke = key_end(s, j + 1);
        if ke <= j + 1 {
            return None;
        }
        if ke < s.len() && s[ke] == ']' {
            match line_end(s, ke + 1) {
                Some(e) => {
                    let name = chars_substring(s, j + 1, ke);
                    proof {
                        assert(e > ke);
                    }
                    return Some((LineItem::Header(name), e));
                }
                None => {
                    return None;
                }
            }
        } else {
            return None;
        }
    }
    let ke = key_end(s, j);
    if ke <= j {
        return None;
    }
    let j2 = skip_ws(s, ke);
    if j2 >= s.len() {
        return None;
    }
    if s[j2] != '=' {
        return None;
    }
    let j3 = skip_ws(s, j2 + 1);
    match parse_value(s, j3) {
        None => None,
        Some((v, j4)) => {
            match line_end(s, j4) {
                Some(e) => {
                    let key = chars_substring(s, j, ke);
                    proof {
                        assert(e >= j4);
                        assert(e > i);
                    }
                    Some((LineItem::Pair(key, v), e))
                }
                None => None,
            }
        }
    }
}

pub open spec fn opt_view(c: Option<String>) -> Option<Seq<char>> {
    match c {
        Some(h) => Some(h@),
        None => None,
    }
}

/// The whole text parsed into a document, or the first structural error.
pub fn parse_document(s: &Vec<char>) -> (r: Result<Document, crate::errors::ParseError>)
    ensures
        match r {
            Ok(d) => spec_parse_doc(s@, 0, Seq::empty(), None) == Some(d.view())
                && table_wf(d.view()),
            Err(_) => spec_parse_doc(s@, 0, Seq::empty(), None) is None,
        },
{
    let mut doc = Document::new();
    let mut cur: Option<String> = None;
    let mut i: usize = 0;
    proof {
        assert(table_wf(doc.view()));
    }
    loop
        invariant
            i <= s@.len(),
            table_wf(doc.view()),
            spec_parse_doc(s@, 0, Seq::empty(), None)
                == spec_parse_doc(s@, i as int, doc.view(), opt_view(cur)),
        decreases s@.len() - i,
    {
        if i >= s.len() {
            return Ok(doc);
        }
        match parse_line(s, i) {
            None => {
                return Err(crate::errors::ParseError);
            }
            Some((li, j)) => {
                match li {
                    LineItem::Blank => {
                        i = j;
                    }
                    LineItem::Header(h) => {
                        if doc.index_of(h.as_str()).is_some() {
                            return Err(crate::errors::ParseError);
                        }
                        let ghost pre = doc.view();
                        let h2 = h.clone();
                        proof {
                            assert(table_wf(Seq::<(Seq<char>, SpecValue)>::empty()));
                            assert(value_wf(SpecValue::Table(Seq::empty())));
                            crate::doc::lemma_table_push_wf(pre, h@,
                                SpecValue::Table(Seq::empty()));
                        }
                        doc.set(h, Value::Table(Document::new()));
                        cur = Some(h2);
                        proof {
                            assert(doc.view()
                                == pre.push((h2@, SpecValue::Table(Seq::empty()))));
                        }
                        i = j;
                    }
                    LineItem::Pair(k, v) => {
                        let in_section = cur.is_some();
                        if !in_section {
                            if doc.index_of(k.as_str()).is_some() {
                                return Err(crate::errors::ParseError);
                            }
                            let ghost pre = doc.view();
                            proof {
                                crate::doc::lemma_table_push_wf(pre, k@, v.view());
                            }
                            doc.set(k, v);
                            i = j;
                        } else {
                            let h = match &cur {
                                Some(x) => x,
                                None => unreached(),
                            };
                            let hi = match doc.index_of(h.as_str()) {
                                Some(x) => x,
                                None => {
                                    return Err(crate::errors::ParseError);
                                }
                            };
                            proof {
                                crate::doc::lemma_unique_index(doc.view(), h@, hi as int);
                                crate::doc::lemma_entries_view(doc.entries@);
                            }
                            let inner_ref = match &doc.entries[hi].1 {
                                Value::Table(d) => d,
                                _ => {
                                    return Err(crate::errors::ParseError);
                                }
                            };
                            proof {
                                assert(doc.view()[hi as int].1
                                    == SpecValue::Table(inner_ref.view()));
                                assert(table_get(doc.view(), h@)
                                    == SpecValue::Table(inner_ref.view()));
                                assert(value_wf(doc.view()[hi as int].1));
                            }
                            let mut inner = inner_ref.deep_clone();
                            if inner.index_of(k.as_str()).is_some() {
                                return Err(crate::errors::ParseError);
                            }
                            let ghost pt = inner.view();
                            let ghost pe = inner.entries@;
                            proof {
                                crate::doc::lemma_table_push_wf(pt, k@, v.view());
                            }
                            inner.entries.push((k, v));
                            proof {
                                crate::doc::lemma_entries_view_push(pe, (k, v));
                            }
                            let ghost pre = doc.view();
                            let hs = h.clone();
                            proof {
                                crate::manifest::lemma_table_set_wf(pre, hs@,
                                    SpecValue::Table(inner.view()));
                            }
                            doc.set(hs, Value::Table(inner));
                            i = j;
                        }
                    }
                }
            }
        }
    }
}

/// The characters of a string slice.
fn str_to_chars(s: &str) -> (v: Vec<char>)
    ensures
        v@ == s@,
{
    let n = s.unicode_len();
    let mut v: Vec<char> = Vec::new();
    let mut i: usize = 0;
    while i < n
        invariant
            0 <= i <= n,
            n == s@.len(),
            v@ == s@.take(i as int),
        decreases n - i,
    {
        v.push(s.get_char(i));
        proof {
            assert(v@ =~= s@.take(i as int + 1));
        }
        i += 1;
    }
    proof {
        assert(s@.take(n as int) =~= s@);
    }
    v
}

/// The text parsed into a document: the whole-string entry point.
pub fn parse_text(input: &str) -> (r: Result<Document, crate::errors::ParseError>)
    ensures
        match r {
            Ok(d) => spec_parse_doc(input@, 0, Seq::empty(), None) == Some(d.view())
                && table_wf(d.view()),
            Err(_) => spec_parse_doc(input@, 0, Seq::empty(), None) is None,
        },
{
    let chars = str_to_chars(input);
    parse_document(&chars)
}

} // verus!
