//! A small, tolerant reader for the SNBT request records Minecraft writes
//! into its log, and the writer of quoted SNBT strings. It handles
//! compounds, lists, quoted strings, numbers and booleans.
use vstd::prelude::*;

use crate::text::{
    all_digits, chars_of, digit, digits_number, is_ascii_digit, is_unicode_whitespace,
    lemma_digits_number_prefix, lower, push_char, push_i64, push_str, signed_decimal, str_eq,
    string_from_chars, string_of, to_ascii_lower, whitespace,
};

verus! {

broadcast use vstd::string::group_string_axioms;

/// An SNBT value. A floating-point number keeps the text it was written
/// with (its type suffix removed).
#[derive(Debug)]
pub enum Value {
    Compound(Compound),
    List(Vec<Value>),
    Str(String),
    Int(i64),
    Float(String),
    Bool(bool),
}

/// The entries of an SNBT compound, each key once, in the order in which
/// keys first appeared.
#[derive(Debug)]
pub struct Compound {
    pub entries: Vec<(String, Value)>,
}

/// The mathematical model of a value.
pub enum ValueModel {
    Compound(Seq<(Seq<char>, ValueModel)>),
    List(Seq<ValueModel>),
    Str(Seq<char>),
    Int(i64),
    Float(Seq<char>),
    Bool(bool),
}

pub open spec fn value_model(v: Value) -> ValueModel
    decreases v,
{
    match v {
        Value::Compound(c) => ValueModel::Compound(entries_model(c.entries@)),
        Value::List(xs) => ValueModel::List(values_model(xs@)),
        Value::Str(s) => ValueModel::Str(s@),
        Value::Int(n) => ValueModel::Int(n),
        Value::Float(t) => ValueModel::Float(t@),
        Value::Bool(b) => ValueModel::Bool(b),
    }
}

pub open spec fn entries_model(es: Seq<(String, Value)>) -> Seq<(Seq<char>, ValueModel)>
    decreases es,
{
    if es.len() == 0 {
        Seq::empty()
    } else {
        entries_model(es.drop_last()).push((es.last().0@, value_model(es.last().1)))
    }
}

pub open spec fn values_model(xs: Seq<Value>) -> Seq<ValueModel>
    decreases xs,
{
    if xs.len() == 0 {
        Seq::empty()
    } else {
        values_model(xs.drop_last()).push(value_model(xs.last()))
    }
}

pub proof fn lemma_entries_model_len(es: Seq<(String, Value)>)
    ensures
        entries_model(es).len() == es.len(),
    decreases es.len(),
{
    if es.len() > 0 {
        lemma_entries_model_len(es.drop_last());
    }
}

pub proof fn lemma_entries_model_index(es: Seq<(String, Value)>, i: int)
    requires
        0 <= i < es.len(),
    ensures
        entries_model(es)[i] == (es[i].0@, value_model(es[i].1)),
    decreases es.len(),
{
    lemma_entries_model_len(es.drop_last());
    if i < es.len() - 1 {
        lemma_entries_model_index(es.drop_last(), i);
    }
}

pub proof fn lemma_values_model_len(xs: Seq<Value>)
    ensures
        values_model(xs).len() == xs.len(),
    decreases xs.len(),
{
    if xs.len() > 0 {
        lemma_values_model_len(xs.drop_last());
    }
}

pub proof fn lemma_values_model_index(xs: Seq<Value>, i: int)
    requires
        0 <= i < xs.len(),
    ensures
        values_model(xs)[i] == value_model(xs[i]),
    decreases xs.len(),
{
    lemma_values_model_len(xs.drop_last());
    if i < xs.len() - 1 {
        lemma_values_model_index(xs.drop_last(), i);
    }
}

/// Index of the entry with key `key`.
pub open spec fn key_index(es: Seq<(Seq<char>, ValueModel)>, key: Seq<char>) -> Option<int>
    decreases es.len(),
{
    if es.len() == 0 {
        None
    } else if es.last().0 == key {
        Some(es.len() - 1)
    } else {
        key_index(es.drop_last(), key)
    }
}

/// The entries after `key` is set to `value`: an entry with that key keeps
/// its place and takes the new value, otherwise the entry is appended.
pub open spec fn insert_entry(es: Seq<(Seq<char>, ValueModel)>, key: Seq<char>, value: ValueModel) -> Seq<
    (Seq<char>, ValueModel),
> {
    match key_index(es, key) {
        Some(i) => es.update(i, (key, value)),
        None => es.push((key, value)),
    }
}

/// The value stored under `key`.
pub open spec fn entry_value(es: Seq<(Seq<char>, ValueModel)>, key: Seq<char>) -> Option<ValueModel> {
    match key_index(es, key) {
        Some(i) => Some(es[i].1),
        None => None,
    }
}

pub proof fn lemma_key_index(es: Seq<(Seq<char>, ValueModel)>, key: Seq<char>)
    ensures
        key_index(es, key) matches Some(i) ==> 0 <= i < es.len() && es[i].0 == key,
        key_index(es, key) is None ==> forall|j: int| 0 <= j < es.len() ==> #[trigger] es[j].0 != key,
    decreases es.len(),
{
    if es.len() > 0 && es.last().0 != key {
        lemma_key_index(es.drop_last(), key);
        assert forall|j: int| 0 <= j < es.len() - 1 implies es.drop_last()[j] == #[trigger] es[j] by {}
    }
}

// ---- the grammar -----------------------------------------------------------
/// Position of the first non-whitespace character at or after `pos`.
pub open spec fn skip_ws(cs: Seq<char>, pos: int) -> int
    decreases cs.len() - pos,
{
    if 0 <= pos < cs.len() && is_unicode_whitespace(cs[pos]) {
        skip_ws(cs, pos + 1)
    } else {
        pos
    }
}

pub proof fn lemma_skip_ws(cs: Seq<char>, pos: int)
    requires
        0 <= pos,
    ensures
        pos <= skip_ws(cs, pos),
        pos <= cs.len() ==> skip_ws(cs, pos) <= cs.len(),
    decreases cs.len() - pos,
{
    if 0 <= pos < cs.len() && is_unicode_whitespace(cs[pos]) {
        lemma_skip_ws(cs, pos + 1);
    }
}

pub open spec fn is_quote(c: char) -> bool {
    c == '"' || c == '\''
}

/// The character an escape `\c` stands for inside a quoted string.
pub open spec fn unescaped(c: char) -> char {
    if c == 'n' {
        '\n'
    } else if c == 't' {
        '\t'
    } else if c == 'r' {
        '\r'
    } else {
        c
    }
}

/// The rest of a quoted string from `i`, with its characters so far in
/// `acc`: the string and the position after its closing quote. A string
/// that is not closed ends at the end of the input.
pub open spec fn quoted_body(cs: Seq<char>, i: int, quote: char, acc: Seq<char>) -> (Seq<char>, int)
    decreases cs.len() - i,
{
    if i < 0 || i >= cs.len() {
        (acc, cs.len() as int)
    } else if cs[i] == '\\' {
        if i + 1 < cs.len() {
            quoted_body(cs, i + 2, quote, acc.push(unescaped(cs[i + 1])))
        } else {
            (acc, cs.len() as int)
        }
    } else if cs[i] == quote {
        (acc, i + 1)
    } else {
        quoted_body(cs, i + 1, quote, acc.push(cs[i]))
    }
}

/// A quoted string whose opening quote is at `p`.
pub open spec fn parse_quoted(cs: Seq<char>, p: int) -> (Seq<char>, int) {
    quoted_body(cs, p + 1, cs[p], Seq::empty())
}

pub proof fn lemma_quoted_body_progress(cs: Seq<char>, i: int, quote: char, acc: Seq<char>)
    requires
        0 <= i,
    ensures
        i <= cs.len() ==> i <= quoted_body(cs, i, quote, acc).1 <= cs.len(),
    decreases cs.len() - i,
{
    if i < cs.len() {
        if cs[i] == '\\' {
            if i + 1 < cs.len() {
                lemma_quoted_body_progress(cs, i + 2, quote, acc.push(unescaped(cs[i + 1])));
            }
        } else if cs[i] != quote {
            lemma_quoted_body_progress(cs, i + 1, quote, acc.push(cs[i]));
        }
    }
}

/// End of an unquoted key starting at `p`: it runs to a `:` or whitespace.
pub open spec fn key_end(cs: Seq<char>, p: int) -> int
    decreases cs.len() - p,
{
    if 0 <= p < cs.len() && cs[p] != ':' && !is_unicode_whitespace(cs[p]) {
        key_end(cs, p + 1)
    } else {
        p
    }
}

pub proof fn lemma_key_end(cs: Seq<char>, p: int)
    requires
        0 <= p <= cs.len(),
    ensures
        p <= key_end(cs, p) <= cs.len(),
    decreases cs.len() - p,
{
    if p < cs.len() && cs[p] != ':' && !is_unicode_whitespace(cs[p]) {
        lemma_key_end(cs, p + 1);
    }
}

/// A compound key at or after `p0` (after whitespace): quoted, or the
/// non-empty run up to a `:` or whitespace.
pub open spec fn parse_key(cs: Seq<char>, p0: int) -> Option<(Seq<char>, int)> {
    let p = skip_ws(cs, p0);
    if p < 0 || p >= cs.len() {
        None
    } else if is_quote(cs[p]) {
        Some(parse_quoted(cs, p))
    } else {
        let k = key_end(cs, p);
        if k == p {
            None
        } else {
            Some((cs.subrange(p, k), k))
        }
    }
}

pub proof fn lemma_parse_key_progress(cs: Seq<char>, p0: int)
    requires
        0 <= p0 <= cs.len(),
    ensures
        parse_key(cs, p0) matches Some((k, q)) ==> p0 < q <= cs.len(),
{
    lemma_skip_ws(cs, p0);
    let p = skip_ws(cs, p0);
    if 0 <= p < cs.len() {
        if is_quote(cs[p]) {
            lemma_quoted_body_progress(cs, p + 1, cs[p], Seq::empty());
        } else {
            lemma_key_end(cs, p);
        }
    }
}

/// End of an unquoted scalar starting at `p`: it runs to `,`, `}`, `]` or
/// whitespace.
pub open spec fn scalar_end(cs: Seq<char>, p: int) -> int
    decreases cs.len() - p,
{
    if 0 <= p < cs.len() && cs[p] != ',' && cs[p] != '}' && cs[p] != ']'
        && !is_unicode_whitespace(cs[p]) {
        scalar_end(cs, p + 1)
    } else {
        p
    }
}

proof fn lemma_scalar_end(cs: Seq<char>, p: int)
    requires
        0 <= p <= cs.len(),
    ensures
        p <= scalar_end(cs, p) <= cs.len(),
    decreases cs.len() - p,
{
    if p < cs.len() && cs[p] != ',' && cs[p] != '}' && cs[p] != ']' && !is_unicode_whitespace(
        cs[p],
    ) {
        lemma_scalar_end(cs, p + 1);
    }
}

/// Numeric type suffixes that a scalar may carry.
pub open spec fn is_suffix_char(c: char) -> bool {
    c == 'b' || c == 's' || c == 'l' || c == 'L' || c == 'f' || c == 'd' || c == 'B' || c == 'S'
        || c == 'F' || c == 'D'
}

/// `s` without a single trailing type-suffix character.
pub open spec fn trim_suffix(s: Seq<char>) -> Seq<char> {
    if s.len() > 0 && is_suffix_char(s.last()) {
        s.drop_last()
    } else {
        s
    }
}

/// End of the run of ASCII digits that starts at `i`.
pub open spec fn digit_run(s: Seq<char>, i: int) -> int
    decreases s.len() - i,
{
    if 0 <= i < s.len() && is_ascii_digit(s[i]) {
        digit_run(s, i + 1)
    } else {
        i
    }
}

pub open spec fn lower_chars(s: Seq<char>) -> Seq<char> {
    s.map_values(|c: char| to_ascii_lower(c))
}

/// std's grammar of a decimal floating-point number (without sign):
/// `inf`, `infinity` or `nan` in any case, or digits with an optional
/// fraction (at least one digit in all) and an optional exponent.
pub open spec fn is_unsigned_float(b: Seq<char>) -> bool {
    let l = lower_chars(b);
    if l == "inf"@ || l == "infinity"@ || l == "nan"@ {
        true
    } else {
        let i1 = digit_run(b, 0);
        let has_dot = i1 < b.len() && b[i1] == '.';
        let i2 = if has_dot {
            digit_run(b, i1 + 1)
        } else {
            i1
        };
        let mantissa = i1 > 0 || (has_dot && i2 > i1 + 1);
        mantissa && (i2 == b.len() || ((b[i2] == 'e' || b[i2] == 'E') && {
            let j = if i2 + 1 < b.len() && (b[i2 + 1] == '+' || b[i2 + 1] == '-') {
                i2 + 2
            } else {
                i2 + 1
            };
            j < b.len() && digit_run(b, j) == b.len()
        }))
    }
}

/// Whether std's `str::parse::<f64>` accepts `s`: an optional sign, then an
/// unsigned float.
pub open spec fn is_float_text(s: Seq<char>) -> bool {
    if s.len() > 0 && (s[0] == '+' || s[0] == '-') {
        is_unsigned_float(s.drop_first())
    } else {
        is_unsigned_float(s)
    }
}

/// std's `str::parse::<i64>`: an optional sign, at least one digit, within
/// range.
pub open spec fn parse_i64(s: Seq<char>) -> Option<i64> {
    let neg = s.len() > 0 && s[0] == '-';
    let ds = if s.len() > 0 && (s[0] == '-' || s[0] == '+') {
        s.drop_first()
    } else {
        s
    };
    let v: int = if neg {
        -(digits_number(ds) as int)
    } else {
        digits_number(ds) as int
    };
    if ds.len() > 0 && all_digits(ds) && i64::MIN <= v <= i64::MAX {
        Some(v as i64)
    } else {
        None
    }
}

pub open spec fn contains_char(s: Seq<char>, c: char) -> bool {
    exists|i: int| 0 <= i < s.len() && s[i] == c
}

/// The value an unquoted scalar token stands for: a boolean, a float when it
/// has a `.` or a float suffix and parses as one, an integer, or the token
/// itself as a string.
pub open spec fn classify_scalar(token: Seq<char>) -> ValueModel {
    if token == "true"@ {
        ValueModel::Bool(true)
    } else if token == "false"@ {
        ValueModel::Bool(false)
    } else {
        let t = trim_suffix(token);
        let floaty = contains_char(token, '.') || (token.len() > 0 && (token.last() == 'f'
            || token.last() == 'd' || token.last() == 'F' || token.last() == 'D'));
        if floaty && is_float_text(t) {
            ValueModel::Float(t)
        } else {
            match parse_i64(t) {
                Some(v) => ValueModel::Int(v),
                None => ValueModel::Str(token),
            }
        }
    }
}

/// The value that starts at or after `p0` (after whitespace), and the
/// position after it.
pub open spec fn parse_value(cs: Seq<char>, p0: int) -> Option<(ValueModel, int)>
    decreases cs.len() - p0, 0int,
{
    if p0 < 0 || p0 > cs.len() {
        None
    } else {
        let p = skip_ws(cs, p0);
        proof {
            lemma_skip_ws(cs, p0);
        }
        if p >= cs.len() {
            None
        } else if cs[p] == '{' {
            compound_entries(cs, p + 1, Seq::empty())
        } else if cs[p] == '[' {
            proof {
                lemma_list_start(cs, p + 1);
            }
            list_items(cs, list_start(cs, p + 1), Seq::empty())
        } else if is_quote(cs[p]) {
            let (s, q) = parse_quoted(cs, p);
            Some((ValueModel::Str(s), q))
        } else {
            let e = scalar_end(cs, p);
            Some((classify_scalar(cs.subrange(p, e)), e))
        }
    }
}

/// Where the items of a list begin, after its `[` at `p - 1`: a typed-array
/// prefix such as `I;` is skipped.
pub open spec fn list_start(cs: Seq<char>, p: int) -> int {
    let q = skip_ws(cs, p);
    if 0 <= q < cs.len() && crate::text::is_ascii_alpha(cs[q]) {
        if q + 1 < cs.len() && cs[q + 1] == ';' {
            q + 2
        } else {
            q
        }
    } else {
        p
    }
}

pub proof fn lemma_list_start(cs: Seq<char>, p: int)
    requires
        0 <= p <= cs.len(),
    ensures
        p <= list_start(cs, p) <= cs.len(),
{
    lemma_skip_ws(cs, p);
}

/// The entries of a compound from `pos` on, those read so far in `acc`.
pub open spec fn compound_entries(cs: Seq<char>, pos: int, acc: Seq<(Seq<char>, ValueModel)>) -> Option<
    (ValueModel, int),
>
    decreases cs.len() - pos, 1int,
{
    if pos < 0 || pos > cs.len() {
        None
    } else {
        let p = skip_ws(cs, pos);
        proof {
            lemma_skip_ws(cs, pos);
        }
        if p >= cs.len() {
            None
        } else if cs[p] == '}' {
            Some((ValueModel::Compound(acc), p + 1))
        } else {
            match parse_key(cs, p) {
                None => None,
                Some((key, q)) => {
                    proof {
                        lemma_parse_key_progress(cs, p);
                        lemma_skip_ws(cs, q);
                    }
                    let q2 = skip_ws(cs, q);
                    if q2 >= cs.len() || cs[q2] != ':' {
                        None
                    } else {
                        match parse_value(cs, q2 + 1) {
                            None => None,
                            Some((v, r)) => {
                                let r2 = skip_ws(cs, r);
                                let r3 = if 0 <= r2 < cs.len() && cs[r2] == ',' {
                                    r2 + 1
                                } else {
                                    r2
                                };
                                if pos < r3 <= cs.len() {
                                    compound_entries(cs, r3, insert_entry(acc, key, v))
                                } else {
                                    None
                                }
                            },
                        }
                    }
                },
            }
        }
    }
}

/// The items of a list from `pos` on, those read so far in `acc`. An item
/// that does not move the reader forward (a `}` where an item should be)
/// rejects the list.
pub open spec fn list_items(cs: Seq<char>, pos: int, acc: Seq<ValueModel>) -> Option<
    (ValueModel, int),
>
    decreases cs.len() - pos, 1int,
{
    if pos < 0 || pos > cs.len() {
        None
    } else {
        let p = skip_ws(cs, pos);
        proof {
            lemma_skip_ws(cs, pos);
        }
        if p >= cs.len() {
            None
        } else if cs[p] == ']' {
            Some((ValueModel::List(acc), p + 1))
        } else {
            match parse_value(cs, p) {
                None => None,
                Some((v, r)) => {
                    let r2 = skip_ws(cs, r);
                    let r3 = if 0 <= r2 < cs.len() && cs[r2] == ',' {
                        r2 + 1
                    } else {
                        r2
                    };
                    if pos < r3 <= cs.len() {
                        list_items(cs, r3, acc.push(v))
                    } else {
                        None
                    }
                },
            }
        }
    }
}

/// The value that `input` starts with.
pub open spec fn parse_snbt(input: Seq<char>) -> Option<ValueModel> {
    match parse_value(input, 0) {
        Some((v, _)) => Some(v),
        None => None,
    }
}

// ---- reading ---------------------------------------------------------------
fn skip_ws_at(cs: &[char], pos: usize) -> (r: usize)
    requires
        pos <= cs@.len(),
    ensures
        r == skip_ws(cs@, pos as int),
        pos <= r <= cs@.len(),
{
    let mut i = pos;
    while i < cs.len() && whitespace(cs[i])
        invariant
            pos <= i <= cs@.len(),
            skip_ws(cs@, pos as int) == skip_ws(cs@, i as int),
        decreases cs@.len() - i,
    {
        i = i + 1;
    }
    i
}

fn unescape(c: char) -> (r: char)
    ensures
        r == unescaped(c),
{
    if c == 'n' {
        '\n'
    } else if c == 't' {
        '\t'
    } else if c == 'r' {
        '\r'
    } else {
        c
    }
}

/// The quoted string whose opening quote is at `p`.
fn quoted_at(cs: &[char], p: usize) -> (r: (String, usize))
    requires
        p < cs@.len(),
    ensures
        (r.0@, r.1 as int) == parse_quoted(cs@, p as int),
        p < r.1 <= cs@.len(),
{
    let quote = cs[p];
    let mut out = String::new();
    let mut i = p + 1;
    proof {
        lemma_quoted_body_progress(cs@, p + 1, quote, Seq::empty());
    }
    while i < cs.len()
        invariant
            p < i <= cs@.len(),
            quote == cs@[p as int],
            parse_quoted(cs@, p as int) == quoted_body(cs@, i as int, quote, out@),
        decreases cs@.len() - i,
    {
        let c = cs[i];
        if c == '\\' {
            if i + 1 < cs.len() {
                push_char(&mut out, unescape(cs[i + 1]));
                i = i + 2;
            } else {
                return (out, cs.len());
            }
        } else if c == quote {
            return (out, i + 1);
        } else {
            push_char(&mut out, c);
            i = i + 1;
        }
    }
    (out, i)
}

/// The compound key at or after `p0`.
fn key_at(cs: &[char], p0: usize) -> (r: Option<(String, usize)>)
    requires
        p0 <= cs@.len(),
    ensures
        match parse_key(cs@, p0 as int) {
            Some((k, q)) => r matches Some((key, q2)) && key@ == k && q2 == q,
            None => r is None,
        },
{
    let p = skip_ws_at(cs, p0);
    if p >= cs.len() {
        return None;
    }
    if cs[p] == '"' || cs[p] == '\'' {
        let (key, q) = quoted_at(cs, p);
        return Some((key, q));
    }
    let mut k = p;
    while k < cs.len() && cs[k] != ':' && !whitespace(cs[k])
        invariant
            p <= k <= cs@.len(),
            key_end(cs@, p as int) == key_end(cs@, k as int),
        decreases cs@.len() - k,
    {
        k = k + 1;
    }
    if k == p {
        None
    } else {
        Some((string_from_chars(cs, p, k), k))
    }
}

fn scalar_end_at(cs: &[char], p: usize) -> (r: usize)
    requires
        p <= cs@.len(),
    ensures
        r == scalar_end(cs@, p as int),
        p <= r <= cs@.len(),
{
    let mut e = p;
    while e < cs.len() && cs[e] != ',' && cs[e] != '}' && cs[e] != ']' && !whitespace(cs[e])
        invariant
            p <= e <= cs@.len(),
            scalar_end(cs@, p as int) == scalar_end(cs@, e as int),
        decreases cs@.len() - e,
    {
        e = e + 1;
    }
    e
}

fn digit_run_at(b: &[char], i: usize) -> (r: usize)
    requires
        i <= b@.len(),
    ensures
        r == digit_run(b@, i as int),
        i <= r <= b@.len(),
{
    let mut j = i;
    while j < b.len() && digit(b[j])
        invariant
            i <= j <= b@.len(),
            digit_run(b@, i as int) == digit_run(b@, j as int),
        decreases b@.len() - j,
    {
        j = j + 1;
    }
    j
}

/// Whether `b` spelled in lower case is `lit`.
fn lower_is(b: &[char], lit: &str) -> (r: bool)
    ensures
        r == (lower_chars(b@) == lit@),
{
    let l = chars_of(lit);
    if l.len() != b.len() {
        return false;
    }
    let mut i: usize = 0;
    while i < b.len()
        invariant
            l@ == lit@,
            l@.len() == b@.len(),
            i <= b@.len(),
            forall|j: int| 0 <= j < i ==> to_ascii_lower(#[trigger] b@[j]) == l@[j],
        decreases b@.len() - i,
    {
        if lower(b[i]) != l[i] {
            assert(lower_chars(b@)[i as int] != lit@[i as int]);
            return false;
        }
        i = i + 1;
    }
    assert(lower_chars(b@) =~= lit@);
    true
}

fn unsigned_float(b: &[char]) -> (r: bool)
    ensures
        r == is_unsigned_float(b@),
{
    if lower_is(b, "inf") || lower_is(b, "infinity") || lower_is(b, "nan") {
        return true;
    }
    let i1 = digit_run_at(b, 0);
    let has_dot = i1 < b.len() && b[i1] == '.';
    let i2 = if has_dot {
        digit_run_at(b, i1 + 1)
    } else {
        i1
    };
    let mantissa = i1 > 0 || (has_dot && i2 > i1 + 1);
    if !mantissa {
        return false;
    }
    if i2 == b.len() {
        return true;
    }
    if b[i2] != 'e' && b[i2] != 'E' {
        return false;
    }
    let j = if i2 + 1 < b.len() && (b[i2 + 1] == '+' || b[i2 + 1] == '-') {
        i2 + 2
    } else {
        i2 + 1
    };
    j < b.len() && digit_run_at(b, j) == b.len()
}

fn copy_range(cs: &[char], start: usize, end: usize) -> (r: Vec<char>)
    requires
        start <= end <= cs@.len(),
    ensures
        r@ == cs@.subrange(start as int, end as int),
{
    let mut r: Vec<char> = Vec::new();
    let mut i = start;
    while i < end
        invariant
            start <= i <= end <= cs@.len(),
            r@ == cs@.subrange(start as int, i as int),
        decreases end - i,
    {
        r.push(cs[i]);
        i = i + 1;
    }
    r
}

/// Whether std's float parser accepts the characters `t`.
fn float_text(t: &[char]) -> (r: bool)
    ensures
        r == is_float_text(t@),
{
    if t.len() > 0 && (t[0] == '+' || t[0] == '-') {
        let rest = copy_range(t, 1, t.len());
        assert(rest@ =~= t@.drop_first());
        unsigned_float(rest.as_slice())
    } else {
        unsigned_float(t)
    }
}

/// std's integer parser on the characters `t`.
fn int_text(t: &[char]) -> (r: Option<i64>)
    ensures
        r == parse_i64(t@),
{
    let neg = t.len() > 0 && t[0] == '-';
    let start: usize = if t.len() > 0 && (t[0] == '-' || t[0] == '+') {
        1
    } else {
        0
    };
    let ghost ds = t@.subrange(start as int, t@.len() as int);
    assert(ds =~= (if t@.len() > 0 && (t@[0] == '-' || t@[0] == '+') {
        t@.drop_first()
    } else {
        t@
    }));
    if start == t.len() {
        return None;
    }
    let limit: u64 = if neg {
        9223372036854775808u64
    } else {
        9223372036854775807u64
    };
    let mut value: u64 = 0;
    let mut i = start;
    while i < t.len()
        invariant
            start <= i <= t@.len(),
            ds == t@.subrange(start as int, t@.len() as int),
            all_digits(t@.subrange(start as int, i as int)),
            value == digits_number(t@.subrange(start as int, i as int)),
            value <= limit,
            ds == (if t@.len() > 0 && (t@[0] == '-' || t@[0] == '+') {
                t@.drop_first()
            } else {
                t@
            }),
            neg == (t@.len() > 0 && t@[0] == '-'),
            limit == (if neg {
                9223372036854775808u64
            } else {
                9223372036854775807u64
            }),
        decreases t@.len() - i,
    {
        let c = t[i];
        if !digit(c) {
            assert(ds[i - start] == c);
            assert(!all_digits(ds));
            return None;
        }
        assert(t@.subrange(start as int, i + 1).drop_last() =~= t@.subrange(start as int, i as int));
        let d: u64 = (c as u32 - 48) as u64;
        if value > (limit - d) / 10 {
            proof {
                assert(value * 10 + d > limit) by (nonlinear_arith)
                    requires
                        value > (limit - d) / 10,
                        d <= 9,
                        d <= limit,
                ;
                lemma_digits_number_prefix(ds, i + 1 - start);
                assert(ds.take(i + 1 - start) =~= t@.subrange(start as int, i + 1));
            }
            return None;
        }
        assert(value * 10 + d <= limit) by (nonlinear_arith)
            requires
                value <= (limit - d) / 10,
                d <= limit,
        ;
        value = value * 10 + d;
        i = i + 1;
    }
    assert(t@.subrange(start as int, i as int) =~= ds);
    if neg {
        if value == 9223372036854775808u64 {
            Some(i64::MIN)
        } else {
            Some(-(value as i64))
        }
    } else {
        Some(value as i64)
    }
}

fn is_suffix(c: char) -> (r: bool)
    ensures
        r == is_suffix_char(c),
{
    c == 'b' || c == 's' || c == 'l' || c == 'L' || c == 'f' || c == 'd' || c == 'B' || c == 'S'
        || c == 'F' || c == 'D'
}

/// The value of an unquoted scalar token.
fn classify(token: &[char]) -> (r: Value)
    ensures
        value_model(r) == classify_scalar(token@),
{
    let text = string_from_chars(token, 0, token.len());
    assert(token@.subrange(0, token@.len() as int) =~= token@);
    if str_eq(text.as_str(), "true") {
        return Value::Bool(true);
    }
    if str_eq(text.as_str(), "false") {
        return Value::Bool(false);
    }
    let end = if token.len() > 0 && is_suffix(token[token.len() - 1]) {
        token.len() - 1
    } else {
        token.len()
    };
    let t = copy_range(token, 0, end);
    assert(t@ =~= trim_suffix(token@));
    let mut dot = false;
    let mut i: usize = 0;
    while i < token.len()
        invariant
            i <= token@.len(),
            dot == exists|j: int| 0 <= j < i && token@[j] == '.',
        decreases token@.len() - i,
    {
        if token[i] == '.' {
            dot = true;
        }
        i = i + 1;
    }
    let n = token.len();
    let floaty = dot || (n > 0 && (token[n - 1] == 'f' || token[n - 1] == 'd' || token[n - 1]
        == 'F' || token[n - 1] == 'D'));
    if floaty && float_text(t.as_slice()) {
        return Value::Float(string_from_vec_all(&t));
    }
    match int_text(t.as_slice()) {
        Some(v) => Value::Int(v),
        None => Value::Str(text),
    }
}

fn string_from_vec_all(cs: &Vec<char>) -> (r: String)
    ensures
        r@ == cs@,
{
    let r = string_from_chars(cs.as_slice(), 0, cs.len());
    assert(cs@.subrange(0, cs@.len() as int) =~= cs@);
    r
}

proof fn lemma_key_index_prefix(m: Seq<(Seq<char>, ValueModel)>, key: Seq<char>, i: int)
    requires
        0 <= i <= m.len(),
        forall|j: int| i <= j < m.len() ==> #[trigger] m[j].0 != key,
    ensures
        key_index(m, key) == key_index(m.take(i), key),
    decreases m.len() - i,
{
    if i < m.len() {
        assert(m.last().0 != key);
        lemma_key_index_prefix(m.drop_last(), key, i);
        assert(m.drop_last().take(i) =~= m.take(i));
    } else {
        assert(m.take(i) =~= m);
    }
}

proof fn lemma_entries_model_push(es: Seq<(String, Value)>, x: (String, Value))
    ensures
        entries_model(es.push(x)) == entries_model(es).push((x.0@, value_model(x.1))),
{
    assert(es.push(x).drop_last() =~= es);
}

proof fn lemma_entries_model_update(es: Seq<(String, Value)>, i: int, x: (String, Value))
    requires
        0 <= i < es.len(),
    ensures
        entries_model(es.update(i, x)) == entries_model(es).update(i, (x.0@, value_model(x.1))),
{
    let a = entries_model(es.update(i, x));
    let b = entries_model(es).update(i, (x.0@, value_model(x.1)));
    lemma_entries_model_len(es.update(i, x));
    lemma_entries_model_len(es);
    assert forall|j: int| 0 <= j < a.len() implies a[j] == b[j] by {
        lemma_entries_model_index(es.update(i, x), j);
        lemma_entries_model_index(es, j);
    }
    assert(a =~= b);
}

impl Compound {
    /// An empty compound.
    pub fn new() -> (r: Self)
        ensures
            entries_model(r.entries@) == Seq::<(Seq<char>, ValueModel)>::empty(),
    {
        Compound { entries: Vec::new() }
    }

    /// Number of entries.
    pub fn len(&self) -> (r: usize)
        ensures
            r == entries_model(self.entries@).len(),
    {
        proof {
            lemma_entries_model_len(self.entries@);
        }
        self.entries.len()
    }

    /// Index of the entry with key `key`.
    fn index_of(&self, key: &str) -> (r: Option<usize>)
        ensures
            key_index(entries_model(self.entries@), key@) == (match r {
                Some(i) => Some(i as int),
                None => None::<int>,
            }),
            r matches Some(i) ==> i < self.entries@.len(),
    {
        let ghost m = entries_model(self.entries@);
        proof {
            lemma_entries_model_len(self.entries@);
        }
        let mut i = self.entries.len();
        while i > 0
            invariant
                m == entries_model(self.entries@),
                m.len() == self.entries@.len(),
                i <= self.entries@.len(),
                forall|j: int| i <= j < m.len() ==> #[trigger] m[j].0 != key@,
            decreases i,
        {
            proof {
                lemma_entries_model_index(self.entries@, i - 1);
            }
            if str_eq(self.entries[i - 1].0.as_str(), key) {
                proof {
                    lemma_key_index_prefix(m, key@, i as int);
                    assert(m.take(i as int).last() == m[i - 1]);
                }
                return Some(i - 1);
            }
            i = i - 1;
        }
        proof {
            lemma_key_index_prefix(m, key@, 0);
            assert(m.take(0) =~= Seq::<(Seq<char>, ValueModel)>::empty());
        }
        None
    }

    /// The value stored under `key`.
    pub fn get(&self, key: &str) -> (r: Option<&Value>)
        ensures
            match entry_value(entries_model(self.entries@), key@) {
                Some(m) => r matches Some(v) && value_model(*v) == m,
                None => r is None,
            },
    {
        match self.index_of(key) {
            Some(i) => {
                proof {
                    lemma_entries_model_index(self.entries@, i as int);
                }
                Some(&self.entries[i].1)
            },
            None => None,
        }
    }

    /// The value stored under `key`, taken out of the compound.
    pub fn into_value(self, key: &str) -> (r: Option<Value>)
        ensures
            match entry_value(entries_model(self.entries@), key@) {
                Some(m) => r matches Some(v) && value_model(v) == m,
                None => r is None,
            },
    {
        match self.index_of(key) {
            Some(i) => {
                proof {
                    lemma_entries_model_index(self.entries@, i as int);
                }
                let mut entries = self.entries;
                let (_, v) = entries.remove(i);
                Some(v)
            },
            None => None,
        }
    }

    /// Sets `key` to `value`: an existing entry keeps its place.
    pub fn insert(&mut self, key: String, value: Value)
        ensures
            entries_model(final(self).entries@) == insert_entry(
                entries_model(old(self).entries@),
                key@,
                value_model(value),
            ),
    {
        match self.index_of(key.as_str()) {
            Some(i) => {
                proof {
                    lemma_entries_model_update(self.entries@, i as int, (key, value));
                }
                self.entries.set(i, (key, value));
            },
            None => {
                proof {
                    lemma_entries_model_push(self.entries@, (key, value));
                }
                self.entries.push((key, value));
            },
        }
    }
}

fn list_start_at(cs: &[char], p: usize) -> (r: usize)
    requires
        p <= cs@.len(),
    ensures
        r == list_start(cs@, p as int),
        p <= r <= cs@.len(),
{
    let q = skip_ws_at(cs, p);
    if q < cs.len() && crate::text::alpha(cs[q]) {
        if q + 1 < cs.len() && cs[q + 1] == ';' {
            q + 2
        } else {
            q
        }
    } else {
        p
    }
}

/// The value that starts at or after `p0`, and the position after it.
fn parse_value_at(cs: &[char], p0: usize) -> (r: Option<(Value, usize)>)
    requires
        p0 <= cs@.len(),
    ensures
        match parse_value(cs@, p0 as int) {
            Some((m, q)) => r matches Some((v, q2)) && value_model(v) == m && q2 == q,
            None => r is None,
        },
    decreases cs@.len() - p0, 0int,
{
    let p = skip_ws_at(cs, p0);
    if p >= cs.len() {
        return None;
    }
    let c = cs[p];
    if c == '{' {
        compound_entries_at(cs, p + 1, Compound::new())
    } else if c == '[' {
        let start = list_start_at(cs, p + 1);
        list_items_at(cs, start, Vec::new())
    } else if c == '"' || c == '\'' {
        let (text, q) = quoted_at(cs, p);
        Some((Value::Str(text), q))
    } else {
        let e = scalar_end_at(cs, p);
        let token = copy_range(cs, p, e);
        Some((classify(token.as_slice()), e))
    }
}

/// The entries of a compound from `pos` on, those read so far in `acc`.
fn compound_entries_at(cs: &[char], pos: usize, acc: Compound) -> (r: Option<(Value, usize)>)
    requires
        pos <= cs@.len(),
    ensures
        match compound_entries(cs@, pos as int, entries_model(acc.entries@)) {
            Some((m, q)) => r matches Some((v, q2)) && value_model(v) == m && q2 == q,
            None => r is None,
        },
    decreases cs@.len() - pos, 1int,
{
    let p = skip_ws_at(cs, pos);
    if p >= cs.len() {
        return None;
    }
    if cs[p] == '}' {
        return Some((Value::Compound(acc), p + 1));
    }
    let (key, q) = match key_at(cs, p) {
        Some(kq) => kq,
        None => {
            return None;
        },
    };
    proof {
        lemma_parse_key_progress(cs@, p as int);
    }
    let q2 = skip_ws_at(cs, q);
    if q2 >= cs.len() || cs[q2] != ':' {
        return None;
    }
    let (value, r) = match parse_value_at(cs, q2 + 1) {
        Some(vr) => vr,
        None => {
            return None;
        },
    };
    proof {
        lemma_value_progress(cs@, q2 + 1);
    }
    let r2 = skip_ws_at(cs, r);
    let r3 = if r2 < cs.len() && cs[r2] == ',' {
        r2 + 1
    } else {
        r2
    };
    if pos < r3 {
        let mut acc = acc;
        acc.insert(key, value);
        compound_entries_at(cs, r3, acc)
    } else {
        None
    }
}

/// The items of a list from `pos` on, those read so far in `acc`.
fn list_items_at(cs: &[char], pos: usize, acc: Vec<Value>) -> (r: Option<(Value, usize)>)
    requires
        pos <= cs@.len(),
    ensures
        match list_items(cs@, pos as int, values_model(acc@)) {
            Some((m, q)) => r matches Some((v, q2)) && value_model(v) == m && q2 == q,
            None => r is None,
        },
    decreases cs@.len() - pos, 1int,
{
    let p = skip_ws_at(cs, pos);
    if p >= cs.len() {
        return None;
    }
    if cs[p] == ']' {
        return Some((Value::List(acc), p + 1));
    }
    let (value, r) = match parse_value_at(cs, p) {
        Some(vr) => vr,
        None => {
            return None;
        },
    };
    proof {
        lemma_value_progress(cs@, p as int);
    }
    let r2 = skip_ws_at(cs, r);
    let r3 = if r2 < cs.len() && cs[r2] == ',' {
        r2 + 1
    } else {
        r2
    };
    if pos < r3 {
        let mut acc = acc;
        let ghost before = acc@;
        acc.push(value);
        proof {
            assert(acc@.drop_last() =~= before);
        }
        list_items_at(cs, r3, acc)
    } else {
        None
    }
}

/// A parsed value ends within the input, at or after where it started.
pub proof fn lemma_value_progress(cs: Seq<char>, p0: int)
    requires
        0 <= p0 <= cs.len(),
    ensures
        parse_value(cs, p0) matches Some((v, q)) ==> p0 <= q <= cs.len(),
    decreases cs.len() - p0, 0int,
{
    lemma_skip_ws(cs, p0);
    let p = skip_ws(cs, p0);
    if p < cs.len() {
        if cs[p] == '{' {
            lemma_entries_progress(cs, p + 1, Seq::empty());
        } else if cs[p] == '[' {
            lemma_list_start(cs, p + 1);
            lemma_items_progress(cs, list_start(cs, p + 1), Seq::empty());
        } else if is_quote(cs[p]) {
            lemma_quoted_body_progress(cs, p + 1, cs[p], Seq::empty());
        } else {
            lemma_scalar_end(cs, p);
        }
    }
}

pub proof fn lemma_entries_progress(cs: Seq<char>, pos: int, acc: Seq<(Seq<char>, ValueModel)>)
    requires
        0 <= pos <= cs.len(),
    ensures
        compound_entries(cs, pos, acc) matches Some((v, q)) ==> pos <= q <= cs.len(),
    decreases cs.len() - pos, 1int,
{
    lemma_skip_ws(cs, pos);
    let p = skip_ws(cs, pos);
    if p < cs.len() && cs[p] != '}' {
        lemma_parse_key_progress(cs, p);
        if let Some((key, q)) = parse_key(cs, p) {
            lemma_skip_ws(cs, q);
            let q2 = skip_ws(cs, q);
            if q2 < cs.len() && cs[q2] == ':' {
                lemma_value_progress(cs, q2 + 1);
                if let Some((v, r)) = parse_value(cs, q2 + 1) {
                    lemma_skip_ws(cs, r);
                    let r2 = skip_ws(cs, r);
                    let r3 = if 0 <= r2 < cs.len() && cs[r2] == ',' {
                        r2 + 1
                    } else {
                        r2
                    };
                    if pos < r3 <= cs.len() {
                        lemma_entries_progress(cs, r3, insert_entry(acc, key, v));
                    }
                }
            }
        }
    }
}

pub proof fn lemma_items_progress(cs: Seq<char>, pos: int, acc: Seq<ValueModel>)
    requires
        0 <= pos <= cs.len(),
    ensures
        list_items(cs, pos, acc) matches Some((v, q)) ==> pos <= q <= cs.len(),
    decreases cs.len() - pos, 1int,
{
    lemma_skip_ws(cs, pos);
    let p = skip_ws(cs, pos);
    if p < cs.len() && cs[p] != ']' {
        lemma_value_progress(cs, p);
        if let Some((v, r)) = parse_value(cs, p) {
            lemma_skip_ws(cs, r);
            let r2 = skip_ws(cs, r);
            let r3 = if 0 <= r2 < cs.len() && cs[r2] == ',' {
                r2 + 1
            } else {
                r2
            };
            if pos < r3 <= cs.len() {
                lemma_items_progress(cs, r3, acc.push(v));
            }
        }
    }
}

/// Parses the value that `input` starts with (after whitespace): a compound,
/// list, quoted string or scalar. A list with a `}` where an item should
/// be is rejected.
pub fn parse_compound(input: &str) -> (r: Option<Value>)
    ensures
        match parse_snbt(input@) {
            Some(m) => r matches Some(v) && value_model(v) == m,
            None => r is None,
        },
{
    let chars = chars_of(input);
    match parse_value_at(chars.as_slice(), 0) {
        Some((v, _)) => Some(v),
        None => None,
    }
}

impl Value {
    /// The entries of a compound.
    pub fn as_compound(&self) -> (r: Option<&Compound>)
        ensures
            match *self {
                Value::Compound(c) => r == Some(&c),
                _ => r is None,
            },
    {
        match self {
            Value::Compound(c) => Some(c),
            _ => None,
        }
    }

    /// The text of a string value.
    pub fn as_str(&self) -> (r: Option<&str>)
        ensures
            match *self {
                Value::Str(s) => r matches Some(t) && t@ == s@,
                _ => r is None,
            },
    {
        match self {
            Value::Str(s) => Some(s.as_str()),
            _ => None,
        }
    }

    /// The whole number an integer, boolean (`true` is 1) or float stands
    /// for; a float is truncated toward zero (see [`float_whole`]).
    pub fn as_int(&self) -> (r: Option<i64>)
        ensures
            match *self {
                Value::Int(n) => r == Some(n),
                Value::Bool(b) => r == Some(
                    if b {
                        1i64
                    } else {
                        0i64
                    },
                ),
                Value::Float(t) => r == Some(float_whole(t@)),
                _ => r is None,
            },
    {
        match self {
            Value::Int(n) => Some(*n),
            Value::Float(t) => {
                let cs = chars_of(t.as_str());
                Some(float_whole_of(cs.as_slice()))
            },
            Value::Bool(b) => Some(
                if *b {
                    1
                } else {
                    0
                },
            ),
            _ => None,
        }
    }

    /// A scalar as plain text for the handlers: strings as they are,
    /// integers in decimal, booleans as `true`/`false`, floats as written;
    /// compounds and lists as the empty string.
    pub fn to_arg_string(&self) -> (r: String)
        ensures
            r@ == arg_text(value_model(*self)),
    {
        match self {
            Value::Str(s) => string_of(s.as_str()),
            Value::Int(n) => {
                let mut out = String::new();
                push_i64(&mut out, *n);
                out
            },
            Value::Float(t) => string_of(t.as_str()),
            Value::Bool(b) => if *b {
                string_of("true")
            } else {
                string_of("false")
            },
            _ => String::new(),
        }
    }
}

/// The text `to_arg_string` gives a value.
pub open spec fn arg_text(v: ValueModel) -> Seq<char> {
    match v {
        ValueModel::Str(s) => s,
        ValueModel::Int(n) => signed_decimal(n as int),
        ValueModel::Float(t) => t,
        ValueModel::Bool(b) => if b {
            "true"@
        } else {
            "false"@
        },
        _ => Seq::empty(),
    }
}

// ---- writing ---------------------------------------------------------------
/// How one character is written inside a quoted command string.
pub open spec fn escape_char(c: char) -> Seq<char> {
    if c == '"' {
        "\\\""@
    } else if c == '\\' {
        "\\\\"@
    } else if (c as u32) < 0x20 {
        seq![' ']
    } else {
        seq![c]
    }
}

pub open spec fn escape_chars(s: Seq<char>) -> Seq<char>
    decreases s.len(),
{
    if s.len() == 0 {
        Seq::empty()
    } else {
        escape_chars(s.drop_last()) + escape_char(s.last())
    }
}

/// `s` quoted and escaped for a single-line `.mcfunction` command.
pub open spec fn escaped(s: Seq<char>) -> Seq<char> {
    seq!['"'] + escape_chars(s) + seq!['"']
}

/// Quotes and escapes a string for a single-line `.mcfunction` command:
/// `"` and `\` get a backslash, control characters become spaces.
pub fn escape_string(value: &str) -> (r: String)
    ensures
        r@ == escaped(value@),
{
    let chars = chars_of(value);
    let mut out = String::new();
    push_char(&mut out, '"');
    let mut i: usize = 0;
    while i < chars.len()
        invariant
            chars@ == value@,
            i <= chars@.len(),
            out@ == seq!['"'] + escape_chars(value@.take(i as int)),
        decreases chars@.len() - i,
    {
        let c = chars[i];
        proof {
            assert(value@.take(i + 1).drop_last() =~= value@.take(i as int));
            assert(value@.take(i + 1).last() == c);
            reveal_strlit("\\\"");
            reveal_strlit("\\\\");
        }
        if c == '"' {
            push_str(&mut out, "\\\"");
        } else if c == '\\' {
            push_str(&mut out, "\\\\");
        } else if (c as u32) < 0x20 {
            push_char(&mut out, ' ');
        } else {
            push_char(&mut out, c);
        }
        assert(out@ =~= seq!['"'] + escape_chars(value@.take(i + 1)));
        i = i + 1;
    }
    push_char(&mut out, '"');
    assert(value@.take(i as int) =~= value@);
    out
}

/// `s` with its control characters turned into spaces.
pub open spec fn flattened(s: Seq<char>) -> Seq<char> {
    s.map_values(|c: char| if (c as u32) < 0x20 { ' ' } else { c })
}

proof fn lemma_escape_concat(a: Seq<char>, b: Seq<char>)
    ensures
        escape_chars(a + b) == escape_chars(a) + escape_chars(b),
    decreases b.len(),
{
    if b.len() == 0 {
        assert(a + b =~= a);
        assert(escape_chars(a) + escape_chars(b) =~= escape_chars(a));
    } else {
        assert((a + b).drop_last() =~= a + b.drop_last());
        assert((a + b).last() == b.last());
        lemma_escape_concat(a, b.drop_last());
        assert(escape_chars(a + b) =~= escape_chars(a) + escape_chars(b));
    }
}

proof fn lemma_escaped_reads_from(s: Seq<char>, k: int)
    requires
        0 <= k <= s.len(),
    ensures
        quoted_body(
            escaped(s),
            1 + escape_chars(s.take(k)).len() as int,
            '"',
            flattened(s.take(k)),
        ) == (flattened(s), escaped(s).len() as int),
    decreases s.len() - k,
{
    let t = escaped(s);
    let e = escape_chars(s);
    let ek = escape_chars(s.take(k));
    lemma_escape_concat(s.take(k), s.skip(k));
    assert(s.take(k) + s.skip(k) =~= s);
    let i: int = 1 + ek.len() as int;
    if k == s.len() {
        assert(s.take(k) =~= s);
        assert(t[i] == '"');
    } else {
        let c = s[k];
        assert(s.skip(k) =~= seq![c] + s.skip(k + 1));
        lemma_escape_concat(seq![c], s.skip(k + 1));
        assert(seq![c].drop_last() =~= Seq::<char>::empty());
        assert(seq![c].last() == c);
        assert(escape_chars(Seq::<char>::empty()) == Seq::<char>::empty());
        assert(escape_chars(seq![c]) == escape_chars(Seq::<char>::empty()) + escape_char(c));
        assert(escape_chars(seq![c]) =~= escape_char(c));
        assert(s.take(k + 1) =~= s.take(k).push(c));
        assert(s.take(k + 1) =~= s.take(k) + seq![c]);
        lemma_escape_concat(s.take(k), seq![c]);
        let ek1 = escape_chars(s.take(k + 1));
        assert(ek1 =~= ek + escape_char(c));
        assert(e =~= ek + escape_char(c) + escape_chars(s.skip(k + 1)));
        assert(flattened(s.take(k + 1)) =~= flattened(s.take(k)).push(
            if (c as u32) < 0x20 {
                ' '
            } else {
                c
            },
        ));
        reveal_strlit("\\\"");
        reveal_strlit("\\\\");
        if c == '"' {
            assert(t[i] == '\\');
            assert(t[i + 1] == '"');
        } else if c == '\\' {
            assert(t[i] == '\\');
            assert(t[i + 1] == '\\');
        } else if (c as u32) < 0x20 {
            assert(t[i] == ' ');
        } else {
            assert(t[i] == c);
        }
        lemma_escaped_reads_from(s, k + 1);
    }
}

/// A string written by `escape_string` reads back, through the SNBT reader,
/// as the same string with its control characters turned into spaces.
pub proof fn law_escaped_string_reads_back(s: Seq<char>)
    ensures
        parse_snbt(escaped(s)) == Some(ValueModel::Str(flattened(s))),
{
    let t = escaped(s);
    lemma_escaped_reads_from(s, 0);
    assert(s.take(0) =~= Seq::<char>::empty());
    assert(flattened(Seq::<char>::empty()) =~= Seq::<char>::empty());
    assert(t[0] == '"');
    assert(!is_unicode_whitespace('"'));
    assert(skip_ws(t, 0) == 0);
}

proof fn lemma_escaped_reads_within(pre: Seq<char>, s: Seq<char>, post: Seq<char>, k: int)
    requires
        0 <= k <= s.len(),
    ensures
        quoted_body(
            pre + escaped(s) + post,
            pre.len() + 1 + escape_chars(s.take(k)).len() as int,
            '"',
            flattened(s.take(k)),
        ) == (flattened(s), pre.len() + escaped(s).len() as int),
    decreases s.len() - k,
{
    let t = escaped(s);
    let cs = pre + t + post;
    let o = pre.len() as int;
    let e = escape_chars(s);
    let ek = escape_chars(s.take(k));
    lemma_escape_concat(s.take(k), s.skip(k));
    assert(s.take(k) + s.skip(k) =~= s);
    let i: int = 1 + ek.len() as int;
    assert forall|x: int| 0 <= x < t.len() implies #[trigger] cs[o + x] == t[x] by {}
    if k == s.len() {
        assert(s.take(k) =~= s);
        assert(t[i] == '"');
        assert(cs[o + i] == '"');
    } else {
        let c = s[k];
        assert(s.skip(k) =~= seq![c] + s.skip(k + 1));
        lemma_escape_concat(seq![c], s.skip(k + 1));
        assert(seq![c].drop_last() =~= Seq::<char>::empty());
        assert(seq![c].last() == c);
        assert(escape_chars(Seq::<char>::empty()) == Seq::<char>::empty());
        assert(escape_chars(seq![c]) == escape_chars(Seq::<char>::empty()) + escape_char(c));
        assert(escape_chars(seq![c]) =~= escape_char(c));
        assert(s.take(k + 1) =~= s.take(k).push(c));
        assert(s.take(k + 1) =~= s.take(k) + seq![c]);
        lemma_escape_concat(s.take(k), seq![c]);
        let ek1 = escape_chars(s.take(k + 1));
        assert(ek1 =~= ek + escape_char(c));
        assert(e =~= ek + escape_char(c) + escape_chars(s.skip(k + 1)));
        assert(flattened(s.take(k + 1)) =~= flattened(s.take(k)).push(
            if (c as u32) < 0x20 {
                ' '
            } else {
                c
            },
        ));
        reveal_strlit("\\\"");
        reveal_strlit("\\\\");
        if c == '"' {
            assert(t[i] == '\\');
            assert(t[i + 1] == '"');
            assert(cs[o + i] == '\\' && cs[o + i + 1] == '"');
        } else if c == '\\' {
            assert(t[i] == '\\');
            assert(t[i + 1] == '\\');
            assert(cs[o + i] == '\\' && cs[o + i + 1] == '\\');
        } else if (c as u32) < 0x20 {
            assert(t[i] == ' ');
            assert(cs[o + i] == ' ');
        } else {
            assert(t[i] == c);
            assert(cs[o + i] == c);
        }
        lemma_escaped_reads_within(pre, s, post, k + 1);
    }
}

/// A string written by `escape_string` as the value of a compound field
/// reads back, through `parse_compound`, as a compound of that one field
/// holding the same string (control characters turned into spaces, so a
/// string without them reads back unchanged).
pub proof fn law_escaped_field_reads_back(s: Seq<char>)
    ensures
        parse_snbt("{k:"@ + escaped(s) + "}"@) == Some(
            ValueModel::Compound(seq![("k"@, ValueModel::Str(flattened(s)))]),
        ),
        (forall|i: int| 0 <= i < s.len() ==> (#[trigger] s[i] as u32) >= 0x20) ==> flattened(s) == s,
{
    if forall|i: int| 0 <= i < s.len() ==> (#[trigger] s[i] as u32) >= 0x20 {
        assert(flattened(s) =~= s);
    }
    reveal_strlit("{k:");
    reveal_strlit("}");
    reveal_strlit("k");
    let pre = "{k:"@;
    let post = "}"@;
    let t = escaped(s);
    let cs = pre + t + post;
    lemma_escaped_reads_within(pre, s, post, 0);
    assert(s.take(0) =~= Seq::<char>::empty());
    assert(flattened(Seq::<char>::empty()) =~= Seq::<char>::empty());
    assert(escape_chars(Seq::<char>::empty()) == Seq::<char>::empty());
    assert(cs[0] == '{' && cs[1] == 'k' && cs[2] == ':' && cs[3] == '"');
    let end = 3 + t.len() as int;
    assert(cs[end] == '}');
    assert(cs.len() == end + 1);
    assert(skip_ws(cs, 0) == 0);
    assert(skip_ws(cs, 1) == 1);
    assert(key_end(cs, 2) == 2);
    assert(key_end(cs, 1) == 2);
    assert(cs.subrange(1, 2) =~= "k"@);
    assert(parse_key(cs, 1) == Some(("k"@, 2int)));
    assert(skip_ws(cs, 2) == 2);
    assert(skip_ws(cs, 3) == 3);
    assert(parse_quoted(cs, 3) == (flattened(s), end));
    assert(parse_value(cs, 3) == Some((ValueModel::Str(flattened(s)), end)));
    assert(skip_ws(cs, end) == end);
    let es = insert_entry(Seq::empty(), "k"@, ValueModel::Str(flattened(s)));
    assert(es =~= seq![("k"@, ValueModel::Str(flattened(s)))]);
    assert(compound_entries(cs, end, es) == Some((ValueModel::Compound(es), end + 1)));
    assert(compound_entries(cs, 1, Seq::empty()) == Some((ValueModel::Compound(es), end + 1)));
}

/// An unquoted scalar reads as a boolean exactly when it is `true` or
/// `false`, and then as true for `true` and false for `false`.
pub proof fn law_scalar_booleans(t: Seq<char>, b: bool)
    ensures
        (classify_scalar(t) == ValueModel::Bool(b)) <==> (t == if b {
            "true"@
        } else {
            "false"@
        }),
{
    reveal_strlit("true");
    reveal_strlit("false");
    assert("true"@ != "false"@) by {
        assert("true"@.len() != "false"@.len());
    }
}

/// What `escape_string` writes stays on one line: it has no control
/// characters.
pub proof fn law_escaped_string_is_single_line(s: Seq<char>)
    ensures
        forall|i: int| 0 <= i < escaped(s).len() ==> (#[trigger] escaped(s)[i] as u32) >= 0x20,
{
    lemma_escape_chars_printable(s);
}

proof fn lemma_escape_chars_printable(s: Seq<char>)
    ensures
        forall|i: int| 0 <= i < escape_chars(s).len() ==> (#[trigger] escape_chars(s)[i] as u32) >= 0x20,
    decreases s.len(),
{
    if s.len() > 0 {
        lemma_escape_chars_printable(s.drop_last());
        reveal_strlit("\\\"");
        reveal_strlit("\\\\");
        let a = escape_chars(s.drop_last());
        let b = escape_char(s.last());
        assert forall|i: int| 0 <= i < (a + b).len() implies ((#[trigger] (a + b)[i]) as u32) >= 0x20 by {
            if i >= a.len() {
                assert((a + b)[i] == b[i - a.len()]);
            } else {
                assert((a + b)[i] == a[i]);
            }
        }
    }
}


// ---- whole part of a float's text ------------------------------------------------
/// The bound at which whole parts are cut off: one past `i64::MAX`.
pub open spec fn whole_cap() -> nat {
    9223372036854775808
}

/// The bound at which exponents are cut off.
pub open spec fn exponent_cap() -> nat {
    576460752303423488
}

pub open spec fn min_nat(a: nat, b: nat) -> nat {
    if a < b {
        a
    } else {
        b
    }
}

/// The digits of the whole part of the number whose digits are `d` and
/// whose point stands after `k` of them: the first `k` digits, padded with
/// zeros when the point stands past the last digit.
pub open spec fn whole_digits(d: Seq<char>, k: int) -> Seq<char> {
    if k <= 0 {
        Seq::empty()
    } else if k <= d.len() {
        d.take(k)
    } else {
        d + Seq::new((k - d.len()) as nat, |i: int| '0')
    }
}

/// The exponent of an unsigned float text whose mantissa ends at `i2`:
/// the signed number after `e` or `E` (0 without one), cut off at
/// [`exponent_cap`].
pub open spec fn exponent_of(b: Seq<char>, i2: int) -> int {
    if 0 <= i2 < b.len() && (b[i2] == 'e' || b[i2] == 'E') {
        let neg = i2 + 1 < b.len() && b[i2 + 1] == '-';
        let j = if i2 + 1 < b.len() && (b[i2 + 1] == '+' || b[i2 + 1] == '-') {
            i2 + 2
        } else {
            i2 + 1
        };
        let v = min_nat(digits_number(b.subrange(j, digit_run(b, j))), exponent_cap()) as int;
        if neg {
            -v
        } else {
            v
        }
    } else {
        0
    }
}

/// The whole part of the unsigned decimal float text `b`, cut off at
/// [`whole_cap`]: the digits before the point after the exponent moves it.
pub open spec fn unsigned_whole(b: Seq<char>) -> nat {
    let i1 = digit_run(b, 0);
    let has_dot = i1 < b.len() && b[i1] == '.';
    let i2 = if has_dot {
        digit_run(b, i1 + 1)
    } else {
        i1
    };
    let d = if has_dot {
        b.take(i1) + b.subrange(i1 + 1, i2)
    } else {
        b.take(i1)
    };
    min_nat(digits_number(whole_digits(d, i1 + exponent_of(b, i2))), whole_cap())
}

/// The whole number a float text stands for, truncated toward zero and
/// saturated at the bounds of `i64` (`nan` is 0, the infinities the
/// bounds), read from the decimal text itself.
pub open spec fn float_whole(t: Seq<char>) -> i64 {
    let neg = t.len() > 0 && t[0] == '-';
    let b = if t.len() > 0 && (t[0] == '+' || t[0] == '-') {
        t.drop_first()
    } else {
        t
    };
    let l = lower_chars(b);
    if l == "nan"@ {
        0
    } else if l == "inf"@ || l == "infinity"@ {
        if neg {
            i64::MIN
        } else {
            i64::MAX
        }
    } else {
        let v = unsigned_whole(b);
        if neg {
            (-(v as int)) as i64
        } else if v > i64::MAX {
            i64::MAX
        } else {
            v as i64
        }
    }
}

proof fn lemma_capped_step(p: Seq<char>, c: char, cap: nat)
    requires
        is_ascii_digit(c),
        cap > 0,
    ensures
        min_nat(digits_number(p.push(c)), cap) == min_nat(
            min_nat(digits_number(p), cap) * 10 + ((c as u32) - 48) as nat,
            cap,
        ),
{
    assert(p.push(c).drop_last() =~= p);
    let n = digits_number(p);
    if n >= cap {
        assert(n * 10 >= n) by (nonlinear_arith);
        assert(cap * 10 >= cap) by (nonlinear_arith);
    }
}

proof fn lemma_capped_zeros(p: Seq<char>, m: nat, cap: nat)
    requires
        min_nat(digits_number(p), cap) == 0 || min_nat(digits_number(p), cap) == cap,
        cap > 0,
    ensures
        min_nat(digits_number(p + Seq::new(m, |i: int| '0')), cap) == min_nat(digits_number(p), cap),
    decreases m,
{
    if m > 0 {
        let z = Seq::new(m, |i: int| '0');
        let z1 = Seq::new((m - 1) as nat, |i: int| '0');
        assert(p + z =~= (p + z1).push('0'));
        lemma_capped_zeros(p, (m - 1) as nat, cap);
        lemma_capped_step(p + z1, '0', cap);
    } else {
        assert(p + Seq::new(m, |i: int| '0') =~= p);
    }
}

/// The digits `b[j..e]`, all ASCII digits, read with values cut off at `cap`.
fn capped_digits(b: &[char], j: usize, e: usize, cap: u64) -> (r: u64)
    requires
        j <= e <= b@.len(),
        all_digits(b@.subrange(j as int, e as int)),
        0 < cap < u64::MAX / 16,
    ensures
        r == min_nat(digits_number(b@.subrange(j as int, e as int)), cap as nat),
{
    let mut acc: u64 = 0;
    let mut i = j;
    assert(b@.subrange(j as int, j as int) =~= Seq::<char>::empty());
    while i < e
        invariant
            j <= i <= e <= b@.len(),
            all_digits(b@.subrange(j as int, e as int)),
            0 < cap < u64::MAX / 16,
            acc <= cap,
            acc == min_nat(digits_number(b@.subrange(j as int, i as int)), cap as nat),
        decreases e - i,
    {
        let c = b[i];
        assert(b@.subrange(j as int, e as int)[i - j] == c);
        proof {
            assert(b@.subrange(j as int, i + 1) =~= b@.subrange(j as int, i as int).push(c));
            lemma_capped_step(b@.subrange(j as int, i as int), c, cap as nat);
        }
        let next = acc * 10 + ((c as u32) - 48) as u64;
        acc = if next < cap {
            next
        } else {
            cap
        };
        i = i + 1;
    }
    acc
}

proof fn lemma_digit_run_digits(b: Seq<char>, j: int)
    requires
        0 <= j <= b.len(),
    ensures
        j <= digit_run(b, j) <= b.len(),
        all_digits(b.subrange(j, digit_run(b, j))),
    decreases b.len() - j,
{
    if j < b.len() && is_ascii_digit(b[j]) {
        lemma_digit_run_digits(b, j + 1);
        assert forall|i: int| 0 <= i < digit_run(b, j) - j implies is_ascii_digit(
            #[trigger] b.subrange(j, digit_run(b, j))[i],
        ) by {
            if i > 0 {
                assert(b.subrange(j, digit_run(b, j))[i] == b.subrange(j + 1, digit_run(b, j))[i - 1]);
            }
        }
    }
}

/// The exponent of the unsigned float text `b` whose mantissa ends at `i2`
/// (see [`exponent_of`]).
fn exponent_at(b: &[char], i2: usize) -> (r: i128)
    requires
        i2 <= b@.len(),
    ensures
        r == exponent_of(b@, i2 as int),
        -(exponent_cap() as int) <= r <= exponent_cap(),
{
    let n = b.len();
    let mut e: i128 = 0;
    if i2 < n && (b[i2] == 'e' || b[i2] == 'E') {
        let neg = i2 + 1 < n && b[i2 + 1] == '-';
        let j = if i2 + 1 < n && (b[i2 + 1] == '+' || b[i2 + 1] == '-') {
            i2 + 2
        } else {
            i2 + 1
        };
        let end = digit_run_at(b, j);
        proof {
            lemma_digit_run_digits(b@, j as int);
        }
        let v = capped_digits(b, j, end, 576460752303423488u64);
        e = if neg {
            -(v as i128)
        } else {
            v as i128
        };
    }
    e
}

/// The whole part of the unsigned float text `b` (see [`unsigned_whole`]).
#[verifier::spinoff_prover]
#[verifier::rlimit(60)]
fn unsigned_whole_of(b: &[char]) -> (r: u64)
    ensures
        r == unsigned_whole(b@),
        r <= whole_cap(),
{
    let n = b.len();
    let i1 = digit_run_at(b, 0);
    let has_dot = i1 < n && b[i1] == '.';
    let i2 = if has_dot {
        digit_run_at(b, i1 + 1)
    } else {
        i1
    };
    proof {
        lemma_digit_run_digits(b@, 0);
        if has_dot {
            lemma_digit_run_digits(b@, i1 + 1);
        }
    }
    let mut d = copy_range(b, 0, i1);
    if has_dot {
        let frac = copy_range(b, i1 + 1, i2);
        let mut q: usize = 0;
        let ghost d0 = d@;
        while q < frac.len()
            invariant
                q <= frac@.len(),
                d@ == d0 + frac@.take(q as int),
            decreases frac@.len() - q,
        {
            d.push(frac[q]);
            q = q + 1;
            assert(d@ =~= d0 + frac@.take(q as int));
        }
        assert(frac@.take(q as int) =~= frac@);
    }
    assert(b@.subrange(0, i1 as int) =~= b@.take(i1 as int));
    let ghost dv = d@;
    assert(all_digits(dv)) by {
        assert forall|i: int| 0 <= i < dv.len() implies is_ascii_digit(#[trigger] dv[i]) by {
            if i < i1 {
                assert(b@.subrange(0, digit_run(b@, 0))[i] == dv[i]);
            } else {
                assert(b@.subrange(i1 + 1, digit_run(b@, i1 + 1))[i - i1] == dv[i]);
            }
        }
    }
    let e = exponent_at(b, i2);
    assert(e == exponent_of(b@, i2 as int));
    let k: i128 = i1 as i128 + e;
    let ghost w = whole_digits(dv, k as int);
    let dlen = d.len();
    let cap: u64 = 9223372036854775808u64;
    let mut acc: u64 = 0;
    let mut j: i128 = 0;
    assert(w.take(0) =~= Seq::<char>::empty());
    while j < k && !(j >= dlen as i128 && (acc == 0 || acc == cap))
        invariant
            0 <= j,
            j <= k || k < 0,
            k < 0 ==> j == 0,
            dlen == dv.len(),
            d@ == dv,
            all_digits(dv),
            w == whole_digits(dv, k as int),
            acc <= cap,
            cap == whole_cap(),
            w.len() == if k > 0 {
                k as int
            } else {
                0
            },
            acc == min_nat(digits_number(w.take(j as int)), cap as nat),
        decreases k - j,
    {
        let c = if j < dlen as i128 {
            d[j as usize]
        } else {
            '0'
        };
        proof {
            if j < dv.len() {
                assert(w[j as int] == dv[j as int]);
            } else {
                assert(w[j as int] == '0');
            }
            assert(w.take(j + 1) =~= w.take(j as int).push(c));
            lemma_capped_step(w.take(j as int), c, cap as nat);
        }
        let next: u128 = acc as u128 * 10 + ((c as u32) - 48) as u128;
        acc = if next < cap as u128 {
            next as u64
        } else {
            cap
        };
        j = j + 1;
    }
    proof {
        if k <= 0 {
            assert(w =~= Seq::<char>::empty());
            assert(w.take(j as int) =~= w);
        } else if j >= k {
            assert(w.take(j as int) =~= w);
        } else {
            let p = w.take(j as int);
            assert(p =~= dv + Seq::new((j - dv.len()) as nat, |i: int| '0'));
            assert(w =~= dv + Seq::new((k - dv.len()) as nat, |i: int| '0'));
            assert(w =~= p + Seq::new((k - j) as nat, |i: int| '0'));
            lemma_capped_zeros(p, (k - j) as nat, cap as nat);
        }
    }
    acc
}

/// The whole number a float text stands for (see [`float_whole`]).
fn float_whole_of(t: &[char]) -> (r: i64)
    ensures
        r == float_whole(t@),
{
    let neg = t.len() > 0 && t[0] == '-';
    let start: usize = if t.len() > 0 && (t[0] == '+' || t[0] == '-') {
        1
    } else {
        0
    };
    let b = copy_range(t, start, t.len());
    assert(b@ =~= (if t@.len() > 0 && (t@[0] == '+' || t@[0] == '-') {
        t@.drop_first()
    } else {
        t@
    }));
    if lower_is(b.as_slice(), "nan") {
        return 0;
    }
    if lower_is(b.as_slice(), "inf") || lower_is(b.as_slice(), "infinity") {
        return if neg {
            i64::MIN
        } else {
            i64::MAX
        };
    }
    let v = unsigned_whole_of(b.as_slice());
    if neg {
        if v == 9223372036854775808u64 {
            i64::MIN
        } else {
            -(v as i64)
        }
    } else if v > 9223372036854775807u64 {
        i64::MAX
    } else {
        v as i64
    }
}

} // verus!
