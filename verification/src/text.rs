//! Character-level helpers shared by the lexers, parsers and renderers.
//!
//! Text is modelled as `Seq<char>` (the view of `str` and `String`). Byte
//! offsets, which the compiler reports to editors, are modelled by the UTF-8
//! width of each character.
use vstd::prelude::*;

verus! {

broadcast use vstd::string::group_string_axioms;

/// Collects the characters of `s` in order.
pub fn chars_of(s: &str) -> (r: Vec<char>)
    ensures
        r@ == s@,
{
    let mut r: Vec<char> = Vec::new();
    for c in iter: s.chars()
        invariant
            iter.seq() == s@,
            r@ == s@.take(iter.index()),
    {
        assert(s@.take(iter.index() + 1) == s@.take(iter.index()).push(c));
        r.push(c);
    }
    assert(s@.take(s@.len() as int) == s@);
    r
}

/// Appends one character to a `String` (std's `String::push`).
#[verifier::external_body]
pub fn push_char(s: &mut String, c: char)
    ensures
        final(s)@ == old(s)@.push(c),
{
    s.push(c);
}

/// Appends the characters of `t` to `s`.
pub fn push_str(s: &mut String, t: &str)
    ensures
        final(s)@ == old(s)@ + t@,
{
    s.append(t);
}

/// A fresh `String` holding the characters of `t`.
pub fn string_of(t: &str) -> (r: String)
    ensures
        r@ == t@,
{
    String::from_str(t)
}

/// Appends a slice of characters to `s`.
pub fn push_chars(s: &mut String, cs: &[char], start: usize, end: usize)
    requires
        start <= end <= cs@.len(),
    ensures
        final(s)@ == old(s)@ + cs@.subrange(start as int, end as int),
{
    let ghost base = s@;
    let mut i: usize = start;
    while i < end
        invariant
            start <= i <= end <= cs@.len(),
            s@ == base + cs@.subrange(start as int, i as int),
        decreases end - i,
    {
        assert(cs@.subrange(start as int, i + 1) == cs@.subrange(start as int, i as int).push(
            cs@[i as int],
        ));
        push_char(s, cs[i]);
        i = i + 1;
    }
}

/// A `String` holding `cs[start..end]`.
pub fn string_from_chars(cs: &[char], start: usize, end: usize) -> (r: String)
    requires
        start <= end <= cs@.len(),
    ensures
        r@ == cs@.subrange(start as int, end as int),
{
    let mut r = String::new();
    push_chars(&mut r, cs, start, end);
    r
}

/// Character-sequence equality on a range of `cs` against `lit`.
pub fn range_eq(cs: &[char], start: usize, end: usize, lit: &[char]) -> (r: bool)
    requires
        start <= end <= cs@.len(),
    ensures
        r == (cs@.subrange(start as int, end as int) == lit@),
{
    if end - start != lit.len() {
        return false;
    }
    let mut i: usize = 0;
    while i < lit.len()
        invariant
            start <= end <= cs@.len(),
            end - start == lit@.len(),
            0 <= i <= lit@.len(),
            forall|j: int| 0 <= j < i ==> cs@[start + j] == lit@[j],
        decreases lit.len() - i,
    {
        if cs[start + i] != lit[i] {
            assert(cs@.subrange(start as int, end as int)[i as int] != lit@[i as int]);
            return false;
        }
        i = i + 1;
    }
    assert(cs@.subrange(start as int, end as int) =~= lit@);
    true
}

/// Whether `cs[start..end]` spells the string `lit`.
pub fn range_is(cs: &[char], start: usize, end: usize, lit: &str) -> (r: bool)
    requires
        start <= end <= cs@.len(),
    ensures
        r == (cs@.subrange(start as int, end as int) == lit@),
{
    let l = chars_of(lit);
    range_eq(cs, start, end, l.as_slice())
}

/// Whether two strings hold the same characters.
pub fn str_eq(a: &str, b: &str) -> (r: bool)
    ensures
        r == (a@ == b@),
{
    let x = chars_of(a);
    let y = chars_of(b);
    let r = range_eq(x.as_slice(), 0, x.len(), y.as_slice());
    assert(x@.subrange(0, x@.len() as int) == x@);
    r
}

/// Whether `cs[at..]` starts with `lit`.
pub fn starts_with_at(cs: &[char], at: usize, lit: &str) -> (r: bool)
    requires
        at <= cs@.len(),
    ensures
        r == (at + lit@.len() <= cs@.len() && cs@.subrange(at as int, at + lit@.len()) == lit@),
{
    let l = chars_of(lit);
    if l.len() > cs.len() - at {
        return false;
    }
    range_eq(cs, at, at + l.len(), l.as_slice())
}

pub open spec fn is_ascii_digit(c: char) -> bool {
    '0' <= c <= '9'
}

pub open spec fn is_ascii_alpha(c: char) -> bool {
    ('a' <= c <= 'z') || ('A' <= c <= 'Z')
}

pub open spec fn is_ascii_alnum(c: char) -> bool {
    is_ascii_digit(c) || is_ascii_alpha(c)
}

/// std's `char::is_whitespace`: the Unicode `White_Space` property.
pub open spec fn is_unicode_whitespace(c: char) -> bool {
    let v: u32 = c as u32;
    (0x09 <= v <= 0x0D) || v == 0x20 || v == 0x85 || v == 0xA0 || v == 0x1680 || (0x2000 <= v
        <= 0x200A) || v == 0x2028 || v == 0x2029 || v == 0x202F || v == 0x205F || v == 0x3000
}

pub open spec fn to_ascii_lower(c: char) -> char {
    if 'A' <= c <= 'Z' {
        ((c as u32) + 32) as char
    } else {
        c
    }
}

pub fn digit(c: char) -> (r: bool)
    ensures
        r == is_ascii_digit(c),
{
    '0' <= c && c <= '9'
}

pub fn alpha(c: char) -> (r: bool)
    ensures
        r == is_ascii_alpha(c),
{
    ('a' <= c && c <= 'z') || ('A' <= c && c <= 'Z')
}

pub fn alnum(c: char) -> (r: bool)
    ensures
        r == is_ascii_alnum(c),
{
    digit(c) || alpha(c)
}

pub fn whitespace(c: char) -> (r: bool)
    ensures
        r == is_unicode_whitespace(c),
{
    let v: u32 = c as u32;
    (0x09 <= v && v <= 0x0D) || v == 0x20 || v == 0x85 || v == 0xA0 || v == 0x1680 || (0x2000
        <= v && v <= 0x200A) || v == 0x2028 || v == 0x2029 || v == 0x202F || v == 0x205F || v
        == 0x3000
}

pub fn lower(c: char) -> (r: char)
    ensures
        r == to_ascii_lower(c),
{
    if 'A' <= c && c <= 'Z' {
        let v: u32 = (c as u32) + 32;
        assert(0x61 <= v <= 0x7a);
        char_from_ascii(v as u8)
    } else {
        c
    }
}

/// The character with the given ASCII code.
pub fn char_from_ascii(b: u8) -> (r: char)
    requires
        b < 128,
    ensures
        r == (b as u32) as char,
        r as u32 == b as u32,
{
    b as char
}

/// UTF-8 width of a character in bytes.
pub open spec fn char_width(c: char) -> nat {
    if (c as u32) <= 0x7F {
        1
    } else if (c as u32) <= 0x7FF {
        2
    } else if (c as u32) <= 0xFFFF {
        3
    } else {
        4
    }
}

/// UTF-8 length in bytes of a character sequence.
pub open spec fn byte_len(s: Seq<char>) -> nat
    decreases s.len(),
{
    if s.len() == 0 {
        0
    } else {
        byte_len(s.drop_last()) + char_width(s.last())
    }
}

/// Byte offset of character index `k` in `s`.
pub open spec fn byte_offset(s: Seq<char>, k: int) -> nat {
    byte_len(s.take(k))
}

pub fn width_of(c: char) -> (r: usize)
    ensures
        r == char_width(c),
{
    let v: u32 = c as u32;
    if v <= 0x7F {
        1
    } else if v <= 0x7FF {
        2
    } else if v <= 0xFFFF {
        3
    } else {
        4
    }
}

pub proof fn lemma_byte_len_append(a: Seq<char>, b: Seq<char>)
    ensures
        byte_len(a + b) == byte_len(a) + byte_len(b),
    decreases b.len(),
{
    if b.len() == 0 {
        assert(a + b =~= a);
    } else {
        assert((a + b).drop_last() =~= a + b.drop_last());
        lemma_byte_len_append(a, b.drop_last());
    }
}

/// Offsets grow by one character's width per character.
pub proof fn lemma_byte_offset_step(s: Seq<char>, k: int)
    requires
        0 <= k < s.len(),
    ensures
        byte_offset(s, k + 1) == byte_offset(s, k) + char_width(s[k]),
{
    assert(s.take(k + 1).drop_last() =~= s.take(k));
}

pub proof fn lemma_byte_offset_mono(s: Seq<char>, i: int, j: int)
    requires
        0 <= i <= j <= s.len(),
    ensures
        byte_offset(s, i) <= byte_offset(s, j),
        i < j ==> byte_offset(s, i) < byte_offset(s, j),
    decreases j - i,
{
    if i < j {
        lemma_byte_offset_step(s, j - 1);
        lemma_byte_offset_mono(s, i, j - 1);
    }
}

/// The byte length agrees with the UTF-8 encoding that `str::len` measures.
pub proof fn lemma_byte_len_encode(s: Seq<char>)
    ensures
        byte_len(s) == vstd::utf8::encode_utf8(s).len(),
    decreases s.len(),
{
    if s.len() > 0 {
        lemma_byte_len_encode(s.drop_first());
        lemma_byte_len_append(seq![s[0]], s.drop_first());
        assert(seq![s[0]] + s.drop_first() =~= s);
        assert(seq![s[0]].drop_last() =~= Seq::<char>::empty());
        assert(byte_len(Seq::<char>::empty()) == 0);
        assert(seq![s[0]].last() == s[0]);
        assert(byte_len(seq![s[0]]) == char_width(s[0]));
        vstd::utf8::char_is_scalar(s[0]);
        assert(vstd::utf8::encode_utf8(s) == vstd::utf8::encode_scalar(s[0] as u32)
            + vstd::utf8::encode_utf8(s.drop_first()));
        assert(vstd::utf8::encode_scalar(s[0] as u32).len() == char_width(s[0]));
    }
}

/// Decimal rendering of a natural number.
pub open spec fn decimal(n: nat) -> Seq<char>
    decreases n,
{
    if n < 10 {
        seq![digit_char(n)]
    } else {
        decimal(n / 10).push(digit_char(n % 10))
    }
}

pub open spec fn digit_char(d: nat) -> char {
    ((d + 48) as u32) as char
}

/// Decimal rendering of a signed integer.
pub open spec fn signed_decimal(v: int) -> Seq<char> {
    if v < 0 {
        seq!['-'] + decimal((-v) as nat)
    } else {
        decimal(v as nat)
    }
}

/// Appends the decimal digits of `n` (std's `Display` for unsigned integers).
pub fn push_u64(s: &mut String, n: u64)
    ensures
        final(s)@ == old(s)@ + decimal(n as nat),
    decreases n,
{
    if n < 10 {
        push_char(s, char_from_ascii((n + 48) as u8));
    } else {
        push_u64(s, n / 10);
        push_char(s, char_from_ascii((n % 10 + 48) as u8));
        assert(old(s)@ + decimal(n as nat) =~= old(s)@ + decimal((n / 10) as nat) + seq![
            digit_char((n % 10) as nat),
        ]);
    }
}

/// Appends the decimal rendering of `v` (std's `Display` for signed integers).
pub fn push_i64(s: &mut String, v: i64)
    ensures
        final(s)@ == old(s)@ + signed_decimal(v as int),
{
    if v < 0 {
        push_char(s, '-');
        let m: u64 = if v == i64::MIN {
            9223372036854775808u64
        } else {
            (-v) as u64
        };
        push_u64(s, m);
        assert(old(s)@ + signed_decimal(v as int) =~= old(s)@.push('-') + decimal(m as nat));
    } else {
        push_u64(s, v as u64);
    }
}

/// A `String` holding the decimal digits of `n`.
pub fn usize_string(n: usize) -> (r: String)
    ensures
        r@ == decimal(n as nat),
{
    let mut r = String::new();
    push_u64(&mut r, n as u64);
    r
}

} // verus!

verus! {

/// `s` without leading whitespace (std's `str::trim_start`).
pub open spec fn trim_start(s: Seq<char>) -> Seq<char>
    decreases s.len(),
{
    if s.len() > 0 && is_unicode_whitespace(s[0]) {
        trim_start(s.drop_first())
    } else {
        s
    }
}

/// `s` without trailing whitespace (std's `str::trim_end`).
pub open spec fn trim_end(s: Seq<char>) -> Seq<char>
    decreases s.len(),
{
    if s.len() > 0 && is_unicode_whitespace(s.last()) {
        trim_end(s.drop_last())
    } else {
        s
    }
}

/// `s` without surrounding whitespace (std's `str::trim`).
pub open spec fn trim(s: Seq<char>) -> Seq<char> {
    trim_end(trim_start(s))
}

/// The rest of `s` after the prefix `p`, if `s` starts with it.
pub open spec fn strip_prefix(s: Seq<char>, p: Seq<char>) -> Option<Seq<char>> {
    if p.len() <= s.len() && s.take(p.len() as int) == p {
        Some(s.skip(p.len() as int))
    } else {
        None
    }
}

/// `s` without the suffix `p`, if `s` ends with it.
pub open spec fn strip_suffix(s: Seq<char>, p: Seq<char>) -> Option<Seq<char>> {
    if p.len() <= s.len() && s.skip(s.len() - p.len()) == p {
        Some(s.take(s.len() - p.len()))
    } else {
        None
    }
}

/// Index of the first `c` in `s`.
pub open spec fn find_char(s: Seq<char>, c: char) -> Option<int>
    decreases s.len(),
{
    if s.len() == 0 {
        None
    } else if s[0] == c {
        Some(0)
    } else {
        match find_char(s.drop_first(), c) {
            Some(i) => Some(i + 1),
            None => None,
        }
    }
}

/// The parts of `s` before and after the first `c` (std's `str::split_once`).
pub open spec fn split_once(s: Seq<char>, c: char) -> Option<(Seq<char>, Seq<char>)> {
    match find_char(s, c) {
        Some(i) => Some((s.take(i), s.skip(i + 1))),
        None => None,
    }
}

/// Every non-overlapping occurrence of `from` replaced by `to`, left to right
/// (std's `str::replace` for a non-empty pattern).
pub open spec fn replace_all(s: Seq<char>, from: Seq<char>, to: Seq<char>) -> Seq<char>
    decreases s.len(),
{
    if from.len() == 0 || s.len() == 0 {
        s
    } else if from.len() <= s.len() && s.take(from.len() as int) == from {
        to + replace_all(s.skip(from.len() as int), from, to)
    } else {
        seq![s[0]] + replace_all(s.drop_first(), from, to)
    }
}

/// Whether `s` spells an MCFC identifier.
pub open spec fn is_identifier(s: Seq<char>) -> bool {
    &&& s.len() > 0
    &&& (s[0] == '_' || is_ascii_alpha(s[0]))
    &&& forall|i: int| 1 <= i < s.len() ==> (#[trigger] s[i] == '_' || is_ascii_alnum(s[i]))
}

/// Value of a run of decimal digits.
pub open spec fn digits_number(ds: Seq<char>) -> nat
    decreases ds.len(),
{
    if ds.len() == 0 {
        0
    } else {
        digits_number(ds.drop_last()) * 10 + ((ds.last() as u32) - 48) as nat
    }
}

pub open spec fn all_digits(s: Seq<char>) -> bool {
    forall|i: int| 0 <= i < s.len() ==> is_ascii_digit(#[trigger] s[i])
}

/// std's `str::parse::<u32>`: an optional `+` then at least one digit, within range.
pub open spec fn parse_u32(s: Seq<char>) -> Option<u32> {
    let ds = if s.len() > 0 && s[0] == '+' {
        s.drop_first()
    } else {
        s
    };
    if ds.len() > 0 && all_digits(ds) && digits_number(ds) <= u32::MAX {
        Some(digits_number(ds) as u32)
    } else {
        None
    }
}

/// Exec view: a vector's characters as a `Seq`.
pub fn trim_start_range(cs: &[char], start: usize, end: usize) -> (r: usize)
    requires
        start <= end <= cs@.len(),
    ensures
        start <= r <= end,
        cs@.subrange(r as int, end as int) == trim_start(cs@.subrange(start as int, end as int)),
{
    let mut i: usize = start;
    while i < end && whitespace(cs[i])
        invariant
            start <= i <= end <= cs@.len(),
            trim_start(cs@.subrange(i as int, end as int)) == trim_start(
                cs@.subrange(start as int, end as int),
            ),
        decreases end - i,
    {
        assert(cs@.subrange(i as int, end as int).drop_first() =~= cs@.subrange(
            i + 1,
            end as int,
        ));
        i = i + 1;
    }
    i
}

pub fn trim_end_range(cs: &[char], start: usize, end: usize) -> (r: usize)
    requires
        start <= end <= cs@.len(),
    ensures
        start <= r <= end,
        cs@.subrange(start as int, r as int) == trim_end(cs@.subrange(start as int, end as int)),
{
    let mut j: usize = end;
    while j > start && whitespace(cs[j - 1])
        invariant
            start <= j <= end <= cs@.len(),
            trim_end(cs@.subrange(start as int, j as int)) == trim_end(
                cs@.subrange(start as int, end as int),
            ),
        decreases j,
    {
        assert(cs@.subrange(start as int, j as int).drop_last() =~= cs@.subrange(
            start as int,
            j - 1,
        ));
        j = j - 1;
    }
    j
}

/// Bounds of `trim(cs[start..end])` within `cs`.
pub fn trim_range(cs: &[char], start: usize, end: usize) -> (r: (usize, usize))
    requires
        start <= end <= cs@.len(),
    ensures
        start <= r.0 <= r.1 <= end,
        cs@.subrange(r.0 as int, r.1 as int) == trim(cs@.subrange(start as int, end as int)),
{
    let a = trim_start_range(cs, start, end);
    let b = trim_end_range(cs, a, end);
    (a, b)
}

/// Index of the first `c` in `cs[start..end]`.
pub fn find_char_in(cs: &[char], start: usize, end: usize, c: char) -> (r: Option<usize>)
    requires
        start <= end <= cs@.len(),
    ensures
        match r {
            Some(i) => start <= i < end && find_char(cs@.subrange(start as int, end as int), c)
                == Some(i - start),
            None => find_char(cs@.subrange(start as int, end as int), c) is None,
        },
{
    let mut i: usize = end;
    let mut found: Option<usize> = None;
    // scan from the back so the invariant can speak of suffixes
    while i > start
        invariant
            start <= i <= end <= cs@.len(),
            match found {
                Some(k) => i <= k < end && find_char(cs@.subrange(i as int, end as int), c) == Some(
                    k - i,
                ),
                None => find_char(cs@.subrange(i as int, end as int), c) is None,
            },
        decreases i,
    {
        let k = i - 1;
        assert(cs@.subrange(k as int, end as int).drop_first() =~= cs@.subrange(
            i as int,
            end as int,
        ));
        if cs[k] == c {
            found = Some(k);
        }
        i = k;
    }
    found
}

/// Whether `cs[start..end]` spells an identifier.
pub fn identifier_range(cs: &[char], start: usize, end: usize) -> (r: bool)
    requires
        start <= end <= cs@.len(),
    ensures
        r == is_identifier(cs@.subrange(start as int, end as int)),
{
    if start == end {
        return false;
    }
    let first = cs[start];
    if !(first == '_' || alpha(first)) {
        return false;
    }
    let mut i: usize = start + 1;
    while i < end
        invariant
            start < i <= end <= cs@.len(),
            forall|k: int| start + 1 <= k < i ==> (#[trigger] cs@[k] == '_' || is_ascii_alnum(cs@[k])),
        decreases end - i,
    {
        let c = cs[i];
        if !(c == '_' || alnum(c)) {
            assert(cs@.subrange(start as int, end as int)[i - start] == c);
            return false;
        }
        i = i + 1;
    }
    assert forall|k: int| 1 <= k < cs@.subrange(start as int, end as int).len() implies (
    #[trigger] cs@.subrange(start as int, end as int)[k] == '_' || is_ascii_alnum(
        cs@.subrange(start as int, end as int)[k],
    )) by {
        assert(cs@.subrange(start as int, end as int)[k] == cs@[start + k]);
    }
    true
}

/// std's `str::parse::<u32>` on `cs[start..end]`.
pub fn parse_u32_range(cs: &[char], start: usize, end: usize) -> (r: Option<u32>)
    requires
        start <= end <= cs@.len(),
    ensures
        r == parse_u32(cs@.subrange(start as int, end as int)),
{
    let ghost s = cs@.subrange(start as int, end as int);
    let mut i: usize = start;
    if i < end && cs[i] == '+' {
        i = i + 1;
    }
    let ghost ds = cs@.subrange(i as int, end as int);
    assert(ds =~= (if s.len() > 0 && s[0] == '+' {
        s.drop_first()
    } else {
        s
    }));
    if i == end {
        return None;
    }
    let digits_start = i;
    let mut value: u64 = 0;
    while i < end
        invariant
            start <= digits_start <= i <= end <= cs@.len(),
            ds == cs@.subrange(digits_start as int, end as int),
            s == cs@.subrange(start as int, end as int),
            ds == (if s.len() > 0 && s[0] == '+' {
                s.drop_first()
            } else {
                s
            }),
            all_digits(cs@.subrange(digits_start as int, i as int)),
            value == digits_number(cs@.subrange(digits_start as int, i as int)),
            value <= u32::MAX,
        decreases end - i,
    {
        let c = cs[i];
        if !digit(c) {
            assert(ds[i - digits_start] == c);
            assert(!all_digits(ds));
            return None;
        }
        assert(cs@.subrange(digits_start as int, i + 1).drop_last() =~= cs@.subrange(
            digits_start as int,
            i as int,
        ));
        value = value * 10 + (c as u32 - 48) as u64;
        if value > 4294967295u64 {
            proof {
                lemma_digits_number_prefix(ds, i + 1 - digits_start);
                assert(ds.take(i + 1 - digits_start) =~= cs@.subrange(digits_start as int, i + 1));
            }
            return None;
        }
        i = i + 1;
    }
    assert(cs@.subrange(digits_start as int, i as int) =~= ds);
    Some(value as u32)
}

/// Digit values only grow as digits are appended.
pub proof fn lemma_digits_number_prefix(ds: Seq<char>, k: int)
    requires
        0 <= k <= ds.len(),
    ensures
        digits_number(ds.take(k)) <= digits_number(ds),
    decreases ds.len() - k,
{
    if k < ds.len() {
        lemma_digits_number_prefix(ds, k + 1);
        assert(ds.take(k + 1).drop_last() =~= ds.take(k));
    } else {
        assert(ds.take(k) =~= ds);
    }
}

/// `cs[start..end]` with every `from` replaced by `to`, appended to `out`.
pub fn push_replaced(out: &mut Vec<char>, cs: &[char], start: usize, end: usize, from: &[char], to: &[char])
    requires
        start <= end <= cs@.len(),
        from@.len() > 0,
    ensures
        final(out)@ == old(out)@ + replace_all(cs@.subrange(start as int, end as int), from@, to@),
{
    let mut i: usize = start;
    let ghost base = out@;
    while i < end
        invariant
            start <= i <= end <= cs@.len(),
            from@.len() > 0,
            base + replace_all(cs@.subrange(start as int, end as int), from@, to@) == out@
                + replace_all(cs@.subrange(i as int, end as int), from@, to@),
        decreases end - i,
    {
        let ghost rest = cs@.subrange(i as int, end as int);
        if from.len() <= end - i && range_eq(cs, i, i + from.len(), from) {
            assert(rest.take(from@.len() as int) =~= cs@.subrange(i as int, i + from@.len()));
            assert(rest.skip(from@.len() as int) =~= cs@.subrange(i + from@.len(), end as int));
            let mut k: usize = 0;
            let ghost before = out@;
            while k < to.len()
                invariant
                    0 <= k <= to@.len(),
                    out@ == before + to@.take(k as int),
                decreases to@.len() - k,
            {
                assert(to@.take(k + 1) =~= to@.take(k as int).push(to@[k as int]));
                out.push(to[k]);
                k = k + 1;
            }
            assert(to@.take(k as int) =~= to@);
            i = i + from.len();
        } else {
            assert(!(from@.len() <= rest.len() && rest.take(from@.len() as int) == from@)) by {
                if from@.len() <= rest.len() {
                    assert(rest.take(from@.len() as int) =~= cs@.subrange(i as int, i + from@.len()));
                }
            }
            assert(rest.drop_first() =~= cs@.subrange(i + 1, end as int));
            out.push(cs[i]);
            i = i + 1;
        }
    }
}

/// Appends `t` to a character vector.
pub fn extend_str(out: &mut Vec<char>, t: &str)
    ensures
        final(out)@ == old(out)@ + t@,
{
    let cs = chars_of(t);
    extend_chars(out, &cs, 0, cs.len());
    assert(cs@.subrange(0, cs@.len() as int) =~= cs@);
}

/// Appends `cs[start..end]` to a character vector.
pub fn extend_chars(out: &mut Vec<char>, cs: &[char], start: usize, end: usize)
    requires
        start <= end <= cs@.len(),
    ensures
        final(out)@ == old(out)@ + cs@.subrange(start as int, end as int),
{
    let ghost base = out@;
    let mut i: usize = start;
    while i < end
        invariant
            start <= i <= end <= cs@.len(),
            out@ == base + cs@.subrange(start as int, i as int),
        decreases end - i,
    {
        assert(cs@.subrange(start as int, i + 1) =~= cs@.subrange(start as int, i as int).push(
            cs@[i as int],
        ));
        out.push(cs[i]);
        i = i + 1;
    }
}

/// A `String` holding the characters of `cs`.
pub fn string_from_vec(cs: &Vec<char>) -> (r: String)
    ensures
        r@ == cs@,
{
    let r = string_from_chars(cs.as_slice(), 0, cs.len());
    assert(cs@.subrange(0, cs@.len() as int) =~= cs@);
    r
}

} // verus!

verus! {

/// The rest of `s` after the prefix `lit` (std's `str::strip_prefix`).
pub fn strip_prefix_str<'a>(s: &'a str, lit: &str) -> (r: Option<&'a str>)
    ensures
        match strip_prefix(s@, lit@) {
            Some(rest) => r matches Some(x) && x@ == rest,
            None => r is None,
        },
{
    let cs = chars_of(s);
    let n = cs.len();
    assert(cs@.subrange(0, n as int) =~= s@);
    match strip_prefix_range(cs.as_slice(), 0, n, lit) {
        Some(k) => Some(s.substring_char(k, n)),
        None => None,
    }
}

/// `s` without leading whitespace (std's `str::trim_start`).
pub fn trim_start_str<'a>(s: &'a str) -> (r: &'a str)
    ensures
        r@ == trim_start(s@),
{
    let cs = chars_of(s);
    let n = cs.len();
    assert(cs@.subrange(0, n as int) =~= s@);
    let k = trim_start_range(cs.as_slice(), 0, n);
    s.substring_char(k, n)
}

/// Start of the rest of `cs[start..end]` after the prefix `lit`.
pub fn strip_prefix_range(cs: &[char], start: usize, end: usize, lit: &str) -> (r: Option<usize>)
    requires
        start <= end <= cs@.len(),
    ensures
        match r {
            Some(k) => start <= k <= end && strip_prefix(
                cs@.subrange(start as int, end as int),
                lit@,
            ) == Some(cs@.subrange(k as int, end as int)),
            None => strip_prefix(cs@.subrange(start as int, end as int), lit@) is None,
        },
{
    let l = chars_of(lit);
    let ghost s = cs@.subrange(start as int, end as int);
    if l.len() > end - start {
        return None;
    }
    let k = start + l.len();
    let ok = range_eq(cs, start, k, l.as_slice());
    assert(s.take(l@.len() as int) =~= cs@.subrange(start as int, k as int));
    assert(s.skip(l@.len() as int) =~= cs@.subrange(k as int, end as int));
    if ok {
        Some(k)
    } else {
        None
    }
}

/// End of `cs[start..end]` without the suffix `lit`.
pub fn strip_suffix_range(cs: &[char], start: usize, end: usize, lit: &str) -> (r: Option<usize>)
    requires
        start <= end <= cs@.len(),
    ensures
        match r {
            Some(k) => start <= k <= end && strip_suffix(
                cs@.subrange(start as int, end as int),
                lit@,
            ) == Some(cs@.subrange(start as int, k as int)),
            None => strip_suffix(cs@.subrange(start as int, end as int), lit@) is None,
        },
{
    let l = chars_of(lit);
    let ghost s = cs@.subrange(start as int, end as int);
    if l.len() > end - start {
        return None;
    }
    let k = end - l.len();
    let ok = range_eq(cs, k, end, l.as_slice());
    assert(s.skip(s.len() - l@.len()) =~= cs@.subrange(k as int, end as int));
    assert(s.take(s.len() - l@.len()) =~= cs@.subrange(start as int, k as int));
    if ok {
        Some(k)
    } else {
        None
    }
}

/// Position of the first `c` splitting `cs[start..end]` (std's `str::split_once`).
pub fn split_once_range(cs: &[char], start: usize, end: usize, c: char) -> (r: Option<usize>)
    requires
        start <= end <= cs@.len(),
    ensures
        match r {
            Some(k) => start <= k < end && split_once(cs@.subrange(start as int, end as int), c)
                == Some((cs@.subrange(start as int, k as int), cs@.subrange(k + 1, end as int))),
            None => split_once(cs@.subrange(start as int, end as int), c) is None,
        },
{
    let r = find_char_in(cs, start, end, c);
    match r {
        Some(k) => {
            assert(cs@.subrange(start as int, end as int).take(k - start) =~= cs@.subrange(
                start as int,
                k as int,
            ));
            assert(cs@.subrange(start as int, end as int).skip(k - start + 1) =~= cs@.subrange(
                k + 1,
                end as int,
            ));
            Some(k)
        },
        None => None,
    }
}

/// Whether `p` occurs in `s`.
pub open spec fn contains_seq(s: Seq<char>, p: Seq<char>) -> bool {
    exists|i: int| 0 <= i && i + p.len() <= s.len() && #[trigger] s.subrange(i, i + p.len()) == p
}

/// Whether `lit` occurs in `cs`.
pub fn contains_str(cs: &[char], lit: &str) -> (r: bool)
    ensures
        r == contains_seq(cs@, lit@),
{
    let l = chars_of(lit);
    if l.len() > cs.len() {
        assert forall|i: int| 0 <= i && i + l@.len() <= cs@.len() implies #[trigger] cs@.subrange(
            i,
            i + l@.len(),
        ) != l@ by {}
        return false;
    }
    let mut i: usize = 0;
    while l.len() <= cs.len() - i
        invariant
            l@ == lit@,
            i <= cs@.len(),
            forall|j: int| 0 <= j < i ==> #[trigger] cs@.subrange(j, j + l@.len()) != l@,
        decreases cs@.len() - i,
    {
        if range_eq(cs, i, i + l.len(), l.as_slice()) {
            return true;
        }
        assert(l@.len() > 0) by {
            if l@.len() == 0 {
                assert(cs@.subrange(i as int, i as int) =~= l@);
            }
        }
        i = i + 1;
    }
    false
}

/// The characters of each string.
pub open spec fn views(xs: Seq<String>) -> Seq<Seq<char>> {
    xs.map_values(|s: String| s@)
}

/// Joins `xs` with `sep` (std's `join` on string slices).
pub fn join_strings(xs: &Vec<String>, sep: &str) -> (r: String)
    ensures
        r@ == join(views(xs@), sep@),
{
    let mut out = String::new();
    let mut i: usize = 0;
    while i < xs.len()
        invariant
            i <= xs@.len(),
            out@ == join(views(xs@.take(i as int)), sep@),
        decreases xs@.len() - i,
    {
        if i > 0 {
            push_str(&mut out, sep);
        }
        push_str(&mut out, xs[i].as_str());
        proof {
            let v = views(xs@.take(i + 1));
            assert(v.drop_last() =~= views(xs@.take(i as int)));
            assert(v.last() == xs@[i as int]@);
            if i == 0 {
                assert(v.len() == 1);
            }
        }
        i = i + 1;
    }
    assert(xs@.take(i as int) =~= xs@);
    out
}

/// Lines joined by `sep`.
pub open spec fn join(xs: Seq<Seq<char>>, sep: Seq<char>) -> Seq<char>
    decreases xs.len(),
{
    if xs.len() == 0 {
        Seq::empty()
    } else if xs.len() == 1 {
        xs[0]
    } else {
        join(xs.drop_last(), sep) + sep + xs.last()
    }
}

} // verus!
