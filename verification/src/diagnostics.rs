//! Source positions and compiler diagnostics.
use vstd::prelude::*;

use crate::text::{
    byte_len, byte_offset, chars_of, decimal, lemma_byte_offset_mono, lemma_byte_offset_step,
    push_char, push_str, push_u64, string_of, usize_string, width_of,
};

verus! {

broadcast use vstd::string::group_string_axioms;

/// A half-open byte range in a source file.
#[derive(Debug, Clone, Copy, PartialEq, Eq, Structural)]
pub struct TextRange {
    pub start: usize,
    pub end: usize,
}

impl TextRange {
    pub fn new(start: usize, end: usize) -> (r: Self)
        ensures
            r.start == start,
            r.end == end,
    {
        Self { start, end }
    }
}

/// Number of newline characters among the first `k` characters.
pub open spec fn newline_count(s: Seq<char>, k: int) -> nat
    decreases k,
{
    if k <= 0 {
        0
    } else if s[k - 1] == '\n' {
        newline_count(s, k - 1) + 1
    } else {
        newline_count(s, k - 1)
    }
}

/// Character index at which the line holding character index `k` begins.
pub open spec fn line_begin(s: Seq<char>, k: int) -> int
    decreases k,
{
    if k <= 0 {
        0
    } else if s[k - 1] == '\n' {
        k
    } else {
        line_begin(s, k - 1)
    }
}

/// 1-based line of character index `k`.
pub open spec fn spec_line(s: Seq<char>, k: int) -> nat {
    newline_count(s, k) + 1
}

/// 1-based column (counted in characters) of character index `k`.
pub open spec fn spec_column(s: Seq<char>, k: int) -> int {
    k - line_begin(s, k) + 1
}

/// Character indices at which the lines of `s.take(n)` begin.
pub open spec fn line_starts_of(s: Seq<char>, n: int) -> Seq<int>
    decreases n,
{
    if n <= 0 {
        seq![0]
    } else if s[n - 1] == '\n' {
        line_starts_of(s, n - 1).push(n)
    } else {
        line_starts_of(s, n - 1)
    }
}

/// The characters of a line without the trailing `\r`/`\n` characters.
pub open spec fn trim_line_end(s: Seq<char>) -> Seq<char>
    decreases s.len(),
{
    if s.len() > 0 && (s.last() == '\r' || s.last() == '\n') {
        trim_line_end(s.drop_last())
    } else {
        s
    }
}

pub proof fn lemma_line_starts_shape(s: Seq<char>, n: int)
    requires
        0 <= n <= s.len(),
    ensures
        line_starts_of(s, n).len() == newline_count(s, n) + 1,
        line_starts_of(s, n)[0] == 0,
        line_starts_of(s, n).last() == line_begin(s, n),
        forall|i: int, j: int|
            0 <= i < j < line_starts_of(s, n).len() ==> line_starts_of(s, n)[i] < line_starts_of(
                s,
                n,
            )[j],
        forall|i: int| 0 <= i < line_starts_of(s, n).len() ==> 0 <= #[trigger] line_starts_of(s, n)[i] <= n,
    decreases n,
{
    if n > 0 {
        lemma_line_starts_shape(s, n - 1);
        lemma_line_begin_bound(s, n - 1);
    }
}

pub proof fn lemma_line_begin_bound(s: Seq<char>, k: int)
    requires
        0 <= k,
    ensures
        0 <= line_begin(s, k) <= k,
    decreases k,
{
    if k > 0 {
        lemma_line_begin_bound(s, k - 1);
    }
}

/// Line starts of a prefix are a prefix of the line starts; later ones lie beyond it.
pub proof fn lemma_line_starts_prefix(s: Seq<char>, k: int, m: int)
    requires
        0 <= k <= m <= s.len(),
    ensures
        line_starts_of(s, k).len() <= line_starts_of(s, m).len(),
        forall|i: int|
            0 <= i < line_starts_of(s, k).len() ==> #[trigger] line_starts_of(s, m)[i]
                == line_starts_of(s, k)[i],
        forall|i: int|
            line_starts_of(s, k).len() <= i < line_starts_of(s, m).len() ==> #[trigger] line_starts_of(
                s,
                m,
            )[i] > k,
    decreases m - k,
{
    if k < m {
        lemma_line_starts_prefix(s, k, m - 1);
    }
}

/// A text file with its line table.
#[derive(Debug, Clone)]
pub struct SourceFile<'a> {
    source: &'a str,
    chars: Vec<char>,
    offsets: Vec<usize>,
    line_start_chars: Vec<usize>,
    line_starts: Vec<usize>,
}

impl<'a> SourceFile<'a> {
    /// The characters of the file.
    pub closed spec fn text(&self) -> Seq<char> {
        self.chars@
    }

    pub closed spec fn wf(&self) -> bool {
        let n = self.chars@.len() as int;
        &&& self.chars@ == self.source@
        &&& self.offsets@.len() == n + 1
        &&& forall|k: int| 0 <= k <= n ==> #[trigger] self.offsets@[k] == byte_offset(self.chars@, k)
        &&& self.line_start_chars@.len() == line_starts_of(self.chars@, n).len()
        &&& forall|j: int|
            0 <= j < self.line_start_chars@.len() ==> #[trigger] self.line_start_chars@[j]
                == line_starts_of(self.chars@, n)[j]
        &&& self.line_starts@.len() == self.line_start_chars@.len()
        &&& forall|j: int|
            0 <= j < self.line_starts@.len() ==> #[trigger] self.line_starts@[j]
                == self.offsets@[self.line_start_chars@[j] as int]
    }

    /// Total length of the file in bytes.
    pub open spec fn byte_size(&self) -> nat {
        byte_len(self.text())
    }

    /// Whether `offset` falls on a character boundary (or past the end).
    pub open spec fn is_boundary(&self, offset: usize) -> bool {
        offset >= self.byte_size() || exists|k: int|
            0 <= k <= self.text().len() && byte_offset(self.text(), k) == offset
    }

    pub fn new(source: &'a str) -> (r: Self)
        requires
            byte_len(source@) <= usize::MAX,
        ensures
            r.wf(),
            r.text() == source@,
    {
        let chars = chars_of(source);
        let n = chars.len();
        let mut offsets: Vec<usize> = Vec::new();
        let mut line_start_chars: Vec<usize> = Vec::new();
        let mut line_starts: Vec<usize> = Vec::new();
        offsets.push(0);
        line_start_chars.push(0);
        line_starts.push(0);
        let mut at: usize = 0;
        let mut i: usize = 0;
        proof {
            lemma_byte_offset_mono(chars@, 0, n as int);
            assert(chars@.take(n as int) =~= chars@);
        }
        while i < n
            invariant
                chars@ == source@,
                n == chars@.len(),
                byte_len(chars@) <= usize::MAX,
                0 <= i <= n,
                at == byte_offset(chars@, i as int),
                offsets@.len() == i + 1,
                forall|k: int| 0 <= k <= i ==> #[trigger] offsets@[k] == byte_offset(chars@, k),
                line_start_chars@ == line_starts_of(chars@, i as int).map_values(|v: int| v as usize),
                line_starts@.len() == line_start_chars@.len(),
                forall|j: int|
                    0 <= j < line_starts@.len() ==> #[trigger] line_starts@[j]
                        == offsets@[line_start_chars@[j] as int],
                forall|j: int| 0 <= j < line_start_chars@.len() ==> #[trigger] line_start_chars@[j] <= i,
            decreases n - i,
        {
            proof {
                lemma_byte_offset_step(chars@, i as int);
                lemma_byte_offset_mono(chars@, i + 1, n as int);
                assert(chars@.take(n as int) =~= chars@);
            }
            let c = chars[i];
            at = at + width_of(c);
            i = i + 1;
            offsets.push(at);
            if c == '\n' {
                line_start_chars.push(i);
                line_starts.push(at);
            }
            assert(line_start_chars@ =~= line_starts_of(chars@, i as int).map_values(
                |v: int| v as usize,
            ));
        }
        proof {
            lemma_line_starts_shape(chars@, n as int);
        }
        SourceFile { source, chars, offsets, line_start_chars, line_starts }
    }

    /// Largest line index whose start is at or before the byte offset `offset`.
    fn line_index(&self, offset: usize) -> (r: usize)
        requires
            self.wf(),
        ensures
            r < self.line_starts@.len(),
            self.line_starts@[r as int] <= offset,
            r + 1 < self.line_starts@.len() ==> self.line_starts@[r + 1] > offset,
    {
        proof {
            lemma_line_starts_shape(self.chars@, self.chars@.len() as int);
        }
        let mut lo: usize = 0;
        let mut hi: usize = self.line_starts.len();
        while lo + 1 < hi
            invariant
                self.wf(),
                0 <= lo < hi <= self.line_starts@.len(),
                self.line_starts@[lo as int] <= offset,
                hi < self.line_starts@.len() ==> self.line_starts@[hi as int] > offset,
            decreases hi - lo,
        {
            let mid = lo + (hi - lo) / 2;
            if self.line_starts[mid] <= offset {
                lo = mid;
            } else {
                hi = mid;
            }
        }
        lo
    }

    /// Character index of a byte offset that falls on a boundary.
    fn char_index(&self, offset: usize) -> (r: usize)
        requires
            self.wf(),
            exists|k: int| 0 <= k <= self.text().len() && byte_offset(self.text(), k) == offset,
        ensures
            r <= self.text().len(),
            byte_offset(self.text(), r as int) == offset,
    {
        let mut lo: usize = 0;
        let mut hi: usize = self.offsets.len();
        let ghost k = choose|k: int| 0 <= k <= self.text().len() && byte_offset(self.text(), k) == offset;
        proof {
            if k > 0 {
                lemma_byte_offset_mono(self.chars@, 0, k);
            }
        }
        while lo + 1 < hi
            invariant
                self.wf(),
                0 <= lo < hi <= self.offsets@.len(),
                0 <= k <= self.text().len(),
                byte_offset(self.text(), k) == offset,
                lo <= k < hi,
            decreases hi - lo,
        {
            let mid = lo + (hi - lo) / 2;
            if self.offsets[mid] <= offset {
                proof {
                    if mid > k {
                        lemma_byte_offset_mono(self.chars@, k, mid as int);
                    }
                }
                lo = mid;
            } else {
                proof {
                    if mid <= k {
                        lemma_byte_offset_mono(self.chars@, mid as int, k);
                    }
                }
                hi = mid;
            }
        }
        lo
    }

    /// 1-based (line, column) of a byte offset; columns count characters.
    pub fn position(&self, offset: usize) -> (r: (usize, usize))
        requires
            self.wf(),
            self.is_boundary(offset),
        ensures
            forall|k: int|
                0 <= k <= self.text().len() && byte_offset(self.text(), k) == (if offset
                    < self.byte_size() {
                    offset as nat
                } else {
                    self.byte_size()
                }) ==> r.0 == spec_line(self.text(), k) && r.1 == spec_column(self.text(), k),
    {
        let s = Ghost(self.chars@);
        let n = self.chars.len();
        let total = self.offsets[n];
        proof {
            assert(s@.take(n as int) =~= s@);
        }
        let offset = if offset < total {
            offset
        } else {
            total
        };
        let k = self.char_index(offset);
        let j = self.line_index(offset);
        let line_start = self.line_start_chars[j];
        let count = self.line_starts.len();
        let slots = self.offsets.len();
        proof {
            lemma_line_starts_shape(s@, n as int);
            lemma_line_starts_shape(s@, k as int);
            lemma_line_starts_prefix(s@, k as int, n as int);
            let ls = line_starts_of(s@, n as int);
            let lk = line_starts_of(s@, k as int);
            let c = newline_count(s@, k as int) as int;
            // the line start at index c is the last one at or before k
            assert(ls[c] == lk.last());
            if j < c {
                assert(ls[j + 1] <= ls[c]);
                lemma_byte_offset_mono(s@, ls[j + 1], k as int);
                assert(self.line_starts@[j + 1] == self.offsets@[ls[j + 1]]);
            } else if j > c {
                assert(ls[j as int] > k);
                lemma_byte_offset_mono(s@, k as int, ls[j as int]);
                assert(self.line_starts@[j as int] == self.offsets@[ls[j as int]]);
            }
            assert(j == c);
            lemma_line_begin_bound(s@, k as int);
            assert(line_start as int == line_begin(s@, k as int));
            assert(j < count);
            assert(k < slots);
            assert forall|k2: int|
                0 <= k2 <= s@.len() && byte_offset(s@, k2) == offset implies k2 == k by {
                if k2 < k {
                    lemma_byte_offset_mono(s@, k2, k as int);
                } else if k2 > k {
                    lemma_byte_offset_mono(s@, k as int, k2);
                }
            }
        }
        (j + 1, k - line_start + 1)
    }

    /// The text of the 1-based line `line`, without its line terminator.
    pub fn line_text(&self, line: usize) -> (r: &'a str)
        requires
            self.wf(),
        ensures
            r@ == spec_line_text(self.text(), line as int),
    {
        let n = self.chars.len();
        proof {
            lemma_line_starts_shape(self.chars@, n as int);
        }
        let index: usize = if line == 0 {
            0
        } else {
            line - 1
        };
        if index >= self.line_start_chars.len() {
            proof {
                reveal_strlit("");
            }
            return "";
        }
        let start = self.line_start_chars[index];
        let mut end = if line < self.line_start_chars.len() {
            self.line_start_chars[line]
        } else {
            n
        };
        while end > start && (self.chars[end - 1] == '\r' || self.chars[end - 1] == '\n')
            invariant
                self.wf(),
                n == self.chars@.len(),
                start <= end <= n,
                trim_line_end(self.chars@.subrange(start as int, end as int)) == trim_line_end(
                    self.chars@.subrange(
                        start as int,
                        if line < self.line_start_chars@.len() {
                            self.line_start_chars@[line as int] as int
                        } else {
                            n as int
                        },
                    ),
                ),
            decreases end,
        {
            assert(self.chars@.subrange(start as int, end - 1) =~= self.chars@.subrange(
                start as int,
                end as int,
            ).drop_last());
            end = end - 1;
        }
        let r = self.source.substring_char(start, end);
        assert(r@ == self.chars@.subrange(start as int, end as int));
        assert(trim_line_end(self.chars@.subrange(start as int, end as int))
            == self.chars@.subrange(start as int, end as int));
        r
    }
}

/// Line, column and byte range of a source location.
#[derive(Debug, Clone, Copy, PartialEq, Eq, Structural)]
pub struct Span {
    pub line: usize,
    pub column: usize,
    pub range: TextRange,
}

impl Span {
    pub fn new(line: usize, column: usize) -> (r: Self)
        ensures
            r.line == line,
            r.column == column,
            r.range.start == 0,
            r.range.end == 0,
    {
        Self { line, column, range: TextRange::new(0, 0) }
    }

    pub fn with_range(line: usize, column: usize, start: usize, end: usize) -> (r: Self)
        ensures
            r.line == line,
            r.column == column,
            r.range.start == start,
            r.range.end == end,
    {
        Self { line, column, range: TextRange::new(start, end) }
    }

    /// The span of `range`, positioned by its start offset.
    pub fn from_range(source: &SourceFile<'_>, range: TextRange) -> (r: Self)
        requires
            source.wf(),
            source.is_boundary(range.start),
        ensures
            r.range == range,
            forall|k: int|
                0 <= k <= source.text().len() && byte_offset(source.text(), k) == (if range.start
                    < source.byte_size() {
                    range.start as nat
                } else {
                    source.byte_size()
                }) ==> r.line == spec_line(source.text(), k) && r.column == spec_column(
                    source.text(),
                    k,
                ),
    {
        let (line, column) = source.position(range.start);
        Self { line, column, range }
    }
}

/// A compiler error message attached to a span.
#[derive(Debug, Clone, PartialEq, Eq)]
pub struct Diagnostic {
    pub message: String,
    pub span: Span,
}

/// Text of the 1-based line `line` of `s`, without its line terminator:
/// from the start of line `line` (of line 1 for 0) to the start of the next
/// line `line + 1` (so line 0 reads as empty); empty past the last line.
pub open spec fn spec_line_text(s: Seq<char>, line: int) -> Seq<char> {
    let ls = line_starts_of(s, s.len() as int);
    let idx = if line <= 0 {
        0
    } else {
        line - 1
    };
    if idx >= ls.len() {
        Seq::empty()
    } else {
        trim_line_end(
            s.subrange(
                ls[idx],
                if line < ls.len() {
                    ls[line]
                } else {
                    s.len() as int
                },
            ),
        )
    }
}

/// Character index of a boundary byte offset, clamped to the end of `s`.
pub open spec fn char_index_of(s: Seq<char>, offset: int) -> int {
    let o = if offset < byte_len(s) {
        offset
    } else {
        byte_len(s) as int
    };
    choose|k: int| 0 <= k <= s.len() && byte_offset(s, k) == o
}

/// Spaces.
pub open spec fn spaces(n: nat) -> Seq<char> {
    Seq::new(n, |i: int| ' ')
}

/// Right-aligned rendering of `digits` in a field of width 6.
pub open spec fn pad6(digits: Seq<char>) -> Seq<char> {
    if digits.len() < 6 {
        spaces((6 - digits.len()) as nat) + digits
    } else {
        digits
    }
}

/// The rendered form of a diagnostic at (`line`, `column`) with the text of its line.
pub open spec fn rendered_diagnostic(
    message: Seq<char>,
    line: nat,
    column: nat,
    line_text: Seq<char>,
) -> Seq<char> {
    "error:"@ + decimal(line) + ":"@ + decimal(column) + ": "@ + message + "\n"@ + pad6(
        decimal(line),
    ) + " | "@ + line_text + "\n       | "@ + spaces(
        if column >= 1 {
            (column - 1) as nat
        } else {
            0
        },
    ) + "^"@
}

/// What `Diagnostic::render` needs of its source: a size that fits in memory
/// and, for a diagnostic with a non-empty range, a start offset that is on a
/// character boundary or past the end of the text.
pub open spec fn renderable(d: Diagnostic, s: Seq<char>) -> bool {
    &&& byte_len(s) <= usize::MAX
    &&& d.span.range.start != d.span.range.end ==> (d.span.range.start >= byte_len(s) || exists|
        k: int,
    | 0 <= k <= s.len() && byte_offset(s, k) == d.span.range.start)
}

/// The text that `Diagnostic::render` produces for `d` against source `s`:
/// an empty range reports the span's own line and column, any other range
/// the position of its start offset.
pub open spec fn rendered_text(d: Diagnostic, s: Seq<char>) -> Seq<char> {
    let (line, column) = if d.span.range.start == d.span.range.end {
        (d.span.line as int, d.span.column as int)
    } else {
        let k = char_index_of(s, d.span.range.start as int);
        (spec_line(s, k) as int, spec_column(s, k))
    };
    rendered_diagnostic(d.message@, line as nat, column as nat, spec_line_text(s, line))
}

fn push_spaces(s: &mut String, n: usize)
    ensures
        final(s)@ == old(s)@ + spaces(n as nat),
{
    let ghost base = s@;
    let mut i: usize = 0;
    while i < n
        invariant
            0 <= i <= n,
            s@ == base + spaces(i as nat),
        decreases n - i,
    {
        push_char(s, ' ');
        i = i + 1;
        assert(s@ =~= base + spaces(i as nat));
    }
}

impl Diagnostic {
    pub fn new(message: String, span: Span) -> (r: Self)
        ensures
            r.message@ == message@,
            r.span == span,
    {
        Self { message, span }
    }

    /// Renders the diagnostic against `source`, with the offending line and a caret.
    #[verifier::rlimit(40)]
    pub fn render(&self, source: &str) -> (r: String)
        requires
            renderable(*self, source@),
        ensures
            r@ == rendered_text(*self, source@),
    {
        let source_file = SourceFile::new(source);
        proof {
            let s = source@;
            assert(s.take(s.len() as int) =~= s);
            let o = if (self.span.range.start as int) < byte_len(s) {
                self.span.range.start as int
            } else {
                byte_len(s) as int
            };
            if self.span.range.start != self.span.range.end {
                if (self.span.range.start as int) < byte_len(s) {
                    let k = choose|k: int| 0 <= k <= s.len() && byte_offset(s, k) == self.span.range.start;
                    assert(0 <= k <= s.len() && byte_offset(s, k) == o);
                } else {
                    assert(byte_offset(s, s.len() as int) == o);
                }
            }
        }
        let (line, column) = if self.span.range.start == self.span.range.end {
            (self.span.line, self.span.column)
        } else {
            source_file.position(self.span.range.start)
        };
        let source_line = source_file.line_text(line);
        let mut out = string_of("error:");
        push_u64(&mut out, line as u64);
        push_str(&mut out, ":");
        push_u64(&mut out, column as u64);
        push_str(&mut out, ": ");
        push_str(&mut out, self.message.as_str());
        push_str(&mut out, "\n");
        let digits = usize_string(line);
        let digit_chars = chars_of(digits.as_str());
        if digit_chars.len() < 6 {
            push_spaces(&mut out, 6 - digit_chars.len());
        }
        push_str(&mut out, digits.as_str());
        push_str(&mut out, " | ");
        push_str(&mut out, source_line);
        push_str(&mut out, "\n       | ");
        push_spaces(
            &mut out,
            if column >= 1 {
                column - 1
            } else {
                0
            },
        );
        push_str(&mut out, "^");
        proof {
            reveal_strlit("error:");
            reveal_strlit(":");
            reveal_strlit(": ");
            reveal_strlit("\n");
            reveal_strlit(" | ");
            reveal_strlit("\n       | ");
            reveal_strlit("^");
            assert(out@ =~= rendered_diagnostic(
                self.message@,
                line as nat,
                column as nat,
                source_line@,
            ));
        }
        out
    }
}

/// An ordered collection of diagnostics.
#[derive(Debug, Clone)]
pub struct Diagnostics(pub Vec<Diagnostic>);

impl Diagnostics {
    pub fn new() -> (r: Self)
        ensures
            r.0@.len() == 0,
    {
        Self(Vec::new())
    }

    pub fn push(&mut self, diagnostic: Diagnostic)
        ensures
            final(self).0@ == old(self).0@.push(diagnostic),
    {
        self.0.push(diagnostic);
    }

    /// `Ok(value)` when nothing was reported, the diagnostics otherwise.
    pub fn into_result<T>(self, value: T) -> (r: Result<T, Self>)
        ensures
            self.0@.len() == 0 ==> r == Ok::<T, Self>(value),
            self.0@.len() != 0 ==> r == Err::<T, Self>(self),
    {
        if self.0.len() == 0 {
            Ok(value)
        } else {
            Err(self)
        }
    }

    /// One `error:line:column: message` line per diagnostic.
    pub fn to_display_string(&self) -> (r: String)
        ensures
            r@ == summary_lines(self.0@.map_values(|d: Diagnostic| d.span), self.0@.map_values(
                |d: Diagnostic| d.message@,
            )),
    {
        let mut out = String::new();
        let mut i: usize = 0;
        let ghost spans = self.0@.map_values(|d: Diagnostic| d.span);
        let ghost messages = self.0@.map_values(|d: Diagnostic| d.message@);
        while i < self.0.len()
            invariant
                0 <= i <= self.0@.len(),
                spans == self.0@.map_values(|d: Diagnostic| d.span),
                messages == self.0@.map_values(|d: Diagnostic| d.message@),
                out@ == summary_lines(spans.take(i as int), messages.take(i as int)),
            decreases self.0@.len() - i,
        {
            let d = &self.0[i];
            let ghost before = out@;
            if i > 0 {
                push_char(&mut out, '\n');
            }
            push_str(&mut out, "error:");
            push_u64(&mut out, d.span.line as u64);
            push_char(&mut out, ':');
            push_u64(&mut out, d.span.column as u64);
            push_str(&mut out, ": ");
            push_str(&mut out, d.message.as_str());
            proof {
                reveal_strlit("error:");
                reveal_strlit(": ");
                assert(spans.take(i + 1).drop_last() =~= spans.take(i as int));
                assert(messages.take(i + 1).drop_last() =~= messages.take(i as int));
                assert(out@ =~= summary_lines(spans.take(i + 1), messages.take(i + 1)));
            }
            i = i + 1;
        }
        proof {
            assert(spans.take(i as int) =~= spans);
            assert(messages.take(i as int) =~= messages);
        }
        out
    }
}

/// The summary form: each diagnostic as `error:line:column: message`, newline-separated.
pub open spec fn summary_lines(spans: Seq<Span>, messages: Seq<Seq<char>>) -> Seq<char>
    decreases spans.len(),
{
    if spans.len() == 0 {
        Seq::empty()
    } else {
        let prefix = summary_lines(spans.drop_last(), messages.drop_last());
        let last = spans.last();
        let entry = "error:"@ + decimal(last.line as nat) + seq![':'] + decimal(last.column as nat)
            + ": "@ + messages.last();
        if spans.len() == 1 {
            entry
        } else {
            prefix + seq!['\n'] + entry
        }
    }
}

} // verus!
