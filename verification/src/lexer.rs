//! The MCFC lexer.
//!
//! `lex` turns source text into tokens. Its contract is stated against
//! `scan`, which says what the token starting at a given character is, and
//! `lex_from`, which chains those scans over the whole text.
use vstd::prelude::*;

use crate::diagnostics::{
    spec_column, spec_line, Diagnostic, Diagnostics, SourceFile, Span, TextRange,
};
use crate::text::{
    alnum, alpha, byte_len, byte_offset, char_width, chars_of, digit, is_ascii_alnum,
    is_ascii_alpha, is_ascii_digit, lemma_byte_len_encode, lemma_byte_offset_step, push_char,
    push_chars, push_str, range_is, string_from_chars, string_of, width_of,
};

verus! {

broadcast use vstd::string::group_string_axioms;

/// A token kind; `S` is the text type of the identifier and string payloads.
#[derive(Debug, Clone, PartialEq, Eq)]
pub enum TokenKindOf<S> {
    Fn,
    Let,
    Return,
    End,
    If,
    Else,
    While,
    For,
    In,
    Break,
    Continue,
    Mc,
    Mcf,
    BookAnnotation,
    True,
    False,
    And,
    Or,
    Not,
    Arrow,
    DotDot,
    DotDotEq,
    Colon,
    Comma,
    Dot,
    LeftParen,
    RightParen,
    LeftBracket,
    RightBracket,
    Assign,
    Plus,
    Minus,
    Star,
    Slash,
    EqEq,
    BangEq,
    Lt,
    Lte,
    Gt,
    Gte,
    Identifier(S),
    Integer(i64),
    String(S),
    Newline,
    Eof,
}

/// Token kinds as the lexer produces them.
pub type TokenKind = TokenKindOf<String>;

/// Token kinds with their text as character sequences.
pub type SpecKind = TokenKindOf<Seq<char>>;

/// The character-sequence view of a token kind.
pub open spec fn kind_view(k: TokenKind) -> SpecKind {
    match k {
        TokenKindOf::Fn => TokenKindOf::Fn,
        TokenKindOf::Let => TokenKindOf::Let,
        TokenKindOf::Return => TokenKindOf::Return,
        TokenKindOf::End => TokenKindOf::End,
        TokenKindOf::If => TokenKindOf::If,
        TokenKindOf::Else => TokenKindOf::Else,
        TokenKindOf::While => TokenKindOf::While,
        TokenKindOf::For => TokenKindOf::For,
        TokenKindOf::In => TokenKindOf::In,
        TokenKindOf::Break => TokenKindOf::Break,
        TokenKindOf::Continue => TokenKindOf::Continue,
        TokenKindOf::Mc => TokenKindOf::Mc,
        TokenKindOf::Mcf => TokenKindOf::Mcf,
        TokenKindOf::BookAnnotation => TokenKindOf::BookAnnotation,
        TokenKindOf::True => TokenKindOf::True,
        TokenKindOf::False => TokenKindOf::False,
        TokenKindOf::And => TokenKindOf::And,
        TokenKindOf::Or => TokenKindOf::Or,
        TokenKindOf::Not => TokenKindOf::Not,
        TokenKindOf::Arrow => TokenKindOf::Arrow,
        TokenKindOf::DotDot => TokenKindOf::DotDot,
        TokenKindOf::DotDotEq => TokenKindOf::DotDotEq,
        TokenKindOf::Colon => TokenKindOf::Colon,
        TokenKindOf::Comma => TokenKindOf::Comma,
        TokenKindOf::Dot => TokenKindOf::Dot,
        TokenKindOf::LeftParen => TokenKindOf::LeftParen,
        TokenKindOf::RightParen => TokenKindOf::RightParen,
        TokenKindOf::LeftBracket => TokenKindOf::LeftBracket,
        TokenKindOf::RightBracket => TokenKindOf::RightBracket,
        TokenKindOf::Assign => TokenKindOf::Assign,
        TokenKindOf::Plus => TokenKindOf::Plus,
        TokenKindOf::Minus => TokenKindOf::Minus,
        TokenKindOf::Star => TokenKindOf::Star,
        TokenKindOf::Slash => TokenKindOf::Slash,
        TokenKindOf::EqEq => TokenKindOf::EqEq,
        TokenKindOf::BangEq => TokenKindOf::BangEq,
        TokenKindOf::Lt => TokenKindOf::Lt,
        TokenKindOf::Lte => TokenKindOf::Lte,
        TokenKindOf::Gt => TokenKindOf::Gt,
        TokenKindOf::Gte => TokenKindOf::Gte,
        TokenKindOf::Identifier(s) => TokenKindOf::Identifier(s@),
        TokenKindOf::Integer(v) => TokenKindOf::Integer(v),
        TokenKindOf::String(s) => TokenKindOf::String(s@),
        TokenKindOf::Newline => TokenKindOf::Newline,
        TokenKindOf::Eof => TokenKindOf::Eof,
    }
}

/// A lexed token.
#[derive(Debug, Clone, PartialEq, Eq)]
pub struct Token {
    pub kind: TokenKind,
    pub span: Span,
    pub range: TextRange,
}

/// A token described by character indices.
pub struct SpecToken {
    pub kind: SpecKind,
    pub start: int,
    pub end: int,
}

/// A lexical error described by character indices.
pub struct SpecError {
    pub message: Seq<char>,
    pub start: int,
    pub end: int,
}

/// What the scan at one position finds.
pub enum Scan {
    Skip { next: int },
    Token { kind: SpecKind, next: int },
    Error { message: Seq<char>, next: int },
}

pub open spec fn is_ident_start_char(c: char) -> bool {
    is_ascii_alpha(c) || c == '_'
}

pub open spec fn is_ident_continue_char(c: char) -> bool {
    is_ascii_alnum(c) || c == '_'
}

/// End of the run of identifier characters starting at `j`.
pub open spec fn ident_end(cs: Seq<char>, j: int) -> int
    decreases cs.len() - j,
{
    if j < 0 || j >= cs.len() || !is_ident_continue_char(cs[j]) {
        j
    } else {
        ident_end(cs, j + 1)
    }
}

/// End of the run of ASCII digits starting at `j`.
pub open spec fn digits_end(cs: Seq<char>, j: int) -> int
    decreases cs.len() - j,
{
    if j < 0 || j >= cs.len() || !is_ascii_digit(cs[j]) {
        j
    } else {
        digits_end(cs, j + 1)
    }
}

/// Index of the first newline at or after `j` (or the end).
pub open spec fn line_end(cs: Seq<char>, j: int) -> int
    decreases cs.len() - j,
{
    if j < 0 || j >= cs.len() || cs[j] == '\n' {
        j
    } else {
        line_end(cs, j + 1)
    }
}

/// The character an escape sequence `\c` stands for.
pub open spec fn unescape(c: char) -> char {
    if c == 'n' {
        '\n'
    } else if c == 't' {
        '\t'
    } else {
        c
    }
}

/// Scans a string body from `j` up to the closing `delim`: whether it was
/// closed, the unescaped value, and where scanning stopped.
pub open spec fn scan_string(cs: Seq<char>, j: int, delim: char, acc: Seq<char>) -> (
    bool,
    Seq<char>,
    int,
)
    decreases cs.len() - j,
{
    if j < 0 || j >= cs.len() {
        (false, acc, j)
    } else if cs[j] == delim {
        (true, acc, j + 1)
    } else if cs[j] == '\\' {
        if j + 1 >= cs.len() {
            (false, acc, j + 1)
        } else {
            scan_string(cs, j + 2, delim, acc.push(unescape(cs[j + 1])))
        }
    } else {
        scan_string(cs, j + 1, delim, acc.push(cs[j]))
    }
}

/// Numeric value of a run of decimal digits.
pub open spec fn digits_value(ds: Seq<char>) -> nat
    decreases ds.len(),
{
    if ds.len() == 0 {
        0
    } else {
        digits_value(ds.drop_last()) * 10 + ((ds.last() as u32) - 48) as nat
    }
}

/// Value of an integer literal: its digits, or 0 when it does not fit in `i64`.
pub open spec fn literal_value(ds: Seq<char>) -> i64 {
    if digits_value(ds) <= i64::MAX {
        digits_value(ds) as i64
    } else {
        0
    }
}

/// Keyword or identifier for a word.
pub open spec fn word_kind(w: Seq<char>) -> SpecKind {
    if w == "fn"@ {
        TokenKindOf::Fn
    } else if w == "let"@ {
        TokenKindOf::Let
    } else if w == "return"@ {
        TokenKindOf::Return
    } else if w == "end"@ {
        TokenKindOf::End
    } else if w == "if"@ {
        TokenKindOf::If
    } else if w == "else"@ {
        TokenKindOf::Else
    } else if w == "while"@ {
        TokenKindOf::While
    } else if w == "for"@ {
        TokenKindOf::For
    } else if w == "in"@ {
        TokenKindOf::In
    } else if w == "break"@ {
        TokenKindOf::Break
    } else if w == "continue"@ {
        TokenKindOf::Continue
    } else if w == "mc"@ {
        TokenKindOf::Mc
    } else if w == "mcf"@ {
        TokenKindOf::Mcf
    } else if w == "true"@ {
        TokenKindOf::True
    } else if w == "false"@ {
        TokenKindOf::False
    } else if w == "and"@ {
        TokenKindOf::And
    } else if w == "or"@ {
        TokenKindOf::Or
    } else if w == "not"@ {
        TokenKindOf::Not
    } else {
        TokenKindOf::Identifier(w)
    }
}

/// Single-character punctuation.
pub open spec fn simple_kind(c: char) -> Option<SpecKind> {
    if c == '(' {
        Some(TokenKindOf::LeftParen)
    } else if c == ')' {
        Some(TokenKindOf::RightParen)
    } else if c == '[' {
        Some(TokenKindOf::LeftBracket)
    } else if c == ']' {
        Some(TokenKindOf::RightBracket)
    } else if c == ':' {
        Some(TokenKindOf::Colon)
    } else if c == ',' {
        Some(TokenKindOf::Comma)
    } else if c == '+' {
        Some(TokenKindOf::Plus)
    } else if c == '*' {
        Some(TokenKindOf::Star)
    } else if c == '/' {
        Some(TokenKindOf::Slash)
    } else {
        None
    }
}

pub open spec fn next_is(cs: Seq<char>, j: int, c: char) -> bool {
    0 <= j < cs.len() && cs[j] == c
}

/// Two-character operators `x=`, `->`: the kind with and without the second character.
pub open spec fn pair_scan(cs: Seq<char>, i: int, second: char, long: SpecKind, short: SpecKind) -> Scan {
    if next_is(cs, i + 1, second) {
        Scan::Token { kind: long, next: i + 2 }
    } else {
        Scan::Token { kind: short, next: i + 1 }
    }
}

/// What the lexer finds at character index `i` (for `0 <= i < cs.len()`).
pub open spec fn scan(cs: Seq<char>, i: int) -> Scan {
    let c = cs[i];
    if c == ' ' || c == '\t' || c == '\r' {
        Scan::Skip { next: i + 1 }
    } else if c == '#' {
        Scan::Skip { next: line_end(cs, i) }
    } else if c == '\n' {
        Scan::Token { kind: TokenKindOf::Newline, next: i + 1 }
    } else if simple_kind(c) is Some {
        Scan::Token { kind: simple_kind(c).unwrap(), next: i + 1 }
    } else if c == '.' {
        if next_is(cs, i + 1, '.') {
            if next_is(cs, i + 2, '=') {
                Scan::Token { kind: TokenKindOf::DotDotEq, next: i + 3 }
            } else {
                Scan::Token { kind: TokenKindOf::DotDot, next: i + 2 }
            }
        } else {
            Scan::Token { kind: TokenKindOf::Dot, next: i + 1 }
        }
    } else if c == '-' {
        pair_scan(cs, i, '>', TokenKindOf::Arrow, TokenKindOf::Minus)
    } else if c == '=' {
        pair_scan(cs, i, '=', TokenKindOf::EqEq, TokenKindOf::Assign)
    } else if c == '!' {
        if next_is(cs, i + 1, '=') {
            Scan::Token { kind: TokenKindOf::BangEq, next: i + 2 }
        } else {
            Scan::Error { message: "unexpected '!'"@, next: i + 1 }
        }
    } else if c == '<' {
        pair_scan(cs, i, '=', TokenKindOf::Lte, TokenKindOf::Lt)
    } else if c == '>' {
        pair_scan(cs, i, '=', TokenKindOf::Gte, TokenKindOf::Gt)
    } else if c == '"' || c == '\'' {
        let (closed, value, next) = scan_string(cs, i + 1, c, Seq::empty());
        if closed {
            Scan::Token { kind: TokenKindOf::String(value), next }
        } else {
            Scan::Error { message: "unterminated string literal"@, next }
        }
    } else if c == '@' {
        let e = ident_end(cs, i + 1);
        let word = cs.subrange(i + 1, e);
        if word == "book"@ {
            Scan::Token { kind: TokenKindOf::BookAnnotation, next: e }
        } else {
            Scan::Error { message: "unknown annotation '@"@ + word + "'"@, next: e }
        }
    } else if is_ascii_digit(c) {
        let e = digits_end(cs, i);
        Scan::Token { kind: TokenKindOf::Integer(literal_value(cs.subrange(i, e))), next: e }
    } else if is_ident_start_char(c) {
        let e = ident_end(cs, i);
        Scan::Token { kind: word_kind(cs.subrange(i, e)), next: e }
    } else {
        Scan::Error { message: "unexpected character '"@ + seq![c] + "'"@, next: i + 1 }
    }
}

pub open spec fn scan_next(s: Scan) -> int {
    match s {
        Scan::Skip { next } => next,
        Scan::Token { next, .. } => next,
        Scan::Error { next, .. } => next,
    }
}

pub proof fn lemma_ident_end(cs: Seq<char>, j: int)
    requires
        0 <= j <= cs.len(),
    ensures
        j <= ident_end(cs, j) <= cs.len(),
        forall|k: int| j <= k < ident_end(cs, j) ==> is_ident_continue_char(#[trigger] cs[k]),
        ident_end(cs, j) < cs.len() ==> !is_ident_continue_char(cs[ident_end(cs, j)]),
    decreases cs.len() - j,
{
    if j < cs.len() && is_ident_continue_char(cs[j]) {
        lemma_ident_end(cs, j + 1);
    }
}

pub proof fn lemma_digits_end(cs: Seq<char>, j: int)
    requires
        0 <= j <= cs.len(),
    ensures
        j <= digits_end(cs, j) <= cs.len(),
        forall|k: int| j <= k < digits_end(cs, j) ==> is_ascii_digit(#[trigger] cs[k]),
        digits_end(cs, j) < cs.len() ==> !is_ascii_digit(cs[digits_end(cs, j)]),
    decreases cs.len() - j,
{
    if j < cs.len() && is_ascii_digit(cs[j]) {
        lemma_digits_end(cs, j + 1);
    }
}

pub proof fn lemma_line_end(cs: Seq<char>, j: int)
    requires
        0 <= j <= cs.len(),
    ensures
        j <= line_end(cs, j) <= cs.len(),
        line_end(cs, j) < cs.len() ==> cs[line_end(cs, j)] == '\n',
    decreases cs.len() - j,
{
    if j < cs.len() && cs[j] != '\n' {
        lemma_line_end(cs, j + 1);
    }
}

pub proof fn lemma_scan_string(cs: Seq<char>, j: int, delim: char, acc: Seq<char>)
    requires
        0 <= j <= cs.len(),
    ensures
        j <= scan_string(cs, j, delim, acc).2 <= cs.len(),
    decreases cs.len() - j,
{
    if j < cs.len() && cs[j] != delim {
        if cs[j] == '\\' {
            if j + 1 < cs.len() {
                lemma_scan_string(cs, j + 2, delim, acc.push(unescape(cs[j + 1])));
            }
        } else {
            lemma_scan_string(cs, j + 1, delim, acc.push(cs[j]));
        }
    }
}

/// Every scan consumes at least one character and stays within the text.
pub proof fn lemma_scan_advances(cs: Seq<char>, i: int)
    requires
        0 <= i < cs.len(),
    ensures
        i < scan_next(scan(cs, i)) <= cs.len(),
{
    lemma_ident_end(cs, i);
    lemma_ident_end(cs, i + 1);
    lemma_digits_end(cs, i);
    lemma_line_end(cs, i);
    lemma_scan_string(cs, i + 1, cs[i], Seq::empty());
}

/// Tokens and errors found from character index `i` to the end.
pub open spec fn lex_from(cs: Seq<char>, i: int) -> (Seq<SpecToken>, Seq<SpecError>)
    decreases cs.len() - i,
{
    if i < 0 || i >= cs.len() {
        (Seq::empty(), Seq::empty())
    } else {
        let s = scan(cs, i);
        proof {
            lemma_scan_advances(cs, i);
        }
        let rest = lex_from(cs, scan_next(s));
        match s {
            Scan::Skip { .. } => rest,
            Scan::Token { kind, next } => (
                seq![SpecToken { kind, start: i, end: next }] + rest.0,
                rest.1,
            ),
            Scan::Error { message, next } => (
                rest.0,
                seq![SpecError { message, start: i, end: next }] + rest.1,
            ),
        }
    }
}

/// The tokens of `cs`: everything `lex_from` finds, then `Eof` at the end.
pub open spec fn lexed_tokens(cs: Seq<char>) -> Seq<SpecToken> {
    lex_from(cs, 0).0.push(
        SpecToken { kind: TokenKindOf::Eof, start: cs.len() as int, end: cs.len() as int },
    )
}

/// The lexical errors of `cs`.
pub open spec fn lexed_errors(cs: Seq<char>) -> Seq<SpecError> {
    lex_from(cs, 0).1
}

/// `t` is the token `st` of the text `cs`, with byte ranges and its line/column.
pub open spec fn token_matches(cs: Seq<char>, t: Token, st: SpecToken) -> bool {
    &&& kind_view(t.kind) == st.kind
    &&& t.range.start == byte_offset(cs, st.start)
    &&& t.range.end == byte_offset(cs, st.end)
    &&& t.span.range == t.range
    &&& t.span.line == spec_line(cs, st.start)
    &&& t.span.column == spec_column(cs, st.start)
}

/// `d` reports the error `e` of the text `cs`.
pub open spec fn error_matches(cs: Seq<char>, d: Diagnostic, e: SpecError) -> bool {
    &&& d.message@ == e.message
    &&& d.span.range.start == byte_offset(cs, e.start)
    &&& d.span.range.end == byte_offset(cs, e.end)
    &&& d.span.line == spec_line(cs, e.start)
    &&& d.span.column == spec_column(cs, e.start)
}

pub open spec fn tokens_match(cs: Seq<char>, ts: Seq<Token>, ss: Seq<SpecToken>) -> bool {
    &&& ts.len() == ss.len()
    &&& forall|j: int| 0 <= j < ts.len() ==> token_matches(cs, #[trigger] ts[j], ss[j])
}

pub open spec fn errors_match(cs: Seq<char>, ds: Seq<Diagnostic>, es: Seq<SpecError>) -> bool {
    &&& ds.len() == es.len()
    &&& forall|j: int| 0 <= j < ds.len() ==> error_matches(cs, #[trigger] ds[j], es[j])
}

pub fn is_ident_start(ch: char) -> (r: bool)
    ensures
        r == is_ident_start_char(ch),
{
    alpha(ch) || ch == '_'
}

pub fn is_ident_continue(ch: char) -> (r: bool)
    ensures
        r == is_ident_continue_char(ch),
{
    alnum(ch) || ch == '_'
}

/// A position in the text, as a character index and the matching byte offset.
struct Cursor {
    chars: Vec<char>,
    index: usize,
    byte: usize,
}

impl Cursor {
    spec fn wf(&self) -> bool {
        &&& self.index <= self.chars@.len()
        &&& self.byte == byte_offset(self.chars@, self.index as int)
        &&& byte_len(self.chars@) <= usize::MAX
    }

    fn new(chars: Vec<char>) -> (r: Self)
        requires
            byte_len(chars@) <= usize::MAX,
        ensures
            r.wf(),
            r.chars@ == chars@,
            r.index == 0,
    {
        proof {
            assert(chars@.take(0) =~= Seq::<char>::empty());
        }
        Cursor { chars, index: 0, byte: 0 }
    }

    fn position(&self) -> (r: usize)
        ensures
            r == self.byte,
    {
        self.byte
    }

    fn peek(&self) -> (r: Option<char>)
        requires
            self.wf(),
        ensures
            self.index < self.chars@.len() ==> r == Some(self.chars@[self.index as int]),
            self.index >= self.chars@.len() ==> r is None,
    {
        if self.index < self.chars.len() {
            Some(self.chars[self.index])
        } else {
            None
        }
    }

    fn peek_at(&self, ahead: usize) -> (r: Option<char>)
        requires
            self.wf(),
        ensures
            r is Some <==> self.index + ahead < self.chars@.len(),
            r is Some ==> r == Some(self.chars@[self.index + ahead]),
    {
        if ahead < self.chars.len() - self.index {
            Some(self.chars[self.index + ahead])
        } else {
            None
        }
    }

    fn bump(&mut self)
        requires
            old(self).wf(),
            old(self).index < old(self).chars@.len(),
        ensures
            final(self).wf(),
            final(self).chars@ == old(self).chars@,
            final(self).index == old(self).index + 1,
    {
        proof {
            crate::text::lemma_byte_offset_mono(self.chars@, self.index + 1, self.chars@.len() as int);
            lemma_byte_offset_step(self.chars@, self.index as int);
            assert(self.chars@.take(self.chars@.len() as int) =~= self.chars@);
        }
        let w = width_of(self.chars[self.index]);
        let n = self.chars.len();
        self.byte = self.byte + w;
        self.index = self.index + 1;
    }

    fn consume_ident(&mut self)
        requires
            old(self).wf(),
        ensures
            final(self).wf(),
            final(self).chars@ == old(self).chars@,
            final(self).index == ident_end(old(self).chars@, old(self).index as int),
    {
        while self.index < self.chars.len() && is_ident_continue(self.chars[self.index])
            invariant
                self.wf(),
                self.chars@ == old(self).chars@,
                old(self).index <= self.index,
                ident_end(self.chars@, old(self).index as int) == ident_end(
                    self.chars@,
                    self.index as int,
                ),
            decreases self.chars@.len() - self.index,
        {
            self.bump();
        }
    }

    fn consume_digits(&mut self)
        requires
            old(self).wf(),
        ensures
            final(self).wf(),
            final(self).chars@ == old(self).chars@,
            final(self).index == digits_end(old(self).chars@, old(self).index as int),
    {
        while self.index < self.chars.len() && digit(self.chars[self.index])
            invariant
                self.wf(),
                self.chars@ == old(self).chars@,
                old(self).index <= self.index,
                digits_end(self.chars@, old(self).index as int) == digits_end(
                    self.chars@,
                    self.index as int,
                ),
            decreases self.chars@.len() - self.index,
        {
            self.bump();
        }
    }

    fn skip_comment(&mut self)
        requires
            old(self).wf(),
        ensures
            final(self).wf(),
            final(self).chars@ == old(self).chars@,
            final(self).index == line_end(old(self).chars@, old(self).index as int),
    {
        while self.index < self.chars.len() && self.chars[self.index] != '\n'
            invariant
                self.wf(),
                self.chars@ == old(self).chars@,
                old(self).index <= self.index,
                line_end(self.chars@, old(self).index as int) == line_end(
                    self.chars@,
                    self.index as int,
                ),
            decreases self.chars@.len() - self.index,
        {
            self.bump();
        }
    }
}

fn push_token(
    tokens: &mut Vec<Token>,
    source_file: &SourceFile<'_>,
    kind: TokenKind,
    range: TextRange,
    start_index: Ghost<int>,
)
    requires
        source_file.wf(),
        0 <= start_index@ <= source_file.text().len(),
        byte_offset(source_file.text(), start_index@) == range.start,
    ensures
        final(tokens)@.len() == old(tokens)@.len() + 1,
        forall|j: int| 0 <= j < old(tokens)@.len() ==> final(tokens)@[j] == old(tokens)@[j],
        final(tokens)@.last().kind == kind,
        final(tokens)@.last().range == range,
        final(tokens)@.last().span.range == range,
        final(tokens)@.last().span.line == spec_line(source_file.text(), start_index@),
        final(tokens)@.last().span.column == spec_column(source_file.text(), start_index@),
{
    let span = span_at(source_file, range, start_index);
    tokens.push(Token { span, kind, range });
}

fn span_at(source_file: &SourceFile<'_>, range: TextRange, start_index: Ghost<int>) -> (r: Span)
    requires
        source_file.wf(),
        0 <= start_index@ <= source_file.text().len(),
        byte_offset(source_file.text(), start_index@) == range.start,
    ensures
        r.range == range,
        r.line == spec_line(source_file.text(), start_index@),
        r.column == spec_column(source_file.text(), start_index@),
{
    proof {
        let s = source_file.text();
        crate::text::lemma_byte_offset_mono(s, start_index@, s.len() as int);
        assert(s.take(s.len() as int) =~= s);
    }
    Span::from_range(source_file, range)
}

/// Appends the diagnostic `message` for `range`.
fn push_error(
    diagnostics: &mut Diagnostics,
    source_file: &SourceFile<'_>,
    message: String,
    range: TextRange,
    start_index: Ghost<int>,
)
    requires
        source_file.wf(),
        0 <= start_index@ <= source_file.text().len(),
        byte_offset(source_file.text(), start_index@) == range.start,
    ensures
        final(diagnostics).0@.len() == old(diagnostics).0@.len() + 1,
        forall|j: int|
            0 <= j < old(diagnostics).0@.len() ==> final(diagnostics).0@[j] == old(
                diagnostics,
            ).0@[j],
        final(diagnostics).0@.last().message@ == message@,
        final(diagnostics).0@.last().span.range == range,
        final(diagnostics).0@.last().span.line == spec_line(source_file.text(), start_index@),
        final(diagnostics).0@.last().span.column == spec_column(source_file.text(), start_index@),
{
    let span = span_at(source_file, range, start_index);
    diagnostics.push(Diagnostic::new(message, span));
}

/// The keyword or identifier for `cs[start..end]`.
fn word_token(cs: &Vec<char>, start: usize, end: usize) -> (r: TokenKind)
    requires
        start <= end <= cs@.len(),
    ensures
        kind_view(r) == word_kind(cs@.subrange(start as int, end as int)),
{
    let s = cs.as_slice();
    if range_is(s, start, end, "fn") {
        TokenKindOf::Fn
    } else if range_is(s, start, end, "let") {
        TokenKindOf::Let
    } else if range_is(s, start, end, "return") {
        TokenKindOf::Return
    } else if range_is(s, start, end, "end") {
        TokenKindOf::End
    } else if range_is(s, start, end, "if") {
        TokenKindOf::If
    } else if range_is(s, start, end, "else") {
        TokenKindOf::Else
    } else if range_is(s, start, end, "while") {
        TokenKindOf::While
    } else if range_is(s, start, end, "for") {
        TokenKindOf::For
    } else if range_is(s, start, end, "in") {
        TokenKindOf::In
    } else if range_is(s, start, end, "break") {
        TokenKindOf::Break
    } else if range_is(s, start, end, "continue") {
        TokenKindOf::Continue
    } else if range_is(s, start, end, "mc") {
        TokenKindOf::Mc
    } else if range_is(s, start, end, "mcf") {
        TokenKindOf::Mcf
    } else if range_is(s, start, end, "true") {
        TokenKindOf::True
    } else if range_is(s, start, end, "false") {
        TokenKindOf::False
    } else if range_is(s, start, end, "and") {
        TokenKindOf::And
    } else if range_is(s, start, end, "or") {
        TokenKindOf::Or
    } else if range_is(s, start, end, "not") {
        TokenKindOf::Not
    } else {
        TokenKindOf::Identifier(string_from_chars(s, start, end))
    }
}

/// Value of the integer literal `cs[start..end]` (0 when it overflows `i64`).
fn literal(cs: &Vec<char>, start: usize, end: usize) -> (r: i64)
    requires
        start <= end <= cs@.len(),
        forall|k: int| start <= k < end ==> is_ascii_digit(#[trigger] cs@[k]),
    ensures
        r == literal_value(cs@.subrange(start as int, end as int)),
{
    let mut value: u64 = 0;
    let mut overflow = false;
    let mut i: usize = start;
    while i < end
        invariant
            start <= i <= end <= cs@.len(),
            forall|k: int| start <= k < end ==> is_ascii_digit(#[trigger] cs@[k]),
            !overflow ==> value as nat == digits_value(cs@.subrange(start as int, i as int)),
            !overflow ==> value <= i64::MAX,
            overflow ==> digits_value(cs@.subrange(start as int, i as int)) > i64::MAX,
        decreases end - i,
    {
        let ghost prev = cs@.subrange(start as int, i as int);
        assert(cs@.subrange(start as int, i + 1).drop_last() =~= prev);
        let d = (cs[i] as u32 - 48) as u64;
        assert(is_ascii_digit(cs@[i as int]));
        if !overflow {
            if value > (9223372036854775807u64 - d) / 10 {
                overflow = true;
                assert(digits_value(cs@.subrange(start as int, i + 1)) == value * 10 + d);
            } else {
                value = value * 10 + d;
            }
        } else {
            assert(digits_value(cs@.subrange(start as int, i + 1)) >= digits_value(prev));
        }
        i = i + 1;
    }
    if overflow {
        0
    } else {
        value as i64
    }
}

fn unescape_char(c: char) -> (r: char)
    ensures
        r == unescape(c),
{
    if c == 'n' {
        '\n'
    } else if c == 't' {
        '\t'
    } else {
        c
    }
}

/// Lexes `source` into tokens, reporting every malformed token.
///
/// On success the tokens are those `lex_from` describes followed by `Eof`;
/// when any error was found, all errors are returned in order instead.
pub fn lex(source: &str) -> (r: Result<Vec<Token>, Diagnostics>)
    requires
        byte_len(source@) <= usize::MAX,
    ensures
        lexed_errors(source@).len() == 0 ==> (r matches Ok(ts) && tokens_match(
            source@,
            ts@,
            lexed_tokens(source@),
        )),
        lexed_errors(source@).len() != 0 ==> (r matches Err(ds) && errors_match(
            source@,
            ds.0@,
            lexed_errors(source@),
        )),
{
    let source_file = SourceFile::new(source);
    let chars = chars_of(source);
    let ghost cs = chars@;
    let mut cursor = Cursor::new(chars);
    let mut diagnostics = Diagnostics::new();
    let mut tokens: Vec<Token> = Vec::new();
    let ghost mut done_tokens: Seq<SpecToken> = Seq::empty();
    let ghost mut done_errors: Seq<SpecError> = Seq::empty();
    while cursor.index < cursor.chars.len()
        invariant
            cursor.wf(),
            cursor.chars@ == cs,
            cs == source@,
            source_file.wf(),
            source_file.text() == cs,
            done_tokens + lex_from(cs, cursor.index as int).0 == lex_from(cs, 0).0,
            done_errors + lex_from(cs, cursor.index as int).1 == lex_from(cs, 0).1,
            tokens_match(cs, tokens@, done_tokens),
            errors_match(cs, diagnostics.0@, done_errors),
        decreases cs.len() - cursor.index,
    {
        let ghost i = cursor.index as int;
        let ghost step = scan(cs, i);
        proof {
            lemma_scan_advances(cs, i);
        }
        let ch = cursor.chars[cursor.index];
        let start = cursor.position();
        let ghost tokens_before = tokens@;
        let ghost errors_before = diagnostics.0@;
        if ch == ' ' || ch == '\t' || ch == '\r' {
            cursor.bump();
        } else if ch == '#' {
            cursor.skip_comment();
        } else {
            let mut kind: Option<TokenKind> = None;
            let mut message: Option<String> = None;
            if ch == '\n' {
                cursor.bump();
                kind = Some(TokenKindOf::Newline);
            } else if ch == '(' {
                cursor.bump();
                kind = Some(TokenKindOf::LeftParen);
            } else if ch == ')' {
                cursor.bump();
                kind = Some(TokenKindOf::RightParen);
            } else if ch == '[' {
                cursor.bump();
                kind = Some(TokenKindOf::LeftBracket);
            } else if ch == ']' {
                cursor.bump();
                kind = Some(TokenKindOf::RightBracket);
            } else if ch == ':' {
                cursor.bump();
                kind = Some(TokenKindOf::Colon);
            } else if ch == ',' {
                cursor.bump();
                kind = Some(TokenKindOf::Comma);
            } else if ch == '+' {
                cursor.bump();
                kind = Some(TokenKindOf::Plus);
            } else if ch == '*' {
                cursor.bump();
                kind = Some(TokenKindOf::Star);
            } else if ch == '/' {
                cursor.bump();
                kind = Some(TokenKindOf::Slash);
            } else if ch == '.' {
                cursor.bump();
                if cursor.peek() == Some('.') {
                    cursor.bump();
                    if cursor.peek() == Some('=') {
                        cursor.bump();
                        kind = Some(TokenKindOf::DotDotEq);
                    } else {
                        kind = Some(TokenKindOf::DotDot);
                    }
                } else {
                    kind = Some(TokenKindOf::Dot);
                }
            } else if ch == '-' {
                cursor.bump();
                if cursor.peek() == Some('>') {
                    cursor.bump();
                    kind = Some(TokenKindOf::Arrow);
                } else {
                    kind = Some(TokenKindOf::Minus);
                }
            } else if ch == '=' {
                cursor.bump();
                if cursor.peek() == Some('=') {
                    cursor.bump();
                    kind = Some(TokenKindOf::EqEq);
                } else {
                    kind = Some(TokenKindOf::Assign);
                }
            } else if ch == '!' {
                cursor.bump();
                if cursor.peek() == Some('=') {
                    cursor.bump();
                    kind = Some(TokenKindOf::BangEq);
                } else {
                    message = Some(string_of("unexpected '!'"));
                }
            } else if ch == '<' {
                cursor.bump();
                if cursor.peek() == Some('=') {
                    cursor.bump();
                    kind = Some(TokenKindOf::Lte);
                } else {
                    kind = Some(TokenKindOf::Lt);
                }
            } else if ch == '>' {
                cursor.bump();
                if cursor.peek() == Some('=') {
                    cursor.bump();
                    kind = Some(TokenKindOf::Gte);
                } else {
                    kind = Some(TokenKindOf::Gt);
                }
            } else if ch == '"' || ch == '\'' {
                let delimiter = ch;
                cursor.bump();
                let mut value = String::new();
                let mut terminated = false;
                let ghost j0 = cursor.index as int;
                while cursor.index < cursor.chars.len()
                    invariant_except_break
                        cursor.wf(),
                        cursor.chars@ == cs,
                        !terminated,
                        j0 <= cursor.index,
                        scan_string(cs, cursor.index as int, delimiter, value@) == scan_string(
                            cs,
                            j0,
                            delimiter,
                            Seq::empty(),
                        ),
                    ensures
                        cursor.wf(),
                        cursor.chars@ == cs,
                        scan_string(cs, j0, delimiter, Seq::empty()) == (
                            terminated,
                            value@,
                            cursor.index as int,
                        ),
                    decreases cs.len() - cursor.index,
                {
                    let next = cursor.chars[cursor.index];
                    if next == delimiter {
                        cursor.bump();
                        terminated = true;
                        break;
                    } else if next == '\\' {
                        cursor.bump();
                        if cursor.index < cursor.chars.len() {
                            let escaped = cursor.chars[cursor.index];
                            cursor.bump();
                            push_char(&mut value, unescape_char(escaped));
                        } else {
                            break;
                        }
                    } else {
                        cursor.bump();
                        push_char(&mut value, next);
                    }
                }
                if terminated {
                    kind = Some(TokenKindOf::String(value));
                } else {
                    message = Some(string_of("unterminated string literal"));
                }
            } else if ch == '@' {
                cursor.bump();
                let ident_start = cursor.index;
                cursor.consume_ident();
                let ident_end_index = cursor.index;
                if range_is(cursor.chars.as_slice(), ident_start, ident_end_index, "book") {
                    kind = Some(TokenKindOf::BookAnnotation);
                } else {
                    let mut m = string_of("unknown annotation '@");
                    push_chars(&mut m, cursor.chars.as_slice(), ident_start, ident_end_index);
                    push_str(&mut m, "'");
                    assert(m@ =~= "unknown annotation '@"@ + cs.subrange(
                        ident_start as int,
                        ident_end_index as int,
                    ) + "'"@);
                    message = Some(m);
                }
            } else if digit(ch) {
                let digits_start = cursor.index;
                cursor.consume_digits();
                proof {
                    lemma_digits_end(cs, digits_start as int);
                }
                kind = Some(
                    TokenKindOf::Integer(literal(&cursor.chars, digits_start, cursor.index)),
                );
            } else if is_ident_start(ch) {
                let word_start = cursor.index;
                cursor.consume_ident();
                kind = Some(word_token(&cursor.chars, word_start, cursor.index));
            } else {
                cursor.bump();
                let mut m = string_of("unexpected character '");
                push_char(&mut m, ch);
                push_str(&mut m, "'");
                assert(m@ =~= "unexpected character '"@ + seq![ch] + "'"@);
                message = Some(m);
            }
            proof {
                reveal_strlit("unexpected '!'");
                reveal_strlit("unterminated string literal");
                reveal_strlit("unknown annotation '@");
                reveal_strlit("unexpected character '");
                reveal_strlit("'");
            }
            let range = TextRange::new(start, cursor.position());
            match kind {
                Some(k) => {
                    push_token(&mut tokens, &source_file, k, range, Ghost(i));
                    proof {
                        done_tokens = done_tokens.push(
                            SpecToken { kind: kind_view(k), start: i, end: cursor.index as int },
                        );
                    }
                },
                None => {
                    match message {
                        Some(m) => {
                            push_error(&mut diagnostics, &source_file, m, range, Ghost(i));
                            proof {
                                done_errors = done_errors.push(
                                    SpecError { message: m@, start: i, end: cursor.index as int },
                                );
                            }
                        },
                        None => {},
                    }
                },
            }
        }
        proof {
            assert(cursor.index as int == scan_next(step));
            let rest = lex_from(cs, cursor.index as int);
            assert(lex_from(cs, i) == match step {
                Scan::Skip { .. } => rest,
                Scan::Token { kind, next } => (
                    seq![SpecToken { kind, start: i, end: next }] + rest.0,
                    rest.1,
                ),
                Scan::Error { message, next } => (
                    rest.0,
                    seq![SpecError { message, start: i, end: next }] + rest.1,
                ),
            });
            match step {
                Scan::Skip { .. } => {
                    assert(tokens@ == tokens_before);
                },
                Scan::Token { kind, next } => {
                    assert(seq![SpecToken { kind, start: i, end: next }] + rest.0 =~= seq![
                        SpecToken { kind, start: i, end: next },
                    ].add(rest.0));
                    assert(done_tokens.last() == SpecToken { kind, start: i, end: next });
                    assert(done_tokens.drop_last() + (seq![
                        SpecToken { kind, start: i, end: next },
                    ] + rest.0) =~= done_tokens + rest.0);
                },
                Scan::Error { message, next } => {
                    assert(done_errors.last() == SpecError { message, start: i, end: next });
                    assert(done_errors.drop_last() + (seq![
                        SpecError { message, start: i, end: next },
                    ] + rest.1) =~= done_errors + rest.1);
                },
            }
        }
    }
    let end = cursor.position();
    let eof_range = TextRange::new(end, end);
    let ghost n = cs.len() as int;
    push_token(&mut tokens, &source_file, TokenKindOf::Eof, eof_range, Ghost(n));
    proof {
        assert(lex_from(cs, cursor.index as int).0 =~= Seq::<SpecToken>::empty());
        assert(lex_from(cs, cursor.index as int).1 =~= Seq::<SpecError>::empty());
        assert(done_tokens =~= lex_from(cs, 0).0);
        assert(done_errors =~= lex_from(cs, 0).1);
        assert(done_tokens.push(SpecToken { kind: TokenKindOf::Eof, start: n, end: n })
            == lexed_tokens(cs));
    }
    diagnostics.into_result(tokens)
}


proof fn lemma_ident_run(w: Seq<char>, rest: Seq<char>, j: int)
    requires
        0 <= j <= w.len(),
        forall|k: int| 0 <= k < w.len() ==> is_ident_continue_char(#[trigger] w[k]),
        rest.len() == 0 || !is_ident_continue_char(rest[0]),
    ensures
        ident_end(w + rest, j) == w.len(),
    decreases w.len() - j,
{
    let cs = w + rest;
    if j < w.len() {
        assert(cs[j] == w[j]);
        lemma_ident_run(w, rest, j + 1);
    } else if rest.len() > 0 {
        assert(cs[j] == rest[0]);
    }
}

/// A word standing at the start of a text, before anything that cannot
/// continue it, is the first token, of the kind its spelling gives.
proof fn lemma_word_first(w: Seq<char>, rest: Seq<char>)
    requires
        w.len() > 0,
        is_ascii_alpha(w[0]),
        forall|k: int| 0 <= k < w.len() ==> is_ident_continue_char(#[trigger] w[k]),
        rest.len() == 0 || !is_ident_continue_char(rest[0]),
    ensures
        lexed_tokens(w + rest)[0].kind == word_kind(w),
        rest.len() == 0 ==> lexed_tokens(w) == seq![
            SpecToken { kind: word_kind(w), start: 0, end: w.len() as int },
            SpecToken { kind: SpecKind::Eof, start: w.len() as int, end: w.len() as int },
        ],
{
    let cs = w + rest;
    assert(cs[0] == w[0]);
    lemma_ident_run(w, rest, 0);
    assert(cs.subrange(0, w.len() as int) =~= w);
    assert(simple_kind(cs[0]) is None);
    assert(scan(cs, 0) == Scan::Token { kind: word_kind(w), next: w.len() as int });
    if rest.len() == 0 {
        assert(cs =~= w);
        assert(lex_from(cs, w.len() as int).0 =~= Seq::<SpecToken>::empty());
        assert(lexed_tokens(w) =~= seq![
            SpecToken { kind: word_kind(w), start: 0, end: w.len() as int },
            SpecToken { kind: SpecKind::Eof, start: w.len() as int, end: w.len() as int },
        ]);
    }
}

/// Every reserved word of the language lexes to its own keyword token
/// when it stands at the start of the text, whatever follows that cannot
/// continue the word; alone it gives that keyword and then `Eof`.
pub proof fn law_reserved_words_lex_as_keywords(rest: Seq<char>)
    requires
        rest.len() == 0 || !is_ident_continue_char(rest[0]),
    ensures
        lexed_tokens("fn"@ + rest)[0].kind == SpecKind::Fn,
        lexed_tokens("let"@ + rest)[0].kind == SpecKind::Let,
        lexed_tokens("return"@ + rest)[0].kind == SpecKind::Return,
        lexed_tokens("end"@ + rest)[0].kind == SpecKind::End,
        lexed_tokens("if"@ + rest)[0].kind == SpecKind::If,
        lexed_tokens("else"@ + rest)[0].kind == SpecKind::Else,
        lexed_tokens("while"@ + rest)[0].kind == SpecKind::While,
        lexed_tokens("for"@ + rest)[0].kind == SpecKind::For,
        lexed_tokens("in"@ + rest)[0].kind == SpecKind::In,
        lexed_tokens("break"@ + rest)[0].kind == SpecKind::Break,
        lexed_tokens("continue"@ + rest)[0].kind == SpecKind::Continue,
        lexed_tokens("mc"@ + rest)[0].kind == SpecKind::Mc,
        lexed_tokens("mcf"@ + rest)[0].kind == SpecKind::Mcf,
        lexed_tokens("true"@ + rest)[0].kind == SpecKind::True,
        lexed_tokens("false"@ + rest)[0].kind == SpecKind::False,
        lexed_tokens("and"@ + rest)[0].kind == SpecKind::And,
        lexed_tokens("or"@ + rest)[0].kind == SpecKind::Or,
        lexed_tokens("not"@ + rest)[0].kind == SpecKind::Not,
        lexed_tokens("while"@) == seq![
            SpecToken { kind: SpecKind::While, start: 0, end: 5 },
            SpecToken { kind: SpecKind::Eof, start: 5, end: 5 },
        ],
{
    reveal_strlit("fn");
    reveal_strlit("let");
    reveal_strlit("return");
    reveal_strlit("end");
    reveal_strlit("if");
    reveal_strlit("else");
    reveal_strlit("while");
    reveal_strlit("for");
    reveal_strlit("in");
    reveal_strlit("break");
    reveal_strlit("continue");
    reveal_strlit("mc");
    reveal_strlit("mcf");
    reveal_strlit("true");
    reveal_strlit("false");
    reveal_strlit("and");
    reveal_strlit("or");
    reveal_strlit("not");
    lemma_word_first("fn"@, rest);
    lemma_word_first("let"@, rest);
    lemma_word_first("return"@, rest);
    lemma_word_first("end"@, rest);
    lemma_word_first("if"@, rest);
    lemma_word_first("else"@, rest);
    lemma_word_first("while"@, rest);
    lemma_word_first("for"@, rest);
    lemma_word_first("in"@, rest);
    lemma_word_first("break"@, rest);
    lemma_word_first("continue"@, rest);
    lemma_word_first("mc"@, rest);
    lemma_word_first("mcf"@, rest);
    lemma_word_first("true"@, rest);
    lemma_word_first("false"@, rest);
    lemma_word_first("and"@, rest);
    lemma_word_first("or"@, rest);
    lemma_word_first("not"@, rest);
    lemma_word_first("while"@, Seq::empty());
    assert("while"@ + Seq::<char>::empty() =~= "while"@);
}

/// A word reads as an identifier only when it is not a reserved word, and
/// then as itself.
pub proof fn law_identifiers_are_not_reserved(w: Seq<char>)
    ensures
        word_kind(w) matches TokenKindOf::Identifier(x) ==> x == w && w != "fn"@ && w != "let"@ && w != "return"@ && w != "end"@ && w != "if"@ && w != "else"@ && w != "while"@ && w != "for"@ && w != "in"@ && w != "break"@ && w != "continue"@ && w != "mc"@ && w != "mcf"@ && w != "true"@ && w != "false"@ && w != "and"@ && w != "or"@ && w != "not"@,
{
}

} // verus!
