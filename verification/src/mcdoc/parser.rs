//! The `.mcdoc` parser: definitions of structs, type aliases, enums and
//! dispatches read from a file's tokens into the parsed repository.
use vstd::prelude::*;

use crate::mcdoc::{
    kind_model, tokens_model, Lexer, Metadata, Token, TokenKind, TokenModel, Version,
};
use crate::mcdoc::grammar::tok;
use crate::text::{chars_of, push_char, push_str, string_of};

verus! {

broadcast use vstd::string::group_string_axioms;

/// The module a definition was read in and the imports in force there.
#[derive(Debug)]
pub struct DefinitionContext {
    pub module: String,
    pub uses: Vec<(String, String)>,
}

/// A named definition.
#[derive(Debug)]
pub struct SymbolDef {
    pub meta: Metadata,
    pub context: DefinitionContext,
    pub kind: SymbolKind,
}

/// What a named definition is.
#[derive(Debug)]
pub enum SymbolKind {
    Struct(StructDef),
    Alias(TypeExpr),
    Enum { underlying: String },
}

/// One `dispatch` of a type to a key of a dispatcher.
#[derive(Debug)]
pub struct DispatchDef {
    pub meta: Metadata,
    pub context: DefinitionContext,
    pub target: TypeExpr,
}

/// A struct body.
#[derive(Debug)]
pub struct StructDef {
    pub name: Option<String>,
    pub entries: Vec<StructEntry>,
}

/// An entry of a struct body.
#[derive(Debug)]
pub enum StructEntry {
    Field { meta: Metadata, name: String, ty: TypeExpr },
    Spread { meta: Metadata, ty: TypeExpr },
    Dynamic { meta: Metadata, value_ty: TypeExpr },
}

/// A type expression.
#[derive(Debug)]
pub enum TypeExpr {
    Primitive(String),
    Struct(StructDef),
    Reference(String),
    DispatchRef(DispatchRef),
    List(Box<TypeExpr>),
    Union(Vec<UnionVariant>),
    Enum(String),
    Unknown,
}

/// `dispatcher[key, ...]`.
#[derive(Debug)]
pub struct DispatchRef {
    pub dispatcher: String,
    pub key: DispatchRefKey,
}

/// The keys of a dispatch reference.
#[derive(Debug)]
pub enum DispatchRefKey {
    Literal(Vec<String>),
    Dynamic,
}

/// One alternative of a union.
#[derive(Debug)]
pub struct UnionVariant {
    pub meta: Metadata,
    pub ty: TypeExpr,
}

/// Everything read from the repository's files: the named definitions by
/// path, the dispatch definitions, and for each dispatcher and key (each
/// pair kept once) the indices of its definitions in the order read.
#[derive(Debug)]
pub struct ParsedRepo {
    pub symbols: Vec<(String, SymbolDef)>,
    pub dispatch_defs: Vec<DispatchDef>,
    pub dispatches: Vec<(String, String, Vec<usize>)>,
}

/// The paths of the named definitions.
pub open spec fn symbol_keys(repo: &ParsedRepo) -> Seq<Seq<char>> {
    repo.symbols@.map_values(|e: (String, SymbolDef)| e.0@)
}

/// The (dispatcher, key) pairs of the dispatches.
pub open spec fn dispatch_keys(repo: &ParsedRepo) -> Seq<(Seq<char>, Seq<char>)> {
    repo.dispatches@.map_values(|e: (String, String, Vec<usize>)| (e.0@, e.1@))
}

/// The repository index of the definition at `s`, from `i` on.
pub open spec fn symbol_index(p: ParsedRepo, s: Seq<char>, i: int) -> Option<int>
    decreases p.symbols@.len() - i,
{
    if i < 0 || i >= p.symbols@.len() {
        None
    } else if p.symbols@[i].0@ == s {
        Some(i)
    } else {
        symbol_index(p, s, i + 1)
    }
}

pub proof fn lemma_symbol_index(p: ParsedRepo, s: Seq<char>, i: int)
    requires
        0 <= i,
    ensures
        symbol_index(p, s, i) matches Some(j) ==> i <= j < p.symbols@.len() && p.symbols@[j].0@ == s
            && symbol_keys(&p).contains(s) && forall|m: int| i <= m < j ==> p.symbols@[m].0@ != s,
        symbol_index(p, s, i) is None ==> forall|j: int|
            i <= j < p.symbols@.len() ==> p.symbols@[j].0@ != s,
    decreases p.symbols@.len() - i,
{
    if i < p.symbols@.len() {
        lemma_symbol_index(p, s, i + 1);
        if p.symbols@[i].0@ == s {
            assert(symbol_keys(&p)[i] == s);
        }
    }
}

/// What a named definition is, as plain values.
pub enum KindM {
    Struct(crate::mcdoc::grammar::StructModel),
    Alias(crate::mcdoc::grammar::TypeModel),
    Enum(Seq<char>),
}

/// A named definition as plain values: its metadata, the module and
/// imports it was read with, and what it is.
pub struct DefM {
    pub meta: crate::mcdoc::grammar::MetaModel,
    pub module: Seq<char>,
    pub uses: Seq<(Seq<char>, Seq<char>)>,
    pub kind: KindM,
}

pub open spec fn kind_m(k: SymbolKind) -> KindM {
    match k {
        SymbolKind::Struct(d) => KindM::Struct(crate::mcdoc::grammar::struct_view(d)),
        SymbolKind::Alias(e) => KindM::Alias(crate::mcdoc::grammar::type_view(e)),
        SymbolKind::Enum { underlying } => KindM::Enum(underlying@),
    }
}

pub open spec fn def_m(d: SymbolDef) -> DefM {
    DefM {
        meta: crate::mcdoc::grammar::meta_model(d.meta),
        module: d.context.module@,
        uses: uses_model(d.context.uses@),
        kind: kind_m(d.kind),
    }
}

/// The definition at `k`, as plain values.
pub open spec fn def_at(repo: &ParsedRepo, k: Seq<char>) -> Option<DefM> {
    match symbol_index(*repo, k, 0) {
        Some(j) => Some(def_m(repo.symbols@[j].1)),
        None => None,
    }
}

/// The definition paths of `b` are those of `a` and `s`, and the
/// definitions of `a` outside `s` are kept.
pub open spec fn grew(a: &ParsedRepo, b: &ParsedRepo, s: Set<Seq<char>>) -> bool {
    &&& symbol_keys(b).to_set() == symbol_keys(a).to_set() + s
    &&& forall|k: Seq<char>| !s.contains(k) ==> #[trigger] def_at(b, k) == def_at(a, k)
}

/// The dispatches kept as they were.
proof fn lemma_no_dispatch(a: &ParsedRepo, b: &ParsedRepo)
    requires
        a.dispatches@ == b.dispatches@,
    ensures
        dispatch_keys(b).to_set() == dispatch_keys(a).to_set() + Set::empty(),
{
    assert(dispatch_keys(b) =~= dispatch_keys(a));
    assert(dispatch_keys(a).to_set() + Set::empty() =~= dispatch_keys(a).to_set());
}

/// A repository grows from itself by nothing.
proof fn lemma_grew_refl(a: &ParsedRepo)
    ensures
        grew(a, a, Set::empty()),
{
    assert(symbol_keys(a).to_set() =~= symbol_keys(a).to_set() + Set::empty());
}

/// Growth by `s1` then by `s2` is growth by both.
proof fn lemma_grew_trans(
    a: &ParsedRepo,
    b: &ParsedRepo,
    c: &ParsedRepo,
    s1: Set<Seq<char>>,
    s2: Set<Seq<char>>,
)
    requires
        grew(a, b, s1),
        grew(b, c, s2),
    ensures
        grew(a, c, s1 + s2),
{
    assert(symbol_keys(c).to_set() =~= symbol_keys(a).to_set() + (s1 + s2));
    assert forall|k: Seq<char>| !(s1 + s2).contains(k) implies #[trigger] def_at(c, k) == def_at(
        a,
        k,
    ) by {
        assert(def_at(c, k) == def_at(b, k));
        assert(def_at(b, k) == def_at(a, k));
    }
}

proof fn lemma_symbol_index_none(p: ParsedRepo, s: Seq<char>, i: int)
    requires
        0 <= i <= p.symbols@.len(),
        forall|k: int| i <= k < p.symbols@.len() ==> p.symbols@[k].0@ != s,
    ensures
        symbol_index(p, s, i) is None,
    decreases p.symbols@.len() - i,
{
    if i < p.symbols@.len() {
        lemma_symbol_index_none(p, s, i + 1);
    }
}

/// Where a definition is found in `b`, when `b` holds the definitions of
/// `a` at the same places, with any changed only at `at` (and any added
/// after them) of key `path`.
proof fn lemma_def_at_after(a: ParsedRepo, b: ParsedRepo, path: Seq<char>, k: Seq<char>, at: int)
    requires
        a.symbols@.len() <= b.symbols@.len() <= a.symbols@.len() + 1,
        0 <= at < b.symbols@.len(),
        b.symbols@[at].0@ == path,
        at == a.symbols@.len() ==> b.symbols@.len() == a.symbols@.len() + 1,
        at < a.symbols@.len() ==> b.symbols@.len() == a.symbols@.len() && a.symbols@[at].0@ == path,
        forall|j: int| 0 <= j < a.symbols@.len() && j != at ==> b.symbols@[j] == a.symbols@[j],
        forall|j: int| 0 <= j < at ==> a.symbols@[j].0@ != path,
    ensures
        def_at(&b, k) == if k == path {
            Some(def_m(b.symbols@[at].1))
        } else {
            def_at(&a, k)
        },
{
    lemma_symbol_index(a, k, 0);
    if k == path {
        assert forall|j: int| 0 <= j < at implies b.symbols@[j].0@ != path by {
            assert(b.symbols@[j] == a.symbols@[j]);
        }
        lemma_symbol_index_at(b, path, 0, at);
    } else {
        match symbol_index(a, k, 0) {
            Some(j) => {
                assert(j != at);
                assert forall|m: int| 0 <= m < j implies b.symbols@[m].0@ != k by {
                    if m != at {
                        assert(b.symbols@[m] == a.symbols@[m]);
                    }
                }
                assert(b.symbols@[j] == a.symbols@[j]);
                lemma_symbol_index_at(b, k, 0, j);
            },
            None => {
                assert forall|m: int| 0 <= m < b.symbols@.len() implies b.symbols@[m].0@ != k by {
                    if m != at {
                        assert(b.symbols@[m] == a.symbols@[m]);
                    }
                }
                lemma_symbol_index_none(b, k, 0);
            },
        }
    }
}

proof fn lemma_symbol_index_at(p: ParsedRepo, s: Seq<char>, i: int, j: int)
    requires
        0 <= i <= j < p.symbols@.len(),
        p.symbols@[j].0@ == s,
        forall|k: int| i <= k < j ==> p.symbols@[k].0@ != s,
    ensures
        symbol_index(p, s, i) == Some(j),
    decreases j - i,
{
    if i < j {
        lemma_symbol_index_at(p, s, i + 1, j);
    }
}

impl ParsedRepo {
    /// Nothing is kept twice.
    pub open spec fn wf(&self) -> bool {
        &&& symbol_keys(self).no_duplicates()
        &&& dispatch_keys(self).no_duplicates()
        &&& forall|j: int, k: int|
            0 <= j < self.dispatches@.len() && 0 <= k < self.dispatches@[j].2@.len()
                ==> #[trigger] self.dispatches@[j].2@[k] < self.dispatch_defs@.len()
    }

    /// An empty repository.
    pub fn new() -> (r: Self)
        ensures
            r.wf(),
            r.symbols@.len() == 0,
            r.dispatch_defs@.len() == 0,
            r.dispatches@.len() == 0,
    {
        let r = ParsedRepo { symbols: Vec::new(), dispatch_defs: Vec::new(), dispatches: Vec::new() };
        assert(symbol_keys(&r) =~= Seq::empty());
        assert(dispatch_keys(&r) =~= Seq::empty());
        r
    }

    /// Stores `def` under `path`, in place of what was there.
    pub fn insert_symbol(&mut self, path: String, def: SymbolDef)
        requires
            old(self).wf(),
        ensures
            final(self).wf(),
            final(self).dispatches@ == old(self).dispatches@,
            final(self).dispatch_defs@ == old(self).dispatch_defs@,
            symbol_keys(final(self)).to_set() == symbol_keys(old(self)).to_set().insert(path@),
            exists|k: int|
                0 <= k < final(self).symbols@.len() && #[trigger] final(self).symbols@[k].0@ == path@
                    && final(self).symbols@[k].1 == def,
            forall|k: Seq<char>| #[trigger] def_at(final(self), k) == if k == path@ {
                Some(def_m(def))
            } else {
                def_at(old(self), k)
            },
    {
        proof {
            lemma_symbol_index(*self, path@, 0);
        }
        let ghost before = symbol_keys(self);
        let mut i: usize = 0;
        while i < self.symbols.len()
            invariant
                old(self).wf(),
                self.symbols@ == old(self).symbols@,
                self.dispatches@ == old(self).dispatches@,
                self.dispatch_defs@ == old(self).dispatch_defs@,
                before == symbol_keys(self),
                i <= self.symbols@.len(),
                forall|j: int| 0 <= j < i ==> self.symbols@[j].0@ != path@,
            decreases self.symbols@.len() - i,
        {
            if crate::text::str_eq(self.symbols[i].0.as_str(), path.as_str()) {
                let ghost a = *self;
                let (k, _) = self.symbols.remove(i);
                self.symbols.insert(i, (k, def));
                proof {
                    assert(symbol_keys(self) =~= before);
                    assert(before[i as int] == path@);
                    assert(before.contains(path@));
                    assert(before.to_set() =~= before.to_set().insert(path@));
                    assert forall|kk: Seq<char>| #[trigger] def_at(self, kk) == if kk == path@ {
                        Some(def_m(def))
                    } else {
                        def_at(old(self), kk)
                    } by {
                        lemma_def_at_after(*old(self), *self, path@, kk, i as int);
                    }
                }
                assert(self.symbols@[i as int].0@ == path@);
                return;
            }
            i = i + 1;
        }
        let ghost a = *self;
        self.symbols.push((path, def));
        proof {
            assert forall|kk: Seq<char>| #[trigger] def_at(self, kk) == if kk == path@ {
                Some(def_m(def))
            } else {
                def_at(old(self), kk)
            } by {
                lemma_def_at_after(*old(self), *self, path@, kk, a.symbols@.len() as int);
            }
            assert(symbol_keys(self) =~= before.push(path@));
            assert(!before.contains(path@)) by {
                if before.contains(path@) {
                    let j = choose|j: int| 0 <= j < before.len() && before[j] == path@;
                    assert(self.symbols@[j].0@ == path@);
                }
            }
            lemma_push_contains(before, path@);
            assert(before.push(path@).to_set() =~= before.to_set().insert(path@));
            assert(self.symbols@[self.symbols@.len() - 1].0@ == path@);
        }
    }
}

pub proof fn lemma_push_contains<A>(s: Seq<A>, v: A)
    ensures
        forall|x: A| #[trigger] s.push(v).contains(x) <==> (s.contains(x) || x == v),
{
    assert forall|x: A| #[trigger] s.push(v).contains(x) <==> (s.contains(x) || x == v) by {
        if s.push(v).contains(x) {
            let j = choose|j: int| 0 <= j < s.push(v).len() && s.push(v)[j] == x;
            if j < s.len() {
                assert(s[j] == x);
            }
        }
        if s.contains(x) {
            let j = choose|j: int| 0 <= j < s.len() && s[j] == x;
            assert(s.push(v)[j] == x);
        }
        if x == v {
            assert(s.push(v)[s.len() as int] == v);
        }
    }
}

/// A copy of a token.
fn copy_kind(k: &TokenKind) -> (r: TokenKind)
    ensures
        kind_model(r) == kind_model(*k),
{
    match k {
        TokenKind::Word(w) => TokenKind::Word(w.clone()),
        TokenKind::String(w) => TokenKind::String(w.clone()),
        TokenKind::Doc(w) => TokenKind::Doc(w.clone()),
        TokenKind::AttrStart => TokenKind::AttrStart,
        TokenKind::Spread => TokenKind::Spread,
        TokenKind::OptionalColon => TokenKind::OptionalColon,
        TokenKind::Symbol(c) => TokenKind::Symbol(*c),
    }
}

/// The parser of one file.
pub struct FileParser {
    pub path: String,
    pub tokens: Vec<Token>,
    pub index: usize,
    pub module: String,
    pub uses: Vec<(String, String)>,
    pub repo: ParsedRepo,
}

/// The token at `i`, as plain values.
pub open spec fn tok_at(p: &FileParser, i: int) -> TokenModel {
    kind_model(p.tokens@[i].kind)
}

/// The parser's state apart from its position and repository.
pub open spec fn same_source(a: &FileParser, b: &FileParser) -> bool {
    &&& a.tokens@ == b.tokens@
    &&& a.path@ == b.path@
    &&& a.module@ == b.module@
    &&& a.uses@ == b.uses@
}

impl FileParser {
    pub open spec fn wf(&self) -> bool {
        &&& self.index <= self.tokens@.len()
        &&& self.repo.wf()
    }

    /// The token at the position.
    pub fn peek(&self) -> (r: Option<&TokenKind>)
        ensures
            r == if self.index < self.tokens@.len() {
                Some(&self.tokens@[self.index as int].kind)
            } else {
                None::<&TokenKind>
            },
    {
        if self.index < self.tokens.len() {
            Some(&self.tokens[self.index].kind)
        } else {
            None
        }
    }

    /// The token after the one at the position.
    pub fn peek_next(&self) -> (r: Option<&TokenKind>)
        requires
            self.index <= self.tokens@.len(),
        ensures
            r == if self.index + 1 < self.tokens@.len() {
                Some(&self.tokens@[self.index + 1].kind)
            } else {
                None::<&TokenKind>
            },
    {
        if self.tokens.len() - self.index >= 2 {
            Some(&self.tokens[self.index + 1].kind)
        } else {
            None
        }
    }

    /// Whether the token after the one at the position is `symbol`.
    pub fn peek_next_is_symbol(&self, symbol: char) -> (r: bool)
        requires
            self.index <= self.tokens@.len(),
        ensures
            r == (self.index + 1 < self.tokens@.len() && tok_at(self, self.index + 1)
                == TokenModel::Symbol(symbol)),
    {
        match self.peek_next() {
            Some(TokenKind::Symbol(value)) => *value == symbol,
            _ => false,
        }
    }

    /// Takes the token at the position.
    pub fn next(&mut self) -> (r: Option<TokenKind>)
        requires
            old(self).wf(),
        ensures
            moved_on(final(self), old(self)),
            old(self).index < old(self).tokens@.len() ==> (r matches Some(k) && kind_model(k)
                == tok_at(old(self), old(self).index as int) && final(self).index == old(self).index
                + 1),
            old(self).index >= old(self).tokens@.len() ==> r is None && final(self).index
                == old(self).index,
    {
        if self.index < self.tokens.len() {
            let k = copy_kind(&self.tokens[self.index].kind);
            self.index = self.index + 1;
            Some(k)
        } else {
            None
        }
    }

    /// Takes the word `expected` if it is at the position.
    pub fn eat_word(&mut self, expected: &str) -> (r: bool)
        requires
            old(self).wf(),
        ensures
            moved_on(final(self), old(self)),
            r == (old(self).index < old(self).tokens@.len() && tok_at(old(self), old(self).index as int)
                == TokenModel::Word(expected@)),
            final(self).index == old(self).index + if r { 1int } else { 0int },
    {
        let hit = match self.peek() {
            Some(TokenKind::Word(word)) => crate::text::str_eq(word.as_str(), expected),
            _ => false,
        };
        if hit {
            assert(self.index < self.tokens@.len());
            let n = self.tokens.len();
            self.index = self.index + 1;
        }
        hit
    }

    /// Takes the symbol `expected` if it is at the position.
    pub fn eat_symbol(&mut self, expected: char) -> (r: bool)
        requires
            old(self).wf(),
        ensures
            moved_on(final(self), old(self)),
            r == (old(self).index < old(self).tokens@.len() && tok_at(old(self), old(self).index as int)
                == TokenModel::Symbol(expected)),
            final(self).index == old(self).index + if r { 1int } else { 0int },
    {
        let hit = match self.peek() {
            Some(TokenKind::Symbol(value)) => *value == expected,
            _ => false,
        };
        if hit {
            assert(self.index < self.tokens@.len());
            let n = self.tokens.len();
            self.index = self.index + 1;
        }
        hit
    }

    /// Takes `?:` if it is at the position.
    pub fn eat_optional_colon(&mut self) -> (r: bool)
        requires
            old(self).wf(),
        ensures
            moved_on(final(self), old(self)),
            r == (old(self).index < old(self).tokens@.len() && tok_at(old(self), old(self).index as int)
                == TokenModel::OptionalColon),
            final(self).index == old(self).index + if r { 1int } else { 0int },
    {
        let hit = match self.peek() {
            Some(TokenKind::OptionalColon) => true,
            _ => false,
        };
        if hit {
            assert(self.index < self.tokens@.len());
            let n = self.tokens.len();
            self.index = self.index + 1;
        }
        hit
    }

    /// Takes `...` if it is at the position.
    pub fn eat_spread(&mut self) -> (r: bool)
        requires
            old(self).wf(),
        ensures
            moved_on(final(self), old(self)),
            r == (old(self).index < old(self).tokens@.len() && tok_at(old(self), old(self).index as int)
                == TokenModel::Spread),
            final(self).index == old(self).index + if r { 1int } else { 0int },
    {
        let hit = match self.peek() {
            Some(TokenKind::Spread) => true,
            _ => false,
        };
        if hit {
            assert(self.index < self.tokens@.len());
            let n = self.tokens.len();
            self.index = self.index + 1;
        }
        hit
    }

    /// Takes the word `expected`, or fails.
    pub fn expect_word_exact(&mut self, expected: &str) -> (r: Result<(), String>)
        requires
            old(self).wf(),
        ensures
            moved_on(final(self), old(self)),
            r is Ok == (old(self).index < old(self).tokens@.len() && tok_at(
                old(self),
                old(self).index as int,
            ) == TokenModel::Word(expected@)),
            r is Ok ==> final(self).index == old(self).index + 1,
            r matches Err(m) ==> m@ == "expected '"@ + expected@ + "' in "@ + old(self).path@,
    {
        if self.eat_word(expected) {
            Ok(())
        } else {
            let mut m = string_of("expected '");
            push_str(&mut m, expected);
            push_str(&mut m, "' in ");
            push_str(&mut m, self.path.as_str());
            Err(m)
        }
    }

    /// Takes a word, or fails.
    pub fn expect_word(&mut self) -> (r: Result<String, String>)
        requires
            old(self).wf(),
        ensures
            moved_on(final(self), old(self)),
            match r {
                Ok(w) => old(self).index < old(self).tokens@.len() && tok_at(
                    old(self),
                    old(self).index as int,
                ) == TokenModel::Word(w@) && final(self).index == old(self).index + 1,
                Err(m) => !(old(self).index < old(self).tokens@.len() && tok_at(
                    old(self),
                    old(self).index as int,
                ) is Word) && m@ == "expected word token in "@ + old(self).path@,
            },
    {
        match self.next() {
            Some(TokenKind::Word(word)) => Ok(word),
            _ => {
                let mut m = string_of("expected word token in ");
                push_str(&mut m, self.path.as_str());
                Err(m)
            },
        }
    }

    /// Takes the symbol `expected`, or fails.
    pub fn expect_symbol(&mut self, expected: char) -> (r: Result<(), String>)
        requires
            old(self).wf(),
        ensures
            moved_on(final(self), old(self)),
            r is Ok == (old(self).index < old(self).tokens@.len() && tok_at(
                old(self),
                old(self).index as int,
            ) == TokenModel::Symbol(expected)),
            r is Ok ==> final(self).index == old(self).index + 1,
            r matches Err(m) ==> m@ == "expected symbol '"@ + seq![expected] + "' in "@ + old(
                self,
            ).path@,
    {
        if self.eat_symbol(expected) {
            Ok(())
        } else {
            let mut m = string_of("expected symbol '");
            push_char(&mut m, expected);
            push_str(&mut m, "' in ");
            push_str(&mut m, self.path.as_str());
            Err(m)
        }
    }
}


// ---- scans over the token stream ---------------------------------------------------
/// Where generic arguments end: `depth` brackets are open before `i`.
pub open spec fn generic_end(ts: Seq<TokenModel>, i: int, depth: nat) -> int
    decreases ts.len() - i,
{
    if i < 0 || i >= ts.len() {
        ts.len() as int
    } else {
        match ts[i] {
            TokenModel::Symbol('<') => generic_end(ts, i + 1, depth + 1),
            TokenModel::Symbol('>') => if depth <= 1 {
                i + 1
            } else {
                generic_end(ts, i + 1, (depth - 1) as nat)
            },
            _ => generic_end(ts, i + 1, depth),
        }
    }
}

/// Where a block opened by `open` ends, `depth` blocks being open before
/// `i`; `[` counts `#[` as an opening too. `None` when it is not closed.
pub open spec fn balanced_end(ts: Seq<TokenModel>, i: int, depth: nat, open: char, close: char) -> Option<int>
    decreases ts.len() - i,
{
    if i < 0 || i >= ts.len() {
        None
    } else {
        match ts[i] {
            TokenModel::Symbol(c) if c == open => balanced_end(ts, i + 1, depth + 1, open, close),
            TokenModel::AttrStart if open == '[' && close == ']' => balanced_end(
                ts,
                i + 1,
                depth + 1,
                open,
                close,
            ),
            TokenModel::Symbol(c) if c == close => if depth <= 1 {
                Some(i + 1)
            } else {
                balanced_end(ts, i + 1, (depth - 1) as nat, open, close)
            },
            _ => balanced_end(ts, i + 1, depth, open, close),
        }
    }
}

/// Where an attribute's brackets end, `depth` being open before `i`.
pub open spec fn bracket_end(ts: Seq<TokenModel>, i: int, depth: nat) -> Option<int>
    decreases ts.len() - i,
{
    if i < 0 || i >= ts.len() {
        None
    } else {
        match ts[i] {
            TokenModel::AttrStart => bracket_end(ts, i + 1, depth + 1),
            TokenModel::Symbol('[') => bracket_end(ts, i + 1, depth + 1),
            TokenModel::Symbol(']') => if depth <= 1 {
                Some(i + 1)
            } else {
                bracket_end(ts, i + 1, (depth - 1) as nat)
            },
            _ => bracket_end(ts, i + 1, depth),
        }
    }
}

/// The text of a token as a dispatch key spells it.
pub open spec fn token_text(t: TokenModel) -> Seq<char> {
    match t {
        TokenModel::Word(v) => v,
        TokenModel::Quoted(v) => v,
        TokenModel::Symbol(c) => seq![c],
        TokenModel::Spread => "..."@,
        TokenModel::OptionalColon => "?:"@,
        TokenModel::AttrStart => "#["@,
        TokenModel::Doc(d) => d,
    }
}

/// The text of the tokens from `i` up to the first `close`, and that
/// token's index.
pub open spec fn collect_until(ts: Seq<TokenModel>, i: int, close: char) -> Option<(Seq<char>, int)>
    decreases ts.len() - i,
{
    if i < 0 || i >= ts.len() {
        None
    } else if ts[i] == TokenModel::Symbol(close) {
        Some((Seq::empty(), i))
    } else {
        match collect_until(ts, i + 1, close) {
            Some((t, e)) => Some((token_text(ts[i]) + t, e)),
            None => None,
        }
    }
}

/// Where one `@` annotation's arguments end, `depth` brackets being open.
pub open spec fn annotation_end(ts: Seq<TokenModel>, i: int, depth: nat) -> int
    decreases ts.len() - i,
{
    if i < 0 || i >= ts.len() {
        ts.len() as int
    } else {
        match ts[i] {
            TokenModel::Symbol(c) => if c == '(' || c == '[' || c == '{' {
                annotation_end(ts, i + 1, depth + 1)
            } else if c == ')' || c == ']' || c == '}' {
                if depth == 0 {
                    i
                } else {
                    annotation_end(ts, i + 1, (depth - 1) as nat)
                }
            } else if (c == '|' || c == ',') && depth == 0 {
                i
            } else {
                annotation_end(ts, i + 1, depth)
            },
            TokenModel::Doc(_) => if depth == 0 {
                i
            } else {
                annotation_end(ts, i + 1, depth)
            },
            TokenModel::AttrStart => if depth == 0 {
                i
            } else {
                annotation_end(ts, i + 1, depth)
            },
            _ => annotation_end(ts, i + 1, depth),
        }
    }
}

pub proof fn lemma_annotation_end(ts: Seq<TokenModel>, i: int, depth: nat)
    requires
        0 <= i <= ts.len(),
    ensures
        i <= annotation_end(ts, i, depth) <= ts.len(),
    decreases ts.len() - i,
{
    if i < ts.len() {
        match ts[i] {
            TokenModel::Symbol(c) => if c == '(' || c == '[' || c == '{' {
                lemma_annotation_end(ts, i + 1, depth + 1);
            } else if c == ')' || c == ']' || c == '}' {
                if depth != 0 {
                    lemma_annotation_end(ts, i + 1, (depth - 1) as nat);
                }
            } else if !((c == '|' || c == ',') && depth == 0) {
                lemma_annotation_end(ts, i + 1, depth);
            },
            TokenModel::Doc(_) => if depth != 0 {
                lemma_annotation_end(ts, i + 1, depth);
            },
            TokenModel::AttrStart => if depth != 0 {
                lemma_annotation_end(ts, i + 1, depth);
            },
            _ => lemma_annotation_end(ts, i + 1, depth),
        }
    }
}

/// Where a run of `@` annotations starting at `i` ends.
pub open spec fn annotations_end(ts: Seq<TokenModel>, i: int) -> int
    decreases ts.len() - i,
{
    if 0 <= i < ts.len() && ts[i] == TokenModel::Symbol('@') {
        proof {
            lemma_annotation_end(ts, i + 1, 0);
        }
        annotations_end(ts, annotation_end(ts, i + 1, 0))
    } else {
        i
    }
}

/// The first index at or after `i` that is not a `,`.
pub open spec fn skip_commas(ts: Seq<TokenModel>, i: int) -> int
    decreases ts.len() - i,
{
    if 0 <= i < ts.len() && ts[i] == TokenModel::Symbol(',') {
        skip_commas(ts, i + 1)
    } else {
        i
    }
}

pub proof fn lemma_skip_commas(ts: Seq<TokenModel>, i: int)
    requires
        0 <= i <= ts.len(),
    ensures
        i <= skip_commas(ts, i) <= ts.len(),
    decreases ts.len() - i,
{
    if i < ts.len() && ts[i] == TokenModel::Symbol(',') {
        lemma_skip_commas(ts, i + 1);
    }
}

/// The keys of a dispatch definition after its `[`, and the index after its
/// `]`; `None` when the list is broken.
pub open spec fn keys_from(ts: Seq<TokenModel>, i: int) -> Option<(Seq<Seq<char>>, int)>
    decreases ts.len() - i,
{
    if i < 0 || i > ts.len() {
        None
    } else {
        proof {
            lemma_skip_commas(ts, i);
        }
        let j = skip_commas(ts, i);
        if j >= ts.len() {
            None
        } else if ts[j] == TokenModel::Symbol(']') {
            Some((Seq::empty(), j + 1))
        } else {
            let v = match ts[j] {
                TokenModel::Word(v) => Some(v),
                TokenModel::Quoted(v) => Some(v),
                _ => None,
            };
            match v {
                None => None,
                Some(v) => if j + 1 < ts.len() && ts[j + 1] == TokenModel::Symbol(',') {
                    match keys_from(ts, j + 2) {
                        Some((vs, e)) => Some((seq![v] + vs, e)),
                        None => None,
                    }
                } else if j + 1 < ts.len() && ts[j + 1] == TokenModel::Symbol(']') {
                    Some((seq![v], j + 2))
                } else {
                    None
                },
            }
        }
    }
}

/// The tokens of the parser as plain values.
pub open spec fn toks(p: &FileParser) -> Seq<TokenModel> {
    tokens_model(p.tokens@)
}

/// A parser that moved on over the same tokens and kept its repository.
pub open spec fn moved_on(a: &FileParser, b: &FileParser) -> bool {
    &&& a.wf()
    &&& same_source(a, b)
    &&& a.repo == b.repo
    &&& b.index <= a.index
}

impl FileParser {
    /// Skips generic arguments `<...>` if they stand at the position.
    pub fn skip_generic_args(&mut self)
        requires
            old(self).wf(),
        ensures
            moved_on(final(self), old(self)),
            final(self).index == if old(self).index < old(self).tokens@.len() && tok_at(
                old(self),
                old(self).index as int,
            ) == TokenModel::Symbol('<') {
                generic_end(toks(old(self)), old(self).index + 1, 1)
            } else {
                old(self).index as int
            },
    {
        if !self.eat_symbol('<') {
            return;
        }
        let start = self.index;
        let n = self.tokens.len();
        let mut depth: usize = 1;
        loop
            invariant
                moved_on(self, old(self)),
                start == old(self).index + 1,
                old(self).index < old(self).tokens@.len() && tok_at(old(self), old(self).index as int)
                    == TokenModel::Symbol('<'),
                n == self.tokens@.len(),
                1 <= start <= self.index <= self.tokens@.len(),
                1 <= depth <= self.index - start + 1,
                generic_end(toks(old(self)), start as int, 1) == generic_end(
                    toks(old(self)),
                    self.index as int,
                    depth as nat,
                ),
            decreases self.tokens@.len() - self.index,
        {
            let ghost i = self.index as int;
            match self.next() {
                None => {
                    return;
                },
                Some(TokenKind::Symbol('<')) => {
                    depth = depth + 1;
                },
                Some(TokenKind::Symbol('>')) => {
                    if depth <= 1 {
                        return;
                    }
                    depth = depth - 1;
                },
                Some(_) => {},
            }
        }
    }

    /// Skips to the end of a block whose opening `open` was taken.
    pub fn skip_balanced(&mut self, open: char, close: char) -> (r: Result<(), String>)
        requires
            old(self).wf(),
            old(self).index >= 1,
            open != close,
        ensures
            moved_on(final(self), old(self)),
            match balanced_end(toks(old(self)), old(self).index as int, 1, open, close) {
                Some(e) => r is Ok && final(self).index == e,
                None => r matches Err(m) && m@ == "unterminated balanced block in "@ + old(
                    self,
                ).path@,
            },
    {
        let start = self.index;
        let n = self.tokens.len();
        let mut depth: usize = 1;
        loop
            invariant
                moved_on(self, old(self)),
                start == old(self).index,
                1 <= start <= self.index <= self.tokens@.len(),
                n == self.tokens@.len(),
                1 <= depth <= self.index - start + 1,
                balanced_end(toks(old(self)), start as int, 1, open, close) == balanced_end(
                    toks(old(self)),
                    self.index as int,
                    depth as nat,
                    open,
                    close,
                ),
                open != close,
            decreases self.tokens@.len() - self.index,
        {
            match self.next() {
                None => {
                    let mut m = string_of("unterminated balanced block in ");
                    push_str(&mut m, self.path.as_str());
                    return Err(m);
                },
                Some(TokenKind::Symbol(ch)) => {
                    if ch == open {
                        depth = depth + 1;
                    } else if ch == close {
                        if depth <= 1 {
                            return Ok(());
                        }
                        depth = depth - 1;
                    }
                },
                Some(TokenKind::AttrStart) => {
                    if open == '[' && close == ']' {
                        depth = depth + 1;
                    }
                },
                Some(_) => {},
            }
        }
    }

    /// Takes `{` and skips the block it opens.
    pub fn skip_block(&mut self) -> (r: Result<(), String>)
        requires
            old(self).wf(),
        ensures
            moved_on(final(self), old(self)),
            r is Ok <==> (old(self).index < old(self).tokens@.len() && tok_at(
                old(self),
                old(self).index as int,
            ) == TokenModel::Symbol('{') && balanced_end(
                toks(old(self)),
                old(self).index + 1,
                1,
                '{',
                '}',
            ) is Some),
            r is Ok ==> balanced_end(toks(old(self)), old(self).index + 1, 1, '{', '}') == Some(
                final(self).index as int,
            ),
    {
        match self.expect_symbol('{') {
            Ok(()) => {},
            Err(e) => {
                return Err(e);
            },
        }
        self.skip_balanced('{', '}')
    }

    /// The text of the tokens up to `close`, which is left at the position.
    pub fn collect_until_closing(&mut self, close: char) -> (r: Result<String, String>)
        requires
            old(self).wf(),
        ensures
            moved_on(final(self), old(self)),
            match collect_until(toks(old(self)), old(self).index as int, close) {
                Some((t, e)) => r matches Ok(v) && v@ == t && final(self).index == e,
                None => r matches Err(m) && m@ == "unterminated dispatch key in "@ + old(
                    self,
                ).path@,
            },
    {
        let mut pieces = String::new();
        let start = self.index;
        loop
            invariant
                moved_on(self, old(self)),
                start == old(self).index,
                start <= self.index <= self.tokens@.len(),
                collect_until(toks(old(self)), start as int, close) == match collect_until(
                    toks(old(self)),
                    self.index as int,
                    close,
                ) {
                    Some((t, e)) => Some((pieces@ + t, e)),
                    None => None,
                },
            decreases self.tokens@.len() - self.index,
        {
            let ghost i = self.index as int;
            proof {
                reveal_strlit("...");
                reveal_strlit("?:");
                reveal_strlit("#[");
            }
            let token = match self.next() {
                None => {
                    let mut m = string_of("unterminated dispatch key in ");
                    push_str(&mut m, self.path.as_str());
                    return Err(m);
                },
                Some(t) => t,
            };
            let ghost before = pieces@;
            match token {
                TokenKind::Symbol(ch) => {
                    if ch == close {
                        self.index = self.index - 1;
                        assert(pieces@ + Seq::<char>::empty() =~= pieces@);
                        return Ok(pieces);
                    }
                    push_char(&mut pieces, ch);
                },
                TokenKind::Word(value) => push_str(&mut pieces, value.as_str()),
                TokenKind::String(value) => push_str(&mut pieces, value.as_str()),
                TokenKind::Spread => push_str(&mut pieces, "..."),
                TokenKind::OptionalColon => push_str(&mut pieces, "?:"),
                TokenKind::AttrStart => push_str(&mut pieces, "#["),
                TokenKind::Doc(doc) => push_str(&mut pieces, doc.as_str()),
            }
            proof {
                let ts = toks(old(self));
                assert(ts[i] == tok_at(old(self), i));
                assert(pieces@ == before + token_text(ts[i]));
                match collect_until(ts, i + 1, close) {
                    Some((t, e)) => {
                        assert(before + (token_text(ts[i]) + t) =~= pieces@ + t);
                    },
                    None => {},
                }
            }
        }
    }

    /// Skips to the `]` closing an attribute whose `#[` was taken.
    pub fn skip_until_matching_bracket(&mut self) -> (r: Result<(), String>)
        requires
            old(self).wf(),
            old(self).index >= 1,
        ensures
            moved_on(final(self), old(self)),
            match bracket_end(toks(old(self)), old(self).index as int, 1) {
                Some(e) => r is Ok && final(self).index == e,
                None => r matches Err(m) && m@ == "unterminated attribute in "@ + old(self).path@,
            },
    {
        let start = self.index;
        let n = self.tokens.len();
        let mut depth: usize = 1;
        loop
            invariant
                moved_on(self, old(self)),
                start == old(self).index,
                1 <= start <= self.index <= self.tokens@.len(),
                n == self.tokens@.len(),
                1 <= depth <= self.index - start + 1,
                bracket_end(toks(old(self)), start as int, 1) == bracket_end(
                    toks(old(self)),
                    self.index as int,
                    depth as nat,
                ),
            decreases self.tokens@.len() - self.index,
        {
            match self.next() {
                None => {
                    let mut m = string_of("unterminated attribute in ");
                    push_str(&mut m, self.path.as_str());
                    return Err(m);
                },
                Some(TokenKind::AttrStart) => {
                    depth = depth + 1;
                },
                Some(TokenKind::Symbol('[')) => {
                    depth = depth + 1;
                },
                Some(TokenKind::Symbol(']')) => {
                    if depth <= 1 {
                        return Ok(());
                    }
                    depth = depth - 1;
                },
                Some(_) => {},
            }
        }
    }
}


// ---- names --------------------------------------------------------------------------
/// Imports as plain values.
pub open spec fn uses_model(u: Seq<(String, String)>) -> Seq<(Seq<char>, Seq<char>)> {
    u.map_values(|e: (String, String)| (e.0@, e.1@))
}

/// What the first import of `k` names.
pub open spec fn uses_get(uses: Seq<(Seq<char>, Seq<char>)>, k: Seq<char>) -> Option<Seq<char>>
    decreases uses.len(),
{
    if uses.len() == 0 {
        None
    } else if uses[0].0 == k {
        Some(uses[0].1)
    } else {
        uses_get(uses.drop_first(), k)
    }
}

/// How many `super::` lead `raw`, and what follows them.
pub open spec fn strip_supers(raw: Seq<char>) -> (nat, Seq<char>)
    decreases raw.len(),
{
    if crate::mcdoc::at(raw, 0, "super::"@) {
        proof {
            reveal_strlit("super::");
        }
        let (k, r) = strip_supers(raw.skip(7));
        (k + 1, r)
    } else {
        (0, raw)
    }
}

/// The absolute path a name written in `module` with imports `uses` stands
/// for: absolute names as they are, `super::` climbing out of the module,
/// imported names and the heads of imported paths replaced, and the others
/// taken as local to the module. `in_file` marks the file parser's reading,
/// which gives a bare run of `super::` the path of the module it reaches.
pub open spec fn resolve_name(
    raw: Seq<char>,
    module: Seq<char>,
    uses: Seq<(Seq<char>, Seq<char>)>,
    in_file: bool,
) -> Seq<char> {
    if crate::mcdoc::at(raw, 0, "::"@) {
        raw
    } else if crate::mcdoc::at(raw, 0, "super::"@) {
        let (k, rem) = strip_supers(raw);
        let segs = crate::mcdoc::nonempty(crate::mcdoc::split_on(module, "::"@));
        let kept = if k <= segs.len() {
            segs.take(segs.len() - k)
        } else {
            Seq::empty()
        };
        if in_file && rem.len() == 0 {
            "::"@ + crate::text::join(kept, "::"@)
        } else if kept.len() == 0 {
            "::"@ + rem
        } else {
            "::"@ + crate::text::join(kept, "::"@) + "::"@ + rem
        }
    } else {
        match uses_get(uses, raw) {
            Some(a) => a,
            None => match crate::mcfd::handlers::find_from(raw, "::"@, 0) {
                Some(j) if 0 <= j && j + 2 <= raw.len() && uses_get(uses, raw.take(j)) is Some => {
                    uses_get(uses, raw.take(j)).unwrap() + "::"@ + raw.skip(j + 2)
                },
                _ => if module == "::"@ {
                    "::"@ + raw
                } else {
                    module + "::"@ + raw
                },
            },
        }
    }
}

/// The index of the first import of `key`.
fn lookup_use(uses: &Vec<(String, String)>, key: &str) -> (r: Option<usize>)
    ensures
        match r {
            Some(i) => i < uses@.len() && uses_get(uses_model(uses@), key@) == Some(
                uses@[i as int].1@,
            ),
            None => uses_get(uses_model(uses@), key@) is None,
        },
{
    let mut i: usize = 0;
    assert(uses_model(uses@).skip(0) =~= uses_model(uses@));
    while i < uses.len()
        invariant
            i <= uses@.len(),
            uses_get(uses_model(uses@), key@) == uses_get(uses_model(uses@).skip(i as int), key@),
        decreases uses@.len() - i,
    {
        assert(uses_model(uses@).skip(i as int).drop_first() =~= uses_model(uses@).skip(i + 1));
        if crate::text::str_eq(uses[i].0.as_str(), key) {
            return Some(i);
        }
        i = i + 1;
    }
    None
}

/// The absolute path `raw` stands for (see [`resolve_name`]).
pub fn resolve_in(raw: &str, module: &str, uses: &Vec<(String, String)>, in_file: bool) -> (r: String)
    ensures
        r@ == resolve_name(raw@, module@, uses_model(uses@), in_file),
{
    let cs = chars_of(raw);
    proof {
        reveal_strlit("::");
        reveal_strlit("super::");
    }
    if crate::text::starts_with_at(cs.as_slice(), 0, "::") {
        return string_of(raw);
    }
    let n = cs.len();
    if crate::text::starts_with_at(cs.as_slice(), 0, "super::") {
        let mut p: usize = 0;
        let mut k: usize = 0;
        assert(cs@.skip(0) =~= cs@);
        while crate::text::starts_with_at(cs.as_slice(), p, "super::")
            invariant
                cs@ == raw@,
                n == cs@.len(),
                p <= n,
                k <= p,
                strip_supers(raw@) == ((k + strip_supers(cs@.skip(p as int)).0) as nat, strip_supers(
                    cs@.skip(p as int),
                ).1),
            decreases n - p,
        {
            proof {
                reveal_strlit("super::");
                assert(cs@.skip(p as int).subrange(0, 7) =~= cs@.subrange(p as int, p + 7));
                assert(cs@.skip(p as int).skip(7) =~= cs@.skip(p + 7));
            }
            p = p + 7;
            k = k + 1;
        }
        proof {
            reveal_strlit("super::");
            if p + 7 <= n {
                assert(cs@.skip(p as int).subrange(0, 7) =~= cs@.subrange(p as int, p + 7));
            }
            assert(!crate::mcdoc::at(cs@.skip(p as int), 0, "super::"@));
        }
        let mut segs = crate::mcdoc::path_segments(module);
        let ghost all = crate::mcfd::bridge::views(segs@);
        let mut left = k;
        while left > 0 && segs.len() > 0
            invariant
                left <= k,
                all == crate::mcdoc::nonempty(crate::mcdoc::split_on(module@, "::"@)),
                k - left <= all.len(),
                crate::mcfd::bridge::views(segs@) == all.take(all.len() - (k - left)),
            decreases left,
        {
            let ghost before = segs@;
            segs.pop();
            assert(crate::mcfd::bridge::views(segs@) =~= crate::mcfd::bridge::views(before).drop_last());
            left = left - 1;
        }
        proof {
            if k <= all.len() {
                if left > 0 {
                    assert(crate::mcfd::bridge::views(segs@).len() == 0);
                    assert(all.len() - (k - left) == 0);
                }
            } else {
                assert(segs@.len() == 0);
            }
        }
        let ghost kept = crate::mcfd::bridge::views(segs@);
        assert(kept == (if k <= all.len() {
            all.take(all.len() - k)
        } else {
            Seq::empty()
        })) by {
            if k > all.len() {
                assert(kept =~= Seq::<Seq<char>>::empty());
            }
        }
        let mut out = string_of("::");
        if in_file && p == n {
            let j = crate::text::join_strings(&segs, "::");
            push_str(&mut out, j.as_str());
            assert(cs@.skip(p as int).len() == 0);
            return out;
        }
        let rem = crate::text::string_from_chars(cs.as_slice(), p, n);
        assert(rem@ =~= cs@.skip(p as int));
        if segs.len() == 0 {
            push_str(&mut out, rem.as_str());
            return out;
        }
        let j = crate::text::join_strings(&segs, "::");
        push_str(&mut out, j.as_str());
        push_str(&mut out, "::");
        push_str(&mut out, rem.as_str());
        return out;
    }
    match lookup_use(uses, raw) {
        Some(i) => {
            return uses[i].1.clone();
        },
        None => {},
    }
    let sep = chars_of("::");
    match crate::mcdoc::find_text(cs.as_slice(), sep.as_slice(), 0) {
        Some(j) => {
            let head = crate::text::string_from_chars(cs.as_slice(), 0, j);
            assert(head@ =~= raw@.take(j as int));
            match lookup_use(uses, head.as_str()) {
                Some(i) => {
                    let mut out = uses[i].1.clone();
                    push_str(&mut out, "::");
                    let tail = crate::text::string_from_chars(cs.as_slice(), j + 2, n);
                    assert(tail@ =~= raw@.skip(j + 2));
                    push_str(&mut out, tail.as_str());
                    return out;
                },
                None => {},
            }
        },
        None => {},
    }
    if crate::text::str_eq(module, "::") {
        let mut out = string_of("::");
        push_str(&mut out, raw);
        out
    } else {
        let mut out = string_of(module);
        push_str(&mut out, "::");
        push_str(&mut out, raw);
        out
    }
}


// ---- metadata ----------------------------------------------------------------------
/// Documentation lines and attributes read so far.
pub struct MetaState {
    pub docs: Seq<Seq<char>>,
    pub since: Option<Seq<u32>>,
    pub until: Option<Seq<u32>>,
    pub canonical: bool,
}

/// A version bound as plain values.
pub open spec fn version_opt(v: Option<Version>) -> Option<Seq<u32>> {
    match v {
        Some(x) => Some(x.0@),
        None => None,
    }
}

pub proof fn lemma_bracket_end(ts: Seq<TokenModel>, i: int, depth: nat)
    requires
        0 <= i,
    ensures
        bracket_end(ts, i, depth) matches Some(e) ==> i < e <= ts.len(),
    decreases ts.len() - i,
{
    if i < ts.len() {
        match ts[i] {
            TokenModel::AttrStart => lemma_bracket_end(ts, i + 1, depth + 1),
            TokenModel::Symbol('[') => lemma_bracket_end(ts, i + 1, depth + 1),
            TokenModel::Symbol(']') => if depth > 1 {
                lemma_bracket_end(ts, i + 1, (depth - 1) as nat);
            },
            _ => lemma_bracket_end(ts, i + 1, depth),
        }
    }
}

/// The word or string at `k`.
pub open spec fn value_at(ts: Seq<TokenModel>, k: int) -> Option<Seq<char>> {
    if 0 <= k < ts.len() {
        match ts[k] {
            TokenModel::Word(v) => Some(v),
            TokenModel::Quoted(v) => Some(v),
            _ => None,
        }
    } else {
        None
    }
}

/// An attribute `#[name = value]` applied to the metadata read so far.
pub open spec fn apply_attribute(st: MetaState, name: Seq<char>, value: Option<Seq<char>>) -> Result<MetaState, ()> {
    if name == "since"@ {
        match value {
            Some(v) => match crate::mcdoc::parsed_version(v) {
                Ok(ns) => Ok(MetaState { since: Some(ns), ..st }),
                Err(_) => Err(()),
            },
            None => Ok(st),
        }
    } else if name == "until"@ {
        match value {
            Some(v) => match crate::mcdoc::parsed_version(v) {
                Ok(ns) => Ok(MetaState { until: Some(ns), ..st }),
                Err(_) => Err(()),
            },
            None => Ok(st),
        }
    } else if name == "canonical"@ {
        Ok(MetaState { canonical: true, ..st })
    } else {
        Ok(st)
    }
}

/// The documentation lines and attributes before a definition, from `i`
/// on, and where they end; `Err` at a broken attribute.
pub open spec fn meta_from(ts: Seq<TokenModel>, i: int, st: MetaState) -> Result<(MetaState, int), ()>
    decreases ts.len() - i,
{
    if i < 0 || i >= ts.len() {
        Ok((st, i))
    } else {
        match ts[i] {
            TokenModel::Doc(d) => meta_from(ts, i + 1, MetaState { docs: st.docs.push(d), ..st }),
            TokenModel::AttrStart => if i + 1 < ts.len() && ts[i + 1] is Word {
                let name = ts[i + 1]->Word_0;
                let k = i + 2;
                let eq = k < ts.len() && ts[k] == TokenModel::Symbol('=');
                if eq && value_at(ts, k + 1) is None {
                    Err(())
                } else {
                    let value = if eq {
                        value_at(ts, k + 1)
                    } else {
                        None
                    };
                    let from = if eq {
                        k + 2
                    } else {
                        k
                    };
                    proof {
                        lemma_bracket_end(ts, from, 1);
                    }
                    match bracket_end(ts, from, 1) {
                        None => Err(()),
                        Some(e) => match apply_attribute(st, name, value) {
                            Err(u) => Err(u),
                            Ok(st2) => meta_from(ts, e, st2),
                        },
                    }
                }
            } else {
                Err(())
            },
            _ => Ok((st, i)),
        }
    }
}

/// Nothing read yet.
pub open spec fn no_meta() -> MetaState {
    MetaState { docs: Seq::empty(), since: None, until: None, canonical: false }
}

impl FileParser {
    /// Reads the documentation lines and attributes at the position.
    pub fn parse_metadata(&mut self) -> (r: Result<Metadata, String>)
        requires
            old(self).wf(),
        ensures
            moved_on(final(self), old(self)),
            match meta_from(toks(old(self)), old(self).index as int, no_meta()) {
                Ok((st, e)) => r matches Ok(m) && m.documentation@ == crate::text::join(
                    st.docs,
                    "\n"@,
                ) && version_opt(m.since) == st.since && version_opt(m.until) == st.until
                    && m.canonical == st.canonical && final(self).index == e,
                Err(_) => r is Err,
            },
    {
        let mut meta = Metadata::empty();
        let mut docs: Vec<String> = Vec::new();
        let ghost ts = toks(old(self));
        let ghost start = old(self).index as int;
        assert(crate::mcfd::bridge::views(docs@) =~= Seq::<Seq<char>>::empty());
        loop
            invariant
                moved_on(self, old(self)),
                ts == toks(old(self)),
                start == old(self).index,
                meta_from(ts, start, no_meta()) == meta_from(
                    ts,
                    self.index as int,
                    MetaState {
                        docs: crate::mcfd::bridge::views(docs@),
                        since: version_opt(meta.since),
                        until: version_opt(meta.until),
                        canonical: meta.canonical,
                    },
                ),
            ensures
                moved_on(self, old(self)),
                meta_from(ts, start, no_meta()) == Ok::<(MetaState, int), ()>(
                    (
                        MetaState {
                            docs: crate::mcfd::bridge::views(docs@),
                            since: version_opt(meta.since),
                            until: version_opt(meta.until),
                            canonical: meta.canonical,
                        },
                        self.index as int,
                    ),
                ),
            decreases self.tokens@.len() - self.index,
        {
            let ghost i = self.index as int;
            let ghost st = MetaState {
                docs: crate::mcfd::bridge::views(docs@),
                since: version_opt(meta.since),
                until: version_opt(meta.until),
                canonical: meta.canonical,
            };
            let is_attr = match self.peek() {
                Some(TokenKind::Doc(doc)) => {
                    let d = doc.clone();
                    let ghost before = docs@;
                    docs.push(d);
                    assert(crate::mcfd::bridge::views(docs@) =~= crate::mcfd::bridge::views(
                        before,
                    ).push(d@));
                    false
                },
                Some(TokenKind::AttrStart) => true,
                _ => {
                    break ;
                },
            };
            let n = self.tokens.len();
            self.index = self.index + 1;
            if !is_attr {
                continue;
            }
            let attribute = match self.expect_word() {
                Ok(w) => w,
                Err(e) => {
                    return Err(e);
                },
            };
            let value = if self.eat_symbol('=') {
                match self.next() {
                    Some(TokenKind::String(v)) => Some(v),
                    Some(TokenKind::Word(v)) => Some(v),
                    _ => {
                        let mut m = string_of("unexpected attribute value token in ");
                        push_str(&mut m, self.path.as_str());
                        return Err(m);
                    },
                }
            } else {
                None
            };
            let ghost from = self.index as int;
            proof {
                lemma_bracket_end(ts, from, 1);
            }
            match self.skip_until_matching_bracket() {
                Ok(()) => {},
                Err(e) => {
                    return Err(e);
                },
            }
            proof {
                reveal_strlit("since");
                reveal_strlit("until");
                reveal_strlit("canonical");
            }
            let ghost vm = match &value {
                Some(v) => Some(v@),
                None => None::<Seq<char>>,
            };
            if crate::text::str_eq(attribute.as_str(), "since") {
                match value {
                    Some(ref v) => match Version::parse(v.as_str()) {
                        Ok(ver) => {
                            meta.since = Some(ver);
                        },
                        Err(e) => {
                            return Err(e);
                        },
                    },
                    None => {},
                }
            } else if crate::text::str_eq(attribute.as_str(), "until") {
                match value {
                    Some(ref v) => match Version::parse(v.as_str()) {
                        Ok(ver) => {
                            meta.until = Some(ver);
                        },
                        Err(e) => {
                            return Err(e);
                        },
                    },
                    None => {},
                }
            } else if crate::text::str_eq(attribute.as_str(), "canonical") {
                meta.canonical = true;
            }
            proof {
                assert(apply_attribute(st, attribute@, vm) == Ok::<MetaState, ()>(MetaState {
                    docs: crate::mcfd::bridge::views(docs@),
                    since: version_opt(meta.since),
                    until: version_opt(meta.until),
                    canonical: meta.canonical,
                }));
            }
        }
        let j = crate::text::join_strings(&docs, "\n");
        meta.documentation = j;
        Ok(meta)
    }
}


/// A copy of the imports.
fn copy_uses(uses: &Vec<(String, String)>) -> (r: Vec<(String, String)>)
    ensures
        uses_model(r@) == uses_model(uses@),
{
    let mut out: Vec<(String, String)> = Vec::new();
    let mut i: usize = 0;
    while i < uses.len()
        invariant
            i <= uses@.len(),
            uses_model(out@) == uses_model(uses@.take(i as int)),
        decreases uses@.len() - i,
    {
        let ghost before = out@;
        out.push((uses[i].0.clone(), uses[i].1.clone()));
        assert(uses_model(out@) =~= uses_model(before).push((uses@[i as int].0@, uses@[i as int].1@)));
        assert(uses@.take(i + 1) =~= uses@.take(i as int).push(uses@[i as int]));
        assert(uses_model(uses@.take(i + 1)) =~= uses_model(uses@.take(i as int)).push(
            (uses@[i as int].0@, uses@[i as int].1@),
        ));
        i = i + 1;
    }
    assert(uses@.take(uses@.len() as int) =~= uses@);
    out
}

/// The path of a definition named `name` in `module`.
pub open spec fn symbol_path_of(module: Seq<char>, name: Seq<char>) -> Seq<char> {
    if module == "::"@ {
        "::"@ + name
    } else {
        module + "::"@ + name
    }
}

/// The keys of a dispatch definition at `i`: `[`, keys, `]`.
pub open spec fn dispatch_keys_at(ts: Seq<TokenModel>, i: int) -> Option<(Seq<Seq<char>>, int)> {
    if 0 <= i < ts.len() && ts[i] == TokenModel::Symbol('[') {
        keys_from(ts, i + 1)
    } else {
        None
    }
}

impl FileParser {
    /// The module and imports in force.
    pub fn context(&self) -> (r: DefinitionContext)
        ensures
            r.module@ == self.module@,
            uses_model(r.uses@) == uses_model(self.uses@),
    {
        DefinitionContext { module: self.module.clone(), uses: copy_uses(&self.uses) }
    }

    /// The path of a definition named `name` in this file's module.
    pub fn symbol_path(&self, name: &str) -> (r: String)
        ensures
            r@ == symbol_path_of(self.module@, name@),
    {
        if crate::text::str_eq(self.module.as_str(), "::") {
            let mut out = string_of("::");
            push_str(&mut out, name);
            out
        } else {
            let mut out = self.module.clone();
            push_str(&mut out, "::");
            push_str(&mut out, name);
            out
        }
    }

    /// The absolute path `raw` names in this file.
    pub fn resolve_path(&self, raw: &str) -> (r: String)
        ensures
            r@ == resolve_name(raw@, self.module@, uses_model(self.uses@), true),
    {
        resolve_in(raw, self.module.as_str(), &self.uses, true)
    }

    /// Skips `@annotation(...)` runs after a type.
    pub fn skip_annotations(&mut self) -> (r: Result<(), String>)
        requires
            old(self).wf(),
        ensures
            moved_on(final(self), old(self)),
            r is Ok,
            final(self).index == annotations_end(toks(old(self)), old(self).index as int),
    {
        let ghost ts = toks(old(self));
        let n = self.tokens.len();
        while self.eat_symbol('@')
            invariant
                moved_on(self, old(self)),
                ts == toks(old(self)),
                n == self.tokens@.len(),
                annotations_end(ts, old(self).index as int) == annotations_end(
                    ts,
                    self.index as int,
                ),
            decreases self.tokens@.len() - self.index,
        {
            let a = self.index;
            proof {
                lemma_annotation_end(ts, a as int, 0);
            }
            let mut depth: usize = 0;
            loop
                invariant
                    moved_on(self, old(self)),
                    ts == toks(old(self)),
                    n == self.tokens@.len(),
                    1 <= a <= self.index <= n,
                    depth <= self.index - a,
                    annotation_end(ts, a as int, 0) == annotation_end(
                        ts,
                        self.index as int,
                        depth as nat,
                    ),
                    annotations_end(ts, old(self).index as int) == annotations_end(
                        ts,
                        annotation_end(ts, a as int, 0),
                    ),
                ensures
                    moved_on(self, old(self)),
                    self.index == annotation_end(ts, a as int, 0),
                    a <= self.index,
                    annotations_end(ts, old(self).index as int) == annotations_end(
                        ts,
                        self.index as int,
                    ),
                decreases n - self.index,
            {
                let ghost i = self.index as int;
                let step = match self.peek() {
                    None => 0u8,
                    Some(TokenKind::Symbol(c)) => {
                        let c = *c;
                        if c == '(' || c == '[' || c == '{' {
                            1u8
                        } else if c == ')' || c == ']' || c == '}' {
                            if depth == 0 {
                                0u8
                            } else {
                                2u8
                            }
                        } else if (c == '|' || c == ',') && depth == 0 {
                            0u8
                        } else {
                            3u8
                        }
                    },
                    Some(TokenKind::Doc(_)) => if depth == 0 {
                        0u8
                    } else {
                        3u8
                    },
                    Some(TokenKind::AttrStart) => if depth == 0 {
                        0u8
                    } else {
                        3u8
                    },
                    Some(_) => 3u8,
                };
                if step == 0 {
                    break ;
                }
                if step == 1 {
                    depth = depth + 1;
                } else if step == 2 {
                    depth = depth - 1;
                }
                self.index = self.index + 1;
            }
        }
        Ok(())
    }

    /// Reads `(type)` after an `enum`.
    pub fn parse_enum_underlying(&mut self) -> (r: Result<String, String>)
        requires
            old(self).wf(),
        ensures
            moved_on(final(self), old(self)),
            r is Ok <==> (old(self).index + 2 < old(self).tokens@.len() && tok_at(
                old(self),
                old(self).index as int,
            ) == TokenModel::Symbol('(') && tok_at(old(self), old(self).index + 1) is Word
                && tok_at(old(self), old(self).index + 2) == TokenModel::Symbol(')')),
            r matches Ok(u) ==> tok_at(old(self), old(self).index + 1) == TokenModel::Word(u@)
                && final(self).index == old(self).index + 3,
    {
        match self.expect_symbol('(') {
            Ok(()) => {},
            Err(e) => {
                return Err(e);
            },
        }
        let underlying = match self.expect_word() {
            Ok(w) => w,
            Err(e) => {
                return Err(e);
            },
        };
        match self.expect_symbol(')') {
            Ok(()) => {},
            Err(e) => {
                return Err(e);
            },
        }
        Ok(underlying)
    }

    /// Reads the keys of a dispatch definition: `[key, ...]`.
    pub fn parse_dispatch_keys_definition(&mut self) -> (r: Result<Vec<String>, String>)
        requires
            old(self).wf(),
        ensures
            moved_on(final(self), old(self)),
            match dispatch_keys_at(toks(old(self)), old(self).index as int) {
                Some((ks, e)) => r matches Ok(v) && crate::mcfd::bridge::views(v@) == ks
                    && final(self).index == e,
                None => r is Err,
            },
    {
        let ghost ts = toks(old(self));
        match self.expect_symbol('[') {
            Ok(()) => {},
            Err(e) => {
                return Err(e);
            },
        }
        let ghost start = self.index as int;
        let mut keys: Vec<String> = Vec::new();
        assert(crate::mcfd::bridge::views(keys@) =~= Seq::<Seq<char>>::empty());
        loop
            invariant
                moved_on(self, old(self)),
                ts == toks(old(self)),
                1 <= start <= self.index <= self.tokens@.len(),
                dispatch_keys_at(ts, old(self).index as int) == keys_from(ts, start),
                keys_from(ts, start) == match keys_from(ts, self.index as int) {
                    Some((vs, e)) => Some((crate::mcfd::bridge::views(keys@) + vs, e)),
                    None => None,
                },
            decreases self.tokens@.len() - self.index,
        {
            let ghost k = self.index as int;
            proof {
                lemma_skip_commas(ts, k);
            }
            while self.eat_symbol(',')
                invariant
                    moved_on(self, old(self)),
                    ts == toks(old(self)),
                    k <= self.index <= self.tokens@.len(),
                    skip_commas(ts, k) == skip_commas(ts, self.index as int),
                decreases self.tokens@.len() - self.index,
            {
            }
            if self.eat_symbol(']') {
                assert(crate::mcfd::bridge::views(keys@) + Seq::<Seq<char>>::empty()
                    =~= crate::mcfd::bridge::views(keys@));
                return Ok(keys);
            }
            let ghost j = self.index as int;
            let v = match self.next() {
                Some(TokenKind::Word(v)) => v,
                Some(TokenKind::String(v)) => v,
                _ => {
                    let mut m = string_of("unexpected dispatch key token in ");
                    push_str(&mut m, self.path.as_str());
                    return Err(m);
                },
            };
            let ghost before = keys@;
            keys.push(v);
            assert(crate::mcfd::bridge::views(keys@) =~= crate::mcfd::bridge::views(before).push(v@));
            if self.eat_symbol(',') {
                proof {
                    match keys_from(ts, j + 2) {
                        Some((vs, e)) => {
                            assert(crate::mcfd::bridge::views(before) + (seq![v@] + vs)
                                =~= crate::mcfd::bridge::views(keys@) + vs);
                        },
                        None => {},
                    }
                }
                continue;
            }
            match self.expect_symbol(']') {
                Ok(()) => {},
                Err(e) => {
                    return Err(e);
                },
            }
            assert(crate::mcfd::bridge::views(before) + seq![v@] =~= crate::mcfd::bridge::views(
                keys@,
            ));
            return Ok(keys);
        }
    }
}


// ---- copies and repository updates -------------------------------------------------
/// A copy of a version.
pub fn copy_version(v: &Version) -> (r: Version)
    ensures
        r.0@ == v.0@,
{
    let mut out: Vec<u32> = Vec::new();
    let mut i: usize = 0;
    while i < v.0.len()
        invariant
            i <= v.0@.len(),
            out@ == v.0@.take(i as int),
        decreases v.0@.len() - i,
    {
        out.push(v.0[i]);
        assert(v.0@.take(i + 1) =~= v.0@.take(i as int).push(v.0@[i as int]));
        i = i + 1;
    }
    assert(v.0@.take(v.0@.len() as int) =~= v.0@);
    Version(out)
}

/// Two metadata that hold the same values.
pub open spec fn same_meta(a: Metadata, b: Metadata) -> bool {
    &&& a.documentation@ == b.documentation@
    &&& version_opt(a.since) == version_opt(b.since)
    &&& version_opt(a.until) == version_opt(b.until)
    &&& a.canonical == b.canonical
}

/// A copy of metadata.
pub fn copy_metadata(m: &Metadata) -> (r: Metadata)
    ensures
        same_meta(r, *m),
{
    Metadata {
        documentation: m.documentation.clone(),
        since: match &m.since {
            Some(v) => Some(copy_version(v)),
            None => None,
        },
        until: match &m.until {
            Some(v) => Some(copy_version(v)),
            None => None,
        },
        canonical: m.canonical,
    }
}

impl ParsedRepo {
    /// Adds a dispatch definition and links it to `dispatcher[key]`, after
    /// the definitions linked there before.
    pub fn insert_dispatch(&mut self, dispatcher: String, key: String, def: usize)
        requires
            old(self).wf(),
            def < old(self).dispatch_defs@.len(),
        ensures
            final(self).wf(),
            final(self).symbols@ == old(self).symbols@,
            final(self).dispatch_defs@ == old(self).dispatch_defs@,
            exists|j: int|
                0 <= j < final(self).dispatches@.len() && (#[trigger] final(self).dispatches@[j]).0@
                    == dispatcher@ && final(self).dispatches@[j].1@ == key@
                    && final(self).dispatches@[j].2@.last() == def,
            dispatch_keys(final(self)).to_set() == dispatch_keys(old(self)).to_set().insert(
                (dispatcher@, key@),
            ),
    {
        let ghost before = dispatch_keys(self);
        let mut i: usize = 0;
        while i < self.dispatches.len()
            invariant
                old(self).wf(),
                self.symbols@ == old(self).symbols@,
                self.dispatches@ == old(self).dispatches@,
                self.dispatch_defs@ == old(self).dispatch_defs@,
                before == dispatch_keys(self),
                def < self.dispatch_defs@.len(),
                i <= self.dispatches@.len(),
                forall|j: int|
                    0 <= j < i ==> !(self.dispatches@[j].0@ == dispatcher@ && self.dispatches@[j].1@
                        == key@),
            decreases self.dispatches@.len() - i,
        {
            if crate::text::str_eq(self.dispatches[i].0.as_str(), dispatcher.as_str())
                && crate::text::str_eq(self.dispatches[i].1.as_str(), key.as_str()) {
                let (d, k, mut list) = self.dispatches.remove(i);
                list.push(def);
                self.dispatches.insert(i, (d, k, list));
                proof {
                    assert(dispatch_keys(self) =~= before);
                    assert forall|j: int, m: int|
                        0 <= j < self.dispatches@.len() && 0 <= m < self.dispatches@[j].2@.len()
                            implies #[trigger] self.dispatches@[j].2@[m]
                        < self.dispatch_defs@.len() by {
                        if j != i {
                            assert(self.dispatches@[j] == old(self).dispatches@[j]);
                        } else if m < self.dispatches@[j].2@.len() - 1 {
                            assert(self.dispatches@[j].2@[m] == old(self).dispatches@[j].2@[m]);
                        }
                    }
                    assert(self.dispatches@[i as int].0@ == dispatcher@);
                    assert(before[i as int] == (dispatcher@, key@));
                    assert(dispatch_keys(self).to_set() =~= before.to_set().insert((dispatcher@, key@)));
                }
                return;
            }
            i = i + 1;
        }
        let mut list: Vec<usize> = Vec::new();
        list.push(def);
        self.dispatches.push((dispatcher, key, list));
        proof {
            assert(dispatch_keys(self) =~= before.push((dispatcher@, key@)));
            assert(!before.contains((dispatcher@, key@))) by {
                if before.contains((dispatcher@, key@)) {
                    let j = choose|j: int| 0 <= j < before.len() && before[j] == (dispatcher@, key@);
                    assert(self.dispatches@[j].0@ == dispatcher@);
                }
            }
            assert forall|j: int, m: int|
                0 <= j < self.dispatches@.len() && 0 <= m < self.dispatches@[j].2@.len()
                    implies #[trigger] self.dispatches@[j].2@[m] < self.dispatch_defs@.len() by {
                if j < old(self).dispatches@.len() {
                    assert(self.dispatches@[j] == old(self).dispatches@[j]);
                }
            }
            assert(self.dispatches@[self.dispatches@.len() - 1].0@ == dispatcher@);
            before.lemma_push_to_set_commute((dispatcher@, key@));
            assert(before.push((dispatcher@, key@)).to_set() =~= before.to_set().insert(
                (dispatcher@, key@),
            ));
        }
    }

    /// Adds a dispatch definition and returns its index.
    pub fn add_dispatch_def(&mut self, def: DispatchDef) -> (r: usize)
        requires
            old(self).wf(),
        ensures
            final(self).wf(),
            final(self).symbols@ == old(self).symbols@,
            final(self).dispatches@ == old(self).dispatches@,
            final(self).dispatch_defs@ == old(self).dispatch_defs@.push(def),
            r == old(self).dispatch_defs@.len(),
    {
        let r = self.dispatch_defs.len();
        self.dispatch_defs.push(def);
        proof {
            assert(dispatch_keys(self) =~= dispatch_keys(old(self)));
            assert(symbol_keys(self) =~= symbol_keys(old(self)));
        }
        r
    }
}


// ---- type expressions and struct bodies ----------------------------------------------
/// The parser moved forward over the same file; its repository kept every
/// definition path and its dispatches, and may have gained definitions.
pub open spec fn advanced(a: &FileParser, b: &FileParser) -> bool {
    &&& a.wf()
    &&& same_source(a, b)
    &&& b.index <= a.index
    &&& symbol_keys(&b.repo).to_set().subset_of(symbol_keys(&a.repo).to_set())
    &&& a.repo.dispatches@ == b.repo.dispatches@
    &&& a.repo.dispatch_defs@ == b.repo.dispatch_defs@
}

/// Whether the token at `i` closes a bracket.
pub open spec fn closing_at(ts: Seq<TokenModel>, i: int) -> bool {
    0 <= i < ts.len() && (ts[i] == TokenModel::Symbol(')') || ts[i] == TokenModel::Symbol('}')
        || ts[i] == TokenModel::Symbol(']'))
}

/// The names of the primitive types.
pub open spec fn is_primitive(w: Seq<char>) -> bool {
    w == "any"@ || w == "boolean"@ || w == "string"@ || w == "int"@ || w == "short"@ || w
        == "long"@ || w == "byte"@ || w == "float"@ || w == "double"@
}

fn primitive_name(w: &str) -> (r: bool)
    ensures
        r == is_primitive(w@),
{
    crate::text::str_eq(w, "any") || crate::text::str_eq(w, "boolean") || crate::text::str_eq(
        w,
        "string",
    ) || crate::text::str_eq(w, "int") || crate::text::str_eq(w, "short") || crate::text::str_eq(
        w,
        "long",
    ) || crate::text::str_eq(w, "byte") || crate::text::str_eq(w, "float") || crate::text::str_eq(
        w,
        "double",
    )
}

/// The paths of the definitions read so far.
pub open spec fn keys_of(p: &FileParser) -> Set<Seq<char>> {
    symbol_keys(&p.repo).to_set()
}

pub proof fn lemma_concat_to_set<A>(a: Seq<A>, b: Seq<A>)
    ensures
        (a + b).to_set() == a.to_set() + b.to_set(),
{
    assert forall|x: A| #[trigger] (a + b).contains(x) <==> (a.contains(x) || b.contains(x)) by {
        if (a + b).contains(x) {
            let j = choose|j: int| 0 <= j < (a + b).len() && (a + b)[j] == x;
            if j < a.len() {
                assert(a[j] == x);
            } else {
                assert(b[j - a.len()] == x);
            }
        }
        if a.contains(x) {
            let j = choose|j: int| 0 <= j < a.len() && a[j] == x;
            assert((a + b)[j] == x);
        }
        if b.contains(x) {
            let j = choose|j: int| 0 <= j < b.len() && b[j] == x;
            assert((a + b)[a.len() + j] == x);
        }
    }
    assert((a + b).to_set() =~= a.to_set() + b.to_set());
}

impl FileParser {
    fn at_closing(&self) -> (r: bool)
        ensures
            r == closing_at(toks(self), self.index as int),
    {
        match self.peek() {
            Some(TokenKind::Symbol(c)) => *c == ')' || *c == '}' || *c == ']',
            _ => false,
        }
    }

    fn peek_is_word(&self) -> (r: bool)
        ensures
            r == (self.index < self.tokens@.len() && tok_at(self, self.index as int) is Word),
    {
        match self.peek() {
            Some(TokenKind::Word(_)) => true,
            _ => false,
        }
    }

    /// Stores a named definition of this file.
    fn define(&mut self, path: String, meta: Metadata, kind: SymbolKind)
        requires
            old(self).wf(),
        ensures
            advanced(final(self), old(self)),
            final(self).index == old(self).index,
            keys_of(final(self)) == keys_of(old(self)).insert(path@),
            forall|k: Seq<char>| #[trigger] def_at(&final(self).repo, k) == if k == path@ {
                Some(
                    DefM {
                        meta: crate::mcdoc::grammar::meta_model(meta),
                        module: old(self).module@,
                        uses: uses_model(old(self).uses@),
                        kind: kind_m(kind),
                    },
                )
            } else {
                def_at(&old(self).repo, k)
            },
    {
        let context = self.context();
        self.repo.insert_symbol(path, SymbolDef { meta, context, kind });
    }

    /// Reads a type: one alternative, or a union of them separated by `|`.
    pub fn parse_type_expr(&mut self) -> (r: Result<TypeExpr, String>)
        requires
            old(self).wf(),
        ensures
            advanced(final(self), old(self)),
            match crate::mcdoc::grammar::type_read(toks(old(self)), old(self).module@, old(self).index as int) {
                Ok((t, e, p)) => r matches Ok(x) && crate::mcdoc::grammar::type_view(x) == t
                    && final(self).index == e && grew(&old(self).repo, &final(self).repo, p.to_set()),
                Err(_) => r is Err,
            },
        decreases old(self).tokens@.len() - old(self).index, 3nat,
    {
        let ghost ts = toks(old(self));
        let ghost m = old(self).module@;
        let ghost i0 = old(self).index as int;
        let mut variants: Vec<UnionVariant> = Vec::new();
        let ghost mut paths: Seq<Seq<char>> = Seq::empty();
        proof {
            assert(crate::mcdoc::grammar::variants_view(variants@) =~= Seq::empty());
            assert(keys_of(self) =~= keys_of(old(self)) + paths.to_set());
            crate::mcdoc::grammar::lemma_type_read(ts, m, i0);
        }
        loop
            invariant_except_break
                crate::mcdoc::grammar::union_read(ts, m, i0, Seq::empty(), Seq::empty())
                    == crate::mcdoc::grammar::union_read(
                    ts,
                    m,
                    self.index as int,
                    crate::mcdoc::grammar::variants_view(variants@),
                    paths,
                ),
            invariant
                advanced(self, old(self)),
                ts == toks(old(self)),
                m == old(self).module@,
                i0 == old(self).index,
                grew(&old(self).repo, &self.repo, paths.to_set()),
            ensures
                advanced(self, old(self)),
                grew(&old(self).repo, &self.repo, paths.to_set()),
                crate::mcdoc::grammar::union_read(ts, m, i0, Seq::empty(), Seq::empty()) == Ok::<
                    (Seq<crate::mcdoc::grammar::VariantModel>, int, Seq<Seq<char>>),
                    (),
                >((crate::mcdoc::grammar::variants_view(variants@), self.index as int, paths)),
            decreases self.tokens@.len() - self.index,
        {
            let ghost pos = self.index as int;
            let ghost acc = crate::mcdoc::grammar::variants_view(variants@);
            let ghost mr = meta_from(ts, pos, no_meta());
            proof {
                crate::mcdoc::grammar::lemma_meta_from_bound(ts, pos, no_meta());
                crate::mcdoc::grammar::lemma_type_read(ts, m, i0);
            }
            let meta = match self.parse_metadata() {
                Ok(m) => m,
                Err(e) => {
                    proof {
                        crate::mcdoc::grammar::lemma_union_meta_err(ts, m, pos, acc, paths);
                    }
                    return Err(e);
                },
            };
            let ghost st = mr->Ok_0.0;
            let ghost e1 = self.index as int;
            if self.at_closing() {
                proof {
                    crate::mcdoc::grammar::lemma_union_closing(ts, m, pos, acc, paths, st, e1);
                }
                break ;
            }
            proof {
                crate::mcdoc::grammar::lemma_union_atom(ts, m, pos, acc, paths, st, e1);
            }
            let ghost r1 = self.repo;
            let ty = match self.parse_type_atom() {
                Ok(t) => t,
                Err(e) => {
                    return Err(e);
                },
            };
            let ghost e2 = self.index as int;
            proof {
                crate::mcdoc::grammar::lemma_annotations_end(ts, e2);
            }
            match self.skip_annotations() {
                Ok(()) => {},
                Err(e) => {
                    return Err(e);
                },
            }
            let ghost tv = crate::mcdoc::grammar::type_view(ty);
            let ghost mv = crate::mcdoc::grammar::meta_model(meta);
            let ghost before = variants@;
            variants.push(UnionVariant { meta, ty });
            proof {
                assert(variants@.drop_last() =~= before);
                assert(crate::mcdoc::grammar::variants_view(variants@) == acc.push(
                    crate::mcdoc::grammar::VariantModel { meta: mv, ty: tv },
                ));
                match crate::mcdoc::grammar::atom_read(ts, m, e1) {
                    Ok((_, _, p2)) => {
                        lemma_grew_trans(&old(self).repo, &r1, &self.repo, paths.to_set(), p2.to_set());
                        lemma_concat_to_set(paths, p2);
                        paths = paths + p2;
                    },
                    Err(_) => {},
                }
            }
            if !self.eat_symbol('|') {
                break ;
            }
            if self.at_closing() {
                break ;
            }
        }
        proof {
            crate::mcdoc::grammar::lemma_type_read(ts, m, i0);
            crate::mcdoc::grammar::lemma_variants_view_len(variants@);
        }
        if variants.len() == 1 {
            let ghost vs = variants@;
            match variants.pop() {
                Some(v) => {
                    proof {
                        assert(vs =~= seq![v]);
                        assert(vs.drop_last() =~= Seq::<UnionVariant>::empty());
                        assert(crate::mcdoc::grammar::variants_view(vs.drop_last())
                            == Seq::<crate::mcdoc::grammar::VariantModel>::empty());
                        assert(crate::mcdoc::grammar::variants_view(vs)[0].ty
                            == crate::mcdoc::grammar::type_view(v.ty));
                    }
                    Ok(v.ty)
                },
                None => Ok(TypeExpr::Union(variants)),
            }
        } else {
            Ok(TypeExpr::Union(variants))
        }
    }

    /// Reads one alternative of a type.
    pub fn parse_type_atom(&mut self) -> (r: Result<TypeExpr, String>)
        requires
            old(self).wf(),
        ensures
            advanced(final(self), old(self)),
            r is Ok ==> final(self).index > old(self).index,
            match crate::mcdoc::grammar::atom_read(toks(old(self)), old(self).module@, old(self).index as int) {
                Ok((t, e, p)) => r matches Ok(x) && crate::mcdoc::grammar::type_view(x) == t
                    && final(self).index == e && grew(&old(self).repo, &final(self).repo, p.to_set()),
                Err(_) => r is Err,
            },
        decreases old(self).tokens@.len() - old(self).index, 1nat,
    {
        let ghost ts = toks(old(self));
        let ghost m = old(self).module@;
        let ghost i = old(self).index as int;
        proof {
            reveal_strlit("struct");
            reveal_strlit("enum");
            assert(keys_of(self) =~= keys_of(old(self)) + Seq::<Seq<char>>::empty().to_set());
        }
        if self.eat_word("struct") {
            proof {
                crate::mcdoc::grammar::lemma_atom_step(ts, m, i);
            }
            if self.peek_is_word() {
                let name = match self.expect_word() {
                    Ok(w) => w,
                    Err(e) => {
                        return Err(e);
                    },
                };
                let empty = Metadata::empty();
                proof {
                    assert(empty.documentation@ =~= Seq::<char>::empty());
                    assert(crate::mcdoc::grammar::meta_model(empty)
                        == crate::mcdoc::grammar::no_meta_model());
                }
                let def = match self.parse_struct_after_name(Some(name.clone()), empty) {
                    Ok(d) => d,
                    Err(e) => {
                        return Err(e);
                    },
                };
                let path = self.symbol_path(name.as_str());
                let ghost pv = path@;
                let ghost before = keys_of(self);
                self.define(path.clone(), Metadata::empty(), SymbolKind::Struct(def));
                proof {
                    match crate::mcdoc::grammar::struct_read(
                        ts,
                        m,
                        i + 2,
                        Some(name@),
                        crate::mcdoc::grammar::no_meta_model(),
                    ) {
                        Ok((_, _, p)) => {
                            crate::mcdoc::parser::lemma_push_contains(p, pv);
                            assert(p.push(pv).to_set() =~= p.to_set().insert(pv));
                            assert(keys_of(self) =~= keys_of(old(self)) + p.push(pv).to_set());
                        },
                        Err(_) => {},
                    }
                }
                return Ok(TypeExpr::Reference(path));
            }
            let empty = Metadata::empty();
            proof {
                assert(empty.documentation@ =~= Seq::<char>::empty());
            }
            let def = match self.parse_struct_after_name(None, empty) {
                Ok(d) => d,
                Err(e) => {
                    return Err(e);
                },
            };
            return Ok(TypeExpr::Struct(def));
        }
        if self.eat_word("enum") {
            proof {
                crate::mcdoc::grammar::lemma_atom_enum(ts, m, i);
            }
            let underlying = match self.parse_enum_underlying() {
                Ok(u) => u,
                Err(e) => {
                    return Err(e);
                },
            };
            if self.peek_is_word() && self.peek_next_is_symbol('{') {
                let name = match self.expect_word() {
                    Ok(w) => w,
                    Err(e) => {
                        return Err(e);
                    },
                };
                match self.skip_block() {
                    Ok(()) => {},
                    Err(e) => {
                        return Err(e);
                    },
                }
                let path = self.symbol_path(name.as_str());
                let ghost pv = path@;
                self.define(
                    path.clone(),
                    Metadata::empty(),
                    SymbolKind::Enum { underlying: underlying.clone() },
                );
                proof {
                    crate::mcdoc::parser::lemma_push_contains(Seq::<Seq<char>>::empty(), pv);
                    assert(seq![pv].to_set() =~= Set::<Seq<char>>::empty().insert(pv)) by {
                        assert(Seq::<Seq<char>>::empty().push(pv) =~= seq![pv]);
                    }
                    assert(keys_of(self) =~= keys_of(old(self)) + seq![pv].to_set());
                }
                return Ok(TypeExpr::Reference(path));
            }
            match self.skip_block() {
                Ok(()) => {},
                Err(e) => {
                    return Err(e);
                },
            }
            return Ok(TypeExpr::Enum(underlying));
        }
        if self.eat_symbol('(') {
            proof {
                crate::mcdoc::grammar::lemma_atom_step(ts, m, i);
            }
            let inner = match self.parse_type_expr() {
                Ok(t) => t,
                Err(e) => {
                    return Err(e);
                },
            };
            match self.expect_symbol(')') {
                Ok(()) => {},
                Err(e) => {
                    return Err(e);
                },
            }
            return Ok(inner);
        }
        if self.eat_symbol('[') {
            proof {
                crate::mcdoc::grammar::lemma_atom_step(ts, m, i);
            }
            let item = match self.parse_type_expr() {
                Ok(t) => t,
                Err(e) => {
                    return Err(e);
                },
            };
            match self.expect_symbol(']') {
                Ok(()) => {},
                Err(e) => {
                    return Err(e);
                },
            }
            return Ok(TypeExpr::List(Box::new(item)));
        }
        proof {
            if i < ts.len() {
                crate::mcdoc::grammar::lemma_atom_step(ts, m, i);
            } else {
                crate::mcdoc::grammar::lemma_atom_end(ts, m, i);
            }
        }
        let raw = match self.next() {
            Some(TokenKind::Word(value)) => value,
            Some(TokenKind::String(_)) => {
                return Ok(TypeExpr::Unknown);
            },
            _ => {
                let mut m = string_of("unexpected token while parsing type in ");
                push_str(&mut m, self.path.as_str());
                return Err(m);
            },
        };
        self.skip_generic_args();
        let mut base = if primitive_name(raw.as_str()) {
            TypeExpr::Primitive(raw.clone())
        } else {
            TypeExpr::Reference(raw.clone())
        };
        let ghost g = self.index as int;
        proof {
            if i + 1 < ts.len() && ts[i + 1] == TokenModel::Symbol('<') {
                crate::mcdoc::grammar::lemma_generic_end(ts, i + 2, 1);
            }
            assert(crate::mcdoc::grammar::type_view(base) == crate::mcdoc::grammar::base_type(raw@));
            lemma_grew_refl(&self.repo);
        }
        loop
            invariant_except_break
                crate::mcdoc::grammar::atom_read(ts, m, i) == crate::mcdoc::grammar::suffix_read(
                    ts,
                    self.index as int,
                    raw@,
                    crate::mcdoc::grammar::type_view(base),
                ),
            invariant
                advanced(self, old(self)),
                ts == toks(old(self)),
                m == old(self).module@,
                i == old(self).index,
                grew(&old(self).repo, &self.repo, Set::empty()),
                self.index >= g > i,
            ensures
                advanced(self, old(self)),
                grew(&old(self).repo, &self.repo, Set::empty()),
                self.index > i,
                crate::mcdoc::grammar::atom_read(ts, m, i) == Ok::<
                    (crate::mcdoc::grammar::TypeModel, int, Seq<Seq<char>>),
                    (),
                >((crate::mcdoc::grammar::type_view(base), self.index as int, Seq::empty())),
            decreases self.tokens@.len() - self.index,
        {
            let ghost at = self.index as int;
            proof {
                crate::mcdoc::grammar::lemma_suffix_step(
                    ts,
                    at,
                    raw@,
                    crate::mcdoc::grammar::type_view(base),
                );
            }
            if !self.eat_symbol('[') {
                break ;
            }
            if self.eat_symbol(']') {
                let inner = base;
                base = TypeExpr::List(Box::new(inner));
                continue ;
            }
            let key = if self.eat_symbol('[') {
                proof {
                    crate::mcdoc::grammar::lemma_collect_until(ts, at + 2, ']');
                    assert(crate::mcdoc::grammar::tok(ts, at) == Some(TokenModel::Symbol('[')));
                    assert(crate::mcdoc::grammar::tok(ts, at + 1) == Some(TokenModel::Symbol('[')));
                    assert(crate::mcdoc::grammar::atom_read(ts, m, i) == crate::mcdoc::grammar::suffix_read(
                        ts,
                        at,
                        raw@,
                        crate::mcdoc::grammar::type_view(base),
                    ));
                }
                match self.collect_until_closing(']') {
                    Ok(_) => {},
                    Err(e) => {
                        return Err(e);
                    },
                }
                match self.expect_symbol(']') {
                    Ok(()) => {},
                    Err(e) => {
                        return Err(e);
                    },
                }
                match self.expect_symbol(']') {
                    Ok(()) => {},
                    Err(e) => {
                        return Err(e);
                    },
                }
                DispatchRefKey::Dynamic
            } else {
                let mut keys: Vec<String> = Vec::new();
                let ghost k0 = self.index as int;
                proof {
                    assert(crate::mcfd::bridge::views(keys@) =~= Seq::<Seq<char>>::empty());
                }
                loop
                    invariant_except_break
                        crate::mcdoc::grammar::literal_keys(ts, k0) == match crate::mcdoc::grammar::literal_keys(
                            ts,
                            self.index as int,
                        ) {
                            Some((vs, e)) => Some((crate::mcfd::bridge::views(keys@) + vs, e)),
                            None => None,
                        },
                    invariant
                        advanced(self, old(self)),
                        ts == toks(old(self)),
                        m == old(self).module@,
                        i == old(self).index,
                        grew(&old(self).repo, &self.repo, Set::empty()),
                        self.index >= k0 > i,
                        crate::mcdoc::grammar::atom_read(ts, m, i) == match crate::mcdoc::grammar::literal_keys(ts, k0) {
                            None => Err(()),
                            Some((ks, e)) => Ok(
                                (
                                    crate::mcdoc::grammar::TypeModel::DispatchRef(raw@, Some(ks)),
                                    e,
                                    Seq::<Seq<char>>::empty(),
                                ),
                            ),
                        },
                    ensures
                        advanced(self, old(self)),
                        grew(&old(self).repo, &self.repo, Set::empty()),
                        self.index > i,
                        crate::mcdoc::grammar::literal_keys(ts, k0) == Some(
                            (crate::mcfd::bridge::views(keys@), self.index as int),
                        ),
                    decreases self.tokens@.len() - self.index,
                {
                    let ghost kk = self.index as int;
                    let ghost before = keys@;
                    proof {
                        crate::mcdoc::grammar::lemma_literal_keys_step(ts, kk);
                    }
                    match self.next() {
                        Some(TokenKind::Word(value)) => keys.push(value),
                        Some(TokenKind::String(value)) => keys.push(value),
                        _ => {
                            let mut m = string_of("unexpected dispatch key token in ");
                            push_str(&mut m, self.path.as_str());
                            return Err(m);
                        },
                    }
                    proof {
                        let v = keys@.last()@;
                        assert(crate::mcfd::bridge::views(keys@) =~= crate::mcfd::bridge::views(
                            before,
                        ).push(v));
                        match crate::mcdoc::grammar::literal_keys(ts, kk + 2) {
                            Some((vs, e)) => {
                                assert(crate::mcfd::bridge::views(before) + (seq![v] + vs)
                                    =~= crate::mcfd::bridge::views(keys@) + vs);
                            },
                            None => {},
                        }
                        assert(crate::mcfd::bridge::views(before) + seq![v]
                            =~= crate::mcfd::bridge::views(keys@));
                    }
                    if self.eat_symbol(',') {
                        continue ;
                    }
                    match self.expect_symbol(']') {
                        Ok(()) => {},
                        Err(e) => {
                            return Err(e);
                        },
                    }
                    break ;
                }
                DispatchRefKey::Literal(keys)
            };
            proof {
                assert(Seq::<Seq<char>>::empty().to_set() =~= Set::<Seq<char>>::empty());
                assert(keys_of(old(self)) + Seq::<Seq<char>>::empty().to_set() =~= keys_of(old(self)));
            }
            return Ok(TypeExpr::DispatchRef(DispatchRef { dispatcher: raw, key }));
        }
        proof {
            assert(Seq::<Seq<char>>::empty().to_set() =~= Set::<Seq<char>>::empty());
            assert(keys_of(old(self)) + Seq::<Seq<char>>::empty().to_set() =~= keys_of(old(self)));
        }
        Ok(base)
    }

    /// Skips a run of `,`.
    fn skip_commas_here(&mut self)
        requires
            old(self).wf(),
        ensures
            moved_on(final(self), old(self)),
            final(self).index == skip_commas(toks(old(self)), old(self).index as int),
    {
        let ghost ts = toks(old(self));
        while self.eat_symbol(',')
            invariant
                moved_on(self, old(self)),
                ts == toks(old(self)),
                skip_commas(ts, old(self).index as int) == skip_commas(ts, self.index as int),
            decreases self.tokens@.len() - self.index,
        {
        }
    }

    /// Reads a struct body after its name: an optional `extends` and the
    /// fields, spreads and dynamic entries between braces.
    pub fn parse_struct_after_name(&mut self, name: Option<String>, meta: Metadata) -> (r: Result<
        StructDef,
        String,
    >)
        requires
            old(self).wf(),
        ensures
            advanced(final(self), old(self)),
            r is Ok ==> final(self).index > old(self).index,
            match crate::mcdoc::grammar::struct_read(
                toks(old(self)),
                old(self).module@,
                old(self).index as int,
                match name {
                    Some(n) => Some(n@),
                    None => None,
                },
                crate::mcdoc::grammar::meta_model(meta),
            ) {
                Ok((d, e, p)) => r matches Ok(x) && crate::mcdoc::grammar::struct_view(x) == d
                    && final(self).index == e && grew(&old(self).repo, &final(self).repo, p.to_set()),
                Err(_) => r is Err,
            },
        decreases old(self).tokens@.len() - old(self).index, 0nat,
    {
        let ghost ts = toks(old(self));
        let ghost m = old(self).module@;
        let ghost i = old(self).index as int;
        let ghost nv = match &name {
            Some(n) => Some(n@),
            None => None::<Seq<char>>,
        };
        let ghost mm = crate::mcdoc::grammar::meta_model(meta);
        let mut entries: Vec<StructEntry> = Vec::new();
        let ghost mut paths: Seq<Seq<char>> = Seq::empty();
        proof {
            reveal_strlit("extends");
            assert(crate::mcdoc::grammar::entries_view(entries@) =~= Seq::empty());
            assert(keys_of(self) =~= keys_of(old(self)) + paths.to_set());
            crate::mcdoc::grammar::lemma_struct_step(ts, m, i, nv, mm);
        }
        if self.eat_word("extends") {
            let ty = match self.parse_type_expr() {
                Ok(t) => t,
                Err(e) => {
                    return Err(e);
                },
            };
            proof {
                match crate::mcdoc::grammar::type_read(ts, m, i + 1) {
                    Ok((_, _, p)) => {
                        paths = p;
                    },
                    Err(_) => {},
                }
            }
            let ghost tv = crate::mcdoc::grammar::type_view(ty);
            let ghost e0 = StructEntry::Spread { meta, ty };
            entries.push(StructEntry::Spread { meta, ty });
            proof {
                assert(entries@.last() == e0);
                assert(crate::mcdoc::grammar::entry_view(e0) == crate::mcdoc::grammar::EntryModel::Spread(mm, tv));
                assert(entries@.drop_last() =~= Seq::<StructEntry>::empty());
                assert(crate::mcdoc::grammar::entries_view(entries@.drop_last())
                    == Seq::<crate::mcdoc::grammar::EntryModel>::empty());
                assert(crate::mcdoc::grammar::entries_view(entries@) =~= seq![
                    crate::mcdoc::grammar::EntryModel::Spread(mm, tv),
                ]);
            }
        }
        match self.expect_symbol('{') {
            Ok(()) => {},
            Err(e) => {
                return Err(e);
            },
        }
        loop
            invariant_except_break
                crate::mcdoc::grammar::struct_read(ts, m, i, nv, mm)
                    == crate::mcdoc::grammar::entries_read(
                    ts,
                    m,
                    self.index as int,
                    nv,
                    crate::mcdoc::grammar::entries_view(entries@),
                    paths,
                ),
            invariant
                advanced(self, old(self)),
                ts == toks(old(self)),
                m == old(self).module@,
                i == old(self).index,
                nv == match name {
                    Some(n) => Some(n@),
                    None => None::<Seq<char>>,
                },
                mm == crate::mcdoc::grammar::meta_model(meta),
                self.index > i,
                grew(&old(self).repo, &self.repo, paths.to_set()),
            ensures
                advanced(self, old(self)),
                self.index > i,
                grew(&old(self).repo, &self.repo, paths.to_set()),
                crate::mcdoc::grammar::struct_read(ts, m, i, nv, mm) == Ok::<
                    (crate::mcdoc::grammar::StructModel, int, Seq<Seq<char>>),
                    (),
                >(
                    (
                        crate::mcdoc::grammar::StructModel {
                            name: nv,
                            entries: crate::mcdoc::grammar::entries_view(entries@),
                        },
                        self.index as int,
                        paths,
                    ),
                ),
            decreases self.tokens@.len() - self.index,
        {
            let ghost pos = self.index as int;
            let ghost acc = crate::mcdoc::grammar::entries_view(entries@);
            proof {
                crate::mcdoc::grammar::lemma_entries_step(ts, m, pos, nv, acc, paths);
            }
            if self.eat_symbol('}') {
                break ;
            }
            proof {
                crate::mcdoc::parser::lemma_skip_commas(ts, pos);
            }
            self.skip_commas_here();
            let ghost c1 = self.index as int;
            proof {
                crate::mcdoc::grammar::lemma_meta_from_bound(ts, c1, no_meta());
            }
            let entry_meta = match self.parse_metadata() {
                Ok(m) => m,
                Err(e) => {
                    return Err(e);
                },
            };
            let ghost e1 = self.index as int;
            proof {
                crate::mcdoc::parser::lemma_skip_commas(ts, e1);
            }
            self.skip_commas_here();
            let ghost c2 = self.index as int;
            let ghost em = crate::mcdoc::grammar::meta_model(entry_meta);
            if self.eat_symbol('}') {
                break ;
            }
            if self.eat_spread() {
                let ghost r1 = self.repo;
                let ty = match self.parse_type_expr() {
                    Ok(t) => t,
                    Err(e) => {
                        return Err(e);
                    },
                };
                let ghost e = self.index as int;
                let ghost tv = crate::mcdoc::grammar::type_view(ty);
                let ghost before = entries@;
                let ghost e0 = StructEntry::Spread { meta: entry_meta, ty };
                entries.push(StructEntry::Spread { meta: entry_meta, ty });
                proof {
                    crate::mcdoc::grammar::lemma_entries_view_push(before, e0);
                    assert(entries@ == before.push(e0));
                    crate::mcdoc::parser::lemma_skip_commas(ts, e);
                    match crate::mcdoc::grammar::type_read(ts, m, c2 + 1) {
                        Ok((_, _, p)) => {
                            lemma_grew_trans(&old(self).repo, &r1, &self.repo, paths.to_set(), p.to_set());
                            lemma_concat_to_set(paths, p);
                            paths = paths + p;
                        },
                        Err(_) => {},
                    }
                }
                self.skip_commas_here();
                continue ;
            }
            if self.eat_symbol('[') {
                proof {
                    crate::mcdoc::grammar::lemma_balanced_end(ts, c2 + 1, 1, '[', ']');
                }
                match self.skip_balanced('[', ']') {
                    Ok(()) => {},
                    Err(e) => {
                        return Err(e);
                    },
                }
                if !self.eat_optional_colon() {
                    match self.expect_symbol(':') {
                        Ok(()) => {},
                        Err(e) => {
                            return Err(e);
                        },
                    }
                }
                let ghost s = self.index as int;
                let ghost r1 = self.repo;
                let value_ty = match self.parse_type_expr() {
                    Ok(t) => t,
                    Err(e) => {
                        return Err(e);
                    },
                };
                let ghost e = self.index as int;
                let ghost tv = crate::mcdoc::grammar::type_view(value_ty);
                let ghost before = entries@;
                let ghost e0 = StructEntry::Dynamic { meta: entry_meta, value_ty };
                entries.push(StructEntry::Dynamic { meta: entry_meta, value_ty });
                proof {
                    crate::mcdoc::grammar::lemma_entries_view_push(before, e0);
                    assert(entries@ == before.push(e0));
                    crate::mcdoc::parser::lemma_skip_commas(ts, e);
                    match crate::mcdoc::grammar::type_read(ts, m, s) {
                        Ok((_, _, p)) => {
                            lemma_grew_trans(&old(self).repo, &r1, &self.repo, paths.to_set(), p.to_set());
                            lemma_concat_to_set(paths, p);
                            paths = paths + p;
                        },
                        Err(_) => {},
                    }
                }
                self.skip_commas_here();
                continue ;
            }
            let field = match self.expect_word() {
                Ok(w) => w,
                Err(e) => {
                    return Err(e);
                },
            };
            if !self.eat_optional_colon() {
                match self.expect_symbol(':') {
                    Ok(()) => {},
                    Err(e) => {
                        return Err(e);
                    },
                }
            }
            let ghost s = self.index as int;
            let ghost r1 = self.repo;
            let ty = match self.parse_type_expr() {
                Ok(t) => t,
                Err(e) => {
                    return Err(e);
                },
            };
            let ghost e = self.index as int;
            let ghost tv = crate::mcdoc::grammar::type_view(ty);
            let ghost before = entries@;
            let ghost fv = field@;
            let ghost e0 = StructEntry::Field { meta: entry_meta, name: field, ty };
            entries.push(StructEntry::Field { meta: entry_meta, name: field, ty });
            proof {
                crate::mcdoc::grammar::lemma_entries_view_push(before, e0);
                assert(entries@ == before.push(e0));
                crate::mcdoc::parser::lemma_skip_commas(ts, e);
                match crate::mcdoc::grammar::type_read(ts, m, s) {
                    Ok((_, _, p)) => {
                        lemma_grew_trans(&old(self).repo, &r1, &self.repo, paths.to_set(), p.to_set());
                        lemma_concat_to_set(paths, p);
                        paths = paths + p;
                    },
                    Err(_) => {},
                }
            }
            self.skip_commas_here();
        }
        Ok(StructDef { name, entries })
    }
}

// ---- files ---------------------------------------------------------------------------
pub proof fn lemma_uses_get_update(u: Seq<(Seq<char>, Seq<char>)>, i: int, v: Seq<char>, k: Seq<char>)
    requires
        0 <= i < u.len(),
        forall|j: int| 0 <= j < i ==> u[j].0 != u[i].0,
    ensures
        uses_get(u.update(i, (u[i].0, v)), k) == if k == u[i].0 {
            Some(v)
        } else {
            uses_get(u, k)
        },
    decreases i,
{
    if i > 0 {
        assert(u.update(i, (u[i].0, v)).drop_first() =~= u.drop_first().update(i - 1, (u[i].0, v)));
        lemma_uses_get_update(u.drop_first(), i - 1, v, k);
    } else {
        assert(u.update(i, (u[i].0, v)).drop_first() =~= u.drop_first());
    }
}

pub proof fn lemma_uses_get_push(u: Seq<(Seq<char>, Seq<char>)>, a: Seq<char>, v: Seq<char>, k: Seq<char>)
    requires
        forall|j: int| 0 <= j < u.len() ==> u[j].0 != a,
    ensures
        uses_get(u.push((a, v)), k) == if k == a && uses_get(u, k) is None {
            Some(v)
        } else {
            uses_get(u, k)
        },
    decreases u.len(),
{
    if u.len() > 0 {
        assert(u.push((a, v)).drop_first() =~= u.drop_first().push((a, v)));
        assert(u.push((a, v))[0] == u[0]);
        assert forall|j: int| 0 <= j < u.drop_first().len() implies u.drop_first()[j].0 != a by {
            assert(u.drop_first()[j] == u[j + 1]);
        }
        lemma_uses_get_push(u.drop_first(), a, v, k);
    } else {
        assert(u.push((a, v)).drop_first() =~= Seq::<(Seq<char>, Seq<char>)>::empty());
        assert(u.push((a, v))[0] == (a, v));
        assert(uses_get(Seq::<(Seq<char>, Seq<char>)>::empty(), k) is None);
    }
}

pub proof fn lemma_uses_get_absent(u: Seq<(Seq<char>, Seq<char>)>, a: Seq<char>)
    requires
        forall|j: int| 0 <= j < u.len() ==> u[j].0 != a,
    ensures
        uses_get(u, a) is None,
    decreases u.len(),
{
    if u.len() > 0 {
        lemma_uses_get_absent(u.drop_first(), a);
    }
}

/// The parser after a `use`: the file's other state as before.
pub open spec fn used(a: &FileParser, b: &FileParser) -> bool {
    &&& a.wf()
    &&& a.tokens@ == b.tokens@
    &&& a.path@ == b.path@
    &&& a.module@ == b.module@
    &&& a.repo == b.repo
    &&& a.index == b.index
}

/// The imports after a `use` of `absolute` under `alias`: the alias's first
/// import takes the new path, or the pair is added at the end.
pub open spec fn use_update(u: Seq<(Seq<char>, Seq<char>)>, alias: Seq<char>, absolute: Seq<char>) -> Seq<
    (Seq<char>, Seq<char>),
>
    decreases u.len(),
{
    if u.len() == 0 {
        seq![(alias, absolute)]
    } else if u[0].0 == alias {
        u.update(0, (alias, absolute))
    } else {
        seq![u[0]] + use_update(u.drop_first(), alias, absolute)
    }
}

pub proof fn lemma_use_update(u: Seq<(Seq<char>, Seq<char>)>, a: Seq<char>, v: Seq<char>, i: int)
    requires
        0 <= i <= u.len(),
        forall|j: int| 0 <= j < i ==> u[j].0 != a,
        i < u.len() ==> u[i].0 == a,
    ensures
        use_update(u, a, v) == if i == u.len() {
            u.push((a, v))
        } else {
            u.update(i, (a, v))
        },
    decreases i,
{
    if i == 0 {
        if u.len() == 0 {
            assert(seq![(a, v)] =~= u.push((a, v)));
        }
    } else {
        let t = u.drop_first();
        assert forall|j: int| 0 <= j < i - 1 implies t[j].0 != a by {
            assert(t[j] == u[j + 1]);
        }
        lemma_use_update(t, a, v, i - 1);
        if i == u.len() {
            assert(seq![u[0]] + t.push((a, v)) =~= u.push((a, v)));
        } else {
            assert(seq![u[0]] + t.update(i - 1, (a, v)) =~= u.update(i, (a, v)));
        }
    }
}

/// Whether the word `w` is at `j`.
pub open spec fn word_at(ts: Seq<TokenModel>, j: int, w: Seq<char>) -> bool {
    crate::mcdoc::grammar::tok(ts, j) == Some(TokenModel::Word(w))
}

/// One step of reading a file at `i`, in module `m` with the imports `u`:
/// the documentation and attributes, then a `use`, a `struct`, `type`,
/// `enum` or `dispatch` definition, or any other token passed over. It gives
/// where reading goes on, the imports then, and the definition paths the
/// step adds; `Err` where the parser fails.
#[verifier::opaque]
pub open spec fn file_step(ts: Seq<TokenModel>, m: Seq<char>, i: int, u: Seq<(Seq<char>, Seq<char>)>) -> Result<
    (int, Seq<(Seq<char>, Seq<char>)>, Set<Seq<char>>),
    (),
> {
    match meta_from(ts, i, no_meta()) {
        Err(_) => Err(()),
        Ok((st, j)) => if word_at(ts, j, "use"@) {
            match tok(ts, j + 1) {
                Some(TokenModel::Word(w)) => {
                    let abs = resolve_name(w, m, u, true);
                    let segs = crate::mcdoc::nonempty(crate::mcdoc::split_on(abs, "::"@));
                    if segs.len() == 0 {
                        Err(())
                    } else {
                        Ok((j + 2, use_update(u, segs.last(), abs), Set::empty()))
                    }
                },
                _ => Err(()),
            }
        } else if word_at(ts, j, "struct"@) {
            match tok(ts, j + 1) {
                Some(TokenModel::Word(name)) => match crate::mcdoc::grammar::struct_read(
                    ts,
                    m,
                    j + 2,
                    Some(name),
                    crate::mcdoc::grammar::meta_of(st),
                ) {
                    Err(_) => Err(()),
                    Ok((_, e, p)) => Ok((e, u, p.to_set().insert(symbol_path_of(m, name)))),
                },
                _ => Err(()),
            }
        } else if word_at(ts, j, "type"@) {
            match tok(ts, j + 1) {
                Some(TokenModel::Word(name)) => {
                    let g = if tok(ts, j + 2) == Some(TokenModel::Symbol('<')) {
                        generic_end(ts, j + 3, 1)
                    } else {
                        j + 2
                    };
                    if tok(ts, g) != Some(TokenModel::Symbol('=')) {
                        Err(())
                    } else {
                        match crate::mcdoc::grammar::type_read(ts, m, g + 1) {
                            Err(_) => Err(()),
                            Ok((_, e, p)) => Ok((e, u, p.to_set().insert(symbol_path_of(m, name)))),
                        }
                    }
                },
                _ => Err(()),
            }
        } else if word_at(ts, j, "enum"@) {
            if tok(ts, j + 1) == Some(TokenModel::Symbol('(')) && (tok(ts, j + 2) matches Some(
                TokenModel::Word(_),
            )) && tok(ts, j + 3) == Some(TokenModel::Symbol(')')) {
                match tok(ts, j + 4) {
                    Some(TokenModel::Word(name)) => if tok(ts, j + 5) == Some(TokenModel::Symbol('{')) {
                        match balanced_end(ts, j + 6, 1, '{', '}') {
                            Some(e) => Ok((e, u, Set::empty().insert(symbol_path_of(m, name)))),
                            None => Err(()),
                        }
                    } else {
                        Err(())
                    },
                    _ => Err(()),
                }
            } else {
                Err(())
            }
        } else if word_at(ts, j, "dispatch"@) {
            match tok(ts, j + 1) {
                Some(TokenModel::Word(_)) => match dispatch_keys_at(ts, j + 2) {
                    None => Err(()),
                    Some((_, e)) => if word_at(ts, e, "to"@) {
                        match crate::mcdoc::grammar::type_read(ts, m, e + 1) {
                            Err(_) => Err(()),
                            Ok((_, e2, p)) => Ok((e2, u, p.to_set())),
                        }
                    } else {
                        Err(())
                    },
                },
                _ => Err(()),
            }
        } else if j < ts.len() {
            Ok((j + 1, u, Set::empty()))
        } else {
            Ok((j, u, Set::empty()))
        },
    }
}

/// The named definition that the step of [`file_step`] at `i` makes, with
/// its path: a `struct`, `type` or `enum`, read with the metadata before
/// it, in module `m` with the imports `u`.
#[verifier::opaque]
pub open spec fn file_top(ts: Seq<TokenModel>, m: Seq<char>, i: int, u: Seq<(Seq<char>, Seq<char>)>) -> Option<
    (Seq<char>, DefM),
> {
    match meta_from(ts, i, no_meta()) {
        Err(_) => None,
        Ok((st, j)) => {
            let meta = crate::mcdoc::grammar::meta_of(st);
            if word_at(ts, j, "struct"@) {
                match tok(ts, j + 1) {
                    Some(TokenModel::Word(name)) => match crate::mcdoc::grammar::struct_read(
                        ts,
                        m,
                        j + 2,
                        Some(name),
                        meta,
                    ) {
                        Ok((d, _, _)) => Some(
                            (
                                symbol_path_of(m, name),
                                DefM { meta, module: m, uses: u, kind: KindM::Struct(d) },
                            ),
                        ),
                        Err(_) => None,
                    },
                    _ => None,
                }
            } else if word_at(ts, j, "type"@) {
                match tok(ts, j + 1) {
                    Some(TokenModel::Word(name)) => {
                        let g = if tok(ts, j + 2) == Some(TokenModel::Symbol('<')) {
                            generic_end(ts, j + 3, 1)
                        } else {
                            j + 2
                        };
                        match crate::mcdoc::grammar::type_read(ts, m, g + 1) {
                            Ok((t, _, _)) => Some(
                                (
                                    symbol_path_of(m, name),
                                    DefM { meta, module: m, uses: u, kind: KindM::Alias(t) },
                                ),
                            ),
                            Err(_) => None,
                        }
                    },
                    _ => None,
                }
            } else if word_at(ts, j, "enum"@) {
                match (tok(ts, j + 2), tok(ts, j + 4)) {
                    (Some(TokenModel::Word(under)), Some(TokenModel::Word(name))) => Some(
                        (
                            symbol_path_of(m, name),
                            DefM { meta, module: m, uses: u, kind: KindM::Enum(under) },
                        ),
                    ),
                    _ => None,
                }
            } else {
                None
            }
        },
    }
}

/// The dispatch links of `dispatcher` to each of `keys`.
pub open spec fn pairs_of(dispatcher: Seq<char>, keys: Seq<Seq<char>>) -> Set<(Seq<char>, Seq<char>)> {
    Set::new(|p: (Seq<char>, Seq<char>)| p.0 == dispatcher && keys.contains(p.1))
}

/// The dispatcher keys that the step of [`file_step`] at `i` links: those
/// of a `dispatch` statement, none for any other step.
#[verifier::opaque]
pub open spec fn file_step_dispatches(ts: Seq<TokenModel>, i: int) -> Set<(Seq<char>, Seq<char>)> {
    match meta_from(ts, i, no_meta()) {
        Err(_) => Set::empty(),
        Ok((_, j)) => if word_at(ts, j, "dispatch"@) {
            match (tok(ts, j + 1), dispatch_keys_at(ts, j + 2)) {
                (Some(TokenModel::Word(d)), Some((ks, _))) => pairs_of(d, ks),
                _ => Set::empty(),
            }
        } else {
            Set::empty()
        },
    }
}

/// The named definition of a step, as a map from its path.
pub open spec fn top_map(t: Option<(Seq<char>, DefM)>) -> Map<Seq<char>, DefM> {
    match t {
        Some((k, d)) => Map::empty().insert(k, d),
        None => Map::empty(),
    }
}

/// The definitions that reading a file from `i` to its end leaves known:
/// for each path, the last named definition made at the top of the file,
/// where no later step adds that path again inside a definition.
pub open spec fn file_known(ts: Seq<TokenModel>, m: Seq<char>, i: int, u: Seq<(Seq<char>, Seq<char>)>) -> Map<
    Seq<char>,
    DefM,
>
    decreases ts.len() - i,
{
    if i >= ts.len() {
        Map::empty()
    } else {
        match file_step(ts, m, i, u) {
            Err(_) => Map::empty(),
            Ok((nx, u2, _)) => if nx <= i || nx > ts.len() {
                Map::empty()
            } else {
                match file_keys(ts, m, nx, u2) {
                    Err(_) => Map::empty(),
                    Ok(rest) => top_map(file_top(ts, m, i, u)).remove_keys(rest).union_prefer_right(
                        file_known(ts, m, nx, u2),
                    ),
                }
            },
        }
    }
}

/// The dispatcher keys that reading a file from `i` to its end links.
pub open spec fn file_dispatches(ts: Seq<TokenModel>, m: Seq<char>, i: int, u: Seq<(Seq<char>, Seq<char>)>) -> Set<
    (Seq<char>, Seq<char>),
>
    decreases ts.len() - i,
{
    if i >= ts.len() {
        Set::empty()
    } else {
        match file_step(ts, m, i, u) {
            Err(_) => Set::empty(),
            Ok((nx, u2, _)) => if nx <= i || nx > ts.len() {
                Set::empty()
            } else {
                file_step_dispatches(ts, i) + file_dispatches(ts, m, nx, u2)
            },
        }
    }
}

/// Known definitions `a`, then a part that adds the paths `kb` and leaves
/// `b` known, then one that adds `kc` and leaves `c` known.
pub proof fn lemma_known_assoc(
    a: Map<Seq<char>, DefM>,
    kb: Set<Seq<char>>,
    b: Map<Seq<char>, DefM>,
    kc: Set<Seq<char>>,
    c: Map<Seq<char>, DefM>,
)
    ensures
        a.remove_keys(kb + kc).union_prefer_right(b.remove_keys(kc).union_prefer_right(c))
            == a.remove_keys(kb).union_prefer_right(b).remove_keys(kc).union_prefer_right(c),
{
    assert(a.remove_keys(kb + kc).union_prefer_right(b.remove_keys(kc).union_prefer_right(c))
        =~= a.remove_keys(kb).union_prefer_right(b).remove_keys(kc).union_prefer_right(c));
}

proof fn lemma_symbol_index_same(b: ParsedRepo, c: ParsedRepo, k: Seq<char>, i: int)
    requires
        b.symbols@ == c.symbols@,
    ensures
        symbol_index(b, k, i) == symbol_index(c, k, i),
    decreases b.symbols@.len() - i,
{
    if 0 <= i < b.symbols@.len() {
        lemma_symbol_index_same(b, c, k, i + 1);
    }
}

/// Growth by `s`, then a change that keeps the definitions.
proof fn lemma_grew_same_symbols(a: &ParsedRepo, b: &ParsedRepo, c: &ParsedRepo, s: Set<Seq<char>>)
    requires
        grew(a, b, s),
        b.symbols@ == c.symbols@,
    ensures
        grew(a, c, s),
{
    assert(symbol_keys(c) =~= symbol_keys(b));
    assert forall|k: Seq<char>| !s.contains(k) implies #[trigger] def_at(c, k) == def_at(a, k) by {
        assert(def_at(b, k) == def_at(a, k));
        lemma_symbol_index_same(*b, *c, k, 0);
    }
}

/// A definition made at `path` after growth by `s` is growth by `s` and
/// `path`.
proof fn lemma_grew_define(a: &ParsedRepo, b: &ParsedRepo, c: &ParsedRepo, s: Set<Seq<char>>, path: Seq<char>)
    requires
        grew(a, b, s),
        symbol_keys(c).to_set() == symbol_keys(b).to_set().insert(path),
        forall|k: Seq<char>| k != path ==> #[trigger] def_at(c, k) == def_at(b, k),
    ensures
        grew(a, c, s.insert(path)),
{
    assert(symbol_keys(c).to_set() =~= symbol_keys(a).to_set() + s.insert(path));
    assert forall|k: Seq<char>| !s.insert(path).contains(k) implies #[trigger] def_at(c, k) == def_at(
        a,
        k,
    ) by {
        assert(def_at(c, k) == def_at(b, k));
    }
}

/// The definition paths that reading a file from `i` to its end adds, in
/// module `m` with the imports `u`; `Err` where the parser fails.
pub open spec fn file_keys(ts: Seq<TokenModel>, m: Seq<char>, i: int, u: Seq<(Seq<char>, Seq<char>)>) -> Result<
    Set<Seq<char>>,
    (),
>
    decreases ts.len() - i,
{
    if i >= ts.len() {
        Ok(Set::empty())
    } else {
        match file_step(ts, m, i, u) {
            Err(_) => Err(()),
            Ok((nx, u2, ks)) => if nx <= i || nx > ts.len() {
                Err(())
            } else {
                match file_keys(ts, m, nx, u2) {
                    Err(_) => Err(()),
                    Ok(rest) => Ok(ks + rest),
                }
            },
        }
    }
}

pub proof fn lemma_file_keys_step(
    ts: Seq<TokenModel>,
    m: Seq<char>,
    i: int,
    u: Seq<(Seq<char>, Seq<char>)>,
    acc: Set<Seq<char>>,
    nx: int,
    u2: Seq<(Seq<char>, Seq<char>)>,
    ks: Set<Seq<char>>,
)
    requires
        0 <= i < nx <= ts.len(),
        file_step(ts, m, i, u) == Ok::<(int, Seq<(Seq<char>, Seq<char>)>, Set<Seq<char>>), ()>(
            (nx, u2, ks),
        ),
    ensures
        (match file_keys(ts, m, i, u) {
            Ok(rest) => Ok::<Set<Seq<char>>, ()>(acc + rest),
            Err(_) => Err(()),
        }) == (match file_keys(ts, m, nx, u2) {
            Ok(rest) => Ok::<Set<Seq<char>>, ()>((acc + ks) + rest),
            Err(_) => Err(()),
        }),
{
    match file_keys(ts, m, nx, u2) {
        Ok(rest) => {
            assert(acc + (ks + rest) =~= (acc + ks) + rest);
        },
        Err(_) => {},
    }
}

pub proof fn lemma_file_keys_err(ts: Seq<TokenModel>, m: Seq<char>, i: int, u: Seq<(Seq<char>, Seq<char>)>)
    requires
        0 <= i < ts.len(),
        file_step(ts, m, i, u) is Err,
    ensures
        file_keys(ts, m, i, u) is Err,
{
}

impl FileParser {
    /// A parser at the start of `source`, the file `path` of `module`, adding
    /// to `repo`; `Err` when the source cannot be cut into tokens.
    pub fn new(path: &str, source: &str, module: &str, repo: ParsedRepo) -> (r: Result<Self, String>)
        requires
            repo.wf(),
        ensures
            match crate::mcdoc::lex_from(source@, 0) {
                Ok(ts) => r matches Ok(p) && p.wf() && toks(&p) == ts && p.index == 0 && p.path@
                    == path@ && p.module@ == module@ && p.uses@.len() == 0 && p.repo == repo,
                Err(_) => r is Err,
            },
    {
        match Lexer::new(source).tokenize() {
            Ok(tokens) => Ok(
                FileParser {
                    path: string_of(path),
                    tokens,
                    index: 0,
                    module: string_of(module),
                    uses: Vec::new(),
                    repo,
                },
            ),
            Err(error) => {
                let mut m = string_of("failed to tokenize ");
                push_str(&mut m, path);
                push_str(&mut m, ": ");
                push_str(&mut m, error.as_str());
                Err(m)
            },
        }
    }

    /// Records the import of `absolute` under `alias`, in place of an
    /// earlier import of the alias.
    pub fn insert_use(&mut self, alias: String, absolute: String)
        requires
            old(self).wf(),
        ensures
            used(final(self), old(self)),
            uses_model(final(self).uses@) == use_update(uses_model(old(self).uses@), alias@, absolute@),
            forall|k: Seq<char>|
                #[trigger] uses_get(uses_model(final(self).uses@), k) == if k == alias@ {
                    Some(absolute@)
                } else {
                    uses_get(uses_model(old(self).uses@), k)
                },
    {
        let ghost u = uses_model(self.uses@);
        let mut i: usize = 0;
        while i < self.uses.len()
            invariant
                used(self, old(self)),
                self.uses@ == old(self).uses@,
                u == uses_model(self.uses@),
                i <= self.uses@.len(),
                forall|j: int| 0 <= j < i ==> u[j].0 != alias@,
            decreases self.uses@.len() - i,
        {
            if crate::text::str_eq(self.uses[i].0.as_str(), alias.as_str()) {
                let (a, _) = self.uses.remove(i);
                self.uses.insert(i, (a, absolute));
                proof {
                    assert(uses_model(self.uses@) =~= u.update(i as int, (u[i as int].0, absolute@)));
                    lemma_use_update(u, alias@, absolute@, i as int);
                    assert forall|k: Seq<char>|
                        #[trigger] uses_get(uses_model(self.uses@), k) == if k == alias@ {
                            Some(absolute@)
                        } else {
                            uses_get(u, k)
                        } by {
                        lemma_uses_get_update(u, i as int, absolute@, k);
                    }
                }
                return;
            }
            i = i + 1;
        }
        self.uses.push((alias, absolute));
        proof {
            assert(uses_model(self.uses@) =~= u.push((alias@, absolute@)));
            lemma_use_update(u, alias@, absolute@, u.len() as int);
            lemma_uses_get_absent(u, alias@);
            assert forall|k: Seq<char>|
                #[trigger] uses_get(uses_model(self.uses@), k) == if k == alias@ {
                    Some(absolute@)
                } else {
                    uses_get(u, k)
                } by {
                lemma_uses_get_push(u, alias@, absolute@, k);
            }
        }
    }

    /// Reads one item at the position (see [`file_step`]): its
    /// documentation and attributes, then a `use`, a definition or a
    /// `dispatch`, or passes over one other token.
    #[verifier::rlimit(50)]
    pub fn parse_step(&mut self) -> (r: Result<(), String>)
        requires
            old(self).wf(),
            old(self).index < old(self).tokens@.len(),
        ensures
            final(self).wf(),
            final(self).tokens@ == old(self).tokens@,
            final(self).path@ == old(self).path@,
            final(self).module@ == old(self).module@,
            keys_of(old(self)).subset_of(keys_of(final(self))),
            r is Ok ==> final(self).index > old(self).index,
            match file_step(toks(old(self)), old(self).module@, old(self).index as int, uses_model(old(self).uses@)) {
                Ok((nx, u2, ks)) => r is Ok && final(self).index == nx && uses_model(final(self).uses@) == u2
                    && keys_of(final(self)) == keys_of(old(self)) + ks && grew(
                    &old(self).repo,
                    &final(self).repo,
                    ks,
                ) && (file_top(
                    toks(old(self)),
                    old(self).module@,
                    old(self).index as int,
                    uses_model(old(self).uses@),
                ) matches Some((k, d)) ==> def_at(&final(self).repo, k) == Some(d))
                    && dispatch_keys(&final(self).repo).to_set() == dispatch_keys(&old(self).repo).to_set()
                    + file_step_dispatches(toks(old(self)), old(self).index as int),
                Err(_) => r is Err,
            },
    {
        let ghost ts = toks(old(self));
        let ghost md = old(self).module@;
        let n = self.tokens.len();
        let start = self.index;
        let ghost u = uses_model(self.uses@);
        let ghost mr = meta_from(ts, start as int, no_meta());
        proof {
            reveal(file_step);
            crate::mcdoc::grammar::lemma_meta_from_bound(ts, start as int, no_meta());
        }
        let meta = match self.parse_metadata() {
            Ok(m) => m,
            Err(e) => {
                return Err(e);
            },
        };
        let ghost j = self.index as int;
        let ghost st = match mr {
            Ok((st, _)) => st,
            Err(_) => no_meta(),
        };
        assert(crate::mcdoc::grammar::meta_model(meta) == crate::mcdoc::grammar::meta_of(st));
        if self.eat_word("use") {
            let path = match self.expect_word() {
                Ok(w) => w,
                Err(e) => {
                    return Err(e);
                },
            };
            let absolute = self.resolve_path(path.as_str());
            let mut segments = crate::mcdoc::path_segments(absolute.as_str());
            let ghost segs = crate::mcfd::bridge::views(segments@);
            match segments.pop() {
                Some(alias) => {
                    proof {
                        assert(segs[segs.len() - 1] == alias@);
                    }
                    self.insert_use(alias, absolute);
                    proof {
                        reveal(file_step);
                        assert(file_step(ts, md, start as int, u) == Ok::<
                            (int, Seq<(Seq<char>, Seq<char>)>, Set<Seq<char>>),
                            (),
                        >((self.index as int, uses_model(self.uses@), Set::empty())));
                        assert(keys_of(self) =~= keys_of(old(self)) + Set::empty());
                        lemma_grew_refl(&self.repo);
                        reveal(file_top);
                        reveal_strlit("use");
                        reveal_strlit("struct");
                        reveal_strlit("type");
                        reveal_strlit("enum");
                        reveal_strlit("dispatch");
                        reveal(file_step_dispatches);
                        lemma_no_dispatch(&old(self).repo, &self.repo);
                        assert("use"@.len() == 3 && "struct"@.len() == 6 && "type"@.len() == 4 && "enum"@.len() == 4);
                        assert("use"@[0] != "type"@[0] && "use"@[0] != "enum"@[0]);
                    }
                },
                None => {
                    let mut msg = string_of("invalid use path '");
                    push_str(&mut msg, absolute.as_str());
                    push_str(&mut msg, "' in ");
                    push_str(&mut msg, self.path.as_str());
                    return Err(msg);
                },
            }
            return Ok(());
        }
        if self.eat_word("struct") {
            let name = match self.expect_word() {
                Ok(w) => w,
                Err(e) => {
                    return Err(e);
                },
            };
            let ghost r0 = self.repo;
            let def = match self.parse_struct_after_name(Some(name.clone()), copy_metadata(&meta)) {
                Ok(d) => d,
                Err(e) => {
                    return Err(e);
                },
            };
            let ghost e = self.index as int;
            let ghost k1 = keys_of(self);
            let ghost r1 = self.repo;
            let ghost dv = crate::mcdoc::grammar::struct_view(def);
            let path = self.symbol_path(name.as_str());
            self.define(path, meta, SymbolKind::Struct(def));
            proof {
                match crate::mcdoc::grammar::struct_read(
                    ts,
                    md,
                    j + 2,
                    Some(name@),
                    crate::mcdoc::grammar::meta_of(st),
                ) {
                    Ok((_, e2, p)) => {
                        let ks = p.to_set().insert(symbol_path_of(md, name@));
                        reveal(file_step);
                        assert(file_step(ts, md, start as int, u) == Ok::<
                            (int, Seq<(Seq<char>, Seq<char>)>, Set<Seq<char>>),
                            (),
                        >((self.index as int, u, ks)));
                        assert(keys_of(self) =~= keys_of(old(self)) + ks);
                        lemma_grew_define(&old(self).repo, &r1, &self.repo, p.to_set(), symbol_path_of(md, name@));
                        reveal(file_top);
                        reveal(file_step_dispatches);
                        reveal_strlit("dispatch");
                        reveal_strlit("struct");
                        reveal_strlit("type");
                        assert("dispatch"@.len() == 8 && "struct"@.len() == 6 && "type"@.len() == 4);
                        lemma_no_dispatch(&old(self).repo, &self.repo);
                        assert(file_top(ts, md, start as int, u) == Some(
                            (
                                symbol_path_of(md, name@),
                                DefM {
                                    meta: crate::mcdoc::grammar::meta_of(st),
                                    module: md,
                                    uses: u,
                                    kind: KindM::Struct(dv),
                                },
                            ),
                        ));
                    },
                    Err(_) => {},
                }
            }
            return Ok(());
        }
        if self.eat_word("type") {
            let name = match self.expect_word() {
                Ok(w) => w,
                Err(e) => {
                    return Err(e);
                },
            };
            self.skip_generic_args();
            match self.expect_symbol('=') {
                Ok(()) => {},
                Err(e) => {
                    return Err(e);
                },
            }
            let ghost g1 = self.index as int;
            let expr = match self.parse_type_expr() {
                Ok(t) => t,
                Err(e) => {
                    return Err(e);
                },
            };
            let ghost r1 = self.repo;
            let ghost tv = crate::mcdoc::grammar::type_view(expr);
            let path = self.symbol_path(name.as_str());
            self.define(path, meta, SymbolKind::Alias(expr));
            proof {
                match crate::mcdoc::grammar::type_read(ts, md, g1) {
                    Ok((_, e2, p)) => {
                        let ks = p.to_set().insert(symbol_path_of(md, name@));
                        reveal(file_step);
                        assert(file_step(ts, md, start as int, u) == Ok::<
                            (int, Seq<(Seq<char>, Seq<char>)>, Set<Seq<char>>),
                            (),
                        >((self.index as int, u, ks)));
                        assert(keys_of(self) =~= keys_of(old(self)) + ks);
                        lemma_grew_define(&old(self).repo, &r1, &self.repo, p.to_set(), symbol_path_of(md, name@));
                        reveal(file_top);
                        reveal(file_step_dispatches);
                        reveal_strlit("dispatch");
                        reveal_strlit("struct");
                        reveal_strlit("type");
                        assert("dispatch"@.len() == 8 && "struct"@.len() == 6 && "type"@.len() == 4);
                        lemma_no_dispatch(&old(self).repo, &self.repo);
                        assert(file_top(ts, md, start as int, u) == Some(
                            (
                                symbol_path_of(md, name@),
                                DefM {
                                    meta: crate::mcdoc::grammar::meta_of(st),
                                    module: md,
                                    uses: u,
                                    kind: KindM::Alias(tv),
                                },
                            ),
                        ));
                    },
                    Err(_) => {},
                }
            }
            return Ok(());
        }
        if self.eat_word("enum") {
            let underlying = match self.parse_enum_underlying() {
                Ok(u) => u,
                Err(e) => {
                    return Err(e);
                },
            };
            let name = match self.expect_word() {
                Ok(w) => w,
                Err(e) => {
                    return Err(e);
                },
            };
            match self.skip_block() {
                Ok(()) => {},
                Err(e) => {
                    return Err(e);
                },
            }
            let ghost uv = underlying@;
            proof {
                lemma_grew_refl(&self.repo);
            }
            let ghost r1 = self.repo;
            let path = self.symbol_path(name.as_str());
            self.define(path, meta, SymbolKind::Enum { underlying });
            proof {
                let ks = Set::<Seq<char>>::empty().insert(symbol_path_of(md, name@));
                reveal(file_step);
                assert(file_step(ts, md, start as int, u) == Ok::<
                    (int, Seq<(Seq<char>, Seq<char>)>, Set<Seq<char>>),
                    (),
                >((self.index as int, u, ks)));
                assert(keys_of(self) =~= keys_of(old(self)) + ks);
                lemma_grew_define(&old(self).repo, &r1, &self.repo, Set::empty(), symbol_path_of(md, name@));
                reveal(file_top);
                reveal(file_step_dispatches);
                reveal_strlit("dispatch");
                reveal_strlit("enum");
                assert("dispatch"@.len() == 8 && "enum"@.len() == 4);
                lemma_no_dispatch(&old(self).repo, &self.repo);
                assert(file_top(ts, md, start as int, u) == Some(
                    (
                        symbol_path_of(md, name@),
                        DefM {
                            meta: crate::mcdoc::grammar::meta_of(st),
                            module: md,
                            uses: u,
                            kind: KindM::Enum(uv),
                        },
                    ),
                ));
            }
            return Ok(());
        }
        if self.eat_word("dispatch") {
            let dispatcher = match self.expect_word() {
                Ok(w) => w,
                Err(e) => {
                    return Err(e);
                },
            };
            let keys = match self.parse_dispatch_keys_definition() {
                Ok(k) => k,
                Err(e) => {
                    return Err(e);
                },
            };
            match self.expect_word_exact("to") {
                Ok(()) => {},
                Err(e) => {
                    return Err(e);
                },
            }
            let ghost t1 = self.index as int;
            let target = match self.parse_type_expr() {
                Ok(t) => t,
                Err(e) => {
                    return Err(e);
                },
            };
            let ghost after = self.index;
            let ghost k2 = keys_of(self);
            let ghost r1 = self.repo;
            let ghost kv = crate::mcfd::bridge::views(keys@);
            let ghost dk0 = dispatch_keys(&old(self).repo).to_set();
            proof {
                assert(dispatch_keys(&self.repo) =~= dispatch_keys(&old(self).repo));
                assert(pairs_of(dispatcher@, kv.take(0)) =~= Set::empty());
                assert(dk0 + Set::empty() =~= dk0);
            }
            if keys.len() > 0 {
                let context = self.context();
                let def = self.repo.add_dispatch_def(DispatchDef { meta, context, target });
                let mut k: usize = 0;
                while k < keys.len()
                    invariant
                        self.wf(),
                        n == self.tokens@.len(),
                        self.tokens@ == old(self).tokens@,
                        self.path@ == old(self).path@,
                        self.module@ == old(self).module@,
                        self.index == after,
                        uses_model(self.uses@) == u,
                        keys_of(self) == k2,
                        self.repo.symbols@ == r1.symbols@,
                        def < self.repo.dispatch_defs@.len(),
                        k <= keys@.len(),
                        kv == crate::mcfd::bridge::views(keys@),
                        dispatch_keys(&self.repo).to_set() == dk0 + pairs_of(dispatcher@, kv.take(k as int)),
                    decreases keys@.len() - k,
                {
                    self.repo.insert_dispatch(dispatcher.clone(), keys[k].clone(), def);
                    proof {
                        assert(kv[k as int] == keys@[k as int]@);
                        assert(kv.take(k + 1) =~= kv.take(k as int).push(kv[k as int]));
                        assert forall|x: Seq<char>| kv.take(k + 1).contains(x) <==> (kv.take(
                            k as int,
                        ).contains(x) || x == kv[k as int]) by {
                            if kv.take(k + 1).contains(x) {
                                let q = choose|q: int| 0 <= q < k + 1 && #[trigger] kv.take(k + 1)[q] == x;
                                if q < k {
                                    assert(kv.take(k as int)[q] == x);
                                }
                            }
                            if kv.take(k as int).contains(x) {
                                let q = choose|q: int| 0 <= q < k && #[trigger] kv.take(k as int)[q] == x;
                                assert(kv.take(k + 1)[q] == x);
                            }
                            if x == kv[k as int] {
                                assert(kv.take(k + 1)[k as int] == x);
                            }
                        }
                        assert forall|pr: (Seq<char>, Seq<char>)| #[trigger] pairs_of(
                            dispatcher@,
                            kv.take(k + 1),
                        ).contains(pr) <==> (pairs_of(dispatcher@, kv.take(k as int)).contains(pr) || pr == (
                            dispatcher@,
                            kv[k as int],
                        )) by {
                            assert(kv.take(k + 1).contains(pr.1) <==> (kv.take(k as int).contains(pr.1)
                                || pr.1 == kv[k as int]));
                        }
                        assert(dk0 + pairs_of(dispatcher@, kv.take(k + 1)) =~= (dk0 + pairs_of(
                            dispatcher@,
                            kv.take(k as int),
                        )).insert((dispatcher@, kv[k as int])));
                    }
                    k = k + 1;
                }
                proof {
                    assert(kv.take(k as int) =~= kv);
                }
            } else {
                proof {
                    assert(kv =~= Seq::<Seq<char>>::empty());
                    assert(pairs_of(dispatcher@, kv) =~= Set::empty());
                }
            }
            proof {
                match crate::mcdoc::grammar::type_read(ts, md, t1) {
                    Ok((_, e2, p)) => {
                        let ks = p.to_set();
                        reveal(file_step);
                        assert(file_step(ts, md, start as int, u) == Ok::<
                            (int, Seq<(Seq<char>, Seq<char>)>, Set<Seq<char>>),
                            (),
                        >((self.index as int, u, ks)));
                        assert(keys_of(self) =~= keys_of(old(self)) + ks);
                        lemma_grew_same_symbols(&old(self).repo, &r1, &self.repo, ks);
                        reveal(file_top);
                        reveal(file_step_dispatches);
                    },
                    Err(_) => {},
                }
            }
            return Ok(());
        }
        if self.index < n {
            self.index = self.index + 1;
        }
        proof {
            reveal(file_step);
            reveal(file_top);
            reveal(file_step_dispatches);
            assert(keys_of(self) =~= keys_of(old(self)) + Set::empty());
            lemma_grew_refl(&self.repo);
            lemma_no_dispatch(&old(self).repo, &self.repo);
        }
        Ok(())
    }

    /// Reads every definition of the file into the repository: `use`
    /// imports, `struct`, `type` and `enum` definitions, and `dispatch`
    /// statements; other tokens are passed over. `Ok` when the whole file
    /// was read; the definition paths it adds are those of [`file_keys`].
    pub fn parse(&mut self) -> (r: Result<(), String>)
        requires
            old(self).wf(),
        ensures
            final(self).wf(),
            final(self).tokens@ == old(self).tokens@,
            final(self).path@ == old(self).path@,
            final(self).module@ == old(self).module@,
            keys_of(old(self)).subset_of(keys_of(final(self))),
            match file_keys(
                toks(old(self)),
                old(self).module@,
                old(self).index as int,
                uses_model(old(self).uses@),
            ) {
                Ok(ks) => r is Ok && keys_of(final(self)) == keys_of(old(self)) + ks
                    && dispatch_keys(&final(self).repo).to_set() == dispatch_keys(&old(self).repo).to_set()
                    + file_dispatches(
                    toks(old(self)),
                    old(self).module@,
                    old(self).index as int,
                    uses_model(old(self).uses@),
                )
                    && final(self).index == final(self).tokens@.len() && grew(&old(self).repo, &final(self).repo, ks)
                    && forall|k: Seq<char>|
                    #[trigger] file_known(
                        toks(old(self)),
                        old(self).module@,
                        old(self).index as int,
                        uses_model(old(self).uses@),
                    ).contains_key(k) ==> def_at(&final(self).repo, k) == Some(
                        file_known(
                            toks(old(self)),
                            old(self).module@,
                            old(self).index as int,
                            uses_model(old(self).uses@),
                        )[k],
                    ),
                Err(_) => r is Err,
            },
    {
        let ghost ts = toks(old(self));
        let ghost md = old(self).module@;
        let ghost whole = file_keys(ts, md, old(self).index as int, uses_model(old(self).uses@));
        let ghost mut added: Set<Seq<char>> = Set::empty();
        let ghost wholek = file_known(ts, md, old(self).index as int, uses_model(old(self).uses@));
        let ghost mut acc: Map<Seq<char>, DefM> = Map::empty();
        let ghost wholed = file_dispatches(ts, md, old(self).index as int, uses_model(old(self).uses@));
        let ghost mut dadded: Set<(Seq<char>, Seq<char>)> = Set::empty();
        proof {
            assert(dispatch_keys(&self.repo).to_set() =~= dispatch_keys(&old(self).repo).to_set() + dadded);
            assert(dadded + wholed =~= wholed);
            lemma_grew_refl(&self.repo);
            assert(added =~= Set::<Seq<char>>::empty());
            match whole {
                Ok(rest) => {
                    assert(acc.remove_keys(rest).union_prefer_right(wholek) =~= wholek);
                },
                Err(_) => {},
            }
            match whole {
                Ok(rest) => {
                    assert(Set::<Seq<char>>::empty() + rest =~= rest);
                },
                Err(_) => {},
            }
            assert(keys_of(self) =~= keys_of(old(self)) + added);
        }
        let n = self.tokens.len();
        while self.index < n
            invariant
                self.wf(),
                n == self.tokens@.len(),
                self.tokens@ == old(self).tokens@,
                self.path@ == old(self).path@,
                self.module@ == old(self).module@,
                ts == toks(old(self)),
                md == old(self).module@,
                whole == file_keys(ts, md, old(self).index as int, uses_model(old(self).uses@)),
                keys_of(old(self)).subset_of(keys_of(self)),
                keys_of(self) == keys_of(old(self)) + added,
                grew(&old(self).repo, &self.repo, added),
                wholed == file_dispatches(ts, md, old(self).index as int, uses_model(old(self).uses@)),
                dispatch_keys(&self.repo).to_set() == dispatch_keys(&old(self).repo).to_set() + dadded,
                file_keys(ts, md, self.index as int, uses_model(self.uses@)) is Ok ==> wholed == dadded
                    + file_dispatches(ts, md, self.index as int, uses_model(self.uses@)),
                wholek == file_known(ts, md, old(self).index as int, uses_model(old(self).uses@)),
                forall|k: Seq<char>| #[trigger] acc.contains_key(k) ==> def_at(&self.repo, k) == Some(acc[k]),
                match file_keys(ts, md, self.index as int, uses_model(self.uses@)) {
                    Ok(rest) => wholek == acc.remove_keys(rest).union_prefer_right(
                        file_known(ts, md, self.index as int, uses_model(self.uses@)),
                    ),
                    Err(_) => true,
                },
                whole == match file_keys(ts, md, self.index as int, uses_model(self.uses@)) {
                    Ok(rest) => Ok::<Set<Seq<char>>, ()>(added + rest),
                    Err(_) => Err(()),
                },
            decreases n - self.index,
        {
            let ghost start = self.index as int;
            let ghost u = uses_model(self.uses@);
            let ghost prev = self.repo;
            let ghost dprev = dispatch_keys(&self.repo).to_set();
            let r = self.parse_step();
            match r {
                Ok(()) => {},
                Err(e) => {
                    proof {
                        lemma_file_keys_err(ts, md, start, u);
                    }
                    return Err(e);
                },
            }
            proof {
                match file_step(ts, md, start, u) {
                    Ok((nx, u2, ks)) => {
                        lemma_file_keys_step(ts, md, start, u, added, nx, u2, ks);
                        assert(keys_of(self) =~= (keys_of(old(self)) + added) + ks);
                        lemma_grew_trans(&old(self).repo, &prev, &self.repo, added, ks);
                        let tm = top_map(file_top(ts, md, start, u));
                        match file_keys(ts, md, nx, u2) {
                            Ok(restn) => {
                                lemma_known_assoc(acc, ks, tm, restn, file_known(ts, md, nx, u2));
                            },
                            Err(_) => {},
                        }
                        let acc2 = acc.remove_keys(ks).union_prefer_right(tm);
                        assert forall|k: Seq<char>| #[trigger] acc2.contains_key(k) implies def_at(
                            &self.repo,
                            k,
                        ) == Some(acc2[k]) by {
                            if !tm.contains_key(k) {
                                assert(acc.contains_key(k) && !ks.contains(k));
                                assert(def_at(&self.repo, k) == def_at(&prev, k));
                            }
                        }
                        acc = acc2;
                        added = added + ks;
                        let sd = file_step_dispatches(ts, start);
                        assert(dispatch_keys(&self.repo).to_set() =~= dispatch_keys(&old(self).repo).to_set()
                            + (dadded + sd));
                        assert(dadded + (sd + file_dispatches(ts, md, nx, u2)) =~= (dadded + sd)
                            + file_dispatches(ts, md, nx, u2));
                        dadded = dadded + sd;
                    },
                    Err(_) => {},
                }
            }
        }
        proof {
            assert(added + Set::<Seq<char>>::empty() =~= added);
            assert(acc.remove_keys(Set::empty()).union_prefer_right(Map::empty()) =~= acc);
            assert(dadded + Set::<(Seq<char>, Seq<char>)>::empty() =~= dadded);
        }
        Ok(())
    }
}

/// Files (path and source) as plain values.
pub open spec fn files_model(files: Seq<(String, String)>) -> Seq<(Seq<char>, Seq<char>)> {
    files.map_values(|f: (String, String)| (f.0@, f.1@))
}

/// The definition paths that reading `files` (path and source) in order
/// gives, each file in the module its path names and with no imports at
/// its start; `Err` where a file cannot be cut into tokens or read.
pub open spec fn files_keys(files: Seq<(Seq<char>, Seq<char>)>) -> Result<Set<Seq<char>>, ()>
    decreases files.len(),
{
    if files.len() == 0 {
        Ok(Set::empty())
    } else {
        match files_keys(files.drop_last()) {
            Err(_) => Err(()),
            Ok(ks) => match crate::mcdoc::lex_from(files.last().1, 0) {
                Err(_) => Err(()),
                Ok(ts) => match file_keys(ts, crate::mcdoc::file_module(files.last().0), 0, Seq::empty()) {
                    Err(_) => Err(()),
                    Ok(k2) => Ok(ks + k2),
                },
            },
        }
    }
}

/// The definitions that reading `files` in order leaves known: those each
/// file leaves known (see [`file_known`]), where no later file adds the
/// path again.
pub open spec fn files_known(files: Seq<(Seq<char>, Seq<char>)>) -> Map<Seq<char>, DefM>
    decreases files.len(),
{
    if files.len() == 0 {
        Map::empty()
    } else {
        match files_keys(files.drop_last()) {
            Err(_) => Map::empty(),
            Ok(_) => match crate::mcdoc::lex_from(files.last().1, 0) {
                Err(_) => Map::empty(),
                Ok(ts) => {
                    let m = crate::mcdoc::file_module(files.last().0);
                    match file_keys(ts, m, 0, Seq::empty()) {
                        Err(_) => Map::empty(),
                        Ok(k2) => files_known(files.drop_last()).remove_keys(k2).union_prefer_right(
                            file_known(ts, m, 0, Seq::empty()),
                        ),
                    }
                },
            },
        }
    }
}

/// The dispatcher keys that reading `files` in order links.
pub open spec fn files_dispatches(files: Seq<(Seq<char>, Seq<char>)>) -> Set<(Seq<char>, Seq<char>)>
    decreases files.len(),
{
    if files.len() == 0 {
        Set::empty()
    } else {
        match files_keys(files.drop_last()) {
            Err(_) => Set::empty(),
            Ok(_) => match crate::mcdoc::lex_from(files.last().1, 0) {
                Err(_) => Set::empty(),
                Ok(ts) => {
                    let m = crate::mcdoc::file_module(files.last().0);
                    match file_keys(ts, m, 0, Seq::empty()) {
                        Err(_) => Set::empty(),
                        Ok(_) => files_dispatches(files.drop_last()) + file_dispatches(ts, m, 0, Seq::empty()),
                    }
                },
            },
        }
    }
}

pub proof fn lemma_files_keys_prefix(fs: Seq<(Seq<char>, Seq<char>)>, i: int)
    requires
        0 <= i <= fs.len(),
        files_keys(fs.take(i)) is Err,
    ensures
        files_keys(fs) is Err,
    decreases fs.len(),
{
    if i == fs.len() {
        assert(fs.take(i) =~= fs);
    } else {
        assert(fs.drop_last().take(i) =~= fs.take(i));
        lemma_files_keys_prefix(fs.drop_last(), i);
    }
}

impl ParsedRepo {
    /// Reads the files (path and source, in path order) into a repository;
    /// the definition paths it holds are those of [`files_keys`].
    pub fn parse(files: &Vec<(String, String)>) -> (r: Result<ParsedRepo, String>)
        ensures
            match files_keys(files_model(files@)) {
                Ok(ks) => r matches Ok(repo) && repo.wf() && symbol_keys(&repo).to_set() == ks
                    && dispatch_keys(&repo).to_set() == files_dispatches(files_model(files@)) && forall|
                    k: Seq<char>,
                | #[trigger] files_known(files_model(files@)).contains_key(k) ==> def_at(&repo, k) == Some(
                    files_known(files_model(files@))[k],
                ),
                Err(_) => r is Err,
            },
    {
        let ghost fs = files_model(files@);
        let mut repo = ParsedRepo::new();
        let mut i: usize = 0;
        proof {
            assert(fs.take(0) =~= Seq::<(Seq<char>, Seq<char>)>::empty());
            assert(symbol_keys(&repo).to_set() =~= Set::<Seq<char>>::empty());
            assert(dispatch_keys(&repo).to_set() =~= Set::<(Seq<char>, Seq<char>)>::empty());
        }
        while i < files.len()
            invariant
                repo.wf(),
                i <= files@.len(),
                fs == files_model(files@),
                files_keys(fs.take(i as int)) == Ok::<Set<Seq<char>>, ()>(symbol_keys(&repo).to_set()),
                dispatch_keys(&repo).to_set() == files_dispatches(fs.take(i as int)),
                forall|k: Seq<char>| #[trigger] files_known(fs.take(i as int)).contains_key(k) ==> def_at(&repo, k)
                    == Some(files_known(fs.take(i as int))[k]),
            decreases files@.len() - i,
        {
            let ghost pre = symbol_keys(&repo).to_set();
            proof {
                assert(fs.take(i + 1).drop_last() =~= fs.take(i as int));
                assert(fs.take(i + 1).last() == fs[i as int]);
            }
            let module = crate::mcdoc::module_path_for_file(files[i].0.as_str());
            let mut parser = match FileParser::new(
                files[i].0.as_str(),
                files[i].1.as_str(),
                module.as_str(),
                repo,
            ) {
                Ok(p) => p,
                Err(e) => {
                    proof {
                        lemma_files_keys_prefix(fs, i + 1);
                    }
                    return Err(e);
                },
            };
            proof {
                assert(uses_model(parser.uses@) =~= Seq::<(Seq<char>, Seq<char>)>::empty());
            }
            match parser.parse() {
                Ok(()) => {},
                Err(e) => {
                    proof {
                        lemma_files_keys_prefix(fs, i + 1);
                    }
                    return Err(e);
                },
            }
            let ghost prev = repo;
            repo = parser.repo;
            proof {
                let fk = files_known(fs.take(i as int));
                assert forall|k: Seq<char>| #[trigger] files_known(fs.take(i + 1)).contains_key(k) implies def_at(
                    &repo,
                    k,
                ) == Some(files_known(fs.take(i + 1))[k]) by {
                    match crate::mcdoc::lex_from(fs[i as int].1, 0) {
                        Ok(ts) => {
                            let m = crate::mcdoc::file_module(fs[i as int].0);
                            match file_keys(ts, m, 0, Seq::empty()) {
                                Ok(k2) => {
                                    if !file_known(ts, m, 0, Seq::empty()).contains_key(k) {
                                        assert(fk.contains_key(k) && !k2.contains(k));
                                        assert(def_at(&repo, k) == def_at(&prev, k));
                                    }
                                },
                                Err(_) => {},
                            }
                        },
                        Err(_) => {},
                    }
                }
            }
            i = i + 1;
        }
        proof {
            assert(fs.take(files@.len() as int) =~= fs);
        }
        Ok(repo)
    }
}

} // verus!

verus! {

pub open spec fn type_size(t: TypeExpr) -> nat
    decreases t,
{
    match t {
        TypeExpr::Struct(d) => 1 + entries_size(d.entries@),
        TypeExpr::List(b) => 1 + type_size(*b),
        TypeExpr::Union(vs) => 1 + variants_size(vs@),
        _ => 1,
    }
}

pub open spec fn variants_size(vs: Seq<UnionVariant>) -> nat
    decreases vs,
{
    if vs.len() == 0 {
        0
    } else {
        type_size(vs.last().ty) + variants_size(vs.drop_last())
    }
}

pub open spec fn entries_size(es: Seq<StructEntry>) -> nat
    decreases es,
{
    if es.len() == 0 {
        0
    } else {
        entry_size(es.last()) + entries_size(es.drop_last())
    }
}

pub open spec fn entry_size(e: StructEntry) -> nat
    decreases e,
{
    match e {
        StructEntry::Field { ty, .. } => 1 + type_size(ty),
        StructEntry::Spread { ty, .. } => 1 + type_size(ty),
        StructEntry::Dynamic { value_ty, .. } => 1 + type_size(value_ty),
    }
}


proof fn lemma_uses_get_member(uses: Seq<(Seq<char>, Seq<char>)>, k: Seq<char>)
    ensures
        uses_get(uses, k) matches Some(v) ==> exists|j: int| 0 <= j < uses.len() && #[trigger] uses[j].1 == v,
    decreases uses.len(),
{
    if uses.len() > 0 && uses[0].0 != k {
        lemma_uses_get_member(uses.drop_first(), k);
        if let Some(v) = uses_get(uses.drop_first(), k) {
            let j = choose|j: int| 0 <= j < uses.drop_first().len() && #[trigger] uses.drop_first()[j].1 == v;
            assert(uses[j + 1].1 == v);
        }
    } else if uses.len() > 0 {
        assert(uses[0].1 == uses[0].1);
    }
}

proof fn lemma_absolute_prefix(a: Seq<char>, b: Seq<char>)
    requires
        crate::mcdoc::at(a, 0, "::"@),
    ensures
        crate::mcdoc::at(a + b, 0, "::"@),
{
    reveal_strlit("::");
    assert((a + b).subrange(0, 2) =~= a.subrange(0, 2));
}

/// Names resolve to absolute paths (starting with `::`) wherever the module
/// path and the imports are absolute.
pub proof fn law_resolved_names_are_absolute(
    raw: Seq<char>,
    module: Seq<char>,
    uses: Seq<(Seq<char>, Seq<char>)>,
    in_file: bool,
)
    requires
        crate::mcdoc::at(module, 0, "::"@),
        forall|j: int| 0 <= j < uses.len() ==> crate::mcdoc::at(#[trigger] uses[j].1, 0, "::"@),
    ensures
        crate::mcdoc::at(resolve_name(raw, module, uses, in_file), 0, "::"@),
{
    reveal_strlit("::");
    assert(crate::mcdoc::at("::"@, 0, "::"@)) by {
        assert("::"@.subrange(0, 2) =~= "::"@);
    }
    if crate::mcdoc::at(raw, 0, "::"@) {
    } else if crate::mcdoc::at(raw, 0, "super::"@) {
        let (k, rem) = strip_supers(raw);
        let segs = crate::mcdoc::nonempty(crate::mcdoc::split_on(module, "::"@));
        let kept = if k <= segs.len() {
            segs.take(segs.len() - k)
        } else {
            Seq::empty()
        };
        lemma_absolute_prefix("::"@, crate::text::join(kept, "::"@));
        lemma_absolute_prefix("::"@, rem);
        lemma_absolute_prefix("::"@, crate::text::join(kept, "::"@) + "::"@ + rem);
        assert("::"@ + crate::text::join(kept, "::"@) + "::"@ + rem =~= "::"@ + (crate::text::join(
            kept,
            "::"@,
        ) + "::"@ + rem));
    } else {
        lemma_uses_get_member(uses, raw);
        match uses_get(uses, raw) {
            Some(a) => {
                let j = choose|j: int| 0 <= j < uses.len() && #[trigger] uses[j].1 == a;
                assert(crate::mcdoc::at(uses[j].1, 0, "::"@));
            },
            None => match crate::mcfd::handlers::find_from(raw, "::"@, 0) {
                Some(j) if 0 <= j && j + 2 <= raw.len() && uses_get(uses, raw.take(j)) is Some => {
                    lemma_uses_get_member(uses, raw.take(j));
                    let a = uses_get(uses, raw.take(j)).unwrap();
                    let m = choose|m: int| 0 <= m < uses.len() && #[trigger] uses[m].1 == a;
                    assert(crate::mcdoc::at(uses[m].1, 0, "::"@));
                    lemma_absolute_prefix(a, "::"@ + raw.skip(j + 2));
                    assert(a + "::"@ + raw.skip(j + 2) =~= a + ("::"@ + raw.skip(j + 2)));
                },
                _ => {
                    if module == "::"@ {
                        lemma_absolute_prefix("::"@, raw);
                    } else {
                        lemma_absolute_prefix(module, "::"@ + raw);
                        assert(module + "::"@ + raw =~= module + ("::"@ + raw));
                    }
                },
            },
        }
    }
}

} // verus!
