//! The grammar of `.mcdoc` type expressions and struct bodies over tokens:
//! what the parser reads from a position, where it stops, and which named
//! definitions it finds inline.
use vstd::prelude::*;

use crate::mcdoc::parser::{
    annotations_end, balanced_end, closing_at, collect_until, generic_end, is_primitive,
    meta_from, no_meta, skip_commas, symbol_path_of, version_opt, DispatchRefKey, MetaState,
    StructDef, StructEntry, TypeExpr, UnionVariant,
};
use crate::mcdoc::{Metadata, TokenModel};

verus! {

/// Metadata as plain values: documentation, version bounds, canonical flag.
pub struct MetaModel {
    pub doc: Seq<char>,
    pub since: Option<Seq<u32>>,
    pub until: Option<Seq<u32>>,
    pub canonical: bool,
}

pub open spec fn meta_model(m: Metadata) -> MetaModel {
    MetaModel {
        doc: m.documentation@,
        since: version_opt(m.since),
        until: version_opt(m.until),
        canonical: m.canonical,
    }
}

/// The metadata that documentation lines and attributes make.
pub open spec fn meta_of(st: MetaState) -> MetaModel {
    MetaModel {
        doc: crate::text::join(st.docs, "\n"@),
        since: st.since,
        until: st.until,
        canonical: st.canonical,
    }
}

/// A type expression as plain values.
pub enum TypeModel {
    Primitive(Seq<char>),
    Struct(StructModel),
    Reference(Seq<char>),
    DispatchRef(Seq<char>, Option<Seq<Seq<char>>>),
    List(Box<TypeModel>),
    Union(Seq<VariantModel>),
    Enum(Seq<char>),
    Unknown,
}

/// A struct body as plain values.
pub struct StructModel {
    pub name: Option<Seq<char>>,
    pub entries: Seq<EntryModel>,
}

/// A struct entry as plain values.
pub enum EntryModel {
    Field(MetaModel, Seq<char>, TypeModel),
    Spread(MetaModel, TypeModel),
    Dynamic(MetaModel, TypeModel),
}

/// A union alternative as plain values.
pub struct VariantModel {
    pub meta: MetaModel,
    pub ty: TypeModel,
}

pub open spec fn type_view(t: TypeExpr) -> TypeModel
    decreases t,
{
    match t {
        TypeExpr::Primitive(s) => TypeModel::Primitive(s@),
        TypeExpr::Struct(d) => TypeModel::Struct(struct_view(d)),
        TypeExpr::Reference(s) => TypeModel::Reference(s@),
        TypeExpr::DispatchRef(d) => TypeModel::DispatchRef(
            d.dispatcher@,
            match d.key {
                DispatchRefKey::Literal(keys) => Some(crate::mcfd::bridge::views(keys@)),
                DispatchRefKey::Dynamic => None,
            },
        ),
        TypeExpr::List(b) => TypeModel::List(Box::new(type_view(*b))),
        TypeExpr::Union(vs) => TypeModel::Union(variants_view(vs@)),
        TypeExpr::Enum(s) => TypeModel::Enum(s@),
        TypeExpr::Unknown => TypeModel::Unknown,
    }
}

pub open spec fn struct_view(d: StructDef) -> StructModel
    decreases d,
{
    StructModel {
        name: match d.name {
            Some(n) => Some(n@),
            None => None,
        },
        entries: entries_view(d.entries@),
    }
}

pub open spec fn entries_view(es: Seq<StructEntry>) -> Seq<EntryModel>
    decreases es,
{
    if es.len() == 0 {
        Seq::empty()
    } else {
        entries_view(es.drop_last()).push(entry_view(es.last()))
    }
}

pub proof fn lemma_entries_view_push(es: Seq<StructEntry>, e: StructEntry)
    ensures
        entries_view(es.push(e)) == entries_view(es).push(entry_view(e)),
{
    assert(es.push(e).drop_last() =~= es);
}

pub open spec fn entry_view(e: StructEntry) -> EntryModel
    decreases e,
{
    match e {
        StructEntry::Field { meta, name, ty } => EntryModel::Field(meta_model(meta), name@, type_view(ty)),
        StructEntry::Spread { meta, ty } => EntryModel::Spread(meta_model(meta), type_view(ty)),
        StructEntry::Dynamic { meta, value_ty } => EntryModel::Dynamic(
            meta_model(meta),
            type_view(value_ty),
        ),
    }
}

pub open spec fn variants_view(vs: Seq<UnionVariant>) -> Seq<VariantModel>
    decreases vs,
{
    if vs.len() == 0 {
        Seq::empty()
    } else {
        variants_view(vs.drop_last()).push(
            VariantModel { meta: meta_model(vs.last().meta), ty: type_view(vs.last().ty) },
        )
    }
}

/// The token at `i`, if there is one.
pub open spec fn tok(ts: Seq<TokenModel>, i: int) -> Option<TokenModel> {
    if 0 <= i < ts.len() {
        Some(ts[i])
    } else {
        None
    }
}

/// What reading a type, struct or union gives: the model, where reading
/// stopped, and the paths of the named definitions met inline.
pub type Read<T> = Result<(T, int, Seq<Seq<char>>), ()>;

/// A type named by a word: a primitive or a reference.
pub open spec fn base_type(raw: Seq<char>) -> TypeModel {
    if is_primitive(raw) {
        TypeModel::Primitive(raw)
    } else {
        TypeModel::Reference(raw)
    }
}

/// The literal keys of a dispatch reference from `k` on, up to the `]`.
#[verifier::opaque]
pub open spec fn literal_keys(ts: Seq<TokenModel>, k: int) -> Option<(Seq<Seq<char>>, int)>
    decreases ts.len() - k,
{
    let v = match tok(ts, k) {
        Some(TokenModel::Word(v)) => Some(v),
        Some(TokenModel::Quoted(v)) => Some(v),
        _ => None,
    };
    match v {
        None => None,
        Some(v) => if tok(ts, k + 1) == Some(TokenModel::Symbol(',')) {
            match literal_keys(ts, k + 2) {
                Some((vs, e)) => Some((seq![v] + vs, e)),
                None => None,
            }
        } else if tok(ts, k + 1) == Some(TokenModel::Symbol(']')) {
            Some((seq![v], k + 2))
        } else {
            None
        },
    }
}

/// What follows a type word at `g`: `[]` list suffixes, or a dispatch
/// reference `[key, ...]` / `[[...]]`.
#[verifier::opaque]
pub open spec fn suffix_read(ts: Seq<TokenModel>, g: int, raw: Seq<char>, base: TypeModel) -> Read<TypeModel>
    decreases ts.len() - g,
{
    if tok(ts, g) != Some(TokenModel::Symbol('[')) {
        Ok((base, g, Seq::empty()))
    } else if tok(ts, g + 1) == Some(TokenModel::Symbol(']')) {
        suffix_read(ts, g + 2, raw, TypeModel::List(Box::new(base)))
    } else if tok(ts, g + 1) == Some(TokenModel::Symbol('[')) {
        match collect_until(ts, g + 2, ']') {
            None => Err(()),
            Some((_, c)) => if tok(ts, c + 1) == Some(TokenModel::Symbol(']')) {
                Ok((TypeModel::DispatchRef(raw, None), c + 2, Seq::empty()))
            } else {
                Err(())
            },
        }
    } else {
        match literal_keys(ts, g + 1) {
            None => Err(()),
            Some((keys, e)) => Ok((TypeModel::DispatchRef(raw, Some(keys)), e, Seq::empty())),
        }
    }
}

pub proof fn lemma_meta_from_bound(ts: Seq<TokenModel>, i: int, st: MetaState)
    requires
        0 <= i <= ts.len(),
    ensures
        meta_from(ts, i, st) matches Ok((_, e)) ==> i <= e <= ts.len(),
    decreases ts.len() - i,
{
    reveal_strlit("since");
    if i < ts.len() {
        match ts[i] {
            TokenModel::Doc(d) => lemma_meta_from_bound(ts, i + 1, MetaState { docs: st.docs.push(d), ..st }),
            TokenModel::AttrStart => if i + 1 < ts.len() && ts[i + 1] is Word {
                let name = ts[i + 1]->Word_0;
                let k = i + 2;
                let eq = k < ts.len() && ts[k] == TokenModel::Symbol('=');
                if !(eq && crate::mcdoc::parser::value_at(ts, k + 1) is None) {
                    let value = if eq {
                        crate::mcdoc::parser::value_at(ts, k + 1)
                    } else {
                        None
                    };
                    let from = if eq {
                        k + 2
                    } else {
                        k
                    };
                    crate::mcdoc::parser::lemma_bracket_end(ts, from, 1);
                    match crate::mcdoc::parser::bracket_end(ts, from, 1) {
                        None => {},
                        Some(e) => match crate::mcdoc::parser::apply_attribute(st, name, value) {
                            Err(_) => {},
                            Ok(st2) => lemma_meta_from_bound(ts, e, st2),
                        },
                    }
                }
            },
            _ => {},
        }
    }
}

/// A type expression from `i`: one alternative, or several separated by
/// `|` (a union); an empty union where a closing bracket comes first.
#[verifier::opaque]
pub open spec fn type_read(ts: Seq<TokenModel>, m: Seq<char>, i: int) -> Read<TypeModel>
    decreases ts.len() - i, 3nat,
{
    if i < 0 || i > ts.len() {
        Err(())
    } else {
        match union_read(ts, m, i, Seq::empty(), Seq::empty()) {
            Err(u) => Err(u),
            Ok((vs, e, p)) => if vs.len() == 1 {
                Ok((vs[0].ty, e, p))
            } else {
                Ok((TypeModel::Union(vs), e, p))
            },
        }
    }
}

/// The alternatives of a union from `i` on, after those in `acc`.
#[verifier::opaque]
pub open spec fn union_read(
    ts: Seq<TokenModel>,
    m: Seq<char>,
    i: int,
    acc: Seq<VariantModel>,
    paths: Seq<Seq<char>>,
) -> Read<Seq<VariantModel>>
    decreases ts.len() - i, 2nat,
{
    if i < 0 || i > ts.len() {
        Err(())
    } else {
        proof {
            lemma_meta_from_bound(ts, i, no_meta());
        }
        match meta_from(ts, i, no_meta()) {
            Err(u) => Err(u),
            Ok((st, e1)) => if closing_at(ts, e1) {
                Ok((acc, e1, paths))
            } else {
                match atom_read(ts, m, e1) {
                    Err(u) => Err(u),
                    Ok((t, e2, p2)) => if e2 <= e1 || e2 > ts.len() {
                        Err(())
                    } else {
                        let e3 = annotations_end(ts, e2);
                        let acc2 = acc.push(VariantModel { meta: meta_of(st), ty: t });
                        if !(tok(ts, e3) == Some(TokenModel::Symbol('|'))) {
                            Ok((acc2, e3, paths + p2))
                        } else if closing_at(ts, e3 + 1) {
                            Ok((acc2, e3 + 1, paths + p2))
                        } else if e3 < e2 {
                            Err(())
                        } else {
                            union_read(ts, m, e3 + 1, acc2, paths + p2)
                        }
                    },
                }
            },
        }
    }
}

/// One alternative of a type at `i`.
#[verifier::opaque]
pub open spec fn atom_read(ts: Seq<TokenModel>, m: Seq<char>, i: int) -> Read<TypeModel>
    decreases ts.len() - i, 1nat,
{
    if i < 0 || i >= ts.len() {
        Err(())
    } else if ts[i] == TokenModel::Word("struct"@) {
        match tok(ts, i + 1) {
            Some(TokenModel::Word(name)) => match struct_read(ts, m, i + 2, Some(name), no_meta_model()) {
                Err(u) => Err(u),
                Ok((_, e, p)) => Ok(
                    (
                        TypeModel::Reference(symbol_path_of(m, name)),
                        e,
                        p.push(symbol_path_of(m, name)),
                    ),
                ),
            },
            _ => match struct_read(ts, m, i + 1, None, no_meta_model()) {
                Err(u) => Err(u),
                Ok((d, e, p)) => Ok((TypeModel::Struct(d), e, p)),
            },
        }
    } else if ts[i] == TokenModel::Word("enum"@) {
        match (tok(ts, i + 1), tok(ts, i + 2), tok(ts, i + 3)) {
            (
                Some(TokenModel::Symbol('(')),
                Some(TokenModel::Word(u)),
                Some(TokenModel::Symbol(')')),
            ) => {
                let j = i + 4;
                match (tok(ts, j), tok(ts, j + 1)) {
                    (Some(TokenModel::Word(name)), Some(TokenModel::Symbol('{'))) => match balanced_end(
                        ts,
                        j + 2,
                        1,
                        '{',
                        '}',
                    ) {
                        None => Err(()),
                        Some(e) => Ok(
                            (
                                TypeModel::Reference(symbol_path_of(m, name)),
                                e,
                                seq![symbol_path_of(m, name)],
                            ),
                        ),
                    },
                    _ => if tok(ts, j) == Some(TokenModel::Symbol('{')) {
                        match balanced_end(ts, j + 1, 1, '{', '}') {
                            None => Err(()),
                            Some(e) => Ok((TypeModel::Enum(u), e, Seq::empty())),
                        }
                    } else {
                        Err(())
                    },
                }
            },
            _ => Err(()),
        }
    } else if ts[i] == TokenModel::Symbol('(') {
        match type_read(ts, m, i + 1) {
            Err(u) => Err(u),
            Ok((t, e, p)) => if tok(ts, e) == Some(TokenModel::Symbol(')')) {
                Ok((t, e + 1, p))
            } else {
                Err(())
            },
        }
    } else if ts[i] == TokenModel::Symbol('[') {
        match type_read(ts, m, i + 1) {
            Err(u) => Err(u),
            Ok((t, e, p)) => if tok(ts, e) == Some(TokenModel::Symbol(']')) {
                Ok((TypeModel::List(Box::new(t)), e + 1, p))
            } else {
                Err(())
            },
        }
    } else {
        match ts[i] {
            TokenModel::Word(raw) => {
                let g = if tok(ts, i + 1) == Some(TokenModel::Symbol('<')) {
                    generic_end(ts, i + 2, 1)
                } else {
                    i + 1
                };
                suffix_read(ts, g, raw, base_type(raw))
            },
            TokenModel::Quoted(_) => Ok((TypeModel::Unknown, i + 1, Seq::empty())),
            _ => Err(()),
        }
    }
}

/// No documentation, no bounds.
pub open spec fn no_meta_model() -> MetaModel {
    MetaModel { doc: Seq::empty(), since: None, until: None, canonical: false }
}

/// A struct body after its name at `i`: an optional `extends` type (a spread
/// carrying `meta`), then the entries between braces.
#[verifier::opaque]
pub open spec fn struct_read(
    ts: Seq<TokenModel>,
    m: Seq<char>,
    i: int,
    name: Option<Seq<char>>,
    meta: MetaModel,
) -> Read<StructModel>
    decreases ts.len() - i, 0nat,
{
    if i < 0 || i > ts.len() {
        Err(())
    } else if tok(ts, i) == Some(TokenModel::Word("extends"@)) {
        match type_read(ts, m, i + 1) {
            Err(u) => Err(u),
            Ok((t, e, p)) => if e < i + 1 || tok(ts, e) != Some(TokenModel::Symbol('{')) {
                Err(())
            } else {
                entries_read(ts, m, e + 1, name, seq![EntryModel::Spread(meta, t)], p)
            },
        }
    } else if tok(ts, i) == Some(TokenModel::Symbol('{')) {
        entries_read(ts, m, i + 1, name, Seq::empty(), Seq::empty())
    } else {
        Err(())
    }
}

/// The colon after an entry's key at `k`: `?:` or `:`; where the type starts.
pub open spec fn after_colon(ts: Seq<TokenModel>, k: int) -> Option<int> {
    if tok(ts, k) == Some(TokenModel::OptionalColon) || tok(ts, k) == Some(TokenModel::Symbol(':')) {
        Some(k + 1)
    } else {
        None
    }
}

/// The entries of a struct body from `i` on, after those in `acc`, up to
/// its `}`.
#[verifier::opaque]
pub open spec fn entries_read(
    ts: Seq<TokenModel>,
    m: Seq<char>,
    i: int,
    name: Option<Seq<char>>,
    acc: Seq<EntryModel>,
    paths: Seq<Seq<char>>,
) -> Read<StructModel>
    decreases ts.len() - i, 0nat,
{
    if i < 0 || i > ts.len() {
        Err(())
    } else if tok(ts, i) == Some(TokenModel::Symbol('}')) {
        Ok((StructModel { name, entries: acc }, i + 1, paths))
    } else {
        proof {
            crate::mcdoc::parser::lemma_skip_commas(ts, i);
        }
        let c1 = skip_commas(ts, i);
        proof {
            lemma_meta_from_bound(ts, c1, no_meta());
        }
        match meta_from(ts, c1, no_meta()) {
            Err(u) => Err(u),
            Ok((st, e1)) => {
                proof {
                    crate::mcdoc::parser::lemma_skip_commas(ts, e1);
                }
                let c2 = skip_commas(ts, e1);
                let em = meta_of(st);
                if tok(ts, c2) == Some(TokenModel::Symbol('}')) {
                    Ok((StructModel { name, entries: acc }, c2 + 1, paths))
                } else if tok(ts, c2) == Some(TokenModel::Spread) {
                    match type_read(ts, m, c2 + 1) {
                        Err(u) => Err(u),
                        Ok((t, e, p)) => if e < c2 + 1 || e > ts.len() {
                            Err(())
                        } else {
                            proof {
                                crate::mcdoc::parser::lemma_skip_commas(ts, e);
                            }
                            entries_read(
                                ts,
                                m,
                                skip_commas(ts, e),
                                name,
                                acc.push(EntryModel::Spread(em, t)),
                                paths + p,
                            )
                        },
                    }
                } else if tok(ts, c2) == Some(TokenModel::Symbol('[')) {
                    proof {
                        lemma_balanced_end(ts, c2 + 1, 1, '[', ']');
                    }
                    match balanced_end(ts, c2 + 1, 1, '[', ']') {
                        None => Err(()),
                        Some(b) => match after_colon(ts, b) {
                            None => Err(()),
                            Some(s) => match type_read(ts, m, s) {
                                Err(u) => Err(u),
                                Ok((t, e, p)) => if e < s || e > ts.len() {
                                    Err(())
                                } else {
                                    proof {
                                        crate::mcdoc::parser::lemma_skip_commas(ts, e);
                                    }
                                    entries_read(
                                        ts,
                                        m,
                                        skip_commas(ts, e),
                                        name,
                                        acc.push(EntryModel::Dynamic(em, t)),
                                        paths + p,
                                    )
                                },
                            },
                        },
                    }
                } else {
                    match tok(ts, c2) {
                        Some(TokenModel::Word(f)) => match after_colon(ts, c2 + 1) {
                            None => Err(()),
                            Some(s) => match type_read(ts, m, s) {
                                Err(u) => Err(u),
                                Ok((t, e, p)) => if e < s || e > ts.len() {
                                    Err(())
                                } else {
                                    proof {
                                        crate::mcdoc::parser::lemma_skip_commas(ts, e);
                                    }
                                    entries_read(
                                        ts,
                                        m,
                                        skip_commas(ts, e),
                                        name,
                                        acc.push(EntryModel::Field(em, f, t)),
                                        paths + p,
                                    )
                                },
                            },
                        },
                        _ => Err(()),
                    }
                }
            },
        }
    }
}


pub proof fn lemma_balanced_end(ts: Seq<TokenModel>, i: int, depth: nat, open: char, close: char)
    requires
        0 <= i,
    ensures
        balanced_end(ts, i, depth, open, close) matches Some(e) ==> i < e <= ts.len(),
    decreases ts.len() - i,
{
    if i < ts.len() {
        match ts[i] {
            TokenModel::Symbol(c) => if c == open {
                lemma_balanced_end(ts, i + 1, depth + 1, open, close);
            } else if c == close {
                if depth > 1 {
                    lemma_balanced_end(ts, i + 1, (depth - 1) as nat, open, close);
                }
            } else {
                lemma_balanced_end(ts, i + 1, depth, open, close);
            },
            TokenModel::AttrStart => if open == '[' && close == ']' {
                lemma_balanced_end(ts, i + 1, depth + 1, open, close);
            } else {
                lemma_balanced_end(ts, i + 1, depth, open, close);
            },
            _ => lemma_balanced_end(ts, i + 1, depth, open, close),
        }
    }
}

pub proof fn lemma_generic_end(ts: Seq<TokenModel>, i: int, depth: nat)
    requires
        0 <= i <= ts.len(),
    ensures
        i <= generic_end(ts, i, depth) <= ts.len(),
    decreases ts.len() - i,
{
    if i < ts.len() {
        match ts[i] {
            TokenModel::Symbol('<') => lemma_generic_end(ts, i + 1, depth + 1),
            TokenModel::Symbol('>') => if depth > 1 {
                lemma_generic_end(ts, i + 1, (depth - 1) as nat);
            },
            _ => lemma_generic_end(ts, i + 1, depth),
        }
    }
}

pub proof fn lemma_collect_until(ts: Seq<TokenModel>, i: int, close: char)
    requires
        0 <= i,
    ensures
        collect_until(ts, i, close) matches Some((_, c)) ==> i <= c < ts.len() && ts[c]
            == TokenModel::Symbol(close),
    decreases ts.len() - i,
{
    if i < ts.len() && ts[i] != TokenModel::Symbol(close) {
        lemma_collect_until(ts, i + 1, close);
    }
}

pub proof fn lemma_annotations_end(ts: Seq<TokenModel>, i: int)
    requires
        0 <= i <= ts.len(),
    ensures
        i <= annotations_end(ts, i) <= ts.len(),
    decreases ts.len() - i,
{
    if i < ts.len() && ts[i] == TokenModel::Symbol('@') {
        crate::mcdoc::parser::lemma_annotation_end(ts, i + 1, 0);
        lemma_annotations_end(ts, crate::mcdoc::parser::annotation_end(ts, i + 1, 0));
    }
}

pub proof fn lemma_literal_keys(ts: Seq<TokenModel>, k: int)
    requires
        0 <= k,
    ensures
        literal_keys(ts, k) matches Some((_, e)) ==> k < e <= ts.len(),
    decreases ts.len() - k,
{
    reveal(literal_keys);
    if tok(ts, k + 1) == Some(TokenModel::Symbol(',')) {
        lemma_literal_keys(ts, k + 2);
    }
}

pub proof fn lemma_suffix_read(ts: Seq<TokenModel>, g: int, raw: Seq<char>, base: TypeModel)
    requires
        0 <= g <= ts.len(),
    ensures
        suffix_read(ts, g, raw, base) matches Ok((_, e, p)) ==> g <= e <= ts.len() && p.len() == 0,
    decreases ts.len() - g,
{
    reveal(suffix_read);
    if tok(ts, g) == Some(TokenModel::Symbol('[')) {
        if tok(ts, g + 1) == Some(TokenModel::Symbol(']')) {
            lemma_suffix_read(ts, g + 2, raw, TypeModel::List(Box::new(base)));
        } else if tok(ts, g + 1) == Some(TokenModel::Symbol('[')) {
            lemma_collect_until(ts, g + 2, ']');
        } else {
            lemma_literal_keys(ts, g + 1);
        }
    }
}


// ---- one step of each reading -----------------------------------------------------------
/// The end of one union alternative read up to `e2`: annotations, then a
/// `|` and more alternatives, or the end of the union.
pub open spec fn union_after(
    ts: Seq<TokenModel>,
    m: Seq<char>,
    e2: int,
    acc2: Seq<VariantModel>,
    paths2: Seq<Seq<char>>,
) -> Read<Seq<VariantModel>> {
    let e3 = annotations_end(ts, e2);
    if !(tok(ts, e3) == Some(TokenModel::Symbol('|'))) {
        Ok((acc2, e3, paths2))
    } else if closing_at(ts, e3 + 1) {
        Ok((acc2, e3 + 1, paths2))
    } else if e3 < e2 {
        Err(())
    } else {
        union_read(ts, m, e3 + 1, acc2, paths2)
    }
}

pub proof fn lemma_type_read(ts: Seq<TokenModel>, m: Seq<char>, i: int)
    requires
        0 <= i <= ts.len(),
    ensures
        type_read(ts, m, i) == match union_read(ts, m, i, Seq::empty(), Seq::empty()) {
            Err(u) => Err(u),
            Ok((vs, e, p)) => if vs.len() == 1 {
                Ok((vs[0].ty, e, p))
            } else {
                Ok((TypeModel::Union(vs), e, p))
            },
        },
{
    reveal(type_read);
    reveal(union_read);
    reveal(atom_read);
    reveal(struct_read);
    reveal(entries_read);
}

pub proof fn lemma_union_meta_err(ts: Seq<TokenModel>, m: Seq<char>, i: int, acc: Seq<VariantModel>, paths: Seq<Seq<char>>)
    requires
        0 <= i <= ts.len(),
        meta_from(ts, i, no_meta()) is Err,
    ensures
        union_read(ts, m, i, acc, paths) is Err,
{
    reveal(type_read);
    reveal(union_read);
    reveal(atom_read);
    reveal(struct_read);
    reveal(entries_read);
}

pub proof fn lemma_union_closing(
    ts: Seq<TokenModel>,
    m: Seq<char>,
    i: int,
    acc: Seq<VariantModel>,
    paths: Seq<Seq<char>>,
    st: MetaState,
    e1: int,
)
    requires
        0 <= i <= ts.len(),
        meta_from(ts, i, no_meta()) == Ok::<(MetaState, int), ()>((st, e1)),
        closing_at(ts, e1),
    ensures
        union_read(ts, m, i, acc, paths) == Ok::<(Seq<VariantModel>, int, Seq<Seq<char>>), ()>((acc, e1, paths)),
{
    reveal(type_read);
    reveal(union_read);
    reveal(atom_read);
    reveal(struct_read);
    reveal(entries_read);
}

pub proof fn lemma_union_atom(
    ts: Seq<TokenModel>,
    m: Seq<char>,
    i: int,
    acc: Seq<VariantModel>,
    paths: Seq<Seq<char>>,
    st: MetaState,
    e1: int,
)
    requires
        0 <= i <= ts.len(),
        meta_from(ts, i, no_meta()) == Ok::<(MetaState, int), ()>((st, e1)),
        !closing_at(ts, e1),
    ensures
        atom_read(ts, m, e1) is Err ==> union_read(ts, m, i, acc, paths) is Err,
        atom_read(ts, m, e1) matches Ok((t, e2, p2)) ==> (e1 < e2 <= ts.len() ==> union_read(
            ts,
            m,
            i,
            acc,
            paths,
        ) == union_after(ts, m, e2, acc.push(VariantModel { meta: meta_of(st), ty: t }), paths + p2)),
{
    reveal(type_read);
    reveal(union_read);
    reveal(atom_read);
    reveal(struct_read);
    reveal(entries_read);
}

pub proof fn lemma_suffix_step(ts: Seq<TokenModel>, g: int, raw: Seq<char>, base: TypeModel)
    ensures
        tok(ts, g) != Some(TokenModel::Symbol('[')) ==> suffix_read(ts, g, raw, base) == Ok::<
            (TypeModel, int, Seq<Seq<char>>),
            (),
        >((base, g, Seq::empty())),
        tok(ts, g) == Some(TokenModel::Symbol('[')) && tok(ts, g + 1) == Some(TokenModel::Symbol(']'))
            ==> suffix_read(ts, g, raw, base) == suffix_read(ts, g + 2, raw, TypeModel::List(Box::new(base))),
        tok(ts, g) == Some(TokenModel::Symbol('[')) && tok(ts, g + 1) == Some(TokenModel::Symbol('['))
            ==> suffix_read(ts, g, raw, base) == match collect_until(ts, g + 2, ']') {
            None => Err(()),
            Some((_, c)) => if tok(ts, c + 1) == Some(TokenModel::Symbol(']')) {
                Ok((TypeModel::DispatchRef(raw, None), c + 2, Seq::<Seq<char>>::empty()))
            } else {
                Err(())
            },
        },
        tok(ts, g) == Some(TokenModel::Symbol('[')) && tok(ts, g + 1) != Some(TokenModel::Symbol(']'))
            && tok(ts, g + 1) != Some(TokenModel::Symbol('[')) ==> suffix_read(ts, g, raw, base)
            == match literal_keys(ts, g + 1) {
            None => Err(()),
            Some((keys, e)) => Ok((TypeModel::DispatchRef(raw, Some(keys)), e, Seq::<Seq<char>>::empty())),
        },
{
    reveal(suffix_read);
}

pub proof fn lemma_literal_keys_step(ts: Seq<TokenModel>, k: int)
    ensures
        literal_keys(ts, k) == {
            let v = match tok(ts, k) {
                Some(TokenModel::Word(v)) => Some(v),
                Some(TokenModel::Quoted(v)) => Some(v),
                _ => None,
            };
            match v {
                None => None,
                Some(v) => if tok(ts, k + 1) == Some(TokenModel::Symbol(',')) {
                    match literal_keys(ts, k + 2) {
                        Some((vs, e)) => Some((seq![v] + vs, e)),
                        None => None,
                    }
                } else if tok(ts, k + 1) == Some(TokenModel::Symbol(']')) {
                    Some((seq![v], k + 2))
                } else {
                    None
                },
            }
        },
{
    reveal(literal_keys);
}

/// One alternative at `i` as the struct, enum, bracket or word branch reads it.
pub proof fn lemma_atom_step(ts: Seq<TokenModel>, m: Seq<char>, i: int)
    requires
        0 <= i < ts.len(),
    ensures
        ts[i] == TokenModel::Word("struct"@) ==> atom_read(ts, m, i) == match tok(ts, i + 1) {
            Some(TokenModel::Word(name)) => match struct_read(ts, m, i + 2, Some(name), no_meta_model()) {
                Err(u) => Err(u),
                Ok((_, e, p)) => Ok(
                    (
                        TypeModel::Reference(symbol_path_of(m, name)),
                        e,
                        p.push(symbol_path_of(m, name)),
                    ),
                ),
            },
            _ => match struct_read(ts, m, i + 1, None, no_meta_model()) {
                Err(u) => Err(u),
                Ok((d, e, p)) => Ok((TypeModel::Struct(d), e, p)),
            },
        },
        ts[i] == TokenModel::Symbol('(') ==> atom_read(ts, m, i) == match type_read(ts, m, i + 1) {
            Err(u) => Err(u),
            Ok((t, e, p)) => if tok(ts, e) == Some(TokenModel::Symbol(')')) {
                Ok((t, e + 1, p))
            } else {
                Err(())
            },
        },
        ts[i] == TokenModel::Symbol('[') ==> atom_read(ts, m, i) == match type_read(ts, m, i + 1) {
            Err(u) => Err(u),
            Ok((t, e, p)) => if tok(ts, e) == Some(TokenModel::Symbol(']')) {
                Ok((TypeModel::List(Box::new(t)), e + 1, p))
            } else {
                Err(())
            },
        },
        ts[i] != TokenModel::Word("struct"@) && ts[i] != TokenModel::Word("enum"@) && ts[i]
            != TokenModel::Symbol('(') && ts[i] != TokenModel::Symbol('[') ==> atom_read(ts, m, i)
            == match ts[i] {
            TokenModel::Word(raw) => {
                let g = if tok(ts, i + 1) == Some(TokenModel::Symbol('<')) {
                    generic_end(ts, i + 2, 1)
                } else {
                    i + 1
                };
                suffix_read(ts, g, raw, base_type(raw))
            },
            TokenModel::Quoted(_) => Ok((TypeModel::Unknown, i + 1, Seq::empty())),
            _ => Err(()),
        },
{
    reveal_strlit("struct");
    reveal_strlit("enum");
    reveal(type_read);
    reveal(union_read);
    reveal(atom_read);
    reveal(struct_read);
    reveal(entries_read);
}

pub proof fn lemma_atom_enum(ts: Seq<TokenModel>, m: Seq<char>, i: int)
    requires
        0 <= i < ts.len(),
        ts[i] == TokenModel::Word("enum"@),
    ensures
        atom_read(ts, m, i) == match (
            tok(ts, i + 1),
            tok(ts, i + 2),
            tok(ts, i + 3),
        ) {
            (
                Some(TokenModel::Symbol('(')),
                Some(TokenModel::Word(u)),
                Some(TokenModel::Symbol(')')),
            ) => {
                let j = i + 4;
                match (tok(ts, j), tok(ts, j + 1)) {
                    (Some(TokenModel::Word(name)), Some(TokenModel::Symbol('{'))) => match balanced_end(
                        ts,
                        j + 2,
                        1,
                        '{',
                        '}',
                    ) {
                        None => Err(()),
                        Some(e) => Ok(
                            (
                                TypeModel::Reference(symbol_path_of(m, name)),
                                e,
                                seq![symbol_path_of(m, name)],
                            ),
                        ),
                    },
                    _ => if tok(ts, j) == Some(TokenModel::Symbol('{')) {
                        match balanced_end(ts, j + 1, 1, '{', '}') {
                            None => Err(()),
                            Some(e) => Ok((TypeModel::Enum(u), e, Seq::empty())),
                        }
                    } else {
                        Err(())
                    },
                }
            },
            _ => Err(()),
        },
{
    reveal_strlit("struct");
    reveal_strlit("enum");
    assert("struct"@ != "enum"@) by {
        assert("struct"@.len() != "enum"@.len());
    }
    reveal(type_read);
    reveal(union_read);
    reveal(atom_read);
    reveal(struct_read);
    reveal(entries_read);
}

pub proof fn lemma_atom_end(ts: Seq<TokenModel>, m: Seq<char>, i: int)
    ensures
        (i < 0 || i >= ts.len()) ==> atom_read(ts, m, i) is Err,
{
    reveal(type_read);
    reveal(union_read);
    reveal(atom_read);
    reveal(struct_read);
    reveal(entries_read);
}

pub proof fn lemma_struct_step(
    ts: Seq<TokenModel>,
    m: Seq<char>,
    i: int,
    name: Option<Seq<char>>,
    meta: MetaModel,
)
    requires
        0 <= i <= ts.len(),
    ensures
        struct_read(ts, m, i, name, meta) == if tok(ts, i) == Some(TokenModel::Word("extends"@)) {
            match type_read(ts, m, i + 1) {
                Err(u) => Err(u),
                Ok((t, e, p)) => if e < i + 1 || tok(ts, e) != Some(TokenModel::Symbol('{')) {
                    Err(())
                } else {
                    entries_read(ts, m, e + 1, name, seq![EntryModel::Spread(meta, t)], p)
                },
            }
        } else if tok(ts, i) == Some(TokenModel::Symbol('{')) {
            entries_read(ts, m, i + 1, name, Seq::empty(), Seq::empty())
        } else {
            Err(())
        },
{
    reveal(type_read);
    reveal(union_read);
    reveal(atom_read);
    reveal(struct_read);
    reveal(entries_read);
}

/// The entry that stands at `c2` after commas and metadata.
pub open spec fn entry_after(
    ts: Seq<TokenModel>,
    m: Seq<char>,
    c2: int,
    name: Option<Seq<char>>,
    acc: Seq<EntryModel>,
    paths: Seq<Seq<char>>,
    em: MetaModel,
) -> Read<StructModel> {
    if tok(ts, c2) == Some(TokenModel::Symbol('}')) {
        Ok((StructModel { name, entries: acc }, c2 + 1, paths))
    } else if tok(ts, c2) == Some(TokenModel::Spread) {
        match type_read(ts, m, c2 + 1) {
            Err(u) => Err(u),
            Ok((t, e, p)) => if e < c2 + 1 || e > ts.len() {
                Err(())
            } else {
                entries_read(ts, m, skip_commas(ts, e), name, acc.push(EntryModel::Spread(em, t)), paths + p)
            },
        }
    } else if tok(ts, c2) == Some(TokenModel::Symbol('[')) {
        match balanced_end(ts, c2 + 1, 1, '[', ']') {
            None => Err(()),
            Some(b) => match after_colon(ts, b) {
                None => Err(()),
                Some(s) => match type_read(ts, m, s) {
                    Err(u) => Err(u),
                    Ok((t, e, p)) => if e < s || e > ts.len() {
                        Err(())
                    } else {
                        entries_read(ts, m, skip_commas(ts, e), name, acc.push(EntryModel::Dynamic(em, t)), paths + p)
                    },
                },
            },
        }
    } else {
        match tok(ts, c2) {
            Some(TokenModel::Word(f)) => match after_colon(ts, c2 + 1) {
                None => Err(()),
                Some(s) => match type_read(ts, m, s) {
                    Err(u) => Err(u),
                    Ok((t, e, p)) => if e < s || e > ts.len() {
                        Err(())
                    } else {
                        entries_read(ts, m, skip_commas(ts, e), name, acc.push(EntryModel::Field(em, f, t)), paths + p)
                    },
                },
            },
            _ => Err(()),
        }
    }
}

pub proof fn lemma_entries_step(
    ts: Seq<TokenModel>,
    m: Seq<char>,
    i: int,
    name: Option<Seq<char>>,
    acc: Seq<EntryModel>,
    paths: Seq<Seq<char>>,
)
    requires
        0 <= i <= ts.len(),
    ensures
        tok(ts, i) == Some(TokenModel::Symbol('}')) ==> entries_read(ts, m, i, name, acc, paths) == Ok::<
            (StructModel, int, Seq<Seq<char>>),
            (),
        >((StructModel { name, entries: acc }, i + 1, paths)),
        tok(ts, i) != Some(TokenModel::Symbol('}')) ==> entries_read(ts, m, i, name, acc, paths)
            == match meta_from(ts, skip_commas(ts, i), no_meta()) {
            Err(u) => Err(u),
            Ok((st, e1)) => entry_after(ts, m, skip_commas(ts, e1), name, acc, paths, meta_of(st)),
        },
{
    reveal(type_read);
    reveal(union_read);
    reveal(atom_read);
    reveal(struct_read);
    reveal(entries_read);
}


pub proof fn lemma_variants_view_len(vs: Seq<UnionVariant>)
    ensures
        variants_view(vs).len() == vs.len(),
    decreases vs.len(),
{
    if vs.len() > 0 {
        lemma_variants_view_len(vs.drop_last());
    }
}

} // verus!
