//! What reducing a definition gives, as plain values: the schema the
//! reducer returns and the results it remembers, for each step it takes.
//! The definitions being reduced (which cut cycles) are parameters; the
//! remembered results are threaded through.
use vstd::prelude::*;

use crate::mcdoc::parser::{
    dispatch_keys, entries_size, lemma_symbol_index, resolve_name, symbol_index, symbol_keys,
    type_size, uses_model, variants_size,
    DefinitionContext, DispatchRefKey, ParsedRepo, StructEntry, SymbolKind, TypeExpr,
    UnionVariant,
};
use crate::mcdoc::reduce::{
    lemma_difference_shrinks, lemma_entry_size, lemma_variant_size, merge_nodes_m, opt_view,
    pair_views, push_field_m, push_fields_m, struct_detail, FieldM, NodeM, ReduceState,
    SchemaReducer,
};
use crate::text::views;
use crate::mcdoc::{active_in, tail_of, Metadata, SchemaNode};

verus! {

/// Remembered results as plain values: by symbol, and by dispatcher and key.
pub struct CacheM {
    pub syms: Seq<(Seq<char>, Option<NodeM>)>,
    pub disps: Seq<(Seq<char>, Seq<char>, Option<NodeM>)>,
}

pub open spec fn cache_of(st: &ReduceState) -> CacheM {
    CacheM {
        syms: st.symbol_cache@.map_values(|e: (String, Option<SchemaNode>)| (e.0@, opt_view(e.1))),
        disps: st.dispatch_cache@.map_values(
            |e: (String, String, Option<SchemaNode>)| (e.0@, e.1@, opt_view(e.2)),
        ),
    }
}

/// The symbols being reduced.
pub open spec fn stack_syms(st: &ReduceState) -> Seq<Seq<char>> {
    views(st.resolving_symbols@)
}

/// The dispatches being reduced.
pub open spec fn stack_disps(st: &ReduceState) -> Seq<(Seq<char>, Seq<char>)> {
    pair_views(st.resolving_dispatches@)
}

/// The index of the first result remembered for `s`, from `i` on.
pub open spec fn sym_index(c: Seq<(Seq<char>, Option<NodeM>)>, s: Seq<char>, i: int) -> Option<int>
    decreases c.len() - i,
{
    if i < 0 || i >= c.len() {
        None
    } else if c[i].0 == s {
        Some(i)
    } else {
        sym_index(c, s, i + 1)
    }
}

/// The index of the first result remembered for `d[k]`, from `i` on.
pub open spec fn disp_index(c: Seq<(Seq<char>, Seq<char>, Option<NodeM>)>, d: Seq<char>, k: Seq<char>, i: int) -> Option<int>
    decreases c.len() - i,
{
    if i < 0 || i >= c.len() {
        None
    } else if c[i].0 == d && c[i].1 == k {
        Some(i)
    } else {
        disp_index(c, d, k, i + 1)
    }
}

/// The result remembered for `s`.
pub open spec fn sym_lookup(c: Seq<(Seq<char>, Option<NodeM>)>, s: Seq<char>) -> Option<Option<NodeM>> {
    match sym_index(c, s, 0) {
        Some(j) => Some(c[j].1),
        None => None,
    }
}

/// The result remembered for `d[k]`.
pub open spec fn disp_lookup(c: Seq<(Seq<char>, Seq<char>, Option<NodeM>)>, d: Seq<char>, k: Seq<char>) -> Option<
    Option<NodeM>,
> {
    match disp_index(c, d, k, 0) {
        Some(j) => Some(c[j].2),
        None => None,
    }
}

/// `c` remembering `n` for `s`, in place of its earlier result.
pub open spec fn sym_store(c: Seq<(Seq<char>, Option<NodeM>)>, s: Seq<char>, n: Option<NodeM>) -> Seq<
    (Seq<char>, Option<NodeM>),
> {
    match sym_index(c, s, 0) {
        Some(j) => c.update(j, (s, n)),
        None => c.push((s, n)),
    }
}

/// `c` remembering `n` for `d[k]`, in place of its earlier result.
pub open spec fn disp_store(
    c: Seq<(Seq<char>, Seq<char>, Option<NodeM>)>,
    d: Seq<char>,
    k: Seq<char>,
    n: Option<NodeM>,
) -> Seq<(Seq<char>, Seq<char>, Option<NodeM>)> {
    match disp_index(c, d, k, 0) {
        Some(j) => c.update(j, (d, k, n)),
        None => c.push((d, k, n)),
    }
}

/// The repository index of the dispatches to `d[k]`, from `i` on.
pub open spec fn dispatch_index(p: ParsedRepo, d: Seq<char>, k: Seq<char>, i: int) -> Option<int>
    decreases p.dispatches@.len() - i,
{
    if i < 0 || i >= p.dispatches@.len() {
        None
    } else if p.dispatches@[i].0@ == d && p.dispatches@[i].1@ == k {
        Some(i)
    } else {
        dispatch_index(p, d, k, i + 1)
    }
}

pub proof fn lemma_dispatch_index(p: ParsedRepo, d: Seq<char>, k: Seq<char>, i: int)
    requires
        0 <= i,
    ensures
        dispatch_index(p, d, k, i) matches Some(j) ==> i <= j < p.dispatches@.len()
            && p.dispatches@[j].0@ == d && p.dispatches@[j].1@ == k && dispatch_keys(&p).contains(
            (d, k),
        ),
        dispatch_index(p, d, k, i) is None ==> forall|j: int|
            i <= j < p.dispatches@.len() ==> !(p.dispatches@[j].0@ == d && p.dispatches@[j].1@ == k),
    decreases p.dispatches@.len() - i,
{
    if i < p.dispatches@.len() {
        lemma_dispatch_index(p, d, k, i + 1);
        if p.dispatches@[i].0@ == d && p.dispatches@[i].1@ == k {
            assert(dispatch_keys(&p)[i] == (d, k));
        }
    }
}

/// How many definitions and dispatches are not being reduced.
pub open spec fn unres(r: &SchemaReducer, rs: Seq<Seq<char>>, rd: Seq<(Seq<char>, Seq<char>)>) -> nat {
    symbol_keys(&r.parsed).to_set().difference(rs.to_set()).len() + dispatch_keys(
        &r.parsed,
    ).to_set().difference(rd.to_set()).len()
}

/// Whether `m` holds in the reducer's version.
pub open spec fn active(r: &SchemaReducer, m: Metadata) -> bool {
    active_in(m.since, m.until, r.version.0@)
}

/// An alias's schema: the aliased type's, documented by the alias where it
/// has no documentation of its own.
pub open spec fn alias_node(n: Option<NodeM>, doc: Seq<char>) -> Option<NodeM> {
    match n {
        Some(x) => Some(
            if x.doc.len() == 0 {
                NodeM { detail: x.detail, doc, fields: x.fields }
            } else {
                x
            },
        ),
        None => None,
    }
}

/// Reducing the definition at `s`, with the symbols `rs` and dispatches
/// `rd` being reduced and the results `c` remembered: a remembered result;
/// `None` for a symbol being reduced, one not defined, or one not in this
/// version; else a struct's schema, an alias's type's schema, or an enum's
/// underlying type. The result is remembered.
pub open spec fn red_symbol(
    r: &SchemaReducer,
    rs: Seq<Seq<char>>,
    rd: Seq<(Seq<char>, Seq<char>)>,
    c: CacheM,
    s: Seq<char>,
) -> (Option<NodeM>, CacheM)
    decreases unres(r, rs, rd), 0nat, 1nat, 0nat,
{
    match sym_lookup(c.syms, s) {
        Some(cached) => (cached, c),
        None => if rs.contains(s) {
            (None, c)
        } else {
            let (res, c2) = match symbol_index(r.parsed, s, 0) {
                None => (None, c),
                Some(j) => {
                    proof {
                        lemma_symbol_index(r.parsed, s, 0);
                        lemma_difference_shrinks(symbol_keys(&r.parsed), rs, s);
                    }
                    let def = r.parsed.symbols@[j].1;
                    if !active(r, def.meta) {
                        (None, c)
                    } else {
                        match def.kind {
                            SymbolKind::Struct(d) => {
                                let (n, c1) = red_struct(
                                    r,
                                    rs.push(s),
                                    rd,
                                    c,
                                    d.name,
                                    d.entries@,
                                    def.context,
                                    def.meta.documentation@,
                                );
                                (Some(n), c1)
                            },
                            SymbolKind::Alias(e) => {
                                let (n, c1) = red_type(r, rs.push(s), rd, c, e, def.context);
                                (alias_node(n, def.meta.documentation@), c1)
                            },
                            SymbolKind::Enum { underlying } => (
                                Some(
                                    NodeM {
                                        detail: underlying@,
                                        doc: def.meta.documentation@,
                                        fields: Seq::empty(),
                                    },
                                ),
                                c,
                            ),
                        }
                    }
                },
            };
            (res, CacheM { syms: sym_store(c2.syms, s, res), disps: c2.disps })
        },
    }
}

/// Reducing the dispatches to `d[k]` (see [`red_symbol`]): the merge of
/// the schemas of its definitions in this version, in order.
pub open spec fn red_dispatch(
    r: &SchemaReducer,
    rs: Seq<Seq<char>>,
    rd: Seq<(Seq<char>, Seq<char>)>,
    c: CacheM,
    d: Seq<char>,
    k: Seq<char>,
) -> (Option<NodeM>, CacheM)
    decreases unres(r, rs, rd), 0nat, 1nat, 0nat,
{
    match disp_lookup(c.disps, d, k) {
        Some(cached) => (cached, c),
        None => if rd.contains((d, k)) {
            (None, c)
        } else {
            let (res, c2) = match dispatch_index(r.parsed, d, k, 0) {
                None => (None, c),
                Some(j) => {
                    let (acc, c1) = red_defs(
                        r,
                        rs,
                        rd,
                        (d, k),
                        c,
                        r.parsed.dispatches@[j].2@,
                        0,
                        Seq::empty(),
                    );
                    (merge_nodes_m(acc), c1)
                },
            };
            (res, CacheM { syms: c2.syms, disps: disp_store(c2.disps, d, k, res) })
        },
    }
}

/// The schemas of the dispatch definitions `list` from `i` on that hold in
/// this version, after `acc`, reduced while `p` is being reduced.
pub open spec fn red_defs(
    r: &SchemaReducer,
    rs: Seq<Seq<char>>,
    rd: Seq<(Seq<char>, Seq<char>)>,
    p: (Seq<char>, Seq<char>),
    c: CacheM,
    list: Seq<usize>,
    i: int,
    acc: Seq<(Seq<char>, NodeM)>,
) -> (Seq<(Seq<char>, NodeM)>, CacheM)
    decreases unres(r, rs, rd), 0nat, 0nat, list.len() - i,
{
    if i < 0 || i >= list.len() || !dispatch_keys(&r.parsed).contains(p) || rd.contains(p) {
        (acc, c)
    } else {
        proof {
            lemma_difference_shrinks(dispatch_keys(&r.parsed), rd, p);
        }
        let def = r.parsed.dispatch_defs@[list[i] as int];
        if active(r, def.meta) {
            let (n, c1) = red_type(r, rs, rd.push(p), c, def.target, def.context);
            let acc2 = match n {
                Some(x) => acc.push((def.meta.documentation@, x)),
                None => acc,
            };
            red_defs(r, rs, rd, p, c1, list, i + 1, acc2)
        } else {
            red_defs(r, rs, rd, p, c, list, i + 1, acc)
        }
    }
}

/// Reducing a type: a struct's schema, a reference's definition, the merge
/// of the dispatches a literal dispatch reference names, the merge of a
/// union's alternatives in this version; `None` for the others.
pub open spec fn red_type(
    r: &SchemaReducer,
    rs: Seq<Seq<char>>,
    rd: Seq<(Seq<char>, Seq<char>)>,
    c: CacheM,
    ty: TypeExpr,
    ctx: DefinitionContext,
) -> (Option<NodeM>, CacheM)
    decreases unres(r, rs, rd), type_size(ty), 1nat, 0nat,
{
    match ty {
        TypeExpr::Struct(d) => {
            let (n, c1) = red_struct(r, rs, rd, c, d.name, d.entries@, ctx, Seq::empty());
            (Some(n), c1)
        },
        TypeExpr::Reference(raw) => red_symbol(
            r,
            rs,
            rd,
            c,
            resolve_name(raw@, ctx.module@, uses_model(ctx.uses@), false),
        ),
        TypeExpr::DispatchRef(dr) => match dr.key {
            DispatchRefKey::Literal(keys) => {
                let (acc, c1) = red_keys(r, rs, rd, c, dr.dispatcher@, keys@, 0, Seq::empty());
                (merge_nodes_m(acc), c1)
            },
            DispatchRefKey::Dynamic => (None, c),
        },
        TypeExpr::Union(vs) => {
            let (acc, c1) = red_variants(r, rs, rd, c, vs@, ctx, 0, Seq::empty());
            (merge_nodes_m(acc), c1)
        },
        _ => (None, c),
    }
}

/// The schemas of the dispatches to `d[keys[j]]` for `j` from `i` on that
/// give one, after `acc`.
pub open spec fn red_keys(
    r: &SchemaReducer,
    rs: Seq<Seq<char>>,
    rd: Seq<(Seq<char>, Seq<char>)>,
    c: CacheM,
    d: Seq<char>,
    keys: Seq<String>,
    i: int,
    acc: Seq<(Seq<char>, NodeM)>,
) -> (Seq<(Seq<char>, NodeM)>, CacheM)
    decreases unres(r, rs, rd), 1nat, 0nat, keys.len() - i,
{
    if i < 0 || i >= keys.len() {
        (acc, c)
    } else {
        let (n, c1) = red_dispatch(r, rs, rd, c, d, keys[i]@);
        let acc2 = match n {
            Some(x) => acc.push((Seq::empty(), x)),
            None => acc,
        };
        red_keys(r, rs, rd, c1, d, keys, i + 1, acc2)
    }
}

/// The schemas of the alternatives `vs` from `i` on that hold in this
/// version and give one, after `acc`.
pub open spec fn red_variants(
    r: &SchemaReducer,
    rs: Seq<Seq<char>>,
    rd: Seq<(Seq<char>, Seq<char>)>,
    c: CacheM,
    vs: Seq<UnionVariant>,
    ctx: DefinitionContext,
    i: int,
    acc: Seq<(Seq<char>, NodeM)>,
) -> (Seq<(Seq<char>, NodeM)>, CacheM)
    decreases unres(r, rs, rd), 1 + variants_size(vs), 0nat, vs.len() - i,
{
    if i < 0 || i >= vs.len() {
        (acc, c)
    } else {
        proof {
            lemma_variant_size(vs, i);
        }
        if active(r, vs[i].meta) {
            let (n, c1) = red_type(r, rs, rd, c, vs[i].ty, ctx);
            let acc2 = match n {
                Some(x) => acc.push((vs[i].meta.documentation@, x)),
                None => acc,
            };
            red_variants(r, rs, rd, c1, vs, ctx, i + 1, acc2)
        } else {
            red_variants(r, rs, rd, c, vs, ctx, i + 1, acc)
        }
    }
}

/// A struct body's schema: its name (or `compound`), the documentation
/// given, and its fields in this version with those of the types it
/// spreads, merged by name.
pub open spec fn red_struct(
    r: &SchemaReducer,
    rs: Seq<Seq<char>>,
    rd: Seq<(Seq<char>, Seq<char>)>,
    c: CacheM,
    name: Option<String>,
    es: Seq<StructEntry>,
    ctx: DefinitionContext,
    doc: Seq<char>,
) -> (NodeM, CacheM)
    decreases unres(r, rs, rd), 1 + entries_size(es), 0nat, es.len() + 1,
{
    let (fs, c1) = red_entries(r, rs, rd, c, es, ctx, 0, Seq::empty());
    (NodeM { detail: struct_detail(name), doc, fields: fs }, c1)
}

/// The fields of the struct entries `es` from `i` on, merged into `fs`.
pub open spec fn red_entries(
    r: &SchemaReducer,
    rs: Seq<Seq<char>>,
    rd: Seq<(Seq<char>, Seq<char>)>,
    c: CacheM,
    es: Seq<StructEntry>,
    ctx: DefinitionContext,
    i: int,
    fs: Seq<FieldM>,
) -> (Seq<FieldM>, CacheM)
    decreases unres(r, rs, rd), 1 + entries_size(es), 0nat, es.len() - i,
{
    if i < 0 || i >= es.len() {
        (fs, c)
    } else {
        proof {
            lemma_entry_size(es, i);
        }
        match es[i] {
            StructEntry::Field { meta, name, ty } => if active(r, meta) {
                let (detail, c1) = red_detail(r, rs, rd, c, ty, ctx);
                let (node, c2) = red_nested(r, rs, rd, c1, ty, ctx);
                red_entries(
                    r,
                    rs,
                    rd,
                    c2,
                    es,
                    ctx,
                    i + 1,
                    push_field_m(fs, FieldM { name: name@, detail, doc: meta.documentation@, node }),
                )
            } else {
                red_entries(r, rs, rd, c, es, ctx, i + 1, fs)
            },
            StructEntry::Spread { meta, ty } => if active(r, meta) {
                let (n, c1) = red_type(r, rs, rd, c, ty, ctx);
                red_entries(
                    r,
                    rs,
                    rd,
                    c1,
                    es,
                    ctx,
                    i + 1,
                    match n {
                        Some(x) => push_fields_m(fs, x.fields),
                        None => fs,
                    },
                )
            } else {
                red_entries(r, rs, rd, c, es, ctx, i + 1, fs)
            },
            StructEntry::Dynamic { .. } => red_entries(r, rs, rd, c, es, ctx, i + 1, fs),
        }
    }
}

/// The schema nested under a field of this type: reduced for structs,
/// references, dispatch references and unions; `None` for the others.
pub open spec fn red_nested(
    r: &SchemaReducer,
    rs: Seq<Seq<char>>,
    rd: Seq<(Seq<char>, Seq<char>)>,
    c: CacheM,
    ty: TypeExpr,
    ctx: DefinitionContext,
) -> (Option<NodeM>, CacheM)
    decreases unres(r, rs, rd), type_size(ty), 2nat, 0nat,
{
    match ty {
        TypeExpr::Struct(_) => red_type(r, rs, rd, c, ty, ctx),
        TypeExpr::Reference(_) => red_type(r, rs, rd, c, ty, ctx),
        TypeExpr::DispatchRef(_) => red_type(r, rs, rd, c, ty, ctx),
        TypeExpr::Union(_) => red_type(r, rs, rd, c, ty, ctx),
        _ => (None, c),
    }
}

/// The detail shown for a field of this type: the primitive's or enum's
/// type; `compound` for structs and for references and dispatch references
/// that reduce to a schema; for a union, `compound` where an alternative in
/// this version reduces to one, else the first such alternative's detail
/// (`nbt` with none); `list<...>` for lists; `nbt` for what is unknown;
/// else the last segment of the name.
pub open spec fn red_detail(
    r: &SchemaReducer,
    rs: Seq<Seq<char>>,
    rd: Seq<(Seq<char>, Seq<char>)>,
    c: CacheM,
    ty: TypeExpr,
    ctx: DefinitionContext,
) -> (Seq<char>, CacheM)
    decreases unres(r, rs, rd), type_size(ty), 3nat, 0nat,
{
    match ty {
        TypeExpr::Primitive(n) => (n@, c),
        TypeExpr::Struct(_) => ("compound"@, c),
        TypeExpr::Reference(raw) => {
            let resolved = resolve_name(raw@, ctx.module@, uses_model(ctx.uses@), false);
            match symbol_index(r.parsed, resolved, 0) {
                Some(j) => match r.parsed.symbols@[j].1.kind {
                    SymbolKind::Enum { underlying } => (underlying@, c),
                    _ => {
                        let (n, c1) = red_symbol(r, rs, rd, c, resolved);
                        (
                            if n is Some {
                                "compound"@
                            } else {
                                tail_of(resolved)
                            },
                            c1,
                        )
                    },
                },
                None => (tail_of(raw@), c),
            }
        },
        TypeExpr::DispatchRef(dr) => match dr.key {
            DispatchRefKey::Literal(keys) => {
                let (any, c1) = red_any_key(r, rs, rd, c, dr.dispatcher@, keys@, 0);
                (
                    if any {
                        "compound"@
                    } else {
                        tail_of(dr.dispatcher@)
                    },
                    c1,
                )
            },
            DispatchRefKey::Dynamic => (tail_of(dr.dispatcher@), c),
        },
        TypeExpr::List(item) => {
            let (inner, c1) = red_detail(r, rs, rd, c, *item, ctx);
            ("list<"@ + inner + ">"@, c1)
        },
        TypeExpr::Union(vs) => {
            let (any, c1) = red_any_variant(r, rs, rd, c, vs@, ctx, 0);
            if any {
                ("compound"@, c1)
            } else {
                red_first_detail(r, rs, rd, c1, vs@, ctx, 0)
            }
        },
        TypeExpr::Enum(u) => (u@, c),
        TypeExpr::Unknown => ("nbt"@, c),
    }
}

/// Whether a dispatch to `d[keys[j]]` for `j` from `i` on gives a schema;
/// reducing stops at the first that does.
pub open spec fn red_any_key(
    r: &SchemaReducer,
    rs: Seq<Seq<char>>,
    rd: Seq<(Seq<char>, Seq<char>)>,
    c: CacheM,
    d: Seq<char>,
    keys: Seq<String>,
    i: int,
) -> (bool, CacheM)
    decreases unres(r, rs, rd), 1nat, 2nat, keys.len() - i,
{
    if i < 0 || i >= keys.len() {
        (false, c)
    } else {
        let (n, c1) = red_dispatch(r, rs, rd, c, d, keys[i]@);
        if n is Some {
            (true, c1)
        } else {
            red_any_key(r, rs, rd, c1, d, keys, i + 1)
        }
    }
}

/// Whether an alternative of `vs` from `i` on holds in this version and
/// nests a schema; reducing stops at the first that does.
pub open spec fn red_any_variant(
    r: &SchemaReducer,
    rs: Seq<Seq<char>>,
    rd: Seq<(Seq<char>, Seq<char>)>,
    c: CacheM,
    vs: Seq<UnionVariant>,
    ctx: DefinitionContext,
    i: int,
) -> (bool, CacheM)
    decreases unres(r, rs, rd), 1 + variants_size(vs), 2nat, vs.len() - i,
{
    if i < 0 || i >= vs.len() {
        (false, c)
    } else {
        proof {
            lemma_variant_size(vs, i);
        }
        if active(r, vs[i].meta) {
            let (n, c1) = red_nested(r, rs, rd, c, vs[i].ty, ctx);
            if n is Some {
                (true, c1)
            } else {
                red_any_variant(r, rs, rd, c1, vs, ctx, i + 1)
            }
        } else {
            red_any_variant(r, rs, rd, c, vs, ctx, i + 1)
        }
    }
}

/// The detail of the first alternative of `vs` from `i` on in this
/// version; `nbt` where there is none.
pub open spec fn red_first_detail(
    r: &SchemaReducer,
    rs: Seq<Seq<char>>,
    rd: Seq<(Seq<char>, Seq<char>)>,
    c: CacheM,
    vs: Seq<UnionVariant>,
    ctx: DefinitionContext,
    i: int,
) -> (Seq<char>, CacheM)
    decreases unres(r, rs, rd), 1 + variants_size(vs), 2nat, vs.len() - i,
{
    if i < 0 || i >= vs.len() {
        ("nbt"@, c)
    } else {
        proof {
            lemma_variant_size(vs, i);
        }
        if active(r, vs[i].meta) {
            red_detail(r, rs, rd, c, vs[i].ty, ctx)
        } else {
            red_first_detail(r, rs, rd, c, vs, ctx, i + 1)
        }
    }
}


proof fn lemma_sym_index_at(c: Seq<(Seq<char>, Option<NodeM>)>, s: Seq<char>, i: int, j: int)
    requires
        0 <= i <= j < c.len(),
        c[j].0 == s,
        forall|k: int| i <= k < j ==> c[k].0 != s,
    ensures
        sym_index(c, s, i) == Some(j),
    decreases j - i,
{
    if i < j {
        lemma_sym_index_at(c, s, i + 1, j);
    }
}

proof fn lemma_sym_index(c: Seq<(Seq<char>, Option<NodeM>)>, s: Seq<char>, i: int)
    requires
        0 <= i <= c.len(),
    ensures
        match sym_index(c, s, i) {
            Some(j) => i <= j < c.len() && c[j].0 == s && forall|k: int| i <= k < j ==> c[k].0 != s,
            None => forall|k: int| i <= k < c.len() ==> c[k].0 != s,
        },
    decreases c.len() - i,
{
    if i < c.len() {
        lemma_sym_index(c, s, i + 1);
    }
}

proof fn lemma_disp_index_at(
    c: Seq<(Seq<char>, Seq<char>, Option<NodeM>)>,
    d: Seq<char>,
    k: Seq<char>,
    i: int,
    j: int,
)
    requires
        0 <= i <= j < c.len(),
        c[j].0 == d && c[j].1 == k,
        forall|m: int| i <= m < j ==> !(c[m].0 == d && c[m].1 == k),
    ensures
        disp_index(c, d, k, i) == Some(j),
    decreases j - i,
{
    if i < j {
        lemma_disp_index_at(c, d, k, i + 1, j);
    }
}

proof fn lemma_disp_index(c: Seq<(Seq<char>, Seq<char>, Option<NodeM>)>, d: Seq<char>, k: Seq<char>, i: int)
    requires
        0 <= i <= c.len(),
    ensures
        match disp_index(c, d, k, i) {
            Some(j) => i <= j < c.len() && c[j].0 == d && c[j].1 == k && forall|m: int|
                i <= m < j ==> !(c[m].0 == d && c[m].1 == k),
            None => forall|m: int| i <= m < c.len() ==> !(c[m].0 == d && c[m].1 == k),
        },
    decreases c.len() - i,
{
    if i < c.len() {
        lemma_disp_index(c, d, k, i + 1);
    }
}

/// What is stored for a symbol is what a lookup then finds.
pub proof fn lemma_sym_store_lookup(c: Seq<(Seq<char>, Option<NodeM>)>, s: Seq<char>, n: Option<NodeM>)
    ensures
        sym_lookup(sym_store(c, s, n), s) == Some(n),
{
    lemma_sym_index(c, s, 0);
    let c2 = sym_store(c, s, n);
    match sym_index(c, s, 0) {
        Some(j) => {
            lemma_sym_index_at(c2, s, 0, j);
        },
        None => {
            lemma_sym_index_at(c2, s, 0, c.len() as int);
        },
    }
}

/// What is stored for a dispatch is what a lookup then finds.
pub proof fn lemma_disp_store_lookup(
    c: Seq<(Seq<char>, Seq<char>, Option<NodeM>)>,
    d: Seq<char>,
    k: Seq<char>,
    n: Option<NodeM>,
)
    ensures
        disp_lookup(disp_store(c, d, k, n), d, k) == Some(n),
{
    lemma_disp_index(c, d, k, 0);
    let c2 = disp_store(c, d, k, n);
    match disp_index(c, d, k, 0) {
        Some(j) => {
            lemma_disp_index_at(c2, d, k, 0, j);
        },
        None => {
            lemma_disp_index_at(c2, d, k, 0, c.len() as int);
        },
    }
}

/// Reducing a symbol remembers its result: reducing it again with what was
/// remembered gives the same schema and remembers nothing new.
pub proof fn law_reduced_symbol_is_remembered(
    r: &SchemaReducer,
    rs: Seq<Seq<char>>,
    rd: Seq<(Seq<char>, Seq<char>)>,
    c: CacheM,
    s: Seq<char>,
)
    ensures
        red_symbol(r, rs, rd, red_symbol(r, rs, rd, c, s).1, s) == red_symbol(r, rs, rd, c, s),
{
    let (n, c1) = red_symbol(r, rs, rd, c, s);
    if sym_lookup(c.syms, s) is None && !rs.contains(s) {
        let c2 = match symbol_index(r.parsed, s, 0) {
            None => c,
            Some(j) => {
                let def = r.parsed.symbols@[j].1;
                if !active(r, def.meta) {
                    c
                } else {
                    match def.kind {
                        SymbolKind::Struct(d) => red_struct(
                            r,
                            rs.push(s),
                            rd,
                            c,
                            d.name,
                            d.entries@,
                            def.context,
                            def.meta.documentation@,
                        ).1,
                        SymbolKind::Alias(e) => red_type(r, rs.push(s), rd, c, e, def.context).1,
                        SymbolKind::Enum { .. } => c,
                    }
                }
            },
        };
        assert(c1.syms == sym_store(c2.syms, s, n));
        lemma_sym_store_lookup(c2.syms, s, n);
    }
}

/// Reducing a dispatch remembers its result: reducing it again with what
/// was remembered gives the same schema and remembers nothing new.
pub proof fn law_reduced_dispatch_is_remembered(
    r: &SchemaReducer,
    rs: Seq<Seq<char>>,
    rd: Seq<(Seq<char>, Seq<char>)>,
    c: CacheM,
    d: Seq<char>,
    k: Seq<char>,
)
    ensures
        red_dispatch(r, rs, rd, red_dispatch(r, rs, rd, c, d, k).1, d, k) == red_dispatch(
            r,
            rs,
            rd,
            c,
            d,
            k,
        ),
{
    let (n, c1) = red_dispatch(r, rs, rd, c, d, k);
    if disp_lookup(c.disps, d, k) is None && !rd.contains((d, k)) {
        let c2 = match dispatch_index(r.parsed, d, k, 0) {
            None => c,
            Some(j) => red_defs(r, rs, rd, (d, k), c, r.parsed.dispatches@[j].2@, 0, Seq::empty()).1,
        };
        assert(c1.disps == disp_store(c2.disps, d, k, n));
        lemma_disp_store_lookup(c2.disps, d, k, n);
    }
}

} // verus!
