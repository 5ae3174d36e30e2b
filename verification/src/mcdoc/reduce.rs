//! Reduction of parsed definitions to schema trees: merging of nodes and
//! fields, and the reducer that follows references and dispatches.
use vstd::prelude::*;

use crate::mcdoc::parser::{
    dispatch_keys, lemma_symbol_index, symbol_index, entries_size, entry_size, resolve_in, symbol_keys, type_size, variants_size,
    DefinitionContext, DispatchRefKey, ParsedRepo, StructDef, StructEntry, SymbolKind, TypeExpr,
};
use crate::mcdoc::reduction::{
    cache_of, disp_index, disp_store, dispatch_index, lemma_dispatch_index,
    red_any_key, red_any_variant, red_defs, red_detail, red_dispatch, red_entries,
    red_first_detail, red_keys, red_nested, red_struct, red_symbol, red_type, red_variants,
    stack_disps, stack_syms, sym_index, sym_store, CacheM,
};
use crate::mcdoc::{Metadata, SchemaField, SchemaNode, Version};
use crate::mcfd::bridge::views;
use crate::text::{push_str, str_eq, string_of};

verus! {

broadcast use vstd::string::group_string_axioms;

/// Whether a text is empty.
pub fn is_blank(s: &String) -> (r: bool)
    ensures
        r == (s@.len() == 0),
{
    s.as_str().unicode_len() == 0
}

/// The size of a schema tree.
pub open spec fn node_size(n: SchemaNode) -> nat
    decreases n,
{
    1 + fields_size(n.fields@)
}

pub open spec fn fields_size(fs: Seq<SchemaField>) -> nat
    decreases fs,
{
    if fs.len() == 0 {
        0
    } else {
        field_size(fs.last()) + fields_size(fs.drop_last())
    }
}

pub open spec fn field_size(f: SchemaField) -> nat
    decreases f,
{
    1 + match f.node {
        Some(n) => node_size(n),
        None => 0,
    }
}

proof fn lemma_fields_size_index(fs: Seq<SchemaField>, i: int)
    requires
        0 <= i < fs.len(),
    ensures
        field_size(fs[i]) <= fields_size(fs),
    decreases fs.len(),
{
    if i < fs.len() - 1 {
        lemma_fields_size_index(fs.drop_last(), i);
        assert(fs.drop_last()[i] == fs[i]);
    }
}

// ---- schema trees as plain values ----------------------------------------------------
/// A schema node as plain values: its detail, documentation and fields.
pub struct NodeM {
    pub detail: Seq<char>,
    pub doc: Seq<char>,
    pub fields: Seq<FieldM>,
}

/// A schema field as plain values.
pub struct FieldM {
    pub name: Seq<char>,
    pub detail: Seq<char>,
    pub doc: Seq<char>,
    pub node: Option<NodeM>,
}

pub open spec fn node_view(n: SchemaNode) -> NodeM
    decreases n,
{
    NodeM { detail: n.detail@, doc: n.documentation@, fields: fields_view(n.fields@) }
}

pub open spec fn fields_view(fs: Seq<SchemaField>) -> Seq<FieldM>
    decreases fs,
{
    if fs.len() == 0 {
        Seq::empty()
    } else {
        fields_view(fs.drop_last()).push(field_view(fs.last()))
    }
}

pub open spec fn field_view(f: SchemaField) -> FieldM
    decreases f,
{
    FieldM {
        name: f.name@,
        detail: f.detail@,
        doc: f.documentation@,
        node: match f.node {
            Some(n) => Some(node_view(n)),
            None => None,
        },
    }
}

pub open spec fn opt_view(n: Option<SchemaNode>) -> Option<NodeM> {
    match n {
        Some(x) => Some(node_view(x)),
        None => None,
    }
}

pub proof fn lemma_fields_view(fs: Seq<SchemaField>)
    ensures
        fields_view(fs).len() == fs.len(),
        forall|i: int| 0 <= i < fs.len() ==> #[trigger] fields_view(fs)[i] == field_view(fs[i]),
    decreases fs.len(),
{
    if fs.len() > 0 {
        lemma_fields_view(fs.drop_last());
        assert forall|i: int| 0 <= i < fs.len() implies #[trigger] fields_view(fs)[i] == field_view(
            fs[i],
        ) by {
            if i < fs.len() - 1 {
                assert(fs.drop_last()[i] == fs[i]);
            }
        }
    }
}

/// Views agree element by element.
pub proof fn lemma_fields_view_ext(a: Seq<SchemaField>, b: Seq<FieldM>)
    requires
        a.len() == b.len(),
        forall|i: int| 0 <= i < a.len() ==> field_view(#[trigger] a[i]) == b[i],
    ensures
        fields_view(a) == b,
{
    lemma_fields_view(a);
    assert(fields_view(a) =~= b);
}

/// The size of a schema tree as plain values.
pub open spec fn node_m_size(n: NodeM) -> nat
    decreases n,
{
    1 + fields_m_size(n.fields)
}

pub open spec fn fields_m_size(fs: Seq<FieldM>) -> nat
    decreases fs,
{
    if fs.len() == 0 {
        0
    } else {
        field_m_size(fs[0]) + fields_m_size(fs.drop_first())
    }
}

pub open spec fn field_m_size(f: FieldM) -> nat
    decreases f,
{
    1 + match f.node {
        Some(n) => node_m_size(n),
        None => 0,
    }
}

/// The index of the first field named `name`, from `i` on.
pub open spec fn name_index(fs: Seq<FieldM>, name: Seq<char>, i: int) -> Option<int>
    decreases fs.len() - i,
{
    if i < 0 || i >= fs.len() {
        None
    } else if fs[i].name == name {
        Some(i)
    } else {
        name_index(fs, name, i + 1)
    }
}

/// What merging adds to a field's value: the first field's, unless it is
/// the placeholder `nbt` (for details) or empty (for documentation).
pub open spec fn prefer(existing: Seq<char>, incoming: Seq<char>, placeholder: Seq<char>) -> Seq<char> {
    if existing == placeholder {
        incoming
    } else {
        existing
    }
}

/// Two fields of one name merged: the first's name, its detail unless it
/// is `nbt`, its documentation unless empty, and the merge of their nodes.
pub open spec fn merge_field_m(e: FieldM, inc: FieldM) -> FieldM
    decreases field_m_size(inc), 1nat,
{
    FieldM {
        name: e.name,
        detail: prefer(e.detail, inc.detail, "nbt"@),
        doc: prefer(e.doc, inc.doc, Seq::empty()),
        node: match e.node {
            Some(l) => match inc.node {
                Some(r) => Some(merge_into_m(l, r)),
                None => Some(l),
            },
            None => inc.node,
        },
    }
}

/// `fs` with `f` merged into its first field of the same name, or added at
/// the end.
pub open spec fn push_field_m(fs: Seq<FieldM>, f: FieldM) -> Seq<FieldM>
    decreases field_m_size(f), 2nat,
{
    match name_index(fs, f.name, 0) {
        Some(i) => fs.update(i, merge_field_m(fs[i], f)),
        None => fs.push(f),
    }
}

/// `fs` with each field of `more` merged in, in order.
pub open spec fn push_fields_m(fs: Seq<FieldM>, more: Seq<FieldM>) -> Seq<FieldM>
    decreases fields_m_size(more), 3nat,
{
    if more.len() == 0 {
        fs
    } else {
        proof {
            assert(field_m_size(more[0]) >= 1);
        }
        push_fields_m(push_field_m(fs, more[0]), more.drop_first())
    }
}

/// The first node with the fields of the second merged in.
pub open spec fn merge_into_m(l: NodeM, r: NodeM) -> NodeM
    decreases node_m_size(r), 4nat,
{
    NodeM { detail: l.detail, doc: l.doc, fields: push_fields_m(l.fields, r.fields) }
}

/// Nodes, each with the documentation of its metadata, merged into the
/// first: the documentation of the first node, else the first non-empty
/// documentation after it in order; the fields of the others merged in.
pub open spec fn merge_nodes_m(nodes: Seq<(Seq<char>, NodeM)>) -> Option<NodeM>
    decreases nodes.len(),
{
    if nodes.len() == 0 {
        None
    } else if nodes.len() == 1 {
        let (meta, n) = nodes[0];
        Some(
            NodeM {
                detail: n.detail,
                doc: if meta.len() > 0 && n.doc.len() == 0 {
                    meta
                } else {
                    n.doc
                },
                fields: n.fields,
            },
        )
    } else {
        match merge_nodes_m(nodes.drop_last()) {
            Some(m) => {
                let (meta, n) = nodes.last();
                Some(
                    NodeM {
                        detail: m.detail,
                        doc: if m.doc.len() == 0 && meta.len() > 0 {
                            meta
                        } else {
                            m.doc
                        },
                        fields: push_fields_m(m.fields, n.fields),
                    },
                )
            },
            None => None,
        }
    }
}

/// Nodes with their metadata's documentation, as plain values.
pub open spec fn nodes_view(nodes: Seq<(Metadata, SchemaNode)>) -> Seq<(Seq<char>, NodeM)> {
    nodes.map_values(|e: (Metadata, SchemaNode)| (e.0.documentation@, node_view(e.1)))
}

/// The names of fields, in order.
pub open spec fn names_m(fs: Seq<FieldM>) -> Seq<Seq<char>> {
    fs.map_values(|f: FieldM| f.name)
}

/// `ns` with each of `new` appended, in order, unless already there.
pub open spec fn with_names(ns: Seq<Seq<char>>, new: Seq<Seq<char>>) -> Seq<Seq<char>>
    decreases new.len(),
{
    if new.len() == 0 {
        ns
    } else {
        let before = with_names(ns, new.drop_last());
        if before.contains(new.last()) {
            before
        } else {
            before.push(new.last())
        }
    }
}

proof fn lemma_name_index(fs: Seq<FieldM>, name: Seq<char>, i: int)
    requires
        0 <= i <= fs.len(),
    ensures
        match name_index(fs, name, i) {
            Some(k) => i <= k < fs.len() && fs[k].name == name && forall|j: int|
                i <= j < k ==> fs[j].name != name,
            None => forall|j: int| i <= j < fs.len() ==> fs[j].name != name,
        },
    decreases fs.len() - i,
{
    if i < fs.len() {
        lemma_name_index(fs, name, i + 1);
    }
}

proof fn lemma_push_field_names(fs: Seq<FieldM>, f: FieldM)
    ensures
        names_m(push_field_m(fs, f)) == if names_m(fs).contains(f.name) {
            names_m(fs)
        } else {
            names_m(fs).push(f.name)
        },
{
    lemma_name_index(fs, f.name, 0);
    match name_index(fs, f.name, 0) {
        Some(k) => {
            assert(names_m(fs)[k] == f.name);
            assert(names_m(fs.update(k, merge_field_m(fs[k], f))) =~= names_m(fs));
        },
        None => {
            assert(!names_m(fs).contains(f.name)) by {
                if names_m(fs).contains(f.name) {
                    let j = choose|j: int| 0 <= j < names_m(fs).len() && names_m(fs)[j] == f.name;
                    assert(fs[j].name == f.name);
                }
            }
            assert(names_m(fs.push(f)) =~= names_m(fs).push(f.name));
        },
    }
}

proof fn lemma_with_names_front(ns: Seq<Seq<char>>, new: Seq<Seq<char>>)
    requires
        new.len() > 0,
    ensures
        with_names(ns, new) == with_names(
            if ns.contains(new[0]) {
                ns
            } else {
                ns.push(new[0])
            },
            new.drop_first(),
        ),
    decreases new.len(),
{
    let x = if ns.contains(new[0]) {
        ns
    } else {
        ns.push(new[0])
    };
    if new.len() == 1 {
        assert(new.drop_last() =~= Seq::<Seq<char>>::empty());
        assert(new.drop_first() =~= Seq::<Seq<char>>::empty());
        assert(new.last() == new[0]);
        assert(with_names(ns, new.drop_last()) == ns);
        assert(with_names(x, new.drop_first()) == x);
    } else {
        lemma_with_names_front(ns, new.drop_last());
        assert(new.drop_last().drop_first() =~= new.drop_first().drop_last());
        assert(new.drop_last()[0] == new[0]);
        assert(new.drop_first().last() == new.last());
        let b = with_names(ns, new.drop_last());
        assert(b == with_names(x, new.drop_first().drop_last()));
        assert(with_names(ns, new) == if b.contains(new.last()) {
            b
        } else {
            b.push(new.last())
        });
        assert(with_names(x, new.drop_first()) == if b.contains(new.last()) {
            b
        } else {
            b.push(new.last())
        });
    }
}

/// Merging fields in keeps the names of both sides, each first place kept:
/// the names are those `with_names` gives.
pub proof fn lemma_push_fields_names(fs: Seq<FieldM>, more: Seq<FieldM>)
    ensures
        names_m(push_fields_m(fs, more)) == with_names(names_m(fs), names_m(more)),
    decreases more.len(),
{
    if more.len() > 0 {
        let next = push_field_m(fs, more[0]);
        lemma_push_fields_names(next, more.drop_first());
        lemma_push_field_names(fs, more[0]);
        assert(names_m(more.drop_first()) =~= names_m(more).drop_first());
        lemma_with_names_front(names_m(fs), names_m(more));
    } else {
        assert(names_m(more) =~= Seq::<Seq<char>>::empty());
    }
}

/// Adds `field` to `fields`, merged into the field of the same name when
/// there is one (see [`push_field_m`]).
pub fn push_or_replace_field(fields: &mut Vec<SchemaField>, field: SchemaField)
    ensures
        fields_view(final(fields)@) == push_field_m(fields_view(old(fields)@), field_view(field)),
    decreases field_size(field), 1nat,
{
    let ghost fv = field_view(field);
    let ghost olds = fields_view(fields@);
    proof {
        lemma_fields_view(fields@);
        lemma_name_index(olds, fv.name, 0);
    }
    let mut i: usize = 0;
    while i < fields.len()
        invariant
            fields@ == old(fields)@,
            olds == fields_view(fields@),
            fv == field_view(field),
            fields_view(fields@).len() == fields@.len(),
            forall|j: int| 0 <= j < fields@.len() ==> #[trigger] fields_view(fields@)[j] == field_view(fields@[j]),
            i <= fields@.len(),
            name_index(olds, fv.name, 0) == name_index(olds, fv.name, i as int),
        decreases fields@.len() - i,
    {
        if crate::text::str_eq(fields[i].name.as_str(), field.name.as_str()) {
            let ghost before = fields@;
            let existing = fields.remove(i);
            assert(existing == before[i as int]);
            let merged = merge_fields(existing, field);
            fields.insert(i, merged);
            proof {
                assert(fields@ =~= before.update(i as int, merged));
                assert forall|j: int| 0 <= j < fields@.len() implies field_view(#[trigger] fields@[j])
                    == olds.update(i as int, merge_field_m(olds[i as int], fv))[j] by {
                    if j != i {
                        assert(fields@[j] == before[j]);
                    }
                }
                lemma_fields_view_ext(fields@, olds.update(i as int, merge_field_m(olds[i as int], fv)));
            }
            return;
        }
        i = i + 1;
    }
    let ghost before = fields@;
    fields.push(field);
    proof {
        assert(fields@.drop_last() =~= before);
    }
}

/// Merges two fields of one name (see [`merge_field_m`]).
pub fn merge_fields(existing: SchemaField, incoming: SchemaField) -> (r: SchemaField)
    ensures
        field_view(r) == merge_field_m(field_view(existing), field_view(incoming)),
    decreases field_size(incoming), 0nat,
{
    let ghost ev = field_view(existing);
    let ghost iv = field_view(incoming);
    let detail = if crate::text::str_eq(existing.detail.as_str(), "nbt") {
        incoming.detail
    } else {
        existing.detail
    };
    proof {
        reveal_strlit("nbt");
    }
    let documentation = if is_blank(&existing.documentation) {
        assert(existing.documentation@ =~= Seq::<char>::empty());
        incoming.documentation
    } else {
        existing.documentation
    };
    let node = match (existing.node, incoming.node) {
        (Some(left), Some(right)) => Some(merge_into(left, right)),
        (Some(left), None) => Some(left),
        (None, Some(right)) => Some(right),
        (None, None) => None,
    };
    SchemaField { name: existing.name, detail, documentation, node }
}

/// The merge of two nodes (see [`merge_into_m`]).
pub fn merge_into(left: SchemaNode, right: SchemaNode) -> (r: SchemaNode)
    ensures
        node_view(r) == merge_into_m(node_view(left), node_view(right)),
    decreases node_size(right), 0nat,
{
    let ghost target = merge_into_m(node_view(left), node_view(right)).fields;
    let mut merged = left;
    let SchemaNode { detail: _, documentation: _, fields: mut rest } = right;
    let ghost all = rest@;
    let ghost mut k: int = 0;
    while rest.len() > 0
        invariant
            merged.detail@ == left.detail@,
            merged.documentation@ == left.documentation@,
            all == right.fields@,
            0 <= k <= all.len(),
            rest@ == all.skip(k),
            target == push_fields_m(fields_view(merged.fields@), fields_view(rest@)),
        decreases rest@.len(),
    {
        let ghost before_rest = rest@;
        let f = rest.remove(0);
        proof {
            assert(f == all[k]);
            lemma_fields_size_index(all, k);
            assert(all.skip(k).drop_first() =~= all.skip(k + 1));
            lemma_fields_view(before_rest);
            lemma_fields_view(rest@);
            assert(fields_view(rest@) =~= fields_view(before_rest).drop_first());
            assert(fields_view(before_rest)[0] == field_view(f));
        }
        push_or_replace_field(&mut merged.fields, f);
        proof {
            k = k + 1;
        }
    }
    proof {
        assert(fields_view(rest@) =~= Seq::<FieldM>::empty());
    }
    merged
}

/// Merges nodes into the first (see [`merge_nodes_m`]); `None` for no
/// nodes.
pub fn merge_schema_nodes(nodes: Vec<(Metadata, SchemaNode)>) -> (r: Option<SchemaNode>)
    ensures
        opt_view(r) == merge_nodes_m(nodes_view(nodes@)),
{
    let ghost all = nodes@;
    let ghost nv = nodes_view(all);
    let mut rest = nodes;
    if rest.len() == 0 {
        return None;
    }
    let (meta, mut merged) = rest.remove(0);
    assert(meta == all[0].0 && merged == all[0].1);
    if !is_blank(&meta.documentation) && is_blank(&merged.documentation) {
        merged.documentation = meta.documentation;
    }
    let ghost mut k: int = 1;
    proof {
        assert(nv.take(1).len() == 1);
        assert(nv.take(1)[0] == nv[0]);
        assert(node_view(merged) =~= merge_nodes_m(nv.take(1))->0);
    }
    while rest.len() > 0
        invariant
            1 <= k <= all.len(),
            rest@ == all.skip(k),
            nv == nodes_view(all),
            merge_nodes_m(nv.take(k)) == Some(node_view(merged)),
        decreases rest@.len(),
    {
        let (meta, node) = rest.remove(0);
        assert(all.skip(k).drop_first() =~= all.skip(k + 1));
        assert(meta == all[k].0 && node == all[k].1);
        let ghost m0 = node_view(merged);
        if is_blank(&merged.documentation) && !is_blank(&meta.documentation) {
            merged.documentation = meta.documentation;
        }
        let ghost doc_now = merged.documentation@;
        let ghost target = push_fields_m(m0.fields, node_view(node).fields);
        let SchemaNode { detail: _, documentation: _, fields: mut incoming } = node;
        while incoming.len() > 0
            invariant
                target == push_fields_m(fields_view(merged.fields@), fields_view(incoming@)),
                merged.detail@ == m0.detail,
                merged.documentation@ == doc_now,
            decreases incoming@.len(),
        {
            let ghost before_inc = incoming@;
            let f = incoming.remove(0);
            proof {
                assert(f == before_inc[0]);
                lemma_fields_view(before_inc);
                lemma_fields_view(incoming@);
                assert(incoming@ =~= before_inc.drop_first());
                assert(fields_view(incoming@) =~= fields_view(before_inc).drop_first());
            }
            push_or_replace_field(&mut merged.fields, f);
        }
        proof {
            assert(fields_view(incoming@) =~= Seq::<FieldM>::empty());
            assert(nv.take(k + 1).drop_last() =~= nv.take(k));
            assert(nv.take(k + 1).last() == nv[k]);
            assert(node_view(merged) =~= merge_nodes_m(nv.take(k + 1))->0);
            k = k + 1;
        }
    }
    proof {
        assert(nv.take(k) =~= nv);
    }
    Some(merged)
}

// ---- copies of schema trees --------------------------------------------------------
proof fn lemma_node_fields_size(n: SchemaNode, i: int)
    requires
        0 <= i < n.fields@.len(),
    ensures
        field_size(n.fields@[i]) < node_size(n),
{
    lemma_fields_size_index(n.fields@, i);
}

/// A copy of a schema tree.
pub fn copy_node(n: &SchemaNode) -> (r: SchemaNode)
    ensures
        node_view(r) == node_view(*n),
    decreases node_size(*n), 1nat,
{
    let mut fields: Vec<SchemaField> = Vec::new();
    let mut i: usize = 0;
    while i < n.fields.len()
        invariant
            i <= n.fields@.len(),
            fields_view(fields@) == fields_view(n.fields@.take(i as int)),
        decreases n.fields@.len() - i,
    {
        proof {
            lemma_node_fields_size(*n, i as int);
        }
        let f = copy_field(&n.fields[i]);
        let ghost before = fields@;
        fields.push(f);
        proof {
            assert(fields@.drop_last() =~= before);
            assert(n.fields@.take(i + 1).drop_last() =~= n.fields@.take(i as int));
        }
        i = i + 1;
    }
    assert(n.fields@.take(n.fields@.len() as int) =~= n.fields@);
    SchemaNode { detail: n.detail.clone(), documentation: n.documentation.clone(), fields }
}

/// A copy of a field.
pub fn copy_field(f: &SchemaField) -> (r: SchemaField)
    ensures
        field_view(r) == field_view(*f),
    decreases field_size(*f), 0nat,
{
    let node = match &f.node {
        Some(n) => Some(copy_node(n)),
        None => None,
    };
    SchemaField {
        name: f.name.clone(),
        detail: f.detail.clone(),
        documentation: f.documentation.clone(),
        node,
    }
}

fn copy_opt(n: &Option<SchemaNode>) -> (r: Option<SchemaNode>)
    ensures
        opt_view(r) == opt_view(*n),
{
    match n {
        Some(x) => Some(copy_node(x)),
        None => None,
    }
}

// ---- the reducer -----------------------------------------------------------------------
/// Reduces definitions to schema trees for one game version.
pub struct SchemaReducer {
    pub parsed: ParsedRepo,
    pub version: Version,
}

/// What one reduction remembers: results by symbol and by dispatch, and
/// the symbols and dispatches being reduced (to cut cycles).
pub struct ReduceState {
    pub symbol_cache: Vec<(String, Option<SchemaNode>)>,
    pub dispatch_cache: Vec<(String, String, Option<SchemaNode>)>,
    pub resolving_symbols: Vec<String>,
    pub resolving_dispatches: Vec<(String, String)>,
}

pub open spec fn pair_views(ps: Seq<(String, String)>) -> Seq<(Seq<char>, Seq<char>)> {
    ps.map_values(|p: (String, String)| (p.0@, p.1@))
}

/// How many definitions and dispatches are not being reduced.
pub open spec fn unresolved(r: &SchemaReducer, st: &ReduceState) -> nat {
    crate::mcdoc::reduction::unres(r, stack_syms(st), stack_disps(st))
}

/// The same symbols and dispatches are being reduced.
pub open spec fn same_stack(a: &ReduceState, b: &ReduceState) -> bool {
    &&& a.resolving_symbols@ == b.resolving_symbols@
    &&& a.resolving_dispatches@ == b.resolving_dispatches@
}

pub proof fn lemma_difference_shrinks<A>(all: Seq<A>, busy: Seq<A>, k: A)
    requires
        all.contains(k),
        !busy.contains(k),
    ensures
        all.to_set().difference(busy.push(k).to_set()).len() + 1 == all.to_set().difference(
            busy.to_set(),
        ).len(),
{
    crate::mcdoc::parser::lemma_push_contains(busy, k);
    let d = all.to_set().difference(busy.to_set());
    assert(all.to_set().difference(busy.push(k).to_set()) =~= d.remove(k));
    assert(d.contains(k));
    vstd::seq_lib::seq_to_set_is_finite(all);
    assert(d.finite());
}

pub proof fn lemma_variant_size(vs: Seq<crate::mcdoc::parser::UnionVariant>, i: int)
    requires
        0 <= i < vs.len(),
    ensures
        type_size(vs[i].ty) <= variants_size(vs),
    decreases vs.len(),
{
    if i < vs.len() - 1 {
        lemma_variant_size(vs.drop_last(), i);
        assert(vs.drop_last()[i] == vs[i]);
    }
}

pub proof fn lemma_entry_size(es: Seq<StructEntry>, i: int)
    requires
        0 <= i < es.len(),
    ensures
        entry_size(es[i]) <= entries_size(es),
    decreases es.len(),
{
    if i < es.len() - 1 {
        lemma_entry_size(es.drop_last(), i);
        assert(es.drop_last()[i] == es[i]);
    }
}

fn find_symbol(repo: &ParsedRepo, name: &str) -> (r: Option<usize>)
    ensures
        match symbol_index(*repo, name@, 0) {
            Some(j) => r matches Some(k) && k == j,
            None => r is None,
        },
        match r {
            Some(j) => j < repo.symbols@.len() && repo.symbols@[j as int].0@ == name@
                && symbol_keys(repo).contains(name@),
            None => !symbol_keys(repo).contains(name@),
        },
{
    proof {
        lemma_symbol_index(*repo, name@, 0);
    }
    let mut j: usize = 0;
    while j < repo.symbols.len()
        invariant
            j <= repo.symbols@.len(),
            symbol_index(*repo, name@, 0) == symbol_index(*repo, name@, j as int),
            forall|k: int| 0 <= k < j ==> repo.symbols@[k].0@ != name@,
        decreases repo.symbols@.len() - j,
    {
        if str_eq(repo.symbols[j].0.as_str(), name) {
            assert(symbol_keys(repo)[j as int] == name@);
            return Some(j);
        }
        j = j + 1;
    }
    proof {
        if symbol_keys(repo).contains(name@) {
            let k = choose|k: int| 0 <= k < symbol_keys(repo).len() && symbol_keys(repo)[k] == name@;
            assert(repo.symbols@[k].0@ == name@);
        }
    }
    None
}

fn find_dispatch(repo: &ParsedRepo, dispatcher: &str, key: &str) -> (r: Option<usize>)
    ensures
        match dispatch_index(*repo, dispatcher@, key@, 0) {
            Some(j) => r matches Some(k) && k == j,
            None => r is None,
        },
        match r {
            Some(j) => j < repo.dispatches@.len() && repo.dispatches@[j as int].0@ == dispatcher@
                && repo.dispatches@[j as int].1@ == key@ && dispatch_keys(repo).contains(
                (dispatcher@, key@),
            ),
            None => !dispatch_keys(repo).contains((dispatcher@, key@)),
        },
{
    proof {
        lemma_dispatch_index(*repo, dispatcher@, key@, 0);
    }
    let mut j: usize = 0;
    while j < repo.dispatches.len()
        invariant
            j <= repo.dispatches@.len(),
            dispatch_index(*repo, dispatcher@, key@, 0) == dispatch_index(
                *repo,
                dispatcher@,
                key@,
                j as int,
            ),
            forall|k: int|
                0 <= k < j ==> !(repo.dispatches@[k].0@ == dispatcher@ && repo.dispatches@[k].1@
                    == key@),
        decreases repo.dispatches@.len() - j,
    {
        if str_eq(repo.dispatches[j].0.as_str(), dispatcher) && str_eq(
            repo.dispatches[j].1.as_str(),
            key,
        ) {
            assert(dispatch_keys(repo)[j as int] == (dispatcher@, key@));
            return Some(j);
        }
        j = j + 1;
    }
    proof {
        if dispatch_keys(repo).contains((dispatcher@, key@)) {
            let k = choose|k: int|
                0 <= k < dispatch_keys(repo).len() && dispatch_keys(repo)[k] == (dispatcher@, key@);
            assert(repo.dispatches@[k].0@ == dispatcher@);
        }
    }
    None
}

fn holds_name(v: &Vec<String>, name: &str) -> (r: bool)
    ensures
        r == views(v@).contains(name@),
{
    let mut j: usize = 0;
    while j < v.len()
        invariant
            j <= v@.len(),
            forall|k: int| 0 <= k < j ==> v@[k]@ != name@,
        decreases v@.len() - j,
    {
        if str_eq(v[j].as_str(), name) {
            assert(views(v@)[j as int] == name@);
            return true;
        }
        j = j + 1;
    }
    proof {
        if views(v@).contains(name@) {
            let k = choose|k: int| 0 <= k < views(v@).len() && views(v@)[k] == name@;
            assert(v@[k]@ == name@);
        }
    }
    false
}

fn holds_pair(v: &Vec<(String, String)>, a: &str, b: &str) -> (r: bool)
    ensures
        r == pair_views(v@).contains((a@, b@)),
{
    let mut j: usize = 0;
    while j < v.len()
        invariant
            j <= v@.len(),
            forall|k: int| 0 <= k < j ==> !(v@[k].0@ == a@ && v@[k].1@ == b@),
        decreases v@.len() - j,
    {
        if str_eq(v[j].0.as_str(), a) && str_eq(v[j].1.as_str(), b) {
            assert(pair_views(v@)[j as int] == (a@, b@));
            return true;
        }
        j = j + 1;
    }
    proof {
        if pair_views(v@).contains((a@, b@)) {
            let k = choose|k: int| 0 <= k < pair_views(v@).len() && pair_views(v@)[k] == (a@, b@);
            assert(v@[k].0@ == a@);
        }
    }
    false
}

fn symbol_cached(st: &ReduceState, symbol: &str) -> (r: Option<usize>)
    ensures
        match sym_index(cache_of(st).syms, symbol@, 0) {
            Some(j) => r matches Some(k) && k == j,
            None => r is None,
        },
        r matches Some(j) ==> j < st.symbol_cache@.len(),
{
    let ghost c = cache_of(st).syms;
    let mut j: usize = 0;
    while j < st.symbol_cache.len()
        invariant
            j <= st.symbol_cache@.len(),
            c == cache_of(st).syms,
            c.len() == st.symbol_cache@.len(),
            sym_index(c, symbol@, 0) == sym_index(c, symbol@, j as int),
        decreases st.symbol_cache@.len() - j,
    {
        assert(c[j as int].0 == st.symbol_cache@[j as int].0@);
        if str_eq(st.symbol_cache[j].0.as_str(), symbol) {
            return Some(j);
        }
        j = j + 1;
    }
    None
}

fn dispatch_cached(st: &ReduceState, dispatcher: &str, key: &str) -> (r: Option<usize>)
    ensures
        match disp_index(cache_of(st).disps, dispatcher@, key@, 0) {
            Some(j) => r matches Some(k) && k == j,
            None => r is None,
        },
        r matches Some(j) ==> j < st.dispatch_cache@.len(),
{
    let ghost c = cache_of(st).disps;
    let mut j: usize = 0;
    while j < st.dispatch_cache.len()
        invariant
            j <= st.dispatch_cache@.len(),
            c == cache_of(st).disps,
            c.len() == st.dispatch_cache@.len(),
            disp_index(c, dispatcher@, key@, 0) == disp_index(c, dispatcher@, key@, j as int),
        decreases st.dispatch_cache@.len() - j,
    {
        assert(c[j as int].0 == st.dispatch_cache@[j as int].0@);
        assert(c[j as int].1 == st.dispatch_cache@[j as int].1@);
        if str_eq(st.dispatch_cache[j].0.as_str(), dispatcher) && str_eq(
            st.dispatch_cache[j].1.as_str(),
            key,
        ) {
            return Some(j);
        }
        j = j + 1;
    }
    None
}

impl ReduceState {
    /// Nothing remembered.
    pub fn new() -> (r: Self)
        ensures
            r.resolving_symbols@.len() == 0,
            r.resolving_dispatches@.len() == 0,
            cache_of(&r) == (CacheM { syms: Seq::empty(), disps: Seq::empty() }),
    {
        let r = ReduceState {
            symbol_cache: Vec::new(),
            dispatch_cache: Vec::new(),
            resolving_symbols: Vec::new(),
            resolving_dispatches: Vec::new(),
        };
        assert(cache_of(&r).syms =~= Seq::empty());
        assert(cache_of(&r).disps =~= Seq::empty());
        r
    }
}

/// Stores a result for `symbol`, in place of an earlier one.
fn cache_symbol(st: &mut ReduceState, symbol: &str, node: Option<SchemaNode>)
    ensures
        same_stack(final(st), old(st)),
        cache_of(final(st)) == (CacheM {
            syms: sym_store(cache_of(old(st)).syms, symbol@, opt_view(node)),
            disps: cache_of(old(st)).disps,
        }),
{
    let ghost nv = opt_view(node);
    let ghost c0 = cache_of(st);
    match symbol_cached(st, symbol) {
        Some(j) => {
            st.symbol_cache.remove(j);
            st.symbol_cache.insert(j, (string_of(symbol), node));
            proof {
                assert(cache_of(st).syms =~= c0.syms.update(j as int, (symbol@, nv)));
                assert(cache_of(st).disps =~= c0.disps);
                assert(cache_of(st).syms == sym_store(c0.syms, symbol@, nv));
            }
        },
        None => {
            st.symbol_cache.push((string_of(symbol), node));
            proof {
                assert(cache_of(st).syms =~= c0.syms.push((symbol@, nv)));
                assert(cache_of(st).disps =~= c0.disps);
                assert(cache_of(st).syms == sym_store(c0.syms, symbol@, nv));
            }
        },
    }
}

/// Stores a result for `dispatcher[key]`, in place of an earlier one.
fn cache_dispatch(st: &mut ReduceState, dispatcher: &str, key: &str, node: Option<SchemaNode>)
    ensures
        same_stack(final(st), old(st)),
        cache_of(final(st)) == (CacheM {
            syms: cache_of(old(st)).syms,
            disps: disp_store(cache_of(old(st)).disps, dispatcher@, key@, opt_view(node)),
        }),
{
    let ghost nv = opt_view(node);
    let ghost c0 = cache_of(st);
    match dispatch_cached(st, dispatcher, key) {
        Some(j) => {
            st.dispatch_cache.remove(j);
            st.dispatch_cache.insert(j, (string_of(dispatcher), string_of(key), node));
            proof {
                assert(cache_of(st).disps =~= c0.disps.update(j as int, (dispatcher@, key@, nv)));
                assert(cache_of(st).syms =~= c0.syms);
                assert(cache_of(st).disps == disp_store(c0.disps, dispatcher@, key@, nv));
            }
        },
        None => {
            st.dispatch_cache.push((string_of(dispatcher), string_of(key), node));
            proof {
                assert(cache_of(st).disps =~= c0.disps.push((dispatcher@, key@, nv)));
                assert(cache_of(st).syms =~= c0.syms);
                assert(cache_of(st).disps == disp_store(c0.disps, dispatcher@, key@, nv));
            }
        },
    }
}

/// The detail a struct's schema shows: its name, or `compound`.
pub open spec fn struct_detail(name: Option<String>) -> Seq<char> {
    match name {
        Some(n) => n@,
        None => "compound"@,
    }
}

impl SchemaReducer {
    /// A reducer for `version` over the parsed repository.
    pub fn new(parsed: ParsedRepo, version: Version) -> (r: Self)
        ensures
            r.parsed == parsed,
            r.version == version,
    {
        SchemaReducer { parsed, version }
    }

    /// The absolute path `raw` names where `context` holds.
    pub fn resolve_reference(&self, raw: &str, context: &DefinitionContext) -> (r: String)
        ensures
            r@ == crate::mcdoc::parser::resolve_name(
                raw@,
                context.module@,
                crate::mcdoc::parser::uses_model(context.uses@),
                false,
            ),
    {
        resolve_in(raw, context.module.as_str(), &context.uses, false)
    }

    /// The schema of the definition at `symbol` (see [`red_symbol`]): `None`
    /// where there is none in this version, or where it is met again while
    /// being reduced. The result is remembered in `st`.
    pub fn reduce_symbol(&self, st: &mut ReduceState, symbol: &str) -> (r: Option<SchemaNode>)
        requires
            self.parsed.wf(),
        ensures
            same_stack(final(st), old(st)),
            (opt_view(r), cache_of(final(st))) == red_symbol(
                self,
                stack_syms(old(st)),
                stack_disps(old(st)),
                cache_of(old(st)),
                symbol@,
            ),
        decreases unresolved(self, old(st)), 0nat, 0nat,
    {
        let ghost rs = stack_syms(st);
        let ghost rd = stack_disps(st);
        let ghost c0 = cache_of(st);
        match symbol_cached(st, symbol) {
            Some(j) => {
                let r = copy_opt(&st.symbol_cache[j].1);
                assert(c0.syms[j as int].1 == opt_view(st.symbol_cache@[j as int].1));
                return r;
            },
            None => {},
        }
        if holds_name(&st.resolving_symbols, symbol) {
            return None;
        }
        let found = find_symbol(&self.parsed, symbol);
        let ghost before = st.resolving_symbols@;
        st.resolving_symbols.push(string_of(symbol));
        proof {
            assert(views(st.resolving_symbols@) =~= views(before).push(symbol@));
            if found is Some {
                lemma_difference_shrinks(symbol_keys(&self.parsed), views(before), symbol@);
            }
        }
        let reduced = match found {
            None => None,
            Some(j) => {
                let def = &self.parsed.symbols[j].1;
                if !def.meta.is_active(&self.version) {
                    None
                } else {
                    match &def.kind {
                        SymbolKind::Struct(d) => Some(
                            self.reduce_struct(st, d, &def.context, &def.meta),
                        ),
                        SymbolKind::Alias(e) => match self.reduce_type(st, e, &def.context) {
                            Some(node) => {
                                let mut node = node;
                                if is_blank(&node.documentation) {
                                    node.documentation = def.meta.documentation.clone();
                                }
                                Some(node)
                            },
                            None => None,
                        },
                        SymbolKind::Enum { underlying } => {
                            let n = SchemaNode {
                                detail: underlying.clone(),
                                documentation: def.meta.documentation.clone(),
                                fields: Vec::new(),
                            };
                            assert(fields_view(n.fields@) =~= Seq::<FieldM>::empty());
                            Some(n)
                        },
                    }
                }
            },
        };
        let ghost c2 = cache_of(st);
        st.resolving_symbols.pop();
        assert(st.resolving_symbols@ =~= before);
        let cached = copy_opt(&reduced);
        cache_symbol(st, symbol, cached);
        proof {
            assert(red_symbol(self, rs, rd, c0, symbol@) == (
                opt_view(reduced),
                CacheM { syms: sym_store(c2.syms, symbol@, opt_view(reduced)), disps: c2.disps },
            ));
        }
        reduced
    }

    /// The merged schema of the definitions dispatched to `dispatcher[key]`
    /// that hold in this version (see [`red_dispatch`]). The result is
    /// remembered in `st`.
    pub fn reduce_dispatch(&self, st: &mut ReduceState, dispatcher: &str, key: &str) -> (r: Option<
        SchemaNode,
    >)
        requires
            self.parsed.wf(),
        ensures
            same_stack(final(st), old(st)),
            (opt_view(r), cache_of(final(st))) == red_dispatch(
                self,
                stack_syms(old(st)),
                stack_disps(old(st)),
                cache_of(old(st)),
                dispatcher@,
                key@,
            ),
        decreases unresolved(self, old(st)), 0nat, 0nat,
    {
        let ghost rs = stack_syms(st);
        let ghost rd = stack_disps(st);
        let ghost c0 = cache_of(st);
        let ghost p = (dispatcher@, key@);
        match dispatch_cached(st, dispatcher, key) {
            Some(j) => {
                let r = copy_opt(&st.dispatch_cache[j].2);
                assert(c0.disps[j as int].2 == opt_view(st.dispatch_cache@[j as int].2));
                return r;
            },
            None => {},
        }
        if holds_pair(&st.resolving_dispatches, dispatcher, key) {
            return None;
        }
        let found = find_dispatch(&self.parsed, dispatcher, key);
        let ghost before = st.resolving_dispatches@;
        let ghost syms = st.resolving_symbols@;
        st.resolving_dispatches.push((string_of(dispatcher), string_of(key)));
        proof {
            assert(pair_views(st.resolving_dispatches@) =~= pair_views(before).push(p));
            if found is Some {
                lemma_difference_shrinks(dispatch_keys(&self.parsed), pair_views(before), p);
            }
        }
        let ghost pushed = st.resolving_dispatches@;
        let reduced = match found {
            None => None,
            Some(j) => {
                let list = &self.parsed.dispatches[j].2;
                let ghost ls = list@;
                let mut nodes: Vec<(Metadata, SchemaNode)> = Vec::new();
                let mut k: usize = 0;
                proof {
                    assert(nodes_view(nodes@) =~= Seq::<(Seq<char>, NodeM)>::empty());
                }
                while k < list.len()
                    invariant
                        self.parsed.wf(),
                        j < self.parsed.dispatches@.len(),
                        list == &self.parsed.dispatches@[j as int].2,
                        ls == list@,
                        k <= list@.len(),
                        st.resolving_dispatches@ == pushed,
                        st.resolving_symbols@ == syms,
                        stack_syms(st) == rs,
                        stack_disps(st) == rd.push(p),
                        dispatch_keys(&self.parsed).contains(p),
                        !rd.contains(p),
                        unresolved(self, st) < unresolved(self, old(st)),
                        red_defs(self, rs, rd, p, c0, ls, 0, Seq::empty()) == red_defs(
                            self,
                            rs,
                            rd,
                            p,
                            cache_of(st),
                            ls,
                            k as int,
                            nodes_view(nodes@),
                        ),
                    decreases list@.len() - k,
                {
                    let idx = list[k];
                    assert(idx < self.parsed.dispatch_defs@.len());
                    let def = &self.parsed.dispatch_defs[idx];
                    let ghost cb = cache_of(st);
                    let ghost nb = nodes_view(nodes@);
                    if def.meta.is_active(&self.version) {
                        match self.reduce_type(st, &def.target, &def.context) {
                            Some(node) => {
                                let ghost nv = node_view(node);
                                nodes.push((crate::mcdoc::parser::copy_metadata(&def.meta), node));
                                assert(nodes_view(nodes@) =~= nb.push((def.meta.documentation@, nv)));
                            },
                            None => {},
                        }
                    }
                    k = k + 1;
                }
                merge_schema_nodes(nodes)
            },
        };
        let ghost c2 = cache_of(st);
        st.resolving_dispatches.pop();
        assert(st.resolving_dispatches@ =~= before);
        let cached = copy_opt(&reduced);
        cache_dispatch(st, dispatcher, key, cached);
        proof {
            assert(red_dispatch(self, rs, rd, c0, dispatcher@, key@) == (
                opt_view(reduced),
                CacheM { syms: c2.syms, disps: disp_store(c2.disps, dispatcher@, key@, opt_view(reduced)) },
            ));
        }
        reduced
    }

    /// The schema of a type, where it names a compound (see [`red_type`]).
    pub fn reduce_type(&self, st: &mut ReduceState, ty: &TypeExpr, context: &DefinitionContext) -> (r:
        Option<SchemaNode>)
        requires
            self.parsed.wf(),
        ensures
            same_stack(final(st), old(st)),
            (opt_view(r), cache_of(final(st))) == red_type(
                self,
                stack_syms(old(st)),
                stack_disps(old(st)),
                cache_of(old(st)),
                *ty,
                *context,
            ),
        decreases unresolved(self, old(st)), type_size(*ty), 1nat,
    {
        let ghost rs = stack_syms(st);
        let ghost rd = stack_disps(st);
        let ghost c0 = cache_of(st);
        match ty {
            TypeExpr::Struct(def) => {
                let empty = Metadata::empty();
                assert(empty.documentation@ =~= Seq::<char>::empty());
                Some(self.reduce_struct(st, def, context, &empty))
            },
            TypeExpr::Reference(raw) => {
                let resolved = self.resolve_reference(raw.as_str(), context);
                self.reduce_symbol(st, resolved.as_str())
            },
            TypeExpr::DispatchRef(reference) => match &reference.key {
                DispatchRefKey::Literal(keys) => {
                    let mut nodes: Vec<(Metadata, SchemaNode)> = Vec::new();
                    let mut k: usize = 0;
                    proof {
                        assert(nodes_view(nodes@) =~= Seq::<(Seq<char>, NodeM)>::empty());
                    }
                    while k < keys.len()
                        invariant
                            self.parsed.wf(),
                            k <= keys@.len(),
                            same_stack(st, old(st)),
                            stack_syms(st) == rs,
                            stack_disps(st) == rd,
                            red_keys(self, rs, rd, c0, reference.dispatcher@, keys@, 0, Seq::empty())
                                == red_keys(
                                self,
                                rs,
                                rd,
                                cache_of(st),
                                reference.dispatcher@,
                                keys@,
                                k as int,
                                nodes_view(nodes@),
                            ),
                        decreases keys@.len() - k,
                    {
                        let ghost nb = nodes_view(nodes@);
                        match self.reduce_dispatch(st, reference.dispatcher.as_str(), keys[k].as_str()) {
                            Some(node) => {
                                let ghost nv = node_view(node);
                                let empty = Metadata::empty();
                                assert(empty.documentation@ =~= Seq::<char>::empty());
                                nodes.push((empty, node));
                                assert(nodes_view(nodes@) =~= nb.push((Seq::empty(), nv)));
                            },
                            None => {},
                        }
                        k = k + 1;
                    }
                    merge_schema_nodes(nodes)
                },
                DispatchRefKey::Dynamic => None,
            },
            TypeExpr::Union(variants) => {
                let mut nodes: Vec<(Metadata, SchemaNode)> = Vec::new();
                let mut k: usize = 0;
                proof {
                    assert(nodes_view(nodes@) =~= Seq::<(Seq<char>, NodeM)>::empty());
                }
                while k < variants.len()
                    invariant
                        self.parsed.wf(),
                        k <= variants@.len(),
                        same_stack(st, old(st)),
                        stack_syms(st) == rs,
                        stack_disps(st) == rd,
                        *ty == TypeExpr::Union(*variants),
                        red_variants(self, rs, rd, c0, variants@, *context, 0, Seq::empty())
                            == red_variants(
                            self,
                            rs,
                            rd,
                            cache_of(st),
                            variants@,
                            *context,
                            k as int,
                            nodes_view(nodes@),
                        ),
                    decreases variants@.len() - k,
                {
                    let v = &variants[k];
                    proof {
                        lemma_variant_size(variants@, k as int);
                    }
                    let ghost nb = nodes_view(nodes@);
                    if v.meta.is_active(&self.version) {
                        match self.reduce_type(st, &v.ty, context) {
                            Some(node) => {
                                let ghost nv = node_view(node);
                                nodes.push((crate::mcdoc::parser::copy_metadata(&v.meta), node));
                                assert(nodes_view(nodes@) =~= nb.push((v.meta.documentation@, nv)));
                            },
                            None => {},
                        }
                    }
                    k = k + 1;
                }
                merge_schema_nodes(nodes)
            },
            _ => None,
        }
    }

    /// The schema of a struct body (see [`red_struct`]): its fields in this
    /// version, with those of the types it spreads, merged by name.
    pub fn reduce_struct(
        &self,
        st: &mut ReduceState,
        definition: &StructDef,
        context: &DefinitionContext,
        meta: &Metadata,
    ) -> (r: SchemaNode)
        requires
            self.parsed.wf(),
        ensures
            same_stack(final(st), old(st)),
            (node_view(r), cache_of(final(st))) == red_struct(
                self,
                stack_syms(old(st)),
                stack_disps(old(st)),
                cache_of(old(st)),
                definition.name,
                definition.entries@,
                *context,
                meta.documentation@,
            ),
        decreases unresolved(self, old(st)), 1 + entries_size(definition.entries@), 0nat,
    {
        let ghost rs = stack_syms(st);
        let ghost rd = stack_disps(st);
        let ghost c0 = cache_of(st);
        let ghost es = definition.entries@;
        let mut fields: Vec<SchemaField> = Vec::new();
        let mut k: usize = 0;
        proof {
            assert(fields_view(fields@) =~= Seq::<FieldM>::empty());
        }
        while k < definition.entries.len()
            invariant
                self.parsed.wf(),
                k <= definition.entries@.len(),
                es == definition.entries@,
                same_stack(st, old(st)),
                stack_syms(st) == rs,
                stack_disps(st) == rd,
                red_entries(self, rs, rd, c0, es, *context, 0, Seq::empty()) == red_entries(
                    self,
                    rs,
                    rd,
                    cache_of(st),
                    es,
                    *context,
                    k as int,
                    fields_view(fields@),
                ),
            decreases definition.entries@.len() - k,
        {
            let entry = &definition.entries[k];
            proof {
                lemma_entry_size(definition.entries@, k as int);
            }
            let ghost fb = fields_view(fields@);
            match entry {
                StructEntry::Field { meta: entry_meta, name, ty } => {
                    if entry_meta.is_active(&self.version) {
                        let detail = self.detail_for_type(st, ty, context);
                        let node = self.nested_node_for_type(st, ty, context);
                        let f = SchemaField {
                            name: name.clone(),
                            detail,
                            documentation: entry_meta.documentation.clone(),
                            node,
                        };
                        push_or_replace_field(&mut fields, f);
                    }
                },
                StructEntry::Spread { meta: entry_meta, ty } => {
                    if entry_meta.is_active(&self.version) {
                        match self.reduce_type(st, ty, context) {
                            Some(node) => {
                                let ghost target = push_fields_m(fb, node_view(node).fields);
                                let SchemaNode { detail: _, documentation: _, fields: mut more } =
                                    node;
                                while more.len() > 0
                                    invariant
                                        same_stack(st, old(st)),
                                        target == push_fields_m(
                                            fields_view(fields@),
                                            fields_view(more@),
                                        ),
                                    decreases more@.len(),
                                {
                                    let ghost before_more = more@;
                                    let f = more.remove(0);
                                    proof {
                                        assert(f == before_more[0]);
                                        lemma_fields_view(before_more);
                                        lemma_fields_view(more@);
                                        assert(more@ =~= before_more.drop_first());
                                        assert(fields_view(more@) =~= fields_view(
                                            before_more,
                                        ).drop_first());
                                    }
                                    push_or_replace_field(&mut fields, f);
                                }
                                proof {
                                    assert(fields_view(more@) =~= Seq::<FieldM>::empty());
                                }
                            },
                            None => {},
                        }
                    }
                },
                StructEntry::Dynamic { .. } => {},
            }
            k = k + 1;
        }
        let detail = match &definition.name {
            Some(n) => n.clone(),
            None => string_of("compound"),
        };
        SchemaNode { detail, documentation: meta.documentation.clone(), fields }
    }

    /// The schema nested under a field of this type (see [`red_nested`]).
    pub fn nested_node_for_type(&self, st: &mut ReduceState, ty: &TypeExpr, context: &DefinitionContext) -> (r:
        Option<SchemaNode>)
        requires
            self.parsed.wf(),
        ensures
            same_stack(final(st), old(st)),
            (opt_view(r), cache_of(final(st))) == red_nested(
                self,
                stack_syms(old(st)),
                stack_disps(old(st)),
                cache_of(old(st)),
                *ty,
                *context,
            ),
        decreases unresolved(self, old(st)), type_size(*ty), 2nat,
    {
        match ty {
            TypeExpr::Struct(_) => self.reduce_type(st, ty, context),
            TypeExpr::Reference(_) => self.reduce_type(st, ty, context),
            TypeExpr::DispatchRef(_) => self.reduce_type(st, ty, context),
            TypeExpr::Union(_) => self.reduce_type(st, ty, context),
            _ => None,
        }
    }

    /// The detail shown for a field of this type (see [`red_detail`]).
    pub fn detail_for_type(&self, st: &mut ReduceState, ty: &TypeExpr, context: &DefinitionContext) -> (r:
        String)
        requires
            self.parsed.wf(),
        ensures
            same_stack(final(st), old(st)),
            (r@, cache_of(final(st))) == red_detail(
                self,
                stack_syms(old(st)),
                stack_disps(old(st)),
                cache_of(old(st)),
                *ty,
                *context,
            ),
        decreases unresolved(self, old(st)), type_size(*ty), 3nat,
    {
        let ghost rs = stack_syms(st);
        let ghost rd = stack_disps(st);
        let ghost c0 = cache_of(st);
        match ty {
            TypeExpr::Primitive(name) => name.clone(),
            TypeExpr::Struct(_) => string_of("compound"),
            TypeExpr::Reference(raw) => {
                let resolved = self.resolve_reference(raw.as_str(), context);
                match find_symbol(&self.parsed, resolved.as_str()) {
                    Some(j) => match &self.parsed.symbols[j].1.kind {
                        SymbolKind::Enum { underlying } => underlying.clone(),
                        _ => {
                            if self.reduce_symbol(st, resolved.as_str()).is_some() {
                                string_of("compound")
                            } else {
                                crate::mcdoc::tail_name(resolved.as_str())
                            }
                        },
                    },
                    None => crate::mcdoc::tail_name(raw.as_str()),
                }
            },
            TypeExpr::DispatchRef(reference) => match &reference.key {
                DispatchRefKey::Literal(keys) => {
                    let mut any = false;
                    let mut k: usize = 0;
                    while k < keys.len() && !any
                        invariant
                            self.parsed.wf(),
                            k <= keys@.len(),
                            same_stack(st, old(st)),
                            stack_syms(st) == rs,
                            stack_disps(st) == rd,
                            red_any_key(self, rs, rd, c0, reference.dispatcher@, keys@, 0) == if any {
                                (true, cache_of(st))
                            } else {
                                red_any_key(
                                    self,
                                    rs,
                                    rd,
                                    cache_of(st),
                                    reference.dispatcher@,
                                    keys@,
                                    k as int,
                                )
                            },
                        decreases keys@.len() - k,
                    {
                        if self.reduce_dispatch(st, reference.dispatcher.as_str(), keys[k].as_str()).is_some() {
                            any = true;
                        }
                        k = k + 1;
                    }
                    if any {
                        string_of("compound")
                    } else {
                        crate::mcdoc::tail_name(reference.dispatcher.as_str())
                    }
                },
                DispatchRefKey::Dynamic => crate::mcdoc::tail_name(reference.dispatcher.as_str()),
            },
            TypeExpr::List(item) => {
                let inner = self.detail_for_type(st, item, context);
                let mut out = string_of("list<");
                push_str(&mut out, inner.as_str());
                push_str(&mut out, ">");
                out
            },
            TypeExpr::Union(variants) => {
                let mut any = false;
                let mut k: usize = 0;
                while k < variants.len() && !any
                    invariant
                        self.parsed.wf(),
                        k <= variants@.len(),
                        same_stack(st, old(st)),
                        stack_syms(st) == rs,
                        stack_disps(st) == rd,
                        *ty == TypeExpr::Union(*variants),
                        red_any_variant(self, rs, rd, c0, variants@, *context, 0) == if any {
                            (true, cache_of(st))
                        } else {
                            red_any_variant(
                                self,
                                rs,
                                rd,
                                cache_of(st),
                                variants@,
                                *context,
                                k as int,
                            )
                        },
                    decreases variants@.len() - k,
                {
                    proof {
                        lemma_variant_size(variants@, k as int);
                    }
                    if variants[k].meta.is_active(&self.version) && self.nested_node_for_type(
                        st,
                        &variants[k].ty,
                        context,
                    ).is_some() {
                        any = true;
                    }
                    k = k + 1;
                }
                if any {
                    return string_of("compound");
                }
                let ghost c1 = cache_of(st);
                assert(red_detail(self, rs, rd, c0, *ty, *context) == red_first_detail(
                    self,
                    rs,
                    rd,
                    c1,
                    variants@,
                    *context,
                    0,
                ));
                let mut k: usize = 0;
                while k < variants.len()
                    invariant
                        self.parsed.wf(),
                        k <= variants@.len(),
                        same_stack(st, old(st)),
                        stack_syms(st) == rs,
                        stack_disps(st) == rd,
                        rs == stack_syms(old(st)),
                        rd == stack_disps(old(st)),
                        c0 == cache_of(old(st)),
                        *ty == TypeExpr::Union(*variants),
                        cache_of(st) == c1,
                        red_detail(self, rs, rd, c0, *ty, *context) == red_first_detail(
                            self,
                            rs,
                            rd,
                            c1,
                            variants@,
                            *context,
                            0,
                        ),
                        red_first_detail(self, rs, rd, c1, variants@, *context, 0)
                            == red_first_detail(self, rs, rd, c1, variants@, *context, k as int),
                    decreases variants@.len() - k,
                {
                    proof {
                        lemma_variant_size(variants@, k as int);
                    }
                    if variants[k].meta.is_active(&self.version) {
                        return self.detail_for_type(st, &variants[k].ty, context);
                    }
                    k = k + 1;
                }
                string_of("nbt")
            },
            TypeExpr::Enum(underlying) => underlying.clone(),
            TypeExpr::Unknown => string_of("nbt"),
        }
    }

    /// The schema of the definition at `symbol`, reduced afresh.
    pub fn schema_for_symbol(&self, symbol: &str) -> (r: Option<SchemaNode>)
        requires
            self.parsed.wf(),
        ensures
            opt_view(r) == red_symbol(
                self,
                Seq::empty(),
                Seq::empty(),
                CacheM { syms: Seq::empty(), disps: Seq::empty() },
                symbol@,
            ).0,
    {
        let mut st = ReduceState::new();
        proof {
            assert(stack_syms(&st) =~= Seq::<Seq<char>>::empty());
            assert(stack_disps(&st) =~= Seq::<(Seq<char>, Seq<char>)>::empty());
        }
        self.reduce_symbol(&mut st, symbol)
    }

    /// The schema dispatched to `dispatcher` for an id, its `minecraft:`
    /// namespace dropped, reduced afresh.
    pub fn schema_for_dispatch(&self, dispatcher: &str, key_with_namespace: &str) -> (r: Option<
        SchemaNode,
    >)
        requires
            self.parsed.wf(),
        ensures
            opt_view(r) == red_dispatch(
                self,
                Seq::empty(),
                Seq::empty(),
                CacheM { syms: Seq::empty(), disps: Seq::empty() },
                dispatcher@,
                match crate::text::strip_prefix(key_with_namespace@, "minecraft:"@) {
                    Some(k) => k,
                    None => key_with_namespace@,
                },
            ).0,
    {
        let cs = crate::text::chars_of(key_with_namespace);
        proof {
            assert(cs@.subrange(0, cs@.len() as int) =~= key_with_namespace@);
        }
        let key = match crate::text::strip_prefix_range(cs.as_slice(), 0, cs.len(), "minecraft:") {
            Some(k) => crate::text::string_from_chars(cs.as_slice(), k, cs.len()),
            None => string_of(key_with_namespace),
        };
        let mut st = ReduceState::new();
        proof {
            assert(stack_syms(&st) =~= Seq::<Seq<char>>::empty());
            assert(stack_disps(&st) =~= Seq::<(Seq<char>, Seq<char>)>::empty());
        }
        self.reduce_dispatch(&mut st, dispatcher, key.as_str())
    }
}


/// Adding names keeps them unique: the names are those of both sides, each
/// once.
pub proof fn lemma_with_names_unique(ns: Seq<Seq<char>>, new: Seq<Seq<char>>)
    requires
        ns.no_duplicates(),
    ensures
        with_names(ns, new).no_duplicates(),
        forall|k: Seq<char>| #[trigger] with_names(ns, new).contains(k) <==> (ns.contains(k) || new.contains(k)),
    decreases new.len(),
{
    if new.len() > 0 {
        lemma_with_names_unique(ns, new.drop_last());
        let before = with_names(ns, new.drop_last());
        let x = new.last();
        if !before.contains(x) {
            crate::mcdoc::parser::lemma_push_contains(before, x);
            assert forall|i: int, j: int|
                0 <= i < j < before.push(x).len() implies before.push(x)[i] != before.push(x)[j] by {
                if j == before.len() {
                    assert(before.push(x)[i] == before[i]);
                    assert(before.contains(before[i]));
                }
            }
        }
        assert forall|k: Seq<char>| #[trigger] with_names(ns, new).contains(k) <==> (ns.contains(k)
            || new.contains(k)) by {
            crate::mcdoc::parser::lemma_push_contains(before, x);
            crate::mcdoc::parser::lemma_push_contains(new.drop_last(), x);
            assert(new.drop_last().push(x) =~= new);
        }
    } else {
        assert forall|k: Seq<char>| #[trigger] with_names(ns, new).contains(k) <==> (ns.contains(k)
            || new.contains(k)) by {
            if new.contains(k) {
                let j = choose|j: int| 0 <= j < new.len() && new[j] == k;
            }
        }
    }
}

/// Merging fields in keeps field names unique: the merged fields are named
/// by the names of both sides, each once.
pub proof fn law_merged_names_stay_unique(fs: Seq<FieldM>, more: Seq<FieldM>)
    requires
        names_m(fs).no_duplicates(),
    ensures
        names_m(push_fields_m(fs, more)).no_duplicates(),
        forall|k: Seq<char>| #[trigger] names_m(push_fields_m(fs, more)).contains(k) <==> (names_m(
            fs,
        ).contains(k) || names_m(more).contains(k)),
{
    lemma_push_fields_names(fs, more);
    lemma_with_names_unique(names_m(fs), names_m(more));
}


/// `push_or_replace_field` keeps field names distinct: the fields after it
/// are named by the names before and the new field's name, each once.
pub proof fn law_pushed_field_names_stay_distinct(fs: Seq<FieldM>, f: FieldM)
    requires
        names_m(fs).no_duplicates(),
    ensures
        names_m(push_field_m(fs, f)).no_duplicates(),
        forall|k: Seq<char>| #[trigger] names_m(push_field_m(fs, f)).contains(k) <==> (names_m(
            fs,
        ).contains(k) || k == f.name),
{
    let more = seq![f];
    assert(more.drop_first() =~= Seq::<FieldM>::empty());
    assert(push_fields_m(push_field_m(fs, f), Seq::<FieldM>::empty()) == push_field_m(fs, f));
    assert(push_fields_m(fs, more) == push_field_m(fs, f));
    law_merged_names_stay_unique(fs, more);
    assert(names_m(more) =~= seq![f.name]);
    assert forall|k: Seq<char>| names_m(more).contains(k) <==> k == f.name by {
        if k == f.name {
            assert(names_m(more)[0] == k);
        }
    }
}

} // verus!
