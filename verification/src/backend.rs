//! Datapack generation: the build artifacts, and the naming and text helpers
//! that map MCFC functions, locals and paths to scoreboard and storage names
//! and expand command sugar.
use vstd::prelude::*;

use crate::ast::{ContextKind, Expr, ExprKind, PathSegment, Type};
use crate::ir::{IrFunction, IrMacroPlaceholder, IrStmt};
use crate::text::{
    alnum, byte_offset, chars_of, decimal, is_ascii_alnum, is_unicode_whitespace, join, push_char,
    push_i64, push_str, signed_decimal, string_of, usize_string,
};

verus! {

broadcast use vstd::string::group_string_axioms;

/// Generated datapack files, by relative path.
#[derive(Debug, Clone)]
pub struct BuildArtifacts {
    pub files: Vec<(String, String)>,
}

/// Options handed from the compiler to the datapack generator.
#[derive(Debug, Clone)]
pub struct BackendOptions {
    pub namespace: String,
    pub load_tag_values: Option<Vec<String>>,
    pub tick_tag_values: Option<Vec<String>>,
    pub exports: Vec<ExportedFunction>,
}

/// A function exported under an extra function path.
#[derive(Debug, Clone, PartialEq, Eq)]
pub struct ExportedFunction {
    pub path: String,
    pub function: String,
}

// ---- names ---------------------------------------------------------------------------
/// `s` with every character but ASCII letters, digits and `_` replaced by `_`.
pub open spec fn sanitized(s: Seq<char>) -> Seq<char> {
    s.map_values(|c: char| if is_ascii_alnum(c) || c == '_' { c } else { '_' })
}

/// Makes `value` fit in scoreboard and storage names (see [`sanitized`]).
pub fn sanitize(value: &str) -> (r: String)
    ensures
        r@ == sanitized(value@),
{
    let cs = chars_of(value);
    let mut out = String::new();
    let mut i: usize = 0;
    while i < cs.len()
        invariant
            i <= cs@.len(),
            cs@ == value@,
            out@ == sanitized(value@).take(i as int),
        decreases cs@.len() - i,
    {
        let c = cs[i];
        if alnum(c) || c == '_' {
            push_char(&mut out, c);
        } else {
            push_char(&mut out, '_');
        }
        assert(sanitized(value@).take(i + 1) =~= sanitized(value@).take(i as int).push(
            sanitized(value@)[i as int],
        ));
        i = i + 1;
    }
    assert(sanitized(value@).take(cs@.len() as int) =~= sanitized(value@));
    out
}

/// `$d<depth>_<function>`: the start of a frame's score holder names.
pub open spec fn score_prefix(depth: nat, function: Seq<char>) -> Seq<char> {
    "$d"@ + decimal(depth) + "_"@ + sanitized(function)
}

/// `frames.d<depth>.<function>`: a frame's storage path.
pub open spec fn frame_prefix(depth: nat, function: Seq<char>) -> Seq<char> {
    "frames.d"@ + decimal(depth) + "."@ + sanitized(function)
}

fn score_prefix_of(depth: usize, function: &str) -> (r: String)
    ensures
        r@ == score_prefix(depth as nat, function@),
{
    let mut out = string_of("$d");
    let d = usize_string(depth);
    push_str(&mut out, d.as_str());
    push_str(&mut out, "_");
    let f = sanitize(function);
    push_str(&mut out, f.as_str());
    out
}

fn frame_prefix_of(depth: usize, function: &str) -> (r: String)
    ensures
        r@ == frame_prefix(depth as nat, function@),
{
    let mut out = string_of("frames.d");
    let d = usize_string(depth);
    push_str(&mut out, d.as_str());
    push_str(&mut out, ".");
    let f = sanitize(function);
    push_str(&mut out, f.as_str());
    out
}

/// The score holder of a frame's control flag.
pub fn control_slot(depth: usize, function: &str) -> (r: String)
    ensures
        r@ == score_prefix(depth as nat, function@) + "__ctrl"@,
{
    let mut out = score_prefix_of(depth, function);
    push_str(&mut out, "__ctrl");
    out
}

/// The score holder of a numeric local.
pub fn numeric_slot(depth: usize, function: &str, name: &str) -> (r: String)
    ensures
        r@ == score_prefix(depth as nat, function@) + "_"@ + sanitized(name@),
{
    let mut out = score_prefix_of(depth, function);
    push_str(&mut out, "_");
    let n = sanitize(name);
    push_str(&mut out, n.as_str());
    out
}

/// The score holder of a numeric return value.
pub fn numeric_return_slot(depth: usize, function: &str) -> (r: String)
    ensures
        r@ == score_prefix(depth as nat, function@) + "__ret"@,
{
    let mut out = score_prefix_of(depth, function);
    push_str(&mut out, "__ret");
    out
}

/// The storage path of a local held in storage.
pub fn string_slot(depth: usize, function: &str, name: &str) -> (r: String)
    ensures
        r@ == frame_prefix(depth as nat, function@) + "."@ + sanitized(name@),
{
    let mut out = frame_prefix_of(depth, function);
    push_str(&mut out, ".");
    let n = sanitize(name);
    push_str(&mut out, n.as_str());
    out
}

/// The storage path of a return value held in storage.
pub fn string_return_slot(depth: usize, function: &str) -> (r: String)
    ensures
        r@ == frame_prefix(depth as nat, function@) + ".__ret"@,
{
    let mut out = frame_prefix_of(depth, function);
    push_str(&mut out, ".__ret");
    out
}

/// The storage path under which a macro call's arguments are put.
pub fn macro_storage_base(depth: usize, function: &str, macro_id: usize) -> (r: String)
    ensures
        r@ == frame_prefix(depth as nat, function@) + ".__macro"@ + decimal(macro_id as nat),
{
    let mut out = frame_prefix_of(depth, function);
    push_str(&mut out, ".__macro");
    let m = usize_string(macro_id);
    push_str(&mut out, m.as_str());
    out
}

/// Where a value lives: a score holder for numbers and booleans, a storage
/// path for the others.
#[derive(Debug, Clone)]
pub struct SlotRef {
    pub name: String,
}

impl SlotRef {
    /// The score holder name.
    pub fn numeric_name(&self) -> (r: &str)
        ensures
            r@ == self.name@,
    {
        self.name.as_str()
    }

    /// The storage path.
    pub fn storage_path(&self) -> (r: &str)
        ensures
            r@ == self.name@,
    {
        self.name.as_str()
    }
}

/// Whether values of `ty` are kept in scores.
pub open spec fn is_numeric(ty: Type) -> bool {
    ty == Type::Int || ty == Type::Bool
}

/// The slot of the local `name` of `function` at call depth `depth`.
pub fn local_slot(depth: usize, function: &str, name: &str, ty: &Type) -> (r: SlotRef)
    ensures
        r.name@ == if is_numeric(*ty) {
            score_prefix(depth as nat, function@) + "_"@ + sanitized(name@)
        } else if *ty == Type::Void {
            "__void"@
        } else {
            frame_prefix(depth as nat, function@) + "."@ + sanitized(name@)
        },
{
    match ty {
        Type::Int | Type::Bool => SlotRef { name: numeric_slot(depth, function, name) },
        Type::Void => SlotRef { name: string_of("__void") },
        _ => SlotRef { name: string_slot(depth, function, name) },
    }
}

/// The slot of the return value of `function` at call depth `depth`.
pub fn return_slot(depth: usize, function: &str, ty: &Type) -> (r: SlotRef)
    ensures
        r.name@ == if is_numeric(*ty) {
            score_prefix(depth as nat, function@) + "__ret"@
        } else if *ty == Type::Void {
            "__void"@
        } else {
            frame_prefix(depth as nat, function@) + ".__ret"@
        },
{
    match ty {
        Type::Int | Type::Bool => SlotRef { name: numeric_return_slot(depth, function) },
        Type::Void => SlotRef { name: string_of("__void") },
        _ => SlotRef { name: string_return_slot(depth, function) },
    }
}

/// The equipment slot a player item slot name stands for.
pub open spec fn equipment_slot(slot_name: Seq<char>) -> Seq<char> {
    if slot_name == "offhand"@ {
        "weapon.offhand"@
    } else if slot_name == "head"@ {
        "armor.head"@
    } else if slot_name == "chest"@ {
        "armor.chest"@
    } else if slot_name == "legs"@ {
        "armor.legs"@
    } else if slot_name == "feet"@ {
        "armor.feet"@
    } else {
        "weapon.mainhand"@
    }
}

/// The equipment slot of `slot_name`; the main hand for unknown names.
pub fn equipment_slot_name(slot_name: &str) -> (r: &'static str)
    ensures
        r@ == equipment_slot(slot_name@),
{
    if crate::text::str_eq(slot_name, "offhand") {
        "weapon.offhand"
    } else if crate::text::str_eq(slot_name, "head") {
        "armor.head"
    } else if crate::text::str_eq(slot_name, "chest") {
        "armor.chest"
    } else if crate::text::str_eq(slot_name, "legs") {
        "armor.legs"
    } else if crate::text::str_eq(slot_name, "feet") {
        "armor.feet"
    } else {
        "weapon.mainhand"
    }
}

/// The `execute` keyword of a context block.
pub fn context_execute_keyword(kind: ContextKind) -> (r: &'static str)
    ensures
        r@ == match kind {
            ContextKind::As => "as"@,
            ContextKind::At => "at"@,
        },
{
    match kind {
        ContextKind::As => "as",
        ContextKind::At => "at",
    }
}

/// The NBT slot index of a logical player item slot: inventory slots come
/// after the nine hotbar slots.
pub fn player_slot_nbt_index(namespace: &str, logical_index: i64) -> (r: i64)
    requires
        namespace@ == "inventory"@ ==> logical_index <= i64::MAX - 9,
    ensures
        r == if namespace@ == "inventory"@ {
            logical_index + 9
        } else {
            logical_index as int
        },
{
    if crate::text::str_eq(namespace, "inventory") {
        logical_index + 9
    } else {
        logical_index
    }
}

/// The `item replace` slot of a logical player item slot.
pub fn player_item_command_slot(namespace: &str, logical_index: i64) -> (r: String)
    ensures
        r@ == if namespace@ == "inventory"@ {
            "inventory."@
        } else {
            "hotbar."@
        } + signed_decimal(logical_index as int),
{
    let mut out = if crate::text::str_eq(namespace, "inventory") {
        string_of("inventory.")
    } else {
        string_of("hotbar.")
    };
    push_i64(&mut out, logical_index);
    out
}

// ---- quoting, tags and paths ---------------------------------------------------------
/// What `{:?}` writes for a string: the string between double quotes, with
/// std's debug escapes.
pub uninterp spec fn debug_string(s: Seq<char>) -> Seq<char>;

/// `value` as `{:?}` writes it (std's `Debug` for `str`).
#[verifier::external_body]
pub fn quoted(value: &str) -> (r: String)
    ensures
        r@ == debug_string(value@),
{
    format!("{:?}", value)
}

/// One entry of a function tag file.
pub open spec fn tag_entry(v: Seq<char>) -> Seq<char> {
    "    \""@ + v + "\""@
}

/// A function tag file listing `values`.
pub open spec fn tag_file(values: Seq<Seq<char>>) -> Seq<char> {
    "{\n  \"values\": [\n"@ + join(values.map_values(|v: Seq<char>| tag_entry(v)), ",\n"@)
        + "\n  ]\n}\n"@
}

/// Renders a function tag file (`load.json`, `tick.json`) listing `values`.
pub fn render_tag_file(values: &[String]) -> (r: String)
    ensures
        r@ == tag_file(values@.map_values(|v: String| v@)),
{
    let ghost vs = values@.map_values(|v: String| v@);
    let ghost es = vs.map_values(|v: Seq<char>| tag_entry(v));
    let mut body = String::new();
    let mut i: usize = 0;
    while i < values.len()
        invariant
            i <= values@.len(),
            vs == values@.map_values(|v: String| v@),
            es == vs.map_values(|v: Seq<char>| tag_entry(v)),
            body@ == join(es.take(i as int), ",\n"@),
        decreases values@.len() - i,
    {
        if i > 0 {
            push_str(&mut body, ",\n");
        }
        push_str(&mut body, "    \"");
        push_str(&mut body, values[i].as_str());
        push_str(&mut body, "\"");
        proof {
            assert(es.take(i + 1).drop_last() =~= es.take(i as int));
            assert(es.take(i + 1).last() == tag_entry(values@[i as int]@));
            if i == 0 {
                assert(es.take(1).len() == 1);
            }
        }
        i = i + 1;
    }
    assert(es.take(values@.len() as int) =~= es);
    let mut out = string_of("{\n  \"values\": [\n");
    push_str(&mut out, body.as_str());
    push_str(&mut out, "\n  ]\n}\n");
    out
}

/// `rendered` followed by `part`, with a `.` between them when `rendered`
/// is not empty.
pub open spec fn dotted(rendered: Seq<char>, part: Seq<char>) -> Seq<char> {
    if rendered.len() > 0 {
        rendered + "."@ + part
    } else {
        part
    }
}

/// Appends a path field.
pub fn push_path_name(rendered: &mut String, name: &str)
    ensures
        final(rendered)@ == dotted(old(rendered)@, name@),
{
    proof {
        reveal_strlit(".");
    }
    if !crate::mcdoc::reduce::is_blank(rendered) {
        push_char(rendered, '.');
    }
    push_str(rendered, name);
    assert(old(rendered)@.push('.') + name@ =~= old(rendered)@ + "."@ + name@);
}

/// Appends a quoted path field.
pub fn push_quoted_path_name(rendered: &mut String, name: &str)
    ensures
        final(rendered)@ == dotted(old(rendered)@, debug_string(name@)),
{
    if !crate::mcdoc::reduce::is_blank(rendered) {
        push_char(rendered, '.');
    }
    let q = quoted(name);
    push_str(rendered, q.as_str());
    proof {
        reveal_strlit(".");
        assert(old(rendered)@.push('.') + q@ =~= old(rendered)@ + "."@ + q@);
    }
}

/// Appends a quoted macro placeholder as a path field: `"$(placeholder)"`.
pub fn push_quoted_macro_path_name(rendered: &mut String, placeholder: &str)
    ensures
        final(rendered)@ == dotted(old(rendered)@, "\"$("@ + placeholder@ + ")\""@),
{
    if !crate::mcdoc::reduce::is_blank(rendered) {
        push_char(rendered, '.');
    }
    push_char(rendered, '"');
    push_str(rendered, "$(");
    push_str(rendered, placeholder);
    push_str(rendered, ")");
    push_char(rendered, '"');
    proof {
        reveal_strlit(".");
        reveal_strlit("\"$(");
        reveal_strlit(")\"");
        reveal_strlit("$(");
        reveal_strlit(")");
        let part = "\"$("@ + placeholder@ + ")\""@;
        if old(rendered)@.len() > 0 {
            assert(final(rendered)@ =~= old(rendered)@ + "."@ + part);
        } else {
            assert(final(rendered)@ =~= part);
        }
    }
}

/// The value of an integer literal, 0 for any other expression.
pub open spec fn int_or_zero(e: Expr) -> int {
    match e.kind {
        ExprKind::Int(v) => v as int,
        _ => 0,
    }
}

/// A path as `a.b[2].c`: fields joined by dots, integer indices in
/// brackets (other indices as `[0]`).
pub open spec fn path_text(segs: Seq<PathSegment>) -> Seq<char>
    decreases segs.len(),
{
    if segs.len() == 0 {
        Seq::empty()
    } else {
        let prev = path_text(segs.drop_last());
        match segs.last() {
            PathSegment::Field(name) => dotted(prev, name@),
            PathSegment::Index(e) => prev + "["@ + signed_decimal(int_or_zero(*e)) + "]"@,
        }
    }
}

/// A path as an NBT path: like [`path_text`], with string indices as quoted
/// fields.
pub open spec fn nbt_path_text(segs: Seq<PathSegment>) -> Seq<char>
    decreases segs.len(),
{
    if segs.len() == 0 {
        Seq::empty()
    } else {
        let prev = nbt_path_text(segs.drop_last());
        match segs.last() {
            PathSegment::Field(name) => dotted(prev, name@),
            PathSegment::Index(e) => match e.kind {
                ExprKind::Int(v) => prev + "["@ + signed_decimal(v as int) + "]"@,
                ExprKind::String(s) => dotted(prev, debug_string(s@)),
                _ => prev + "[0]"@,
            },
        }
    }
}

/// Renders path segments (see [`path_text`]).
pub fn render_path_segments(segments: &[PathSegment]) -> (r: String)
    ensures
        r@ == path_text(segments@),
{
    let mut rendered = String::new();
    let mut i: usize = 0;
    while i < segments.len()
        invariant
            i <= segments@.len(),
            rendered@ == path_text(segments@.take(i as int)),
        decreases segments@.len() - i,
    {
        assert(segments@.take(i + 1).drop_last() =~= segments@.take(i as int));
        match &segments[i] {
            PathSegment::Field(name) => push_path_name(&mut rendered, name.as_str()),
            PathSegment::Index(index) => {
                let value: i64 = match &index.kind {
                    ExprKind::Int(value) => *value,
                    _ => 0,
                };
                let ghost prev = rendered@;
                push_char(&mut rendered, '[');
                push_i64(&mut rendered, value);
                push_char(&mut rendered, ']');
                proof {
                    reveal_strlit("[");
                    reveal_strlit("]");
                    assert(value as int == int_or_zero(**index));
                    assert(rendered@ =~= prev + "["@ + signed_decimal(value as int) + "]"@);
                }
            },
        }
        i = i + 1;
    }
    assert(segments@.take(segments@.len() as int) =~= segments@);
    rendered
}

/// Renders path segments as an NBT path (see [`nbt_path_text`]).
pub fn render_nbt_path_segments(segments: &[PathSegment]) -> (r: String)
    ensures
        r@ == nbt_path_text(segments@),
{
    let mut rendered = String::new();
    let mut i: usize = 0;
    while i < segments.len()
        invariant
            i <= segments@.len(),
            rendered@ == nbt_path_text(segments@.take(i as int)),
        decreases segments@.len() - i,
    {
        assert(segments@.take(i + 1).drop_last() =~= segments@.take(i as int));
        match &segments[i] {
            PathSegment::Field(name) => push_path_name(&mut rendered, name.as_str()),
            PathSegment::Index(index) => match &index.kind {
                ExprKind::Int(value) => {
                    let ghost prev = rendered@;
                    push_char(&mut rendered, '[');
                    push_i64(&mut rendered, *value);
                    push_char(&mut rendered, ']');
                    proof {
                        reveal_strlit("[");
                        reveal_strlit("]");
                        assert(rendered@ =~= prev + "["@ + signed_decimal(*value as int) + "]"@);
                    }
                },
                ExprKind::String(value) => push_quoted_path_name(&mut rendered, value.as_str()),
                _ => push_str(&mut rendered, "[0]"),
            },
        }
        i = i + 1;
    }
    assert(segments@.take(segments@.len() as int) =~= segments@);
    rendered
}

/// The objective of a player state path.
pub fn player_state_objective(segments: &[PathSegment]) -> (r: String)
    ensures
        r@ == "mcfs_"@ + sanitized(path_text(segments@)),
{
    let mut out = string_of("mcfs_");
    let path = render_path_segments(segments);
    let s = sanitize(path.as_str());
    push_str(&mut out, s.as_str());
    out
}

/// The objective of an entity state path.
pub fn entity_state_objective(segments: &[PathSegment]) -> (r: String)
    ensures
        r@ == "mcfe_"@ + sanitized(path_text(segments@)),
{
    let mut out = string_of("mcfe_");
    let path = render_path_segments(segments);
    let s = sanitize(path.as_str());
    push_str(&mut out, s.as_str());
    out
}

/// Whether a path starts with an `nbt` field and goes on.
pub open spec fn below_nbt(segs: Seq<PathSegment>) -> bool {
    segs.len() > 1 && match segs[0] {
        PathSegment::Field(f) => f@ == "nbt"@,
        _ => false,
    }
}

/// The segments below a runtime reference's `nbt` field: a path on an
/// entity, player or block reference that starts with `nbt` and goes on
/// loses that first segment; any other path is kept.
pub fn normalize_runtime_nbt_segments<'a>(base_ty: &Type, segments: &'a [PathSegment]) -> (r: &'a [PathSegment])
    ensures
        r@ == if (*base_ty == Type::EntityRef || *base_ty == Type::PlayerRef || *base_ty
            == Type::BlockRef) && below_nbt(segments@) {
            segments@.skip(1)
        } else {
            segments@
        },
{
    let runtime = match base_ty {
        Type::EntityRef | Type::PlayerRef | Type::BlockRef => true,
        _ => false,
    };
    if runtime && segments.len() > 1 {
        let first_is_nbt = match &segments[0] {
            PathSegment::Field(field) => crate::text::str_eq(field.as_str(), "nbt"),
            _ => false,
        };
        if first_is_nbt {
            let r = &segments[1..segments.len()];
            assert(r@ =~= segments@.skip(1));
            return r;
        }
    }
    segments
}

// ---- command sugar -------------------------------------------------------------------
/// The index of the first whitespace character of `s` from `i` on.
pub open spec fn first_space(s: Seq<char>, i: int) -> Option<int>
    decreases s.len() - i,
{
    if i < 0 || i >= s.len() {
        None
    } else if is_unicode_whitespace(s[i]) {
        Some(i)
    } else {
        first_space(s, i + 1)
    }
}

/// `s` cut before its first whitespace character.
pub open spec fn first_word(s: Seq<char>) -> Option<(Seq<char>, Seq<char>)> {
    match first_space(s, 0) {
        Some(k) => Some((s.take(k), s.skip(k))),
        None => None,
    }
}

/// Cuts `value` before its first whitespace character (see [`first_word`]).
pub fn split_first_word(value: &str) -> (r: Option<(&str, &str)>)
    ensures
        match first_word(value@) {
            Some((word, rest)) => r matches Some((a, b)) && a@ == word && b@ == rest,
            None => r is None,
        },
{
    let cs = chars_of(value);
    let n = cs.len();
    let mut i: usize = 0;
    while i < n
        invariant
            n == cs@.len(),
            cs@ == value@,
            i <= n,
            first_space(value@, 0) == first_space(value@, i as int),
        decreases n - i,
    {
        if crate::text::whitespace(cs[i]) {
            let a = value.substring_char(0, i);
            let b = value.substring_char(i, n);
            assert(a@ =~= value@.take(i as int));
            assert(b@ =~= value@.skip(i as int));
            return Some((a, b));
        }
        i = i + 1;
    }
    None
}

/// The text of a quoted message from `i` on, after the opening quote and
/// the characters read into `text`: a backslash takes the next character as
/// it is; the message ends at the closing quote. Gives the text and where
/// the rest begins.
pub open spec fn quoted_from(s: Seq<char>, i: int, text: Seq<char>, escaped: bool) -> Option<
    (Seq<char>, int),
>
    decreases s.len() - i,
{
    if i < 0 || i >= s.len() {
        None
    } else if escaped {
        quoted_from(s, i + 1, text.push(s[i]), false)
    } else if s[i] == '\\' {
        quoted_from(s, i + 1, text, true)
    } else if s[i] == '"' {
        Some((text, i + 1))
    } else {
        quoted_from(s, i + 1, text.push(s[i]), false)
    }
}

/// A quoted message at the start of `s`: its text and what follows it.
pub open spec fn quoted_message(s: Seq<char>) -> Option<(Seq<char>, Seq<char>)> {
    if s.len() == 0 || s[0] != '"' {
        None
    } else {
        match quoted_from(s, 1, Seq::empty(), false) {
            Some((text, e)) => Some((text, s.skip(e))),
            None => None,
        }
    }
}

/// Reads a quoted message at the start of `value` (see [`quoted_message`]).
pub fn parse_quoted_message(value: &str) -> (r: Option<(String, &str)>)
    ensures
        match quoted_message(value@) {
            Some((text, rest)) => r matches Some((a, b)) && a@ == text && b@ == rest,
            None => r is None,
        },
{
    let cs = chars_of(value);
    let n = cs.len();
    if n == 0 || cs[0] != '"' {
        return None;
    }
    let mut text = String::new();
    let mut escaped = false;
    let mut i: usize = 1;
    while i < n
        invariant
            n == cs@.len(),
            cs@ == value@,
            1 <= i <= n,
            value@[0] == '"',
            quoted_from(value@, 1, Seq::empty(), false) == quoted_from(
                value@,
                i as int,
                text@,
                escaped,
            ),
        decreases n - i,
    {
        let c = cs[i];
        if escaped {
            push_char(&mut text, c);
            escaped = false;
        } else if c == '\\' {
            escaped = true;
        } else if c == '"' {
            let rest = value.substring_char(i + 1, n);
            assert(rest@ =~= value@.skip(i + 1));
            assert(quoted_from(value@, i as int, text@, escaped) == Some((text@, i + 1)));
            assert(quoted_message(value@) == Some((text@, value@.skip(i + 1))));
            return Some((text, rest));
        } else {
            push_char(&mut text, c);
        }
        i = i + 1;
    }
    None
}

/// Whether `value` is empty or only whitespace.
fn blank_text(value: &str) -> (r: bool)
    ensures
        r == (crate::text::trim(value@).len() == 0),
{
    let cs = chars_of(value);
    let (a, b) = crate::text::trim_range(cs.as_slice(), 0, cs.len());
    assert(cs@.subrange(0, cs@.len() as int) =~= value@);
    a == b
}

/// The text a `say` message shows: a quoted message with nothing but
/// whitespace after it gives its text; anything else is shown as written.
pub open spec fn display_message(s: Seq<char>) -> Seq<char> {
    match quoted_message(s) {
        Some((text, rest)) => if crate::text::trim(rest).len() == 0 {
            text
        } else {
            s
        },
        None => s,
    }
}

/// The text a `say` message shows (see [`display_message`]).
pub fn parse_display_message(value: &str) -> (r: Option<String>)
    ensures
        r matches Some(t) && t@ == display_message(value@),
{
    match parse_quoted_message(value) {
        Some((text, trailing)) => {
            if blank_text(trailing) {
                return Some(text);
            }
        },
        None => {},
    }
    Some(string_of(value))
}

/// The letters a target selector may have after `@`.
pub open spec fn is_selector_kind(c: char) -> bool {
    c == 'p' || c == 'a' || c == 'r' || c == 's' || c == 'e'
}

/// Where the bracketed arguments of a selector close, reading from `i` with
/// `depth` brackets open: `[` opens a level and `]` closes one (never below
/// none); quoted text and the character after a backslash count for
/// nothing.
pub open spec fn selector_close(s: Seq<char>, i: int, depth: nat, quote: Option<char>, escaped: bool) -> Option<int>
    decreases s.len() - i,
{
    if i < 0 || i >= s.len() {
        None
    } else if escaped {
        selector_close(s, i + 1, depth, quote, false)
    } else if s[i] == '\\' {
        selector_close(s, i + 1, depth, quote, true)
    } else if quote is Some {
        selector_close(
            s,
            i + 1,
            depth,
            if s[i] == quote->0 {
                None
            } else {
                quote
            },
            false,
        )
    } else if s[i] == '"' || s[i] == '\'' {
        selector_close(s, i + 1, depth, Some(s[i]), false)
    } else if s[i] == '[' {
        selector_close(s, i + 1, depth + 1, None, false)
    } else if s[i] == ']' {
        if depth <= 1 {
            Some(i + 1)
        } else {
            selector_close(s, i + 1, (depth - 1) as nat, None, false)
        }
    } else {
        selector_close(s, i + 1, depth, None, false)
    }
}

/// Where a target selector that starts at `i` ends: `@p`, `@a`, `@r`, `@s`
/// or `@e`, with its bracketed arguments where they close.
pub open spec fn selector_end(s: Seq<char>, i: int) -> Option<int> {
    if !(0 <= i && i + 2 <= s.len() && s[i] == '@' && is_selector_kind(s[i + 1])) {
        None
    } else if i + 2 < s.len() && s[i + 2] == '[' {
        match selector_close(s, i + 2, 0, None, false) {
            Some(e) => Some(e),
            None => Some(i + 2),
        }
    } else {
        Some(i + 2)
    }
}

pub proof fn lemma_selector_close_bound(s: Seq<char>, i: int, depth: nat, quote: Option<char>, escaped: bool)
    requires
        0 <= i,
    ensures
        selector_close(s, i, depth, quote, escaped) matches Some(e) ==> i < e <= s.len(),
    decreases s.len() - i,
{
    if i < s.len() {
        let c = s[i];
        if escaped {
            lemma_selector_close_bound(s, i + 1, depth, quote, false);
        } else if c == '\\' {
            lemma_selector_close_bound(s, i + 1, depth, quote, true);
        } else if quote is Some {
            lemma_selector_close_bound(
                s,
                i + 1,
                depth,
                if c == quote->0 {
                    None
                } else {
                    quote
                },
                false,
            );
        } else if c == '"' || c == '\'' {
            lemma_selector_close_bound(s, i + 1, depth, Some(c), false);
        } else if c == '[' {
            lemma_selector_close_bound(s, i + 1, depth + 1, None, false);
        } else if c == ']' {
            if depth > 1 {
                lemma_selector_close_bound(s, i + 1, (depth - 1) as nat, None, false);
            }
        } else {
            lemma_selector_close_bound(s, i + 1, depth, None, false);
        }
    }
}

pub proof fn lemma_selector_end_bound(s: Seq<char>, i: int)
    ensures
        selector_end(s, i) matches Some(e) ==> i + 2 <= e <= s.len(),
{
    if 0 <= i && i + 2 < s.len() {
        lemma_selector_close_bound(s, i + 2, 0, None, false);
    }
}

fn selector_kind(c: char) -> (r: bool)
    ensures
        r == is_selector_kind(c),
{
    c == 'p' || c == 'a' || c == 'r' || c == 's' || c == 'e'
}

/// Where a target selector at `i` ends (see [`selector_end`]).
fn selector_end_at(cs: &[char], i: usize) -> (r: Option<usize>)
    requires
        i <= cs@.len(),
    ensures
        match selector_end(cs@, i as int) {
            Some(e) => r matches Some(k) && k == e,
            None => r is None,
        },
{
    proof {
        lemma_selector_end_bound(cs@, i as int);
    }
    let n = cs.len();
    if !(n - i >= 2 && cs[i] == '@' && selector_kind(cs[i + 1])) {
        return None;
    }
    if !(n - i > 2 && cs[i + 2] == '[') {
        return Some(i + 2);
    }
    let mut j: usize = i + 2;
    let mut depth: usize = 0;
    let mut quote: Option<char> = None;
    let mut escaped = false;
    while j < n
        invariant
            n == cs@.len(),
            i + 2 <= j <= n,
            depth <= j - i - 2,
            selector_end(cs@, i as int) == match selector_close(cs@, i + 2, 0, None, false) {
                Some(e) => Some(e),
                None => Some(i + 2),
            },
            selector_close(cs@, i + 2, 0, None, false) == selector_close(
                cs@,
                j as int,
                depth as nat,
                quote,
                escaped,
            ),
        decreases n - j,
    {
        let c = cs[j];
        if escaped {
            escaped = false;
        } else if c == '\\' {
            escaped = true;
        } else if quote.is_some() {
            if quote == Some(c) {
                quote = None;
            }
        } else if c == '"' || c == '\'' {
            quote = Some(c);
        } else if c == '[' {
            depth = depth + 1;
        } else if c == ']' {
            if depth <= 1 {
                assert(quote is None);
                assert(selector_close(cs@, j as int, depth as nat, quote, escaped) == Some(j + 1));
                return Some(j + 1);
            }
            depth = depth - 1;
        }
        j = j + 1;
    }
    Some(i + 2)
}

/// The length in bytes of a target selector at the start of `value` (see
/// [`selector_end`]).
pub fn selector_token_len(value: &str) -> (r: Option<usize>)
    requires
        crate::text::byte_len(value@) <= usize::MAX,
    ensures
        match selector_end(value@, 0) {
            Some(e) => r matches Some(k) && k == byte_offset(value@, e),
            None => r is None,
        },
{
    let cs = chars_of(value);
    match selector_end_at(cs.as_slice(), 0) {
        None => None,
        Some(e) => {
            proof {
                lemma_selector_end_bound(value@, 0);
                assert(value@.take(value@.len() as int) =~= value@);
            }
            let mut b: usize = 0;
            let mut k: usize = 0;
            assert(value@.take(0) =~= Seq::<char>::empty());
            while k < e
                invariant
                    k <= e <= cs@.len(),
                    cs@ == value@,
                    b == byte_offset(value@, k as int),
                    byte_offset(value@, value@.len() as int) == crate::text::byte_len(value@),
                    crate::text::byte_len(value@) <= usize::MAX,
                decreases e - k,
            {
                proof {
                    crate::text::lemma_byte_offset_step(value@, k as int);
                    crate::text::lemma_byte_offset_mono(value@, k + 1, value@.len() as int);
                }
                b = b + crate::text::width_of(cs[k]);
                k = k + 1;
            }
            Some(b)
        },
    }
}

/// `parts` with the pending plain text `plain` added as a JSON string.
pub open spec fn flushed(parts: Seq<Seq<char>>, plain: Seq<char>) -> Seq<Seq<char>> {
    if plain.len() > 0 {
        parts.push(debug_string(plain))
    } else {
        parts
    }
}

/// The text component of a selector.
pub open spec fn selector_object(shown: Seq<char>) -> Seq<char> {
    "{\"selector\":"@ + debug_string(shown) + "}"@
}

/// The text components of `s` from `i` on, after `parts` and the pending
/// plain text `plain`: each run of plain text as a JSON string and each
/// target selector as a selector component (`@s` shown as `repl` where one
/// is given); and whether a selector was met.
pub open spec fn selector_parts(
    s: Seq<char>,
    i: int,
    plain: Seq<char>,
    parts: Seq<Seq<char>>,
    found: bool,
    repl: Option<Seq<char>>,
) -> (Seq<Seq<char>>, bool)
    decreases s.len() - i,
{
    if i < 0 || i >= s.len() {
        (flushed(parts, plain), found)
    } else {
        proof {
            lemma_selector_end_bound(s, i);
        }
        match selector_end(s, i) {
            Some(e) => {
                let sel = s.subrange(i, e);
                let shown = if sel == "@s"@ && repl is Some {
                    repl->0
                } else {
                    sel
                };
                selector_parts(
                    s,
                    e,
                    Seq::empty(),
                    flushed(parts, plain).push(selector_object(shown)),
                    true,
                    repl,
                )
            },
            None => selector_parts(s, i + 1, plain.push(s[i]), parts, found, repl),
        }
    }
}

/// `s` as a JSON array of text components where it holds a target
/// selector (see [`selector_parts`]); `None` where it holds none.
pub open spec fn selector_components(s: Seq<char>, repl: Option<Seq<char>>) -> Option<Seq<char>> {
    let (parts, found) = selector_parts(s, 0, Seq::empty(), Seq::empty(), false, repl);
    if found {
        Some("["@ + join(parts, ","@) + "]"@)
    } else {
        None
    }
}

/// Renders `text` as text components with its selectors as selector
/// components, `@s` shown as `self_replacement` where one is given (see
/// [`selector_components`]).
pub fn selector_text_components_with_self_replacement(text: &str, self_replacement: Option<&str>) -> (r: Option<String>)
    ensures
        match selector_components(
            text@,
            match self_replacement {
                Some(x) => Some(x@),
                None => None,
            },
        ) {
            Some(j) => r matches Some(x) && x@ == j,
            None => r is None,
        },
{
    let ghost rv = match self_replacement {
        Some(x) => Some(x@),
        None => None::<Seq<char>>,
    };
    let cs = chars_of(text);
    let n = cs.len();
    let mut parts: Vec<String> = Vec::new();
    let mut plain = String::new();
    let mut changed = false;
    let mut i: usize = 0;
    proof {
        assert(crate::text::views(parts@) =~= Seq::<Seq<char>>::empty());
    }
    while i < n
        invariant
            cs@ == text@,
            n == cs@.len(),
            i <= n,
            rv == match self_replacement {
                Some(x) => Some(x@),
                None => None::<Seq<char>>,
            },
            selector_parts(text@, 0, Seq::empty(), Seq::empty(), false, rv) == selector_parts(
                text@,
                i as int,
                plain@,
                crate::text::views(parts@),
                changed,
                rv,
            ),
        decreases n - i,
    {
        proof {
            lemma_selector_end_bound(text@, i as int);
        }
        let ghost i0 = i as int;
        let ghost ch0 = changed;
        let ghost parts0 = crate::text::views(parts@);
        let ghost plain0 = plain@;
        match selector_end_at(cs.as_slice(), i) {
            Some(e) => {
                let ghost before = crate::text::views(parts@);
                let ghost pl = plain@;
                if !crate::mcdoc::reduce::is_blank(&plain) {
                    let q = quoted(plain.as_str());
                    parts.push(q);
                    plain = String::new();
                }
                assert(crate::text::views(parts@) =~= flushed(before, pl));
                let selector = text.substring_char(i, e);
                let shown: &str = if crate::text::str_eq(selector, "@s") {
                    match self_replacement {
                        Some(x) => x,
                        None => selector,
                    }
                } else {
                    selector
                };
                let mut obj = string_of("{\"selector\":");
                let q = quoted(shown);
                push_str(&mut obj, q.as_str());
                push_str(&mut obj, "}");
                let ghost mid = crate::text::views(parts@);
                parts.push(obj);
                proof {
                    assert(crate::text::views(parts@) =~= mid.push(obj@));
                    assert(selector@ =~= text@.subrange(i as int, e as int));
                }
                proof {
                    let sel = text@.subrange(i as int, e as int);
                    let sh = if sel == "@s"@ && rv is Some {
                        rv->0
                    } else {
                        sel
                    };
                    assert(shown@ == sh);
                    assert(obj@ == selector_object(sh));
                    assert(crate::text::views(parts@) == flushed(parts0, plain0).push(selector_object(sh)));
                    assert(selector_parts(text@, i0, plain0, parts0, ch0, rv) == selector_parts(
                        text@,
                        e as int,
                        Seq::empty(),
                        flushed(parts0, plain0).push(selector_object(sh)),
                        true,
                        rv,
                    ));
                }
                changed = true;
                i = e;
                assert(plain@ == Seq::<char>::empty());
            },
            None => {
                push_char(&mut plain, cs[i]);
                i = i + 1;
                assert(selector_parts(text@, i0, plain0, parts0, ch0, rv) == selector_parts(
                    text@,
                    i as int,
                    plain@,
                    parts0,
                    ch0,
                    rv,
                ));
            },
        }
    }
    let ghost before = crate::text::views(parts@);
    let ghost pl = plain@;
    if !crate::mcdoc::reduce::is_blank(&plain) {
        let q = quoted(plain.as_str());
        parts.push(q);
    }
    assert(crate::text::views(parts@) =~= flushed(before, pl));
    if changed {
        let mut out = string_of("[");
        let j = crate::text::join_strings(&parts, ",");
        push_str(&mut out, j.as_str());
        push_str(&mut out, "]");
        Some(out)
    } else {
        None
    }
}

/// Renders `text` with its selectors as selector components.
pub fn selector_text_components(text: &str) -> (r: Option<String>)
    ensures
        match selector_components(text@, None) {
            Some(j) => r matches Some(x) && x@ == j,
            None => r is None,
        },
{
    selector_text_components_with_self_replacement(text, None)
}

/// Renders `text` with its selectors as selector components, `@s` shown as
/// the macro placeholder `$(selector)`.
pub fn display_text_components(text: &str) -> (r: Option<String>)
    ensures
        match selector_components(text@, Some("$(selector)"@)) {
            Some(j) => r matches Some(x) && x@ == j,
            None => r is None,
        },
{
    selector_text_components_with_self_replacement(text, Some("$(selector)"))
}

/// A string's characters, where there is one.
pub open spec fn text_opt(r: Option<String>) -> Option<Seq<char>> {
    match r {
        Some(x) => Some(x@),
        None => None,
    }
}

/// A quoted message with only whitespace after it, as text components with
/// its selectors as selector components.
pub open spec fn quoted_json(message: Seq<char>) -> Option<Seq<char>> {
    match quoted_message(message) {
        Some((text, rest)) => if crate::text::trim(rest).len() == 0 {
            selector_components(text, None)
        } else {
            None
        },
        None => None,
    }
}

/// Renders a quoted message (see [`quoted_json`]).
pub fn quoted_message_to_selector_json(message: &str) -> (r: Option<String>)
    ensures
        text_opt(r) == quoted_json(message@),
{
    let (text, trailing) = match parse_quoted_message(message) {
        Some(p) => p,
        None => {
            return None;
        },
    };
    if !blank_text(trailing) {
        return None;
    }
    selector_text_components(text.as_str())
}

/// `say <message>` with a selector in the message, as a `tellraw @a` of
/// text components.
pub open spec fn say_sugar(command: Seq<char>) -> Option<Seq<char>> {
    match crate::text::strip_prefix(command, "say "@) {
        Some(rest) => match selector_components(
            display_message(crate::text::trim_start(rest)),
            None,
        ) {
            Some(json) => Some("tellraw @a "@ + json),
            None => None,
        },
        None => None,
    }
}

/// Expands `say` sugar (see [`say_sugar`]).
pub fn expand_say_sugar(command: &str) -> (r: Option<String>)
    ensures
        text_opt(r) == say_sugar(command@),
{
    let rest = match crate::text::strip_prefix_str(command, "say ") {
        Some(r) => r,
        None => {
            return None;
        },
    };
    let message = crate::text::trim_start_str(rest);
    let text = match parse_display_message(message) {
        Some(t) => t,
        None => {
            return None;
        },
    };
    let json = match selector_text_components(text.as_str()) {
        Some(j) => j,
        None => {
            return None;
        },
    };
    let mut out = string_of("tellraw @a ");
    push_str(&mut out, json.as_str());
    Some(out)
}

/// Whether `mode` is a `title` display mode.
pub open spec fn is_title_mode(mode: Seq<char>) -> bool {
    mode == "title"@ || mode == "subtitle"@ || mode == "actionbar"@
}

/// `tellraw <target> "<message>"` and `title <target> <mode> "<message>"`
/// with a selector in the message, with the message as text components.
pub open spec fn json_text_sugar(command: Seq<char>) -> Option<Seq<char>> {
    match crate::text::strip_prefix(command, "tellraw "@) {
        Some(rest) => match first_word(rest) {
            Some((target, message)) => match quoted_json(crate::text::trim_start(message)) {
                Some(json) => Some("tellraw "@ + target + " "@ + json),
                None => None,
            },
            None => None,
        },
        None => match crate::text::strip_prefix(command, "title "@) {
            Some(rest) => match first_word(rest) {
                Some((target, rest2)) => match first_word(crate::text::trim_start(rest2)) {
                    Some((mode, message)) => if is_title_mode(mode) {
                        match quoted_json(crate::text::trim_start(message)) {
                            Some(json) => Some("title "@ + target + " "@ + mode + " "@ + json),
                            None => None,
                        }
                    } else {
                        None
                    },
                    None => None,
                },
                None => None,
            },
            None => None,
        },
    }
}

/// Expands `tellraw` and `title` sugar (see [`json_text_sugar`]).
pub fn expand_json_text_command_sugar(command: &str) -> (r: Option<String>)
    ensures
        text_opt(r) == json_text_sugar(command@),
{
    match crate::text::strip_prefix_str(command, "tellraw ") {
        Some(rest) => {
            let (target, message) = match split_first_word(rest) {
                Some(p) => p,
                None => {
                    return None;
                },
            };
            let json = match quoted_message_to_selector_json(crate::text::trim_start_str(message)) {
                Some(j) => j,
                None => {
                    return None;
                },
            };
            let mut out = string_of("tellraw ");
            push_str(&mut out, target);
            push_str(&mut out, " ");
            push_str(&mut out, json.as_str());
            return Some(out);
        },
        None => {},
    }
    match crate::text::strip_prefix_str(command, "title ") {
        Some(rest) => {
            let (target, rest) = match split_first_word(rest) {
                Some(p) => p,
                None => {
                    return None;
                },
            };
            let (mode, message) = match split_first_word(crate::text::trim_start_str(rest)) {
                Some(p) => p,
                None => {
                    return None;
                },
            };
            if !(crate::text::str_eq(mode, "title") || crate::text::str_eq(mode, "subtitle")
                || crate::text::str_eq(mode, "actionbar")) {
                return None;
            }
            let json = match quoted_message_to_selector_json(crate::text::trim_start_str(message)) {
                Some(j) => j,
                None => {
                    return None;
                },
            };
            let mut out = string_of("title ");
            push_str(&mut out, target);
            push_str(&mut out, " ");
            push_str(&mut out, mode);
            push_str(&mut out, " ");
            push_str(&mut out, json.as_str());
            Some(out)
        },
        None => None,
    }
}

/// A command with its display sugar expanded: `tellraw`/`title` sugar,
/// else `say` sugar, else the command as written.
pub open spec fn display_sugar(command: Seq<char>) -> Seq<char> {
    match json_text_sugar(command) {
        Some(x) => x,
        None => match say_sugar(command) {
            Some(x) => x,
            None => command,
        },
    }
}

/// Expands the display sugar of a raw command (see [`display_sugar`]).
pub fn expand_display_text_sugar(command: &str) -> (r: String)
    ensures
        r@ == display_sugar(command@),
{
    match expand_json_text_command_sugar(command) {
        Some(x) => x,
        None => match expand_say_sugar(command) {
            Some(x) => x,
            None => string_of(command),
        },
    }
}

// ---- guards and generator state ------------------------------------------------------
/// An objective the datapack creates, with its display name.
#[derive(Debug, Clone)]
pub struct ManagedObjective {
    pub objective: String,
    pub display_name: Option<String>,
}

/// The scores a command must find at zero to run: the frame's control flag
/// and, inside a loop, its break and continue flags.
#[derive(Debug, Clone)]
pub struct Guard {
    pub ctrl_slot: String,
    pub break_slot: Option<String>,
    pub continue_slot: Option<String>,
}

/// The flags and the continuation function of the loop being generated.
#[derive(Debug, Clone)]
pub struct LoopContext {
    pub break_slot: String,
    pub continue_slot: String,
    pub continue_target: String,
}

/// A storage path, with the macro storage its placeholders are read from.
#[derive(Debug, Clone)]
pub struct RenderedStoragePath {
    pub path: String,
    pub macro_storage: Option<String>,
}

/// What runs after a statement list: statements, a call, clearing a score,
/// or leaving an `as`/`at` context.
#[derive(Debug)]
pub enum ContinuationItem {
    Stmt(IrStmt),
    Call { function_name: String, allow_continue: bool },
    ClearScore(String),
    ExitContext,
}

/// Where generation resumes after an `as`/`at` context block.
#[derive(Debug, Clone)]
pub struct ContextResume {
    pub kind: ContextKind,
    pub anchor_slot: SlotRef,
}

/// ` if score <slot> mcfc matches 0`.
pub open spec fn score_is_zero(slot: Seq<char>) -> Seq<char> {
    " if score "@ + slot + " mcfc matches 0"@
}

/// The `execute` prefix of a guard: its control flag, then its break flag
/// where `check_break` and its continue flag where `check_continue`.
pub open spec fn guard_prefix(g: Guard, check_break: bool, check_continue: bool) -> Seq<char> {
    "execute"@ + score_is_zero(g.ctrl_slot@) + match g.break_slot {
        Some(b) => if check_break {
            score_is_zero(b@)
        } else {
            Seq::empty()
        },
        None => Seq::empty(),
    } + match g.continue_slot {
        Some(c) => if check_continue {
            score_is_zero(c@)
        } else {
            Seq::empty()
        },
        None => Seq::empty(),
    }
}

fn push_score_is_zero(out: &mut String, slot: &str)
    ensures
        final(out)@ == old(out)@ + score_is_zero(slot@),
{
    push_str(out, " if score ");
    push_str(out, slot);
    push_str(out, " mcfc matches 0");
    assert(final(out)@ =~= old(out)@ + score_is_zero(slot@));
}

impl Guard {
    /// The guard of a function's body: its control flag alone.
    pub fn for_function(depth: usize, function: &str) -> (r: Self)
        ensures
            r.ctrl_slot@ == score_prefix(depth as nat, function@) + "__ctrl"@,
            r.break_slot is None,
            r.continue_slot is None,
    {
        Guard { ctrl_slot: control_slot(depth, function), break_slot: None, continue_slot: None }
    }

    /// This guard inside the loop `loop_ctx`: the loop's break and continue
    /// flags added.
    pub fn within_loop(&self, loop_ctx: &LoopContext) -> (r: Self)
        ensures
            r.ctrl_slot@ == self.ctrl_slot@,
            r.break_slot matches Some(b) && b@ == loop_ctx.break_slot@,
            r.continue_slot matches Some(c) && c@ == loop_ctx.continue_slot@,
    {
        Guard {
            ctrl_slot: self.ctrl_slot.clone(),
            break_slot: Some(loop_ctx.break_slot.clone()),
            continue_slot: Some(loop_ctx.continue_slot.clone()),
        }
    }

    /// `command` run only while every flag of the guard is at zero.
    pub fn wrap(&self, command: &str) -> (r: String)
        ensures
            r@ == guard_prefix(*self, true, true) + " run "@ + command@,
    {
        self.wrap_with_options(command, true, true)
    }

    /// `command` run while the control and break flags are at zero.
    pub fn wrap_allow_continue(&self, command: &str) -> (r: String)
        ensures
            r@ == guard_prefix(*self, true, false) + " run "@ + command@,
    {
        self.wrap_with_options(command, true, false)
    }

    /// `command` run while the flags chosen are at zero (see
    /// [`guard_prefix`]).
    pub fn wrap_with_options(&self, command: &str, check_break: bool, check_continue: bool) -> (r: String)
        ensures
            r@ == guard_prefix(*self, check_break, check_continue) + " run "@ + command@,
    {
        let mut prefix = string_of("execute");
        push_score_is_zero(&mut prefix, self.ctrl_slot.as_str());
        let ghost p1 = prefix@;
        if check_break {
            match &self.break_slot {
                Some(slot) => push_score_is_zero(&mut prefix, slot.as_str()),
                None => {},
            }
        }
        let ghost p2 = prefix@;
        if check_continue {
            match &self.continue_slot {
                Some(slot) => push_score_is_zero(&mut prefix, slot.as_str()),
                None => {},
            }
        }
        proof {
            let b = match &self.break_slot {
                Some(x) => if check_break {
                    score_is_zero(x@)
                } else {
                    Seq::empty()
                },
                None => Seq::empty(),
            };
            let c = match &self.continue_slot {
                Some(x) => if check_continue {
                    score_is_zero(x@)
                } else {
                    Seq::empty()
                },
                None => Seq::empty(),
            };
            assert(p2 =~= p1 + b);
            assert(prefix@ =~= p2 + c);
            assert(prefix@ =~= guard_prefix(*self, check_break, check_continue));
        }
        push_str(&mut prefix, " run ");
        push_str(&mut prefix, command);
        prefix
    }
}

// ---- dynamic NBT indices and macro templates -----------------------------------------
/// The type of an NBT index expression: integer and string literals by
/// their kind, a variable by the function's locals, a unary expression by
/// its operand; `None` for the others.
pub open spec fn index_type(locals: Seq<(String, Type)>, e: Expr) -> Option<Type>
    decreases e,
{
    match e.kind {
        ExprKind::Int(_) => Some(Type::Int),
        ExprKind::String(_) => Some(Type::String),
        ExprKind::Variable(name) => crate::ir::lookup(locals, name@),
        ExprKind::Unary { expr, .. } => index_type(locals, *expr),
        _ => None,
    }
}

/// The type of a dynamic NBT index (see [`index_type`]).
pub fn infer_dynamic_nbt_index_type(function: &IrFunction, expr: &Expr) -> (r: Option<Type>)
    ensures
        r == index_type(function.locals@, *expr),
    decreases expr,
{
    match &expr.kind {
        ExprKind::Int(_) => Some(Type::Int),
        ExprKind::String(_) => Some(Type::String),
        ExprKind::Variable(name) => function.local_type(name.as_str()),
        ExprKind::Unary { expr: inner, .. } => infer_dynamic_nbt_index_type(function, inner),
        _ => None,
    }
}

/// Where the body of a `$(...)` placeholder ends, reading the characters `b`
/// from `i` with `depth` parentheses open: the index of the `)` that closes
/// it, or an index at or past the end. Quoted text (in which a backslash
/// passes over the next character) counts for nothing.
pub open spec fn macro_body_end(b: Seq<char>, i: int, depth: nat, in_string: bool, delim: char) -> int
    decreases b.len() - i,
{
    if i < 0 || i >= b.len() {
        i
    } else if in_string {
        if b[i] == '\\' {
            if i + 2 >= b.len() {
                i + 2
            } else {
                macro_body_end(b, i + 2, depth, true, delim)
            }
        } else if b[i] == delim {
            macro_body_end(b, i + 1, depth, false, delim)
        } else {
            macro_body_end(b, i + 1, depth, true, delim)
        }
    } else if b[i] == '"' || b[i] == '\'' {
        macro_body_end(b, i + 1, depth, true, b[i])
    } else if b[i] == '(' {
        macro_body_end(b, i + 1, depth + 1, false, delim)
    } else if b[i] == ')' {
        if depth <= 1 {
            i
        } else {
            macro_body_end(b, i + 1, (depth - 1) as nat, false, delim)
        }
    } else {
        macro_body_end(b, i + 1, depth, false, delim)
    }
}

pub proof fn lemma_macro_body_end(b: Seq<char>, i: int, depth: nat, in_string: bool, delim: char)
    requires
        0 <= i,
    ensures
        macro_body_end(b, i, depth, in_string, delim) >= i,
    decreases b.len() - i,
{
    if i < b.len() {
        if in_string {
            if b[i] == '\\' {
                if i + 2 < b.len() {
                    lemma_macro_body_end(b, i + 2, depth, true, delim);
                }
            } else if b[i] == delim {
                lemma_macro_body_end(b, i + 1, depth, false, delim);
            } else {
                lemma_macro_body_end(b, i + 1, depth, true, delim);
            }
        } else if b[i] == '"' || b[i] == '\'' {
            lemma_macro_body_end(b, i + 1, depth, true, b[i]);
        } else if b[i] == '(' {
            lemma_macro_body_end(b, i + 1, depth + 1, false, delim);
        } else if b[i] == ')' {
            if depth > 1 {
                lemma_macro_body_end(b, i + 1, (depth - 1) as nat, false, delim);
            }
        } else {
            lemma_macro_body_end(b, i + 1, depth, false, delim);
        }
    }
}

/// A macro template rewritten from character `i` on, after the text `out` and
/// with the placeholders from `k` on left: each `$(...)` becomes
/// `$(<name>)` of the next placeholder (or is dropped when none is left);
/// every other character is kept.
pub open spec fn rewrite_from(b: Seq<char>, i: int, names: Seq<Seq<char>>, k: int, out: Seq<char>) -> Seq<char>
    decreases b.len() - i,
{
    if i < 0 || i >= b.len() {
        out
    } else if i + 1 < b.len() && b[i] == '$' && b[i + 1] == '(' {
        proof {
            lemma_macro_body_end(b, i + 2, 1, false, '"');
        }
        let e = macro_body_end(b, i + 2, 1, false, '"');
        let out2 = if 0 <= k < names.len() {
            out + "$("@ + names[k] + ")"@
        } else {
            out
        };
        let k2 = if 0 <= k < names.len() {
            k + 1
        } else {
            k
        };
        if e + 1 >= b.len() {
            out2
        } else {
            rewrite_from(b, e + 1, names, k2, out2)
        }
    } else {
        rewrite_from(b, i + 1, names, k, out.push(b[i]))
    }
}

/// Rewrites the placeholders of a macro template to the names of
/// `placeholders`, in order (see [`rewrite_from`]).
pub fn rewrite_macro_template(template: &str, placeholders: &[IrMacroPlaceholder]) -> (r: String)
    requires
        template@.len() < usize::MAX,
    ensures
        r@ == rewrite_from(
            template@,
            0,
            placeholders@.map_values(|p: IrMacroPlaceholder| p.name@),
            0,
            Seq::empty(),
        ),
{
    let chars = crate::text::chars_of(template);
    let ghost b = chars@;
    let ghost names = placeholders@.map_values(|p: IrMacroPlaceholder| p.name@);
    let n = chars.len();
    let mut index: usize = 0;
    let mut out = String::new();
    let mut placeholder_index: usize = 0;
    while index < n
        invariant
            b == chars@,
            b == template@,
            n == b.len(),
            names == placeholders@.map_values(|p: IrMacroPlaceholder| p.name@),
            placeholder_index <= placeholders@.len(),
            n < usize::MAX,
            rewrite_from(b, 0, names, 0, Seq::empty()) == rewrite_from(
                b,
                index as int,
                names,
                placeholder_index as int,
                out@,
            ),
        decreases n - index,
    {
        if n - index > 1 && chars[index] == '$' && chars[index + 1] == '(' {
            let ghost i0 = index as int;
            let start = index + 2;
            index = start;
            let mut paren_depth: usize = 1;
            let mut in_string = false;
            let mut string_delim: char = '"';
            proof {
                lemma_macro_body_end(b, start as int, 1, false, '"');
            }
            while index < n
                invariant_except_break
                    1 <= paren_depth <= index - start + 1,
                    macro_body_end(b, start as int, 1, false, '"') == macro_body_end(
                        b,
                        index as int,
                        paren_depth as nat,
                        in_string,
                        string_delim,
                    ),
                invariant
                    b == chars@,
                    n == b.len(),
                    n < usize::MAX,
                    start <= index,
                    index <= n + 1,
                ensures
                    start <= index <= n + 1,
                    index == macro_body_end(b, start as int, 1, false, '"'),
                decreases n + 1 - index,
            {
                let ch = chars[index];
                if in_string {
                    if ch == '\\' {
                        index = index + 2;
                        continue;
                    }
                    if ch == string_delim {
                        in_string = false;
                    }
                    index = index + 1;
                    continue;
                }
                if ch == '"' || ch == '\'' {
                    in_string = true;
                    string_delim = ch;
                } else if ch == '(' {
                    paren_depth = paren_depth + 1;
                } else if ch == ')' {
                    paren_depth = paren_depth - 1;
                    if paren_depth == 0 {
                        break ;
                    }
                }
                index = index + 1;
            }
            let ghost e = index as int;
            let ghost out0 = out@;
            let ghost k0 = placeholder_index as int;
            if placeholder_index < placeholders.len() {
                push_str(&mut out, "$(");
                push_str(&mut out, placeholders[placeholder_index].name.as_str());
                push_str(&mut out, ")");
                placeholder_index = placeholder_index + 1;
            }
            proof {
                let out2 = if 0 <= k0 < names.len() {
                    out0 + "$("@ + names[k0] + ")"@
                } else {
                    out0
                };
                assert(out@ == out2);
                if e + 1 >= n {
                    assert(rewrite_from(b, i0, names, k0, out0) == out@);
                } else {
                    assert(rewrite_from(b, i0, names, k0, out0) == rewrite_from(
                        b,
                        e + 1,
                        names,
                        placeholder_index as int,
                        out@,
                    ));
                }
            }
            if index >= n {
                return out;
            }
        } else {
            push_char(&mut out, chars[index]);
        }
        index = index + 1;
    }
    out
}

} // verus!
