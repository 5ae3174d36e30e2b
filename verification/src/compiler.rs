//! Compiler front end: lowering of the Bukkit-style declarations into the
//! core syntax, helper-manifest validation and the special `tick` function.
use vstd::prelude::*;

use crate::ast::{Function, Program, Type};
use crate::diagnostics::{Diagnostic, Diagnostics, Span, TextRange};
use crate::language_catalog::{agent_event_payload_type, is_agent_event, payload_type};
use crate::lexer::line_end;
use crate::text::{
    chars_of, contains_seq, contains_str, extend_chars, extend_str, identifier_range,
    is_identifier, is_unicode_whitespace, join, parse_u32, parse_u32_range, push_replaced,
    range_is, replace_all, split_once, split_once_range, str_eq, string_from_vec, string_of,
    strip_prefix, strip_prefix_range, strip_suffix, strip_suffix_range, trim, trim_range,
    whitespace, push_str,
};

verus! {

broadcast use vstd::string::group_string_axioms;

/// A typed agent event declaration `event kind(name: type):`: its kind and parameter.
pub open spec fn agent_declaration(t: Seq<char>) -> Option<(Seq<char>, Seq<char>)> {
    match strip_prefix(t, "event "@) {
        None => None,
        Some(rest) => match split_once(rest, '(') {
            None => None,
            Some((kind0, parameter0)) => match strip_suffix(parameter0, "):"@) {
                None => None,
                Some(p) => {
                    let kind = trim(kind0);
                    let parameter = trim(p);
                    match split_once(parameter, ':') {
                        None => None,
                        Some((name0, ty0)) => {
                            let name = trim(name0);
                            let ty = trim(ty0);
                            match payload_type(kind) {
                                None => None,
                                Some(expected) => if is_identifier(kind) && is_identifier(name)
                                    && ty == expected {
                                    Some((kind, parameter))
                                } else {
                                    None
                                },
                            }
                        },
                    }
                },
            },
        },
    }
}

/// Lowering of `event kind:`.
pub open spec fn event_declaration(t: Seq<char>) -> Option<Seq<char>> {
    match strip_prefix(t, "event "@) {
        None => None,
        Some(rest) => match strip_suffix(rest, ":"@) {
            None => None,
            Some(kind) => if is_identifier(kind) {
                Some("fn __mcfc_event_"@ + kind + "() -> void:"@)
            } else {
                None
            },
        },
    }
}

/// Lowering of `command name:` and `command name(params) -> type:`.
pub open spec fn command_declaration(t: Seq<char>) -> Option<Seq<char>> {
    match strip_prefix(t, "command "@) {
        None => None,
        Some(rest) => match strip_suffix(rest, ":"@) {
            None => None,
            Some(signature) => {
                let with_params = match split_once(signature, '(') {
                    Some((name, rest)) => if is_identifier(trim(name)) {
                        Some("fn __mcfc_command_"@ + trim(name) + "("@ + rest)
                    } else {
                        None
                    },
                    None => None,
                };
                if with_params is Some {
                    with_params
                } else if is_identifier(trim(signature)) {
                    Some("fn __mcfc_command_"@ + trim(signature) + "() -> void:"@)
                } else {
                    None
                }
            },
        },
    }
}

/// The tick count of a `<prefix>N):` schedule with `0 < N <= u32::MAX`.
pub open spec fn schedule_ticks(schedule: Seq<char>, prefix: Seq<char>) -> Option<Seq<char>> {
    match strip_prefix(schedule, prefix) {
        None => None,
        Some(v) => match strip_suffix(v, "):"@) {
            None => None,
            Some(ticks) => match parse_u32(ticks) {
                Some(n) => if n > 0 {
                    Some(ticks)
                } else {
                    None
                },
                None => None,
            },
        },
    }
}

/// Lowering of `task name every_ticks(N):` and `task name after_ticks(N):`.
pub open spec fn task_declaration(t: Seq<char>) -> Option<Seq<char>> {
    match strip_prefix(t, "task "@) {
        None => None,
        Some(rest) => match split_once(rest, ' ') {
            None => None,
            Some((name, schedule)) => match schedule_ticks(schedule, "every_ticks("@) {
                Some(ticks) => Some(
                    "fn __mcfc_task_"@ + name + "_every_ticks_"@ + ticks + "() -> void:"@,
                ),
                None => match schedule_ticks(schedule, "after_ticks("@) {
                    Some(ticks) => Some(
                        "fn __mcfc_task_"@ + name + "_after_ticks_"@ + ticks + "() -> void:"@,
                    ),
                    None => None,
                },
            },
        },
    }
}

/// Lowering of `data player.name: int = 0` and `data player.name: bool = false`.
pub open spec fn data_declaration(t: Seq<char>) -> Option<Seq<char>> {
    match strip_prefix(t, "data player."@) {
        None => None,
        Some(rest) => match split_once(rest, ':') {
            None => None,
            Some((name, declaration)) => if !is_identifier(name) {
                None
            } else {
                match split_once(declaration, '=') {
                    None => None,
                    Some((ty0, default0)) => {
                        let ty = trim(ty0);
                        let default = trim(default0);
                        if (ty == "int"@ && default == "0"@) || (ty == "bool"@ && default
                            == "false"@) {
                            Some(
                                "player_state "@ + name + ": "@ + ty + " = \""@ + name + "\""@,
                            )
                        } else {
                            None
                        }
                    },
                }
            },
        },
    }
}

/// The lowering of one source line.
pub open spec fn normalized_line(line: Seq<char>) -> Seq<char> {
    let renamed = replace_all(line, ".data."@, ".state."@);
    if line.len() > 0 && is_unicode_whitespace(line[0]) {
        renamed
    } else {
        let t = trim(line);
        match agent_declaration(t) {
            Some((kind, parameter)) => "fn __mcfc_agent_event_"@ + kind + "("@ + parameter
                + ") -> void:"@,
            None => match event_declaration(t) {
                Some(l) => l,
                None => match command_declaration(t) {
                    Some(l) => l,
                    None => match task_declaration(t) {
                        Some(l) => l,
                        None => match data_declaration(t) {
                            Some(l) => l,
                            None => renamed,
                        },
                    },
                },
            },
        }
    }
}

/// The lines of `s` from character `p` on (std's `str::lines`: split at `\n`,
/// a `\r` before a `\n` dropped, no empty line after a final `\n`).
pub open spec fn lines_from(s: Seq<char>, p: int) -> Seq<Seq<char>>
    decreases s.len() - p,
{
    if p < 0 || p >= s.len() {
        Seq::empty()
    } else {
        let q = line_end(s, p);
        let piece = s.subrange(p, q);
        let line = if q < s.len() && piece.len() > 0 && piece.last() == '\r' {
            piece.drop_last()
        } else {
            piece
        };
        proof {
            crate::lexer::lemma_line_end(s, p);
        }
        if q >= s.len() {
            seq![line]
        } else {
            seq![line] + lines_from(s, q + 1)
        }
    }
}

/// The whole source after lowering every line; a final newline is kept.
pub open spec fn normalized_source(s: Seq<char>) -> Seq<char> {
    join(lines_from(s, 0).map_values(|l: Seq<char>| normalized_line(l)), "\n"@) + if s.len() > 0
        && s.last() == '\n' {
        "\n"@
    } else {
        Seq::<char>::empty()
    }
}

/// Whether `value` spells an MCFC identifier.
pub fn is_mcfc_identifier(value: &str) -> (r: bool)
    ensures
        r == is_identifier(value@),
{
    let cs = chars_of(value);
    let r = identifier_range(cs.as_slice(), 0, cs.len());
    assert(cs@.subrange(0, cs@.len() as int) =~= cs@);
    r
}

/// Kind and parameter of a typed agent event declaration in `cs[a..b]`, as ranges.
fn parse_agent_event_range(cs: &Vec<char>, a: usize, b: usize) -> (r: Option<
    (usize, usize, usize, usize),
>)
    requires
        a <= b <= cs@.len(),
    ensures
        match r {
            Some((ka, kb, pa, pb)) => ka <= kb <= cs@.len() && pa <= pb <= cs@.len()
                && agent_declaration(cs@.subrange(a as int, b as int)) == Some(
                (cs@.subrange(ka as int, kb as int), cs@.subrange(pa as int, pb as int)),
            ),
            None => agent_declaration(cs@.subrange(a as int, b as int)) is None,
        },
{
    let s = cs.as_slice();
    let rest = match strip_prefix_range(s, a, b, "event ") {
        Some(k) => k,
        None => return None,
    };
    let open = match split_once_range(s, rest, b, '(') {
        Some(k) => k,
        None => return None,
    };
    let pend = match strip_suffix_range(s, open + 1, b, "):") {
        Some(k) => k,
        None => return None,
    };
    let (ka, kb) = trim_range(s, rest, open);
    let (pa, pb) = trim_range(s, open + 1, pend);
    let colon = match split_once_range(s, pa, pb, ':') {
        Some(k) => k,
        None => return None,
    };
    let (na, nb) = trim_range(s, pa, colon);
    let (ta, tb) = trim_range(s, colon + 1, pb);
    let kind = string_from_vec_range(cs, ka, kb);
    let expected = match agent_event_payload_type(kind.as_str()) {
        Some(t) => t,
        None => return None,
    };
    if identifier_range(s, ka, kb) && identifier_range(s, na, nb) && range_is(s, ta, tb, expected) {
        Some((ka, kb, pa, pb))
    } else {
        None
    }
}

fn string_from_vec_range(cs: &Vec<char>, a: usize, b: usize) -> (r: String)
    requires
        a <= b <= cs@.len(),
    ensures
        r@ == cs@.subrange(a as int, b as int),
{
    crate::text::string_from_chars(cs.as_slice(), a, b)
}

/// Kind and parameter of a typed agent event declaration such as
/// `event chat(event: chat_event):`.
pub fn parse_agent_event_declaration(line: &str) -> (r: Option<(String, String)>)
    ensures
        match r {
            Some((kind, parameter)) => agent_declaration(line@) == Some((kind@, parameter@)),
            None => agent_declaration(line@) is None,
        },
{
    let cs = chars_of(line);
    assert(cs@.subrange(0, cs@.len() as int) =~= cs@);
    match parse_agent_event_range(&cs, 0, cs.len()) {
        Some((ka, kb, pa, pb)) => Some(
            (string_from_vec_range(&cs, ka, kb), string_from_vec_range(&cs, pa, pb)),
        ),
        None => None,
    }
}

/// `event kind:` lowering of `cs[a..b]`, appended to `out`.
fn lower_event(cs: &Vec<char>, a: usize, b: usize, out: &mut Vec<char>) -> (r: bool)
    requires
        a <= b <= cs@.len(),
    ensures
        r == event_declaration(cs@.subrange(a as int, b as int)) is Some,
        r ==> final(out)@ == old(out)@ + event_declaration(
            cs@.subrange(a as int, b as int),
        ).unwrap(),
        !r ==> final(out)@ == old(out)@,
{
    let s = cs.as_slice();
    let rest = match strip_prefix_range(s, a, b, "event ") {
        Some(k) => k,
        None => return false,
    };
    let kend = match strip_suffix_range(s, rest, b, ":") {
        Some(k) => k,
        None => return false,
    };
    if !identifier_range(s, rest, kend) {
        return false;
    }
    extend_str(out, "fn __mcfc_event_");
    extend_chars(out, s, rest, kend);
    extend_str(out, "() -> void:");
    true
}

/// `command ...:` lowering of `cs[a..b]`, appended to `out`.
fn lower_command(cs: &Vec<char>, a: usize, b: usize, out: &mut Vec<char>) -> (r: bool)
    requires
        a <= b <= cs@.len(),
    ensures
        r == command_declaration(cs@.subrange(a as int, b as int)) is Some,
        r ==> final(out)@ == old(out)@ + command_declaration(
            cs@.subrange(a as int, b as int),
        ).unwrap(),
        !r ==> final(out)@ == old(out)@,
{
    let s = cs.as_slice();
    let rest = match strip_prefix_range(s, a, b, "command ") {
        Some(k) => k,
        None => return false,
    };
    let send = match strip_suffix_range(s, rest, b, ":") {
        Some(k) => k,
        None => return false,
    };
    match split_once_range(s, rest, send, '(') {
        Some(open) => {
            let (na, nb) = trim_range(s, rest, open);
            if identifier_range(s, na, nb) {
                extend_str(out, "fn __mcfc_command_");
                extend_chars(out, s, na, nb);
                extend_str(out, "(");
                extend_chars(out, s, open + 1, send);
                return true;
            }
        },
        None => {},
    }
    let (na, nb) = trim_range(s, rest, send);
    if identifier_range(s, na, nb) {
        extend_str(out, "fn __mcfc_command_");
        extend_chars(out, s, na, nb);
        extend_str(out, "() -> void:");
        true
    } else {
        false
    }
}

/// Range of the tick count of a `<prefix>N):` schedule in `cs[a..b]`.
fn schedule_range(cs: &Vec<char>, a: usize, b: usize, prefix: &str) -> (r: Option<(usize, usize)>)
    requires
        a <= b <= cs@.len(),
    ensures
        match r {
            Some((ta, tb)) => ta <= tb <= cs@.len() && schedule_ticks(
                cs@.subrange(a as int, b as int),
                prefix@,
            ) == Some(cs@.subrange(ta as int, tb as int)),
            None => schedule_ticks(cs@.subrange(a as int, b as int), prefix@) is None,
        },
{
    let s = cs.as_slice();
    let v = match strip_prefix_range(s, a, b, prefix) {
        Some(k) => k,
        None => return None,
    };
    let tb = match strip_suffix_range(s, v, b, "):") {
        Some(k) => k,
        None => return None,
    };
    match parse_u32_range(s, v, tb) {
        Some(n) => if n > 0 {
            Some((v, tb))
        } else {
            None
        },
        None => None,
    }
}

/// `task ...:` lowering of `cs[a..b]`, appended to `out`.
fn lower_task(cs: &Vec<char>, a: usize, b: usize, out: &mut Vec<char>) -> (r: bool)
    requires
        a <= b <= cs@.len(),
    ensures
        r == task_declaration(cs@.subrange(a as int, b as int)) is Some,
        r ==> final(out)@ == old(out)@ + task_declaration(
            cs@.subrange(a as int, b as int),
        ).unwrap(),
        !r ==> final(out)@ == old(out)@,
{
    let s = cs.as_slice();
    let rest = match strip_prefix_range(s, a, b, "task ") {
        Some(k) => k,
        None => return false,
    };
    let space = match split_once_range(s, rest, b, ' ') {
        Some(k) => k,
        None => return false,
    };
    match schedule_range(cs, space + 1, b, "every_ticks(") {
        Some((ta, tb)) => {
            extend_str(out, "fn __mcfc_task_");
            extend_chars(out, s, rest, space);
            extend_str(out, "_every_ticks_");
            extend_chars(out, s, ta, tb);
            extend_str(out, "() -> void:");
            true
        },
        None => match schedule_range(cs, space + 1, b, "after_ticks(") {
            Some((ta, tb)) => {
                extend_str(out, "fn __mcfc_task_");
                extend_chars(out, s, rest, space);
                extend_str(out, "_after_ticks_");
                extend_chars(out, s, ta, tb);
                extend_str(out, "() -> void:");
                true
            },
            None => false,
        },
    }
}

/// `data player...` lowering of `cs[a..b]`, appended to `out`.
fn lower_data(cs: &Vec<char>, a: usize, b: usize, out: &mut Vec<char>) -> (r: bool)
    requires
        a <= b <= cs@.len(),
    ensures
        r == data_declaration(cs@.subrange(a as int, b as int)) is Some,
        r ==> final(out)@ == old(out)@ + data_declaration(
            cs@.subrange(a as int, b as int),
        ).unwrap(),
        !r ==> final(out)@ == old(out)@,
{
    let s = cs.as_slice();
    let rest = match strip_prefix_range(s, a, b, "data player.") {
        Some(k) => k,
        None => return false,
    };
    let colon = match split_once_range(s, rest, b, ':') {
        Some(k) => k,
        None => return false,
    };
    if !identifier_range(s, rest, colon) {
        return false;
    }
    let eq = match split_once_range(s, colon + 1, b, '=') {
        Some(k) => k,
        None => return false,
    };
    let (ta, tb) = trim_range(s, colon + 1, eq);
    let (da, db) = trim_range(s, eq + 1, b);
    if (range_is(s, ta, tb, "int") && range_is(s, da, db, "0")) || (range_is(s, ta, tb, "bool")
        && range_is(s, da, db, "false")) {
        extend_str(out, "player_state ");
        extend_chars(out, s, rest, colon);
        extend_str(out, ": ");
        extend_chars(out, s, ta, tb);
        extend_str(out, " = \"");
        extend_chars(out, s, rest, colon);
        extend_str(out, "\"");
        true
    } else {
        false
    }
}

/// The lowering of the line `cs[a..b]`, appended to `out`.
fn normalize_line_into(cs: &Vec<char>, a: usize, b: usize, out: &mut Vec<char>)
    requires
        a <= b <= cs@.len(),
    ensures
        final(out)@ == old(out)@ + normalized_line(cs@.subrange(a as int, b as int)),
{
    let s = cs.as_slice();
    let dot_data = chars_of(".data.");
    let dot_state = chars_of(".state.");
    proof {
        reveal_strlit(".data.");
    }
    if a < b && whitespace(cs[a]) {
        push_replaced(out, s, a, b, dot_data.as_slice(), dot_state.as_slice());
        return;
    }
    let (ta, tb) = trim_range(s, a, b);
    match parse_agent_event_range(cs, ta, tb) {
        Some((ka, kb, pa, pb)) => {
            extend_str(out, "fn __mcfc_agent_event_");
            extend_chars(out, s, ka, kb);
            extend_str(out, "(");
            extend_chars(out, s, pa, pb);
            extend_str(out, ") -> void:");
            return;
        },
        None => {},
    }
    if lower_event(cs, ta, tb, out) {
        return;
    }
    if lower_command(cs, ta, tb, out) {
        return;
    }
    if lower_task(cs, ta, tb, out) {
        return;
    }
    if lower_data(cs, ta, tb, out) {
        return;
    }
    push_replaced(out, s, a, b, dot_data.as_slice(), dot_state.as_slice());
}

/// Lowers the Bukkit-style top-level declarations (`event`, `command`, `task`,
/// `data player.`) line by line into ordinary MCFC functions and player state,
/// and renames `.data.` to `.state.` elsewhere.
pub fn normalize_bukkit_declarations_source(source: &str) -> (r: String)
    ensures
        r@ == normalized_source(source@),
{
    let cs = chars_of(source);
    let n = cs.len();
    let mut out: Vec<char> = Vec::new();
    let mut p: usize = 0;
    let ghost mut done: Seq<Seq<char>> = Seq::empty();
    let mut first = true;
    let ghost f = |l: Seq<char>| normalized_line(l);
    while p < n
        invariant
            n == cs@.len(),
            cs@ == source@,
            p <= n,
            f == (|l: Seq<char>| normalized_line(l)),
            done + lines_from(cs@, p as int) == lines_from(cs@, 0),
            out@ == join(done.map_values(f), "\n"@),
            first == (done.len() == 0),
        decreases n - p,
    {
        let mut q: usize = p;
        while q < n && cs[q] != '\n'
            invariant
                p <= q <= n,
                n == cs@.len(),
                line_end(cs@, p as int) == line_end(cs@, q as int),
            decreases n - q,
        {
            q = q + 1;
        }
        proof {
            crate::lexer::lemma_line_end(cs@, p as int);
        }
        let end = if q < n && q > p && cs[q - 1] == '\r' {
            q - 1
        } else {
            q
        };
        let ghost piece = cs@.subrange(p as int, q as int);
        let ghost line = cs@.subrange(p as int, end as int);
        proof {
            if end < q {
                assert(line =~= piece.drop_last());
            }
            assert(lines_from(cs@, p as int) == seq![line] + lines_from(cs@, if q < n {
                q + 1
            } else {
                n as int
            }));
        }
        let ghost before = out@;
        if !first {
            out.push('\n');
        }
        first = false;
        normalize_line_into(&cs, p, end, &mut out);
        proof {
            reveal_strlit("\n");
            let nd = done.push(line);
            assert(nd.map_values(f).drop_last() =~= done.map_values(f));
            assert(nd.map_values(f).last() == normalized_line(line));
            assert(out@ =~= join(nd.map_values(f), "\n"@));
            assert(nd + lines_from(cs@, if q < n {
                q + 1
            } else {
                n as int
            }) =~= done + lines_from(cs@, p as int));
            done = nd;
        }
        if q < n {
            p = q + 1;
        } else {
            p = n;
        }
    }
    proof {
        assert(done =~= lines_from(cs@, 0));
    }
    if n > 0 && cs[n - 1] == '\n' {
        out.push('\n');
        proof {
            reveal_strlit("\n");
        }
    }
    proof {
        assert(out@ =~= normalized_source(source@));
    }
    string_from_vec(&out)
}


// ---- line structure of the lowered source ----------------------------------------
/// Whether `s` has no newline.
pub open spec fn no_nl(s: Seq<char>) -> bool {
    forall|i: int| 0 <= i < s.len() ==> #[trigger] s[i] != '\n'
}

/// The number of newlines in `s`.
pub open spec fn nl_count(s: Seq<char>) -> nat
    decreases s.len(),
{
    if s.len() == 0 {
        0
    } else {
        nl_count(s.drop_last()) + if s.last() == '\n' {
            1nat
        } else {
            0nat
        }
    }
}

proof fn lemma_nl_count_concat(a: Seq<char>, b: Seq<char>)
    ensures
        nl_count(a + b) == nl_count(a) + nl_count(b),
    decreases b.len(),
{
    if b.len() > 0 {
        assert((a + b).drop_last() =~= a + b.drop_last());
        lemma_nl_count_concat(a, b.drop_last());
    } else {
        assert(a + b =~= a);
    }
}

proof fn lemma_nl_count_one()
    ensures
        nl_count(seq!['\n']) == 1,
{
    assert(seq!['\n'].drop_last() =~= Seq::<char>::empty());
    assert(nl_count(Seq::<char>::empty()) == 0);
}

proof fn lemma_nl_count_none(a: Seq<char>)
    requires
        no_nl(a),
    ensures
        nl_count(a) == 0,
    decreases a.len(),
{
    if a.len() > 0 {
        lemma_nl_count_none(a.drop_last());
    }
}

proof fn lemma_no_nl_trim(s: Seq<char>)
    requires
        no_nl(s),
    ensures
        no_nl(trim_start_of(s)),
        no_nl(trim(s)),
    decreases s.len(),
{
    lemma_no_nl_trim_start(s);
    lemma_no_nl_trim_end(crate::text::trim_start(s));
}

pub open spec fn trim_start_of(s: Seq<char>) -> Seq<char> {
    crate::text::trim_start(s)
}

proof fn lemma_no_nl_trim_start(s: Seq<char>)
    requires
        no_nl(s),
    ensures
        no_nl(crate::text::trim_start(s)),
    decreases s.len(),
{
    if s.len() > 0 && is_unicode_whitespace(s[0]) {
        assert(no_nl(s.drop_first())) by {
            assert forall|i: int| 0 <= i < s.drop_first().len() implies #[trigger] s.drop_first()[i]
                != '\n' by {
                assert(s.drop_first()[i] == s[i + 1]);
            }
        }
        lemma_no_nl_trim_start(s.drop_first());
    }
}

proof fn lemma_no_nl_trim_end(s: Seq<char>)
    requires
        no_nl(s),
    ensures
        no_nl(crate::text::trim_end(s)),
    decreases s.len(),
{
    if s.len() > 0 && is_unicode_whitespace(s.last()) {
        lemma_no_nl_trim_end(s.drop_last());
    }
}

proof fn lemma_no_nl_replace(s: Seq<char>, from: Seq<char>, to: Seq<char>)
    requires
        no_nl(s),
        no_nl(to),
    ensures
        no_nl(replace_all(s, from, to)),
    decreases s.len(),
{
    if from.len() == 0 || s.len() == 0 {
    } else if from.len() <= s.len() && s.take(from.len() as int) == from {
        let rest = s.skip(from.len() as int);
        assert(no_nl(rest)) by {
            assert forall|i: int| 0 <= i < rest.len() implies #[trigger] rest[i] != '\n' by {
                assert(rest[i] == s[i + from.len()]);
            }
        }
        lemma_no_nl_replace(rest, from, to);
        let r = replace_all(rest, from, to);
        assert forall|i: int| 0 <= i < (to + r).len() implies #[trigger] (to + r)[i] != '\n' by {
            if i >= to.len() {
                assert((to + r)[i] == r[i - to.len()]);
            }
        }
    } else {
        let rest = s.drop_first();
        assert(no_nl(rest)) by {
            assert forall|i: int| 0 <= i < rest.len() implies #[trigger] rest[i] != '\n' by {
                assert(rest[i] == s[i + 1]);
            }
        }
        lemma_no_nl_replace(rest, from, to);
        let r = replace_all(rest, from, to);
        assert forall|i: int| 0 <= i < (seq![s[0]] + r).len() implies #[trigger] (seq![s[0]] + r)[i]
            != '\n' by {
            if i >= 1 {
                assert((seq![s[0]] + r)[i] == r[i - 1]);
            }
        }
    }
}

/// Pieces, trimmed parts and concatenations of newline-free text are
/// newline-free.
proof fn lemma_no_nl_closure()
    ensures
        forall|x: Seq<char>, n: int| no_nl(x) && 0 <= n <= x.len() ==> #[trigger] no_nl(x.take(n)),
        forall|x: Seq<char>, n: int| no_nl(x) && 0 <= n <= x.len() ==> #[trigger] no_nl(x.skip(n)),
        forall|x: Seq<char>| no_nl(x) ==> #[trigger] no_nl(trim(x)),
        forall|x: Seq<char>, y: Seq<char>| no_nl(x) && no_nl(y) ==> #[trigger] no_nl(x + y),
{
    assert forall|x: Seq<char>, n: int| no_nl(x) && 0 <= n <= x.len() implies #[trigger] no_nl(x.take(n)) by {
        assert forall|i: int| 0 <= i < x.take(n).len() implies #[trigger] x.take(n)[i] != '\n' by {
            assert(x.take(n)[i] == x[i]);
        }
    }
    assert forall|x: Seq<char>, n: int| no_nl(x) && 0 <= n <= x.len() implies #[trigger] no_nl(
        x.skip(n),
    ) by {
        assert forall|i: int| 0 <= i < x.skip(n).len() implies #[trigger] x.skip(n)[i] != '\n' by {
            assert(x.skip(n)[i] == x[i + n]);
        }
    }
    assert forall|x: Seq<char>| no_nl(x) implies #[trigger] no_nl(trim(x)) by {
        lemma_no_nl_trim(x);
    }
    assert forall|x: Seq<char>, y: Seq<char>| no_nl(x) && no_nl(y) implies #[trigger] no_nl(x + y) by {
        assert forall|i: int| 0 <= i < (x + y).len() implies #[trigger] (x + y)[i] != '\n' by {
            if i >= x.len() {
                assert((x + y)[i] == y[i - x.len()]);
            }
        }
    }
}

proof fn lemma_find_char_bound(s: Seq<char>, c: char)
    ensures
        crate::text::find_char(s, c) matches Some(i) ==> 0 <= i < s.len(),
    decreases s.len(),
{
    if s.len() > 0 && s[0] != c {
        lemma_find_char_bound(s.drop_first(), c);
    }
}

/// A lowered line has no newline when the line has none.
proof fn lemma_normalized_line_no_nl(line: Seq<char>)
    requires
        no_nl(line),
    ensures
        no_nl(normalized_line(line)),
{
    lemma_no_nl_closure();
    reveal_strlit(".state.");
    reveal_strlit("fn __mcfc_agent_event_");
    reveal_strlit("(");
    reveal_strlit(") -> void:");
    reveal_strlit("fn __mcfc_event_");
    reveal_strlit("() -> void:");
    reveal_strlit("fn __mcfc_command_");
    reveal_strlit("fn __mcfc_task_");
    reveal_strlit("_every_ticks_");
    reveal_strlit("_after_ticks_");
    reveal_strlit("player_state ");
    reveal_strlit(": ");
    reveal_strlit(" = \"");
    reveal_strlit("\"");
    assert(no_nl(".state."@));
    lemma_no_nl_replace(line, ".data."@, ".state."@);
    let t = trim(line);
    assert(no_nl(t));
    assert forall|x: Seq<char>, c: char| no_nl(x) implies (#[trigger] split_once(x, c) matches Some((a, b))
        ==> no_nl(a) && no_nl(b)) by {
        lemma_find_char_bound(x, c);
    }
    assert forall|x: Seq<char>, p: Seq<char>| no_nl(x) implies (#[trigger] strip_prefix(x, p) matches Some(
        r,
    ) ==> no_nl(r)) by {}
    assert forall|x: Seq<char>, p: Seq<char>| no_nl(x) implies (#[trigger] strip_suffix(x, p) matches Some(
        r,
    ) ==> no_nl(r)) by {}
    assert(no_nl("fn __mcfc_agent_event_"@) && no_nl("("@) && no_nl(") -> void:"@));
    assert(no_nl("fn __mcfc_event_"@) && no_nl("() -> void:"@) && no_nl("fn __mcfc_command_"@));
    assert(no_nl("fn __mcfc_task_"@) && no_nl("_every_ticks_"@) && no_nl("_after_ticks_"@));
    assert(no_nl("player_state "@) && no_nl(": "@) && no_nl(" = \""@) && no_nl("\""@));
    assert(agent_declaration(t) matches Some((k, p)) ==> no_nl(k) && no_nl(p));
    assert(event_declaration(t) matches Some(l) ==> no_nl(l));
    assert(command_declaration(t) matches Some(l) ==> no_nl(l));
    assert(forall|sch: Seq<char>, pre: Seq<char>| no_nl(sch) ==> (#[trigger] schedule_ticks(sch, pre) matches Some(
        k,
    ) ==> no_nl(k)));
    assert(task_declaration(t) matches Some(l) ==> no_nl(l));
    assert(data_declaration(t) matches Some(l) ==> no_nl(l));
}

proof fn lemma_replace_nonempty(s: Seq<char>, from: Seq<char>, to: Seq<char>)
    requires
        s.len() > 0,
        to.len() > 0,
    ensures
        replace_all(s, from, to).len() > 0,
{
}

/// A line that is not empty lowers to a line that is not empty.
proof fn lemma_normalized_line_nonempty(line: Seq<char>)
    requires
        line.len() > 0,
    ensures
        normalized_line(line).len() > 0,
{
    reveal_strlit(".state.");
    reveal_strlit("fn __mcfc_agent_event_");
    reveal_strlit("fn __mcfc_event_");
    reveal_strlit("fn __mcfc_command_");
    reveal_strlit("fn __mcfc_task_");
    reveal_strlit("player_state ");
    lemma_replace_nonempty(line, ".data."@, ".state."@);
}

proof fn lemma_line_end_clear(cs: Seq<char>, j: int)
    requires
        0 <= j <= cs.len(),
    ensures
        no_nl(cs.subrange(j, line_end(cs, j))),
    decreases cs.len() - j,
{
    crate::lexer::lemma_line_end(cs, j);
    if j < cs.len() && cs[j] != '\n' {
        lemma_line_end_clear(cs, j + 1);
        let q = line_end(cs, j);
        assert forall|i: int| 0 <= i < q - j implies #[trigger] cs.subrange(j, q)[i] != '\n' by {
            if i > 0 {
                assert(cs.subrange(j, q)[i] == cs.subrange(j + 1, q)[i - 1]);
            }
        }
    }
}

/// The lines from `p` have no newline, and the newlines from `p` are one
/// fewer than the lines, or as many when the text ends with a newline.
proof fn lemma_lines_from(s: Seq<char>, p: int)
    requires
        0 <= p < s.len(),
    ensures
        forall|k: int| 0 <= k < lines_from(s, p).len() ==> no_nl(#[trigger] lines_from(s, p)[k]),
        lines_from(s, p).len() >= 1,
        nl_count(s.skip(p)) + 1 == lines_from(s, p).len() + if s.last() == '\n' {
            1int
        } else {
            0int
        },
        s.last() != '\n' ==> lines_from(s, p).last().len() > 0,
    decreases s.len() - p,
{
    lemma_no_nl_closure();
    crate::lexer::lemma_line_end(s, p);
    lemma_line_end_clear(s, p);
    let q = line_end(s, p);
    let piece = s.subrange(p, q);
    if q >= s.len() {
        assert(s.skip(p) =~= piece);
        lemma_nl_count_none(piece);
        assert(s.last() == s[s.len() - 1]);
        assert(s.last() == piece[piece.len() - 1]);
    } else {
        assert(s.skip(p) =~= piece + seq!['\n'] + s.skip(q + 1));
        lemma_nl_count_concat(piece + seq!['\n'], s.skip(q + 1));
        lemma_nl_count_concat(piece, seq!['\n']);
        lemma_nl_count_none(piece);
        lemma_nl_count_one();
        if q + 1 < s.len() {
            lemma_lines_from(s, q + 1);
            let rest = lines_from(s, q + 1);
            assert(lines_from(s, p).last() == rest.last());
        } else {
            assert(s.skip(q + 1) =~= Seq::<char>::empty());
            assert(s.last() == s[q]);
        }
    }
}

proof fn lemma_join_nl(xs: Seq<Seq<char>>)
    requires
        xs.len() >= 1,
        forall|k: int| 0 <= k < xs.len() ==> no_nl(#[trigger] xs[k]),
    ensures
        nl_count(join(xs, "\n"@)) + 1 == xs.len(),
    decreases xs.len(),
{
    reveal_strlit("\n");
    if xs.len() == 1 {
        lemma_nl_count_none(xs[0]);
    } else {
        lemma_join_nl(xs.drop_last());
        let j = join(xs.drop_last(), "\n"@);
        lemma_nl_count_concat(j + "\n"@, xs.last());
        lemma_nl_count_concat(j, "\n"@);
        lemma_nl_count_one();
        assert("\n"@ =~= seq!['\n']);
        lemma_nl_count_none(xs.last());
    }
}

/// `normalize_bukkit_declarations_source` keeps the line structure of its
/// source: the result has as many newlines as the source, and a final
/// newline exactly where the source has one.
pub proof fn law_normalizing_keeps_newlines(s: Seq<char>)
    ensures
        nl_count(normalized_source(s)) == nl_count(s),
        (normalized_source(s).len() > 0 && normalized_source(s).last() == '\n') <==> (s.len() > 0
            && s.last() == '\n'),
{
    reveal_strlit("\n");
    let ls = lines_from(s, 0);
    let ys = ls.map_values(|l: Seq<char>| normalized_line(l));
    let tail = if s.len() > 0 && s.last() == '\n' {
        "\n"@
    } else {
        Seq::<char>::empty()
    };
    if s.len() == 0 {
        assert(ls =~= Seq::<Seq<char>>::empty());
        assert(ys =~= Seq::<Seq<char>>::empty());
        assert(normalized_source(s) =~= Seq::<char>::empty());
    } else {
        lemma_lines_from(s, 0);
        assert(s.skip(0) =~= s);
        assert forall|k: int| 0 <= k < ys.len() implies no_nl(#[trigger] ys[k]) by {
            lemma_normalized_line_no_nl(ls[k]);
        }
        lemma_join_nl(ys);
        let j = join(ys, "\n"@);
        lemma_nl_count_concat(j, tail);
        if s.last() == '\n' {
            lemma_nl_count_one();
            assert(tail =~= seq!['\n']);
            assert((j + tail).last() == '\n');
        } else {
            assert(tail.len() == 0);
            assert(j + tail =~= j);
            let y = ys.last();
            lemma_normalized_line_nonempty(ls.last());
            assert(y == normalized_line(ls.last()));
            assert(no_nl(y));
            if ys.len() == 1 {
                assert(j == y);
            } else {
                assert(j == join(ys.drop_last(), "\n"@) + "\n"@ + y);
            }
            assert(j.last() == y[y.len() - 1]);
        }
    }
}

} // verus!

verus! {

/// The `[helper.agent]` section of a project manifest.
#[derive(Debug, Clone, PartialEq, Eq)]
pub struct AgentConfig {
    pub enabled: bool,
    pub events: Vec<String>,
    pub commands: Vec<String>,
    pub cancel_events: Vec<String>,
}

/// The `[helper]` section of a project manifest.
#[derive(Debug, Clone, PartialEq, Eq)]
pub struct HelperConfig {
    pub agent: Option<AgentConfig>,
}

impl Default for HelperConfig {
    fn default() -> (r: Self)
        ensures
            r.agent is None,
    {
        HelperConfig { agent: None }
    }
}

/// Options of one compilation.
#[derive(Debug, Clone)]
pub struct CompileOptions {
    pub namespace: String,
    pub emit_ast: bool,
    pub emit_ir: bool,
    pub clean: bool,
    pub load_tag_values: Option<Vec<String>>,
    pub tick_tag_values: Option<Vec<String>>,
    pub exports: Vec<crate::backend::ExportedFunction>,
    pub optimize: bool,
    pub helper: Option<HelperConfig>,
}

impl Default for CompileOptions {
    fn default() -> (r: Self)
        ensures
            r.namespace@ == "mcfc"@,
            !r.emit_ast,
            !r.emit_ir,
            !r.clean,
            r.load_tag_values is None,
            r.tick_tag_values is None,
            r.exports@.len() == 0,
            r.optimize,
            r.helper is None,
    {
        CompileOptions {
            namespace: string_of("mcfc"),
            emit_ast: false,
            emit_ir: false,
            clean: false,
            load_tag_values: None,
            tick_tag_values: None,
            exports: Vec::new(),
            optimize: true,
            helper: None,
        }
    }
}

/// Messages for unknown agent events, in order.
pub open spec fn unknown_event_messages(events: Seq<String>) -> Seq<Seq<char>>
    decreases events.len(),
{
    if events.len() == 0 {
        Seq::empty()
    } else {
        let rest = unknown_event_messages(events.drop_last());
        let e = events.last()@;
        if is_agent_event(e) {
            rest
        } else {
            rest.push("unknown 26.2 agent event '"@ + e + "'"@)
        }
    }
}

/// Messages for agent commands that are not identifiers, in order.
pub open spec fn bad_command_messages(commands: Seq<String>) -> Seq<Seq<char>>
    decreases commands.len(),
{
    if commands.len() == 0 {
        Seq::empty()
    } else {
        let rest = bad_command_messages(commands.drop_last());
        let c = commands.last()@;
        if is_identifier(c) {
            rest
        } else {
            rest.push("agent command '"@ + c + "' is not a valid command identifier"@)
        }
    }
}

pub open spec fn cancel_events_removed_message() -> Seq<char> {
    "[helper.agent].cancel_events was removed; it cannot cancel observation-only events. Call event.cancel() inside a cancellable typed event handler instead"@
}

/// Everything wrong with an agent section, in reporting order.
pub open spec fn agent_manifest_messages(agent: AgentConfig) -> Seq<Seq<char>> {
    unknown_event_messages(agent.events@) + (if agent.cancel_events@.len() > 0 {
        seq![cancel_events_removed_message()]
    } else {
        Seq::empty()
    }) + bad_command_messages(agent.commands@)
}

/// The messages of a list of diagnostics.
pub open spec fn messages_of(ds: Seq<Diagnostic>) -> Seq<Seq<char>> {
    ds.map_values(|d: Diagnostic| d.message@)
}

/// All diagnostics are at line 1, column 1.
pub open spec fn all_at_start(ds: Seq<Diagnostic>) -> bool {
    forall|i: int| 0 <= i < ds.len() ==> #[trigger] ds[i].span == (Span { line: 1, column: 1, range: TextRange { start: 0, end: 0 } })
}

fn push_message(diagnostics: &mut Diagnostics, message: String)
    requires
        all_at_start(old(diagnostics).0@),
    ensures
        messages_of(final(diagnostics).0@) == messages_of(old(diagnostics).0@).push(message@),
        all_at_start(final(diagnostics).0@),
{
    let span = Span::new(1, 1);
    diagnostics.push(Diagnostic::new(message, span));
    assert(messages_of(diagnostics.0@) =~= messages_of(old(diagnostics).0@).push(message@));
}

/// Checks the agent section of the helper manifest, if there is one.
pub fn validate_agent_manifest(options: &CompileOptions) -> (r: Result<(), Diagnostics>)
    ensures
        match options.helper {
            Some(helper) => match helper.agent {
                Some(agent) => match r {
                    Ok(_) => agent_manifest_messages(agent).len() == 0,
                    Err(ds) => agent_manifest_messages(agent).len() > 0 && messages_of(ds.0@)
                        == agent_manifest_messages(agent) && all_at_start(ds.0@),
                },
                None => r is Ok,
            },
            None => r is Ok,
        },
{
    let agent = match &options.helper {
        Some(helper) => match &helper.agent {
            Some(agent) => agent,
            None => return Ok(()),
        },
        None => return Ok(()),
    };
    let mut diagnostics = Diagnostics::new();
    let mut i: usize = 0;
    while i < agent.events.len()
        invariant
            0 <= i <= agent.events@.len(),
            messages_of(diagnostics.0@) == unknown_event_messages(agent.events@.take(i as int)),
            all_at_start(diagnostics.0@),
        decreases agent.events@.len() - i,
    {
        let event = &agent.events[i];
        assert(agent.events@.take(i + 1).drop_last() =~= agent.events@.take(i as int));
        if agent_event_payload_type(event.as_str()).is_none() {
            let mut m = string_of("unknown 26.2 agent event '");
            push_str(&mut m, event.as_str());
            push_str(&mut m, "'");
            push_message(&mut diagnostics, m);
        }
        i = i + 1;
    }
    assert(agent.events@.take(i as int) =~= agent.events@);
    if agent.cancel_events.len() > 0 {
        push_message(
            &mut diagnostics,
            string_of(
                "[helper.agent].cancel_events was removed; it cannot cancel observation-only events. Call event.cancel() inside a cancellable typed event handler instead",
            ),
        );
    }
    let ghost mid = messages_of(diagnostics.0@);
    let mut j: usize = 0;
    while j < agent.commands.len()
        invariant
            0 <= j <= agent.commands@.len(),
            messages_of(diagnostics.0@) == mid + bad_command_messages(
                agent.commands@.take(j as int),
            ),
            all_at_start(diagnostics.0@),
        decreases agent.commands@.len() - j,
    {
        let command = &agent.commands[j];
        assert(agent.commands@.take(j + 1).drop_last() =~= agent.commands@.take(j as int));
        if !is_mcfc_identifier(command.as_str()) {
            let mut m = string_of("agent command '");
            push_str(&mut m, command.as_str());
            push_str(&mut m, "' is not a valid command identifier");
            push_message(&mut diagnostics, m);
        }
        j = j + 1;
    }
    assert(agent.commands@.take(j as int) =~= agent.commands@);
    assert(messages_of(diagnostics.0@) =~= agent_manifest_messages(*agent));
    diagnostics.into_result(())
}

/// Whether the helper manifest enables the agent.
pub open spec fn agent_enabled(options: CompileOptions) -> bool {
    match options.helper {
        Some(helper) => match helper.agent {
            Some(agent) => agent.enabled,
            None => false,
        },
        None => false,
    }
}

pub open spec fn agent_disabled_message() -> Seq<char> {
    "agent event declarations require '[helper.agent] enabled = true'"@
}

/// The checks `compile_source` makes before parsing: lowers the declarations,
/// refuses agent events when the manifest does not enable the agent, and
/// validates the agent section. Returns the lowered source.
pub fn prepare_source(source: &str, options: &CompileOptions) -> (r: Result<String, Diagnostics>)
    ensures
        ({
            let normalized = normalized_source(source@);
            let gated = contains_seq(normalized, "fn __mcfc_agent_event_"@) && !agent_enabled(
                *options,
            );
            if gated {
                r matches Err(ds) && messages_of(ds.0@) == seq![agent_disabled_message()]
                    && all_at_start(ds.0@)
            } else {
                match options.helper {
                    Some(helper) => match helper.agent {
                        Some(agent) => if agent_manifest_messages(agent).len() > 0 {
                            r matches Err(ds) && messages_of(ds.0@) == agent_manifest_messages(
                                agent,
                            ) && all_at_start(ds.0@)
                        } else {
                            r matches Ok(s) && s@ == normalized
                        },
                        None => r matches Ok(s) && s@ == normalized,
                    },
                    None => r matches Ok(s) && s@ == normalized,
                }
            }
        }),
{
    let normalized = normalize_bukkit_declarations_source(source);
    let ncs = chars_of(normalized.as_str());
    let enabled = match &options.helper {
        Some(helper) => match &helper.agent {
            Some(agent) => agent.enabled,
            None => false,
        },
        None => false,
    };
    if contains_str(ncs.as_slice(), "fn __mcfc_agent_event_") && !enabled {
        let mut diagnostics = Diagnostics::new();
        push_message(
            &mut diagnostics,
            string_of("agent event declarations require '[helper.agent] enabled = true'"),
        );
        assert(messages_of(diagnostics.0@) =~= seq![agent_disabled_message()]);
        return Err(diagnostics);
    }
    match validate_agent_manifest(options) {
        Ok(()) => Ok(normalized),
        Err(ds) => Err(ds),
    }
}

/// Whether `f` is a `tick` function.
pub open spec fn is_tick(f: Function) -> bool {
    f.name@ == "tick"@
}

/// Whether `f` is the zero-argument `tick() -> void` datapack tick function.
pub open spec fn is_tick_void(f: Function) -> bool {
    is_tick(f) && f.params@.len() == 0 && f.return_type is Void
}

pub open spec fn has_tick_void(fs: Seq<Function>) -> bool {
    exists|i: int| 0 <= i < fs.len() && is_tick_void(#[trigger] fs[i])
}

/// Index of the first zero-argument `tick` function.
pub open spec fn first_tick_void(fs: Seq<Function>) -> int
    decreases fs.len(),
{
    if fs.len() == 0 {
        0
    } else if is_tick_void(fs[0]) {
        0
    } else {
        first_tick_void(fs.drop_first()) + 1
    }
}

/// The functions that are not zero-argument `tick` functions, in order.
pub open spec fn without_tick_void(fs: Seq<Function>) -> Seq<Function>
    decreases fs.len(),
{
    if fs.len() == 0 {
        Seq::empty()
    } else if is_tick_void(fs.last()) {
        without_tick_void(fs.drop_last())
    } else {
        without_tick_void(fs.drop_last()).push(fs.last())
    }
}

/// The bodies of the zero-argument `tick` functions, concatenated in order.
pub open spec fn tick_bodies(fs: Seq<Function>) -> Seq<crate::ast::Stmt>
    decreases fs.len(),
{
    if fs.len() == 0 {
        Seq::empty()
    } else if is_tick_void(fs.last()) {
        tick_bodies(fs.drop_last()) + fs.last().body@
    } else {
        tick_bodies(fs.drop_last())
    }
}

/// Spans of the `tick` functions that are not `tick() -> void`.
pub open spec fn reserved_tick_spans(fs: Seq<Function>) -> Seq<Span>
    decreases fs.len(),
{
    if fs.len() == 0 {
        Seq::empty()
    } else if is_tick(fs.last()) && !is_tick_void(fs.last()) {
        reserved_tick_spans(fs.drop_last()).push(fs.last().span)
    } else {
        reserved_tick_spans(fs.drop_last())
    }
}

/// Spans of the zero-argument `tick` functions that do not return `void`.
pub open spec fn non_void_tick_spans(fs: Seq<Function>) -> Seq<Span>
    decreases fs.len(),
{
    if fs.len() == 0 {
        Seq::empty()
    } else if is_tick(fs.last()) && fs.last().params@.len() == 0 && !(fs.last().return_type is Void) {
        non_void_tick_spans(fs.drop_last()).push(fs.last().span)
    } else {
        non_void_tick_spans(fs.drop_last())
    }
}

pub open spec fn reserved_tick_message() -> Seq<char> {
    "tick() is reserved for the datapack tick function when a zero-argument tick function is present"@
}

pub open spec fn tick_void_message() -> Seq<char> {
    "tick() must return 'void'"@
}

/// Diagnostics all carrying `message`, at `spans`.
pub open spec fn reported_at(ds: Seq<Diagnostic>, message: Seq<char>, spans: Seq<Span>) -> bool {
    &&& ds.len() == spans.len()
    &&& forall|i: int|
        0 <= i < ds.len() ==> #[trigger] ds[i].message@ == message && ds[i].span == spans[i]
}

fn is_tick_fn(f: &Function) -> (r: bool)
    ensures
        r == is_tick(*f),
{
    str_eq(f.name.as_str(), "tick")
}

fn is_tick_void_fn(f: &Function) -> (r: bool)
    ensures
        r == is_tick_void(*f),
{
    is_tick_fn(f) && f.params.len() == 0 && match f.return_type {
        Type::Void => true,
        _ => false,
    }
}

/// Merges every zero-argument `tick() -> void` function into one `tick`
/// (at the first one's position, bodies in order) and reports the other
/// `tick` overloads; without such a function, reports a zero-argument `tick`
/// that does not return `void`.
pub fn normalize_special_functions(program: Program) -> (r: Result<Program, Diagnostics>)
    ensures
        ({
            let fs = program.functions@;
            if has_tick_void(fs) {
                let first = first_tick_void(fs);
                let spans = reserved_tick_spans(fs);
                if spans.len() > 0 {
                    r matches Err(ds) && reported_at(ds.0@, reserved_tick_message(), spans)
                } else {
                    r matches Ok(p) && p.structs == program.structs && p.player_states
                        == program.player_states && p.functions@.len() == first + 1
                        + without_tick_void(fs.skip(first)).len() && p.functions@.take(first)
                        == fs.take(first) && p.functions@[first].name@ == "tick"@
                        && p.functions@[first].params@.len() == 0
                        && p.functions@[first].return_type is Void && p.functions@[first].body@
                        == tick_bodies(fs) && p.functions@[first].span == fs[first].span
                        && p.functions@.skip(first + 1) == without_tick_void(fs.skip(first))
                }
            } else {
                let spans = non_void_tick_spans(fs);
                if spans.len() > 0 {
                    r matches Err(ds) && reported_at(ds.0@, tick_void_message(), spans)
                } else {
                    r matches Ok(p) && p == program
                }
            }
        }),
{
    let mut diagnostics = Diagnostics::new();
    let n = program.functions.len();
    let ghost fs = program.functions@;
    // locate the first zero-argument tick function
    let mut first: usize = 0;
    while first < n && !is_tick_void_fn(&program.functions[first])
        invariant
            n == fs.len(),
            fs == program.functions@,
            first <= n,
            forall|k: int| 0 <= k < first ==> !is_tick_void(#[trigger] fs[k]),
        decreases n - first,
    {
        first = first + 1;
    }
    if first == n {
        // no tick() -> void: only report a zero-argument tick returning a value
        assert(!has_tick_void(fs));
        let mut i: usize = 0;
        while i < n
            invariant
                n == fs.len(),
                fs == program.functions@,
                i <= n,
                reported_at(diagnostics.0@, tick_void_message(), non_void_tick_spans(fs.take(i as int))),
            decreases n - i,
        {
            let f = &program.functions[i];
            let ghost t = fs.take(i + 1);
            assert(t.drop_last() =~= fs.take(i as int));
            assert(t.last() == fs[i as int]);
            let returns_value = match f.return_type {
                Type::Void => false,
                _ => true,
            };
            if is_tick_fn(f) && f.params.len() == 0 && returns_value {
                diagnostics.push(Diagnostic::new(string_of("tick() must return 'void'"), f.span));
                assert(non_void_tick_spans(t) == non_void_tick_spans(fs.take(i as int)).push(
                    fs[i as int].span,
                ));
            } else {
                assert(non_void_tick_spans(t) == non_void_tick_spans(fs.take(i as int)));
            }
            i = i + 1;
        }
        assert(fs.take(n as int) =~= fs);
        return diagnostics.into_result(program);
    }
    proof {
        assert(is_tick_void(fs[first as int]));
        assert(has_tick_void(fs));
        lemma_first_tick_void_skip(fs, first as int);
    }
    let Program { structs, player_states, functions } = program;
    let mut functions = functions;
    let mut out: Vec<Function> = Vec::new();
    let mut tail: Vec<Function> = Vec::new();
    let mut body: Vec<crate::ast::Stmt> = Vec::new();
    let first_span = functions[first].span;
    let mut i: usize = 0;
    while i < n
        invariant
            n == fs.len(),
            first < n,
            is_tick_void(fs[first as int]),
            first_span == fs[first as int].span,
            i <= n,
            functions@ == fs.skip(i as int),
            i <= first ==> out@ == fs.take(i as int),
            i > first ==> out@ == fs.take(first as int),
            i <= first ==> tail@.len() == 0,
            i > first ==> tail@ == without_tick_void(fs.subrange(first as int, i as int)),
            body@ == tick_bodies(fs.take(i as int)),
            forall|k: int| 0 <= k < first ==> !is_tick_void(#[trigger] fs[k]),
            reported_at(diagnostics.0@, reserved_tick_message(), reserved_tick_spans(fs.take(i as int))),
        decreases n - i,
    {
        assert(fs.take(i + 1).drop_last() =~= fs.take(i as int));
        assert(fs.take(i + 1).last() == fs[i as int]);
        if i >= first {
            assert(fs.subrange(first as int, i + 1).last() == fs[i as int]);
        }
        assert(functions@[0] == fs[i as int]);
        let f = functions.remove(0);
        assert(functions@ =~= fs.skip(i + 1));
        let tick = is_tick_fn(&f);
        let tick_void = is_tick_void_fn(&f);
        if tick && !tick_void {
            diagnostics.push(
                Diagnostic::new(
                    string_of(
                        "tick() is reserved for the datapack tick function when a zero-argument tick function is present",
                    ),
                    f.span,
                ),
            );
            assert(reserved_tick_spans(fs.take(i + 1)) == reserved_tick_spans(
                fs.take(i as int),
            ).push(fs[i as int].span));
        } else {
            assert(reserved_tick_spans(fs.take(i + 1)) == reserved_tick_spans(fs.take(i as int)));
        }
        if tick_void {
            let Function { name: _, params: _, return_type: _, body: mut fbody, span: _ } = f;
            body.append(&mut fbody);
            if i > first {
                assert(fs.subrange(first as int, i + 1).drop_last() =~= fs.subrange(
                    first as int,
                    i as int,
                ));
            }
        } else if i < first {
            out.push(f);
            assert(out@ =~= fs.take(i + 1));
        } else {
            assert(i > first);
            tail.push(f);
            assert(fs.subrange(first as int, i + 1).drop_last() =~= fs.subrange(
                first as int,
                i as int,
            ));
        }
        if i == first {
            let ghost one = fs.subrange(first as int, i + 1);
            assert(one.drop_last() =~= Seq::<Function>::empty());
            assert(one.last() == fs[first as int]);
            assert(without_tick_void(Seq::<Function>::empty()) == Seq::<Function>::empty());
            assert(without_tick_void(one) == without_tick_void(one.drop_last()));
        }
        i = i + 1;
    }
    assert(fs.take(n as int) =~= fs);
    assert(fs.subrange(first as int, n as int) =~= fs.skip(first as int));
    let merged = Function {
        name: string_of("tick"),
        params: Vec::new(),
        return_type: Type::Void,
        body,
        span: first_span,
    };
    out.push(merged);
    out.append(&mut tail);
    let ghost result = out@;
    assert(result.take(first as int) =~= fs.take(first as int));
    assert(result.skip(first + 1) =~= without_tick_void(fs.skip(first as int)));
    let program = Program { structs, player_states, functions: out };
    diagnostics.into_result(program)
}

proof fn lemma_first_tick_void_skip(fs: Seq<Function>, first: int)
    requires
        0 <= first < fs.len(),
        is_tick_void(fs[first]),
        forall|k: int| 0 <= k < first ==> !is_tick_void(#[trigger] fs[k]),
    ensures
        first_tick_void(fs) == first,
    decreases first,
{
    if first > 0 {
        assert forall|k: int| 0 <= k < first - 1 implies !is_tick_void(
            #[trigger] fs.drop_first()[k],
        ) by {
            assert(fs.drop_first()[k] == fs[k + 1]);
        }
        lemma_first_tick_void_skip(fs.drop_first(), first - 1);
    }
}

/// Each diagnostic rendered against `source`, separated by blank lines.
pub fn render_diagnostics(diagnostics: &Diagnostics, source: &str) -> (r: String)
    requires
        crate::text::byte_len(source@) <= usize::MAX,
        forall|i: int|
            0 <= i < diagnostics.0@.len() ==> crate::diagnostics::renderable(
                #[trigger] diagnostics.0@[i],
                source@,
            ),
    ensures
        r@ == join(
            diagnostics.0@.map_values(
                |d: Diagnostic| crate::diagnostics::rendered_text(d, source@),
            ),
            "\n\n"@,
        ),
{
    let mut out = String::new();
    let ghost f = |d: Diagnostic| crate::diagnostics::rendered_text(d, source@);
    let mut i: usize = 0;
    while i < diagnostics.0.len()
        invariant
            0 <= i <= diagnostics.0@.len(),
            crate::text::byte_len(source@) <= usize::MAX,
            forall|i: int|
                0 <= i < diagnostics.0@.len() ==> crate::diagnostics::renderable(
                    #[trigger] diagnostics.0@[i],
                    source@,
                ),
            f == (|d: Diagnostic| crate::diagnostics::rendered_text(d, source@)),
            out@ == join(diagnostics.0@.take(i as int).map_values(f), "\n\n"@),
        decreases diagnostics.0@.len() - i,
    {
        let ghost before = out@;
        if i > 0 {
            push_str(&mut out, "\n\n");
        }
        let text = diagnostics.0[i].render(source);
        push_str(&mut out, text.as_str());
        proof {
            let xs = diagnostics.0@.take(i + 1).map_values(f);
            assert(xs.drop_last() =~= diagnostics.0@.take(i as int).map_values(f));
            assert(out@ =~= join(xs, "\n\n"@));
        }
        i = i + 1;
    }
    assert(diagnostics.0@.take(i as int) =~= diagnostics.0@);
    out
}


/// One file of a project's merged source: a `# source:` line naming it,
/// its text ending in a newline, and a blank line.
pub open spec fn merged_piece(path: Seq<char>, source: Seq<char>) -> Seq<char> {
    "# source: "@ + path + "\n"@ + source + (if source.len() > 0 && source.last() == '\n' {
        Seq::empty()
    } else {
        "\n"@
    }) + "\n"@
}

/// The merged source of a project's files, in order.
pub open spec fn merged_sources(files: Seq<(Seq<char>, Seq<char>)>) -> Seq<char>
    decreases files.len(),
{
    if files.len() == 0 {
        Seq::empty()
    } else {
        merged_sources(files.drop_last()) + merged_piece(files.last().0, files.last().1)
    }
}

/// Merges a project's source files, each given by the path it is shown
/// under and its text (see [`merged_sources`]).
pub fn merge_project_sources(files: &[(String, String)]) -> (r: String)
    ensures
        r@ == merged_sources(files@.map_values(|f: (String, String)| (f.0@, f.1@))),
{
    let ghost fs = files@.map_values(|f: (String, String)| (f.0@, f.1@));
    let mut merged = String::new();
    let mut i: usize = 0;
    while i < files.len()
        invariant
            i <= files@.len(),
            fs == files@.map_values(|f: (String, String)| (f.0@, f.1@)),
            merged@ == merged_sources(fs.take(i as int)),
        decreases files@.len() - i,
    {
        let ghost before = merged@;
        let source = files[i].1.as_str();
        push_str(&mut merged, "# source: ");
        push_str(&mut merged, files[i].0.as_str());
        push_str(&mut merged, "\n");
        push_str(&mut merged, source);
        let cs = chars_of(source);
        if !(cs.len() > 0 && cs[cs.len() - 1] == '\n') {
            push_str(&mut merged, "\n");
        }
        push_str(&mut merged, "\n");
        proof {
            assert(fs.take(i + 1).drop_last() =~= fs.take(i as int));
            assert(merged@ =~= before + merged_piece(files@[i as int].0@, files@[i as int].1@));
        }
        i = i + 1;
    }
    assert(fs.take(files@.len() as int) =~= fs);
    merged
}


/// The output directory as given: paths are written where the user named
/// them.
pub fn canonicalize_output_path(out_dir: &str) -> (r: String)
    ensures
        r@ == out_dir@,
{
    string_of(out_dir)
}


proof fn lemma_find_char_at(a: Seq<char>, b: Seq<char>, c: char)
    requires
        forall|i: int| 0 <= i < a.len() ==> #[trigger] a[i] != c,
        b.len() > 0,
        b[0] == c,
    ensures
        crate::text::find_char(a + b, c) == Some(a.len() as int),
    decreases a.len(),
{
    if a.len() > 0 {
        assert((a + b).drop_first() =~= a.drop_first() + b);
        assert((a + b)[0] == a[0]);
        lemma_find_char_at(a.drop_first(), b, c);
    } else {
        assert(a + b =~= b);
    }
}

/// The pieces a task line `task N <open>T):` is read into.
proof fn lemma_task_pieces(name: Seq<char>, open: Seq<char>, ticks: Seq<char>)
    requires
        forall|i: int| 0 <= i < name.len() ==> #[trigger] name[i] != ' ',
        parse_u32(ticks) matches Some(n) && n > 0,
        open.len() == 12,
    ensures
        strip_prefix("task "@ + name + " "@ + open + ticks + "):"@, "task "@) == Some(
            name + (" "@ + open + ticks + "):"@),
        ),
        split_once(name + (" "@ + open + ticks + "):"@), ' ') == Some(
            (name, open + ticks + "):"@),
        ),
        schedule_ticks(open + ticks + "):"@, open) == Some(ticks),
{
    reveal_strlit("task ");
    reveal_strlit(" ");
    reveal_strlit("):");
    let line = "task "@ + name + " "@ + open + ticks + "):"@;
    let tail = " "@ + open + ticks + "):"@;
    assert(line =~= "task "@ + (name + tail));
    assert(line.take(5) =~= "task "@);
    assert(line.skip(5) =~= name + tail);
    assert(tail[0] == ' ');
    lemma_find_char_at(name, tail, ' ');
    assert((name + tail).take(name.len() as int) =~= name);
    assert((name + tail).skip(name.len() as int + 1) =~= open + ticks + "):"@);
    let schedule = open + ticks + "):"@;
    assert(schedule.take(12) =~= open);
    assert(schedule.skip(12) =~= ticks + "):"@);
    assert((ticks + "):"@).skip(ticks.len() as int) =~= "):"@);
    assert((ticks + "):"@).take(ticks.len() as int) =~= ticks);
}

/// A task line is its own trim, and no event or command declaration
/// reads it.
proof fn lemma_task_line_plain(line: Seq<char>)
    requires
        line.len() > 5,
        line.take(5) == "task "@,
        line.last() == ':',
    ensures
        trim(line) == line,
        agent_declaration(line) is None,
        event_declaration(line) is None,
        command_declaration(line) is None,
{
    reveal_strlit("task ");
    reveal_strlit("event ");
    reveal_strlit("command ");
    assert(line[0] == line.take(5)[0]);
    assert(line[0] == 't');
    assert(crate::text::trim_start(line) == line);
    assert(crate::text::trim_end(line) == line);
    assert(strip_prefix(line, "event "@) is None) by {
        if 6 <= line.len() {
            assert(line.take(6)[0] != "event "@[0]);
        }
    }
    assert(strip_prefix(line, "command "@) is None) by {
        if 8 <= line.len() {
            assert(line.take(8)[0] != "command "@[0]);
        }
    }
}

/// A task declaration `task N every_ticks(T):` or `task N after_ticks(T):`
/// lowers to the function `__mcfc_task_N_every_ticks_T` or
/// `__mcfc_task_N_after_ticks_T` respectively: the schedule word is kept.
pub proof fn law_task_keeps_its_schedule(name: Seq<char>, ticks: Seq<char>)
    requires
        forall|i: int| 0 <= i < name.len() ==> #[trigger] name[i] != ' ',
        parse_u32(ticks) matches Some(n) && n > 0,
    ensures
        normalized_line("task "@ + name + " every_ticks("@ + ticks + "):"@) == "fn __mcfc_task_"@
            + name + "_every_ticks_"@ + ticks + "() -> void:"@,
        normalized_line("task "@ + name + " after_ticks("@ + ticks + "):"@) == "fn __mcfc_task_"@
            + name + "_after_ticks_"@ + ticks + "() -> void:"@,
{
    lemma_task_every(name, ticks);
    lemma_task_after(name, ticks);
}

proof fn lemma_task_every(name: Seq<char>, ticks: Seq<char>)
    requires
        forall|i: int| 0 <= i < name.len() ==> #[trigger] name[i] != ' ',
        parse_u32(ticks) matches Some(n) && n > 0,
    ensures
        normalized_line("task "@ + name + " every_ticks("@ + ticks + "):"@) == "fn __mcfc_task_"@
            + name + "_every_ticks_"@ + ticks + "() -> void:"@,
{
    reveal_strlit(" every_ticks(");
    reveal_strlit("every_ticks(");
    reveal_strlit(" ");
    reveal_strlit("task ");
    reveal_strlit("):");
    let open = "every_ticks("@;
    let line = "task "@ + name + " every_ticks("@ + ticks + "):"@;
    assert(line =~= "task "@ + name + " "@ + open + ticks + "):"@);
    lemma_task_pieces(name, open, ticks);
    assert(line.take(5) =~= "task "@);
    assert(line.last() == ':');
    lemma_task_line_plain(line);
}

proof fn lemma_task_after(name: Seq<char>, ticks: Seq<char>)
    requires
        forall|i: int| 0 <= i < name.len() ==> #[trigger] name[i] != ' ',
        parse_u32(ticks) matches Some(n) && n > 0,
    ensures
        normalized_line("task "@ + name + " after_ticks("@ + ticks + "):"@) == "fn __mcfc_task_"@
            + name + "_after_ticks_"@ + ticks + "() -> void:"@,
{
    reveal_strlit(" after_ticks(");
    reveal_strlit("after_ticks(");
    reveal_strlit("every_ticks(");
    reveal_strlit(" ");
    reveal_strlit("task ");
    reveal_strlit("):");
    let open = "after_ticks("@;
    let line = "task "@ + name + " after_ticks("@ + ticks + "):"@;
    assert(line =~= "task "@ + name + " "@ + open + ticks + "):"@);
    lemma_task_pieces(name, open, ticks);
    let schedule = open + ticks + "):"@;
    assert(schedule_ticks(schedule, "every_ticks("@) is None) by {
        assert(schedule.take(12)[0] != "every_ticks("@[0]);
    }
    assert(line.take(5) =~= "task "@);
    assert(line.last() == ':');
    lemma_task_line_plain(line);
}


proof fn lemma_find_char_none(a: Seq<char>, c: char)
    requires
        forall|i: int| 0 <= i < a.len() ==> #[trigger] a[i] != c,
    ensures
        crate::text::find_char(a, c) is None,
    decreases a.len(),
{
    if a.len() > 0 {
        assert(a[0] != c);
        lemma_find_char_none(a.drop_first(), c);
    }
}

/// An event declaration `event N:` with an identifier `N` lowers to the
/// callback function `__mcfc_event_N`.
pub proof fn law_event_lowers_to_callback(kind: Seq<char>)
    requires
        is_identifier(kind),
    ensures
        normalized_line("event "@ + kind + ":"@) == "fn __mcfc_event_"@ + kind + "() -> void:"@,
{
    reveal_strlit("event ");
    reveal_strlit(":");
    reveal_strlit("):");
    let line = "event "@ + kind + ":"@;
    assert(line[0] == 'e');
    assert(line.last() == ':');
    assert(crate::text::trim_start(line) == line);
    assert(crate::text::trim_end(line) == line);
    assert(line.take(6) =~= "event "@);
    let rest = line.skip(6);
    assert(rest =~= kind + ":"@);
    assert forall|i: int| 0 <= i < rest.len() implies #[trigger] rest[i] != '(' by {
        if i < kind.len() {
            assert(rest[i] == kind[i]);
            if i >= 1 {
                assert(kind[i] == '_' || crate::text::is_ascii_alnum(kind[i]));
            }
        }
    }
    lemma_find_char_none(rest, '(');
    assert(agent_declaration(line) is None);
    assert(rest.skip(rest.len() - 1) =~= ":"@);
    assert(rest.take(rest.len() - 1) =~= kind);
}

} // verus!
