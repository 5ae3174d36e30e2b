//! The decisions of the `mcfd` service: reading request and agent records
//! out of log lines, choosing when to attach the JVM agent and with which
//! options, matching Java processes to packs, and the texts it writes.
use vstd::prelude::*;

use crate::mcfd::handlers::find_from;
use crate::mcfd::snbt::{
    entry_value, parse_compound, parse_snbt, value_model, values_model, Compound, Value,
    ValueModel,
};
pub use crate::text::views;
use crate::text::{chars_of, join_strings, str_eq, string_from_chars, string_of};

verus! {

broadcast use vstd::string::group_string_axioms;

/// A request record read from the log.
#[derive(Debug)]
pub struct Request {
    pub pack_id: String,
    pub id: i64,
    pub module: String,
    pub function: String,
    pub args: Vec<Value>,
}

/// The model of a request: pack, id, module, function and arguments.
pub type RequestModel = (Seq<char>, i64, Seq<char>, Seq<char>, Seq<ValueModel>);

pub open spec fn request_model(r: Request) -> RequestModel {
    (r.pack_id@, r.id, r.module@, r.function@, values_model(r.args@))
}

/// The SNBT text of a request record in a log line: from the first `{`
/// after the first `[mcfc_rpc]` marker.
pub open spec fn marker_record(line: Seq<char>) -> Option<Seq<char>> {
    match find_from(line, "[mcfc_rpc]"@, 0) {
        None => None,
        Some(m) => match find_from(line, seq!['{'], m) {
            None => None,
            Some(b) => Some(line.skip(b)),
        },
    }
}

/// A compound entry as a whole number (an integer, a boolean as 0/1, or a
/// float truncated).
pub open spec fn int_entry(es: Seq<(Seq<char>, ValueModel)>, key: Seq<char>) -> Option<i64> {
    match entry_value(es, key) {
        Some(ValueModel::Int(n)) => Some(n),
        Some(ValueModel::Float(t)) => Some(crate::mcfd::snbt::float_whole(t)),
        Some(ValueModel::Bool(b)) => Some(
            if b {
                1i64
            } else {
                0i64
            },
        ),
        _ => None,
    }
}

/// A compound entry as a string.
pub open spec fn str_entry(es: Seq<(Seq<char>, ValueModel)>, key: Seq<char>) -> Option<Seq<char>> {
    match entry_value(es, key) {
        Some(ValueModel::Str(s)) => Some(s),
        _ => None,
    }
}

/// The request a record stands for: a compound of protocol 2 from the
/// `mcpipe` bridge with its pack, id, module and function; its arguments
/// when it has a list of them.
pub open spec fn request_of(v: ValueModel) -> Option<RequestModel> {
    match v {
        ValueModel::Compound(es) => match int_entry(es, "mcpipe"@) {
            None => None,
            Some(mcpipe) => if mcpipe != 1 {
                None
            } else {
                match int_entry(es, "protocol"@) {
                    None => None,
                    Some(protocol) => if protocol != 2 {
                        None
                    } else {
                        match (
                            str_entry(es, "pack"@),
                            int_entry(es, "id"@),
                            str_entry(es, "mod"@),
                            str_entry(es, "fn"@),
                        ) {
                            (Some(pack), Some(id), Some(m), Some(f)) => Some(
                                (
                                    pack,
                                    id,
                                    m,
                                    f,
                                    match entry_value(es, "args"@) {
                                        Some(ValueModel::List(xs)) => xs,
                                        _ => Seq::empty(),
                                    },
                                ),
                            ),
                            _ => None,
                        }
                    }
                }
            },
        },
        _ => None,
    }
}

/// The request a log line carries.
pub open spec fn marker_request(line: Seq<char>) -> Option<RequestModel> {
    match marker_record(line) {
        None => None,
        Some(text) => match parse_snbt(text) {
            None => None,
            Some(v) => request_of(v),
        },
    }
}

fn find_str(cs: &[char], lit: &str, from: usize) -> (r: Option<usize>)
    requires
        from <= cs@.len(),
    ensures
        find_from(cs@, lit@, from as int) == (match r {
            Some(i) => Some(i as int),
            None => None::<int>,
        }),
        r matches Some(i) ==> from <= i && i + lit@.len() <= cs@.len(),
{
    let l = chars_of(lit);
    let mut i = from;
    while l.len() <= cs.len() - i
        invariant
            l@ == lit@,
            from <= i <= cs@.len(),
            find_from(cs@, lit@, from as int) == find_from(cs@, lit@, i as int),
        decreases cs@.len() - i,
    {
        if crate::text::range_eq(cs, i, i + l.len(), l.as_slice()) {
            return Some(i);
        }
        assert(l@.len() > 0) by {
            if l@.len() == 0 {
                assert(cs@.subrange(i as int, i as int) =~= l@);
            }
        }
        i = i + 1;
    }
    None
}

fn entry_int(c: &Compound, key: &str) -> (r: Option<i64>)
    ensures
        r == int_entry(crate::mcfd::snbt::entries_model(c.entries@), key@),
{
    match c.get(key) {
        Some(v) => v.as_int(),
        None => None,
    }
}

fn entry_str(c: &Compound, key: &str) -> (r: Option<String>)
    ensures
        match str_entry(crate::mcfd::snbt::entries_model(c.entries@), key@) {
            Some(s) => r matches Some(t) && t@ == s,
            None => r is None,
        },
{
    match c.get(key) {
        Some(v) => match v.as_str() {
            Some(s) => Some(string_of(s)),
            None => None,
        },
        None => None,
    }
}

/// Reads the request record of a log line: the SNBT compound after the
/// `[mcfc_rpc]` marker.
pub fn parse_marker(line: &str) -> (r: Option<Request>)
    ensures
        match marker_request(line@) {
            Some(m) => r matches Some(req) && request_model(req) == m,
            None => r is None,
        },
{
    let cs = chars_of(line);
    let marker = match find_str(cs.as_slice(), "[mcfc_rpc]", 0) {
        Some(m) => m,
        None => {
            return None;
        },
    };
    proof {
        reveal_strlit("{");
        assert("{"@ == seq!['{']);
    }
    let brace = match find_str(cs.as_slice(), "{", marker) {
        Some(b) => b,
        None => {
            return None;
        },
    };
    proof {
        reveal_strlit("{");
        assert("{"@ == seq!['{']);
    }
    let text = string_from_chars(cs.as_slice(), brace, cs.len());
    assert(text@ =~= line@.skip(brace as int));
    let value = match parse_compound(text.as_str()) {
        Some(v) => v,
        None => {
            return None;
        },
    };
    let compound = match value {
        Value::Compound(c) => c,
        _ => {
            return None;
        },
    };
    let ghost es = crate::mcfd::snbt::entries_model(compound.entries@);
    match entry_int(&compound, "mcpipe") {
        Some(1) => {},
        _ => {
            return None;
        },
    }
    match entry_int(&compound, "protocol") {
        Some(2) => {},
        _ => {
            return None;
        },
    }
    let pack_id = match entry_str(&compound, "pack") {
        Some(s) => s,
        None => {
            return None;
        },
    };
    let id = match entry_int(&compound, "id") {
        Some(n) => n,
        None => {
            return None;
        },
    };
    let module = match entry_str(&compound, "mod") {
        Some(s) => s,
        None => {
            return None;
        },
    };
    let function = match entry_str(&compound, "fn") {
        Some(s) => s,
        None => {
            return None;
        },
    };
    let args = match compound.into_value("args") {
        Some(Value::List(values)) => values,
        _ => Vec::new(),
    };
    Some(Request { pack_id, id, module, function, args })
}

/// An event record that `mcfd-agent` writes into the log.
#[derive(Debug, Clone, PartialEq, Eq)]
pub struct AgentEvent {
    pub protocol: u32,
    pub event: String,
    pub source: String,
    pub payload: String,
    pub cancelled: bool,
    pub cancellable: bool,
}

/// A field of a JSON object as far as an agent record uses it.
#[derive(Debug)]
pub enum JsonField {
    Bool(bool),
    Str(String),
    /// A non-negative integer.
    Unsigned(u64),
    /// Any other value (negative or fractional numbers, null, arrays,
    /// objects).
    Other,
}

pub enum JsonFieldModel {
    Bool(bool),
    Str(Seq<char>),
    Unsigned(u64),
    Other,
}

pub open spec fn field_model(f: JsonField) -> JsonFieldModel {
    match f {
        JsonField::Bool(b) => JsonFieldModel::Bool(b),
        JsonField::Str(s) => JsonFieldModel::Str(s@),
        JsonField::Unsigned(u) => JsonFieldModel::Unsigned(u),
        JsonField::Other => JsonFieldModel::Other,
    }
}

pub open spec fn fields_model(fs: Seq<(String, JsonField)>) -> Seq<(Seq<char>, JsonFieldModel)> {
    fs.map_values(|f: (String, JsonField)| (f.0@, field_model(f.1)))
}

/// What serde_json reads from `json` as a JSON object: its fields, each
/// key once, or nothing when `json` is not an object.
pub uninterp spec fn json_object(json: Seq<char>) -> Option<Seq<(Seq<char>, JsonFieldModel)>>;

/// serde_json's `from_str` into a `Map<String, Value>`, the fields' values
/// sorted into booleans, strings, non-negative integers (`Number::as_u64`)
/// and anything else. The result is named, not described: it is what
/// serde_json's reader gives for the text.
#[verifier::external_body]
fn json_object_fields(json: &str) -> (r: Option<Vec<(String, JsonField)>>)
    ensures
        match r {
            Some(fs) => json_object(json@) == Some(fields_model(fs@)),
            None => json_object(json@) is None,
        },
{
    let map = serde_json::from_str::<serde_json::Map<String, serde_json::Value>>(json).ok()?;
    Some(map.into_iter().map(|(key, value)| (key, match value {
        serde_json::Value::Bool(b) => JsonField::Bool(b),
        serde_json::Value::String(s) => JsonField::Str(s),
        serde_json::Value::Number(n) => match n.as_u64() {
            Some(u) => JsonField::Unsigned(u),
            None => JsonField::Other,
        },
        _ => JsonField::Other,
    })).collect())
}

/// The first field named `key`.
pub open spec fn field(fs: Seq<(Seq<char>, JsonFieldModel)>, key: Seq<char>) -> Option<JsonFieldModel>
    decreases fs.len(),
{
    if fs.len() == 0 {
        None
    } else if fs[0].0 == key {
        Some(fs[0].1)
    } else {
        field(fs.drop_first(), key)
    }
}

pub open spec fn str_field(fs: Seq<(Seq<char>, JsonFieldModel)>, key: Seq<char>) -> Option<Seq<char>> {
    match field(fs, key) {
        Some(JsonFieldModel::Str(s)) => Some(s),
        _ => None,
    }
}

pub open spec fn bool_field(fs: Seq<(Seq<char>, JsonFieldModel)>, key: Seq<char>) -> Option<bool> {
    match field(fs, key) {
        Some(JsonFieldModel::Bool(b)) => Some(b),
        _ => None,
    }
}

/// The model of an agent event.
pub type AgentEventModel = (u32, Seq<char>, Seq<char>, Seq<char>, bool, bool);

pub open spec fn agent_event_model(e: AgentEvent) -> AgentEventModel {
    (e.protocol, e.event@, e.source@, e.payload@, e.cancelled, e.cancellable)
}

/// The agent event a JSON object's fields describe: every field present
/// with its type, the protocol a non-negative integer within `u32`.
pub open spec fn event_of(fs: Seq<(Seq<char>, JsonFieldModel)>) -> Option<AgentEventModel> {
    match (
        field(fs, "protocol"@),
        str_field(fs, "event"@),
        str_field(fs, "source"@),
        str_field(fs, "payload"@),
        bool_field(fs, "cancelled"@),
        bool_field(fs, "cancellable"@),
    ) {
        (
            Some(JsonFieldModel::Unsigned(p)),
            Some(event),
            Some(source),
            Some(payload),
            Some(cancelled),
            Some(cancellable),
        ) => if p <= u32::MAX {
            Some((p as u32, event, source, payload, cancelled, cancellable))
        } else {
            None
        },
        _ => None,
    }
}

fn find_field<'a>(fs: &'a [(String, JsonField)], key: &str) -> (r: Option<&'a JsonField>)
    ensures
        match field(fields_model(fs@), key@) {
            Some(m) => r matches Some(f) && field_model(*f) == m,
            None => r is None,
        },
{
    let ghost ms = fields_model(fs@);
    let mut i: usize = 0;
    assert(ms.skip(0) =~= ms);
    while i < fs.len()
        invariant
            i <= fs@.len(),
            ms == fields_model(fs@),
            field(ms, key@) == field(ms.skip(i as int), key@),
        decreases fs@.len() - i,
    {
        assert(ms.skip(i as int)[0] == ms[i as int]);
        assert(ms.skip(i as int).drop_first() =~= ms.skip(i + 1));
        if str_eq(fs[i].0.as_str(), key) {
            return Some(&fs[i].1);
        }
        assert(ms[i as int].0 != key@);
        i = i + 1;
    }
    None
}

/// The agent event that the fields of a JSON object describe.
pub fn decode_agent_event(fields: &[(String, JsonField)]) -> (r: Option<AgentEvent>)
    ensures
        match event_of(fields_model(fields@)) {
            Some(m) => r matches Some(e) && agent_event_model(e) == m,
            None => r is None,
        },
{
    let protocol = match find_field(fields, "protocol") {
        Some(JsonField::Unsigned(p)) => *p,
        _ => {
            return None;
        },
    };
    let event = match find_field(fields, "event") {
        Some(JsonField::Str(s)) => string_of(s.as_str()),
        _ => {
            return None;
        },
    };
    let source = match find_field(fields, "source") {
        Some(JsonField::Str(s)) => string_of(s.as_str()),
        _ => {
            return None;
        },
    };
    let payload = match find_field(fields, "payload") {
        Some(JsonField::Str(s)) => string_of(s.as_str()),
        _ => {
            return None;
        },
    };
    let cancelled = match find_field(fields, "cancelled") {
        Some(JsonField::Bool(b)) => *b,
        _ => {
            return None;
        },
    };
    let cancellable = match find_field(fields, "cancellable") {
        Some(JsonField::Bool(b)) => *b,
        _ => {
            return None;
        },
    };
    if protocol > 4294967295u64 {
        return None;
    }
    Some(AgentEvent { protocol: protocol as u32, event, source, payload, cancelled, cancellable })
}

/// The JSON record of an agent log line: what follows the first
/// ` record=` after the `[mcfd-agent]` marker.
pub open spec fn agent_record(line: Seq<char>) -> Option<Seq<char>> {
    match find_from(line, "[mcfd-agent]"@, 0) {
        None => None,
        Some(s) => match find_from(line, " record="@, s) {
            None => None,
            Some(r) => Some(line.skip(r + 8)),
        },
    }
}

/// Reads the agent event of a log line; only records of protocol 1 are
/// accepted.
pub fn parse_agent_event(line: &str) -> (r: Option<AgentEvent>)
    ensures
        match agent_record(line@) {
            None => r is None,
            Some(json) => match json_object(json) {
                None => r is None,
                Some(fs) => match event_of(fs) {
                    Some(m) => if m.0 == 1 {
                        r matches Some(e) && agent_event_model(e) == m
                    } else {
                        r is None
                    },
                    None => r is None,
                },
            },
        },
{
    let cs = chars_of(line);
    let start = match find_str(cs.as_slice(), "[mcfd-agent]", 0) {
        Some(s) => s,
        None => {
            return None;
        },
    };
    let at = match find_str(cs.as_slice(), " record=", start) {
        Some(r) => r,
        None => {
            return None;
        },
    };
    proof {
        reveal_strlit(" record=");
    }
    let n = cs.len();
    assert(at + 8 <= n);
    let json = string_from_chars(cs.as_slice(), at + 8, n);
    assert(json@ =~= line@.skip(at + 8));
    let fields = match json_object_fields(json.as_str()) {
        Some(fs) => fs,
        None => {
            return None;
        },
    };
    let event = match decode_agent_event(fields.as_slice()) {
        Some(e) => e,
        None => {
            return None;
        },
    };
    if event.protocol == 1 {
        Some(event)
    } else {
        None
    }
}

// ---- the JVM agent ---------------------------------------------------------
/// The attempts made so far, by process id, as the option texts used.
pub open spec fn attempts_model(m: Map<u32, String>) -> Map<u32, Seq<char>> {
    m.map_values(|s: String| s@)
}

/// Whether an attachment to `pid` with `options` is still to be tried: it is
/// unless the last attempt for that process used the same options.
pub open spec fn attempt_due(m: Map<u32, Seq<char>>, pid: u32, options: Seq<char>) -> bool {
    !(m.contains_key(pid) && m[pid] == options)
}

/// The attempts after one for `pid` with `options` was considered.
pub open spec fn after_attempt(m: Map<u32, Seq<char>>, pid: u32, options: Seq<char>) -> Map<
    u32,
    Seq<char>,
> {
    if attempt_due(m, pid, options) {
        m.insert(pid, options)
    } else {
        m
    }
}

/// Records an attachment attempt to `pid` with `options` unless the last
/// attempt for that process used the same options; says whether to attach.
pub fn should_attempt_agent_attach(
    attempts: &mut std::collections::HashMap<u32, String>,
    pid: u32,
    options: &str,
) -> (r: bool)
    ensures
        r == attempt_due(attempts_model(old(attempts)@), pid, options@),
        attempts_model(final(attempts)@) == after_attempt(
            attempts_model(old(attempts)@),
            pid,
            options@,
        ),
{
    broadcast use vstd::std_specs::hash::group_hash_axioms;

    let same = match attempts.get(&pid) {
        Some(previous) => str_eq(previous.as_str(), options),
        None => false,
    };
    if same {
        return false;
    }
    attempts.insert(pid, string_of(options));
    proof {
        assert(attempts_model(attempts@) =~= attempts_model(old(attempts)@).insert(pid, options@));
    }
    true
}

/// One attempt is made per process and options: right after an attempt, the
/// same options are not tried again, and other options are.
pub proof fn law_one_attempt_per_options(
    m: Map<u32, Seq<char>>,
    pid: u32,
    options: Seq<char>,
    other: Seq<char>,
)
    ensures
        !attempt_due(after_attempt(m, pid, options), pid, options),
        other != options ==> attempt_due(after_attempt(m, pid, options), pid, other),
{
}

/// A pack the service serves.
#[derive(Debug, Clone)]
pub struct Pack {
    pub config: crate::mcfd::config::Config,
    pub descriptor: String,
    pub log: String,
}

/// Which list of a pack's agent settings an option names.
pub open spec fn agent_list(p: Pack, which: int) -> Seq<String> {
    if which == 0 {
        p.config.agent.deciders@
    } else if which == 1 {
        p.config.agent.events@
    } else {
        p.config.agent.commands@
    }
}

/// `namespace:item,item` for each pack whose list is not empty.
pub open spec fn option_groups(packs: Seq<&Pack>, which: int) -> Seq<Seq<char>>
    decreases packs.len(),
{
    if packs.len() == 0 {
        Seq::empty()
    } else {
        let p = *packs.last();
        let rest = option_groups(packs.drop_last(), which);
        if agent_list(p, which).len() == 0 {
            rest
        } else {
            rest.push(p.config.namespace@ + ":"@ + crate::text::join(views(agent_list(p, which)), ","@))
        }
    }
}

/// The options handed to the agent: `deciders=`, `routes=` and `commands=`
/// parts for the lists that any pack fills, joined by `;`.
pub open spec fn options_text(packs: Seq<&Pack>) -> Seq<char> {
    let d = option_groups(packs, 0);
    let r = option_groups(packs, 1);
    let c = option_groups(packs, 2);
    let parts = (if d.len() > 0 {
        seq!["deciders="@ + crate::text::join(d, "|"@)]
    } else {
        Seq::empty()
    }) + (if r.len() > 0 {
        seq!["routes="@ + crate::text::join(r, "|"@)]
    } else {
        Seq::empty()
    }) + (if c.len() > 0 {
        seq!["commands="@ + crate::text::join(c, "|"@)]
    } else {
        Seq::empty()
    });
    crate::text::join(parts, ";"@)
}

fn groups_of(packs: &[&Pack], which: usize) -> (r: Vec<String>)
    requires
        which <= 2,
    ensures
        views(r@) == option_groups(packs@, which as int),
{
    let mut out: Vec<String> = Vec::new();
    let mut i: usize = 0;
    while i < packs.len()
        invariant
            which <= 2,
            i <= packs@.len(),
            views(out@) == option_groups(packs@.take(i as int), which as int),
        decreases packs@.len() - i,
    {
        let p = packs[i];
        let list = if which == 0 {
            &p.config.agent.deciders
        } else if which == 1 {
            &p.config.agent.events
        } else {
            &p.config.agent.commands
        };
        proof {
            assert(packs@.take(i + 1).drop_last() =~= packs@.take(i as int));
            assert(packs@.take(i + 1).last() == packs@[i as int]);
        }
        if list.len() > 0 {
            let mut group = string_of(p.config.namespace.as_str());
            crate::text::push_str(&mut group, ":");
            let items = join_strings(list, ",");
            crate::text::push_str(&mut group, items.as_str());
            let ghost before = out@;
            out.push(group);
            assert(views(out@) =~= views(before).push(group@));
        }
        i = i + 1;
    }
    assert(packs@.take(i as int) =~= packs@);
    out
}

/// The options for the agent attached on behalf of `packs`.
pub fn agent_options(packs: &[&Pack]) -> (r: String)
    ensures
        r@ == options_text(packs@),
{
    let d = groups_of(packs, 0);
    let ro = groups_of(packs, 1);
    let c = groups_of(packs, 2);
    let mut parts: Vec<String> = Vec::new();
    if d.len() > 0 {
        let mut part = string_of("deciders=");
        let j = join_strings(&d, "|");
        crate::text::push_str(&mut part, j.as_str());
        parts.push(part);
    }
    if ro.len() > 0 {
        let mut part = string_of("routes=");
        let j = join_strings(&ro, "|");
        crate::text::push_str(&mut part, j.as_str());
        parts.push(part);
    }
    if c.len() > 0 {
        let mut part = string_of("commands=");
        let j = join_strings(&c, "|");
        crate::text::push_str(&mut part, j.as_str());
        parts.push(part);
    }
    let r = join_strings(&parts, ";");
    proof {
        let dv = option_groups(packs@, 0);
        let rv = option_groups(packs@, 1);
        let cv = option_groups(packs@, 2);
        let expected = (if dv.len() > 0 {
            seq!["deciders="@ + crate::text::join(dv, "|"@)]
        } else {
            Seq::empty()
        }) + (if rv.len() > 0 {
            seq!["routes="@ + crate::text::join(rv, "|"@)]
        } else {
            Seq::empty()
        }) + (if cv.len() > 0 {
            seq!["commands="@ + crate::text::join(cv, "|"@)]
        } else {
            Seq::empty()
        });
        assert(views(parts@) =~= expected);
    }
    r
}

// ---- Java processes --------------------------------------------------------
/// A running Java process.
#[derive(Debug, Clone, PartialEq, Eq)]
pub struct JavaProcess {
    pub pid: u32,
    pub command_line: String,
}

/// The process a line of `pid<TAB>command line` describes.
pub open spec fn process_of(line: Seq<char>) -> Option<(u32, Seq<char>)> {
    match crate::text::split_once(line, '\t') {
        Some((pid, command)) => match crate::text::parse_u32(crate::text::trim(pid)) {
            Some(n) => Some((n, command)),
            None => None,
        },
        None => None,
    }
}

/// The processes described by some lines, in order; other lines skipped.
pub open spec fn processes_of(lines: Seq<Seq<char>>) -> Seq<(u32, Seq<char>)>
    decreases lines.len(),
{
    if lines.len() == 0 {
        Seq::empty()
    } else {
        let rest = processes_of(lines.drop_last());
        match process_of(lines.last()) {
            Some(p) => rest.push(p),
            None => rest,
        }
    }
}

pub open spec fn process_model(p: JavaProcess) -> (u32, Seq<char>) {
    (p.pid, p.command_line@)
}

/// Reads the `pid<TAB>command line` records of a process listing.
pub fn parse_java_processes(output: &str) -> (r: Vec<JavaProcess>)
    ensures
        r@.map_values(|p: JavaProcess| process_model(p)) == processes_of(
            crate::compiler::lines_from(output@, 0),
        ),
{
    let cs = chars_of(output);
    let n = cs.len();
    let mut out: Vec<JavaProcess> = Vec::new();
    let mut p: usize = 0;
    let ghost mut done: Seq<Seq<char>> = Seq::empty();
    while p < n
        invariant
            n == cs@.len(),
            cs@ == output@,
            p <= n,
            done + crate::compiler::lines_from(cs@, p as int) == crate::compiler::lines_from(
                cs@,
                0,
            ),
            out@.map_values(|q: JavaProcess| process_model(q)) == processes_of(done),
        decreases n - p,
    {
        let mut q: usize = p;
        while q < n && cs[q] != '\n'
            invariant
                p <= q <= n,
                n == cs@.len(),
                crate::lexer::line_end(cs@, p as int) == crate::lexer::line_end(cs@, q as int),
            decreases n - q,
        {
            q = q + 1;
        }
        proof {
            crate::lexer::lemma_line_end(cs@, p as int);
        }
        let end = if q < n && q > p && cs[q - 1] == '\r' {
            q - 1
        } else {
            q
        };
        let ghost piece = cs@.subrange(p as int, q as int);
        let ghost line = cs@.subrange(p as int, end as int);
        proof {
            if end < q {
                assert(line =~= piece.drop_last());
            }
            assert(crate::compiler::lines_from(cs@, p as int) == seq![line]
                + crate::compiler::lines_from(
                cs@,
                if q < n {
                    q + 1
                } else {
                    n as int
                },
            ));
        }
        let ghost before = out@;
        match crate::text::split_once_range(cs.as_slice(), p, end, '\t') {
            Some(k) => {
                let (a, b) = crate::text::trim_range(cs.as_slice(), p, k);
                match crate::text::parse_u32_range(cs.as_slice(), a, b) {
                    Some(pid) => {
                        let command_line = string_from_chars(cs.as_slice(), k + 1, end);
                        out.push(JavaProcess { pid, command_line });
                    },
                    None => {},
                }
            },
            None => {},
        }
        proof {
            let nd = done.push(line);
            assert(nd.drop_last() =~= done);
            assert(nd.last() == line);
            assert(out@.map_values(|q: JavaProcess| process_model(q)) =~= processes_of(nd));
            assert(nd + crate::compiler::lines_from(
                cs@,
                if q < n {
                    q + 1
                } else {
                    n as int
                },
            ) =~= done + crate::compiler::lines_from(cs@, p as int));
            done = nd;
        }
        if q < n {
            p = q + 1;
        } else {
            p = n;
        }
    }
    proof {
        assert(crate::compiler::lines_from(cs@, n as int) =~= Seq::<Seq<char>>::empty());
        assert(done =~= done + Seq::<Seq<char>>::empty());
    }
    out
}

// ---- Windows paths -----------------------------------------------------------
pub open spec fn is_separator(c: char) -> bool {
    c == '\\' || c == '/'
}

/// Index of the last path separator (`\` or `/`).
pub open spec fn last_separator(s: Seq<char>) -> Option<int>
    decreases s.len(),
{
    if s.len() == 0 {
        None
    } else if is_separator(s.last()) {
        Some(s.len() - 1)
    } else {
        last_separator(s.drop_last())
    }
}

/// The directory of a Windows path: the text before its last separator.
pub open spec fn parent_path(s: Seq<char>) -> Option<Seq<char>> {
    match last_separator(s) {
        Some(i) => if i > 0 {
            Some(s.take(i))
        } else {
            None
        },
        None => None,
    }
}

/// The last component of a Windows path.
pub open spec fn file_name_of(s: Seq<char>) -> Seq<char> {
    match last_separator(s) {
        Some(i) => s.skip(i + 1),
        None => s,
    }
}

fn last_separator_of(cs: &[char]) -> (r: Option<usize>)
    ensures
        last_separator(cs@) == (match r {
            Some(i) => Some(i as int),
            None => None::<int>,
        }),
        r matches Some(i) ==> i < cs@.len(),
{
    let mut i = cs.len();
    assert(cs@.take(i as int) =~= cs@);
    while i > 0
        invariant
            i <= cs@.len(),
            last_separator(cs@) == last_separator(cs@.take(i as int)),
        decreases i,
    {
        let c = cs[i - 1];
        assert(cs@.take(i as int).last() == c);
        if c == '\\' || c == '/' {
            return Some(i - 1);
        }
        assert(cs@.take(i as int).drop_last() =~= cs@.take(i - 1));
        i = i - 1;
    }
    proof {
        assert(cs@.take(0) =~= Seq::<char>::empty());
    }
    None
}

/// `\\?\` removed from the front as often as it is there.
pub open spec fn strip_verbatim(s: Seq<char>) -> Seq<char>
    decreases s.len(),
{
    if s.len() >= 4 && s.take(4) == seq!['\\', '\\', '?', '\\'] {
        strip_verbatim(s.skip(4))
    } else {
        s
    }
}

/// A Windows path for comparison: `/` as `\`, the verbatim prefix
/// `\\?\` removed, ASCII letters in lower case.
pub open spec fn normalized_windows_path(s: Seq<char>) -> Seq<char> {
    crate::mcfd::snbt::lower_chars(
        strip_verbatim(s.map_values(|c: char| if c == '/' { '\\' } else { c })),
    )
}

/// Normalises a Windows path for comparison.
pub fn normalize_windows_path(value: &str) -> (r: String)
    ensures
        r@ == normalized_windows_path(value@),
{
    let cs = chars_of(value);
    let ghost m = value@.map_values(|c: char| if c == '/' { '\\' } else { c });
    let mut start: usize = 0;
    assert(m.skip(0) =~= m);
    while 4 <= cs.len() - start && slash_at(cs.as_slice(), start) && slash_at(cs.as_slice(), start + 1)
        && cs[start + 2] == '?' && slash_at(cs.as_slice(), start + 3)
        invariant
            cs@ == value@,
            m == value@.map_values(|c: char| if c == '/' { '\\' } else { c }),
            start <= cs@.len(),
            strip_verbatim(m) == strip_verbatim(m.skip(start as int)),
        decreases cs@.len() - start,
    {
        proof {
            let t = m.skip(start as int);
            assert(t.take(4) =~= seq!['\\', '\\', '?', '\\']);
            assert(t.skip(4) =~= m.skip(start + 4));
        }
        start = start + 4;
    }
    proof {
        let t = m.skip(start as int);
        if t.len() >= 4 && t.take(4) == seq!['\\', '\\', '?', '\\'] {
            assert(t.take(4)[0] == t[0]);
            assert(t.take(4)[1] == t[1]);
            assert(t.take(4)[2] == t[2]);
            assert(t.take(4)[3] == t[3]);
        }
    }
    let mut out = String::new();
    let mut i = start;
    while i < cs.len()
        invariant
            cs@ == value@,
            m == value@.map_values(|c: char| if c == '/' { '\\' } else { c }),
            start <= i <= cs@.len(),
            out@ == crate::mcfd::snbt::lower_chars(m.subrange(start as int, i as int)),
        decreases cs@.len() - i,
    {
        let c = cs[i];
        let d = if c == '/' {
            '\\'
        } else {
            c
        };
        crate::text::push_char(&mut out, crate::text::lower(d));
        assert(crate::mcfd::snbt::lower_chars(m.subrange(start as int, i + 1)) =~= 
            crate::mcfd::snbt::lower_chars(m.subrange(start as int, i as int)).push(
                crate::text::to_ascii_lower(d)));
        i = i + 1;
    }
    assert(m.subrange(start as int, cs@.len() as int) =~= m.skip(start as int));
    out
}

fn slash_at(cs: &[char], i: usize) -> (r: bool)
    requires
        i < cs@.len(),
    ensures
        r == (cs@[i as int] == '\\' || cs@[i as int] == '/'),
{
    cs[i] == '\\' || cs[i] == '/'
}

/// The markers of a pack's game instance: the directory two levels above
/// its log file and, for the Prism layout where that directory is named
/// `minecraft`, the directory above it.
pub open spec fn instance_markers(log: Seq<char>) -> Seq<Seq<char>> {
    match parent_path(log) {
        None => Seq::empty(),
        Some(logs) => match parent_path(logs) {
            None => Seq::empty(),
            Some(instance) => {
                let first = seq![normalized_windows_path(instance)];
                if crate::mcfd::snbt::lower_chars(file_name_of(instance)) == "minecraft"@ {
                    match parent_path(instance) {
                        Some(prism) => first.push(normalized_windows_path(prism)),
                        None => first,
                    }
                } else {
                    first
                }
            },
        },
    }
}

/// Whether a Java process belongs to the pack's game instance: its command
/// line names one of the instance's markers.
pub open spec fn matches_pack(command_line: Seq<char>, log: Seq<char>) -> bool {
    let cmd = normalized_windows_path(command_line);
    exists|i: int|
        0 <= i < instance_markers(log).len() && #[trigger] instance_markers(log)[i].len() > 0
            && crate::text::contains_seq(cmd, instance_markers(log)[i])
}

fn parent_of(path: &str) -> (r: Option<String>)
    ensures
        match parent_path(path@) {
            Some(p) => r matches Some(t) && t@ == p,
            None => r is None,
        },
{
    let cs = chars_of(path);
    match last_separator_of(cs.as_slice()) {
        Some(i) => if i > 0 {
            Some(string_from_chars(cs.as_slice(), 0, i))
        } else {
            None
        },
        None => None,
    }
}

fn names_minecraft(path: &str) -> (r: bool)
    ensures
        r == (crate::mcfd::snbt::lower_chars(file_name_of(path@)) == "minecraft"@),
{
    let cs = chars_of(path);
    let n = cs.len();
    let start = match last_separator_of(cs.as_slice()) {
        Some(i) => {
            assert(i < n);
            i + 1
        },
        None => 0,
    };
    let name = copy_tail(cs.as_slice(), start);
    proof {
        if start == 0 {
            assert(name@ =~= path@);
        }
    }
    lower_is_text(name.as_slice(), "minecraft")
}

fn copy_tail(cs: &[char], start: usize) -> (r: Vec<char>)
    requires
        start <= cs@.len(),
    ensures
        r@ == cs@.skip(start as int),
{
    let mut r: Vec<char> = Vec::new();
    let mut i = start;
    while i < cs.len()
        invariant
            start <= i <= cs@.len(),
            r@ == cs@.subrange(start as int, i as int),
        decreases cs@.len() - i,
    {
        r.push(cs[i]);
        i = i + 1;
    }
    r
}

fn lower_is_text(b: &[char], lit: &str) -> (r: bool)
    ensures
        r == (crate::mcfd::snbt::lower_chars(b@) == lit@),
{
    let l = chars_of(lit);
    if l.len() != b.len() {
        return false;
    }
    let mut i: usize = 0;
    while i < b.len()
        invariant
            l@ == lit@,
            l@.len() == b@.len(),
            i <= b@.len(),
            forall|j: int| 0 <= j < i ==> crate::text::to_ascii_lower(#[trigger] b@[j]) == l@[j],
        decreases b@.len() - i,
    {
        if crate::text::lower(b[i]) != l[i] {
            assert(crate::mcfd::snbt::lower_chars(b@)[i as int] != lit@[i as int]);
            return false;
        }
        i = i + 1;
    }
    assert(crate::mcfd::snbt::lower_chars(b@) =~= lit@);
    true
}

/// Whether `process` runs the game instance of `pack`.
pub fn process_matches_pack(process: &JavaProcess, pack: &Pack) -> (r: bool)
    ensures
        r == matches_pack(process.command_line@, pack.log@),
{
    let logs = match parent_of(pack.log.as_str()) {
        Some(l) => l,
        None => {
            return false;
        },
    };
    let instance = match parent_of(logs.as_str()) {
        Some(i) => i,
        None => {
            return false;
        },
    };
    let mut markers: Vec<String> = Vec::new();
    markers.push(normalize_windows_path(instance.as_str()));
    if names_minecraft(instance.as_str()) {
        match parent_of(instance.as_str()) {
            Some(prism) => markers.push(normalize_windows_path(prism.as_str())),
            None => {},
        }
    }
    let ghost ms = instance_markers(pack.log@);
    assert(markers@.map_values(|s: String| s@) =~= ms);
    let command = normalize_windows_path(process.command_line.as_str());
    let cmd = chars_of(command.as_str());
    let mut i: usize = 0;
    while i < markers.len()
        invariant
            i <= markers@.len(),
            markers@.map_values(|s: String| s@) == ms,
            ms == instance_markers(pack.log@),
            cmd@ == normalized_windows_path(process.command_line@),
            forall|j: int|
                0 <= j < i ==> !(#[trigger] ms[j].len() > 0 && crate::text::contains_seq(
                    cmd@,
                    ms[j],
                )),
        decreases markers@.len() - i,
    {
        let marker = markers[i].as_str();
        assert(marker@ == ms[i as int]);
        let mc = chars_of(marker);
        if mc.len() > 0 && crate::text::contains_str(cmd.as_slice(), marker) {
            return true;
        }
        i = i + 1;
    }
    false
}

// ---- texts the service writes -------------------------------------------------
/// The command of the logon task: the quoted executable and `service run`.
pub fn scheduled_task_action(exe: &str) -> (r: String)
    ensures
        r@ == "\""@ + exe@ + "\" service run"@,
{
    let mut out = string_of("\"");
    crate::text::push_str(&mut out, exe);
    crate::text::push_str(&mut out, "\" service run");
    out
}

/// The VBScript that starts the service without a window.
pub fn startup_script_body(exe: &str) -> (r: String)
    ensures
        r@ == "Set shell = CreateObject(\"WScript.Shell\")\nshell.Run \"\"\""@ + exe@
            + "\"\" service run\", 0, False\n"@,
{
    let mut out = string_of("Set shell = CreateObject(\"WScript.Shell\")\nshell.Run \"\"\"");
    crate::text::push_str(&mut out, exe);
    crate::text::push_str(&mut out, "\"\" service run\", 0, False\n");
    out
}

/// The per-user startup command that runs the script hidden.
pub fn run_entry_command(script: &str) -> (r: String)
    ensures
        r@ == "wscript.exe //B //Nologo \""@ + script@ + "\""@,
{
    let mut out = string_of("wscript.exe //B //Nologo \"");
    crate::text::push_str(&mut out, script);
    crate::text::push_str(&mut out, "\"");
    out
}

/// The number of packs that ask for the agent.
pub open spec fn agent_requests(packs: Seq<Pack>) -> nat
    decreases packs.len(),
{
    if packs.len() == 0 {
        0
    } else {
        agent_requests(packs.drop_last()) + if packs.last().config.agent.enabled {
            1nat
        } else {
            0nat
        }
    }
}

/// The service's status file.
pub fn status_body(packs: &[Pack]) -> (r: String)
    ensures
        r@ == "running\ndiscovered_packs="@ + crate::text::decimal(packs@.len())
            + "\nagent_requests="@ + crate::text::decimal(agent_requests(packs@)) + "\n"@,
{
    let mut count: usize = 0;
    let mut i: usize = 0;
    while i < packs.len()
        invariant
            i <= packs@.len(),
            count == agent_requests(packs@.take(i as int)),
            count <= i,
        decreases packs@.len() - i,
    {
        proof {
            assert(packs@.take(i + 1).drop_last() =~= packs@.take(i as int));
        }
        if packs[i].config.agent.enabled {
            count = count + 1;
        }
        i = i + 1;
    }
    assert(packs@.take(i as int) =~= packs@);
    let mut out = string_of("running\ndiscovered_packs=");
    crate::text::push_u64(&mut out, packs.len() as u64);
    crate::text::push_str(&mut out, "\nagent_requests=");
    crate::text::push_u64(&mut out, count as u64);
    crate::text::push_str(&mut out, "\n");
    out
}

/// One line of the inbox: the command that stores a result.
pub open spec fn inbox_line(id: i64, snbt: Seq<char>) -> Seq<char> {
    "data modify storage mcfc:rpc results."@ + crate::text::signed_decimal(id as int)
        + " set value "@ + snbt + "\n"@
}

/// The lines for some results, in order.
pub open spec fn inbox_lines(results: Seq<(i64, String)>) -> Seq<char>
    decreases results.len(),
{
    if results.len() == 0 {
        Seq::empty()
    } else {
        inbox_lines(results.drop_last()) + inbox_line(results.last().0, results.last().1@)
    }
}

pub open spec fn sorted_by_id(s: Seq<(i64, String)>) -> bool {
    forall|i: int, j: int| 0 <= i < j < s.len() ==> #[trigger] s[i].0 <= #[trigger] s[j].0
}

pub open spec fn results_model(s: Seq<(i64, String)>) -> Seq<(i64, Seq<char>)> {
    s.map_values(|e: (i64, String)| (e.0, e.1@))
}

/// The inbox function: a header, then one line per result in order of id.
pub fn inbox_body(results: &[(i64, String)]) -> (r: String)
    ensures
        exists|sorted: Seq<(i64, String)>|
            results_model(sorted).to_multiset() == results_model(results@).to_multiset()
                && sorted_by_id(sorted) && r@ == "# generated by mcfd service\n"@ + inbox_lines(
                sorted,
            ),
{
    let mut sorted: Vec<(i64, String)> = Vec::new();
    let mut i: usize = 0;
    proof {
        assert(results_model(sorted@) =~= results_model(results@.take(0)));
    }
    while i < results.len()
        invariant
            i <= results@.len(),
            sorted_by_id(sorted@),
            results_model(sorted@).to_multiset() == results_model(results@.take(i as int)).to_multiset(),
        decreases results@.len() - i,
    {
        let id = results[i].0;
        let mut k: usize = 0;
        while k < sorted.len() && sorted[k].0 <= id
            invariant
                k <= sorted@.len(),
                forall|j: int| 0 <= j < k ==> #[trigger] sorted@[j].0 <= id,
            decreases sorted@.len() - k,
        {
            k = k + 1;
        }
        let ghost before = sorted@;
        let snbt = string_of(results[i].1.as_str());
        let item = (id, snbt);
        sorted.insert(k, item);
        proof {
            assert(sorted@ == before.insert(k as int, item));
            assert forall|a: int, b: int| 0 <= a < b < sorted@.len() implies #[trigger] sorted@[a].0
                <= #[trigger] sorted@[b].0 by {
                if b < k {
                } else if a < k && b == k {
                } else if a < k && b > k {
                    assert(sorted@[b] == before[b - 1]);
                } else if a == k {
                    assert(sorted@[b] == before[b - 1]);
                    if k < before.len() {
                        assert(before[k as int].0 > id);
                        assert(before[k as int].0 <= before[b - 1].0);
                    }
                } else {
                    assert(sorted@[a] == before[a - 1]);
                    assert(sorted@[b] == before[b - 1]);
                }
            }
            let mi = (id, results@[i as int].1@);
            assert(results_model(sorted@) =~= results_model(before).insert(k as int, mi));
            vstd::seq_lib::to_multiset_insert(results_model(before), k as int, mi);
            assert(results_model(results@.take(i + 1)) =~= results_model(results@.take(i as int)).push(mi));
            vstd::seq_lib::to_multiset_build(results_model(results@.take(i as int)), mi);
        }
        i = i + 1;
    }
    assert(results@.take(i as int) =~= results@);
    let mut out = string_of("# generated by mcfd service\n");
    let ghost head = out@;
    let mut j: usize = 0;
    while j < sorted.len()
        invariant
            j <= sorted@.len(),
            out@ == head + inbox_lines(sorted@.take(j as int)),
        decreases sorted@.len() - j,
    {
        crate::text::push_str(&mut out, "data modify storage mcfc:rpc results.");
        crate::text::push_i64(&mut out, sorted[j].0);
        crate::text::push_str(&mut out, " set value ");
        crate::text::push_str(&mut out, sorted[j].1.as_str());
        crate::text::push_str(&mut out, "\n");
        proof {
            assert(sorted@.take(j + 1).drop_last() =~= sorted@.take(j as int));
            assert(sorted@.take(j + 1).last() == sorted@[j as int]);
        }
        j = j + 1;
    }
    assert(sorted@.take(j as int) =~= sorted@);
    out
}


// ---- agent attachment -----------------------------------------------------------------
/// The ids of the processes that run the instance of the log `log`.
pub open spec fn matching_pids(procs: Seq<JavaProcess>, log: Seq<char>) -> Seq<u32>
    decreases procs.len(),
{
    if procs.len() == 0 {
        Seq::empty()
    } else {
        let rest = matching_pids(procs.drop_last(), log);
        if matches_pack(procs.last().command_line@, log) {
            rest.push(procs.last().pid)
        } else {
            rest
        }
    }
}

/// The one process an agent-enabled pack's instance runs in, if exactly one
/// runs it.
pub open spec fn sole_pid(procs: Seq<JavaProcess>, p: Pack) -> Option<u32> {
    let m = matching_pids(procs, p.log@);
    if p.config.agent.enabled && m.len() == 1 {
        Some(m[0])
    } else {
        None
    }
}

/// The indices of the packs whose sole process is `pid`, in order.
pub open spec fn packs_for(procs: Seq<JavaProcess>, packs: Seq<Pack>, pid: u32) -> Seq<usize>
    decreases packs.len(),
{
    if packs.len() == 0 {
        Seq::empty()
    } else {
        let rest = packs_for(procs, packs.drop_last(), pid);
        if sole_pid(procs, packs.last()) == Some(pid) {
            rest.push((packs.len() - 1) as usize)
        } else {
            rest
        }
    }
}

/// The agent-enabled packs that no process, or several, run, with the
/// number that do.
pub open spec fn unattached(procs: Seq<JavaProcess>, packs: Seq<Pack>) -> Seq<(usize, usize)>
    decreases packs.len(),
{
    if packs.len() == 0 {
        Seq::empty()
    } else {
        let rest = unattached(procs, packs.drop_last());
        let m = matching_pids(procs, packs.last().log@);
        if packs.last().config.agent.enabled && m.len() != 1 {
            rest.push(((packs.len() - 1) as usize, m.len() as usize))
        } else {
            rest
        }
    }
}

/// The attachments to ask for: for each process, in process id order, the
/// agent-enabled packs that it alone runs; and the agent-enabled packs that
/// no process or several run, with the number that do.
pub struct AttachPlan {
    pub requests: Vec<(u32, Vec<usize>)>,
    pub unattached: Vec<(usize, usize)>,
}

proof fn lemma_packs_for_member(procs: Seq<JavaProcess>, packs: Seq<Pack>, pid: u32)
    ensures
        packs_for(procs, packs, pid).len() > 0 ==> exists|k: int|
            0 <= k < packs.len() && sole_pid(procs, #[trigger] packs[k]) == Some(pid),
    decreases packs.len(),
{
    if packs.len() > 0 {
        lemma_packs_for_member(procs, packs.drop_last(), pid);
        if packs_for(procs, packs.drop_last(), pid).len() > 0 {
            let k = choose|k: int|
                0 <= k < packs.drop_last().len() && sole_pid(procs, #[trigger] packs.drop_last()[k])
                    == Some(pid);
            assert(packs[k] == packs.drop_last()[k]);
        }
        if sole_pid(procs, packs.last()) == Some(pid) {
            assert(packs[packs.len() - 1] == packs.last());
        }
    }
}

fn pids_matching(procs: &[JavaProcess], pack: &Pack) -> (r: Vec<u32>)
    ensures
        r@ == matching_pids(procs@, pack.log@),
{
    let mut out: Vec<u32> = Vec::new();
    let mut i: usize = 0;
    while i < procs.len()
        invariant
            i <= procs@.len(),
            out@ == matching_pids(procs@.take(i as int), pack.log@),
        decreases procs@.len() - i,
    {
        assert(procs@.take(i + 1).drop_last() =~= procs@.take(i as int));
        if process_matches_pack(&procs[i], pack) {
            out.push(procs[i].pid);
        }
        i = i + 1;
    }
    assert(procs@.take(procs@.len() as int) =~= procs@);
    out
}

/// Works out which processes the optional agent is attached to for which
/// packs.
#[verifier::spinoff_prover]
#[verifier::rlimit(30)]
pub fn attach_plan(procs: &[JavaProcess], packs: &[Pack]) -> (r: AttachPlan)
    ensures
        forall|j: int, k: int|
            0 <= j < k < r.requests@.len() ==> r.requests@[j].0 < r.requests@[k].0,
        forall|j: int|
            0 <= j < r.requests@.len() ==> (#[trigger] r.requests@[j]).1@ == packs_for(
                procs@,
                packs@,
                r.requests@[j].0,
            ) && r.requests@[j].1@.len() > 0,
        forall|k: int|
            0 <= k < packs@.len() ==> (sole_pid(procs@, #[trigger] packs@[k]) matches Some(p)
                ==> exists|j: int| 0 <= j < r.requests@.len() && r.requests@[j].0 == p),
        r.unattached@ == unattached(procs@, packs@),
{
    let mut requests: Vec<(u32, Vec<usize>)> = Vec::new();
    let mut missing: Vec<(usize, usize)> = Vec::new();
    let mut i: usize = 0;
    while i < packs.len()
        invariant
            i <= packs@.len(),
            forall|j: int, k: int|
                0 <= j < k < requests@.len() ==> requests@[j].0 < requests@[k].0,
            forall|j: int|
                0 <= j < requests@.len() ==> (#[trigger] requests@[j]).1@ == packs_for(
                    procs@,
                    packs@.take(i as int),
                    requests@[j].0,
                ) && requests@[j].1@.len() > 0,
            forall|k: int|
                0 <= k < i ==> (sole_pid(procs@, #[trigger] packs@[k]) matches Some(p) ==> exists|
                    j: int,
                | 0 <= j < requests@.len() && requests@[j].0 == p),
            missing@ == unattached(procs@, packs@.take(i as int)),
        decreases packs@.len() - i,
    {
        let ghost pre = packs@.take(i as int);
        let ghost now = packs@.take(i + 1);
        assert(now.drop_last() =~= pre);
        assert(now.last() == packs@[i as int]);
        let m = pids_matching(procs, &packs[i]);
        let enabled = packs[i].config.agent.enabled;
        if enabled && m.len() != 1 {
            missing.push((i, m.len()));
        }
        if enabled && m.len() == 1 {
            let pid = m[0];
            let mut pos: usize = 0;
            while pos < requests.len() && requests[pos].0 < pid
                invariant
                    pos <= requests@.len(),
                    forall|j: int| 0 <= j < pos ==> requests@[j].0 < pid,
                decreases requests@.len() - pos,
            {
                pos = pos + 1;
            }
            let ghost old_req = requests@;
            if pos < requests.len() && requests[pos].0 == pid {
                let (p0, mut list) = requests.remove(pos);
                list.push(i);
                requests.insert(pos, (p0, list));
                proof {
                    assert forall|j: int| 0 <= j < requests@.len() implies (
                    #[trigger] requests@[j]).1@ == packs_for(procs@, now, requests@[j].0)
                        && requests@[j].1@.len() > 0 by {
                        assert(requests@[j].0 == old_req[j].0);
                    }
                    assert forall|k: int|
                        0 <= k < i + 1 implies (sole_pid(procs@, #[trigger] packs@[k]) matches Some(
                        p,
                    ) ==> exists|j: int| 0 <= j < requests@.len() && requests@[j].0 == p) by {
                        if k < i {
                            match sole_pid(procs@, packs@[k]) {
                                Some(p) => {
                                    let j = choose|j: int|
                                        0 <= j < old_req.len() && old_req[j].0 == p;
                                    assert(requests@[j].0 == p);
                                },
                                None => {},
                            }
                        } else {
                            assert(requests@[pos as int].0 == pid);
                        }
                    }
                    assert forall|j: int, k: int|
                        0 <= j < k < requests@.len() implies requests@[j].0 < requests@[k].0 by {
                        assert(requests@[j].0 == old_req[j].0);
                        assert(requests@[k].0 == old_req[k].0);
                    }
                }
            } else {
                proof {
                    lemma_packs_for_member(procs@, pre, pid);
                    if packs_for(procs@, pre, pid).len() > 0 {
                        let k = choose|k: int|
                            0 <= k < pre.len() && sole_pid(procs@, #[trigger] pre[k]) == Some(pid);
                        assert(pre[k] == packs@[k]);
                        let j = choose|j: int| 0 <= j < old_req.len() && old_req[j].0 == pid;
                        if j < pos {
                        } else if j > pos {
                            assert(old_req[pos as int].0 < old_req[j].0);
                        }
                        assert(false);
                    }
                    assert(packs_for(procs@, pre, pid) =~= Seq::<usize>::empty());
                }
                let mut list: Vec<usize> = Vec::new();
                list.push(i);
                requests.insert(pos, (pid, list));
                proof {
                    assert forall|j: int| 0 <= j < requests@.len() implies (
                    #[trigger] requests@[j]).1@ == packs_for(procs@, now, requests@[j].0)
                        && requests@[j].1@.len() > 0 by {
                        if j < pos {
                            assert(requests@[j] == old_req[j]);
                        } else if j > pos {
                            assert(requests@[j] == old_req[j - 1]);
                            assert(old_req[j - 1].0 != pid);
                        }
                    }
                    assert forall|k: int|
                        0 <= k < i + 1 implies (sole_pid(procs@, #[trigger] packs@[k]) matches Some(
                        p,
                    ) ==> exists|j: int| 0 <= j < requests@.len() && requests@[j].0 == p) by {
                        if k < i {
                            match sole_pid(procs@, packs@[k]) {
                                Some(p) => {
                                    let j = choose|j: int|
                                        0 <= j < old_req.len() && old_req[j].0 == p;
                                    if j < pos {
                                        assert(requests@[j].0 == p);
                                    } else {
                                        assert(requests@[j + 1].0 == p);
                                    }
                                },
                                None => {},
                            }
                        } else {
                            assert(requests@[pos as int].0 == pid);
                        }
                    }
                    assert forall|j: int, k: int|
                        0 <= j < k < requests@.len() implies requests@[j].0 < requests@[k].0 by {
                        if k < pos {
                            assert(requests@[j] == old_req[j]);
                            assert(requests@[k] == old_req[k]);
                        } else if k == pos {
                            assert(requests@[j] == old_req[j]);
                        } else if j < pos {
                            assert(requests@[j] == old_req[j]);
                            assert(requests@[k] == old_req[k - 1]);
                            if pos < old_req.len() {
                                assert(old_req[pos as int].0 >= pid);
                                assert(old_req[pos as int].0 != pid);
                            }
                        } else if j == pos {
                            assert(requests@[k] == old_req[k - 1]);
                            assert(old_req[pos as int].0 >= pid);
                            assert(old_req[pos as int].0 != pid);
                        } else {
                            assert(requests@[j] == old_req[j - 1]);
                            assert(requests@[k] == old_req[k - 1]);
                        }
                    }
                }
            }
        } else {
            proof {
                assert forall|j: int| 0 <= j < requests@.len() implies (
                #[trigger] requests@[j]).1@ == packs_for(procs@, now, requests@[j].0)
                    && requests@[j].1@.len() > 0 by {}
            }
        }
        i = i + 1;
    }
    proof {
        assert(packs@.take(packs@.len() as int) =~= packs@);
        assert(i == packs@.len());
        assert forall|k: int| 0 <= k < packs@.len() implies (sole_pid(procs@, #[trigger] packs@[k])
            matches Some(p) ==> exists|j: int| 0 <= j < requests@.len() && requests@[j].0 == p) by {
            assert(k < i);
        }
    }
    AttachPlan { requests, unattached: missing }
}


// ---- reading the log ------------------------------------------------------------------
/// Index of the first line feed at or after `i` (the end when none).
pub open spec fn byte_line_end(b: Seq<u8>, i: int) -> int
    decreases b.len() - i,
{
    if i < 0 || i >= b.len() {
        b.len() as int
    } else if b[i] == 10 {
        i
    } else {
        byte_line_end(b, i + 1)
    }
}

pub proof fn lemma_byte_line_end(b: Seq<u8>, i: int)
    requires
        0 <= i <= b.len(),
    ensures
        i <= byte_line_end(b, i) <= b.len(),
        byte_line_end(b, i) < b.len() ==> b[byte_line_end(b, i)] == 10,
    decreases b.len() - i,
{
    if i < b.len() && b[i] != 10 {
        lemma_byte_line_end(b, i + 1);
    }
}

/// The complete lines of new log bytes from `i` on, each ended by a line
/// feed and valid UTF-8, without trailing whitespace; reading stops at a
/// line that is not complete or not UTF-8. Also where reading stopped.
pub open spec fn new_lines_from(b: Seq<u8>, i: int) -> (Seq<Seq<char>>, int)
    decreases b.len() - i,
{
    if i < 0 || i >= b.len() {
        (Seq::empty(), i)
    } else {
        proof {
            lemma_byte_line_end(b, i);
        }
        let e = byte_line_end(b, i);
        if e >= b.len() || !vstd::utf8::valid_utf8(b.subrange(i, e + 1)) {
            (Seq::empty(), i)
        } else {
            let text = crate::text::trim_end(vstd::utf8::decode_utf8(b.subrange(i, e + 1)));
            let (rest, end) = new_lines_from(b, e + 1);
            (seq![text] + rest, end)
        }
    }
}

/// Where to resume reading a log of `len` bytes read up to `offset`: from
/// the start when the log is now shorter (it was replaced).
pub fn resume_offset(len: u64, offset: u64) -> (r: u64)
    ensures
        r == if len < offset {
            0
        } else {
            offset
        },
{
    if len < offset {
        0
    } else {
        offset
    }
}

/// The complete lines in bytes newly appended to a log, and how many bytes
/// they take.
pub fn new_lines(bytes: &[u8]) -> (r: (Vec<String>, usize))
    ensures
        (views(r.0@), r.1 as int) == new_lines_from(bytes@, 0),
{
    let mut lines: Vec<String> = Vec::new();
    let mut i: usize = 0;
    let n = bytes.len();
    loop
        invariant
            n == bytes@.len(),
            i <= n,
            new_lines_from(bytes@, 0) == ({
                let (rest, end) = new_lines_from(bytes@, i as int);
                (views(lines@) + rest, end)
            }),
        decreases n - i,
    {
        proof {
            lemma_byte_line_end(bytes@, i as int);
        }
        if i >= n {
            assert(views(lines@) + Seq::<Seq<char>>::empty() =~= views(lines@));
            return (lines, i);
        }
        let mut e = i;
        while e < n && bytes[e] != 10
            invariant
                n == bytes@.len(),
                i <= e <= n,
                byte_line_end(bytes@, i as int) == byte_line_end(bytes@, e as int),
            decreases n - e,
        {
            e = e + 1;
        }
        if e >= n {
            assert(views(lines@) + Seq::<Seq<char>>::empty() =~= views(lines@));
            return (lines, i);
        }
        let mut piece: Vec<u8> = Vec::new();
        let mut k = i;
        while k <= e
            invariant
                n == bytes@.len(),
                i <= k <= e + 1,
                e < n,
                piece@ == bytes@.subrange(i as int, k as int),
            decreases e + 1 - k,
        {
            piece.push(bytes[k]);
            assert(bytes@.subrange(i as int, k + 1) =~= bytes@.subrange(i as int, k as int).push(
                bytes@[k as int],
            ));
            k = k + 1;
        }
        match crate::mcdoc::utf8_text(piece.as_slice()) {
            None => {
                assert(views(lines@) + Seq::<Seq<char>>::empty() =~= views(lines@));
                return (lines, i);
            },
            Some(text) => {
                let cs = chars_of(text.as_str());
                let end = crate::text::trim_end_range(cs.as_slice(), 0, cs.len());
                assert(cs@.subrange(0, cs@.len() as int) =~= cs@);
                let line = crate::text::string_from_chars(cs.as_slice(), 0, end);
                let ghost before = views(lines@);
                lines.push(line);
                proof {
                    assert(views(lines@) =~= before.push(line@));
                    let (rest, fin) = new_lines_from(bytes@, e + 1);
                    assert(before + (seq![line@] + rest) =~= views(lines@) + rest);
                }
                i = e + 1;
            },
        }
    }
}

/// The agent event a log line records, as plain values.
pub open spec fn line_event(line: Seq<char>) -> Option<AgentEventModel> {
    match agent_record(line) {
        None => None,
        Some(json) => match json_object(json) {
            None => None,
            Some(fs) => match event_of(fs) {
                Some(m) => if m.0 == 1 {
                    Some(m)
                } else {
                    None
                },
                None => None,
            },
        },
    }
}

/// The first pack whose id is `id`.
pub open spec fn pack_index(ids: Seq<Seq<char>>, id: Seq<char>) -> Option<int>
    decreases ids.len(),
{
    if ids.len() == 0 {
        None
    } else if ids[0] == id {
        Some(0)
    } else {
        match pack_index(ids.drop_first(), id) {
            Some(k) => Some(k + 1),
            None => None,
        }
    }
}

/// What the service does with a log line.
pub enum LineAction {
    /// An agent event to report.
    Event(AgentEvent),
    /// A request for the pack at this index.
    Call(usize, Request),
    /// Nothing.
    Skip,
}

/// Sorts a log line: an agent event, a request of one of the packs (by
/// their ids), or nothing.
pub fn route_line(line: &str, pack_ids: &[String]) -> (r: LineAction)
    ensures
        match line_event(line@) {
            Some(m) => r matches LineAction::Event(e) && agent_event_model(e) == m,
            None => match marker_request(line@) {
                None => r is Skip,
                Some(req) => match pack_index(views(pack_ids@), req.0) {
                    None => r is Skip,
                    Some(k) => r matches LineAction::Call(i, q) && i == k && request_model(q)
                        == req,
                },
            },
        },
{
    match parse_agent_event(line) {
        Some(e) => {
            return LineAction::Event(e);
        },
        None => {},
    }
    let request = match parse_marker(line) {
        Some(q) => q,
        None => {
            return LineAction::Skip;
        },
    };
    let mut k: usize = 0;
    assert(views(pack_ids@).skip(0) =~= views(pack_ids@));
    while k < pack_ids.len()
        invariant
            k <= pack_ids@.len(),
            line_event(line@) is None,
            marker_request(line@) == Some(request_model(request)),
            pack_index(views(pack_ids@), request.pack_id@) == match pack_index(
                views(pack_ids@).skip(k as int),
                request.pack_id@,
            ) {
                Some(j) => Some(j + k),
                None => None::<int>,
            },
        decreases pack_ids@.len() - k,
    {
        assert(views(pack_ids@).skip(k as int).drop_first() =~= views(pack_ids@).skip(k + 1));
        if crate::text::str_eq(pack_ids[k].as_str(), request.pack_id.as_str()) {
            assert(views(pack_ids@).skip(k as int)[0] == pack_ids@[k as int]@);
            return LineAction::Call(k, request);
        }
        k = k + 1;
    }
    LineAction::Skip
}


/// The agent is attached for a pack only to the one process that runs the
/// pack's instance, and only when the pack asks for it.
pub proof fn law_attach_only_to_the_sole_process(
    procs: Seq<JavaProcess>,
    packs: Seq<Pack>,
    pid: u32,
    k: usize,
)
    requires
        packs.len() <= usize::MAX,
        packs_for(procs, packs, pid).contains(k),
    ensures
        k < packs.len(),
        packs[k as int].config.agent.enabled,
        matching_pids(procs, packs[k as int].log@) == seq![pid],
    decreases packs.len(),
{
    if packs.len() == 0 {
    } else {
        let rest = packs_for(procs, packs.drop_last(), pid);
        if rest.contains(k) {
            law_attach_only_to_the_sole_process(procs, packs.drop_last(), pid, k);
            assert(packs.drop_last()[k as int] == packs[k as int]);
        } else {
            let v = (packs.len() - 1) as usize;
            crate::mcdoc::parser::lemma_push_contains(rest, v);
            assert(sole_pid(procs, packs.last()) == Some(pid));
            assert(rest.push(v).contains(k));
            assert(k == v);
            assert(packs[k as int] == packs.last());
            let m = matching_pids(procs, packs.last().log@);
            assert(m.len() == 1 && m[0] == pid);
            assert(m =~= seq![pid]);
        }
    }
}

} // verus!
