//! Capability handlers. A request is routed to the host action it asks for
//! (or answered at once when it cannot be served); the result of the action
//! is then written as the SNBT compound that goes into the pack's inbox.
//! Every result carries `ok`.
use vstd::prelude::*;

use crate::mcfd::bridge::Request;
use crate::mcfd::config::Config;
use crate::mcfd::snbt::{arg_text, escape_string, escaped, value_model, Value, ValueModel};
use crate::text::{
    alnum, chars_of, decimal, is_ascii_alnum, push_char, push_i64, push_str, push_u64,
    signed_decimal, str_eq, string_from_chars, string_of,
};

verus! {

broadcast use vstd::string::group_string_axioms;

/// Most characters of a body or file returned to a pack.
pub const MAX_BODY: usize = 32 * 1024;

/// `{ok:1b}`.
pub fn ok_only() -> (r: String)
    ensures
        r@ == "{ok:1b}"@,
{
    string_of("{ok:1b}")
}

pub open spec fn err_text(message: Seq<char>) -> Seq<char> {
    "{ok:0b,err:"@ + escaped(message) + "}"@
}

/// A failed result carrying `message`.
pub fn err(message: &str) -> (r: String)
    ensures
        r@ == err_text(message@),
{
    let mut out = string_of("{ok:0b,err:");
    let e = escape_string(message);
    push_str(&mut out, e.as_str());
    push_str(&mut out, "}");
    out
}

// ---- domains ---------------------------------------------------------------
/// First index at or after `from` where `p` occurs in `s`.
pub open spec fn find_from(s: Seq<char>, p: Seq<char>, from: int) -> Option<int>
    decreases s.len() - from,
{
    if from < 0 || from + p.len() > s.len() {
        None
    } else if s.subrange(from, from + p.len()) == p {
        Some(from)
    } else if from < s.len() {
        find_from(s, p, from + 1)
    } else {
        None
    }
}

proof fn lemma_find_bound(s: Seq<char>, p: Seq<char>, from: int)
    ensures
        find_from(s, p, from) matches Some(i) ==> from <= i && i + p.len() <= s.len() && s.subrange(
            i,
            i + p.len(),
        ) == p,
    decreases s.len() - from,
{
    if from >= 0 && from + p.len() <= s.len() && s.subrange(from, from + p.len()) != p && from
        < s.len() {
        lemma_find_bound(s, p, from + 1);
    }
}

/// The part of a URL after its scheme (up to a second `://`), or the whole
/// URL when it has none.
pub open spec fn after_scheme(url: Seq<char>) -> Seq<char> {
    match find_from(url, "://"@, 0) {
        None => url,
        Some(i) => {
            let rest = url.skip(i + 3);
            match find_from(rest, "://"@, 0) {
                None => rest,
                Some(j) => rest.take(j),
            }
        },
    }
}

pub open spec fn is_host_end(c: char) -> bool {
    c == '/' || c == ':' || c == '?' || c == '#'
}

/// Index of the first host terminator (`/`, `:`, `?`, `#`) from `i` on.
pub open spec fn host_end(s: Seq<char>, i: int) -> int
    decreases s.len() - i,
{
    if 0 <= i < s.len() && !is_host_end(s[i]) {
        host_end(s, i + 1)
    } else {
        i
    }
}

/// The host named by a URL.
pub open spec fn url_host(url: Seq<char>) -> Seq<char> {
    let s = after_scheme(url);
    s.take(host_end(s, 0))
}

/// Whether `host` is `domain` or one of its subdomains.
pub open spec fn host_matches(host: Seq<char>, domain: Seq<char>) -> bool {
    host == domain || (host.len() >= domain.len() + 1 && host.skip(host.len() - domain.len() - 1)
        == seq!['.'] + domain)
}

pub open spec fn allowed(url: Seq<char>, allow: Seq<String>) -> bool {
    exists|i: int| 0 <= i < allow.len() && host_matches(url_host(url), #[trigger] allow[i]@)
}

fn find_at(cs: &[char], p: &[char], from: usize) -> (r: Option<usize>)
    requires
        from <= cs@.len(),
    ensures
        find_from(cs@, p@, from as int) == (match r {
            Some(i) => Some(i as int),
            None => None::<int>,
        }),
        r matches Some(i) ==> i + p@.len() <= cs@.len(),
        r matches Some(i) ==> from <= i,
{
    let mut i = from;
    while p.len() <= cs.len() - i
        invariant
            from <= i <= cs@.len(),
            find_from(cs@, p@, from as int) == find_from(cs@, p@, i as int),
        decreases cs@.len() - i,
    {
        if crate::text::range_eq(cs, i, i + p.len(), p) {
            return Some(i);
        }
        assert(p@.len() > 0) by {
            if p@.len() == 0 {
                assert(cs@.subrange(i as int, i as int) =~= p@);
            }
        }
        i = i + 1;
    }
    None
}

/// Whether `url` names a host in `allow` or a subdomain of one.
pub fn host_allowed(url: &str, allow: &[String]) -> (r: bool)
    ensures
        r == allowed(url@, allow@),
{
    let cs = chars_of(url);
    let sep = chars_of("://");
    proof {
        reveal_strlit("://");
    }
    let (a, b) = match find_at(cs.as_slice(), sep.as_slice(), 0) {
        None => (0, cs.len()),
        Some(i) => {
            let n = cs.len();
            let m = sep.len();
            assert(i + m <= n);
            let start = i + m;
            let ghost rest = cs@.skip(start as int);
            match find_at(cs.as_slice(), sep.as_slice(), start) {
                None => (start, cs.len()),
                Some(j) => {
                    proof {
                        lemma_find_shift(cs@, sep@, start as int, start as int);
                    }
                    (start, j)
                },
            }
        },
    };
    let ghost s = after_scheme(url@);
    proof {
        lemma_find_bound(url@, "://"@, 0);
        match find_from(url@, "://"@, 0) {
            None => {
                assert(cs@.subrange(0, cs@.len() as int) =~= s);
            },
            Some(i) => {
                let rest = url@.skip(i + 3);
                lemma_find_shift(cs@, sep@, i + 3, i + 3);
                lemma_find_bound(rest, "://"@, 0);
                match find_from(rest, "://"@, 0) {
                    None => {
                        assert(cs@.subrange(i + 3, cs@.len() as int) =~= s);
                    },
                    Some(j) => {
                        assert(cs@.subrange(i + 3, i + 3 + j) =~= s);
                    },
                }
            },
        }
        assert(cs@.subrange(a as int, b as int) == s);
    }
    let mut e = a;
    while e < b && cs[e] != '/' && cs[e] != ':' && cs[e] != '?' && cs[e] != '#'
        invariant
            a <= e <= b <= cs@.len(),
            s == cs@.subrange(a as int, b as int),
            host_end(s, 0) == host_end(s, e - a),
        decreases b - e,
    {
        assert(s[e - a] == cs@[e as int]);
        e = e + 1;
    }
    let host = string_from_chars(cs.as_slice(), a, e);
    assert(host@ =~= url_host(url@));
    let mut i: usize = 0;
    while i < allow.len()
        invariant
            i <= allow@.len(),
            host@ == url_host(url@),
            forall|j: int| 0 <= j < i ==> !host_matches(host@, #[trigger] allow@[j]@),
        decreases allow@.len() - i,
    {
        let domain = allow[i].as_str();
        if str_eq(host.as_str(), domain) {
            assert(host_matches(url_host(url@), allow@[i as int]@));
            return true;
        }
        let mut dotted = string_of(".");
        push_str(&mut dotted, domain);
        let hs = chars_of(host.as_str());
        let ds = chars_of(dotted.as_str());
        proof {
            reveal_strlit(".");
            assert(ds@ =~= seq!['.'] + domain@);
        }
        if ds.len() <= hs.len() && crate::text::range_eq(
            hs.as_slice(),
            hs.len() - ds.len(),
            hs.len(),
            ds.as_slice(),
        ) {
            proof {
                assert(hs@.subrange(hs@.len() - ds@.len(), hs@.len() as int) =~= hs@.skip(
                    hs@.len() - ds@.len(),
                ));
                assert(host_matches(url_host(url@), allow@[i as int]@));
            }
            return true;
        }
        proof {
            if host@.len() >= domain@.len() + 1 {
                assert(hs@.subrange(hs@.len() - ds@.len(), hs@.len() as int) =~= hs@.skip(
                    hs@.len() - ds@.len(),
                ));
            }
            assert(!host_matches(host@, allow@[i as int]@));
        }
        i = i + 1;
    }
    false
}

proof fn lemma_find_shift(s: Seq<char>, p: Seq<char>, k: int, from: int)
    requires
        0 <= k <= from <= s.len(),
    ensures
        find_from(s, p, from) == (match find_from(s.skip(k), p, from - k) {
            Some(j) => Some(j + k),
            None => None::<int>,
        }),
    decreases s.len() - from,
{
    if from + p.len() <= s.len() {
        assert(s.skip(k).subrange(from - k, from - k + p.len()) =~= s.subrange(from, from + p.len()));
        if from < s.len() {
            lemma_find_shift(s, p, k, from + 1);
        }
    }
}

// ---- names -----------------------------------------------------------------
/// A key kept as a file name: ASCII letters, digits, `-` and `_` kept,
/// anything else as `_`.
pub open spec fn kv_safe(s: Seq<char>) -> Seq<char> {
    s.map_values(|c: char| if is_ascii_alnum(c) || c == '-' || c == '_' { c } else { '_' })
}

/// The file that holds a key.
pub fn kv_filename(key: &str) -> (r: String)
    ensures
        r@ == kv_safe(key@) + ".kv"@,
{
    let cs = chars_of(key);
    let mut out = String::new();
    let mut i: usize = 0;
    while i < cs.len()
        invariant
            cs@ == key@,
            i <= cs@.len(),
            out@ == kv_safe(key@.take(i as int)),
        decreases cs@.len() - i,
    {
        let c = cs[i];
        if alnum(c) || c == '-' || c == '_' {
            push_char(&mut out, c);
        } else {
            push_char(&mut out, '_');
        }
        assert(kv_safe(key@.take(i + 1)) =~= kv_safe(key@.take(i as int)).push(kv_safe(key@)[i as int]));
        i = i + 1;
    }
    assert(key@.take(i as int) =~= key@);
    push_str(&mut out, ".kv");
    out
}

/// A column name as an SNBT key: ASCII letters, digits and `_` kept,
/// anything else as `_`.
pub open spec fn column_key(s: Seq<char>) -> Seq<char> {
    s.map_values(|c: char| if is_ascii_alnum(c) || c == '_' { c } else { '_' })
}

pub fn safe_key(name: &str) -> (r: String)
    ensures
        r@ == column_key(name@),
{
    let cs = chars_of(name);
    let mut out = String::new();
    let mut i: usize = 0;
    while i < cs.len()
        invariant
            cs@ == name@,
            i <= cs@.len(),
            out@ == column_key(name@.take(i as int)),
        decreases cs@.len() - i,
    {
        let c = cs[i];
        if alnum(c) || c == '_' {
            push_char(&mut out, c);
        } else {
            push_char(&mut out, '_');
        }
        assert(column_key(name@.take(i + 1)) =~= column_key(name@.take(i as int)).push(
            column_key(name@)[i as int],
        ));
        i = i + 1;
    }
    assert(name@.take(i as int) =~= name@);
    out
}

// ---- routing ---------------------------------------------------------------
/// What serving a request takes: an answer decided at once, or a host
/// action whose outcome the matching `*_reply` function turns into the
/// answer. File and key-value paths are relative to `root` and must be
/// kept inside it by whoever performs the action.
#[derive(Debug)]
pub enum HostAction {
    Reply(String),
    HttpGet { url: String },
    HttpPost { url: String, body: String },
    FileRead { root: String, path: String },
    FileWrite { root: String, path: String, content: String },
    KvGet { root: String, file: String },
    KvSet { root: String, file: String, value: String },
    Db { path: String, sql: String, params: Vec<String>, query: bool },
    TimeNow,
    RandInt { min: i64, max: i64 },
}

/// The model of a host action.
pub enum ActionModel {
    Reply(Seq<char>),
    HttpGet(Seq<char>),
    HttpPost(Seq<char>, Seq<char>),
    FileRead(Seq<char>, Seq<char>),
    FileWrite(Seq<char>, Seq<char>, Seq<char>),
    KvGet(Seq<char>, Seq<char>),
    KvSet(Seq<char>, Seq<char>, Seq<char>),
    Db(Seq<char>, Seq<char>, Seq<Seq<char>>, bool),
    TimeNow,
    RandInt(i64, i64),
}

pub open spec fn action_model(a: HostAction) -> ActionModel {
    match a {
        HostAction::Reply(s) => ActionModel::Reply(s@),
        HostAction::HttpGet { url } => ActionModel::HttpGet(url@),
        HostAction::HttpPost { url, body } => ActionModel::HttpPost(url@, body@),
        HostAction::FileRead { root, path } => ActionModel::FileRead(root@, path@),
        HostAction::FileWrite { root, path, content } => ActionModel::FileWrite(
            root@,
            path@,
            content@,
        ),
        HostAction::KvGet { root, file } => ActionModel::KvGet(root@, file@),
        HostAction::KvSet { root, file, value } => ActionModel::KvSet(root@, file@, value@),
        HostAction::Db { path, sql, params, query } => ActionModel::Db(
            path@,
            sql@,
            params@.map_values(|p: String| p@),
            query,
        ),
        HostAction::TimeNow => ActionModel::TimeNow,
        HostAction::RandInt { min, max } => ActionModel::RandInt(min, max),
    }
}

/// Argument `i` as plain text.
pub open spec fn arg_at(args: Seq<Value>, i: int) -> Option<Seq<char>> {
    if 0 <= i < args.len() {
        Some(arg_text(value_model(args[i])))
    } else {
        None
    }
}

/// Argument `i` as a whole number (a float truncated), 0 when it is
/// missing or not a number.
pub open spec fn int_arg(args: Seq<Value>, i: int) -> i64 {
    if 0 <= i < args.len() {
        match value_model(args[i]) {
            ValueModel::Int(n) => n,
            ValueModel::Float(t) => crate::mcfd::snbt::float_whole(t),
            ValueModel::Bool(b) => if b {
                1
            } else {
                0
            },
            _ => 0,
        }
    } else {
        0
    }
}

/// The texts of the items of argument `i` when it is a list, else none.
pub open spec fn list_arg(args: Seq<Value>, i: int) -> Seq<Seq<char>> {
    if 0 <= i < args.len() {
        match value_model(args[i]) {
            ValueModel::List(items) => items.map_values(|v: ValueModel| arg_text(v)),
            _ => Seq::empty(),
        }
    } else {
        Seq::empty()
    }
}

pub open spec fn reply(message: Seq<char>) -> ActionModel {
    ActionModel::Reply(err_text(message))
}

/// The action a request asks for.
pub open spec fn action_for(config: Config, request: Request) -> ActionModel {
    let m = request.module@;
    let f = request.function@;
    let args = request.args@;
    let caps = config.capabilities;
    if m == "http"@ && (f == "get"@ || f == "post"@) {
        match caps.http {
            None => reply("http capability disabled"@),
            Some(http) => match arg_at(args, 0) {
                None => reply("missing url"@),
                Some(url) => if !allowed(url, http.allow_domains@) {
                    reply("domain not allowed"@)
                } else if f == "post"@ {
                    ActionModel::HttpPost(
                        url,
                        match arg_at(args, 1) {
                            Some(b) => b,
                            None => Seq::empty(),
                        },
                    )
                } else {
                    ActionModel::HttpGet(url)
                },
            },
        }
    } else if m == "file"@ && f == "read"@ {
        match caps.file {
            None => reply("file capability disabled"@),
            Some(file) => match arg_at(args, 0) {
                None => reply("missing path"@),
                Some(rel) => ActionModel::FileRead(file.root@, rel),
            },
        }
    } else if m == "file"@ && f == "write"@ {
        match caps.file {
            None => reply("file capability disabled"@),
            Some(file) => match (arg_at(args, 0), arg_at(args, 1)) {
                (Some(rel), Some(content)) => ActionModel::FileWrite(file.root@, rel, content),
                _ => reply("missing path or content"@),
            },
        }
    } else if m == "kv"@ && f == "get"@ {
        match caps.kv {
            None => reply("kv capability disabled"@),
            Some(kv) => match arg_at(args, 0) {
                None => reply("missing key"@),
                Some(key) => ActionModel::KvGet(kv.root@, kv_safe(key) + ".kv"@),
            },
        }
    } else if m == "kv"@ && f == "set"@ {
        match caps.kv {
            None => reply("kv capability disabled"@),
            Some(kv) => match (arg_at(args, 0), arg_at(args, 1)) {
                (Some(key), Some(value)) => ActionModel::KvSet(
                    kv.root@,
                    kv_safe(key) + ".kv"@,
                    value,
                ),
                _ => reply("missing key or value"@),
            },
        }
    } else if m == "db"@ && (f == "exec"@ || f == "query"@) {
        match caps.db {
            None => reply("db capability disabled"@),
            Some(db) => match arg_at(args, 0) {
                None => reply("missing sql"@),
                Some(sql) => ActionModel::Db(db.path@, sql, list_arg(args, 1), f == "query"@),
            },
        }
    } else if m == "time"@ && f == "now"@ {
        if caps.time {
            ActionModel::TimeNow
        } else {
            reply("time capability disabled"@)
        }
    } else if m == "rand"@ && f == "int"@ {
        if !caps.rand {
            reply("rand capability disabled"@)
        } else if int_arg(args, 1) < int_arg(args, 0) {
            reply("max < min"@)
        } else {
            ActionModel::RandInt(int_arg(args, 0), int_arg(args, 1))
        }
    } else {
        reply("unknown host function"@)
    }
}

fn arg_str(request: &Request, index: usize) -> (r: Option<String>)
    ensures
        match arg_at(request.args@, index as int) {
            Some(t) => r matches Some(s) && s@ == t,
            None => r is None,
        },
{
    if index < request.args.len() {
        Some(request.args[index].to_arg_string())
    } else {
        None
    }
}

fn int_arg_of(request: &Request, index: usize) -> (r: i64)
    ensures
        r == int_arg(request.args@, index as int),
{
    if index < request.args.len() {
        match request.args[index].as_int() {
            Some(n) => n,
            None => 0,
        }
    } else {
        0
    }
}

fn list_arg_of(request: &Request, index: usize) -> (r: Vec<String>)
    ensures
        r@.map_values(|p: String| p@) == list_arg(request.args@, index as int),
{
    let mut out: Vec<String> = Vec::new();
    if index < request.args.len() {
        match &request.args[index] {
            Value::List(items) => {
                let ghost ms = crate::mcfd::snbt::values_model(items@);
                proof {
                    crate::mcfd::snbt::lemma_values_model_len(items@);
                }
                let mut i: usize = 0;
                while i < items.len()
                    invariant
                        i <= items@.len(),
                        ms == crate::mcfd::snbt::values_model(items@),
                        ms.len() == items@.len(),
                        out@.len() == i,
                        forall|k: int| 0 <= k < i ==> (#[trigger] out@[k])@ == arg_text(ms[k]),
                    decreases items@.len() - i,
                {
                    proof {
                        crate::mcfd::snbt::lemma_values_model_index(items@, i as int);
                    }
                    let t = items[i].to_arg_string();
                    out.push(t);
                    i = i + 1;
                }
                assert(out@.map_values(|p: String| p@) =~= ms.map_values(
                    |v: ValueModel| arg_text(v),
                ));
            },
            _ => {},
        }
    }
    assert(out@.map_values(|p: String| p@) =~= list_arg(request.args@, index as int));
    out
}

fn err_action(message: &str) -> (r: HostAction)
    ensures
        action_model(r) == reply(message@),
{
    HostAction::Reply(err(message))
}

/// Routes a request to the host action it asks for, or answers it at once
/// when its capability is disabled or its arguments do not do.
pub fn dispatch(config: &Config, request: &Request) -> (r: HostAction)
    ensures
        action_model(r) == action_for(*config, *request),
{
    let m = request.module.as_str();
    let f = request.function.as_str();
    let caps = &config.capabilities;
    if str_eq(m, "http") && (str_eq(f, "get") || str_eq(f, "post")) {
        let http = match &caps.http {
            None => {
                return err_action("http capability disabled");
            },
            Some(http) => http,
        };
        let url = match arg_str(request, 0) {
            None => {
                return err_action("missing url");
            },
            Some(url) => url,
        };
        if !host_allowed(url.as_str(), http.allow_domains.as_slice()) {
            return err_action("domain not allowed");
        }
        if str_eq(f, "post") {
            let body = match arg_str(request, 1) {
                Some(b) => b,
                None => String::new(),
            };
            HostAction::HttpPost { url, body }
        } else {
            HostAction::HttpGet { url }
        }
    } else if str_eq(m, "file") && str_eq(f, "read") {
        match &caps.file {
            None => err_action("file capability disabled"),
            Some(file) => match arg_str(request, 0) {
                None => err_action("missing path"),
                Some(rel) => HostAction::FileRead { root: string_of(file.root.as_str()), path: rel },
            },
        }
    } else if str_eq(m, "file") && str_eq(f, "write") {
        match &caps.file {
            None => err_action("file capability disabled"),
            Some(file) => match (arg_str(request, 0), arg_str(request, 1)) {
                (Some(rel), Some(content)) => HostAction::FileWrite {
                    root: string_of(file.root.as_str()),
                    path: rel,
                    content,
                },
                _ => err_action("missing path or content"),
            },
        }
    } else if str_eq(m, "kv") && str_eq(f, "get") {
        match &caps.kv {
            None => err_action("kv capability disabled"),
            Some(kv) => match arg_str(request, 0) {
                None => err_action("missing key"),
                Some(key) => HostAction::KvGet {
                    root: string_of(kv.root.as_str()),
                    file: kv_filename(key.as_str()),
                },
            },
        }
    } else if str_eq(m, "kv") && str_eq(f, "set") {
        match &caps.kv {
            None => err_action("kv capability disabled"),
            Some(kv) => match (arg_str(request, 0), arg_str(request, 1)) {
                (Some(key), Some(value)) => HostAction::KvSet {
                    root: string_of(kv.root.as_str()),
                    file: kv_filename(key.as_str()),
                    value,
                },
                _ => err_action("missing key or value"),
            },
        }
    } else if str_eq(m, "db") && (str_eq(f, "exec") || str_eq(f, "query")) {
        match &caps.db {
            None => err_action("db capability disabled"),
            Some(db) => match arg_str(request, 0) {
                None => err_action("missing sql"),
                Some(sql) => HostAction::Db {
                    path: string_of(db.path.as_str()),
                    sql,
                    params: list_arg_of(request, 1),
                    query: str_eq(f, "query"),
                },
            },
        }
    } else if str_eq(m, "time") && str_eq(f, "now") {
        if caps.time {
            HostAction::TimeNow
        } else {
            err_action("time capability disabled")
        }
    } else if str_eq(m, "rand") && str_eq(f, "int") {
        if !caps.rand {
            return err_action("rand capability disabled");
        }
        let min = int_arg_of(request, 0);
        let max = int_arg_of(request, 1);
        if max < min {
            err_action("max < min")
        } else {
            HostAction::RandInt { min, max }
        }
    } else {
        err_action("unknown host function")
    }
}

// ---- results ---------------------------------------------------------------
/// At most the first `MAX_BODY` characters of `s`.
pub open spec fn truncated(s: Seq<char>) -> Seq<char> {
    if s.len() <= MAX_BODY {
        s
    } else {
        s.take(MAX_BODY as int)
    }
}

fn truncated_string(text: &str) -> (r: String)
    ensures
        r@ == truncated(text@),
{
    let cs = chars_of(text);
    let end = if cs.len() <= MAX_BODY {
        cs.len()
    } else {
        MAX_BODY
    };
    let r = string_from_chars(cs.as_slice(), 0, end);
    assert(cs@.subrange(0, cs@.len() as int) =~= cs@);
    r
}

/// The result of an HTTP exchange: status and (truncated) body.
pub fn http_reply(status: u16, body: &str) -> (r: String)
    ensures
        r@ == "{ok:1b,status:"@ + decimal(status as nat) + ",body:"@ + escaped(truncated(body@))
            + "}"@,
{
    let mut out = string_of("{ok:1b,status:");
    push_u64(&mut out, status as u64);
    push_str(&mut out, ",body:");
    let t = truncated_string(body);
    let e = escape_string(t.as_str());
    push_str(&mut out, e.as_str());
    push_str(&mut out, "}");
    out
}

/// The result of reading a file: its (truncated) content.
pub fn file_content_reply(content: &str) -> (r: String)
    ensures
        r@ == "{ok:1b,content:"@ + escaped(truncated(content@)) + "}"@,
{
    let mut out = string_of("{ok:1b,content:");
    let t = truncated_string(content);
    let e = escape_string(t.as_str());
    push_str(&mut out, e.as_str());
    push_str(&mut out, "}");
    out
}

/// The result of reading a key: its value (empty for a missing key).
pub fn kv_value_reply(value: &str) -> (r: String)
    ensures
        r@ == "{ok:1b,value:"@ + escaped(value@) + "}"@,
{
    let mut out = string_of("{ok:1b,value:");
    let e = escape_string(value);
    push_str(&mut out, e.as_str());
    push_str(&mut out, "}");
    out
}

/// The result of a statement: how many rows it changed.
pub fn rows_affected_reply(rows: u64) -> (r: String)
    ensures
        r@ == "{ok:1b,rows_affected:"@ + decimal(rows as nat) + "}"@,
{
    let mut out = string_of("{ok:1b,rows_affected:");
    push_u64(&mut out, rows);
    push_str(&mut out, "}");
    out
}

/// `key:"value"` pairs of one row joined by commas.
pub open spec fn row_fields(columns: Seq<String>, values: Seq<String>) -> Seq<char>
    decreases columns.len(),
{
    if columns.len() == 0 {
        Seq::empty()
    } else if columns.len() == 1 {
        column_key(columns[0]@) + ":"@ + escaped(values[0]@)
    } else {
        row_fields(columns.drop_last(), values) + ","@ + column_key(columns.last()@) + ":"@
            + escaped(values[columns.len() - 1]@)
    }
}

/// One result row as an SNBT compound keyed by column name.
pub fn row_compound(columns: &[String], values: &[String]) -> (r: String)
    requires
        columns@.len() == values@.len(),
    ensures
        r@ == "{"@ + row_fields(columns@, values@) + "}"@,
{
    let mut fields = String::new();
    let mut i: usize = 0;
    while i < columns.len()
        invariant
            columns@.len() == values@.len(),
            i <= columns@.len(),
            fields@ == row_fields(columns@.take(i as int), values@),
        decreases columns@.len() - i,
    {
        if i > 0 {
            push_str(&mut fields, ",");
        }
        let k = safe_key(columns[i].as_str());
        push_str(&mut fields, k.as_str());
        push_str(&mut fields, ":");
        let e = escape_string(values[i].as_str());
        push_str(&mut fields, e.as_str());
        proof {
            let c = columns@.take(i + 1);
            assert(c.drop_last() =~= columns@.take(i as int));
            assert(c.last() == columns@[i as int]);
            if i == 0 {
                assert(c[0] == columns@[0]);
            }
        }
        i = i + 1;
    }
    assert(columns@.take(i as int) =~= columns@);
    let mut out = string_of("{");
    push_str(&mut out, fields.as_str());
    push_str(&mut out, "}");
    out
}

/// Texts joined by commas.
pub open spec fn comma_list(xs: Seq<String>) -> Seq<char>
    decreases xs.len(),
{
    if xs.len() == 0 {
        Seq::empty()
    } else if xs.len() == 1 {
        xs[0]@
    } else {
        comma_list(xs.drop_last()) + ","@ + xs.last()@
    }
}

/// The result of a query: the row count and the rows.
pub fn query_reply(rows: &[String]) -> (r: String)
    ensures
        r@ == "{ok:1b,rows_affected:"@ + decimal(rows@.len()) + ",rows:["@ + comma_list(rows@)
            + "]}"@,
{
    let mut out = string_of("{ok:1b,rows_affected:");
    push_u64(&mut out, rows.len() as u64);
    push_str(&mut out, ",rows:[");
    let mut i: usize = 0;
    let ghost head = out@;
    while i < rows.len()
        invariant
            i <= rows@.len(),
            out@ == head + comma_list(rows@.take(i as int)),
        decreases rows@.len() - i,
    {
        if i > 0 {
            push_str(&mut out, ",");
        }
        push_str(&mut out, rows[i].as_str());
        proof {
            let c = rows@.take(i + 1);
            assert(c.drop_last() =~= rows@.take(i as int));
            assert(c.last() == rows@[i as int]);
            if i == 0 {
                assert(c[0] == rows@[0]);
            }
        }
        i = i + 1;
    }
    assert(rows@.take(i as int) =~= rows@);
    push_str(&mut out, "]}");
    out
}

/// The number a random draw picks from `min..=max`.
pub open spec fn drawn(min: i64, max: i64, random: u64) -> int {
    min + (random as int) % (max - min + 1)
}

/// The result of a random draw from `min..=max`, the draw given by the
/// caller's random source.
pub fn rand_reply(min: i64, max: i64, random: u64) -> (r: String)
    requires
        min <= max,
        !(min == i64::MIN && max == i64::MAX),
    ensures
        min <= drawn(min, max, random) <= max,
        r@ == "{ok:1b,value:"@ + signed_decimal(drawn(min, max, random)) + "}"@,
{
    let span: u64 = span_of(min, max);
    let offset: u64 = random % span;
    assert(offset < span);
    let value: i64 = add_offset(min, max, offset);
    let mut out = string_of("{ok:1b,value:");
    push_i64(&mut out, value);
    push_str(&mut out, "}");
    out
}

fn span_of(min: i64, max: i64) -> (r: u64)
    requires
        min <= max,
        !(min == i64::MIN && max == i64::MAX),
    ensures
        r == max - min + 1,
        r >= 1,
{
    if min >= 0 {
        (max - min) as u64 + 1
    } else if max < 0 {
        (max - min) as u64 + 1
    } else {
        let neg: u64 = if min == i64::MIN {
            9223372036854775808u64
        } else {
            (-min) as u64
        };
        max as u64 + neg + 1
    }
}

fn add_offset(min: i64, max: i64, offset: u64) -> (r: i64)
    requires
        min <= max,
        offset <= max - min,
    ensures
        r == min + offset,
{
    if min >= 0 {
        min + offset as i64
    } else {
        let neg: u64 = if min == i64::MIN {
            9223372036854775808u64
        } else {
            (-min) as u64
        };
        if offset >= neg {
            (offset - neg) as i64
        } else {
            let below: u64 = neg - offset;
            if below == 9223372036854775808u64 {
                i64::MIN
            } else {
                -(below as i64)
            }
        }
    }
}

// ---- time ------------------------------------------------------------------
/// Division rounding toward zero, as Rust's `/` on signed integers.
pub open spec fn tdiv(a: int, b: int) -> int {
    if a >= 0 {
        a / b
    } else {
        -((-a) / b)
    }
}

/// The proleptic Gregorian date `(year, month, day)` of a count of days
/// since 1970-01-01 (Howard Hinnant's `civil_from_days`).
pub open spec fn civil(days: int) -> (int, u32, u32) {
    let z = days + 719468;
    let era = tdiv(if z >= 0 {
        z
    } else {
        z - 146096
    }, 146097);
    let doe = z - era * 146097;
    let yoe = tdiv(doe - tdiv(doe, 1460) + tdiv(doe, 36524) - tdiv(doe, 146096), 365);
    let year = yoe + era * 400;
    let doy = doe - (365 * yoe + tdiv(yoe, 4) - tdiv(yoe, 100));
    let mp = tdiv(5 * doy + 2, 153);
    let day = (doy - tdiv(153 * mp + 2, 5) + 1) as u32;
    let month = (if mp < 10 {
        mp + 3
    } else {
        mp - 9
    }) as u32;
    (
        if month <= 2 {
            year + 1
        } else {
            year
        },
        month,
        day,
    )
}

fn tdiv_exec(a: i64, b: i64) -> (r: i64)
    requires
        b > 0,
        a > i64::MIN,
    ensures
        r == tdiv(a as int, b as int),
        a >= 0 ==> 0 <= r <= a,
        a < 0 ==> a <= r <= 0,
{
    if a >= 0 {
        assert(0 <= a / b <= a) by (nonlinear_arith)
            requires
                a >= 0,
                b > 0,
        ;
        a / b
    } else {
        let m = -a;
        assert(0 <= m / b <= m) by (nonlinear_arith)
            requires
                m >= 0,
                b > 0,
        ;
        -(m / b)
    }
}

/// The day of the era (days since the era's March 1st) lies in one era.
proof fn lemma_day_of_era(z: int)
    ensures
        ({
            let era = tdiv(if z >= 0 {
                z
            } else {
                z - 146096
            }, 146097);
            0 <= z - era * 146097 <= 146096
        }),
{
    if z >= 0 {
        vstd::arithmetic::div_mod::lemma_fundamental_div_mod(z, 146097);
        vstd::arithmetic::div_mod::lemma_mod_pos_bound(z, 146097);
    } else {
        let w = 146096 - z;
        vstd::arithmetic::div_mod::lemma_fundamental_div_mod(w, 146097);
        vstd::arithmetic::div_mod::lemma_mod_pos_bound(w, 146097);
        assert(-(z - 146096) == w);
    }
}

/// The civil date of a day count.
pub fn civil_from_days(days: i64) -> (r: (i64, u32, u32))
    requires
        -200_000_000_000_000 <= days <= 200_000_000_000_000,
    ensures
        (r.0 as int, r.1, r.2) == civil(days as int),
{
    let z = days + 719468;
    let era = tdiv_exec(if z >= 0 {
        z
    } else {
        z - 146096
    }, 146097);
    proof {
        lemma_day_of_era(z as int);
        assert(-2_000_000_000 <= era <= 2_000_000_000) by (nonlinear_arith)
            requires
                0 <= z - era * 146097 <= 146096,
                -200_000_000_000_000 <= z <= 200_000_001_000_000,
        ;
    }
    let doe = z - era * 146097;
    let yoe = tdiv_exec(
        doe - tdiv_exec(doe, 1460) + tdiv_exec(doe, 36524) - tdiv_exec(doe, 146096),
        365,
    );
    let year = yoe + era * 400;
    let doy = doe - (365 * yoe + tdiv_exec(yoe, 4) - tdiv_exec(yoe, 100));
    let mp = tdiv_exec(5 * doy + 2, 153);
    let day = (doy - tdiv_exec(153 * mp + 2, 5) + 1) as u32;
    let month = (if mp < 10 {
        mp + 3
    } else {
        mp - 9
    }) as u32;
    (
        if month <= 2 {
            year + 1
        } else {
            year
        },
        month,
        day,
    )
}

/// `width` zeros (none for a negative width).
pub open spec fn zeros(n: int) -> Seq<char> {
    Seq::new(
        if n > 0 {
            n as nat
        } else {
            0
        },
        |i: int| '0',
    )
}

/// A number written with at least `width` characters, zeros after the sign
/// (`{:0width$}`).
pub open spec fn padded(v: int, width: int) -> Seq<char> {
    if v < 0 {
        seq!['-'] + zeros(width - 1 - decimal((-v) as nat).len()) + decimal((-v) as nat)
    } else {
        zeros(width - decimal(v as nat).len()) + decimal(v as nat)
    }
}

fn push_zeros(out: &mut String, n: usize)
    ensures
        final(out)@ == old(out)@ + zeros(n as int),
{
    let mut i: usize = 0;
    while i < n
        invariant
            i <= n,
            out@ == old(out)@ + zeros(i as int),
        decreases n - i,
    {
        push_char(out, '0');
        assert(zeros(i + 1) =~= zeros(i as int).push('0'));
        i = i + 1;
    }
}

fn push_padded(out: &mut String, v: i64, width: usize)
    requires
        width >= 1,
    ensures
        final(out)@ == old(out)@ + padded(v as int, width as int),
{
    let magnitude: u64 = if v >= 0 {
        v as u64
    } else if v == i64::MIN {
        9223372036854775808u64
    } else {
        (-v) as u64
    };
    let mut digits = String::new();
    push_u64(&mut digits, magnitude);
    let n = chars_of(digits.as_str()).len();
    if v < 0 {
        push_char(out, '-');
        if n < width - 1 {
            push_zeros(out, width - 1 - n);
        } else {
            push_zeros(out, 0);
        }
    } else {
        if n < width {
            push_zeros(out, width - n);
        } else {
            push_zeros(out, 0);
        }
    }
    push_str(out, digits.as_str());
    proof {
        let d = decimal(magnitude as nat);
        assert(digits@ =~= d);
        if v < 0 {
            assert(zeros(width - 1 - d.len()) =~= zeros(
                if n < width - 1 {
                    (width - 1 - n) as int
                } else {
                    0
                },
            ));
        } else {
            assert(zeros(width - d.len()) =~= zeros(
                if n < width {
                    (width - n) as int
                } else {
                    0
                },
            ));
        }
        assert(final(out)@ =~= old(out)@ + padded(v as int, width as int));
    }
}

/// `YYYY-MM-DDThh:mm:ssZ` for a Unix time.
pub open spec fn iso_text(unix: int) -> Seq<char> {
    let days = unix / 86400;
    let secs = unix % 86400;
    let (y, mo, d) = civil(days);
    padded(y, 4) + "-"@ + padded(mo as int, 2) + "-"@ + padded(d as int, 2) + "T"@ + padded(
        secs / 3600,
        2,
    ) + ":"@ + padded((secs % 3600) / 60, 2) + ":"@ + padded(secs % 60, 2) + "Z"@
}

/// UTC ISO-8601 text of a Unix time.
pub fn iso8601_utc(unix: i64) -> (r: String)
    ensures
        r@ == iso_text(unix as int),
{
    let days: i64 = if unix >= 0 {
        unix / 86400
    } else {
        -((-(unix + 1)) / 86400 + 1)
    };
    proof {
        vstd::arithmetic::div_mod::lemma_fundamental_div_mod(unix as int, 86400);
        vstd::arithmetic::div_mod::lemma_mod_pos_bound(if unix >= 0 { unix as int } else { 0 }, 86400);
        if unix < 0 {
            let w = -(unix + 1);
            vstd::arithmetic::div_mod::lemma_fundamental_div_mod(w as int, 86400);
            vstd::arithmetic::div_mod::lemma_mod_pos_bound(w as int, 86400);
            vstd::arithmetic::div_mod::lemma_fundamental_div_mod_converse_div(
                unix as int,
                86400,
                -(w / 86400 + 1),
                86399 - w % 86400,
            );
        }
        assert(days == (unix as int) / 86400);
        assert(-200_000_000_000_000 <= days <= 200_000_000_000_000) by (nonlinear_arith)
            requires
                days == (unix as int) / 86400,
                i64::MIN <= unix <= i64::MAX,
        ;
    }
    let secs: i64 = if unix >= 0 {
        unix % 86400
    } else {
        86399 - (-(unix + 1)) % 86400
    };
    proof {
        if unix < 0 {
            let w = -(unix + 1);
            vstd::arithmetic::div_mod::lemma_fundamental_div_mod(w as int, 86400);
            vstd::arithmetic::div_mod::lemma_mod_pos_bound(w as int, 86400);
            vstd::arithmetic::div_mod::lemma_fundamental_div_mod_converse_mod(
                unix as int,
                86400,
                -(w / 86400 + 1),
                86399 - w % 86400,
            );
        } else {
            vstd::arithmetic::div_mod::lemma_mod_pos_bound(unix as int, 86400);
        }
        assert(secs == (unix as int) % 86400);
        assert(0 <= secs < 86400);
    }
    let (year, month, day) = civil_from_days(days);
    let mut out = String::new();
    push_padded(&mut out, year, 4);
    push_str(&mut out, "-");
    push_padded(&mut out, month as i64, 2);
    push_str(&mut out, "-");
    push_padded(&mut out, day as i64, 2);
    push_str(&mut out, "T");
    push_padded(&mut out, secs / 3600, 2);
    push_str(&mut out, ":");
    push_padded(&mut out, (secs % 3600) / 60, 2);
    push_str(&mut out, ":");
    push_padded(&mut out, secs % 60, 2);
    push_str(&mut out, "Z");
    out
}

/// The result of asking for the time: Unix seconds and ISO-8601 text.
pub fn time_reply(unix: i64) -> (r: String)
    ensures
        r@ == "{ok:1b,unix:"@ + signed_decimal(unix as int) + ",iso:"@ + escaped(iso_text(unix as int))
            + "}"@,
{
    let mut out = string_of("{ok:1b,unix:");
    push_i64(&mut out, unix);
    push_str(&mut out, ",iso:");
    let iso = iso8601_utc(unix);
    let e = escape_string(iso.as_str());
    push_str(&mut out, e.as_str());
    push_str(&mut out, "}");
    out
}


/// A `db` request with the db capability and its SQL becomes a database
/// action that runs the SQL as a query (replying with rows) exactly when
/// the function is `query`, and as a statement when it is `exec`.
pub proof fn law_db_query_or_exec(config: Config, request: Request)
    requires
        request.module@ == "db"@,
        request.function@ == "query"@ || request.function@ == "exec"@,
        config.capabilities.db is Some,
        arg_at(request.args@, 0) is Some,
    ensures
        action_for(config, request) matches ActionModel::Db(_, _, _, q) && (q <==> request.function@
            == "query"@) && (request.function@ == "exec"@ ==> !q),
{
    reveal_strlit("db");
    reveal_strlit("http");
    reveal_strlit("file");
    reveal_strlit("kv");
    reveal_strlit("query");
    reveal_strlit("exec");
    assert("db"@ != "http"@ && "db"@ != "file"@ && "db"@ != "kv"@) by {
        assert("db"@[0] != "http"@[0] && "db"@[0] != "file"@[0] && "db"@[0] != "kv"@[0]);
    }
    assert("query"@ != "exec"@) by {
        assert("query"@[0] != "exec"@[0]);
    }
}

/// Every value of `min..=max` is drawn, by the draw of its distance from
/// `min`; and every draw lands in `min..=max`.
pub proof fn law_every_value_can_be_drawn(min: i64, max: i64, v: i64, random: u64)
    requires
        min <= v <= max,
    ensures
        drawn(min, max, (v - min) as u64) == v,
        min <= drawn(min, max, random) <= max,
{
    assert(0 <= v - min <= max - min);
    assert(((v - min) as u64) as int == v - min);
    assert(((v - min) as int) % (max - min + 1) == v - min) by (nonlinear_arith)
        requires
            0 <= v - min < max - min + 1,
    ;
    assert(0 <= (random as int) % (max - min + 1) < max - min + 1) by (nonlinear_arith)
        requires
            max - min + 1 > 0,
    ;
}


/// The function of an http, file or kv request picks the direction of its
/// action: `get` fetches and `post` sends, `read` reads and `write`
/// writes, `get` looks a key up and `set` stores it; with the capability
/// and the arguments present, no request turns into the other direction.
pub proof fn law_request_direction(config: Config, request: Request)
    ensures
        request.module@ == "http"@ && request.function@ == "get"@ ==> !(action_for(config, request) is HttpPost),
        request.module@ == "http"@ && request.function@ == "post"@ ==> !(action_for(config, request) is HttpGet),
        request.module@ == "file"@ && request.function@ == "read"@ ==> !(action_for(config, request) is FileWrite),
        request.module@ == "file"@ && request.function@ == "write"@ ==> !(action_for(config, request) is FileRead),
        request.module@ == "kv"@ && request.function@ == "get"@ ==> !(action_for(config, request) is KvSet),
        request.module@ == "kv"@ && request.function@ == "set"@ ==> !(action_for(config, request) is KvGet),
{
    reveal_strlit("http");
    reveal_strlit("file");
    reveal_strlit("kv");
    reveal_strlit("get");
    reveal_strlit("post");
    reveal_strlit("read");
    reveal_strlit("write");
    reveal_strlit("set");
    assert("get"@ != "post"@ && "read"@ != "write"@ && "get"@ != "set"@) by {
        assert("get"@[0] != "post"@[0] && "read"@[0] != "write"@[0] && "get"@[0] != "set"@[0]);
    }
    assert("http"@ != "file"@ && "http"@ != "kv"@ && "file"@ != "kv"@) by {
        assert("http"@[0] != "file"@[0] && "http"@[0] != "kv"@[0] && "file"@[0] != "kv"@[0]);
    }
}

} // verus!
