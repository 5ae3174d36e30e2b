//! Argument handling of the `mcfc` command line and the files of a new
//! project.
use vstd::prelude::*;

use crate::compiler::CompileOptions;
use crate::text::{
    alnum, chars_of, contains_seq, is_ascii_alnum, lower, push_char, push_str, str_eq, string_of,
    to_ascii_lower, trim, trim_range, string_from_chars,
};

verus! {

broadcast use vstd::string::group_string_axioms;

/// The helper runtime a new project is set up for.
#[derive(Debug, Clone, Copy, PartialEq, Eq, Structural)]
pub enum HelperRuntime {
    NoHelper,
    Mcfd,
    McfdAgent,
}

pub open spec fn usage_text() -> Seq<char> {
    "Usage:\n  mcfc new <project-name> [--helper <none|mcfd|mcfd-agent>] [--force]\n  mcfc build <input-file|project-dir|manifest> [--out <directory>] [--namespace <name>] [--emit-ast] [--emit-ir] [--no-optimize] [--clean]\n  mcfc watch <input-file|project-dir|manifest> [--out <directory>] [--namespace <name>] [--emit-ast] [--emit-ir] [--no-optimize] [--clean]\n\nNote: '--out' may be omitted when building or watching a project manifest that defines 'out_dir'."@
}

/// The usage text of the command line.
pub fn usage() -> (r: String)
    ensures
        r@ == usage_text(),
{
    string_of(
        "Usage:\n  mcfc new <project-name> [--helper <none|mcfd|mcfd-agent>] [--force]\n  mcfc build <input-file|project-dir|manifest> [--out <directory>] [--namespace <name>] [--emit-ast] [--emit-ir] [--no-optimize] [--clean]\n  mcfc watch <input-file|project-dir|manifest> [--out <directory>] [--namespace <name>] [--emit-ast] [--emit-ir] [--no-optimize] [--clean]\n\nNote: '--out' may be omitted when building or watching a project manifest that defines 'out_dir'.",
    )
}

/// The subcommands of `mcfc`.
#[derive(Debug, Clone, Copy, PartialEq, Eq, Structural)]
pub enum Subcommand {
    New,
    Build,
    Watch,
    Help,
}

/// The subcommand a word names.
pub open spec fn subcommand_named(word: Seq<char>) -> Option<Subcommand> {
    if word == "new"@ {
        Some(Subcommand::New)
    } else if word == "build"@ {
        Some(Subcommand::Build)
    } else if word == "watch"@ {
        Some(Subcommand::Watch)
    } else if word == "--help"@ || word == "-h"@ || word == "help"@ {
        Some(Subcommand::Help)
    } else {
        None
    }
}

/// The subcommand that `args` (the program's name first) asks for; its own
/// arguments are those after it. `Err` with the usage text when none is
/// given, and naming an unknown one before the usage text.
pub fn select_command(args: &[String]) -> (r: Result<Subcommand, String>)
    ensures
        args@.len() < 2 ==> (r matches Err(m) && m@ == usage_text()),
        args@.len() >= 2 ==> match subcommand_named(args@[1]@) {
            Some(c) => r == Ok::<Subcommand, String>(c),
            None => r matches Err(m) && m@ == "unknown command '"@ + args@[1]@ + "'\n\n"@
                + usage_text(),
        },
{
    if args.len() < 2 {
        return Err(usage());
    }
    let word = args[1].as_str();
    if str_eq(word, "new") {
        Ok(Subcommand::New)
    } else if str_eq(word, "build") {
        Ok(Subcommand::Build)
    } else if str_eq(word, "watch") {
        Ok(Subcommand::Watch)
    } else if str_eq(word, "--help") || str_eq(word, "-h") || str_eq(word, "help") {
        Ok(Subcommand::Help)
    } else {
        let mut m = string_of("unknown command '");
        push_str(&mut m, word);
        push_str(&mut m, "'\n\n");
        let u = usage();
        push_str(&mut m, u.as_str());
        Err(m)
    }
}

/// The helper named by a `--helper` value.
pub open spec fn helper_named(value: Seq<char>) -> Option<HelperRuntime> {
    if value == "none"@ || value == "plain"@ || value == "mcfc"@ {
        Some(HelperRuntime::NoHelper)
    } else if value == "mcfd"@ {
        Some(HelperRuntime::Mcfd)
    } else if value == "mcfd-agent"@ {
        Some(HelperRuntime::McfdAgent)
    } else {
        None
    }
}

/// Parses a `--helper` value.
pub fn parse_helper_runtime(value: &str) -> (r: Result<HelperRuntime, String>)
    ensures
        match helper_named(value@) {
            Some(h) => r == Ok::<HelperRuntime, String>(h),
            None => r matches Err(e) && e@ == "unknown helper '"@ + value@
                + "'; expected 'none', 'mcfd', or 'mcfd-agent'"@,
        },
{
    if str_eq(value, "none") || str_eq(value, "plain") || str_eq(value, "mcfc") {
        Ok(HelperRuntime::NoHelper)
    } else if str_eq(value, "mcfd") {
        Ok(HelperRuntime::Mcfd)
    } else if str_eq(value, "mcfd-agent") {
        Ok(HelperRuntime::McfdAgent)
    } else {
        let mut e = string_of("unknown helper '");
        push_str(&mut e, value);
        push_str(&mut e, "'; expected 'none', 'mcfd', or 'mcfd-agent'");
        Err(e)
    }
}

/// The helper picked by an answer to the interactive helper question.
pub open spec fn helper_chosen(answer: Seq<char>) -> Option<HelperRuntime> {
    let a = trim(answer);
    if a == "1"@ || a == "none"@ || a == "plain"@ || a == "mcfc"@ {
        Some(HelperRuntime::NoHelper)
    } else if a == "2"@ || a == "mcfd"@ {
        Some(HelperRuntime::Mcfd)
    } else if a == "3"@ || a == "mcfd-agent"@ || a == "mcfd + mcfd-agent"@ {
        Some(HelperRuntime::McfdAgent)
    } else {
        None
    }
}

/// Interprets the answer to the interactive helper question.
pub fn parse_helper_choice(answer: &str) -> (r: Result<HelperRuntime, String>)
    ensures
        match helper_chosen(answer@) {
            Some(h) => r == Ok::<HelperRuntime, String>(h),
            None => r matches Err(e) && e@ == "unknown helper choice '"@ + trim(answer@)
                + "'; expected 1, 2, 3, none, mcfd, or mcfd-agent"@,
        },
{
    let chars = chars_of(answer);
    let (a, b) = trim_range(chars.as_slice(), 0, chars.len());
    proof {
        assert(chars@.subrange(0, chars@.len() as int) =~= answer@);
    }
    let t = string_from_chars(chars.as_slice(), a, b);
    let v = t.as_str();
    if str_eq(v, "1") || str_eq(v, "none") || str_eq(v, "plain") || str_eq(v, "mcfc") {
        Ok(HelperRuntime::NoHelper)
    } else if str_eq(v, "2") || str_eq(v, "mcfd") {
        Ok(HelperRuntime::Mcfd)
    } else if str_eq(v, "3") || str_eq(v, "mcfd-agent") || str_eq(v, "mcfd + mcfd-agent") {
        Ok(HelperRuntime::McfdAgent)
    } else {
        let mut e = string_of("unknown helper choice '");
        push_str(&mut e, v);
        push_str(&mut e, "'; expected 1, 2, 3, none, mcfd, or mcfd-agent");
        Err(e)
    }
}

/// Whether `s` has an ASCII letter or digit.
pub open spec fn has_name_char(s: Seq<char>) -> bool {
    exists|i: int| 0 <= i < s.len() && is_ascii_alnum(#[trigger] s[i])
}

/// A project name turned into a namespace: ASCII letters and digits in lower
/// case, `_` kept, other ASCII characters as `_`, everything else dropped.
pub open spec fn namespace_chars(s: Seq<char>) -> Seq<char>
    decreases s.len(),
{
    if s.len() == 0 {
        Seq::empty()
    } else {
        let prev = namespace_chars(s.drop_last());
        let c = s.last();
        if is_ascii_alnum(c) {
            prev.push(to_ascii_lower(c))
        } else if c == '_' {
            prev.push('_')
        } else if (c as u32) < 128 {
            prev.push('_')
        } else {
            prev
        }
    }
}

/// The namespace for a project name, when the name has a letter or digit.
pub fn sanitize_namespace(name: &str) -> (r: Option<String>)
    ensures
        has_name_char(name@) ==> (r matches Some(ns) && ns@ == namespace_chars(name@)),
        !has_name_char(name@) ==> r is None,
{
    let chars = chars_of(name);
    let mut namespace = String::new();
    let mut found = false;
    let mut i: usize = 0;
    while i < chars.len()
        invariant
            chars@ == name@,
            i <= chars@.len(),
            namespace@ == namespace_chars(name@.take(i as int)),
            found == has_name_char(name@.take(i as int)),
        decreases chars@.len() - i,
    {
        let c = chars[i];
        proof {
            let t = name@.take(i + 1);
            assert(t.drop_last() =~= name@.take(i as int));
            assert(t.last() == c);
            assert(has_name_char(t) == (has_name_char(name@.take(i as int)) || is_ascii_alnum(c)))
                by {
                if is_ascii_alnum(c) {
                    assert(t[i as int] == c);
                }
                if has_name_char(name@.take(i as int)) {
                    let j = choose|j: int| 0 <= j < i && is_ascii_alnum(#[trigger] name@.take(i as int)[j]);
                    assert(t[j] == name@.take(i as int)[j]);
                }
                if has_name_char(t) {
                    let j = choose|j: int| 0 <= j < t.len() && is_ascii_alnum(#[trigger] t[j]);
                    if j < i {
                        assert(name@.take(i as int)[j] == t[j]);
                    }
                }
            }
        }
        if alnum(c) {
            push_char(&mut namespace, lower(c));
            found = true;
        } else if c == '_' {
            push_char(&mut namespace, '_');
        } else if (c as u32) < 128 {
            push_char(&mut namespace, '_');
        }
        i = i + 1;
    }
    assert(name@.take(i as int) =~= name@);
    if found {
        Some(namespace)
    } else {
        None
    }
}

/// A file stem turned into a namespace: ASCII letters, digits, `_` and `-`
/// kept (letters in lower case), anything else as `_`.
pub open spec fn stem_chars(s: Seq<char>) -> Seq<char>
    decreases s.len(),
{
    if s.len() == 0 {
        Seq::empty()
    } else {
        let c = s.last();
        stem_chars(s.drop_last()).push(
            if is_ascii_alnum(c) || c == '_' || c == '-' {
                to_ascii_lower(c)
            } else {
                '_'
            },
        )
    }
}

/// The namespace inferred from an input file's stem (`mcfc` without one).
pub open spec fn stem_namespace(stem: Option<Seq<char>>) -> Seq<char> {
    let s = match stem {
        Some(s) => s,
        None => "mcfc"@,
    };
    if s.len() == 0 {
        "mcfc"@
    } else {
        stem_chars(s)
    }
}

/// The namespace inferred from an input file's stem.
pub fn namespace_from_stem(stem: Option<&str>) -> (r: String)
    ensures
        r@ == stem_namespace(
            match stem {
                Some(s) => Some(s@),
                None => None,
            },
        ),
{
    let s = match stem {
        Some(s) => s,
        None => "mcfc",
    };
    let chars = chars_of(s);
    let mut namespace = String::new();
    let mut i: usize = 0;
    while i < chars.len()
        invariant
            chars@ == s@,
            i <= chars@.len(),
            namespace@ == stem_chars(s@.take(i as int)),
        decreases chars@.len() - i,
    {
        let c = chars[i];
        proof {
            let t = s@.take(i + 1);
            assert(t.drop_last() =~= s@.take(i as int));
            assert(t.last() == c);
        }
        if alnum(c) || c == '_' || c == '-' {
            push_char(&mut namespace, lower(c));
        } else {
            push_char(&mut namespace, '_');
        }
        i = i + 1;
    }
    assert(s@.take(i as int) =~= s@);
    if chars.len() == 0 {
        string_of("mcfc")
    } else {
        namespace
    }
}

/// Whether `path` reads the same on every platform: no `\\` or `:`, and
/// no leading `//`. Such a path is `/`-separated components.
pub open spec fn portable_path(path: Seq<char>) -> bool {
    &&& forall|i: int| 0 <= i < path.len() ==> #[trigger] path[i] != '\\' && path[i] != ':'
    &&& !(path.len() >= 2 && path[0] == '/' && path[1] == '/')
}

/// Index of the last `c` in `s`, or -1.
pub open spec fn last_index_of(s: Seq<char>, c: char) -> int
    decreases s.len(),
{
    if s.len() == 0 {
        -1
    } else if s.last() == c {
        s.len() - 1
    } else {
        last_index_of(s.drop_last(), c)
    }
}

pub proof fn lemma_last_index_of(s: Seq<char>, c: char)
    ensures
        -1 <= last_index_of(s, c) < s.len(),
        last_index_of(s, c) >= 0 ==> s[last_index_of(s, c)] == c,
        forall|i: int| last_index_of(s, c) < i < s.len() ==> s[i] != c,
    decreases s.len(),
{
    if s.len() > 0 && s.last() != c {
        lemma_last_index_of(s.drop_last(), c);
        assert forall|i: int| last_index_of(s, c) < i < s.len() implies s[i] != c by {
            if i < s.len() - 1 {
                assert(s.drop_last()[i] == s[i]);
            }
        }
    }
}

/// The final component of a `/`-separated path, as std's `Path::file_name`
/// reads it: trailing separators and `.` components are passed over; there
/// is none when the path ends in `..`, a root or nothing.
pub open spec fn final_name(path: Seq<char>) -> Option<Seq<char>>
    decreases path.len(),
{
    if path.len() == 0 {
        None
    } else if path.last() == '/' {
        final_name(path.drop_last())
    } else {
        let k = last_index_of(path, '/');
        proof {
            lemma_last_index_of(path, '/');
        }
        let c = path.skip(k + 1);
        if c == "."@ {
            final_name(path.take(k + 1))
        } else if c == ".."@ {
            None
        } else {
            Some(c)
        }
    }
}

/// The stem of a file name (std's `Path::file_stem`): the part before its
/// last `.`, or the whole name when it has no `.` but a leading one.
pub open spec fn stem_of(name: Seq<char>) -> Seq<char> {
    let k = last_index_of(name, '.');
    if k <= 0 {
        name
    } else {
        name.take(k)
    }
}

/// The stem of the file name of `path` (std's `Path::file_stem`), when it is
/// valid Unicode. For a path that reads the same on every platform it is
/// the stem of [`final_name`]; for any path, it is a part of `path`.
#[verifier::external_body]
fn path_file_stem(path: &str) -> (r: Option<String>)
    ensures
        r matches Some(stem) ==> contains_seq(path@, stem@),
        portable_path(path@) ==> match final_name(path@) {
            Some(n) => r is Some && r.unwrap()@ == stem_of(n),
            None => r is None,
        },
{
    std::path::Path::new(path).file_stem().and_then(|stem| stem.to_str()).map(
        |stem| stem.to_string(),
    )
}

/// The namespace inferred from the name of an input file.
pub fn infer_namespace(input: &str) -> (r: String)
    ensures
        exists|stem: Option<Seq<char>>|
            r@ == stem_namespace(stem) && (stem matches Some(st) ==> contains_seq(input@, st)),
        portable_path(input@) ==> r@ == stem_namespace(
            match final_name(input@) {
                Some(n) => Some(stem_of(n)),
                None => None,
            },
        ),
{
    let stem = path_file_stem(input);
    match &stem {
        Some(s) => {
            let r = namespace_from_stem(Some(s.as_str()));
            assert(r@ == stem_namespace(Some(s@)));
            r
        },
        None => {
            let r = namespace_from_stem(None);
            assert(r@ == stem_namespace(None));
            r
        },
    }
}

/// A parsed `build` or `watch` command line.
#[derive(Debug, Clone)]
pub struct ParsedCompileCommand {
    pub input: String,
    pub out_dir: Option<String>,
    pub options: CompileOptions,
    pub namespace_overridden: bool,
}

/// What the flags of a compile command set: output directory, namespace,
/// `--emit-ast`, `--emit-ir`, optimisation, `--clean`.
pub type FlagState = (Option<Seq<char>>, Option<Seq<char>>, bool, bool, bool, bool);

pub open spec fn initial_flags() -> FlagState {
    (None, None, false, false, true, false)
}

/// Reads the flags of a compile command from `args[i..]`, later flags
/// overriding earlier ones; the error message of the first bad flag.
pub open spec fn scan_flags(args: Seq<Seq<char>>, i: int, st: FlagState) -> Result<
    FlagState,
    Seq<char>,
>
    decreases args.len() - i,
{
    if i < 0 || i >= args.len() {
        Ok(st)
    } else if args[i] == "--out"@ {
        if i + 1 < args.len() {
            scan_flags(args, i + 2, (Some(args[i + 1]), st.1, st.2, st.3, st.4, st.5))
        } else {
            Err("expected path after '--out'"@)
        }
    } else if args[i] == "--namespace"@ {
        if i + 1 < args.len() {
            scan_flags(args, i + 2, (st.0, Some(args[i + 1]), st.2, st.3, st.4, st.5))
        } else {
            Err("expected namespace after '--namespace'"@)
        }
    } else if args[i] == "--emit-ast"@ {
        scan_flags(args, i + 1, (st.0, st.1, true, st.3, st.4, st.5))
    } else if args[i] == "--emit-ir"@ {
        scan_flags(args, i + 1, (st.0, st.1, st.2, true, st.4, st.5))
    } else if args[i] == "--no-optimize"@ {
        scan_flags(args, i + 1, (st.0, st.1, st.2, st.3, false, st.5))
    } else if args[i] == "--clean"@ {
        scan_flags(args, i + 1, (st.0, st.1, st.2, st.3, st.4, true))
    } else {
        Err("unknown flag '"@ + args[i] + "'"@)
    }
}

pub open spec fn views(args: Seq<String>) -> Seq<Seq<char>> {
    args.map_values(|s: String| s@)
}

pub open spec fn opt_view(o: Option<String>) -> Option<Seq<char>> {
    match o {
        Some(s) => Some(s@),
        None => None,
    }
}

/// Parses the arguments of `build` and `watch`: the input path, then flags.
pub fn parse_compile_command(args: &[String]) -> (r: Result<ParsedCompileCommand, String>)
    ensures
        args@.len() == 0 ==> (r matches Err(e) && e@ == "missing input path\n\n"@ + usage_text()),
        args@.len() > 0 ==> match scan_flags(views(args@), 1, initial_flags()) {
            Err(message) => r matches Err(e) && e@ == message,
            Ok(st) => r matches Ok(p) && p.input@ == args@[0]@ && opt_view(p.out_dir) == st.0
                && p.options.namespace@ == (match st.1 {
                Some(ns) => ns,
                None => "mcfc"@,
            }) && p.namespace_overridden == st.1 is Some && p.options.emit_ast == st.2
                && p.options.emit_ir == st.3 && p.options.optimize == st.4 && p.options.clean
                == st.5 && p.options.load_tag_values is None && p.options.tick_tag_values is None
                && p.options.exports@.len() == 0 && p.options.helper is None,
        },
{
    if args.len() == 0 {
        let mut e = string_of("missing input path\n\n");
        let u = usage();
        push_str(&mut e, u.as_str());
        return Err(e);
    }
    let ghost vs = views(args@);
    let input = string_of(args[0].as_str());
    let mut out_dir: Option<String> = None;
    let mut options = CompileOptions::default();
    let mut namespace_overridden = false;
    let mut index: usize = 1;
    while index < args.len()
        invariant
            vs == views(args@),
            1 <= index <= args@.len() + 1,
            scan_flags(vs, 1, initial_flags()) == scan_flags(
                vs,
                index as int,
                (
                    opt_view(out_dir),
                    if namespace_overridden {
                        Some(options.namespace@)
                    } else {
                        None
                    },
                    options.emit_ast,
                    options.emit_ir,
                    options.optimize,
                    options.clean,
                ),
            ),
            !namespace_overridden ==> options.namespace@ == "mcfc"@,
            options.load_tag_values is None,
            options.tick_tag_values is None,
            options.exports@.len() == 0,
            options.helper is None,
        decreases args@.len() + 1 - index,
    {
        let arg = args[index].as_str();
        assert(vs[index as int] == arg@);
        if str_eq(arg, "--out") {
            index = index + 1;
            if index >= args.len() {
                return Err(string_of("expected path after '--out'"));
            }
            out_dir = Some(string_of(args[index].as_str()));
            assert(vs[index as int] == args@[index as int]@);
        } else if str_eq(arg, "--namespace") {
            index = index + 1;
            if index >= args.len() {
                return Err(string_of("expected namespace after '--namespace'"));
            }
            options.namespace = string_of(args[index].as_str());
            namespace_overridden = true;
            assert(vs[index as int] == args@[index as int]@);
        } else if str_eq(arg, "--emit-ast") {
            options.emit_ast = true;
        } else if str_eq(arg, "--emit-ir") {
            options.emit_ir = true;
        } else if str_eq(arg, "--no-optimize") {
            options.optimize = false;
        } else if str_eq(arg, "--clean") {
            options.clean = true;
        } else {
            let mut e = string_of("unknown flag '");
            push_str(&mut e, arg);
            push_str(&mut e, "'");
            return Err(e);
        }
        index = index + 1;
    }
    Ok(ParsedCompileCommand { input, out_dir, options, namespace_overridden })
}

/// A new project as the `new` command sets it up.
#[derive(Debug, Clone)]
pub struct NewProjectConfig {
    pub name: String,
    pub namespace: String,
    pub path: String,
    pub helper: HelperRuntime,
    pub force: bool,
}

/// The arguments of the `new` command; `helper` is `None` when no
/// `--helper` flag was given and the user is to be asked.
#[derive(Debug, Clone)]
pub struct NewCommandArgs {
    pub name: String,
    pub namespace: String,
    pub path: String,
    pub helper: Option<HelperRuntime>,
    pub force: bool,
}

/// Reads the flags of the `new` command from `args[i..]`.
pub open spec fn scan_new_flags(
    args: Seq<Seq<char>>,
    i: int,
    helper: Option<HelperRuntime>,
    force: bool,
) -> Result<(Option<HelperRuntime>, bool), Seq<char>>
    decreases args.len() - i,
{
    if i < 0 || i >= args.len() {
        Ok((helper, force))
    } else if args[i] == "--helper"@ {
        if i + 1 < args.len() {
            match helper_named(args[i + 1]) {
                Some(h) => scan_new_flags(args, i + 2, Some(h), force),
                None => Err(
                    "unknown helper '"@ + args[i + 1] + "'; expected 'none', 'mcfd', or 'mcfd-agent'"@,
                ),
            }
        } else {
            Err("expected helper after '--helper'"@)
        }
    } else if args[i] == "--force"@ {
        scan_new_flags(args, i + 1, helper, true)
    } else {
        Err("unknown flag '"@ + args[i] + "'"@)
    }
}

/// The final component of `path` (std's `Path::file_name`), when it is
/// valid Unicode. For a path that reads the same on every platform it is
/// [`final_name`]; for any path, it is a part of `path`.
#[verifier::external_body]
fn path_file_name(path: &str) -> (r: Option<String>)
    ensures
        r matches Some(name) ==> contains_seq(path@, name@),
        portable_path(path@) ==> match final_name(path@) {
            Some(n) => r is Some && r.unwrap()@ == n,
            None => r is None,
        },
{
    std::path::Path::new(path).file_name().and_then(|name| name.to_str()).map(
        |name| name.to_string(),
    )
}

/// Parses the arguments of `new` once the project's name is known: the
/// namespace made from the name, then the flags.
pub fn parse_new_command_named(args: &[String], name: String) -> (r: Result<NewCommandArgs, String>)
    requires
        args@.len() > 0,
    ensures
        !has_name_char(name@) ==> (r matches Err(e) && e@ == "project name '"@ + name@
            + "' cannot be used as a namespace"@),
        has_name_char(name@) ==> match scan_new_flags(views(args@), 1, None, false) {
            Err(message) => r matches Err(e) && e@ == message,
            Ok(st) => r matches Ok(c) && c.name@ == name@ && c.namespace@ == namespace_chars(name@)
                && c.path@ == args@[0]@ && c.helper == st.0 && c.force == st.1,
        },
{
    let namespace = match sanitize_namespace(name.as_str()) {
        Some(namespace) => namespace,
        None => {
            let mut e = string_of("project name '");
            push_str(&mut e, name.as_str());
            push_str(&mut e, "' cannot be used as a namespace");
            return Err(e);
        },
    };
    let ghost vs = views(args@);
    let mut helper: Option<HelperRuntime> = None;
    let mut force = false;
    let mut index: usize = 1;
    while index < args.len()
        invariant
            vs == views(args@),
            1 <= index <= args@.len() + 1,
            scan_new_flags(vs, 1, None, false) == scan_new_flags(vs, index as int, helper, force),
            has_name_char(name@),
            namespace@ == namespace_chars(name@),
        decreases args@.len() + 1 - index,
    {
        let arg = args[index].as_str();
        assert(vs[index as int] == arg@);
        if str_eq(arg, "--helper") {
            index = index + 1;
            if index >= args.len() {
                return Err(string_of("expected helper after '--helper'"));
            }
            assert(vs[index as int] == args@[index as int]@);
            match parse_helper_runtime(args[index].as_str()) {
                Ok(h) => {
                    helper = Some(h);
                },
                Err(e) => {
                    return Err(e);
                },
            }
        } else if str_eq(arg, "--force") {
            force = true;
        } else {
            let mut e = string_of("unknown flag '");
            push_str(&mut e, arg);
            push_str(&mut e, "'");
            return Err(e);
        }
        index = index + 1;
    }
    Ok(NewCommandArgs { name, namespace, path: string_of(args[0].as_str()), helper, force })
}

/// Parses the arguments of `new`: the project path, whose final component
/// (or, without one, the whole argument) names the project, then flags.
pub fn parse_new_command(args: &[String]) -> (r: Result<NewCommandArgs, String>)
    ensures
        args@.len() == 0 ==> (r matches Err(e) && e@ == "missing project name\n\n"@ + usage_text()),
        args@.len() > 0 ==> exists|name: Seq<char>|
            (name == args@[0]@ || contains_seq(args@[0]@, name)) && (!has_name_char(name) ==> (
            r matches Err(e) && e@ == "project name '"@ + name + "' cannot be used as a namespace"@))
                && (has_name_char(name) ==> match scan_new_flags(views(args@), 1, None, false) {
                Err(message) => r matches Err(e) && e@ == message,
                Ok(st) => r matches Ok(c) && c.name@ == name && c.namespace@ == namespace_chars(
                    name,
                ) && c.path@ == args@[0]@ && c.helper == st.0 && c.force == st.1,
            }) && (portable_path(args@[0]@) ==> name == match final_name(args@[0]@) {
                Some(n) => n,
                None => args@[0]@,
            }),
{
    if args.len() == 0 {
        let mut e = string_of("missing project name\n\n");
        let u = usage();
        push_str(&mut e, u.as_str());
        return Err(e);
    }
    let name = match path_file_name(args[0].as_str()) {
        Some(name) => name,
        None => string_of(args[0].as_str()),
    };
    let ghost n = name@;
    let r = parse_new_command_named(args, name);
    assert(n == args@[0]@ || contains_seq(args@[0]@, n));
    r
}

/// `mcfc.toml` of a new project.
pub open spec fn manifest_text(namespace: Seq<char>, helper: HelperRuntime) -> Seq<char> {
    let head = "namespace = \""@ + namespace + "\"\nsource_dir = \"src\"\nasset_dir = \"assets\"\nout_dir = \"dist\"\n"@;
    match helper {
        HelperRuntime::NoHelper => head,
        HelperRuntime::Mcfd => head + "\n[helper]\nbackend = \"mcfd\"\n"@ + "\n[helper.capabilities]\ntime = true\nrand = true\n"@,
        HelperRuntime::McfdAgent => head + "\n[helper]\nbackend = \"mcfd\"\n"@ + "\n[helper.agent]\nenabled = true\n"@
            + "\n[helper.capabilities]\ntime = true\nrand = true\n"@,
    }
}

/// The `mcfc.toml` of a new project.
pub fn manifest_template(config: &NewProjectConfig) -> (r: String)
    ensures
        r@ == manifest_text(config.namespace@, config.helper),
{
    let mut out = string_of("namespace = \"");
    push_str(&mut out, config.namespace.as_str());
    push_str(&mut out, "\"\nsource_dir = \"src\"\nasset_dir = \"assets\"\nout_dir = \"dist\"\n");
    match config.helper {
        HelperRuntime::NoHelper => {
            return out;
        },
        HelperRuntime::Mcfd => {},
        HelperRuntime::McfdAgent => {},
    }
    push_str(&mut out, "\n[helper]\nbackend = \"mcfd\"\n");
    match config.helper {
        HelperRuntime::McfdAgent => push_str(&mut out, "\n[helper.agent]\nenabled = true\n"),
        _ => {},
    }
    push_str(&mut out, "\n[helper.capabilities]\ntime = true\nrand = true\n");
    out
}

/// The `main.mcf` of a new project.
pub open spec fn main_text(helper: HelperRuntime) -> Seq<char> {
    match helper {
        HelperRuntime::NoHelper => "fn main() -> void:\n    let player = single(selector(\"@p\"))\n    if exists(player):\n        player.tellraw(\"MCFC is live.\")\n"@,
        HelperRuntime::Mcfd => "fn main() -> void:\n    let player = single(selector(\"@p\"))\n    let now = time.now()\n    let roll = rand.int(1, 6)\n    if exists(player):\n        if now.ok and roll.ok:\n            player.tellraw(\"MCFC is live. unix=$(now.unix), roll=$(roll.value)\")\n        else:\n            player.tellraw(\"MCFC is live, but mcfd did not answer yet.\")\n"@,
        HelperRuntime::McfdAgent => "# The command has a vanilla /trigger fallback.\n# With mcfd-agent attached, it is also available as a root command.\ncommand status:\n    let player = single(selector(\"@s\"))\n    player.tellraw(\"MCFC agent project is live.\")\n\n# This callback runs when the optional mcfd-agent is attached.\nevent chat(event: chat_event):\n    let player = single(selector(\"@s\"))\n    if event.message == \"roll\":\n        let roll = rand.int(1, 6)\n        if roll.ok:\n            player.tellraw(\"agent roll=$(roll.value)\")\n\nfn main() -> void:\n    let player = single(selector(\"@p\"))\n    let now = time.now()\n    if exists(player):\n        if now.ok:\n            player.tellraw(\"MCFC is live. Try /trigger mcfcc_status or say roll after the agent attaches.\")\n"@,
    }
}

/// The `main.mcf` of a new project.
pub fn main_template(config: &NewProjectConfig) -> (r: String)
    ensures
        r@ == main_text(config.helper),
{
    match config.helper {
        HelperRuntime::NoHelper => string_of("fn main() -> void:\n    let player = single(selector(\"@p\"))\n    if exists(player):\n        player.tellraw(\"MCFC is live.\")\n"),
        HelperRuntime::Mcfd => string_of("fn main() -> void:\n    let player = single(selector(\"@p\"))\n    let now = time.now()\n    let roll = rand.int(1, 6)\n    if exists(player):\n        if now.ok and roll.ok:\n            player.tellraw(\"MCFC is live. unix=$(now.unix), roll=$(roll.value)\")\n        else:\n            player.tellraw(\"MCFC is live, but mcfd did not answer yet.\")\n"),
        HelperRuntime::McfdAgent => string_of("# The command has a vanilla /trigger fallback.\n# With mcfd-agent attached, it is also available as a root command.\ncommand status:\n    let player = single(selector(\"@s\"))\n    player.tellraw(\"MCFC agent project is live.\")\n\n# This callback runs when the optional mcfd-agent is attached.\nevent chat(event: chat_event):\n    let player = single(selector(\"@s\"))\n    if event.message == \"roll\":\n        let roll = rand.int(1, 6)\n        if roll.ok:\n            player.tellraw(\"agent roll=$(roll.value)\")\n\nfn main() -> void:\n    let player = single(selector(\"@p\"))\n    let now = time.now()\n    if exists(player):\n        if now.ok:\n            player.tellraw(\"MCFC is live. Try /trigger mcfcc_status or say roll after the agent attaches.\")\n"),
    }
}

pub open spec fn helper_note(helper: HelperRuntime) -> Seq<char> {
    match helper {
        HelperRuntime::NoHelper => "This project uses plain MCFC with no helper runtime."@,
        HelperRuntime::Mcfd => "This project uses mcfd for time and random helper calls."@,
        HelperRuntime::McfdAgent => "This project uses mcfd and requests the optional mcfd-agent for root commands and event callbacks."@,
    }
}

pub open spec fn run_steps(helper: HelperRuntime) -> Seq<char> {
    match helper {
        HelperRuntime::NoHelper => "1. Copy `dist/` into your world's `datapacks/` folder.\n2. Run `/reload` in Minecraft."@,
        _ => "1. Copy `dist/` into your world's `datapacks/` folder.\n2. Install or start the helper with `mcfd service install`.\n3. Run `/reload` in Minecraft."@,
    }
}

/// `README.md` of a new project.
pub open spec fn readme_text(name: Seq<char>, helper: HelperRuntime) -> Seq<char> {
    "# "@ + name + "\n\n"@ + helper_note(helper) + "\n\n## Build\n\n```powershell\nmcfc build . --clean\n```\n\n## Run\n\n"@
        + run_steps(helper) + "\n"@
}

/// The `README.md` of a new project.
pub fn readme_template(config: &NewProjectConfig) -> (r: String)
    ensures
        r@ == readme_text(config.name@, config.helper),
{
    let mut out = string_of("# ");
    push_str(&mut out, config.name.as_str());
    push_str(&mut out, "\n\n");
    match config.helper {
        HelperRuntime::NoHelper => push_str(&mut out, "This project uses plain MCFC with no helper runtime."),
        HelperRuntime::Mcfd => push_str(&mut out, "This project uses mcfd for time and random helper calls."),
        HelperRuntime::McfdAgent => push_str(&mut out, "This project uses mcfd and requests the optional mcfd-agent for root commands and event callbacks."),
    }
    push_str(&mut out, "\n\n## Build\n\n```powershell\nmcfc build . --clean\n```\n\n## Run\n\n");
    match config.helper {
        HelperRuntime::NoHelper => push_str(&mut out, "1. Copy `dist/` into your world's `datapacks/` folder.\n2. Run `/reload` in Minecraft."),
        _ => push_str(&mut out, "1. Copy `dist/` into your world's `datapacks/` folder.\n2. Install or start the helper with `mcfd service install`.\n3. Run `/reload` in Minecraft."),
    }
    push_str(&mut out, "\n");
    out
}

/// The `.gitignore` of a new project.
pub open spec fn gitignore_text(helper: HelperRuntime) -> Seq<char> {
    match helper {
        HelperRuntime::NoHelper => "dist/\n"@,
        _ => "dist/\nhost_data/\n.env\n"@,
    }
}

/// The `.gitignore` of a new project.
pub fn gitignore_template(config: &NewProjectConfig) -> (r: &'static str)
    ensures
        r@ == gitignore_text(config.helper),
{
    match config.helper {
        HelperRuntime::NoHelper => "dist/\n",
        _ => "dist/\nhost_data/\n.env\n",
    }
}

} // verus!
