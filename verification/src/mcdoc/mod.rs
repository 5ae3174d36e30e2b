//! The NBT schema snapshot built from the vanilla mcdoc repository: the
//! `.mcdoc` files of its tarball, the versions and metadata of its
//! definitions, module paths, and the schema trees handed to the editor.
use vstd::prelude::*;

pub mod grammar;
pub mod parser;
pub mod reduce;
pub mod reduction;

use crate::text::{chars_of, parse_u32, str_eq, string_from_chars, string_of};

verus! {

broadcast use vstd::string::group_string_axioms;

/// The NBT schemas of entities, blocks and items, by id.
#[derive(Debug)]
pub struct NbtSchemaSnapshot {
    pub entity: Vec<(String, SchemaNode)>,
    pub block: Vec<(String, SchemaNode)>,
    pub item: Vec<(String, SchemaNode)>,
}

/// The schema of a compound: what it is, its documentation and its fields.
#[derive(Debug)]
pub struct SchemaNode {
    pub detail: String,
    pub documentation: String,
    pub fields: Vec<SchemaField>,
}

/// A field of a compound schema.
#[derive(Debug)]
pub struct SchemaField {
    pub name: String,
    pub detail: String,
    pub documentation: String,
    pub node: Option<SchemaNode>,
}

// ---- text order ----------------------------------------------------------------
/// `a` before `b` in the order of their characters' code points (the byte
/// order of their UTF-8 encodings, which orders `String`s).
pub open spec fn text_lt(a: Seq<char>, b: Seq<char>) -> bool
    decreases a.len(),
{
    if a.len() == 0 {
        b.len() > 0
    } else if b.len() == 0 {
        false
    } else if a[0] != b[0] {
        a[0] < b[0]
    } else {
        text_lt(a.drop_first(), b.drop_first())
    }
}

proof fn lemma_text_order(a: Seq<char>, b: Seq<char>)
    ensures
        a == b ==> !text_lt(a, b),
        a != b ==> (text_lt(a, b) <==> !text_lt(b, a)),
    decreases a.len(),
{
    if a.len() > 0 && b.len() > 0 && a[0] == b[0] {
        lemma_text_order(a.drop_first(), b.drop_first());
        if a.drop_first() =~= b.drop_first() {
            assert forall|i: int| 0 <= i < a.len() implies a[i] == b[i] by {
                if i > 0 {
                    assert(a[i] == a.drop_first()[i - 1]);
                    assert(b[i] == b.drop_first()[i - 1]);
                }
            }
            assert(a =~= b);
        }
        if a == b {
            assert(a.drop_first() =~= b.drop_first());
        }
    }
    if a.len() == 0 && b.len() == 0 {
        assert(a =~= b);
    }
}

proof fn lemma_text_lt_transitive(a: Seq<char>, b: Seq<char>, c: Seq<char>)
    requires
        text_lt(a, b),
        text_lt(b, c),
    ensures
        text_lt(a, c),
    decreases a.len(),
{
    if a.len() > 0 && b.len() > 0 && c.len() > 0 && a[0] == b[0] && b[0] == c[0] {
        lemma_text_lt_transitive(a.drop_first(), b.drop_first(), c.drop_first());
    }
}

/// Three-way comparison of two texts in code-point order.
fn compare_text(a: &[char], b: &[char]) -> (r: i8)
    ensures
        r < 0 <==> text_lt(a@, b@),
        r == 0 <==> a@ == b@,
        r > 0 <==> text_lt(b@, a@),
{
    let mut i: usize = 0;
    assert(a@.skip(0) =~= a@);
    assert(b@.skip(0) =~= b@);
    assert(a@.take(0) =~= b@.take(0));
    while i < a.len() && i < b.len() && a[i] == b[i]
        invariant
            i <= a@.len(),
            i <= b@.len(),
            a@.take(i as int) == b@.take(i as int),
            text_lt(a@, b@) == text_lt(a@.skip(i as int), b@.skip(i as int)),
            text_lt(b@, a@) == text_lt(b@.skip(i as int), a@.skip(i as int)),
        decreases a@.len() - i,
    {
        assert(a@.skip(i as int).drop_first() =~= a@.skip(i + 1));
        assert(b@.skip(i as int).drop_first() =~= b@.skip(i + 1));
        assert(a@.take(i + 1) =~= a@.take(i as int).push(a@[i as int]));
        assert(b@.take(i + 1) =~= b@.take(i as int).push(b@[i as int]));
        i = i + 1;
    }
    proof {
        lemma_text_order(a@, b@);
        if i < a@.len() && i < b@.len() {
            assert(a@[i as int] != b@[i as int]);
            assert(a@ != b@) by {
                assert(a@[i as int] != b@[i as int]);
            }
        } else if i == a@.len() && i == b@.len() {
            assert(a@ =~= a@.take(i as int));
            assert(b@ =~= b@.take(i as int));
        } else {
            assert(a@.len() != b@.len());
        }
    }
    proof {
        if i < a@.len() && i < b@.len() {
            assert(a@.skip(i as int)[0] == a@[i as int]);
            assert(b@.skip(i as int)[0] == b@[i as int]);
        }
        if i == a@.len() {
            assert(a@.skip(i as int).len() == 0);
        }
        if i == b@.len() {
            assert(b@.skip(i as int).len() == 0);
        }
    }
    if i < a.len() && i < b.len() {
        let x = a[i];
        let y = b[i];
        if x < y {
            -1
        } else {
            1
        }
    } else if i < b.len() {
        -1
    } else if i < a.len() {
        1
    } else {
        0
    }
}

// ---- the files of the tarball ------------------------------------------------------
/// The entries of a gzip-compressed tar archive as tar and flate2 read them:
/// each entry's raw path bytes and its bytes, in archive order, up to the
/// first error, and the message of that error if there is one.
pub uninterp spec fn tar_gz_entries(tarball: Seq<u8>) -> (Seq<(Seq<u8>, Seq<u8>)>, Option<Seq<char>>);

pub open spec fn entries_view(v: Seq<(Vec<u8>, Vec<u8>)>) -> Seq<(Seq<u8>, Seq<u8>)> {
    v.map_values(|e: (Vec<u8>, Vec<u8>)| (e.0@, e.1@))
}

/// Reads the entries of a `.tar.gz` archive held in memory (tar's
/// `Archive::entries` over flate2's `GzDecoder`): each entry's raw path
/// (`Entry::path_bytes`, the same on every platform) and all its bytes,
/// until the first error, which is handed back beside the entries read
/// before it. The result is named, not described: it is what the two
/// crates read from the bytes.
#[verifier::external_body]
fn read_tar_gz(tarball: &[u8]) -> (r: (Vec<(Vec<u8>, Vec<u8>)>, Option<String>))
    ensures
        tar_gz_entries(tarball@) == (
            entries_view(r.0@),
            match r.1 {
                Some(e) => Some(e@),
                None => None::<Seq<char>>,
            },
        ),
{
    let mut archive = tar::Archive::new(flate2::read::GzDecoder::new(tarball));
    let mut out = Vec::new();
    let entries = match archive.entries() { Ok(entries) => entries, Err(error) => return (out, Some(error.to_string())) };
    for entry in entries {
        let mut entry = match entry { Ok(entry) => entry, Err(error) => return (out, Some(error.to_string())) };
        let mut bytes = Vec::new();
        if let Err(error) = std::io::Read::read_to_end(&mut entry, &mut bytes) { return (out, Some(error.to_string())) }
        out.push((entry.path_bytes().into_owned(), bytes));
    }
    (out, None)
}

/// What std's `String::from_utf8_lossy` makes of some bytes.
pub uninterp spec fn lossy_utf8(bytes: Seq<u8>) -> Seq<char>;

/// std's `String::from_utf8_lossy`: the text of the bytes, with each
/// invalid sequence replaced by U+FFFD; valid UTF-8 reads as itself.
#[verifier::external_body]
fn utf8_lossy(bytes: &[u8]) -> (r: String)
    ensures
        r@ == lossy_utf8(bytes@),
        vstd::utf8::valid_utf8(bytes@) ==> r@ == vstd::utf8::decode_utf8(bytes@),
{
    String::from_utf8_lossy(bytes).into_owned()
}

/// std's `str::from_utf8`: the text of valid UTF-8 bytes.
#[verifier::external_body]
pub(crate) fn utf8_text(bytes: &[u8]) -> (r: Option<String>)
    ensures
        r is Some <==> vstd::utf8::valid_utf8(bytes@),
        r matches Some(s) ==> s@ == vstd::utf8::decode_utf8(bytes@),
{
    std::str::from_utf8(bytes).ok().map(|text| text.to_string())
}

/// The path of an archive entry inside the repository (after its first
/// `/`) when it is an `.mcdoc` file under `java/world/` or the avatar
/// definitions.
pub open spec fn mcdoc_relative(path: Seq<char>) -> Option<Seq<char>> {
    if !(path.len() >= 6 && path.skip(path.len() - 6) == ".mcdoc"@) {
        None
    } else {
        match crate::text::split_once(path, '/') {
            None => None,
            Some((_, rel)) => if (rel.len() >= 11 && rel.take(11) == "java/world/"@) || rel
                == "java/util/avatar.mcdoc"@ {
                Some(rel)
            } else {
                None
            },
        }
    }
}

/// Sets `key` to `value` in a list kept in key order.
pub open spec fn insert_sorted(
    files: Seq<(Seq<char>, Seq<char>)>,
    key: Seq<char>,
    value: Seq<char>,
) -> Seq<(Seq<char>, Seq<char>)>
    decreases files.len(),
{
    if files.len() == 0 {
        seq![(key, value)]
    } else if files[0].0 == key {
        seq![(key, value)] + files.drop_first()
    } else if text_lt(key, files[0].0) {
        seq![(key, value)] + files
    } else {
        seq![files[0]] + insert_sorted(files.drop_first(), key, value)
    }
}

/// The `.mcdoc` files of some archive entries by path, in path order, or
/// the error of the first selected file that is not UTF-8.
pub open spec fn mcdoc_files(
    entries: Seq<(Seq<u8>, Seq<u8>)>,
    acc: Seq<(Seq<char>, Seq<char>)>,
) -> Result<Seq<(Seq<char>, Seq<char>)>, Seq<char>>
    decreases entries.len(),
{
    if entries.len() == 0 {
        Ok(acc)
    } else {
        let (path, bytes) = entries[0];
        match mcdoc_relative(lossy_utf8(path)) {
            None => mcdoc_files(entries.drop_first(), acc),
            Some(rel) => if vstd::utf8::valid_utf8(bytes) {
                mcdoc_files(
                    entries.drop_first(),
                    insert_sorted(acc, rel, vstd::utf8::decode_utf8(bytes)),
                )
            } else {
                Err("stream did not contain valid UTF-8"@)
            },
        }
    }
}

/// What reading the mcdoc files of a tarball gives.
pub open spec fn tarball_files(tarball: Seq<u8>) -> Result<Seq<(Seq<char>, Seq<char>)>, Seq<char>> {
    let (entries, error) = tar_gz_entries(tarball);
    match mcdoc_files(entries, Seq::empty()) {
        Err(e) => Err(e),
        Ok(files) => match error {
            Some(e) => Err(e),
            None => if files.len() == 0 {
                Err("vanilla-mcdoc tarball did not contain any .mcdoc files"@)
            } else {
                Ok(files)
            },
        },
    }
}

pub open spec fn files_view(v: Seq<(String, String)>) -> Seq<(Seq<char>, Seq<char>)> {
    v.map_values(|e: (String, String)| (e.0@, e.1@))
}

fn mcdoc_relative_path(path: &str) -> (r: Option<String>)
    ensures
        match mcdoc_relative(path@) {
            Some(rel) => r matches Some(s) && s@ == rel,
            None => r is None,
        },
{
    let cs = chars_of(path);
    proof {
        reveal_strlit(".mcdoc");
        reveal_strlit("java/world/");
        reveal_strlit("java/util/avatar.mcdoc");
    }
    let n = cs.len();
    if n < 6 || !crate::text::range_is(cs.as_slice(), n - 6, n, ".mcdoc") {
        proof {
            if n >= 6 {
                assert(cs@.subrange(n - 6, n as int) =~= cs@.skip(n - 6));
            }
        }
        return None;
    }
    assert(cs@.subrange(n - 6, n as int) =~= cs@.skip(n - 6));
    let slash = match crate::text::split_once_range(cs.as_slice(), 0, n, '/') {
        Some(k) => k,
        None => {
            assert(cs@.subrange(0, n as int) =~= cs@);
            return None;
        },
    };
    assert(cs@.subrange(0, n as int) =~= cs@);
    let rel = string_from_chars(cs.as_slice(), slash + 1, n);
    let rc = chars_of(rel.as_str());
    let under_world = rc.len() >= 11 && crate::text::range_is(rc.as_slice(), 0, 11, "java/world/");
    proof {
        if rc@.len() >= 11 {
            assert(rc@.subrange(0, 11) =~= rc@.take(11));
        }
    }
    if under_world || str_eq(rel.as_str(), "java/util/avatar.mcdoc") {
        Some(rel)
    } else {
        None
    }
}

proof fn lemma_insert_sorted_at(
    files: Seq<(Seq<char>, Seq<char>)>,
    key: Seq<char>,
    value: Seq<char>,
    pos: int,
)
    requires
        0 <= pos <= files.len(),
        forall|j: int| 0 <= j < pos ==> text_lt(#[trigger] files[j].0, key),
        pos < files.len() ==> !text_lt(files[pos].0, key),
    ensures
        insert_sorted(files, key, value) == files.take(pos) + (if pos < files.len() && files[pos].0
            == key {
            seq![(key, value)] + files.skip(pos + 1)
        } else {
            seq![(key, value)] + files.skip(pos)
        }),
    decreases pos,
{
    if pos == 0 {
        assert(files.take(0) =~= Seq::<(Seq<char>, Seq<char>)>::empty());
        if files.len() > 0 {
            lemma_text_order(files[0].0, key);
            if files[0].0 == key {
                assert(files.skip(1) =~= files.drop_first());
            } else {
                assert(files.skip(0) =~= files);
            }
        }
    } else {
        lemma_text_order(files[0].0, key);
        assert(text_lt(files[0].0, key));
        assert(files[0].0 != key);
        lemma_text_order(key, files[0].0);
        let rest = files.drop_first();
        assert forall|j: int| 0 <= j < pos - 1 implies text_lt(#[trigger] rest[j].0, key) by {
            assert(rest[j] == files[j + 1]);
        }
        lemma_insert_sorted_at(rest, key, value, pos - 1);
        assert(files.take(pos) =~= seq![files[0]] + rest.take(pos - 1));
        if pos < files.len() {
            assert(rest.skip(pos) =~= files.skip(pos + 1));
            assert(rest[pos - 1] == files[pos]);
        }
        assert(rest.skip(pos - 1) =~= files.skip(pos));
    }
}

/// Sets `key` to `value` in `files`, kept in key order.
fn insert_file(files: &mut Vec<(String, String)>, key: String, value: String)
    ensures
        files_view(final(files)@) == insert_sorted(files_view(old(files)@), key@, value@),
{
    let ghost fv = files_view(files@);
    let kc = chars_of(key.as_str());
    let mut pos: usize = 0;
    let mut c: i8 = 1;
    while pos < files.len()
        invariant
            fv == files_view(files@),
            kc@ == key@,
            pos <= files@.len(),
            forall|j: int| 0 <= j < pos ==> text_lt(#[trigger] fv[j].0, key@),
        ensures
            pos <= files@.len(),
            fv == files_view(files@),
            forall|j: int| 0 <= j < pos ==> text_lt(#[trigger] fv[j].0, key@),
            pos < files@.len() ==> !text_lt(fv[pos as int].0, key@) && (c == 0 <==> fv[pos as int].0
                == key@),
        decreases files@.len() - pos,
    {
        let fc = chars_of(files[pos].0.as_str());
        c = compare_text(fc.as_slice(), kc.as_slice());
        assert(fv[pos as int].0 == fc@);
        if c >= 0 {
            break;
        }
        pos = pos + 1;
    }
    let found = pos < files.len() && c == 0;
    proof {
        if pos < files@.len() {
            assert(fv[pos as int].0 == files@[pos as int].0@);
        }
        lemma_insert_sorted_at(fv, key@, value@, pos as int);
    }
    if found {
        let ghost before = files@;
        files.set(pos, (key, value));
        assert(files_view(files@) =~= fv.take(pos as int) + (seq![(key@, value@)] + fv.skip(
            pos + 1,
        )));
    } else {
        let ghost before = files@;
        files.insert(pos, (key, value));
        assert(files_view(files@) =~= fv.take(pos as int) + (seq![(key@, value@)] + fv.skip(
            pos as int,
        )));
    }
}

/// The `.mcdoc` files of the vanilla-mcdoc tarball, by path within the
/// repository, in path order.
pub fn read_mcdoc_files_from_tarball(tarball: &[u8]) -> (r: Result<Vec<(String, String)>, String>)
    ensures
        match tarball_files(tarball@) {
            Ok(files) => r matches Ok(v) && files_view(v@) == files,
            Err(e) => r matches Err(m) && m@ == e,
        },
{
    let (entries, error) = read_tar_gz(tarball);
    let ghost ev = entries_view(entries@);
    let mut files: Vec<(String, String)> = Vec::new();
    let mut i: usize = 0;
    proof {
        assert(ev.skip(0) =~= ev);
        assert(files_view(files@) =~= Seq::<(Seq<char>, Seq<char>)>::empty());
    }
    while i < entries.len()
        invariant
            ev == entries_view(entries@),
            tar_gz_entries(tarball@).0 == ev,
            i <= entries@.len(),
            mcdoc_files(ev, Seq::empty()) == mcdoc_files(ev.skip(i as int), files_view(files@)),
        decreases entries@.len() - i,
    {
        proof {
            assert(ev.skip(i as int)[0] == ev[i as int]);
            assert(ev.skip(i as int).drop_first() =~= ev.skip(i + 1));
        }
        let (raw, bytes) = (&entries[i].0, &entries[i].1);
        let path = utf8_lossy(raw.as_slice());
        match mcdoc_relative_path(path.as_str()) {
            None => {},
            Some(rel) => match utf8_text(bytes.as_slice()) {
                Some(text) => {
                    insert_file(&mut files, rel, text);
                },
                None => {
                    proof {
                        assert(ev[i as int] == (raw@, bytes@));
                        assert(!vstd::utf8::valid_utf8(bytes@));
                    }
                    return Err(string_of("stream did not contain valid UTF-8"));
                },
            },
        }
        i = i + 1;
    }
    proof {
        assert(ev.skip(i as int) =~= Seq::<(Seq<u8>, Seq<u8>)>::empty());
    }
    match error {
        Some(e) => {
            return Err(e);
        },
        None => {},
    }
    if files.len() == 0 {
        return Err(string_of("vanilla-mcdoc tarball did not contain any .mcdoc files"));
    }
    Ok(files)
}

// ---- versions -------------------------------------------------------------------
/// A game version, as its dot-separated numbers.
#[derive(Debug, Clone)]
pub struct Version(pub Vec<u32>);

/// `a` before `b`, comparing number by number (a prefix comes first).
pub open spec fn version_lt(a: Seq<u32>, b: Seq<u32>) -> bool
    decreases a.len(),
{
    if a.len() == 0 {
        b.len() > 0
    } else if b.len() == 0 {
        false
    } else if a[0] != b[0] {
        a[0] < b[0]
    } else {
        version_lt(a.drop_first(), b.drop_first())
    }
}

fn version_less(a: &Vec<u32>, b: &Vec<u32>) -> (r: bool)
    ensures
        r == version_lt(a@, b@),
{
    let mut i: usize = 0;
    assert(a@.skip(0) =~= a@);
    assert(b@.skip(0) =~= b@);
    while i < a.len() && i < b.len() && a[i] == b[i]
        invariant
            i <= a@.len(),
            i <= b@.len(),
            version_lt(a@, b@) == version_lt(a@.skip(i as int), b@.skip(i as int)),
        decreases a@.len() - i,
    {
        assert(a@.skip(i as int).drop_first() =~= a@.skip(i + 1));
        assert(b@.skip(i as int).drop_first() =~= b@.skip(i + 1));
        i = i + 1;
    }
    if i < a.len() && i < b.len() {
        assert(a@.skip(i as int)[0] == a@[i as int]);
        assert(b@.skip(i as int)[0] == b@[i as int]);
        a[i] < b[i]
    } else {
        assert(a@.skip(i as int).len() == a@.len() - i);
        assert(b@.skip(i as int).len() == b@.len() - i);
        i < b.len()
    }
}

/// The pieces of `s` between the separators `c` (std's `str::split`).
pub open spec fn split_parts(s: Seq<char>, c: char) -> Seq<Seq<char>>
    decreases s.len(),
{
    match crate::text::find_char(s, c) {
        None => seq![s],
        Some(i) => {
            proof {
                lemma_find_char_bound(s, c);
            }
            seq![s.take(i)] + split_parts(s.skip(i + 1), c)
        },
    }
}

pub proof fn lemma_find_char_bound(s: Seq<char>, c: char)
    ensures
        crate::text::find_char(s, c) matches Some(i) ==> 0 <= i < s.len() && s[i] == c && forall|
            j: int,
        | 0 <= j < i ==> s[j] != c,
        crate::text::find_char(s, c) is None ==> forall|j: int| 0 <= j < s.len() ==> s[j] != c,
    decreases s.len(),
{
    if s.len() > 0 && s[0] != c {
        lemma_find_char_bound(s.drop_first(), c);
        assert forall|j: int| 1 <= j < s.len() implies s[j] == s.drop_first()[j - 1] by {}
    }
}

/// A version's numbers, or the message for its first part that is not a
/// number.
pub open spec fn version_numbers(parts: Seq<Seq<char>>, input: Seq<char>) -> Result<Seq<u32>, Seq<char>>
    decreases parts.len(),
{
    if parts.len() == 0 {
        Ok(Seq::empty())
    } else {
        match parse_u32(parts[0]) {
            None => Err("invalid version component '"@ + parts[0] + "' in '"@ + input + "'"@),
            Some(n) => match version_numbers(parts.drop_first(), input) {
                Ok(rest) => Ok(seq![n] + rest),
                Err(e) => Err(e),
            },
        }
    }
}

/// The version a text names: its trimmed dot-separated numbers.
pub open spec fn parsed_version(input: Seq<char>) -> Result<Seq<u32>, Seq<char>> {
    let t = crate::text::trim(input);
    if t.len() == 0 {
        Err("version must not be empty"@)
    } else {
        version_numbers(split_parts(t, '.'), input)
    }
}

impl Version {
    /// Reads a version such as `1.20.5`.
    pub fn parse(input: &str) -> (r: Result<Self, String>)
        ensures
            match parsed_version(input@) {
                Ok(ns) => r matches Ok(v) && v.0@ == ns,
                Err(e) => r matches Err(m) && m@ == e,
            },
    {
        let cs = chars_of(input);
        let (a, b) = crate::text::trim_range(cs.as_slice(), 0, cs.len());
        assert(cs@.subrange(0, cs@.len() as int) =~= input@);
        let ghost t = cs@.subrange(a as int, b as int);
        if a == b {
            return Err(string_of("version must not be empty"));
        }
        let mut parts: Vec<u32> = Vec::new();
        let mut start = a;
        let ghost mut rest_parts = split_parts(t, '.');
        proof {
            assert(cs@.subrange(start as int, b as int) == t);
        }
        loop
            invariant
                a <= start <= b <= cs@.len(),
                t == cs@.subrange(a as int, b as int),
                rest_parts == split_parts(cs@.subrange(start as int, b as int), '.'),
                version_numbers(split_parts(t, '.'), input@) == match version_numbers(
                    rest_parts,
                    input@,
                ) {
                    Ok(more) => Ok(parts@ + more),
                    Err(e) => Err(e),
                },
                input@ == cs@,
                t == crate::text::trim(input@),
                a < b,
            decreases b - start,
        {
            let found = crate::text::find_char_in(cs.as_slice(), start, b, '.');
            let end = match found {
                Some(k) => k,
                None => b,
            };
            let ghost piece = cs@.subrange(start as int, b as int);
            proof {
                lemma_find_char_bound(piece, '.');
                match found {
                    Some(k) => {
                        assert(piece.take(k - start) =~= cs@.subrange(start as int, k as int));
                        assert(piece.skip(k - start + 1) =~= cs@.subrange(k + 1, b as int));
                    },
                    None => {},
                }
                assert(rest_parts.len() > 0);
                assert(rest_parts[0] == cs@.subrange(start as int, end as int));
            }
            match crate::text::parse_u32_range(cs.as_slice(), start, end) {
                None => {
                    let mut e = string_of("invalid version component '");
                    let part = string_from_chars(cs.as_slice(), start, end);
                    crate::text::push_str(&mut e, part.as_str());
                    crate::text::push_str(&mut e, "' in '");
                    crate::text::push_str(&mut e, input);
                    crate::text::push_str(&mut e, "'");
                    return Err(e);
                },
                Some(n) => {
                    let ghost before = parts@;
                    parts.push(n);
                    match found {
                        Some(k) => {
                            proof {
                                let rp = rest_parts;
                                assert(rp[0] == cs@.subrange(start as int, k as int));
                                assert(rp.drop_first() == split_parts(
                                    cs@.subrange(k + 1, b as int),
                                    '.',
                                ));
                                rest_parts = rp.drop_first();
                                assert(before.push(n) + Seq::<u32>::empty() =~= before.push(n));
                                match version_numbers(rest_parts, input@) {
                                    Ok(more) => {
                                        assert(before + (seq![n] + more) =~= before.push(n) + more);
                                    },
                                    Err(_) => {},
                                }
                            }
                            start = k + 1;
                        },
                        None => {
                            proof {
                                let rp = rest_parts;
                                assert(rp =~= seq![cs@.subrange(start as int, b as int)]);
                                assert(rp.drop_first() =~= Seq::<Seq<char>>::empty());
                                assert(version_numbers(rp.drop_first(), input@) == Ok::<
                                    Seq<u32>,
                                    Seq<char>,
                                >(Seq::empty()));
                                assert(before + seq![n] =~= parts@);
                                assert(parts@ + Seq::<u32>::empty() =~= parts@);
                            }
                            return Ok(Version(parts));
                        },
                    }
                },
            }
        }
    }
}

/// The documentation and version range of a definition.
#[derive(Debug, Clone)]
pub struct Metadata {
    pub documentation: String,
    pub since: Option<Version>,
    pub until: Option<Version>,
    pub canonical: bool,
}

/// Whether a definition with this `since`/`until` range exists in `version`.
pub open spec fn active_in(since: Option<Version>, until: Option<Version>, version: Seq<u32>) -> bool {
    &&& (since matches Some(s) ==> !version_lt(version, s.0@))
    &&& (until matches Some(u) ==> version_lt(version, u.0@))
}

impl Metadata {
    /// No documentation, no version bounds.
    pub fn empty() -> (r: Self)
        ensures
            r.documentation@.len() == 0,
            r.since is None,
            r.until is None,
            !r.canonical,
    {
        Metadata { documentation: String::new(), since: None, until: None, canonical: false }
    }

    /// Whether the definition exists in `version`: not before its `since`,
    /// and before its `until`.
    pub fn is_active(&self, version: &Version) -> (r: bool)
        ensures
            r == active_in(self.since, self.until, version.0@),
    {
        match &self.since {
            Some(since) => {
                if version_less(&version.0, &since.0) {
                    return false;
                }
            },
            None => {},
        }
        match &self.until {
            Some(until) => {
                if !version_less(&version.0, &until.0) {
                    return false;
                }
            },
            None => {},
        }
        true
    }
}

// ---- paths -------------------------------------------------------------------
/// `s` without trailing copies of `suffix` (std's `trim_end_matches`).
pub open spec fn trim_suffix_all(s: Seq<char>, suffix: Seq<char>) -> Seq<char>
    decreases s.len(),
{
    if suffix.len() > 0 && s.len() >= suffix.len() && s.skip(s.len() - suffix.len()) == suffix {
        trim_suffix_all(s.take(s.len() - suffix.len()), suffix)
    } else {
        s
    }
}

/// The module an `.mcdoc` file defines: `::` and its path segments, a final
/// `mod` dropped.
pub open spec fn file_module(path: Seq<char>) -> Seq<char> {
    let segments = split_parts(trim_suffix_all(path, ".mcdoc"@), '/');
    let segments = if segments.len() > 0 && segments.last() == "mod"@ {
        segments.drop_last()
    } else {
        segments
    };
    if segments.len() == 0 {
        "::"@
    } else {
        "::"@ + crate::text::join(segments, "::"@)
    }
}

/// The pieces of `cs[start..end]` between separators `c`.
fn split_range(cs: &[char], start: usize, end: usize, c: char) -> (r: Vec<String>)
    requires
        start <= end <= cs@.len(),
    ensures
        crate::mcfd::bridge::views(r@) == split_parts(cs@.subrange(start as int, end as int), c),
{
    let mut out: Vec<String> = Vec::new();
    let mut p = start;
    loop
        invariant
            start <= p <= end <= cs@.len(),
            crate::mcfd::bridge::views(out@) + split_parts(cs@.subrange(p as int, end as int), c)
                == split_parts(cs@.subrange(start as int, end as int), c),
        decreases end - p,
    {
        let ghost piece = cs@.subrange(p as int, end as int);
        proof {
            lemma_find_char_bound(piece, c);
        }
        let ghost before = crate::mcfd::bridge::views(out@);
        match crate::text::find_char_in(cs, p, end, c) {
            Some(k) => {
                proof {
                    assert(piece.take(k - p) =~= cs@.subrange(p as int, k as int));
                    assert(piece.skip(k - p + 1) =~= cs@.subrange(k + 1, end as int));
                }
                out.push(string_from_chars(cs, p, k));
                assert(crate::mcfd::bridge::views(out@) =~= before.push(cs@.subrange(p as int, k as int)));
                assert(before + split_parts(piece, c) =~= crate::mcfd::bridge::views(out@)
                    + split_parts(cs@.subrange(k + 1, end as int), c));
                p = k + 1;
            },
            None => {
                out.push(string_from_chars(cs, p, end));
                assert(crate::mcfd::bridge::views(out@) =~= before.push(piece));
                assert(split_parts(piece, c) =~= seq![piece]);
                return out;
            },
        }
    }
}

/// The module an `.mcdoc` file defines.
pub fn module_path_for_file(path: &str) -> (r: String)
    ensures
        r@ == file_module(path@),
{
    let cs = chars_of(path);
    proof {
        reveal_strlit(".mcdoc");
        reveal_strlit("mod");
    }
    let mut end = cs.len();
    assert(cs@.take(end as int) =~= cs@);
    while end >= 6 && crate::text::range_is(cs.as_slice(), end - 6, end, ".mcdoc")
        invariant
            end <= cs@.len(),
            trim_suffix_all(path@, ".mcdoc"@) == trim_suffix_all(cs@.take(end as int), ".mcdoc"@),
            cs@ == path@,
        decreases end,
    {
        assert(cs@.take(end as int).skip(end - 6) =~= cs@.subrange(end - 6, end as int));
        assert(cs@.take(end as int).take(end - 6) =~= cs@.take(end - 6));
        end = end - 6;
    }
    proof {
        if end >= 6 {
            assert(cs@.take(end as int).skip(end - 6) =~= cs@.subrange(end - 6, end as int));
        }
        assert(cs@.subrange(0, end as int) =~= cs@.take(end as int));
    }
    let mut segments = split_range(cs.as_slice(), 0, end, '/');
    let n = segments.len();
    if n > 0 && str_eq(segments[n - 1].as_str(), "mod") {
        let ghost before = segments@;
        segments.pop();
        assert(crate::mcfd::bridge::views(segments@) =~= crate::mcfd::bridge::views(before).drop_last());
    }
    if segments.len() == 0 {
        return string_of("::");
    }
    let mut out = string_of("::");
    let j = crate::text::join_strings(&segments, "::");
    crate::text::push_str(&mut out, j.as_str());
    out
}

/// The pieces of `s` between separators `sep` (std's `str::split` with a
/// string pattern).
pub open spec fn split_on(s: Seq<char>, sep: Seq<char>) -> Seq<Seq<char>>
    decreases s.len(),
{
    if sep.len() == 0 {
        seq![s]
    } else {
        match crate::mcfd::handlers::find_from(s, sep, 0) {
            None => seq![s],
            Some(i) => if 0 <= i && i + sep.len() <= s.len() {
                seq![s.take(i)] + split_on(s.skip(i + sep.len()), sep)
            } else {
                seq![s]
            },
        }
    }
}

/// The last non-empty piece.
pub open spec fn last_nonempty(xs: Seq<Seq<char>>) -> Option<Seq<char>>
    decreases xs.len(),
{
    if xs.len() == 0 {
        None
    } else if xs.last().len() > 0 {
        Some(xs.last())
    } else {
        last_nonempty(xs.drop_last())
    }
}

/// The last segment of a `::` path (the path itself when it has none).
pub open spec fn tail_of(path: Seq<char>) -> Seq<char> {
    match last_nonempty(split_on(path, "::"@)) {
        Some(t) => t,
        None => path,
    }
}

pub(crate) fn find_text(cs: &[char], lit: &[char], from: usize) -> (r: Option<usize>)
    requires
        from <= cs@.len(),
    ensures
        crate::mcfd::handlers::find_from(cs@, lit@, from as int) == (match r {
            Some(i) => Some(i as int),
            None => None::<int>,
        }),
        r matches Some(i) ==> from <= i && i + lit@.len() <= cs@.len(),
{
    let mut i = from;
    while lit.len() <= cs.len() - i
        invariant
            from <= i <= cs@.len(),
            crate::mcfd::handlers::find_from(cs@, lit@, from as int)
                == crate::mcfd::handlers::find_from(cs@, lit@, i as int),
        decreases cs@.len() - i,
    {
        if crate::text::range_eq(cs, i, i + lit.len(), lit) {
            return Some(i);
        }
        assert(lit@.len() > 0) by {
            if lit@.len() == 0 {
                assert(cs@.subrange(i as int, i as int) =~= lit@);
            }
        }
        i = i + 1;
    }
    None
}

pub(crate) proof fn lemma_find_from_shift(s: Seq<char>, p: Seq<char>, k: int)
    requires
        0 <= k <= s.len(),
    ensures
        crate::mcfd::handlers::find_from(s, p, k) == (match crate::mcfd::handlers::find_from(
            s.skip(k),
            p,
            0,
        ) {
            Some(j) => Some(j + k),
            None => None::<int>,
        }),
    decreases s.len() - k,
{
    lemma_find_shift_from(s, p, k, k);
}

proof fn lemma_find_shift_from(s: Seq<char>, p: Seq<char>, k: int, from: int)
    requires
        0 <= k <= from <= s.len(),
    ensures
        crate::mcfd::handlers::find_from(s, p, from) == (match crate::mcfd::handlers::find_from(
            s.skip(k),
            p,
            from - k,
        ) {
            Some(j) => Some(j + k),
            None => None::<int>,
        }),
    decreases s.len() - from,
{
    if from + p.len() <= s.len() {
        assert(s.skip(k).subrange(from - k, from - k + p.len()) =~= s.subrange(from, from + p.len()));
        if from < s.len() {
            lemma_find_shift_from(s, p, k, from + 1);
        }
    }
}

/// The non-empty pieces, in order.
pub open spec fn nonempty(xs: Seq<Seq<char>>) -> Seq<Seq<char>>
    decreases xs.len(),
{
    if xs.len() == 0 {
        Seq::empty()
    } else if xs.last().len() > 0 {
        nonempty(xs.drop_last()).push(xs.last())
    } else {
        nonempty(xs.drop_last())
    }
}

/// The non-empty segments of a `::` path.
pub fn path_segments(path: &str) -> (r: Vec<String>)
    ensures
        crate::mcfd::bridge::views(r@) == nonempty(split_on(path@, "::"@)),
{
    let cs = chars_of(path);
    let sep = chars_of("::");
    proof {
        reveal_strlit("::");
    }
    let n = cs.len();
    let mut out: Vec<String> = Vec::new();
    let mut p: usize = 0;
    let ghost mut done: Seq<Seq<char>> = Seq::empty();
    assert(cs@.skip(0) =~= cs@);
    assert(crate::mcfd::bridge::views(out@) =~= nonempty(done));
    loop
        invariant
            cs@ == path@,
            n == cs@.len(),
            sep@ == "::"@,
            p <= cs@.len(),
            done + split_on(cs@.skip(p as int), "::"@) == split_on(path@, "::"@),
            crate::mcfd::bridge::views(out@) == nonempty(done),
        decreases cs@.len() - p,
    {
        let ghost rest = cs@.skip(p as int);
        proof {
            reveal_strlit("::");
            lemma_find_from_shift(cs@, "::"@, p as int);
        }
        match find_text(cs.as_slice(), sep.as_slice(), p) {
            Some(i) => {
                let ghost piece = cs@.subrange(p as int, i as int);
                proof {
                    let j = i - p;
                    assert("::"@.len() == 2);
                    assert(crate::mcfd::handlers::find_from(rest, "::"@, 0) == Some(j));
                    assert(0 <= j && j + 2 <= rest.len());
                    assert(i + 2 <= n);
                    assert(rest.take(j) =~= piece);
                    assert(rest.skip(j + 2) =~= cs@.skip(i + 2));
                    assert(split_on(rest, "::"@) == seq![rest.take(j)] + split_on(
                        rest.skip(j + 2),
                        "::"@,
                    ));
                    let nd = done.push(piece);
                    assert(nd.drop_last() =~= done);
                    assert(done + split_on(rest, "::"@) =~= nd + split_on(cs@.skip(i + 2), "::"@));
                    done = nd;
                }
                if i > p {
                    let ghost before = out@;
                    out.push(string_from_chars(cs.as_slice(), p, i));
                    assert(crate::mcfd::bridge::views(out@) =~= crate::mcfd::bridge::views(
                        before,
                    ).push(piece));
                }
                p = i + 2;
            },
            None => {
                proof {
                    assert(crate::mcfd::handlers::find_from(rest, "::"@, 0) is None);
                    assert(split_on(rest, "::"@) == seq![rest]);
                    let nd = done.push(rest);
                    assert(nd.drop_last() =~= done);
                    assert(rest =~= cs@.subrange(p as int, cs@.len() as int));
                    assert(done + split_on(rest, "::"@) =~= nd);
                    done = nd;
                }
                if n > p {
                    let ghost before = out@;
                    out.push(string_from_chars(cs.as_slice(), p, n));
                    assert(crate::mcfd::bridge::views(out@) =~= crate::mcfd::bridge::views(
                        before,
                    ).push(rest));
                }
                return out;
            },
        }
    }
}

/// The last segment of a `::` path (the path itself when it has none).
pub fn tail_name(path: &str) -> (r: String)
    ensures
        r@ == tail_of(path@),
{
    let cs = chars_of(path);
    let sep = chars_of("::");
    proof {
        reveal_strlit("::");
    }
    let n = cs.len();
    let mut last: Option<(usize, usize)> = None;
    let mut p: usize = 0;
    let ghost mut done: Seq<Seq<char>> = Seq::empty();
    assert(cs@.skip(0) =~= cs@);
    loop
        invariant
            cs@ == path@,
            n == cs@.len(),
            sep@ == "::"@,
            p <= cs@.len(),
            done + split_on(cs@.skip(p as int), "::"@) == split_on(path@, "::"@),
            match last {
                Some((a, b)) => a < b <= cs@.len() && last_nonempty(done) == Some(
                    cs@.subrange(a as int, b as int),
                ),
                None => last_nonempty(done) is None,
            },
        decreases cs@.len() - p,
    {
        let ghost rest = cs@.skip(p as int);
        proof {
            reveal_strlit("::");
            lemma_find_from_shift(cs@, "::"@, p as int);
        }
        match find_text(cs.as_slice(), sep.as_slice(), p) {
            Some(i) => {
                proof {
                    let j = i - p;
                    assert("::"@.len() == 2);
                    assert(crate::mcfd::handlers::find_from(rest, "::"@, 0) == Some(j));
                    assert(0 <= j && j + 2 <= rest.len());
                    assert(i + 2 <= n);
                    assert(rest.take(j) =~= cs@.subrange(p as int, i as int));
                    assert(rest.skip(j + 2) =~= cs@.skip(i + 2));
                    assert(split_on(rest, "::"@) == seq![rest.take(j)] + split_on(rest.skip(j + 2), "::"@));
                    let nd = done.push(cs@.subrange(p as int, i as int));
                    assert(nd.drop_last() =~= done);
                    assert(done + split_on(rest, "::"@) =~= nd + split_on(cs@.skip(i + 2), "::"@));
                    done = nd;
                }
                if i > p {
                    last = Some((p, i));
                }
                p = i + 2;
            },
            None => {
                proof {
                    assert(crate::mcfd::handlers::find_from(rest, "::"@, 0) is None);
                    assert(split_on(rest, "::"@) == seq![rest]);
                    let nd = done.push(rest);
                    assert(nd.drop_last() =~= done);
                    assert(rest =~= cs@.subrange(p as int, cs@.len() as int));
                    assert(done + split_on(rest, "::"@) =~= nd);
                    done = nd;
                }
                if cs.len() > p {
                    last = Some((p, cs.len()));
                }
                return match last {
                    Some((a, b)) => string_from_chars(cs.as_slice(), a, b),
                    None => string_of(path),
                };
            },
        }
    }
}


// ---- the mcdoc lexer -----------------------------------------------------------
/// A token of an `.mcdoc` source.
#[derive(Debug, Clone)]
pub enum TokenKind {
    Word(String),
    String(String),
    Doc(String),
    AttrStart,
    Spread,
    OptionalColon,
    Symbol(char),
}

/// A token as plain values.
pub enum TokenModel {
    Word(Seq<char>),
    Quoted(Seq<char>),
    Doc(Seq<char>),
    AttrStart,
    Spread,
    OptionalColon,
    Symbol(char),
}

pub open spec fn kind_model(k: TokenKind) -> TokenModel {
    match k {
        TokenKind::Word(w) => TokenModel::Word(w@),
        TokenKind::String(w) => TokenModel::Quoted(w@),
        TokenKind::Doc(w) => TokenModel::Doc(w@),
        TokenKind::AttrStart => TokenModel::AttrStart,
        TokenKind::Spread => TokenModel::Spread,
        TokenKind::OptionalColon => TokenModel::OptionalColon,
        TokenKind::Symbol(c) => TokenModel::Symbol(c),
    }
}

/// A lexed token.
#[derive(Debug, Clone)]
pub struct Token {
    pub kind: TokenKind,
}

pub open spec fn tokens_model(ts: Seq<Token>) -> Seq<TokenModel> {
    ts.map_values(|t: Token| kind_model(t.kind))
}

/// Whether `lit` stands in `s` at `i`.
pub open spec fn at(s: Seq<char>, i: int, lit: Seq<char>) -> bool {
    0 <= i && i + lit.len() <= s.len() && s.subrange(i, i + lit.len()) == lit
}

/// The characters that are tokens of their own.
pub open spec fn is_punct(c: char) -> bool {
    c == '{' || c == '}' || c == '(' || c == ')' || c == '[' || c == ']' || c == '<' || c == '>'
        || c == ',' || c == '=' || c == '|' || c == '@'
}

/// Index of the first line break at or after `i` (the end when none).
pub open spec fn line_end(s: Seq<char>, i: int) -> int
    decreases s.len() - i,
{
    if i < 0 || i >= s.len() {
        s.len() as int
    } else if s[i] == '\n' {
        i
    } else {
        line_end(s, i + 1)
    }
}

/// Whether the `:` at `i` continues a word (a namespaced id such as
/// `minecraft:stone`, or `::`).
pub open spec fn colon_in_word(s: Seq<char>, i: int) -> bool {
    i + 1 < s.len() && (crate::text::is_ascii_alnum(s[i + 1]) || s[i + 1] == '_' || s[i + 1]
        == '%' || s[i + 1] == ':')
}

/// Whether a word ends before the character at `i`.
pub open spec fn word_stop(s: Seq<char>, i: int) -> bool {
    ||| crate::text::is_unicode_whitespace(s[i])
    ||| is_punct(s[i])
    ||| (s[i] == ':' && !at(s, i, "::"@) && !colon_in_word(s, i))
    ||| (s[i] == '?' && at(s, i, "?:"@))
    ||| (s[i] == '#' && at(s, i, "#["@))
}

/// Index where the word that runs through `i` ends.
pub open spec fn word_end(s: Seq<char>, i: int) -> int
    decreases s.len() - i,
{
    if i < 0 || i >= s.len() || word_stop(s, i) {
        if i < 0 { 0 } else { i }
    } else {
        word_end(s, i + 1)
    }
}

/// The body of a quoted string whose text starts at `i`, with a backslash
/// taking the next character as it is, and the index after the closing
/// `delim`; `None` when it is not closed.
pub open spec fn string_body(s: Seq<char>, i: int, delim: char) -> Option<(Seq<char>, int)>
    decreases s.len() - i,
{
    if i < 0 || i >= s.len() {
        None
    } else if s[i] == '\\' {
        if i + 1 < s.len() {
            match string_body(s, i + 2, delim) {
                Some((b, e)) => Some((seq![s[i + 1]] + b, e)),
                None => None,
            }
        } else {
            None
        }
    } else if s[i] == delim {
        Some((Seq::empty(), i + 1))
    } else {
        match string_body(s, i + 1, delim) {
            Some((b, e)) => Some((seq![s[i]] + b, e)),
            None => None,
        }
    }
}

pub proof fn lemma_line_end(s: Seq<char>, i: int)
    requires
        0 <= i <= s.len(),
    ensures
        i <= line_end(s, i) <= s.len(),
        line_end(s, i) < s.len() ==> s[line_end(s, i)] == '\n',
        forall|k: int| i <= k < line_end(s, i) ==> s[k] != '\n',
    decreases s.len() - i,
{
    if i < s.len() && s[i] != '\n' {
        lemma_line_end(s, i + 1);
    }
}

pub proof fn lemma_word_end(s: Seq<char>, i: int)
    requires
        0 <= i <= s.len(),
    ensures
        i <= word_end(s, i) <= s.len(),
    decreases s.len() - i,
{
    if i < s.len() && !word_stop(s, i) {
        lemma_word_end(s, i + 1);
    }
}

pub proof fn lemma_string_body(s: Seq<char>, i: int, delim: char)
    requires
        0 <= i,
    ensures
        string_body(s, i, delim) matches Some((b, e)) ==> i < e <= s.len(),
    decreases s.len() - i,
{
    if 0 <= i < s.len() {
        if s[i] == '\\' {
            if i + 1 < s.len() {
                lemma_string_body(s, i + 2, delim);
            }
        } else if s[i] != delim {
            lemma_string_body(s, i + 1, delim);
        }
    }
}

/// The tokens of `s` from `i` on, or `Err` at a string that is not closed.
pub open spec fn lex_from(s: Seq<char>, i: int) -> Result<Seq<TokenModel>, ()>
    decreases s.len() - i,
{
    if i < 0 || i >= s.len() {
        Ok(Seq::empty())
    } else {
        let c = s[i];
        proof {
            reveal_strlit("///");
            reveal_strlit("#[");
            reveal_strlit("...");
            reveal_strlit("?:");
        }
        if crate::text::is_unicode_whitespace(c) {
            lex_from(s, i + 1)
        } else if at(s, i, "///"@) {
            proof {
                lemma_line_end(s, i + 3);
            }
            let e = line_end(s, i + 3);
            match lex_from(s, e) {
                Ok(rest) => Ok(seq![TokenModel::Doc(crate::text::trim(s.subrange(i + 3, e)))]
                    + rest),
                Err(u) => Err(u),
            }
        } else if at(s, i, "//"@) {
            proof {
                lemma_line_end(s, i);
            }
            let e = line_end(s, i);
            if e < s.len() {
                lex_from(s, e + 1)
            } else {
                Ok(Seq::empty())
            }
        } else if at(s, i, "#["@) {
            match lex_from(s, i + 2) {
                Ok(rest) => Ok(seq![TokenModel::AttrStart] + rest),
                Err(u) => Err(u),
            }
        } else if at(s, i, "..."@) {
            match lex_from(s, i + 3) {
                Ok(rest) => Ok(seq![TokenModel::Spread] + rest),
                Err(u) => Err(u),
            }
        } else if at(s, i, "?:"@) {
            match lex_from(s, i + 2) {
                Ok(rest) => Ok(seq![TokenModel::OptionalColon] + rest),
                Err(u) => Err(u),
            }
        } else if is_punct(c) || (c == ':' && !at(s, i, "::"@)) {
            match lex_from(s, i + 1) {
                Ok(rest) => Ok(seq![TokenModel::Symbol(c)] + rest),
                Err(u) => Err(u),
            }
        } else if c == '"' || c == '\'' {
            proof {
                lemma_string_body(s, i + 1, c);
            }
            match string_body(s, i + 1, c) {
                None => Err(()),
                Some((b, e)) => match lex_from(s, e) {
                    Ok(rest) => Ok(seq![TokenModel::Quoted(b)] + rest),
                    Err(u) => Err(u),
                },
            }
        } else {
            proof {
                lemma_word_end(s, i + 1);
            }
            let e = word_end(s, i + 1);
            match lex_from(s, e) {
                Ok(rest) => Ok(seq![TokenModel::Word(s.subrange(i, e))] + rest),
                Err(u) => Err(u),
            }
        }
    }
}


proof fn lemma_push_token(ts: Seq<Token>, t: Token, rest: Seq<TokenModel>)
    ensures
        tokens_model(ts.push(t)) + rest == tokens_model(ts) + (seq![kind_model(t.kind)] + rest),
{
    assert(tokens_model(ts.push(t)) =~= tokens_model(ts).push(kind_model(t.kind)));
    assert(tokens_model(ts).push(kind_model(t.kind)) + rest =~= tokens_model(ts) + (seq![
        kind_model(t.kind),
    ] + rest));
}

/// An `.mcdoc` source being cut into tokens.
pub struct Lexer {
    pub input: Vec<char>,
    pub index: usize,
}

impl Lexer {
    /// A lexer at the start of `input`.
    pub fn new(input: &str) -> (r: Self)
        ensures
            r.input@ == input@,
            r.index == 0,
    {
        Lexer { input: chars_of(input), index: 0 }
    }

    /// The character at the lexer's position.
    pub fn peek_char(&self) -> (r: Option<char>)
        ensures
            r == if self.index < self.input@.len() {
                Some(self.input@[self.index as int])
            } else {
                None::<char>
            },
    {
        if self.index < self.input.len() {
            Some(self.input[self.index])
        } else {
            None
        }
    }

    /// Whether the rest of the input starts with `value`.
    pub fn starts_with(&self, value: &str) -> (r: bool)
        requires
            self.index <= self.input@.len(),
        ensures
            r == at(self.input@, self.index as int, value@),
    {
        crate::text::starts_with_at(self.input.as_slice(), self.index, value)
    }

    /// Whether the `:` at the position belongs to the word around it.
    pub fn colon_belongs_to_word(&self) -> (r: bool)
        ensures
            r == colon_in_word(self.input@, self.index as int),
    {
        if self.index >= self.input.len() || self.input.len() - self.index < 2 {
            return false;
        }
        let next = self.input[self.index + 1];
        crate::text::alnum(next) || next == '_' || next == '%' || next == ':'
    }

    fn at_word_stop(&self) -> (r: bool)
        requires
            self.index < self.input@.len(),
        ensures
            r == word_stop(self.input@, self.index as int),
    {
        let ch = self.input[self.index];
        crate::text::whitespace(ch) || is_punct_char(ch) || (ch == ':' && !self.starts_with("::")
            && !self.colon_belongs_to_word()) || (ch == '?' && self.starts_with("?:")) || (ch == '#'
            && self.starts_with("#["))
    }

    /// Reads the word at the position.
    pub fn read_word(&mut self) -> (r: String)
        requires
            old(self).index <= old(self).input@.len(),
        ensures
            final(self).input@ == old(self).input@,
            final(self).index == word_end(old(self).input@, old(self).index as int),
            r@ == old(self).input@.subrange(old(self).index as int, final(self).index as int),
    {
        let start = self.index;
        while self.index < self.input.len() && !self.at_word_stop()
            invariant
                self.input@ == old(self).input@,
                start == old(self).index,
                start <= self.index <= self.input@.len(),
                word_end(self.input@, start as int) == word_end(self.input@, self.index as int),
            decreases self.input@.len() - self.index,
        {
            self.index = self.index + 1;
        }
        string_from_chars(self.input.as_slice(), start, self.index)
    }

    /// Reads the quoted string at the position, its delimiter included.
    pub fn read_string(&mut self, delimiter: char) -> (r: Result<String, String>)
        requires
            old(self).index < old(self).input@.len(),
        ensures
            final(self).input@ == old(self).input@,
            match string_body(old(self).input@, old(self).index + 1, delimiter) {
                Some((b, e)) => r matches Ok(v) && v@ == b && final(self).index == e,
                None => r matches Err(m) && m@ == "unterminated string literal in mcdoc"@,
            },
    {
        let ghost s = self.input@;
        let ghost first = self.index + 1;
        let n = self.input.len();
        self.index = self.index + 1;
        let mut parsed = String::new();
        loop
            invariant
                self.input@ == s,
                s == old(self).input@,
                n == s.len(),
                first == old(self).index + 1,
                first <= self.index <= s.len(),
                string_body(s, first, delimiter) == match string_body(
                    s,
                    self.index as int,
                    delimiter,
                ) {
                    Some((b, e)) => Some((parsed@ + b, e)),
                    None => None,
                },
            decreases s.len() - self.index,
        {
            if self.index >= self.input.len() {
                return Err(string_of("unterminated string literal in mcdoc"));
            }
            let ch = self.input[self.index];
            if ch == '\\' {
                if self.input.len() - self.index < 2 {
                    return Err(string_of("unterminated string literal in mcdoc"));
                }
                let next = self.input[self.index + 1];
                proof {
                    match string_body(s, self.index + 2, delimiter) {
                        Some((b, e)) => {
                            assert(parsed@ + (seq![next] + b) =~= parsed@.push(next) + b);
                        },
                        None => {},
                    }
                }
                crate::text::push_char(&mut parsed, next);
                self.index = self.index + 2;
            } else if ch == delimiter {
                self.index = self.index + 1;
                assert(parsed@ + Seq::<char>::empty() =~= parsed@);
                return Ok(parsed);
            } else {
                proof {
                    match string_body(s, self.index + 1, delimiter) {
                        Some((b, e)) => {
                            assert(parsed@ + (seq![ch] + b) =~= parsed@.push(ch) + b);
                        },
                        None => {},
                    }
                }
                crate::text::push_char(&mut parsed, ch);
                self.index = self.index + 1;
            }
        }
    }
}

impl Lexer {
    /// Cuts the rest of the input into tokens: whitespace and `//` comments
    /// dropped, `///` lines kept as documentation, quoted strings unescaped.
    pub fn tokenize(self) -> (r: Result<Vec<Token>, String>)
        requires
            self.index <= self.input@.len(),
        ensures
            match lex_from(self.input@, self.index as int) {
                Ok(ts) => r matches Ok(v) && tokens_model(v@) == ts,
                Err(_) => r matches Err(m) && m@ == "unterminated string literal in mcdoc"@,
            },
    {
        let mut lx = self;
        let ghost s = lx.input@;
        let ghost i0 = lx.index as int;
        let n = lx.input.len();
        let mut tokens: Vec<Token> = Vec::new();
        loop
            invariant
                lx.input@ == s,
                s == self.input@,
                i0 == self.index,
                n == s.len(),
                lx.index <= n,
                lex_from(s, i0) == match lex_from(s, lx.index as int) {
                    Ok(rest) => Ok(tokens_model(tokens@) + rest),
                    Err(u) => Err(u),
                },
            decreases n - lx.index,
        {
            let ghost i = lx.index as int;
            proof {
                reveal_strlit("///");
                reveal_strlit("//");
                reveal_strlit("#[");
                reveal_strlit("...");
                reveal_strlit("?:");
                reveal_strlit("::");
            }
            let ch = match lx.peek_char() {
                Some(c) => c,
                None => {
                    assert(tokens_model(tokens@) + Seq::<TokenModel>::empty() =~= tokens_model(
                        tokens@,
                    ));
                    return Ok(tokens);
                },
            };
            if crate::text::whitespace(ch) {
                lx.index = lx.index + 1;
                continue;
            }
            if lx.starts_with("///") {
                lx.index = lx.index + 3;
                let start = lx.index;
                proof {
                    lemma_line_end(s, start as int);
                }
                while lx.index < n && lx.input[lx.index] != '\n'
                    invariant
                        lx.input@ == s,
                        n == s.len(),
                        start <= lx.index <= n,
                        line_end(s, start as int) == line_end(s, lx.index as int),
                    decreases n - lx.index,
                {
                    lx.index = lx.index + 1;
                }
                let (a, b) = crate::text::trim_range(lx.input.as_slice(), start, lx.index);
                let t = Token { kind: TokenKind::Doc(string_from_chars(lx.input.as_slice(), a, b)) };
                proof {
                    lemma_push_token(tokens@, t, match lex_from(s, lx.index as int) {
                        Ok(rest) => rest,
                        Err(_) => Seq::empty(),
                    });
                }
                tokens.push(t);
                continue;
            }
            if lx.starts_with("//") {
                while lx.index < n && lx.input[lx.index] != '\n'
                    invariant
                        lx.input@ == s,
                        n == s.len(),
                        i <= lx.index <= n,
                        line_end(s, i) == line_end(s, lx.index as int),
                    decreases n - lx.index,
                {
                    lx.index = lx.index + 1;
                }
                if lx.index < n {
                    lx.index = lx.index + 1;
                }
                continue;
            }
            if lx.starts_with("#[") {
                lx.index = lx.index + 2;
                let t = Token { kind: TokenKind::AttrStart };
                proof {
                    lemma_push_token(tokens@, t, match lex_from(s, lx.index as int) {
                        Ok(rest) => rest,
                        Err(_) => Seq::empty(),
                    });
                }
                tokens.push(t);
                continue;
            }
            if lx.starts_with("...") {
                lx.index = lx.index + 3;
                let t = Token { kind: TokenKind::Spread };
                proof {
                    lemma_push_token(tokens@, t, match lex_from(s, lx.index as int) {
                        Ok(rest) => rest,
                        Err(_) => Seq::empty(),
                    });
                }
                tokens.push(t);
                continue;
            }
            if lx.starts_with("?:") {
                lx.index = lx.index + 2;
                let t = Token { kind: TokenKind::OptionalColon };
                proof {
                    lemma_push_token(tokens@, t, match lex_from(s, lx.index as int) {
                        Ok(rest) => rest,
                        Err(_) => Seq::empty(),
                    });
                }
                tokens.push(t);
                continue;
            }
            if is_punct_char(ch) || (ch == ':' && !lx.starts_with("::")) {
                lx.index = lx.index + 1;
                let t = Token { kind: TokenKind::Symbol(ch) };
                proof {
                    lemma_push_token(tokens@, t, match lex_from(s, lx.index as int) {
                        Ok(rest) => rest,
                        Err(_) => Seq::empty(),
                    });
                }
                tokens.push(t);
                continue;
            }
            if ch == '"' || ch == '\'' {
                proof {
                    lemma_string_body(s, i + 1, ch);
                }
                match lx.read_string(ch) {
                    Ok(text) => {
                        let t = Token { kind: TokenKind::String(text) };
                        proof {
                            lemma_push_token(tokens@, t, match lex_from(s, lx.index as int) {
                                Ok(rest) => rest,
                                Err(_) => Seq::empty(),
                            });
                        }
                        tokens.push(t);
                        continue;
                    },
                    Err(e) => {
                        return Err(e);
                    },
                }
            }
            proof {
                lemma_word_end(s, i + 1);
                assert(!word_stop(s, i));
                assert(word_end(s, i) == word_end(s, i + 1));
            }
            let w = lx.read_word();
            let t = Token { kind: TokenKind::Word(w) };
            proof {
                lemma_push_token(tokens@, t, match lex_from(s, lx.index as int) {
                    Ok(rest) => rest,
                    Err(_) => Seq::empty(),
                });
            }
            tokens.push(t);
        }
    }
}

/// Whether `c` is a token of its own.
fn is_punct_char(c: char) -> (r: bool)
    ensures
        r == is_punct(c),
{
    c == '{' || c == '}' || c == '(' || c == ')' || c == '[' || c == ']' || c == '<' || c == '>'
        || c == ',' || c == '=' || c == '|' || c == '@'
}


// ---- the snapshot -------------------------------------------------------------------
/// The game version whose schemas are built.
pub const TARGET_MINECRAFT_VERSION: &'static str = "26.1.2";

/// The revision of the vanilla mcdoc repository the schemas come from.
pub const TARGET_VANILLA_MCDOC_REF: &'static str = "6ef5413a6b0dcd4cbf448aedeebead491221c5cb";

/// The definition every entity's data extends.
pub const DEFAULT_ENTITY_SYMBOL: &'static str = "::java::world::entity::mob::MobBase";

/// The definition every block entity's data extends.
pub const DEFAULT_BLOCK_SYMBOL: &'static str = "::java::world::block::container::ContainerBase";

/// The definition every item's data extends.
pub const DEFAULT_ITEM_SYMBOL: &'static str = "::java::world::item::ItemBase";

/// Keys in text order, each once, with `key` put in its place.
pub open spec fn key_insert(keys: Seq<Seq<char>>, key: Seq<char>) -> Seq<Seq<char>>
    decreases keys.len(),
{
    if keys.len() == 0 {
        seq![key]
    } else if keys[0] == key {
        keys
    } else if text_lt(key, keys[0]) {
        seq![key] + keys
    } else {
        seq![keys[0]] + key_insert(keys.drop_first(), key)
    }
}

/// The ids of a schema map, in order.
pub open spec fn schema_keys(m: Seq<(String, SchemaNode)>) -> Seq<Seq<char>> {
    m.map_values(|e: (String, SchemaNode)| e.0@)
}

proof fn lemma_key_insert_at(keys: Seq<Seq<char>>, key: Seq<char>, pos: int)
    requires
        0 <= pos <= keys.len(),
        forall|j: int| 0 <= j < pos ==> text_lt(#[trigger] keys[j], key),
        pos < keys.len() ==> !text_lt(keys[pos], key),
    ensures
        key_insert(keys, key) == if pos < keys.len() && keys[pos] == key {
            keys
        } else {
            keys.take(pos) + seq![key] + keys.skip(pos)
        },
    decreases pos,
{
    if pos == 0 {
        assert(keys.take(0) =~= Seq::<Seq<char>>::empty());
        assert(keys.skip(0) =~= keys);
        if keys.len() > 0 {
            lemma_text_order(keys[0], key);
        }
    } else {
        lemma_text_order(keys[0], key);
        lemma_key_insert_at(keys.drop_first(), key, pos - 1);
        assert(keys.drop_first().take(pos - 1) =~= keys.take(pos).drop_first());
        assert(keys.drop_first().skip(pos - 1) =~= keys.skip(pos));
        if pos < keys.len() && keys[pos] == key {
            assert(seq![keys[0]] + keys.drop_first() =~= keys);
        } else {
            assert(seq![keys[0]] + (keys.drop_first().take(pos - 1) + seq![key] + keys.drop_first().skip(
                pos - 1,
            )) =~= keys.take(pos) + seq![key] + keys.skip(pos));
        }
    }
}

/// A schema map's entries as plain values, in order.
pub open spec fn schema_entries(m: Seq<(String, SchemaNode)>) -> Seq<(Seq<char>, reduce::NodeM)> {
    m.map_values(|e: (String, SchemaNode)| (e.0@, reduce::node_view(e.1)))
}

/// `es` (in key order) with `n` under `key`: in place of the entry of that
/// key, or inserted where the order puts it.
pub open spec fn entry_insert(es: Seq<(Seq<char>, reduce::NodeM)>, key: Seq<char>, n: reduce::NodeM) -> Seq<
    (Seq<char>, reduce::NodeM),
>
    decreases es.len(),
{
    if es.len() == 0 {
        seq![(key, n)]
    } else if es[0].0 == key {
        es.update(0, (key, n))
    } else if text_lt(key, es[0].0) {
        seq![(key, n)] + es
    } else {
        seq![es[0]] + entry_insert(es.drop_first(), key, n)
    }
}

proof fn lemma_entry_insert_at(es: Seq<(Seq<char>, reduce::NodeM)>, key: Seq<char>, n: reduce::NodeM, pos: int)
    requires
        0 <= pos <= es.len(),
        forall|j: int| 0 <= j < pos ==> text_lt(#[trigger] es[j].0, key),
        pos < es.len() ==> !text_lt(es[pos].0, key),
    ensures
        entry_insert(es, key, n) == if pos < es.len() && es[pos].0 == key {
            es.update(pos, (key, n))
        } else {
            es.take(pos) + seq![(key, n)] + es.skip(pos)
        },
    decreases pos,
{
    if pos == 0 {
        assert(es.take(0) =~= Seq::<(Seq<char>, reduce::NodeM)>::empty());
        assert(es.skip(0) =~= es);
        if es.len() > 0 {
            lemma_text_order(es[0].0, key);
        }
    } else {
        lemma_text_order(es[0].0, key);
        lemma_entry_insert_at(es.drop_first(), key, n, pos - 1);
        assert(es.drop_first().take(pos - 1) =~= es.take(pos).drop_first());
        assert(es.drop_first().skip(pos - 1) =~= es.skip(pos));
        if pos < es.len() && es[pos].0 == key {
            assert(seq![es[0]] + es.drop_first().update(pos - 1, (key, n)) =~= es.update(pos, (key, n)));
        } else {
            assert(seq![es[0]] + (es.drop_first().take(pos - 1) + seq![(key, n)] + es.drop_first().skip(
                pos - 1,
            )) =~= es.take(pos) + seq![(key, n)] + es.skip(pos));
        }
    }
}

/// Puts `node` under `key` in a map kept in key order, in place of what
/// was there.
pub fn insert_schema(map: &mut Vec<(String, SchemaNode)>, key: String, node: SchemaNode)
    ensures
        schema_keys(final(map)@) == key_insert(schema_keys(old(map)@), key@),
        schema_entries(final(map)@) == entry_insert(schema_entries(old(map)@), key@, reduce::node_view(node)),
{
    let ghost es = schema_entries(map@);
    let ghost nv = reduce::node_view(node);
    let kc = chars_of(key.as_str());
    let mut pos: usize = 0;
    let ghost keys = schema_keys(map@);
    while pos < map.len()
        invariant
            map@ == old(map)@,
            keys == schema_keys(map@),
            kc@ == key@,
            pos <= map@.len(),
            forall|j: int| 0 <= j < pos ==> text_lt(#[trigger] keys[j], key@),
        ensures
            map@ == old(map)@,
            keys == schema_keys(map@),
            pos <= map@.len(),
            forall|j: int| 0 <= j < pos ==> text_lt(#[trigger] keys[j], key@),
            pos < map@.len() ==> !text_lt(keys[pos as int], key@),
        decreases map@.len() - pos,
    {
        let ec = chars_of(map[pos].0.as_str());
        let c = compare_text(ec.as_slice(), kc.as_slice());
        if c >= 0 {
            break ;
        }
        assert(keys[pos as int] == map@[pos as int].0@);
        pos = pos + 1;
    }
    proof {
        if pos < map@.len() {
            assert(keys[pos as int] == map@[pos as int].0@);
        }
        lemma_key_insert_at(keys, key@, pos as int);
        assert forall|j: int| 0 <= j < pos implies text_lt(#[trigger] es[j].0, key@) by {
            assert(es[j].0 == keys[j]);
        }
        if pos < map@.len() {
            assert(es[pos as int].0 == keys[pos as int]);
        }
        lemma_entry_insert_at(es, key@, nv, pos as int);
    }
    if pos < map.len() && str_eq(map[pos].0.as_str(), key.as_str()) {
        let ghost k0 = map@[pos as int].0;
        let ghost kv = key@;
        map.remove(pos);
        map.insert(pos, (key, node));
        assert(schema_keys(map@) =~= keys);
        assert(schema_entries(map@) =~= es.update(pos as int, (kv, nv)));
    } else {
        let ghost kv = key@;
        map.insert(pos, (key, node));
        assert(schema_keys(map@) =~= keys.take(pos as int) + seq![kv] + keys.skip(pos as int));
        assert(schema_entries(map@) =~= es.take(pos as int) + seq![(kv, nv)] + es.skip(pos as int));
    }
}

/// Whether every key of a schema map is `__default__` or an id of `ids`
/// under the `minecraft:` namespace.
pub open spec fn keyed_by(m: Seq<(String, SchemaNode)>, ids: Seq<String>) -> bool {
    forall|j: int|
        0 <= j < m.len() ==> (#[trigger] m[j].0@ == "__default__"@ || exists|i: int|
            0 <= i < ids.len() && m[j].0@ == "minecraft:"@ + ids[i]@)
}

/// Whether `s` is the snapshot that `red` gives, a reducer for version `v`
/// over the definitions read from the files `fs`: its repository holds
/// definitions at the paths `ks`, the dispatcher keys the files link, and
/// every definition the files leave known (see [`parser::files_known`]).
pub open spec fn built_by(
    s: NbtSchemaSnapshot,
    red: reduce::SchemaReducer,
    fs: Seq<(Seq<char>, Seq<char>)>,
    ks: Set<Seq<char>>,
    v: Seq<u32>,
    block_ids: Seq<String>,
    item_ids: Seq<String>,
    entity_ids: Seq<String>,
) -> bool {
    &&& red.parsed.wf()
    &&& red.version.0@ == v
    &&& parser::symbol_keys(&red.parsed).to_set() == ks
    &&& parser::dispatch_keys(&red.parsed).to_set() == parser::files_dispatches(fs)
    &&& forall|k: Seq<char>| #[trigger] parser::files_known(fs).contains_key(k)
        ==> parser::def_at(&red.parsed, k) == Some(parser::files_known(fs)[k])
    &&& snapshot_of(s, &red, block_ids, item_ids, entity_ids)
}

/// Whether `s` is the snapshot that a reducer for version `v` gives over
/// the definitions read from `fs`, at the paths `ks` (see [`built_by`]).
pub open spec fn built_from(
    s: NbtSchemaSnapshot,
    fs: Seq<(Seq<char>, Seq<char>)>,
    ks: Set<Seq<char>>,
    v: Seq<u32>,
    block_ids: Seq<String>,
    item_ids: Seq<String>,
    entity_ids: Seq<String>,
) -> bool {
    exists|red: reduce::SchemaReducer| #[trigger]
        built_by(s, red, fs, ks, v, block_ids, item_ids, entity_ids)
}

/// Builds the schemas of entities, blocks and items from the vanilla mcdoc
/// tarball: each map holds the schema of its default definition under
/// `__default__` and the dispatched schema of each id under
/// `minecraft:<id>`, where there is one (see [`snapshot_of`]), reduced
/// over the definitions read from the tarball's files for the target
/// version.
pub fn build_nbt_schema_snapshot_from_tarball(
    tarball: &[u8],
    block_ids: &[String],
    item_ids: &[String],
    entity_ids: &[String],
) -> (r: Result<NbtSchemaSnapshot, String>)
    ensures
        match tarball_files(tarball@) {
            Err(e) => r matches Err(m) && m@ == e,
            Ok(files) => match parser::files_keys(files) {
                Err(_) => r is Err,
                Ok(ks) => match parsed_version(TARGET_MINECRAFT_VERSION@) {
                    Err(e) => r matches Err(m) && m@ == e,
                    Ok(v) => r matches Ok(s) && built_from(s, files, ks, v, block_ids@, item_ids@, entity_ids@),
                },
            },
        },
{
    let files = match read_mcdoc_files_from_tarball(tarball) {
        Ok(f) => f,
        Err(e) => {
            return Err(e);
        },
    };
    assert(parser::files_model(files@) =~= files_view(files@));
    let parsed = match parser::ParsedRepo::parse(&files) {
        Ok(p) => p,
        Err(e) => {
            return Err(e);
        },
    };
    let version = match Version::parse(TARGET_MINECRAFT_VERSION) {
        Ok(v) => v,
        Err(e) => {
            return Err(e);
        },
    };
    let reducer = reduce::SchemaReducer::new(parsed, version);
    let snapshot = snapshot_from_reducer(&reducer, block_ids, item_ids, entity_ids);
    proof {
        let fs = files_view(files@);
        assert(tarball_files(tarball@) == Ok::<Seq<(Seq<char>, Seq<char>)>, Seq<char>>(fs));
        assert(parser::files_keys(fs) == Ok::<Set<Seq<char>>, ()>(
            parser::symbol_keys(&reducer.parsed).to_set(),
        ));
        assert(parsed_version(TARGET_MINECRAFT_VERSION@) == Ok::<Seq<u32>, Seq<char>>(
            reducer.version.0@,
        ));
        assert(reducer.parsed.wf());
        assert(snapshot_of(snapshot, &reducer, block_ids@, item_ids@, entity_ids@));
        let ks = match parser::files_keys(fs) {
            Ok(k) => k,
            Err(_) => Set::empty(),
        };
        let v = match parsed_version(TARGET_MINECRAFT_VERSION@) {
            Ok(x) => x,
            Err(_) => Seq::empty(),
        };
        assert(built_by(snapshot, reducer, fs, ks, v, block_ids@, item_ids@, entity_ids@));
        assert(built_from(snapshot, fs, ks, v, block_ids@, item_ids@, entity_ids@));
    }
    Ok(snapshot)
}

proof fn lemma_key_insert_members(keys: Seq<Seq<char>>, key: Seq<char>, k: Seq<char>)
    ensures
        key_insert(keys, key).contains(k) ==> (keys.contains(k) || k == key),
    decreases keys.len(),
{
    if keys.len() > 0 && keys[0] != key && !text_lt(key, keys[0]) {
        lemma_key_insert_members(keys.drop_first(), key, k);
        if key_insert(keys, key).contains(k) {
            let j = choose|j: int| 0 <= j < key_insert(keys, key).len() && key_insert(keys, key)[j] == k;
            if j > 0 {
                assert(key_insert(keys.drop_first(), key)[j - 1] == k);
                if keys.drop_first().contains(k) {
                    let i = choose|i: int| 0 <= i < keys.drop_first().len() && keys.drop_first()[i] == k;
                    assert(keys[i + 1] == k);
                }
            } else {
                assert(keys[0] == k);
            }
        }
    } else if keys.len() > 0 && keys[0] == key {
    } else if keys.len() > 0 {
        if key_insert(keys, key).contains(k) {
            let j = choose|j: int| 0 <= j < key_insert(keys, key).len() && key_insert(keys, key)[j] == k;
            if j > 0 {
                assert(keys[j - 1] == k);
            }
        }
    } else {
        if key_insert(keys, key).contains(k) {
            let j = choose|j: int| 0 <= j < key_insert(keys, key).len() && key_insert(keys, key)[j] == k;
            assert(j == 0);
        }
    }
}

/// Puts a schema under a key that is `__default__` or an id of `ids`.
fn insert_keyed(map: &mut Vec<(String, SchemaNode)>, key: String, node: SchemaNode, ids: &[String])
    requires
        keyed_by(old(map)@, ids@),
        key@ == "__default__"@ || exists|i: int| 0 <= i < ids@.len() && key@ == "minecraft:"@ + ids@[i]@,
    ensures
        keyed_by(final(map)@, ids@),
        schema_entries(final(map)@) == entry_insert(schema_entries(old(map)@), key@, reduce::node_view(node)),
{
    let ghost k = key@;
    let ghost before = schema_keys(map@);
    insert_schema(map, key, node);
    proof {
        assert forall|j: int| 0 <= j < map@.len() implies (#[trigger] map@[j].0@ == "__default__"@
            || exists|i: int| 0 <= i < ids@.len() && map@[j].0@ == "minecraft:"@ + ids@[i]@) by {
            assert(schema_keys(map@)[j] == map@[j].0@);
            lemma_key_insert_members(before, k, map@[j].0@);
            if map@[j].0@ != k {
                let i = choose|i: int| 0 <= i < before.len() && before[i] == map@[j].0@;
                assert(old(map)@[i].0@ == map@[j].0@);
            }
        }
    }
}

/// Puts the schema dispatched to `dispatcher` for each id under
/// `minecraft:<id>`, where there is one (see [`with_dispatched`]).
fn fill_dispatched(
    reducer: &reduce::SchemaReducer,
    map: &mut Vec<(String, SchemaNode)>,
    dispatcher: &str,
    ids: &[String],
)
    requires
        reducer.parsed.wf(),
        keyed_by(old(map)@, ids@),
    ensures
        keyed_by(final(map)@, ids@),
        schema_entries(final(map)@) == with_dispatched(
            reducer,
            dispatcher@,
            crate::text::views(ids@),
            schema_entries(old(map)@),
        ),
{
    let ghost start = schema_entries(map@);
    let ghost iv = crate::text::views(ids@);
    let mut i: usize = 0;
    proof {
        assert(iv.take(0) =~= Seq::<Seq<char>>::empty());
    }
    while i < ids.len()
        invariant
            reducer.parsed.wf(),
            i <= ids@.len(),
            iv == crate::text::views(ids@),
            keyed_by(map@, ids@),
            schema_entries(map@) == with_dispatched(reducer, dispatcher@, iv.take(i as int), start),
        decreases ids@.len() - i,
    {
        proof {
            assert(iv.take(i + 1).drop_last() =~= iv.take(i as int));
            assert(iv.take(i + 1).last() == ids@[i as int]@);
        }
        match reducer.schema_for_dispatch(dispatcher, ids[i].as_str()) {
            Some(node) => {
                let mut key = string_of("minecraft:");
                crate::text::push_str(&mut key, ids[i].as_str());
                insert_keyed(map, key, node, ids);
            },
            None => {},
        }
        i = i + 1;
    }
    assert(iv.take(ids@.len() as int) =~= iv);
}

/// The schema of the definition at `s`, reduced afresh.
pub open spec fn fresh_symbol(r: &reduce::SchemaReducer, s: Seq<char>) -> Option<reduce::NodeM> {
    reduction::red_symbol(
        r,
        Seq::empty(),
        Seq::empty(),
        reduction::CacheM { syms: Seq::empty(), disps: Seq::empty() },
        s,
    ).0
}

/// The schema dispatched to `d` for an id, its `minecraft:` namespace
/// dropped, reduced afresh.
pub open spec fn fresh_dispatch(r: &reduce::SchemaReducer, d: Seq<char>, id: Seq<char>) -> Option<reduce::NodeM> {
    reduction::red_dispatch(
        r,
        Seq::empty(),
        Seq::empty(),
        reduction::CacheM { syms: Seq::empty(), disps: Seq::empty() },
        d,
        match crate::text::strip_prefix(id, "minecraft:"@) {
            Some(k) => k,
            None => id,
        },
    ).0
}

/// `start` with the schema dispatched to `d` for each id of `ids`, in
/// order, under `minecraft:<id>`, where there is one.
pub open spec fn with_dispatched(
    r: &reduce::SchemaReducer,
    d: Seq<char>,
    ids: Seq<Seq<char>>,
    start: Seq<(Seq<char>, reduce::NodeM)>,
) -> Seq<(Seq<char>, reduce::NodeM)>
    decreases ids.len(),
{
    if ids.len() == 0 {
        start
    } else {
        let acc = with_dispatched(r, d, ids.drop_last(), start);
        match fresh_dispatch(r, d, ids.last()) {
            Some(n) => entry_insert(acc, "minecraft:"@ + ids.last(), n),
            None => acc,
        }
    }
}

/// One map of a snapshot: the schema of the default definition `s` under
/// `__default__`, where there is one, then the dispatched schemas of the
/// ids.
pub open spec fn snapshot_map(
    r: &reduce::SchemaReducer,
    s: Seq<char>,
    d: Seq<char>,
    ids: Seq<Seq<char>>,
) -> Seq<(Seq<char>, reduce::NodeM)> {
    with_dispatched(
        r,
        d,
        ids,
        match fresh_symbol(r, s) {
            Some(n) => seq![("__default__"@, n)],
            None => Seq::empty(),
        },
    )
}

/// Whether `s` holds the schemas the reducer gives for the ids (see
/// [`snapshot_map`]).
pub open spec fn snapshot_of(
    s: NbtSchemaSnapshot,
    r: &reduce::SchemaReducer,
    block_ids: Seq<String>,
    item_ids: Seq<String>,
    entity_ids: Seq<String>,
) -> bool {
    &&& schema_entries(s.entity@) == snapshot_map(
        r,
        DEFAULT_ENTITY_SYMBOL@,
        "minecraft:entity"@,
        crate::text::views(entity_ids),
    )
    &&& schema_entries(s.block@) == snapshot_map(
        r,
        DEFAULT_BLOCK_SYMBOL@,
        "minecraft:block"@,
        crate::text::views(block_ids),
    )
    &&& schema_entries(s.item@) == snapshot_map(
        r,
        DEFAULT_ITEM_SYMBOL@,
        "minecraft:item"@,
        crate::text::views(item_ids),
    )
    &&& keyed_by(s.entity@, entity_ids)
    &&& keyed_by(s.block@, block_ids)
    &&& keyed_by(s.item@, item_ids)
}

fn default_map(reducer: &reduce::SchemaReducer, symbol: &str, ids: &[String]) -> (r: Vec<(String, SchemaNode)>)
    requires
        reducer.parsed.wf(),
    ensures
        keyed_by(r@, ids@),
        schema_entries(r@) == match fresh_symbol(reducer, symbol@) {
            Some(n) => seq![("__default__"@, n)],
            None => Seq::<(Seq<char>, reduce::NodeM)>::empty(),
        },
{
    let mut map: Vec<(String, SchemaNode)> = Vec::new();
    proof {
        reveal_strlit("__default__");
        assert(schema_entries(map@) =~= Seq::<(Seq<char>, reduce::NodeM)>::empty());
    }
    match reducer.schema_for_symbol(symbol) {
        Some(node) => insert_keyed(&mut map, string_of("__default__"), node, ids),
        None => {},
    }
    map
}

/// The snapshot of the schemas the reducer gives for entities, blocks and
/// items (see [`snapshot_of`]).
pub fn snapshot_from_reducer(
    reducer: &reduce::SchemaReducer,
    block_ids: &[String],
    item_ids: &[String],
    entity_ids: &[String],
) -> (r: NbtSchemaSnapshot)
    requires
        reducer.parsed.wf(),
    ensures
        snapshot_of(r, reducer, block_ids@, item_ids@, entity_ids@),
{
    let mut entity = default_map(reducer, DEFAULT_ENTITY_SYMBOL, entity_ids);
    let mut block = default_map(reducer, DEFAULT_BLOCK_SYMBOL, block_ids);
    let mut item = default_map(reducer, DEFAULT_ITEM_SYMBOL, item_ids);
    fill_dispatched(reducer, &mut entity, "minecraft:entity", entity_ids);
    fill_dispatched(reducer, &mut block, "minecraft:block", block_ids);
    fill_dispatched(reducer, &mut item, "minecraft:item", item_ids);
    NbtSchemaSnapshot { entity, block, item }
}


// ---- laws ---------------------------------------------------------------------------
/// Versions are totally ordered: of two versions exactly one comes first,
/// unless they are equal, and the order is transitive.
pub proof fn law_version_order(a: Seq<u32>, b: Seq<u32>, c: Seq<u32>)
    ensures
        a == b ==> !version_lt(a, b),
        a != b ==> (version_lt(a, b) <==> !version_lt(b, a)),
        version_lt(a, b) && version_lt(b, c) ==> version_lt(a, c),
    decreases a.len(),
{
    if a.len() > 0 && b.len() > 0 && a[0] == b[0] {
        law_version_order(a.drop_first(), b.drop_first(), if c.len() > 0 {
            c.drop_first()
        } else {
            c
        });
        if a.drop_first() =~= b.drop_first() {
            assert forall|i: int| 0 <= i < a.len() implies a[i] == b[i] by {
                if i > 0 {
                    assert(a[i] == a.drop_first()[i - 1]);
                    assert(b[i] == b.drop_first()[i - 1]);
                }
            }
            assert(a =~= b);
        }
        if a == b {
            assert(a.drop_first() =~= b.drop_first());
        }
    } else if a.len() > 0 && b.len() > 0 && a[0] != b[0] {
        if version_lt(a, b) && version_lt(b, c) && c.len() > 0 && b[0] == c[0] {
        }
    } else if a.len() == 0 && b.len() == 0 {
        assert(a =~= b);
    }
    if version_lt(a, b) && version_lt(b, c) {
        lemma_version_lt_transitive(a, b, c);
    }
}

proof fn lemma_version_lt_transitive(a: Seq<u32>, b: Seq<u32>, c: Seq<u32>)
    requires
        version_lt(a, b),
        version_lt(b, c),
    ensures
        version_lt(a, c),
    decreases a.len(),
{
    if a.len() > 0 && b.len() > 0 && c.len() > 0 && a[0] == b[0] && b[0] == c[0] {
        lemma_version_lt_transitive(a.drop_first(), b.drop_first(), c.drop_first());
    }
}

/// Keys in strictly increasing text order.
pub open spec fn strictly_sorted(keys: Seq<Seq<char>>) -> bool {
    forall|i: int, j: int| 0 <= i < j < keys.len() ==> text_lt(#[trigger] keys[i], #[trigger] keys[j])
}

/// Putting a schema into a snapshot map keeps its ids in strictly increasing
/// order, each once, and adds exactly the new id.
pub proof fn law_schema_keys_stay_sorted(keys: Seq<Seq<char>>, key: Seq<char>)
    requires
        strictly_sorted(keys),
    ensures
        strictly_sorted(key_insert(keys, key)),
        forall|k: Seq<char>| #[trigger] key_insert(keys, key).contains(k) <==> (keys.contains(k) || k == key),
    decreases keys.len(),
{
    let r = key_insert(keys, key);
    if keys.len() == 0 {
        assert forall|k: Seq<char>| #[trigger] r.contains(k) <==> (keys.contains(k) || k == key) by {
            if r.contains(k) {
                let j = choose|j: int| 0 <= j < r.len() && r[j] == k;
                assert(j == 0);
            }
            if k == key {
                assert(r[0] == key);
            }
        }
    } else if keys[0] == key {
    } else if text_lt(key, keys[0]) {
        assert forall|i: int, j: int| 0 <= i < j < r.len() implies text_lt(#[trigger] r[i], #[trigger] r[j]) by {
            if i == 0 {
                assert(r[j] == keys[j - 1]);
                if j > 1 {
                    lemma_text_lt_transitive(key, keys[0], keys[j - 1]);
                }
            } else {
                assert(r[i] == keys[i - 1]);
                assert(r[j] == keys[j - 1]);
            }
        }
        assert forall|k: Seq<char>| #[trigger] r.contains(k) <==> (keys.contains(k) || k == key) by {
            if r.contains(k) {
                let j = choose|j: int| 0 <= j < r.len() && r[j] == k;
                if j > 0 {
                    assert(keys[j - 1] == k);
                }
            }
            if keys.contains(k) {
                let j = choose|j: int| 0 <= j < keys.len() && keys[j] == k;
                assert(r[j + 1] == k);
            }
            if k == key {
                assert(r[0] == key);
            }
        }
    } else {
        let rest = keys.drop_first();
        assert(strictly_sorted(rest)) by {
            assert forall|i: int, j: int| 0 <= i < j < rest.len() implies text_lt(#[trigger] rest[i], #[trigger] rest[j]) by {
                assert(rest[i] == keys[i + 1]);
                assert(rest[j] == keys[j + 1]);
            }
        }
        law_schema_keys_stay_sorted(rest, key);
        let tail = key_insert(rest, key);
        lemma_text_order(keys[0], key);
        assert(text_lt(keys[0], key));
        assert forall|i: int, j: int| 0 <= i < j < r.len() implies text_lt(#[trigger] r[i], #[trigger] r[j]) by {
            if i == 0 {
                assert(r[j] == tail[j - 1]);
                assert(tail.contains(tail[j - 1]));
                if rest.contains(tail[j - 1]) {
                    let m = choose|m: int| 0 <= m < rest.len() && rest[m] == tail[j - 1];
                    assert(keys[m + 1] == rest[m]);
                }
            } else {
                assert(r[i] == tail[i - 1]);
                assert(r[j] == tail[j - 1]);
            }
        }
        assert forall|k: Seq<char>| #[trigger] r.contains(k) <==> (keys.contains(k) || k == key) by {
            if r.contains(k) {
                let j = choose|j: int| 0 <= j < r.len() && r[j] == k;
                if j > 0 {
                    assert(tail[j - 1] == k);
                    assert(tail.contains(k));
                    if rest.contains(k) {
                        let m = choose|m: int| 0 <= m < rest.len() && rest[m] == k;
                        assert(keys[m + 1] == k);
                    }
                } else {
                    assert(keys[0] == k);
                }
            }
            if keys.contains(k) {
                let j = choose|j: int| 0 <= j < keys.len() && keys[j] == k;
                if j == 0 {
                    assert(r[0] == k);
                } else {
                    assert(rest[j - 1] == k);
                    assert(rest.contains(k));
                    assert(tail.contains(k));
                    let m = choose|m: int| 0 <= m < tail.len() && tail[m] == k;
                    assert(r[m + 1] == k);
                }
            }
            if k == key {
                assert(tail.contains(key));
                let m = choose|m: int| 0 <= m < tail.len() && tail[m] == key;
                assert(r[m + 1] == key);
            }
        }
    }
}

} // verus!
