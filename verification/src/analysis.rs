//! Editor support: the map between the text an editor shows and the
//! normalised text the parser reads, function and word lookup by offset,
//! and collection of `let` names.
use vstd::prelude::*;

use crate::ast::{type_spelling, MatchArm, Program, Stmt, StmtKind, Type};
use crate::diagnostics::{char_index_of, Diagnostic, TextRange};
use crate::text::{
    alnum, byte_len, byte_offset, chars_of, is_ascii_alnum, join, lemma_byte_offset_mono,
    lemma_byte_offset_step, push_str, str_eq, string_from_chars, string_of, width_of,
};
use vstd::utf8::encode_utf8;

verus! {

broadcast use vstd::string::group_string_axioms;

/// Index just past the first newline byte at or after `start`, or the end
/// of `b` when there is none.
pub open spec fn piece_end(b: Seq<u8>, start: int) -> int
    decreases b.len() - start,
{
    if start >= b.len() {
        b.len() as int
    } else if b[start] == 10u8 {
        start + 1
    } else {
        piece_end(b, start + 1)
    }
}

pub proof fn lemma_piece_end_bounds(b: Seq<u8>, start: int)
    requires
        0 <= start < b.len(),
    ensures
        start < piece_end(b, start) <= b.len(),
    decreases b.len() - start,
{
    if b[start] != 10u8 {
        assert(piece_end(b, start) == piece_end(b, start + 1));
        if start + 1 < b.len() {
            lemma_piece_end_bounds(b, start + 1);
        } else {
            assert(piece_end(b, start + 1) == b.len());
        }
    }
}

/// Length of the longest common prefix of `a` and `b`.
pub open spec fn common_prefix_len(a: Seq<u8>, b: Seq<u8>) -> nat
    decreases a.len(),
{
    if a.len() == 0 || b.len() == 0 || a[0] != b[0] {
        0
    } else {
        1 + common_prefix_len(a.drop_first(), b.drop_first())
    }
}

/// Length of the longest common suffix of `a` and `b`, at most `limit`.
pub open spec fn common_suffix_len(a: Seq<u8>, b: Seq<u8>, limit: nat) -> nat
    decreases limit,
{
    if limit == 0 || a.len() == 0 || b.len() == 0 || a.last() != b.last() {
        0
    } else {
        1 + common_suffix_len(a.drop_last(), b.drop_last(), (limit - 1) as nat)
    }
}

pub open spec fn min_int(a: int, b: int) -> int {
    if a < b {
        a
    } else {
        b
    }
}

/// Where offset `r` of line `f` lands in its counterpart line `t`. Bytes
/// before the first difference keep their offset, bytes after the last
/// difference keep their distance to the line end, and offsets inside the
/// changed middle are clamped to the changed middle of `t`.
pub open spec fn line_offset(f: Seq<u8>, t: Seq<u8>, r: int) -> int {
    let p = common_prefix_len(f, t) as int;
    let s = common_suffix_len(f, t, min_int(f.len() - p, t.len() - p) as nat) as int;
    let fe = f.len() - s;
    let te = t.len() - s;
    if r >= fe {
        te + (r - fe)
    } else if r >= p {
        p + min_int(r - p, te - p)
    } else {
        r
    }
}

/// Where byte offset `i` of `from` lands in `to`, pairing the lines of the
/// two texts in order from the line of `from` at `fb` and the line of `to`
/// at `tb`. Offsets past the paired lines keep their distance to the last
/// pairing, clamped to the end of `to`.
pub open spec fn mapped_offset(from: Seq<u8>, to: Seq<u8>, fb: int, tb: int, i: int) -> int
    decreases from.len() - fb,
{
    if 0 <= fb < from.len() && 0 <= tb < to.len() {
        let fe = piece_end(from, fb);
        let te = piece_end(to, tb);
        if i < fe {
            tb + line_offset(from.subrange(fb, fe), to.subrange(tb, te), i - fb)
        } else {
            proof {
                lemma_piece_end_bounds(from, fb);
            }
            mapped_offset(from, to, fe, te, i)
        }
    } else {
        tb + min_int(i - fb, to.len() - tb)
    }
}

/// The offset map from the bytes of `from` (one entry per offset, the end
/// included) into the bytes of `to`.
pub open spec fn offset_map(from: Seq<u8>, to: Seq<u8>) -> Seq<int> {
    Seq::new((from.len() + 1) as nat, |i: int| mapped_offset(from, to, 0, 0, i))
}

/// The map back from the normalised text into `original` that
/// `SourceMap::from_sources` makes.
pub open spec fn backward_map(original: Seq<char>, normalized: Seq<char>) -> Seq<int> {
    if original == normalized {
        identity_map(encode_utf8(original).len())
    } else {
        offset_map(encode_utf8(normalized), encode_utf8(original))
    }
}

/// Where offset `o` lands through the map `bw` (offsets past its end take
/// its last entry).
pub open spec fn mapped_back(bw: Seq<int>, o: int) -> int {
    bw[min_int(o, bw.len() - 1)]
}

/// The identity map on the offsets of a text of `n` bytes.
pub open spec fn identity_map(n: nat) -> Seq<int> {
    Seq::new(n + 1, |i: int| i)
}

/// A byte-offset map between the text an editor shows and the normalised
/// text the parser reads, in both directions.
#[derive(Debug)]
pub struct SourceMap {
    original_to_normalized: Vec<usize>,
    normalized_to_original: Vec<usize>,
}

impl SourceMap {
    #[verifier::type_invariant]
    spec fn inv(self) -> bool {
        &&& self.original_to_normalized@.len() >= 1
        &&& self.normalized_to_original@.len() >= 1
    }

    /// Offsets of the original text mapped into the normalised text.
    pub closed spec fn forward(&self) -> Seq<int> {
        self.original_to_normalized@.map_values(|v: usize| v as int)
    }

    /// Offsets of the normalised text mapped back into the original text.
    pub closed spec fn backward(&self) -> Seq<int> {
        self.normalized_to_original@.map_values(|v: usize| v as int)
    }

    /// The map of a text onto itself.
    pub fn identity(source: &str) -> (r: Self)
        requires
            encode_utf8(source@).len() < usize::MAX,
        ensures
            r.forward() == identity_map(encode_utf8(source@).len()),
            r.backward() == identity_map(encode_utf8(source@).len()),
    {
        let n = source.len();
        let offsets = identity_offsets(n);
        let copy = copy_offsets(&offsets);
        SourceMap { original_to_normalized: copy, normalized_to_original: offsets }
    }

    /// The map between `original` and its normalisation `normalized`, which
    /// pairs their lines in order.
    pub fn from_sources(original: &str, normalized: &str) -> (r: Self)
        requires
            encode_utf8(original@).len() < usize::MAX,
            encode_utf8(normalized@).len() < usize::MAX,
        ensures
            original@ == normalized@ ==> r.forward() == identity_map(encode_utf8(original@).len())
                && r.backward() == identity_map(encode_utf8(original@).len()),
            original@ != normalized@ ==> r.forward() == offset_map(
                encode_utf8(original@),
                encode_utf8(normalized@),
            ) && r.backward() == offset_map(encode_utf8(normalized@), encode_utf8(original@)),
            r.backward() == backward_map(original@, normalized@),
    {
        if str_eq(original, normalized) {
            return Self::identity(original);
        }
        let forward = build_offset_map(original.as_bytes(), normalized.as_bytes());
        let backward = build_offset_map(normalized.as_bytes(), original.as_bytes());
        SourceMap { original_to_normalized: forward, normalized_to_original: backward }
    }

    /// The original offset of normalised offset `offset` (offsets past the
    /// end map like the end).
    pub fn to_original_offset(&self, offset: usize) -> (r: usize)
        ensures
            r == mapped_back(self.backward(), offset as int),
    {
        proof {
            use_type_invariant(self);
        }
        let last = self.normalized_to_original.len() - 1;
        let index = if offset < last {
            offset
        } else {
            last
        };
        self.normalized_to_original[index]
    }

    /// `to_original_offset` applied to both ends of `range`.
    pub fn to_original_range(&self, range: TextRange) -> (r: TextRange)
        ensures
            r.start == self.backward()[min_int(range.start as int, self.backward().len() - 1)],
            r.end == self.backward()[min_int(range.end as int, self.backward().len() - 1)],
    {
        TextRange::new(self.to_original_offset(range.start), self.to_original_offset(range.end))
    }
}

fn identity_offsets(n: usize) -> (r: Vec<usize>)
    requires
        n < usize::MAX,
    ensures
        r@.len() == n + 1,
        r@.map_values(|v: usize| v as int) == identity_map(n as nat),
{
    let mut r: Vec<usize> = Vec::new();
    let mut i: usize = 0;
    while i <= n
        invariant
            n < usize::MAX,
            i <= n + 1,
            r@.len() == i,
            forall|k: int| 0 <= k < i ==> r@[k] == k,
        decreases n + 1 - i,
    {
        r.push(i);
        i = i + 1;
    }
    assert(r@.map_values(|v: usize| v as int) =~= identity_map(n as nat));
    r
}

fn copy_offsets(v: &Vec<usize>) -> (r: Vec<usize>)
    ensures
        r@ == v@,
{
    let mut r: Vec<usize> = Vec::new();
    let mut i: usize = 0;
    while i < v.len()
        invariant
            i <= v@.len(),
            r@ == v@.take(i as int),
        decreases v@.len() - i,
    {
        assert(v@.take(i + 1) =~= v@.take(i as int).push(v@[i as int]));
        r.push(v[i]);
        i = i + 1;
    }
    assert(v@.take(v@.len() as int) =~= v@);
    r
}

fn piece_end_of(b: &[u8], start: usize) -> (r: usize)
    requires
        start < b@.len(),
    ensures
        r == piece_end(b@, start as int),
        start < r <= b@.len(),
{
    proof {
        lemma_piece_end_bounds(b@, start as int);
    }
    let mut i = start;
    while i < b.len() && b[i] != 10u8
        invariant
            start <= i <= b@.len(),
            piece_end(b@, start as int) == piece_end(b@, i as int),
        decreases b@.len() - i,
    {
        i = i + 1;
    }
    if i < b.len() {
        i + 1
    } else {
        i
    }
}

proof fn lemma_common_prefix(a: Seq<u8>, b: Seq<u8>, p: int)
    requires
        0 <= p <= a.len(),
        p <= b.len(),
        forall|j: int| 0 <= j < p ==> a[j] == b[j],
        p == a.len() || p == b.len() || a[p] != b[p],
    ensures
        common_prefix_len(a, b) == p,
    decreases p,
{
    if p > 0 {
        assert forall|j: int| 0 <= j < p - 1 implies a.drop_first()[j] == b.drop_first()[j] by {
            assert(a[j + 1] == b[j + 1]);
        }
        lemma_common_prefix(a.drop_first(), b.drop_first(), p - 1);
    }
}

/// The bytes `j` places before the ends of `a` and `b` agree.
pub open spec fn same_from_end(a: Seq<u8>, b: Seq<u8>, j: int) -> bool {
    a[a.len() - 1 - j] == b[b.len() - 1 - j]
}

proof fn lemma_common_suffix(a: Seq<u8>, b: Seq<u8>, limit: nat, s: int)
    requires
        0 <= s <= limit,
        limit <= a.len(),
        limit <= b.len(),
        forall|j: int| 0 <= j < s ==> #[trigger] same_from_end(a, b, j),
        s == limit || a[a.len() - 1 - s] != b[b.len() - 1 - s],
    ensures
        common_suffix_len(a, b, limit) == s,
    decreases s,
{
    if s > 0 {
        let a2 = a.drop_last();
        let b2 = b.drop_last();
        assert forall|j: int| 0 <= j < s - 1 implies #[trigger] same_from_end(a2, b2, j) by {
            assert(same_from_end(a, b, j + 1));
        }
        assert(a.last() == b.last()) by {
            assert(same_from_end(a, b, 0));
        }
        if s - 1 < limit - 1 {
            assert(a2[a2.len() - 1 - (s - 1)] == a[a.len() - 1 - s]);
            assert(b2[b2.len() - 1 - (s - 1)] == b[b.len() - 1 - s]);
        }
        lemma_common_suffix(a2, b2, (limit - 1) as nat, s - 1);
    } else if limit > 0 {
        assert(a[a.len() - 1 - 0] == a.last());
        assert(b[b.len() - 1 - 0] == b.last());
    }
}

/// Fills `map[fb..fe)` with the positions of the line `from[fb..fe)` in its
/// counterpart `to[tb..te)`.
fn fill_line(from: &[u8], to: &[u8], fb: usize, fe: usize, tb: usize, te: usize, map: &mut Vec<usize>)
    requires
        fb < fe <= from@.len(),
        tb < te <= to@.len(),
        old(map)@.len() == from@.len() + 1,
    ensures
        final(map)@.len() == old(map)@.len(),
        forall|i: int|
            fb <= i < fe ==> #[trigger] final(map)@[i] == tb + line_offset(
                from@.subrange(fb as int, fe as int),
                to@.subrange(tb as int, te as int),
                i - fb,
            ),
        forall|i: int|
            0 <= i < old(map)@.len() && !(fb <= i < fe) ==> #[trigger] final(map)@[i] == old(map)@[i],
{
    let ghost f = from@.subrange(fb as int, fe as int);
    let ghost t = to@.subrange(tb as int, te as int);
    let flen = fe - fb;
    let tlen = te - tb;
    let mut p: usize = 0;
    while p < flen && p < tlen && from[fb + p] == to[tb + p]
        invariant
            fb < fe <= from@.len(),
            tb < te <= to@.len(),
            flen == fe - fb,
            tlen == te - tb,
            f == from@.subrange(fb as int, fe as int),
            t == to@.subrange(tb as int, te as int),
            p <= flen,
            p <= tlen,
            forall|j: int| 0 <= j < p ==> f[j] == t[j],
        decreases flen - p,
    {
        p = p + 1;
    }
    proof {
        lemma_common_prefix(f, t, p as int);
    }
    let limit = if flen - p < tlen - p {
        flen - p
    } else {
        tlen - p
    };
    let mut s: usize = 0;
    while s < limit && from[fe - 1 - s] == to[te - 1 - s]
        invariant
            fb < fe <= from@.len(),
            tb < te <= to@.len(),
            flen == fe - fb,
            tlen == te - tb,
            f == from@.subrange(fb as int, fe as int),
            t == to@.subrange(tb as int, te as int),
            limit <= flen,
            limit <= tlen,
            s <= limit,
            forall|j: int| 0 <= j < s ==> #[trigger] same_from_end(f, t, j),
        decreases limit - s,
    {
        s = s + 1;
    }
    proof {
        lemma_common_suffix(f, t, limit as nat, s as int);
    }
    let f_changed_end = flen - s;
    let t_changed_end = tlen - s;
    let mut r: usize = 0;
    while r < flen
        invariant
            fb < fe <= from@.len(),
            tb < te <= to@.len(),
            flen == fe - fb,
            tlen == te - tb,
            f == from@.subrange(fb as int, fe as int),
            t == to@.subrange(tb as int, te as int),
            p == common_prefix_len(f, t),
            s == common_suffix_len(f, t, min_int(f.len() - p, t.len() - p) as nat),
            p <= f_changed_end <= flen,
            p <= t_changed_end <= tlen,
            f_changed_end == flen - s,
            t_changed_end == tlen - s,
            r <= flen,
            map@.len() == old(map)@.len(),
            old(map)@.len() == from@.len() + 1,
            forall|i: int| fb <= i < fb + r ==> #[trigger] map@[i] == tb + line_offset(f, t, i - fb),
            forall|i: int|
                0 <= i < old(map)@.len() && !(fb <= i < fb + r) ==> #[trigger] map@[i] == old(map)@[i],
        decreases flen - r,
    {
        let value = if r >= f_changed_end {
            t_changed_end + (r - f_changed_end)
        } else if r >= p {
            p + if r - p < t_changed_end - p {
                r - p
            } else {
                t_changed_end - p
            }
        } else {
            r
        };
        map.set(fb + r, tb + value);
        r = r + 1;
    }
}

/// The offset map from `from` into `to`, one entry per byte offset of `from`.
fn build_offset_map(from: &[u8], to: &[u8]) -> (r: Vec<usize>)
    requires
        from@.len() < usize::MAX,
    ensures
        r@.map_values(|v: usize| v as int) == offset_map(from@, to@),
        r@.len() >= 1,
{
    let n = from.len();
    let mut map: Vec<usize> = Vec::new();
    let mut k: usize = 0;
    while k <= n
        invariant
            n == from@.len(),
            n < usize::MAX,
            k <= n + 1,
            map@.len() == k,
        decreases n + 1 - k,
    {
        map.push(0);
        k = k + 1;
    }
    let mut fb: usize = 0;
    let mut tb: usize = 0;
    while fb < n && tb < to.len()
        invariant
            n == from@.len(),
            fb <= n,
            tb <= to@.len(),
            map@.len() == n + 1,
            forall|i: int| 0 <= i < fb ==> #[trigger] map@[i] == mapped_offset(from@, to@, 0, 0, i),
            forall|i: int|
                fb <= i <= n ==> #[trigger] mapped_offset(from@, to@, 0, 0, i) == mapped_offset(
                    from@,
                    to@,
                    fb as int,
                    tb as int,
                    i,
                ),
        decreases n - fb,
    {
        let fe = piece_end_of(from, fb);
        let te = piece_end_of(to, tb);
        let ghost before = map@;
        fill_line(from, to, fb, fe, tb, te, &mut map);
        assert forall|i: int| 0 <= i < fe implies #[trigger] map@[i] == mapped_offset(
            from@,
            to@,
            0,
            0,
            i,
        ) by {
            if i >= fb {
                assert(mapped_offset(from@, to@, 0, 0, i) == mapped_offset(
                    from@,
                    to@,
                    fb as int,
                    tb as int,
                    i,
                ));
            } else {
                assert(map@[i] == before[i]);
            }
        }
        assert forall|i: int| fe <= i <= n implies #[trigger] mapped_offset(
            from@,
            to@,
            0,
            0,
            i,
        ) == mapped_offset(from@, to@, fe as int, te as int, i) by {
            assert(mapped_offset(from@, to@, 0, 0, i) == mapped_offset(
                from@,
                to@,
                fb as int,
                tb as int,
                i,
            ));
        }
        fb = fe;
        tb = te;
    }
    let rest = to.len() - tb;
    let mut index = fb;
    while index <= n
        invariant
            n == from@.len(),
            n < usize::MAX,
            fb <= index <= n + 1,
            tb <= to@.len(),
            rest == to@.len() - tb,
            !(fb < n && tb < to@.len()),
            map@.len() == n + 1,
            forall|i: int| 0 <= i < index ==> #[trigger] map@[i] == mapped_offset(from@, to@, 0, 0, i),
            forall|i: int|
                fb <= i <= n ==> #[trigger] mapped_offset(from@, to@, 0, 0, i) == mapped_offset(
                    from@,
                    to@,
                    fb as int,
                    tb as int,
                    i,
                ),
        decreases n + 1 - index,
    {
        let step = if index - fb < rest {
            index - fb
        } else {
            rest
        };
        map.set(index, tb + step);
        assert(mapped_offset(from@, to@, 0, 0, index as int) == mapped_offset(
            from@,
            to@,
            fb as int,
            tb as int,
            index as int,
        ));
        index = index + 1;
    }
    assert(map@.map_values(|v: usize| v as int) =~= offset_map(from@, to@));
    map
}

/// A function of the analysed program, as the editor shows it.
#[derive(Debug, Clone, PartialEq, Eq)]
pub struct FunctionInfo {
    pub name: String,
    pub params: Vec<(String, Type)>,
    pub return_type: Type,
    pub range: TextRange,
    pub name_range: TextRange,
}

/// `name: type` for one parameter.
pub open spec fn param_text(p: (String, Type)) -> Seq<char> {
    p.0@ + ": "@ + type_spelling(p.1)
}

/// `fn name(a: t, b: u) -> r`.
pub open spec fn signature_text(name: Seq<char>, params: Seq<(String, Type)>, ret: Type) -> Seq<
    char,
> {
    "fn "@ + name + "("@ + join(params.map_values(|p: (String, Type)| param_text(p)), ", "@)
        + ") -> "@ + type_spelling(ret)
}

impl FunctionInfo {
    /// The function's signature as it is written in source.
    pub fn signature(&self) -> (r: String)
        ensures
            r@ == signature_text(self.name@, self.params@, self.return_type),
    {
        let ghost f = |p: (String, Type)| param_text(p);
        let mut params = String::new();
        let mut i: usize = 0;
        while i < self.params.len()
            invariant
                i <= self.params@.len(),
                f == (|p: (String, Type)| param_text(p)),
                params@ == join(self.params@.take(i as int).map_values(f), ", "@),
            decreases self.params@.len() - i,
        {
            if i > 0 {
                push_str(&mut params, ", ");
            }
            let (name, ty) = &self.params[i];
            push_str(&mut params, name.as_str());
            push_str(&mut params, ": ");
            let spelled = ty.as_str();
            push_str(&mut params, spelled.as_str());
            proof {
                let xs = self.params@.take(i + 1).map_values(f);
                assert(xs.drop_last() =~= self.params@.take(i as int).map_values(f));
                assert(xs.last() == param_text(self.params@[i as int]));
                assert(params@ =~= join(xs, ", "@));
            }
            i = i + 1;
        }
        assert(self.params@.take(i as int) =~= self.params@);
        let mut out = string_of("fn ");
        push_str(&mut out, self.name.as_str());
        push_str(&mut out, "(");
        push_str(&mut out, params.as_str());
        push_str(&mut out, ") -> ");
        let ret = self.return_type.as_str();
        push_str(&mut out, ret.as_str());
        assert(out@ =~= signature_text(self.name@, self.params@, self.return_type));
        out
    }
}

/// A local variable of an analysed function.
#[derive(Debug, Clone, PartialEq, Eq)]
pub struct LocalInfo {
    pub function: String,
    pub name: String,
    pub ty: Type,
}

/// What the editor learns from one analysis of a source text.
#[derive(Debug)]
pub struct AnalysisResult {
    pub diagnostics: Vec<Diagnostic>,
    pub program: Option<Program>,
    pub functions: Vec<FunctionInfo>,
    pub locals: Vec<LocalInfo>,
    /// Maps parser spans back to the text the editor displays.
    pub source_map: SourceMap,
}

/// Whether `offset` lies within the function's range, both ends included.
pub open spec fn covers(f: FunctionInfo, offset: int) -> bool {
    f.range.start <= offset <= f.range.end
}

/// The first function whose range covers `offset`.
pub fn function_at_offset<'a>(analysis: &'a AnalysisResult, offset: usize) -> (r: Option<
    &'a FunctionInfo,
>)
    ensures
        ({
            let fs = analysis.functions@;
            match r {
                Some(f) => exists|i: int|
                    0 <= i < fs.len() && *f == fs[i] && covers(fs[i], offset as int) && forall|
                        j: int,
                    |
                        0 <= j < i ==> !covers(#[trigger] fs[j], offset as int),
                None => forall|i: int| 0 <= i < fs.len() ==> !covers(#[trigger] fs[i], offset as int),
            }
        }),
{
    let fs = &analysis.functions;
    let mut i: usize = 0;
    while i < fs.len()
        invariant
            i <= fs@.len(),
            fs@ == analysis.functions@,
            forall|j: int| 0 <= j < i ==> !covers(#[trigger] fs@[j], offset as int),
        decreases fs@.len() - i,
    {
        let f = &fs[i];
        if f.range.start <= offset && offset <= f.range.end {
            return Some(f);
        }
        i = i + 1;
    }
    None
}

/// Characters that make up an identifier-like word.
pub open spec fn is_word_char(c: char) -> bool {
    is_ascii_alnum(c) || c == '_'
}

/// Start of the run of word characters that ends at character index `k`.
pub open spec fn word_start(s: Seq<char>, k: int) -> int
    decreases k,
{
    if 0 < k <= s.len() && is_word_char(s[k - 1]) {
        word_start(s, k - 1)
    } else {
        k
    }
}

/// End of the run of word characters that starts at character index `k`.
pub open spec fn word_end(s: Seq<char>, k: int) -> int
    decreases s.len() - k,
{
    if 0 <= k < s.len() && is_word_char(s[k]) {
        word_end(s, k + 1)
    } else {
        k
    }
}

/// Whether byte offset `offset`, clamped to the end of `s`, falls on a
/// character boundary.
pub open spec fn on_boundary(s: Seq<char>, offset: int) -> bool {
    let o = if offset < byte_len(s) {
        offset
    } else {
        byte_len(s) as int
    };
    exists|k: int| 0 <= k <= s.len() && byte_offset(s, k) == o
}

/// The word (ASCII letters, digits, `_`) around byte offset `offset`, and
/// its byte range.
pub fn word_at_offset(source: &str, offset: usize) -> (r: Option<(String, TextRange)>)
    requires
        byte_len(source@) <= usize::MAX,
        on_boundary(source@, offset as int),
    ensures
        ({
            let s = source@;
            let k = char_index_of(s, offset as int);
            let a = word_start(s, k);
            let b = word_end(s, k);
            if s.len() == 0 || a == b {
                r is None
            } else {
                r matches Some((w, range)) && w@ == s.subrange(a, b) && range.start == byte_offset(
                    s,
                    a,
                ) && range.end == byte_offset(s, b)
            }
        }),
{
    let chars = chars_of(source);
    let ghost s = source@;
    if chars.len() == 0 {
        return None;
    }
    let n = chars.len();
    let ghost o: int = if (offset as int) < byte_len(s) {
        offset as int
    } else {
        byte_len(s) as int
    };
    // find the character index of the (clamped) offset
    let mut k: usize = 0;
    let mut pos: usize = 0;
    proof {
        assert(s.take(0) =~= Seq::<char>::empty());
        assert(byte_offset(s, 0) == 0);
    }
    while k < n && pos < offset
        invariant
            n == s.len(),
            chars@ == s,
            k <= n,
            pos == byte_offset(s, k as int),
            byte_len(s) <= usize::MAX,
            pos <= o,
            on_boundary(s, offset as int),
            o == (if (offset as int) < byte_len(s) {
                offset as int
            } else {
                byte_len(s) as int
            }),
        decreases n - k,
    {
        proof {
            lemma_byte_offset_step(s, k as int);
            lemma_byte_offset_mono(s, k + 1, n as int);
            assert(s.take(s.len() as int) =~= s);
            if (offset as int) < byte_len(s) {
                let j = choose|j: int| 0 <= j <= s.len() && byte_offset(s, j) == o;
                if j <= k {
                    lemma_byte_offset_mono(s, j, k as int);
                } else {
                    lemma_byte_offset_mono(s, k + 1, j);
                }
            }
        }
        pos = pos + width_of(chars[k]);
        k = k + 1;
    }
    proof {
        assert(s.take(s.len() as int) =~= s);
        if k == n {
            let j = choose|j: int| 0 <= j <= s.len() && byte_offset(s, j) == o;
            if j < k {
                lemma_byte_offset_mono(s, j, k as int);
            }
        }
        assert(pos == o);
        let c = char_index_of(s, offset as int);
        if c != k {
            if c < k {
                lemma_byte_offset_mono(s, c, k as int);
            } else {
                lemma_byte_offset_mono(s, k as int, c);
            }
        }
        assert(c == k);
    }
    let mut a = k;
    let mut start_byte = pos;
    while a > 0 && is_word(chars[a - 1])
        invariant
            n == s.len(),
            chars@ == s,
            a <= k <= n,
            start_byte == byte_offset(s, a as int),
            word_start(s, k as int) == word_start(s, a as int),
        decreases a,
    {
        proof {
            lemma_byte_offset_step(s, a - 1);
        }
        a = a - 1;
        start_byte = start_byte - 1;
    }
    let mut b = k;
    let mut end_byte = pos;
    while b < n && is_word(chars[b])
        invariant
            n == s.len(),
            chars@ == s,
            k <= b <= n,
            end_byte == byte_offset(s, b as int),
            byte_offset(s, n as int) <= usize::MAX,
            word_end(s, k as int) == word_end(s, b as int),
        decreases n - b,
    {
        proof {
            lemma_byte_offset_step(s, b as int);
            lemma_byte_offset_mono(s, b + 1, n as int);
        }
        b = b + 1;
        end_byte = end_byte + 1;
    }
    if a == b {
        return None;
    }
    Some((string_from_chars(chars.as_slice(), a, b), TextRange::new(start_byte, end_byte)))
}

fn is_word(c: char) -> (r: bool)
    ensures
        r == is_word_char(c),
{
    alnum(c) || c == '_'
}

/// The names bound by `let` in `stmts`, in order, looking into the bodies
/// of `if`, `while`, `for` and `match`.
pub open spec fn let_names(stmts: Seq<Stmt>) -> Seq<Seq<char>>
    decreases stmts,
{
    if stmts.len() == 0 {
        Seq::empty()
    } else {
        let_names(stmts.drop_last()) + stmt_let_names(stmts.last())
    }
}

/// The names bound by `let` in one statement.
pub open spec fn stmt_let_names(stmt: Stmt) -> Seq<Seq<char>>
    decreases stmt,
{
    match stmt.kind {
        StmtKind::Let { name, .. } => seq![name@],
        StmtKind::If { then_body, else_body, .. } => let_names(then_body@) + let_names(
            else_body@,
        ),
        StmtKind::While { body, .. } => let_names(body@),
        StmtKind::For { body, .. } => let_names(body@),
        StmtKind::Match { arms, else_body, .. } => arm_let_names(arms@) + let_names(else_body@),
        _ => Seq::empty(),
    }
}

/// The names bound by `let` in the bodies of match arms.
pub open spec fn arm_let_names(arms: Seq<MatchArm>) -> Seq<Seq<char>>
    decreases arms,
{
    if arms.len() == 0 {
        Seq::empty()
    } else {
        arm_let_names(arms.drop_last()) + let_names(arms.last().body@)
    }
}

pub open spec fn string_views(names: Seq<String>) -> Seq<Seq<char>> {
    names.map_values(|n: String| n@)
}

/// Appends to `names` every name bound by `let` in `statements`, in order.
pub fn collect_statement_let_names(statements: &[Stmt], names: &mut Vec<String>)
    ensures
        string_views(final(names)@) == string_views(old(names)@) + let_names(statements@),
    decreases statements@,
{
    let mut i: usize = 0;
    while i < statements.len()
        invariant
            i <= statements@.len(),
            string_views(names@) == string_views(old(names)@) + let_names(
                statements@.take(i as int),
            ),
        decreases statements@.len() - i,
    {
        let statement = &statements[i];
        let ghost before = string_views(names@);
        let ghost stmt = statements@[i as int];
        proof {
            assert(statements@.take(i + 1).drop_last() =~= statements@.take(i as int));
            assert(statements@.take(i + 1).last() == statements@[i as int]);
        }
        match &statement.kind {
            StmtKind::Let { name, .. } => {
                names.push(name.clone());
                assert(string_views(names@) =~= before + seq![name@]);
                assert(stmt_let_names(stmt) == seq![name@]);
            },
            StmtKind::If { then_body, else_body, .. } => {
                collect_statement_let_names(then_body.as_slice(), names);
                collect_statement_let_names(else_body.as_slice(), names);
                assert(stmt_let_names(stmt) == let_names(then_body@) + let_names(else_body@));
            },
            StmtKind::While { body, .. } => {
                collect_statement_let_names(body.as_slice(), names);
                assert(stmt_let_names(stmt) == let_names(body@));
            },
            StmtKind::For { body, .. } => {
                collect_statement_let_names(body.as_slice(), names);
                assert(stmt_let_names(stmt) == let_names(body@));
            },
            StmtKind::Match { arms, else_body, .. } => {
                let mut j: usize = 0;
                proof {
                    assert(decreases_to!(statements@ => stmt));
                    assert(decreases_to!(stmt => stmt.kind));
                    assert(decreases_to!(stmt.kind => *arms));
                    assert(decreases_to!(*arms => arms@));
                }
                while j < arms.len()
                    invariant
                        j <= arms@.len(),
                        string_views(names@) == before + arm_let_names(arms@.take(j as int)),
                        decreases_to!(statements@ => arms@),
                    decreases arms@.len() - j,
                {
                    proof {
                        let arm = arms@[j as int];
                        assert(decreases_to!(arms@ => arm));
                        assert(decreases_to!(arm => arm.body));
                        assert(decreases_to!(arm.body => arm.body@));
                    }
                    proof {
                        assert(arms@.take(j + 1).drop_last() =~= arms@.take(j as int));
                        assert(arms@.take(j + 1).last() == arms@[j as int]);
                    }
                    collect_statement_let_names(arms[j].body.as_slice(), names);
                    j = j + 1;
                }
                assert(arms@.take(j as int) =~= arms@);
                collect_statement_let_names(else_body.as_slice(), names);
                assert(stmt_let_names(stmt) == arm_let_names(arms@) + let_names(else_body@));
            },
            _ => {
                assert(stmt_let_names(stmt) == Seq::<Seq<char>>::empty());
            },
        }
        assert(string_views(names@) =~= string_views(old(names)@) + let_names(
            statements@.take(i + 1),
        ));
        i = i + 1;
    }
    assert(statements@.take(i as int) =~= statements@);
}


proof fn lemma_prefix_bound(a: Seq<u8>, b: Seq<u8>)
    ensures
        common_prefix_len(a, b) <= a.len(),
        common_prefix_len(a, b) <= b.len(),
    decreases a.len(),
{
    if a.len() > 0 && b.len() > 0 && a[0] == b[0] {
        lemma_prefix_bound(a.drop_first(), b.drop_first());
    }
}

proof fn lemma_suffix_bound(a: Seq<u8>, b: Seq<u8>, limit: nat)
    ensures
        common_suffix_len(a, b, limit) <= limit,
    decreases limit,
{
    if !(limit == 0 || a.len() == 0 || b.len() == 0 || a.last() != b.last()) {
        lemma_suffix_bound(a.drop_last(), b.drop_last(), (limit - 1) as nat);
    }
}

/// Within a line, offsets keep their order and stay inside the counterpart.
proof fn lemma_line_offset(f: Seq<u8>, t: Seq<u8>, a: int, b: int)
    requires
        0 <= a <= b <= f.len(),
    ensures
        0 <= line_offset(f, t, a) <= line_offset(f, t, b) <= t.len(),
{
    lemma_prefix_bound(f, t);
    let p = common_prefix_len(f, t) as int;
    lemma_suffix_bound(f, t, min_int(f.len() - p, t.len() - p) as nat);
}

/// `mapped_offset` keeps the order of offsets and lands inside `to`.
proof fn lemma_mapped_offset_mono(from: Seq<u8>, to: Seq<u8>, fb: int, tb: int, a: int, b: int)
    requires
        0 <= fb <= a <= b <= from.len(),
        0 <= tb <= to.len(),
    ensures
        tb <= mapped_offset(from, to, fb, tb, a) <= mapped_offset(from, to, fb, tb, b) <= to.len(),
    decreases from.len() - fb,
{
    if fb < from.len() && tb < to.len() {
        lemma_piece_end_bounds(from, fb);
        lemma_piece_end_bounds(to, tb);
        let fe = piece_end(from, fb);
        let te = piece_end(to, tb);
        let f = from.subrange(fb, fe);
        let t = to.subrange(tb, te);
        if b < fe {
            lemma_line_offset(f, t, a - fb, b - fb);
        } else if a < fe {
            lemma_line_offset(f, t, a - fb, a - fb);
            lemma_mapped_offset_mono(from, to, fe, te, b, b);
        } else {
            lemma_mapped_offset_mono(from, to, fe, te, a, b);
        }
    }
}

/// Number of lines (pieces ending in a newline or at the end) from `start`.
pub open spec fn piece_count(b: Seq<u8>, start: int) -> nat
    decreases b.len() - start,
{
    if start < 0 || start >= b.len() {
        0
    } else {
        proof {
            lemma_piece_end_bounds(b, start);
        }
        1 + piece_count(b, piece_end(b, start))
    }
}

proof fn lemma_mapped_offset_end(from: Seq<u8>, to: Seq<u8>, fb: int, tb: int)
    requires
        0 <= fb <= from.len(),
        0 <= tb <= to.len(),
        piece_count(from, fb) == piece_count(to, tb),
    ensures
        mapped_offset(from, to, fb, tb, from.len() as int) == to.len(),
    decreases from.len() - fb,
{
    if fb < from.len() && tb < to.len() {
        lemma_piece_end_bounds(from, fb);
        lemma_piece_end_bounds(to, tb);
        lemma_mapped_offset_end(from, to, piece_end(from, fb), piece_end(to, tb));
    }
}

/// A byte-offset map between two texts keeps the order of offsets and
/// lands inside the other text; and when both texts have as many lines,
/// the end of one maps to the end of the other.
pub proof fn law_offset_map_is_monotone(from: Seq<u8>, to: Seq<u8>, a: int, b: int)
    requires
        0 <= a <= b <= from.len(),
    ensures
        0 <= offset_map(from, to)[a] <= offset_map(from, to)[b] <= to.len(),
        piece_count(from, 0) == piece_count(to, 0) ==> offset_map(from, to)[from.len() as int]
            == to.len(),
{
    lemma_mapped_offset_mono(from, to, 0, 0, a, b);
    if piece_count(from, 0) == piece_count(to, 0) {
        lemma_mapped_offset_end(from, to, 0, 0);
    }
}


/// `SourceMap::to_original_offset` on a map from `from_sources`: it keeps
/// the order of offsets and stays within the original text; for a text
/// left as it was it is the offset itself, clamped to the end; and when
/// both texts have as many lines, every offset at or past the end of the
/// normalised text maps to the end of the original.
pub proof fn law_original_offsets(original: Seq<char>, normalized: Seq<char>, a: int, b: int)
    requires
        0 <= a <= b,
    ensures
        0 <= mapped_back(backward_map(original, normalized), a) <= mapped_back(
            backward_map(original, normalized),
            b,
        ) <= encode_utf8(original).len(),
        original == normalized ==> mapped_back(backward_map(original, normalized), b) == min_int(
            b,
            encode_utf8(original).len() as int,
        ),
        piece_count(encode_utf8(normalized), 0) == piece_count(encode_utf8(original), 0) && b
            >= encode_utf8(normalized).len() ==> mapped_back(backward_map(original, normalized), b)
            == encode_utf8(original).len(),
{
    let o = encode_utf8(original);
    let n = encode_utf8(normalized);
    if original != normalized {
        let bw = offset_map(n, o);
        assert(bw.len() == n.len() + 1);
        law_offset_map_is_monotone(n, o, min_int(a, n.len() as int), min_int(b, n.len() as int));
    }
}

} // verus!
