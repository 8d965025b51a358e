//! Module paths, read as `/`-separated character strings, and the resolution
//! of a `require` request to a file.
use vstd::prelude::*;
use crate::text::{chars_of, copy_chars, push_chars, push_str, string_from_chars};

verus! {

/// `rel` appended to `base` as `std::path::Path::join` does on `/`-separated
/// paths: an absolute `rel` replaces `base`, and a separator goes between them
/// unless `base` is empty or already ends in one.
pub open spec fn join_path(base: Seq<char>, rel: Seq<char>) -> Seq<char> {
    if rel.len() > 0 && rel[0] == '/' {
        rel
    } else if base.len() == 0 {
        rel
    } else if base.last() == '/' {
        base + rel
    } else {
        base + seq!['/'] + rel
    }
}

/// The end of the file name in the first `n` characters of `p`: trailing
/// separators and trailing `.` components are not part of it.
pub open spec fn name_end(p: Seq<char>, n: int) -> int
    decreases n,
{
    if n <= 0 {
        0
    } else if p[n - 1] == '/' {
        name_end(p, n - 1)
    } else if p[n - 1] == '.' && n >= 2 && p[n - 2] == '/' {
        name_end(p, n - 1)
    } else {
        n
    }
}

/// The start of the last component that ends at `e`.
pub open spec fn name_start(p: Seq<char>, e: int) -> int
    decreases e,
{
    if e <= 0 {
        0
    } else if p[e - 1] == '/' {
        e
    } else {
        name_start(p, e - 1)
    }
}

/// The index of the last `.` in `p[s + 1 .. i]`, or -1: the dot that starts
/// the extension of a file name that begins at `s` (a leading dot does not).
pub open spec fn ext_dot(p: Seq<char>, s: int, i: int) -> int
    decreases i - s,
{
    if i <= s + 1 {
        -1
    } else if p[i - 1] == '.' {
        i - 1
    } else {
        ext_dot(p, s, i - 1)
    }
}

/// Whether `p[s..e]` is `.` or `..`, which name no file.
pub open spec fn is_dot_name(p: Seq<char>, s: int, e: int) -> bool {
    (e - s == 1 && p[s] == '.') || (e - s == 2 && p[s] == '.' && p[s + 1] == '.')
}

/// `p` with the extension of its file name set to `ext`, as
/// `std::path::Path::with_extension` gives it on `/`-separated paths: a path
/// without a file name is left as it is; otherwise everything after the file
/// stem is replaced by `.` and `ext`.
pub open spec fn with_extension(p: Seq<char>, ext: Seq<char>) -> Seq<char> {
    let e = name_end(p, p.len() as int);
    let s = name_start(p, e);
    if e == 0 || is_dot_name(p, s, e) {
        p
    } else {
        let d = ext_dot(p, s, e);
        let stem_end = if d >= 0 {
            d
        } else {
            e
        };
        p.take(stem_end) + seq!['.'] + ext
    }
}

/// Whether `p` ends with `suffix`.
pub open spec fn ends_with(p: Seq<char>, suffix: Seq<char>) -> bool {
    suffix.len() <= p.len() && p.skip(p.len() - suffix.len()) == suffix
}

proof fn lemma_ext_dot_bounds(p: Seq<char>, s: int, i: int)
    requires
        0 <= s <= i <= p.len(),
    ensures
        ext_dot(p, s, i) == -1 || s < ext_dot(p, s, i) < i,
    decreases i - s,
{
    if i > s + 1 {
        lemma_ext_dot_bounds(p, s, i - 1);
    }
}

/// `rel` appended to `base` (see `join_path`).
pub fn join_chars(base: &[char], rel: &[char]) -> (r: Vec<char>)
    ensures
        r@ == join_path(base@, rel@),
{
    let mut out: Vec<char> = Vec::new();
    if rel.len() > 0 && rel[0] == '/' {
        push_chars(&mut out, rel);
        return out;
    }
    push_chars(&mut out, base);
    if base.len() > 0 && base[base.len() - 1] != '/' {
        out.push('/');
    }
    push_chars(&mut out, rel);
    proof {
        if base@.len() > 0 {
            assert(base@.last() == base@[base@.len() - 1]);
        }
        assert(Seq::<char>::empty() + base@ =~= base@);
    }
    assert(out@ =~= join_path(base@, rel@));
    out
}

/// `p` with its extension set to `ext` (see `with_extension`).
pub fn set_extension(p: &[char], ext: &str) -> (r: Vec<char>)
    ensures
        r@ == with_extension(p@, ext@),
{
    let mut e: usize = p.len();
    while e > 0 && (p[e - 1] == '/' || (p[e - 1] == '.' && e >= 2 && p[e - 2] == '/'))
        invariant
            e <= p@.len(),
            name_end(p@, p@.len() as int) == name_end(p@, e as int),
        decreases e,
    {
        e = e - 1;
    }
    assert(name_end(p@, p@.len() as int) == e);
    let mut s: usize = e;
    while s > 0 && p[s - 1] != '/'
        invariant
            s <= e <= p@.len(),
            name_start(p@, e as int) == name_start(p@, s as int),
        decreases s,
    {
        s = s - 1;
    }
    assert(name_start(p@, e as int) == s);
    if e == 0 || (e - s == 1 && p[s] == '.') || (e - s == 2 && p[s] == '.' && p[s + 1] == '.') {
        let mut same: Vec<char> = Vec::new();
        push_chars(&mut same, p);
        assert(same@ =~= p@);
        return same;
    }
    let mut i: usize = e;
    while i > s + 1 && p[i - 1] != '.'
        invariant
            s < e <= p@.len(),
            s <= i <= e,
            ext_dot(p@, s as int, e as int) == ext_dot(p@, s as int, i as int),
        decreases i,
    {
        i = i - 1;
    }
    let stem_end: usize = if i > s + 1 {
        i - 1
    } else {
        e
    };
    proof {
        let d = ext_dot(p@, s as int, e as int);
        lemma_ext_dot_bounds(p@, s as int, e as int);
        assert(stem_end == if d >= 0 { d } else { e as int });
    }
    let mut out: Vec<char> = Vec::new();
    let mut k: usize = 0;
    while k < stem_end
        invariant
            stem_end <= p@.len(),
            k <= stem_end,
            out@ == p@.take(k as int),
        decreases stem_end - k,
    {
        out.push(p[k]);
        assert(p@.take(k + 1) =~= p@.take(k as int).push(p@[k as int]));
        k = k + 1;
    }
    out.push('.');
    push_str(&mut out, ext);
    out
}

/// Whether `p` ends with the characters of `suffix`.
pub fn ends_with_str(p: &[char], suffix: &str) -> (r: bool)
    ensures
        r == ends_with(p@, suffix@),
{
    let sfx = chars_of(suffix);
    if sfx.len() > p.len() {
        return false;
    }
    let off = p.len() - sfx.len();
    let mut i: usize = 0;
    while i < sfx.len()
        invariant
            off + sfx@.len() == p@.len(),
            sfx@ == suffix@,
            p@.len() <= usize::MAX,
            i <= sfx@.len(),
            forall|k: int| 0 <= k < i ==> p@[off + k] == sfx@[k],
        decreases sfx@.len() - i,
    {
        if p[off + i] != sfx[i] {
            assert(p@.skip(off as int)[i as int] != sfx@[i as int]);
            return false;
        }
        i = i + 1;
    }
    assert(p@.skip(off as int) =~= sfx@);
    true
}

/// Whether `probe`, called on a string that holds `c`, can answer `answer`.
pub open spec fn probe_answers<F: Fn(&str) -> bool>(probe: F, c: Seq<char>, answer: bool) -> bool {
    exists|s: &str| s@ == c && #[trigger] probe.ensures((s,), answer)
}

/// Whether `r` is what trying `cands` in turn with `probe` gives: the first
/// candidate it accepts, every earlier one refused, or `None` when it
/// refuses them all.
pub open spec fn first_accepted_outcome<F: Fn(&str) -> bool>(probe: F, cands: Seq<Seq<char>>, r: Option<Seq<char>>) -> bool {
    match r {
        Some(p) => exists|i: int|
            0 <= i < cands.len() && p == cands[i] && probe_answers(probe, cands[i], true) && forall|j: int|
                0 <= j < i ==> probe_answers(probe, #[trigger] cands[j], false),
        None => forall|j: int| 0 <= j < cands.len() ==> probe_answers(probe, #[trigger] cands[j], false),
    }
}

/// Whether a probe never both accepts and refuses the same path.
pub open spec fn probe_decides<F: Fn(&str) -> bool>(probe: F) -> bool {
    forall|c: Seq<char>| !(#[trigger] probe_answers(probe, c, true) && probe_answers(probe, c, false))
}

/// With a probe that gives one answer per path, trying candidates in turn
/// has one outcome.
pub proof fn lemma_first_accepted_unique<F: Fn(&str) -> bool>(
    probe: F,
    cands: Seq<Seq<char>>,
    a: Option<Seq<char>>,
    b: Option<Seq<char>>,
)
    requires
        probe_decides(probe),
        first_accepted_outcome(probe, cands, a),
        first_accepted_outcome(probe, cands, b),
    ensures
        a == b,
{
    match (a, b) {
        (Some(p), Some(q)) => {
            let i = choose|i: int|
                0 <= i < cands.len() && p == cands[i] && probe_answers(probe, cands[i], true) && forall|j: int|
                    0 <= j < i ==> probe_answers(probe, #[trigger] cands[j], false);
            let k = choose|k: int|
                0 <= k < cands.len() && q == cands[k] && probe_answers(probe, cands[k], true) && forall|j: int|
                    0 <= j < k ==> probe_answers(probe, #[trigger] cands[j], false);
            if i < k {
                assert(probe_answers(probe, cands[i], false));
                assert(!(probe_answers(probe, cands[i], true) && probe_answers(probe, cands[i], false)));
            } else if k < i {
                assert(probe_answers(probe, cands[k], false));
                assert(!(probe_answers(probe, cands[k], true) && probe_answers(probe, cands[k], false)));
            }
        },
        (Some(p), None) => {
            let i = choose|i: int|
                0 <= i < cands.len() && p == cands[i] && probe_answers(probe, cands[i], true) && forall|j: int|
                    0 <= j < i ==> probe_answers(probe, #[trigger] cands[j], false);
            assert(probe_answers(probe, cands[i], false));
            assert(!(probe_answers(probe, cands[i], true) && probe_answers(probe, cands[i], false)));
        },
        (None, Some(q)) => {
            let k = choose|k: int|
                0 <= k < cands.len() && q == cands[k] && probe_answers(probe, cands[k], true) && forall|j: int|
                    0 <= j < k ==> probe_answers(probe, #[trigger] cands[j], false);
            assert(probe_answers(probe, cands[k], false));
            assert(!(probe_answers(probe, cands[k], true) && probe_answers(probe, cands[k], false)));
        },
        (None, None) => {},
    }
}

/// What resolving `requested` directly against `base` may give (see
/// `PathEngine::resolve_candidate`): the null-byte error for a path holding
/// NUL; otherwise the first resolution candidate the probe accepts, or
/// "file not found" for `requested` when it accepts none.
pub open spec fn direct_outcome<F: Fn(&str) -> bool>(
    probe: F,
    requested: Seq<char>,
    base: Seq<char>,
    r: Result<Seq<char>, PathResolutionError>,
) -> bool {
    if requested.contains('\0') {
        r == Err::<Seq<char>, PathResolutionError>(PathResolutionError::NullByteDetected)
    } else {
        let cands = resolution_candidates(requested, base);
        match r {
            Ok(path) => first_accepted_outcome(probe, cands, Some(path)),
            Err(e) => (e matches PathResolutionError::FileNotFound(p) && p@ == requested)
                && first_accepted_outcome(probe, cands, None),
        }
    }
}

/// A direct resolution's result by the texts of its path.
pub open spec fn direct_view(r: Result<String, PathResolutionError>) -> Result<Seq<char>, PathResolutionError> {
    match r {
        Ok(p) => Ok(p@),
        Err(e) => Err(e),
    }
}

/// Calls `probe` on each candidate in turn and gives the index of the first
/// one it accepts; every candidate before it was refused.
pub fn first_accepted<F: Fn(&str) -> bool>(cands: &Vec<String>, probe: &F) -> (r: Option<usize>)
    requires
        forall|s: &str| #[trigger] probe.requires((s,)),
    ensures
        match r {
            Some(i) => {
                &&& i < cands@.len()
                &&& probe_answers(*probe, cands@[i as int]@, true)
                &&& forall|j: int| 0 <= j < i ==> probe_answers(*probe, #[trigger] cands@[j]@, false)
            },
            None => forall|j: int|
                0 <= j < cands@.len() ==> probe_answers(*probe, #[trigger] cands@[j]@, false),
        },
{
    let mut i: usize = 0;
    while i < cands.len()
        invariant
            i <= cands@.len(),
            forall|s: &str| #[trigger] probe.requires((s,)),
            forall|j: int| 0 <= j < i ==> probe_answers(*probe, #[trigger] cands@[j]@, false),
        decreases cands@.len() - i,
    {
        let c: &str = cands[i].as_str();
        let ok = probe(c);
        assert(c@ == cands@[i as int]@);
        if ok {
            assert(probe.ensures((c,), true));
            return Some(i);
        }
        assert(probe.ensures((c,), false));
        assert(probe_answers(*probe, cands@[i as int]@, false));
        i = i + 1;
    }
    None
}

/// Why a module request could not be resolved.
#[derive(Clone, Debug, PartialEq, Eq)]
pub enum PathResolutionError {
    NullByteDetected,
    PathTraversalForbidden(String),
    FileNotFound(String),
    SecurityViolation(String),
}

/// The text of each resolution error.
pub open spec fn resolution_error_text(e: PathResolutionError) -> Seq<char> {
    match e {
        PathResolutionError::NullByteDetected => "security error: null byte in module path"@,
        PathResolutionError::PathTraversalForbidden(p) => "security error: path traversal forbidden in require: '"@
            + p@ + "'"@,
        PathResolutionError::FileNotFound(p) => "module not found: '"@ + p@ + "'"@,
        PathResolutionError::SecurityViolation(m) => "security violation: "@ + m@,
    }
}

impl PathResolutionError {
    /// The error as a message.
    pub fn message(&self) -> (r: String)
        ensures
            r@ == resolution_error_text(*self),
    {
        let mut out: Vec<char> = Vec::new();
        match self {
            PathResolutionError::NullByteDetected => {
                push_str(&mut out, "security error: null byte in module path");
            },
            PathResolutionError::PathTraversalForbidden(p) => {
                push_str(&mut out, "security error: path traversal forbidden in require: '");
                push_str(&mut out, p.as_str());
                push_str(&mut out, "'");
            },
            PathResolutionError::FileNotFound(p) => {
                push_str(&mut out, "module not found: '");
                push_str(&mut out, p.as_str());
                push_str(&mut out, "'");
            },
            PathResolutionError::SecurityViolation(m) => {
                push_str(&mut out, "security violation: ");
                push_str(&mut out, m.as_str());
            },
        }
        assert(out@ =~= resolution_error_text(*self));
        string_from_chars(out.as_slice())
    }
}

/// `s` with every `from` replaced by `to`.
pub open spec fn replace_char(s: Seq<char>, from: char, to: Seq<char>) -> Seq<char>
    decreases s.len(),
{
    if s.len() == 0 {
        Seq::empty()
    } else {
        replace_char(s.drop_last(), from, to) + if s.last() == from {
            to
        } else {
            seq![s.last()]
        }
    }
}

/// The characters of `s` with every `from` replaced by the characters `to`.
pub fn replace_chars(s: &[char], from: char, to: &[char]) -> (r: Vec<char>)
    ensures
        r@ == replace_char(s@, from, to@),
{
    let mut out: Vec<char> = Vec::new();
    let mut i: usize = 0;
    while i < s.len()
        invariant
            i <= s@.len(),
            out@ == replace_char(s@.take(i as int), from, to@),
        decreases s@.len() - i,
    {
        assert(s@.take(i + 1).drop_last() =~= s@.take(i as int));
        assert(s@.take(i + 1).last() == s@[i as int]);
        if s[i] == from {
            push_chars(&mut out, to);
        } else {
            out.push(s[i]);
            assert(out@ =~= replace_char(s@.take(i as int), from, to@) + seq![s@[i as int]]);
        }
        i = i + 1;
    }
    assert(s@.take(s@.len() as int) =~= s@);
    out
}

/// The string views of a list of strings.
pub open spec fn string_views(v: Seq<String>) -> Seq<Seq<char>> {
    v.map_values(|x: String| x@)
}

/// The directory a request is resolved against: the one given, or `.`.
pub open spec fn base_or_current(base_dir: Option<&str>) -> Seq<char> {
    match base_dir {
        Some(b) => b@,
        None => "."@,
    }
}

/// The files probed for a request, in order: the path itself when it names
/// a `.nyk` or `.nykb` file, else that path with each of the two extensions,
/// then `init.nyk`, `mod.nyk` and `index.nyk` inside it.
pub open spec fn resolution_candidates(requested: Seq<char>, base: Seq<char>) -> Seq<Seq<char>> {
    let initial = join_path(base, requested);
    if ends_with(requested, ".nyk"@) || ends_with(requested, ".nykb"@) {
        seq![initial]
    } else {
        seq![
            with_extension(initial, "nyk"@),
            with_extension(initial, "nykb"@),
            join_path(initial, "init.nyk"@),
            join_path(initial, "mod.nyk"@),
            join_path(initial, "index.nyk"@),
        ]
    }
}

/// Whether the canonical path `target` lies inside the canonical directory
/// `root`: `root`, without trailing separators, is a prefix of `target` that
/// ends at a separator or at the end (on canonical paths this is the
/// component-wise prefix test of `Path::starts_with`).
pub open spec fn within_root(target: Seq<char>, root: Seq<char>) -> bool {
    let q = root.take(name_end(root, root.len() as int));
    if q.len() == 0 {
        root.len() > 0 ==> (target.len() > 0 && target[0] == '/')
    } else {
        q.len() <= target.len() && target.take(q.len() as int) == q && (target.len() == q.len()
            || target[q.len() as int] == '/')
    }
}

/// Whether `s` holds the character `c`.
fn contains_char(s: &str, c: char) -> (r: bool)
    ensures
        r == s@.contains(c),
{
    let cs = chars_of(s);
    let mut i: usize = 0;
    while i < cs.len()
        invariant
            cs@ == s@,
            i <= cs@.len(),
            forall|k: int| 0 <= k < i ==> cs@[k] != c,
        decreases cs@.len() - i,
    {
        if cs[i] == c {
            assert(s@[i as int] == c);
            return true;
        }
        i = i + 1;
    }
    false
}

/// Resolution of requests to files.
pub struct PathEngine;

impl PathEngine {
    /// Resolves a request against `base_dir` (or `.`): a request holding a
    /// NUL character is refused; otherwise the candidates of
    /// `resolution_candidates` are handed to `probe` (which tells whether a
    /// file exists) in order, and the first it accepts is the result.
    pub fn resolve_candidate<F: Fn(&str) -> bool>(requested: &str, base_dir: Option<&str>, probe: &F) -> (r:
        Result<String, PathResolutionError>)
        requires
            forall|s: &str| #[trigger] probe.requires((s,)),
        ensures
            direct_outcome(*probe, requested@, base_or_current(base_dir), direct_view(r)),
    {
        if contains_char(requested, '\0') {
            return Err(PathResolutionError::NullByteDetected);
        }
        let base: Vec<char> = match base_dir {
            Some(b) => chars_of(b),
            None => chars_of("."),
        };
        let req = chars_of(requested);
        let initial = join_chars(base.as_slice(), req.as_slice());
        let mut cands: Vec<String> = Vec::new();
        if ends_with_str(req.as_slice(), ".nyk") || ends_with_str(req.as_slice(), ".nykb") {
            cands.push(string_from_chars(initial.as_slice()));
        } else {
            let a = set_extension(initial.as_slice(), "nyk");
            let b = set_extension(initial.as_slice(), "nykb");
            let init_name = chars_of("init.nyk");
            let mod_name = chars_of("mod.nyk");
            let index_name = chars_of("index.nyk");
            let c = join_chars(initial.as_slice(), init_name.as_slice());
            let d = join_chars(initial.as_slice(), mod_name.as_slice());
            let e = join_chars(initial.as_slice(), index_name.as_slice());
            cands.push(string_from_chars(a.as_slice()));
            cands.push(string_from_chars(b.as_slice()));
            cands.push(string_from_chars(c.as_slice()));
            cands.push(string_from_chars(d.as_slice()));
            cands.push(string_from_chars(e.as_slice()));
        }
        let ghost expected = resolution_candidates(requested@, base_or_current(base_dir));
        assert(string_views(cands@) =~= expected);
        assert forall|j: int| 0 <= j < cands@.len() implies #[trigger] cands@[j]@ == expected[j] by {
            assert(string_views(cands@)[j] == cands@[j]@);
        }
        match first_accepted(&cands, probe) {
            Some(i) => {
                let found = cands[i].clone();
                assert(found@ == expected[i as int]);
                Ok(found)
            },
            None => Err(PathResolutionError::FileNotFound(requested.to_owned())),
        }
    }

    /// Checks that a resolved module stays inside the permitted root, given
    /// the canonical forms of both (or the reason each could not be had):
    /// a root or target that could not be made canonical is a security
    /// violation with that reason, and a target outside the root is refused
    /// naming `resolved_path`.
    pub fn verify_sandbox(
        resolved_path: &str,
        canonical_target: Result<String, String>,
        canonical_root: Result<String, String>,
    ) -> (r: Result<(), PathResolutionError>)
        ensures
            match canonical_root {
                Err(m) => r matches Err(PathResolutionError::SecurityViolation(v)) && v@ == m@,
                Ok(root) => match canonical_target {
                    Err(m) => r matches Err(PathResolutionError::SecurityViolation(v)) && v@ == m@,
                    Ok(target) => if within_root(target@, root@) {
                        r is Ok
                    } else {
                        r matches Err(PathResolutionError::PathTraversalForbidden(p)) && p@ == resolved_path@
                    },
                },
            },
    {
        let root = match canonical_root {
            Err(m) => {
                return Err(PathResolutionError::SecurityViolation(m));
            },
            Ok(root) => root,
        };
        let target = match canonical_target {
            Err(m) => {
                return Err(PathResolutionError::SecurityViolation(m));
            },
            Ok(target) => target,
        };
        let rc = chars_of(root.as_str());
        let tc = chars_of(target.as_str());
        let mut e: usize = rc.len();
        while e > 0 && (rc[e - 1] == '/' || (rc[e - 1] == '.' && e >= 2 && rc[e - 2] == '/'))
            invariant
                e <= rc@.len(),
                name_end(rc@, rc@.len() as int) == name_end(rc@, e as int),
            decreases e,
        {
            e = e - 1;
        }
        let q = copy_chars(rc.as_slice(), 0, e);
        assert(q@ =~= rc@.take(name_end(rc@, rc@.len() as int)));
        let inside = if q.len() == 0 {
            rc.len() == 0 || (tc.len() > 0 && tc[0] == '/')
        } else if q.len() > tc.len() {
            false
        } else {
            let mut i: usize = 0;
            let mut same = true;
            while i < q.len()
                invariant
                    q@.len() <= tc@.len(),
                    i <= q@.len(),
                    same == (forall|k: int| 0 <= k < i ==> tc@[k] == q@[k]),
                decreases q@.len() - i,
            {
                if tc[i] != q[i] {
                    same = false;
                }
                i = i + 1;
            }
            assert(same == (tc@.take(q@.len() as int) =~= q@));
            same && (tc.len() == q.len() || tc[q.len()] == '/')
        };
        assert(inside == within_root(target@, root@));
        if inside {
            Ok(())
        } else {
            Err(PathResolutionError::PathTraversalForbidden(resolved_path.to_owned()))
        }
    }
}

} // verus!
