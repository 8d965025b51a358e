//! Pattern-based module search in the manner of `package.path`: each pattern
//! names a file, with `?` standing for the module name.
use vstd::prelude::*;
use crate::parse_model::opt_text;
use crate::module_loader::path::{
    base_or_current, first_accepted, first_accepted_outcome, join_chars, join_path, probe_answers, replace_char, replace_chars, string_views,
};
use crate::text::{chars_of, copy_chars, string_from_chars};

verus! {

/// Whether `c` has the Unicode `White_Space` property (what
/// `char::is_whitespace` and `str::trim` go by).
pub open spec fn is_white_space(c: char) -> bool {
    ('\u{9}' <= c <= '\u{d}') || c == ' ' || c == '\u{85}' || c == '\u{a0}' || c == '\u{1680}' || (
    '\u{2000}' <= c <= '\u{200a}') || c == '\u{2028}' || c == '\u{2029}' || c == '\u{202f}' || c
        == '\u{205f}' || c == '\u{3000}'
}

fn white_space(c: char) -> (r: bool)
    ensures
        r == is_white_space(c),
{
    ('\u{9}' <= c && c <= '\u{d}') || c == ' ' || c == '\u{85}' || c == '\u{a0}' || c == '\u{1680}'
        || ('\u{2000}' <= c && c <= '\u{200a}') || c == '\u{2028}' || c == '\u{2029}' || c
        == '\u{202f}' || c == '\u{205f}' || c == '\u{3000}'
}

/// The index of the first character at or after `i` that is not white space
/// (or the length).
pub open spec fn skip_white_from(s: Seq<char>, i: int) -> int
    decreases s.len() - i,
{
    if i >= s.len() || i < 0 {
        s.len() as int
    } else if is_white_space(s[i]) {
        skip_white_from(s, i + 1)
    } else {
        i
    }
}

/// The index just past the last character before `j` that is not white
/// space (or 0).
pub open spec fn skip_white_back(s: Seq<char>, j: int) -> int
    decreases j,
{
    if j <= 0 {
        0
    } else if is_white_space(s[j - 1]) {
        skip_white_back(s, j - 1)
    } else {
        j
    }
}

/// `s` without leading and trailing white space, as `str::trim` gives it.
pub open spec fn trimmed(s: Seq<char>) -> Seq<char> {
    let a = skip_white_from(s, 0);
    let b = skip_white_back(s, s.len() as int);
    if a < b {
        s.subrange(a, b)
    } else {
        Seq::empty()
    }
}

/// The pieces of `s` between the separators `sep`, as `str::split` gives
/// them (an empty `s` is one empty piece).
pub open spec fn split_on(s: Seq<char>, sep: char) -> Seq<Seq<char>>
    decreases s.len(),
{
    if s.len() == 0 {
        seq![Seq::empty()]
    } else if s.last() == sep {
        split_on(s.drop_last(), sep).push(Seq::empty())
    } else {
        let r = split_on(s.drop_last(), sep);
        r.update(r.len() - 1, r.last().push(s.last()))
    }
}

/// The pieces, each trimmed, with the empty ones left out.
pub open spec fn nonempty_trimmed(pieces: Seq<Seq<char>>) -> Seq<Seq<char>>
    decreases pieces.len(),
{
    if pieces.len() == 0 {
        Seq::empty()
    } else {
        let rest = nonempty_trimmed(pieces.drop_last());
        let t = trimmed(pieces.last());
        if t.len() > 0 {
            rest.push(t)
        } else {
            rest
        }
    }
}

/// The patterns a `package.path`-style string names: its `;`-separated
/// pieces, trimmed, without the empty ones.
pub open spec fn parse_patterns(s: Seq<char>) -> Seq<Seq<char>> {
    nonempty_trimmed(split_on(s, ';'))
}

/// The patterns a new searcher starts with.
pub open spec fn default_patterns() -> Seq<Seq<char>> {
    seq![
        "./?.nyk"@,
        "./?/init.nyk"@,
        "./?/mod.nyk"@,
        "./modules/?.nyk"@,
        "./modules/?/init.nyk"@,
        "./packages/?.nyk"@,
        "./packages/?/init.nyk"@,
    ]
}

/// `s` without a leading `./`.
pub open spec fn strip_dot_slash(s: Seq<char>) -> Seq<char> {
    if s.len() >= 2 && s[0] == '.' && s[1] == '/' {
        s.skip(2)
    } else {
        s
    }
}

/// The file a pattern names for a module: `?` replaced by the module name
/// with its dots turned into `/`, a leading `./` dropped, joined to `base`.
pub open spec fn pattern_candidate(pattern: Seq<char>, module_name: Seq<char>, base: Seq<char>) -> Seq<
    char,
> {
    join_path(base, strip_dot_slash(replace_char(pattern, '?', replace_char(module_name, '.', "/"@))))
}

/// The candidate file of each pattern, in order.
pub open spec fn search_candidates(patterns: Seq<Seq<char>>, module_name: Seq<char>, base: Seq<char>) -> Seq<
    Seq<char>,
> {
    patterns.map_values(|p: Seq<char>| pattern_candidate(p, module_name, base))
}

proof fn lemma_split_nonempty(s: Seq<char>, sep: char)
    ensures
        split_on(s, sep).len() >= 1,
    decreases s.len(),
{
    if s.len() > 0 {
        lemma_split_nonempty(s.drop_last(), sep);
    }
}

/// The pieces of `s` between the separators `sep`.
fn split_chars(s: &[char], sep: char) -> (r: Vec<Vec<char>>)
    ensures
        r@.map_values(|v: Vec<char>| v@) == split_on(s@, sep),
{
    let mut done: Vec<Vec<char>> = Vec::new();
    let mut cur: Vec<char> = Vec::new();
    let mut i: usize = 0;
    while i < s.len()
        invariant
            i <= s@.len(),
            done@.map_values(|v: Vec<char>| v@).push(cur@) == split_on(s@.take(i as int), sep),
        decreases s@.len() - i,
    {
        proof {
            lemma_split_nonempty(s@.take(i as int), sep);
            assert(s@.take(i + 1).drop_last() =~= s@.take(i as int));
            assert(s@.take(i + 1).last() == s@[i as int]);
        }
        let ghost before = done@.map_values(|v: Vec<char>| v@);
        if s[i] == sep {
            let piece = cur;
            done.push(piece);
            cur = Vec::new();
            assert(done@.map_values(|v: Vec<char>| v@) =~= before.push(piece@));
            assert(done@.map_values(|v: Vec<char>| v@).push(cur@) =~= split_on(
                s@.take(i as int),
                sep,
            ).push(Seq::empty()));
        } else {
            let ghost old_cur = cur@;
            cur.push(s[i]);
            assert(done@.map_values(|v: Vec<char>| v@).push(cur@) =~= before.push(old_cur).update(
                before.len() as int,
                old_cur.push(s@[i as int]),
            ));
        }
        i = i + 1;
    }
    assert(s@.take(s@.len() as int) =~= s@);
    done.push(cur);
    done
}

/// `s` without leading and trailing white space.
pub fn trim_chars(s: &[char]) -> (r: Vec<char>)
    ensures
        r@ == trimmed(s@),
{
    let mut a: usize = 0;
    while a < s.len() && white_space(s[a])
        invariant
            a <= s@.len(),
            skip_white_from(s@, 0) == skip_white_from(s@, a as int),
        decreases s@.len() - a,
    {
        a = a + 1;
    }
    let mut b: usize = s.len();
    while b > 0 && white_space(s[b - 1])
        invariant
            b <= s@.len(),
            skip_white_back(s@, s@.len() as int) == skip_white_back(s@, b as int),
        decreases b,
    {
        b = b - 1;
    }
    if a < b {
        copy_chars(s, a, b)
    } else {
        Vec::new()
    }
}

/// Where modules are looked for.
#[derive(Clone, Debug, PartialEq, Eq)]
pub struct SearcherEngine {
    patterns: Vec<String>,
}

impl View for SearcherEngine {
    type V = Seq<Seq<char>>;

    /// The patterns, in the order they are tried.
    closed spec fn view(&self) -> Seq<Seq<char>> {
        string_views(self.patterns@)
    }
}

impl Default for SearcherEngine {
    fn default() -> (r: Self)
        ensures
            r@ == default_patterns(),
    {
        Self::new()
    }
}

impl SearcherEngine {
    /// A searcher with the default patterns.
    pub fn new() -> (r: Self)
        ensures
            r@ == default_patterns(),
    {
        let patterns: Vec<String> = vec![
            "./?.nyk".to_owned(),
            "./?/init.nyk".to_owned(),
            "./?/mod.nyk".to_owned(),
            "./modules/?.nyk".to_owned(),
            "./modules/?/init.nyk".to_owned(),
            "./packages/?.nyk".to_owned(),
            "./packages/?/init.nyk".to_owned(),
        ];
        let r = Self { patterns };
        assert(r@ =~= default_patterns());
        r
    }

    /// A searcher with the patterns of a `;`-separated list.
    pub fn with_patterns(patterns_str: &str) -> (r: Self)
        ensures
            r@ == parse_patterns(patterns_str@),
    {
        let cs = chars_of(patterns_str);
        let pieces = split_chars(cs.as_slice(), ';');
        let ghost pv = pieces@.map_values(|v: Vec<char>| v@);
        let mut patterns: Vec<String> = Vec::new();
        let mut i: usize = 0;
        while i < pieces.len()
            invariant
                i <= pieces@.len(),
                pv == pieces@.map_values(|v: Vec<char>| v@),
                string_views(patterns@) == nonempty_trimmed(pv.take(i as int)),
            decreases pieces@.len() - i,
        {
            assert(pv.take(i + 1).drop_last() =~= pv.take(i as int));
            assert(pv.take(i + 1).last() == pieces@[i as int]@);
            let t = trim_chars(pieces[i].as_slice());
            if t.len() > 0 {
                let ghost before = patterns@;
                patterns.push(string_from_chars(t.as_slice()));
                assert(string_views(patterns@) =~= string_views(before).push(t@));
            }
            i = i + 1;
        }
        assert(pv.take(pieces@.len() as int) =~= pv);
        Self { patterns }
    }

    /// Adds a pattern, tried after the others.
    pub fn add_pattern(&mut self, pattern: &str)
        ensures
            final(self)@ == old(self)@.push(pattern@),
    {
        let ghost before = self.patterns@;
        self.patterns.push(pattern.to_owned());
        assert(string_views(self.patterns@) =~= string_views(before).push(pattern@));
    }

    /// The patterns, in the order they are tried.
    pub fn patterns(&self) -> (r: &[String])
        ensures
            string_views(r@) == self@,
    {
        self.patterns.as_slice()
    }

    /// Looks for a module: each pattern names a candidate file (see
    /// `search_candidates`, against `base_dir` or `.`), and `probe`, which
    /// tells whether a file exists, is asked of each in order; the first it
    /// accepts is the result, and every one before it was refused.
    pub fn search<F: Fn(&str) -> bool>(&self, module_name: &str, base_dir: Option<&str>, probe: &F) -> (r:
        Option<String>)
        requires
            forall|s: &str| #[trigger] probe.requires((s,)),
        ensures
            first_accepted_outcome(
                *probe,
                search_candidates(self@, module_name@, base_or_current(base_dir)),
                opt_text(r),
            ),
    {
        let name = chars_of(module_name);
        let slash = chars_of("/");
        let normalized = replace_chars(name.as_slice(), '.', slash.as_slice());
        let base: Vec<char> = match base_dir {
            Some(b) => chars_of(b),
            None => chars_of("."),
        };
        let ghost bv = base_or_current(base_dir);
        assert(base@ == bv);
        let ghost expected = search_candidates(self@, module_name@, bv);
        let mut cands: Vec<String> = Vec::new();
        let mut i: usize = 0;
        while i < self.patterns.len()
            invariant
                i <= self.patterns@.len(),
                normalized@ == replace_char(name@, '.', "/"@),
                name@ == module_name@,
                base@ == bv,
                expected == search_candidates(self@, module_name@, bv),
                cands@.len() == i,
                forall|j: int| 0 <= j < i ==> #[trigger] cands@[j]@ == expected[j],
            decreases self.patterns@.len() - i,
        {
            let pc = chars_of(self.patterns[i].as_str());
            let replaced = replace_chars(pc.as_slice(), '?', normalized.as_slice());
            let stripped = if replaced.len() >= 2 && replaced[0] == '.' && replaced[1] == '/' {
                copy_chars(replaced.as_slice(), 2, replaced.len())
            } else {
                copy_chars(replaced.as_slice(), 0, replaced.len())
            };
            assert(stripped@ =~= strip_dot_slash(replaced@));
            let cand = join_chars(base.as_slice(), stripped.as_slice());
            assert(self@[i as int] == self.patterns@[i as int]@);
            cands.push(string_from_chars(cand.as_slice()));
            i = i + 1;
        }
        match first_accepted(&cands, probe) {
            Some(k) => {
                let found = cands[k].clone();
                assert(found@ == expected[k as int]);
                assert forall|j: int| 0 <= j < k implies probe_answers(*probe, #[trigger] expected[j], false) by {
                    assert(cands@[j]@ == expected[j]);
                }
                Some(found)
            },
            None => {
                assert forall|j: int| 0 <= j < expected.len() implies probe_answers(
                    *probe,
                    #[trigger] expected[j],
                    false,
                ) by {
                    assert(cands@[j]@ == expected[j]);
                }
                None
            },
        }
    }
}

} // verus!
