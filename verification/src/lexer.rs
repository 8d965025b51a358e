//! Tokenization of Neyuki source text.
//!
//! The tokenizer walks the source one character at a time and produces
//! keywords, names, numbers, strings (quoted, long-bracket and backtick
//! interpolation strings), symbols and a final end-of-file marker. Every token
//! remembers the 1-based line and column at which it starts.
use vstd::prelude::*;

use crate::text::{chars_eq_str, chars_of, copy_chars, starts_with_at, string_from_chars};

verus! {

/// The lexical class of a token.
#[derive(Clone, Copy, Debug, PartialEq, Eq, Structural)]
pub enum TokKind {
    Keyword,
    Name,
    Number,
    Str,
    Interp,
    Symbol,
    Eof,
}

/// A token as the parser consumes it: its class, its text as characters,
/// where it starts (line, column and character offset).
#[derive(Debug)]
pub struct Tok {
    pub kind: TokKind,
    pub value: Vec<char>,
    pub line: usize,
    pub col: usize,
    pub start: usize,
}

/// A token as handed to users of the lexer.
#[derive(Clone, Debug, PartialEq, Eq)]
pub struct Token {
    pub kind: &'static str,
    pub value: String,
    pub line: usize,
    pub col: usize,
}

/// A documentation comment (`--- text`) and the line it stands on.
#[derive(Clone, Debug, PartialEq, Eq)]
pub struct DocComment {
    pub line: usize,
    pub text: String,
}

/// The lexer for one source text.
pub struct Lexer {
    src: String,
}

// ---------------------------------------------------------------------------
// Positions
// ---------------------------------------------------------------------------

/// The 1-based line on which the character at offset `i` stands.
pub open spec fn line_of(src: Seq<char>, i: int) -> int
    decreases i,
{
    if i <= 0 {
        1
    } else {
        line_of(src, i - 1) + if src[i - 1] == '\n' {
            1int
        } else {
            0int
        }
    }
}

/// The 1-based column at which the character at offset `i` stands.
pub open spec fn col_of(src: Seq<char>, i: int) -> int
    decreases i,
{
    if i <= 0 {
        1
    } else if src[i - 1] == '\n' {
        1
    } else {
        col_of(src, i - 1) + 1
    }
}

proof fn lemma_line_col_bounds(src: Seq<char>, i: int)
    requires
        0 <= i,
    ensures
        1 <= line_of(src, i) <= i + 1,
        1 <= col_of(src, i) <= i + 1,
    decreases i,
{
    if i > 0 {
        lemma_line_col_bounds(src, i - 1);
    }
}

/// A read position in a source text together with its line and column.
pub struct Cursor {
    pub pos: usize,
    pub line: usize,
    pub col: usize,
}

pub open spec fn cursor_ok(src: Seq<char>, c: Cursor) -> bool {
    &&& c.pos <= src.len()
    &&& c.line == line_of(src, c.pos as int)
    &&& c.col == col_of(src, c.pos as int)
}

/// Moves the cursor forward to offset `end`, keeping line and column.
fn advance(src: &Vec<char>, cur: &mut Cursor, end: usize)
    requires
        cursor_ok(src@, *old(cur)),
        old(cur).pos <= end <= src@.len(),
        src@.len() < usize::MAX,
    ensures
        cursor_ok(src@, *final(cur)),
        final(cur).pos == end,
{
    while cur.pos < end
        invariant
            cursor_ok(src@, *cur),
            cur.pos <= end <= src@.len(),
            src@.len() < usize::MAX,
        decreases end - cur.pos,
    {
        proof {
            lemma_line_col_bounds(src@, cur.pos as int);
        }
        if src[cur.pos] == '\n' {
            cur.line = cur.line + 1;
            cur.col = 1;
        } else {
            cur.col = cur.col + 1;
        }
        cur.pos = cur.pos + 1;
    }
}

// ---------------------------------------------------------------------------
// Character classes and reserved words
// ---------------------------------------------------------------------------

pub open spec fn is_digit(c: char) -> bool {
    '0' <= c <= '9'
}

pub open spec fn is_hex_digit(c: char) -> bool {
    is_digit(c) || ('a' <= c <= 'f') || ('A' <= c <= 'F')
}

pub open spec fn is_ident_start(c: char) -> bool {
    ('a' <= c <= 'z') || ('A' <= c <= 'Z') || c == '_' || (c as u32) > 127
}

pub open spec fn is_ident_char(c: char) -> bool {
    is_ident_start(c) || is_digit(c)
}

pub open spec fn is_space(c: char) -> bool {
    c == ' ' || c == '\t' || c == '\r' || c == '\n'
}

pub(crate) fn digit(c: char) -> (r: bool)
    ensures
        r == is_digit(c),
{
    '0' <= c && c <= '9'
}

pub(crate) fn hex_digit(c: char) -> (r: bool)
    ensures
        r == is_hex_digit(c),
{
    digit(c) || ('a' <= c && c <= 'f') || ('A' <= c && c <= 'F')
}

fn ident_start(c: char) -> (r: bool)
    ensures
        r == is_ident_start(c),
{
    ('a' <= c && c <= 'z') || ('A' <= c && c <= 'Z') || c == '_' || (c as u32) > 127
}

fn ident_char(c: char) -> (r: bool)
    ensures
        r == is_ident_char(c),
{
    ident_start(c) || digit(c)
}

fn space(c: char) -> (r: bool)
    ensures
        r == is_space(c),
{
    c == ' ' || c == '\t' || c == '\r' || c == '\n'
}

/// The reserved words of the language.
pub open spec fn is_keyword_chars(w: Seq<char>) -> bool {
    ||| w == "and"@
    ||| w == "break"@
    ||| w == "const"@
    ||| w == "continue"@
    ||| w == "do"@
    ||| w == "else"@
    ||| w == "elseif"@
    ||| w == "end"@
    ||| w == "false"@
    ||| w == "for"@
    ||| w == "function"@
    ||| w == "global"@
    ||| w == "if"@
    ||| w == "in"@
    ||| w == "local"@
    ||| w == "nil"@
    ||| w == "not"@
    ||| w == "or"@
    ||| w == "repeat"@
    ||| w == "return"@
    ||| w == "then"@
    ||| w == "true"@
    ||| w == "until"@
    ||| w == "while"@
}

/// Whether the characters `w` spell a reserved word.
pub fn keyword_chars(w: &[char]) -> (r: bool)
    ensures
        r == is_keyword_chars(w@),
{
    chars_eq_str(w, "and") || chars_eq_str(w, "break") || chars_eq_str(w, "const")
        || chars_eq_str(w, "continue") || chars_eq_str(w, "do") || chars_eq_str(w, "else")
        || chars_eq_str(w, "elseif") || chars_eq_str(w, "end") || chars_eq_str(w, "false")
        || chars_eq_str(w, "for") || chars_eq_str(w, "function") || chars_eq_str(w, "global")
        || chars_eq_str(w, "if") || chars_eq_str(w, "in") || chars_eq_str(w, "local")
        || chars_eq_str(w, "nil") || chars_eq_str(w, "not") || chars_eq_str(w, "or")
        || chars_eq_str(w, "repeat") || chars_eq_str(w, "return") || chars_eq_str(w, "then")
        || chars_eq_str(w, "true") || chars_eq_str(w, "until") || chars_eq_str(w, "while")
}

/// Whether `word` is a reserved word of the language.
pub fn is_keyword(word: &str) -> (r: bool)
    ensures
        r == is_keyword_chars(word@),
{
    let w = chars_of(word);
    keyword_chars(w.as_slice())
}

/// The three-character operators.
pub open spec fn is_symbol3(s: Seq<char>) -> bool {
    s == "..."@ || s == "..="@ || s == "//="@ || s == "<<="@ || s == ">>="@ || s == "??="@
}

/// The two-character operators.
pub open spec fn is_symbol2(s: Seq<char>) -> bool {
    ||| s == "=="@
    ||| s == "!="@
    ||| s == "<="@
    ||| s == ">="@
    ||| s == "<<"@
    ||| s == ">>"@
    ||| s == "//"@
    ||| s == ".."@
    ||| s == "++"@
    ||| s == "--"@
    ||| s == "+="@
    ||| s == "-="@
    ||| s == "*="@
    ||| s == "/="@
    ||| s == "%="@
    ||| s == "^="@
    ||| s == "&="@
    ||| s == "|="@
    ||| s == "??"@
    ||| s == "::"@
}

fn lit_at(src: &Vec<char>, pos: usize, lit: &str) -> (r: bool)
    requires
        pos <= src@.len(),
    ensures
        r == (pos + lit@.len() <= src@.len() && src@.subrange(pos as int, pos + lit@.len())
            == lit@),
{
    let l = chars_of(lit);
    starts_with_at(src.as_slice(), pos, l.as_slice())
}

/// The length of the operator that starts at `pos`: the longest listed one,
/// or a single character.
fn symbol_len(src: &Vec<char>, pos: usize) -> (n: usize)
    requires
        pos < src@.len(),
    ensures
        1 <= n <= 3,
        pos + n <= src@.len(),
        n == 3 <==> pos + 3 <= src@.len() && is_symbol3(src@.subrange(pos as int, pos + 3)),
        n == 2 <==> !(pos + 3 <= src@.len() && is_symbol3(src@.subrange(pos as int, pos + 3))) && pos + 2
            <= src@.len() && is_symbol2(src@.subrange(pos as int, pos + 2)),
{
    proof {
        reveal_strlit("...");
        reveal_strlit("..=");
        reveal_strlit("//=");
        reveal_strlit("<<=");
        reveal_strlit(">>=");
        reveal_strlit("??=");
        reveal_strlit("==");
        reveal_strlit("!=");
        reveal_strlit("<=");
        reveal_strlit(">=");
        reveal_strlit("<<");
        reveal_strlit(">>");
        reveal_strlit("//");
        reveal_strlit("..");
        reveal_strlit("++");
        reveal_strlit("--");
        reveal_strlit("+=");
        reveal_strlit("-=");
        reveal_strlit("*=");
        reveal_strlit("/=");
        reveal_strlit("%=");
        reveal_strlit("^=");
        reveal_strlit("&=");
        reveal_strlit("|=");
        reveal_strlit("??");
        reveal_strlit("::");
    }
    if lit_at(src, pos, "...") || lit_at(src, pos, "..=") || lit_at(src, pos, "//=") || lit_at(
        src,
        pos,
        "<<=",
    ) || lit_at(src, pos, ">>=") || lit_at(src, pos, "??=") {
        return 3;
    }
    if lit_at(src, pos, "==") || lit_at(src, pos, "!=") || lit_at(src, pos, "<=") || lit_at(
        src,
        pos,
        ">=",
    ) || lit_at(src, pos, "<<") || lit_at(src, pos, ">>") || lit_at(src, pos, "//") || lit_at(
        src,
        pos,
        "..",
    ) || lit_at(src, pos, "++") || lit_at(src, pos, "--") || lit_at(src, pos, "+=") || lit_at(
        src,
        pos,
        "-=",
    ) || lit_at(src, pos, "*=") || lit_at(src, pos, "/=") || lit_at(src, pos, "%=") || lit_at(
        src,
        pos,
        "^=",
    ) || lit_at(src, pos, "&=") || lit_at(src, pos, "|=") || lit_at(src, pos, "??") || lit_at(
        src,
        pos,
        "::",
    ) {
        return 2;
    }
    1
}

// ---------------------------------------------------------------------------
// Token well-formedness
// ---------------------------------------------------------------------------

/// Kinds whose value is the exact source text of the token.
pub open spec fn is_lexeme_kind(k: TokKind) -> bool {
    k == TokKind::Keyword || k == TokKind::Name || k == TokKind::Number || k == TokKind::Symbol
}

/// What holds of one token of the source `src`.
pub open spec fn tok_ok(src: Seq<char>, t: Tok) -> bool {
    &&& t.start <= src.len()
    &&& t.line == line_of(src, t.start as int)
    &&& t.col == col_of(src, t.start as int)
    &&& (t.kind == TokKind::Eof <==> t.start == src.len())
    &&& (t.kind == TokKind::Eof ==> t.value@.len() == 0)
    &&& (is_lexeme_kind(t.kind) ==> {
        &&& t.value@.len() > 0
        &&& t.start + t.value@.len() <= src.len()
        &&& src.subrange(t.start as int, t.start + t.value@.len()) == t.value@
    })
    &&& (t.kind == TokKind::Keyword || t.kind == TokKind::Name) ==> {
        &&& is_ident_start(t.value@[0])
        &&& forall|i: int| 0 <= i < t.value@.len() ==> is_ident_char(#[trigger] t.value@[i])
        &&& (t.start + t.value@.len() == src.len() || !is_ident_char(
            src[t.start + t.value@.len()],
        ))
    }
    &&& (t.kind == TokKind::Keyword ==> is_keyword_chars(t.value@))
    &&& (t.kind == TokKind::Name ==> !is_keyword_chars(t.value@))
    &&& (t.kind == TokKind::Number ==> is_digit(t.value@[0]))
    &&& (t.kind == TokKind::Symbol ==> {
        &&& t.value@.len() <= 3
        &&& (t.value@.len() == 3 ==> is_symbol3(t.value@))
        &&& (t.value@.len() == 2 ==> is_symbol2(t.value@))
    })
}

/// What holds of the whole token list of `src`: every token is well formed,
/// tokens start at strictly increasing offsets, and exactly the last one is
/// the end-of-file marker.
pub open spec fn tokens_ok(src: Seq<char>, ts: Seq<Tok>) -> bool {
    &&& ts.len() >= 1
    &&& ts.last().kind == TokKind::Eof
    &&& forall|i: int| 0 <= i < ts.len() ==> tok_ok(src, #[trigger] ts[i])
    &&& forall|i: int, j: int| 0 <= i < j < ts.len() ==> #[trigger] ts[i].start < #[trigger] ts[j].start
}

// ---------------------------------------------------------------------------
// The token list as a function of the source
// ---------------------------------------------------------------------------

/// The end of the run of identifier characters from `i`.
pub open spec fn ident_stop(src: Seq<char>, i: int) -> int
    decreases src.len() - i,
{
    if 0 <= i < src.len() && is_ident_char(src[i]) {
        ident_stop(src, i + 1)
    } else {
        i
    }
}

/// The end of the run of decimal digits from `i`.
pub open spec fn digits_stop(src: Seq<char>, i: int) -> int
    decreases src.len() - i,
{
    if 0 <= i < src.len() && is_digit(src[i]) {
        digits_stop(src, i + 1)
    } else {
        i
    }
}

/// The end of the run of hexadecimal digits from `i`.
pub open spec fn hex_stop(src: Seq<char>, i: int) -> int
    decreases src.len() - i,
{
    if 0 <= i < src.len() && is_hex_digit(src[i]) {
        hex_stop(src, i + 1)
    } else {
        i
    }
}

/// The first line break at or after `i`, or the end of text.
pub open spec fn line_stop(src: Seq<char>, i: int) -> int
    decreases src.len() - i,
{
    if 0 <= i < src.len() && src[i] != '\n' {
        line_stop(src, i + 1)
    } else {
        i
    }
}

/// The end of the number literal at `from`: `0x` and hexadecimal digits, or
/// decimal digits with an optional fraction (`.` and a digit) and exponent
/// (`e` or `E`, an optional sign, and a digit).
pub open spec fn number_stop(src: Seq<char>, from: int) -> int {
    let len = src.len();
    if src[from] == '0' && from + 1 < len && (src[from + 1] == 'x' || src[from + 1] == 'X') && from + 2 < len
        && is_hex_digit(src[from + 2]) {
        hex_stop(src, from + 2)
    } else {
        let e1 = digits_stop(src, from + 1);
        let e2 = if e1 + 1 < len && src[e1] == '.' && is_digit(src[e1 + 1]) {
            digits_stop(src, e1 + 1)
        } else {
            e1
        };
        if e2 + 1 < len && (src[e2] == 'e' || src[e2] == 'E') {
            if is_digit(src[e2 + 1]) {
                digits_stop(src, e2 + 1)
            } else if e2 + 2 < len && (src[e2 + 1] == '+' || src[e2 + 1] == '-') && is_digit(src[e2 + 2]) {
                digits_stop(src, e2 + 2)
            } else {
                e2
            }
        } else {
            e2
        }
    }
}

/// The rest of a string quoted by `quote` from `i`, decoded after `out`:
/// the text and the offset past the closing quote (or the end of text).
pub open spec fn quoted_loop(src: Seq<char>, quote: char, i: int, out: Seq<char>) -> (Seq<char>, int)
    decreases src.len() - i,
{
    if i < 0 || i >= src.len() {
        (out, src.len() as int)
    } else if src[i] == quote {
        (out, i + 1)
    } else if src[i] == '\\' && i + 1 < src.len() {
        quoted_loop(src, quote, i + 2, out.push(escaped(src[i + 1])))
    } else {
        quoted_loop(src, quote, i + 1, out.push(src[i]))
    }
}

/// The first `]]` at or after `i`, or the end of text.
pub open spec fn long_close(src: Seq<char>, i: int) -> int
    decreases src.len() - i,
{
    if 0 <= i < src.len() {
        if src[i] == ']' && i + 1 < src.len() && src[i + 1] == ']' {
            i
        } else {
            long_close(src, i + 1)
        }
    } else {
        src.len() as int
    }
}

/// A long-bracket string at `from`: its text (a line break right after the
/// opening brackets left out) and the offset past `]]` (or the end of text).
pub open spec fn long_string(src: Seq<char>, from: int) -> (Seq<char>, int) {
    let start = if from + 2 < src.len() && src[from + 2] == '\n' {
        from + 3
    } else {
        from + 2
    };
    let k = long_close(src, start);
    if k < src.len() {
        (src.subrange(start, k), k + 2)
    } else {
        (src.subrange(start, src.len() as int), src.len() as int)
    }
}

/// The first backtick at or after `i`, or the end of text.
pub open spec fn tick_close(src: Seq<char>, i: int) -> int
    decreases src.len() - i,
{
    if 0 <= i < src.len() {
        if src[i] == '`' {
            i
        } else {
            tick_close(src, i + 1)
        }
    } else {
        src.len() as int
    }
}

/// A backtick string at `from`: its raw text and the offset past the
/// closing backtick (or the end of text).
pub open spec fn interp_text(src: Seq<char>, from: int) -> (Seq<char>, int) {
    let k = tick_close(src, from + 1);
    if k < src.len() {
        (src.subrange(from + 1, k), k + 1)
    } else {
        (src.subrange(from + 1, src.len() as int), src.len() as int)
    }
}

/// The length of the operator at `pos`: the longest listed one, or one
/// character.
pub open spec fn sym_len(src: Seq<char>, pos: int) -> int {
    if pos + 3 <= src.len() && is_symbol3(src.subrange(pos, pos + 3)) {
        3
    } else if pos + 2 <= src.len() && is_symbol2(src.subrange(pos, pos + 2)) {
        2
    } else {
        1
    }
}

/// A token as a value: its class, its text and its offset (its line and
/// column follow from the offset by `line_of` and `col_of`).
pub type TokV = (TokKind, Seq<char>, int);

/// The tokens of `src` from `pos` on, after `acc`. `prev_end` is where the
/// last name or symbol token ended and `prev_closes` whether a `--` there
/// is a postfix decrement (after a name, `)` or `]`) rather than a comment.
/// White space is skipped; `--` otherwise starts a comment to the end of
/// the line; then come names and keywords, numbers, quoted, backtick and
/// long-bracket strings, and operators (longest match); the list ends with
/// the end-of-file token.
pub open spec fn lex_loop(src: Seq<char>, pos: int, prev_end: int, prev_closes: bool, acc: Seq<TokV>) -> Seq<TokV>
    decreases src.len() - pos,
{
    if pos < 0 {
        acc
    } else if pos >= src.len() {
        acc.push((TokKind::Eof, Seq::empty(), src.len() as int))
    } else {
        let c = src[pos];
        if is_space(c) {
            lex_loop(src, pos + 1, prev_end, false, acc)
        } else if c == '-' && pos + 1 < src.len() && src[pos + 1] == '-' && !(prev_closes && prev_end == pos) {
            let e = line_stop(src, pos);
            if !(pos < e <= src.len()) {
                acc
            } else {
                lex_loop(src, e, prev_end, false, acc)
            }
        } else if is_ident_start(c) {
            let e = ident_stop(src, pos + 1);
            let v = src.subrange(pos, e);
            let kw = is_keyword_chars(v);
            if !(pos < e <= src.len()) {
                acc
            } else {
                lex_loop(
                    src,
                    e,
                    e,
                    !kw,
                    acc.push(
                        (
                            if kw {
                                TokKind::Keyword
                            } else {
                                TokKind::Name
                            },
                            v,
                            pos,
                        ),
                    ),
                )
            }
        } else if is_digit(c) {
            let e = number_stop(src, pos);
            if !(pos < e <= src.len()) {
                acc
            } else {
                lex_loop(src, e, prev_end, false, acc.push((TokKind::Number, src.subrange(pos, e), pos)))
            }
        } else if c == '"' || c == '\'' {
            let (v, e) = quoted_loop(src, c, pos + 1, Seq::empty());
            if !(pos < e <= src.len()) {
                acc
            } else {
                lex_loop(src, e, prev_end, false, acc.push((TokKind::Str, v, pos)))
            }
        } else if c == '`' {
            let (v, e) = interp_text(src, pos);
            if !(pos < e <= src.len()) {
                acc
            } else {
                lex_loop(src, e, prev_end, false, acc.push((TokKind::Interp, v, pos)))
            }
        } else if c == '[' && pos + 1 < src.len() && src[pos + 1] == '[' {
            let (v, e) = long_string(src, pos);
            if !(pos < e <= src.len()) {
                acc
            } else {
                lex_loop(src, e, prev_end, false, acc.push((TokKind::Str, v, pos)))
            }
        } else {
            let n = sym_len(src, pos);
            let e = pos + n;
            if !(pos < e <= src.len()) {
                acc
            } else {
                lex_loop(
                    src,
                    e,
                    e,
                    n == 1 && (c == ')' || c == ']'),
                    acc.push((TokKind::Symbol, src.subrange(pos, e), pos)),
                )
            }
        }
    }
}

/// The tokens of `src`, the last one the end-of-file token.
pub open spec fn lex(src: Seq<char>) -> Seq<TokV> {
    lex_loop(src, 0, 0, false, Seq::empty())
}

/// Tokens as values.
pub open spec fn toks_view(ts: Seq<Tok>) -> Seq<TokV> {
    ts.map_values(|t: Tok| (t.kind, t.value@, t.start as int))
}

// ---------------------------------------------------------------------------
// Scanners
// ---------------------------------------------------------------------------

fn scan_ident(src: &Vec<char>, from: usize) -> (end: usize)
    requires
        src@.len() < usize::MAX,
        from < src@.len(),
        is_ident_start(src@[from as int]),
    ensures
        from < end <= src@.len(),
        forall|k: int| from <= k < end ==> is_ident_char(#[trigger] src@[k]),
        end == src@.len() || !is_ident_char(src@[end as int]),
        end == ident_stop(src@, from + 1),
{
    let mut end = from + 1;
    while end < src.len() && ident_char(src[end])
        invariant
            from < end <= src@.len(),
            ident_stop(src@, end as int) == ident_stop(src@, from + 1),
            forall|k: int| from <= k < end ==> is_ident_char(#[trigger] src@[k]),
        decreases src@.len() - end,
    {
        end = end + 1;
    }
    end
}

pub(crate) fn scan_digits(src: &Vec<char>, from: usize) -> (end: usize)
    requires
        from <= src@.len(),
    ensures
        from <= end <= src@.len(),
        forall|k: int| from <= k < end ==> is_digit(#[trigger] src@[k]),
        end == src@.len() || !is_digit(src@[end as int]),
        end == digits_stop(src@, from as int),
{
    let mut end = from;
    while end < src.len() && digit(src[end])
        invariant
            from <= end <= src@.len(),
            digits_stop(src@, end as int) == digits_stop(src@, from as int),
            forall|k: int| from <= k < end ==> is_digit(#[trigger] src@[k]),
        decreases src@.len() - end,
    {
        end = end + 1;
    }
    end
}

/// The end of the number literal that starts at `from`: decimal digits with an
/// optional fraction and exponent, or `0x` followed by hexadecimal digits.
fn scan_number(src: &Vec<char>, from: usize) -> (end: usize)
    requires
        src@.len() < usize::MAX,
        from < src@.len(),
        is_digit(src@[from as int]),
    ensures
        from < end <= src@.len(),
        end == number_stop(src@, from as int),
{
    let len = src.len();
    if src[from] == '0' && from + 1 < len && (src[from + 1] == 'x'
        || src[from + 1] == 'X') && from + 2 < len && hex_digit(src[from + 2]) {
        let mut end = from + 2;
        while end < len && hex_digit(src[end])
            invariant
                from < end <= len,
                len == src@.len(),
                hex_stop(src@, end as int) == hex_stop(src@, from + 2),
            decreases len - end,
        {
            end = end + 1;
        }
        return end;
    }
    let mut end = scan_digits(src, from + 1);
    if end + 1 < len && src[end] == '.' && digit(src[end + 1]) {
        end = scan_digits(src, end + 1);
    }
    if end + 1 < len && (src[end] == 'e' || src[end] == 'E') {
        if digit(src[end + 1]) {
            end = scan_digits(src, end + 1);
        } else if end + 2 < len && (src[end + 1] == '+' || src[end + 1] == '-') && digit(
            src[end + 2],
        ) {
            end = scan_digits(src, end + 2);
        }
    }
    end
}

/// The offset of the first line break at or after `from`, or the end of text.
fn scan_line_end(src: &Vec<char>, from: usize) -> (end: usize)
    requires
        from <= src@.len(),
    ensures
        from <= end <= src@.len(),
        end == src@.len() || src@[end as int] == '\n',
        end == line_stop(src@, from as int),
{
    let mut end = from;
    while end < src.len() && src[end] != '\n'
        invariant
            from <= end <= src@.len(),
            line_stop(src@, end as int) == line_stop(src@, from as int),
        decreases src@.len() - end,
    {
        end = end + 1;
    }
    end
}

/// The character an escape sequence `\c` stands for: `n`, `t`, `r` and `0`
/// name a line break, a tab, a carriage return and NUL; any other character
/// stands for itself.
pub open spec fn escaped(c: char) -> char {
    if c == 'n' {
        '\n'
    } else if c == 't' {
        '\t'
    } else if c == 'r' {
        '\r'
    } else if c == '0' {
        '\0'
    } else {
        c
    }
}

/// The character an escape sequence `\c` stands for.
fn unescape(c: char) -> (r: char)
    ensures
        r == escaped(c),
{
    if c == 'n' {
        '\n'
    } else if c == 't' {
        '\t'
    } else if c == 'r' {
        '\r'
    } else if c == '0' {
        '\0'
    } else {
        c
    }
}

/// Reads a string quoted by `src[from]`, decoding backslash escapes. Returns
/// the decoded text and the offset just past the closing quote (or the end of
/// text when the string is not closed).
fn read_quoted(src: &Vec<char>, from: usize) -> (res: (Vec<char>, usize))
    requires
        from < src@.len(),
    ensures
        from < res.1 <= src@.len(),
        (res.0@, res.1 as int) == quoted_loop(src@, src@[from as int], from + 1, Seq::empty()),
{
    let quote = src[from];
    let len = src.len();
    let mut out: Vec<char> = Vec::new();
    let mut i = from + 1;
    while i < len
        invariant
            from < i <= len,
            len == src@.len(),
            quote == src@[from as int],
            quoted_loop(src@, quote, i as int, out@) == quoted_loop(src@, quote, from + 1, Seq::empty()),
        decreases len - i,
    {
        let c = src[i];
        if c == quote {
            return (out, i + 1);
        }
        if c == '\\' && i + 1 < len {
            out.push(unescape(src[i + 1]));
            i = i + 2;
        } else {
            out.push(c);
            i = i + 1;
        }
    }
    (out, len)
}

/// Reads a long-bracket string `[[ ... ]]` starting at `from`. A line break
/// right after the opening brackets is not part of the text.
fn read_long_string(src: &Vec<char>, from: usize) -> (res: (Vec<char>, usize))
    requires
        from + 2 <= src@.len(),
    ensures
        from < res.1 <= src@.len(),
        (res.0@, res.1 as int) == long_string(src@, from as int),
{
    let len = src.len();
    let mut start = from + 2;
    if start < len && src[start] == '\n' {
        start = start + 1;
    }
    let ghost st = start as int;
    assert(long_string(src@, from as int) == (if long_close(src@, st) < len {
        (src@.subrange(st, long_close(src@, st)), long_close(src@, st) + 2)
    } else {
        (src@.subrange(st, len as int), len as int)
    }));
    let mut i = start;
    while i < len
        invariant
            from + 2 <= start <= i <= len,
            len == src@.len(),
            st == start,
            long_close(src@, i as int) == long_close(src@, st),
            long_string(src@, from as int) == (if long_close(src@, st) < len {
                (src@.subrange(st, long_close(src@, st)), long_close(src@, st) + 2)
            } else {
                (src@.subrange(st, len as int), len as int)
            }),
        decreases len - i,
    {
        if src[i] == ']' && i + 1 < len && src[i + 1] == ']' {
            let text = copy_chars(src.as_slice(), start, i);
            return (text, i + 2);
        }
        i = i + 1;
    }
    let text = copy_chars(src.as_slice(), start, len);
    (text, len)
}

/// Reads a backtick interpolation string; its raw text is kept for the parser
/// of interpolations.
fn read_interp(src: &Vec<char>, from: usize) -> (res: (Vec<char>, usize))
    requires
        from < src@.len(),
    ensures
        from < res.1 <= src@.len(),
        (res.0@, res.1 as int) == interp_text(src@, from as int),
{
    let len = src.len();
    let mut i = from + 1;
    while i < len
        invariant
            from < i <= len,
            len == src@.len(),
            tick_close(src@, i as int) == tick_close(src@, from + 1),
        decreases len - i,
    {
        if src[i] == '`' {
            let text = copy_chars(src.as_slice(), from + 1, i);
            return (text, i + 1);
        }
        i = i + 1;
    }
    let text = copy_chars(src.as_slice(), from + 1, len);
    (text, len)
}

// ---------------------------------------------------------------------------
// The tokenizer
// ---------------------------------------------------------------------------

fn push_tok(
    src: &Vec<char>,
    toks: &mut Vec<Tok>,
    cur: &mut Cursor,
    kind: TokKind,
    value: Vec<char>,
    end: usize,
)
    requires
        src@.len() < usize::MAX,
        cursor_ok(src@, *old(cur)),
        old(cur).pos < end <= src@.len(),
        old(toks)@.len() <= old(cur).pos,
        forall|i: int| 0 <= i < old(toks)@.len() ==> tok_ok(src@, #[trigger] old(toks)@[i]),
        forall|i: int|
            0 <= i < old(toks)@.len() ==> #[trigger] old(toks)@[i].start < old(cur).pos,
        forall|i: int, j: int|
            0 <= i < j < old(toks)@.len() ==> #[trigger] old(toks)@[i].start
                < #[trigger] old(toks)@[j].start,
        tok_ok(
            src@,
            Tok { kind, value, line: old(cur).line, col: old(cur).col, start: old(cur).pos },
        ),
    ensures
        cursor_ok(src@, *final(cur)),
        final(cur).pos == end,
        final(toks)@.len() == old(toks)@.len() + 1,
        final(toks)@.len() <= final(cur).pos,
        final(toks)@.last().kind == kind,
        toks_view(final(toks)@) == toks_view(old(toks)@).push((kind, value@, old(cur).pos as int)),
        forall|i: int| 0 <= i < final(toks)@.len() ==> tok_ok(src@, #[trigger] final(toks)@[i]),
        forall|i: int|
            0 <= i < final(toks)@.len() ==> #[trigger] final(toks)@[i].start < final(cur).pos,
        forall|i: int, j: int|
            0 <= i < j < final(toks)@.len() ==> #[trigger] final(toks)@[i].start
                < #[trigger] final(toks)@[j].start,
{
    let ghost vv = value@;
    let t = Tok { kind, value, line: cur.line, col: cur.col, start: cur.pos };
    toks.push(t);
    assert(toks_view(toks@) =~= toks_view(old(toks)@).push((kind, vv, old(cur).pos as int)));
    advance(src, cur, end);
}

/// Splits `src` into tokens and collects its documentation comments.
pub fn tokenize_chars(src: &Vec<char>) -> (res: (Vec<Tok>, Vec<DocComment>))
    requires
        src@.len() < usize::MAX,
    ensures
        tokens_ok(src@, res.0@),
        res.0@.len() <= src@.len() + 1,
        toks_view(res.0@) == lex(src@),
{
    let len = src.len();
    let mut toks: Vec<Tok> = Vec::new();
    let mut docs: Vec<DocComment> = Vec::new();
    let mut cur = Cursor { pos: 0, line: 1, col: 1 };
    // Whether the last token ends at `prev_end` and can be followed by a
    // postfix `--` (a name, `)` or `]`).
    let mut prev_end: usize = 0;
    let mut prev_closes = false;
    assert(toks_view(toks@) =~= Seq::<TokV>::empty());
    while cur.pos < len
        invariant
            len == src@.len(),
            lex_loop(src@, cur.pos as int, prev_end as int, prev_closes, toks_view(toks@)) == lex(src@),
            len < usize::MAX,
            cursor_ok(src@, cur),
            toks@.len() <= cur.pos,
            forall|i: int| 0 <= i < toks@.len() ==> tok_ok(src@, #[trigger] toks@[i]),
            forall|i: int| 0 <= i < toks@.len() ==> #[trigger] toks@[i].start < cur.pos,
            forall|i: int, j: int|
                0 <= i < j < toks@.len() ==> #[trigger] toks@[i].start < #[trigger] toks@[j].start,
        decreases len - cur.pos,
    {
        let pos = cur.pos;
        let c = src[pos];
        proof {
            lemma_line_col_bounds(src@, pos as int);
        }
        if space(c) {
            advance(src, &mut cur, pos + 1);
            prev_closes = false;
        } else if c == '-' && pos + 1 < len && src[pos + 1] == '-' && !(prev_closes && prev_end
            == pos) {
            let end = scan_line_end(src, pos);
            if pos + 2 < end && src[pos + 2] == '-' {
                let mut text_start = pos + 3;
                while text_start < end && src[text_start] == ' '
                    invariant
                        pos + 3 <= text_start <= end,
                        end <= src@.len(),
                    decreases end - text_start,
                {
                    text_start = text_start + 1;
                }
                let text = copy_chars(src.as_slice(), text_start, end);
                docs.push(DocComment { line: cur.line, text: string_from_chars(text.as_slice()) });
            }
            advance(src, &mut cur, end);
            prev_closes = false;
        } else if ident_start(c) {
            let end = scan_ident(src, pos);
            let value = copy_chars(src.as_slice(), pos, end);
            let is_kw = keyword_chars(value.as_slice());
            let kind = if is_kw {
                TokKind::Keyword
            } else {
                TokKind::Name
            };
            push_tok(src, &mut toks, &mut cur, kind, value, end);
            prev_end = end;
            prev_closes = !is_kw;
        } else if digit(c) {
            let end = scan_number(src, pos);
            let value = copy_chars(src.as_slice(), pos, end);
            push_tok(src, &mut toks, &mut cur, TokKind::Number, value, end);
            prev_closes = false;
        } else if c == '"' || c == '\'' {
            let (value, end) = read_quoted(src, pos);
            push_tok(src, &mut toks, &mut cur, TokKind::Str, value, end);
            prev_closes = false;
        } else if c == '`' {
            let (value, end) = read_interp(src, pos);
            push_tok(src, &mut toks, &mut cur, TokKind::Interp, value, end);
            prev_closes = false;
        } else if c == '[' && pos + 1 < len && src[pos + 1] == '[' {
            let (value, end) = read_long_string(src, pos);
            push_tok(src, &mut toks, &mut cur, TokKind::Str, value, end);
            prev_closes = false;
        } else {
            let n = symbol_len(src, pos);
            let end = pos + n;
            let value = copy_chars(src.as_slice(), pos, end);
            push_tok(src, &mut toks, &mut cur, TokKind::Symbol, value, end);
            prev_end = end;
            prev_closes = n == 1 && (c == ')' || c == ']');
        }
    }
    let ghost before = toks@;
    let eof = Tok { kind: TokKind::Eof, value: Vec::new(), line: cur.line, col: cur.col, start: len };
    toks.push(eof);
    assert(toks_view(toks@) =~= toks_view(before).push((TokKind::Eof, Seq::<char>::empty(), len as int)));
    (toks, docs)
}

/// The name users see for a token class.
pub open spec fn kind_name(k: TokKind) -> &'static str {
    match k {
        TokKind::Keyword => "keyword",
        TokKind::Name => "name",
        TokKind::Number => "number",
        TokKind::Str => "string",
        TokKind::Interp => "interp",
        TokKind::Symbol => "symbol",
        TokKind::Eof => "eof",
    }
}

fn kind_str(k: TokKind) -> (r: &'static str)
    ensures
        r == kind_name(k),
{
    match k {
        TokKind::Keyword => "keyword",
        TokKind::Name => "name",
        TokKind::Number => "number",
        TokKind::Str => "string",
        TokKind::Interp => "interp",
        TokKind::Symbol => "symbol",
        TokKind::Eof => "eof",
    }
}

/// The user-facing form of a list of tokens.
pub fn to_tokens(toks: &Vec<Tok>) -> (r: Vec<Token>)
    ensures
        r@.len() == toks@.len(),
        forall|i: int|
            0 <= i < toks@.len() ==> {
                &&& (#[trigger] r@[i]).kind == kind_name(toks@[i].kind)
                &&& r@[i].value@ == toks@[i].value@
                &&& r@[i].line == toks@[i].line
                &&& r@[i].col == toks@[i].col
            },
{
    let mut r: Vec<Token> = Vec::new();
    let mut i: usize = 0;
    while i < toks.len()
        invariant
            i <= toks@.len(),
            r@.len() == i,
            forall|k: int|
                0 <= k < i ==> {
                    &&& (#[trigger] r@[k]).kind == kind_name(toks@[k].kind)
                    &&& r@[k].value@ == toks@[k].value@
                    &&& r@[k].line == toks@[k].line
                    &&& r@[k].col == toks@[k].col
                },
        decreases toks@.len() - i,
    {
        let t = &toks[i];
        r.push(
            Token {
                kind: kind_str(t.kind),
                value: string_from_chars(t.value.as_slice()),
                line: t.line,
                col: t.col,
            },
        );
        i = i + 1;
    }
    r
}

/// Whether `r` is the user-facing form of the tokens of `src`: one token
/// for each of `lex(src)`, with its class name, its text, and the line and
/// column of its offset.
pub open spec fn tokens_match(src: Seq<char>, r: Seq<Token>) -> bool {
    &&& r.len() == lex(src).len()
    &&& forall|i: int|
        0 <= i < r.len() ==> {
            &&& (#[trigger] r[i]).kind == kind_name(lex(src)[i].0)
            &&& r[i].value@ == lex(src)[i].1
            &&& r[i].line == line_of(src, lex(src)[i].2)
            &&& r[i].col == col_of(src, lex(src)[i].2)
        }
}

proof fn lemma_tokens_match(src: Seq<char>, ts: Seq<Tok>, r: Seq<Token>)
    requires
        tokens_ok(src, ts),
        toks_view(ts) == lex(src),
        r.len() == ts.len(),
        forall|i: int|
            0 <= i < ts.len() ==> {
                &&& (#[trigger] r[i]).kind == kind_name(ts[i].kind)
                &&& r[i].value@ == ts[i].value@
                &&& r[i].line == ts[i].line
                &&& r[i].col == ts[i].col
            },
    ensures
        tokens_match(src, r),
{
    assert forall|i: int| 0 <= i < r.len() implies {
        &&& (#[trigger] r[i]).kind == kind_name(lex(src)[i].0)
        &&& r[i].value@ == lex(src)[i].1
        &&& r[i].line == line_of(src, lex(src)[i].2)
        &&& r[i].col == col_of(src, lex(src)[i].2)
    } by {
        assert(toks_view(ts)[i] == (ts[i].kind, ts[i].value@, ts[i].start as int));
        assert(tok_ok(src, ts[i]));
    }
}

impl Lexer {
    /// A lexer over a copy of `source`.
    pub fn new(source: &str) -> (r: Self)
        ensures
            r.source() == source@,
    {
        Lexer { src: source.to_owned() }
    }

    /// The source text this lexer reads.
    pub closed spec fn source(&self) -> Seq<char> {
        self.src@
    }

    /// The tokens of the source, the last one being the end-of-file marker.
    pub fn tokenize(&mut self) -> (r: Vec<Token>)
        requires
            old(self).source().len() < usize::MAX,
        ensures
            final(self).source() == old(self).source(),
            tokens_match(old(self).source(), r@),
    {
        let src = chars_of(self.src.as_str());
        let (toks, _docs) = tokenize_chars(&src);
        let r = to_tokens(&toks);
        proof {
            lemma_tokens_match(self.source(), toks@, r@);
        }
        r
    }

    /// The tokens of the source together with its documentation comments.
    pub fn tokenize_with_comments(&mut self) -> (r: (Vec<Token>, Vec<DocComment>))
        requires
            old(self).source().len() < usize::MAX,
        ensures
            final(self).source() == old(self).source(),
            tokens_match(old(self).source(), r.0@),
    {
        let src = chars_of(self.src.as_str());
        let (toks, docs) = tokenize_chars(&src);
        let r = to_tokens(&toks);
        proof {
            lemma_tokens_match(self.source(), toks@, r@);
        }
        (r, docs)
    }
}

/// The operators are lexed whole, by longest match over a fixed set:
/// where one of the three-character operators `...` `..=` `//=` `<<=` `>>=`
/// `??=` starts, the symbol there is three characters long; where one of
/// the two-character operators `==` `!=` `<=` `>=` `<<` `>>` `//` `..`
/// `++` `--` `+=` `-=` `*=` `/=` `%=` `^=` `&=` `|=` `??` `::` starts, it
/// is at least two long.
pub proof fn lemma_operators_lexed_whole(src: Seq<char>, pos: int)
    requires
        0 <= pos,
    ensures
        pos + 3 <= src.len() && (src.subrange(pos, pos + 3) == "..."@ || src.subrange(pos, pos + 3) == "..="@ || src.subrange(pos, pos + 3) == "//="@ || src.subrange(pos, pos + 3) == "<<="@ || src.subrange(pos, pos + 3) == ">>="@ || src.subrange(pos, pos + 3) == "??="@) ==> sym_len(src, pos) == 3,
        pos + 2 <= src.len() && (src.subrange(pos, pos + 2) == "=="@ || src.subrange(pos, pos + 2) == "!="@ || src.subrange(pos, pos + 2) == "<="@ || src.subrange(pos, pos + 2) == ">="@ || src.subrange(pos, pos + 2) == "<<"@ || src.subrange(pos, pos + 2) == ">>"@ || src.subrange(pos, pos + 2) == "//"@ || src.subrange(pos, pos + 2) == ".."@ || src.subrange(pos, pos + 2) == "++"@ || src.subrange(pos, pos + 2) == "--"@ || src.subrange(pos, pos + 2) == "+="@ || src.subrange(pos, pos + 2) == "-="@ || src.subrange(pos, pos + 2) == "*="@ || src.subrange(pos, pos + 2) == "/="@ || src.subrange(pos, pos + 2) == "%="@ || src.subrange(pos, pos + 2) == "^="@ || src.subrange(pos, pos + 2) == "&="@ || src.subrange(pos, pos + 2) == "|="@ || src.subrange(pos, pos + 2) == "??"@ || src.subrange(pos, pos + 2) == "::"@) ==> sym_len(src, pos) >= 2,
{
}

/// In the token list, an operator is one symbol token: where a
/// three-character operator starts, the next token is that symbol, with
/// its three characters; where a two-character operator other than `--`
/// starts and no three-character one does, it is that two-character symbol.
pub proof fn lemma_operator_tokens(src: Seq<char>, pos: int, prev_end: int, prev_closes: bool, acc: Seq<TokV>)
    requires
        0 <= pos,
    ensures
        pos + 3 <= src.len() && (src.subrange(pos, pos + 3) == "..."@ || src.subrange(pos, pos + 3) == "..="@ || src.subrange(pos, pos + 3) == "//="@ || src.subrange(pos, pos + 3) == "<<="@ || src.subrange(pos, pos + 3) == ">>="@ || src.subrange(pos, pos + 3) == "??="@) ==> lex_loop(src, pos, prev_end, prev_closes, acc) == lex_loop(
            src,
            pos + 3,
            pos + 3,
            false,
            acc.push((TokKind::Symbol, src.subrange(pos, pos + 3), pos)),
        ),
        pos + 2 <= src.len() && (src.subrange(pos, pos + 2) == "=="@ || src.subrange(pos, pos + 2) == "!="@ || src.subrange(pos, pos + 2) == "<="@ || src.subrange(pos, pos + 2) == ">="@ || src.subrange(pos, pos + 2) == "<<"@ || src.subrange(pos, pos + 2) == ">>"@ || src.subrange(pos, pos + 2) == "//"@ || src.subrange(pos, pos + 2) == ".."@ || src.subrange(pos, pos + 2) == "++"@ || src.subrange(pos, pos + 2) == "+="@ || src.subrange(pos, pos + 2) == "-="@ || src.subrange(pos, pos + 2) == "*="@ || src.subrange(pos, pos + 2) == "/="@ || src.subrange(pos, pos + 2) == "%="@ || src.subrange(pos, pos + 2) == "^="@ || src.subrange(pos, pos + 2) == "&="@ || src.subrange(pos, pos + 2) == "|="@ || src.subrange(pos, pos + 2) == "??"@ || src.subrange(pos, pos + 2) == "::"@) && !(pos + 3 <= src.len() && (src.subrange(pos, pos + 3) == "..."@ || src.subrange(pos, pos + 3) == "..="@ || src.subrange(pos, pos + 3) == "//="@ || src.subrange(pos, pos + 3) == "<<="@ || src.subrange(pos, pos + 3) == ">>="@ || src.subrange(pos, pos + 3) == "??="@)) ==> lex_loop(
            src,
            pos,
            prev_end,
            prev_closes,
            acc,
        ) == lex_loop(src, pos + 2, pos + 2, false, acc.push((TokKind::Symbol, src.subrange(pos, pos + 2), pos))),
{
    reveal_strlit("...");
    reveal_strlit("..=");
    reveal_strlit("//=");
    reveal_strlit("<<=");
    reveal_strlit(">>=");
    reveal_strlit("??=");
    reveal_strlit("==");
    reveal_strlit("!=");
    reveal_strlit("<=");
    reveal_strlit(">=");
    reveal_strlit("<<");
    reveal_strlit(">>");
    reveal_strlit("//");
    reveal_strlit("..");
    reveal_strlit("++");
    reveal_strlit("+=");
    reveal_strlit("-=");
    reveal_strlit("*=");
    reveal_strlit("/=");
    reveal_strlit("%=");
    reveal_strlit("^=");
    reveal_strlit("&=");
    reveal_strlit("|=");
    reveal_strlit("??");
    reveal_strlit("::");
    assert("..."@.len() == 3 && "..."@[0] == '.' && "..."@[1] == '.' && "..."@[2] == '.');
    assert("..="@.len() == 3 && "..="@[0] == '.' && "..="@[1] == '.' && "..="@[2] == '=');
    assert("//="@.len() == 3 && "//="@[0] == '/' && "//="@[1] == '/' && "//="@[2] == '=');
    assert("<<="@.len() == 3 && "<<="@[0] == '<' && "<<="@[1] == '<' && "<<="@[2] == '=');
    assert(">>="@.len() == 3 && ">>="@[0] == '>' && ">>="@[1] == '>' && ">>="@[2] == '=');
    assert("??="@.len() == 3 && "??="@[0] == '?' && "??="@[1] == '?' && "??="@[2] == '=');
    assert("=="@.len() == 2 && "=="@[0] == '=' && "=="@[1] == '=');
    assert("!="@.len() == 2 && "!="@[0] == '!' && "!="@[1] == '=');
    assert("<="@.len() == 2 && "<="@[0] == '<' && "<="@[1] == '=');
    assert(">="@.len() == 2 && ">="@[0] == '>' && ">="@[1] == '=');
    assert("<<"@.len() == 2 && "<<"@[0] == '<' && "<<"@[1] == '<');
    assert(">>"@.len() == 2 && ">>"@[0] == '>' && ">>"@[1] == '>');
    assert("//"@.len() == 2 && "//"@[0] == '/' && "//"@[1] == '/');
    assert(".."@.len() == 2 && ".."@[0] == '.' && ".."@[1] == '.');
    assert("++"@.len() == 2 && "++"@[0] == '+' && "++"@[1] == '+');
    assert("+="@.len() == 2 && "+="@[0] == '+' && "+="@[1] == '=');
    assert("-="@.len() == 2 && "-="@[0] == '-' && "-="@[1] == '=');
    assert("*="@.len() == 2 && "*="@[0] == '*' && "*="@[1] == '=');
    assert("/="@.len() == 2 && "/="@[0] == '/' && "/="@[1] == '=');
    assert("%="@.len() == 2 && "%="@[0] == '%' && "%="@[1] == '=');
    assert("^="@.len() == 2 && "^="@[0] == '^' && "^="@[1] == '=');
    assert("&="@.len() == 2 && "&="@[0] == '&' && "&="@[1] == '=');
    assert("|="@.len() == 2 && "|="@[0] == '|' && "|="@[1] == '=');
    assert("??"@.len() == 2 && "??"@[0] == '?' && "??"@[1] == '?');
    assert("::"@.len() == 2 && "::"@[0] == ':' && "::"@[1] == ':');
    if pos + 3 <= src.len() && (src.subrange(pos, pos + 3) == "..."@ || src.subrange(pos, pos + 3) == "..="@ || src.subrange(pos, pos + 3) == "//="@ || src.subrange(pos, pos + 3) == "<<="@ || src.subrange(pos, pos + 3) == ">>="@ || src.subrange(pos, pos + 3) == "??="@) {
        assert(src[pos] == src.subrange(pos, pos + 3)[0]);
        assert(src[pos + 1] == src.subrange(pos, pos + 3)[1]);
    }
    if pos + 2 <= src.len() && (src.subrange(pos, pos + 2) == "=="@ || src.subrange(pos, pos + 2) == "!="@ || src.subrange(pos, pos + 2) == "<="@ || src.subrange(pos, pos + 2) == ">="@ || src.subrange(pos, pos + 2) == "<<"@ || src.subrange(pos, pos + 2) == ">>"@ || src.subrange(pos, pos + 2) == "//"@ || src.subrange(pos, pos + 2) == ".."@ || src.subrange(pos, pos + 2) == "++"@ || src.subrange(pos, pos + 2) == "+="@ || src.subrange(pos, pos + 2) == "-="@ || src.subrange(pos, pos + 2) == "*="@ || src.subrange(pos, pos + 2) == "/="@ || src.subrange(pos, pos + 2) == "%="@ || src.subrange(pos, pos + 2) == "^="@ || src.subrange(pos, pos + 2) == "&="@ || src.subrange(pos, pos + 2) == "|="@ || src.subrange(pos, pos + 2) == "??"@ || src.subrange(pos, pos + 2) == "::"@) {
        assert(src[pos] == src.subrange(pos, pos + 2)[0]);
        assert(src[pos + 1] == src.subrange(pos, pos + 2)[1]);
    }
}

} // verus!
