//! The JSON values the debug adapter exchanges: a recursive-descent parser
//! over bytes (objects, arrays, strings with escapes including `\u` and
//! surrogate pairs, numbers, booleans, null) and a compact serializer.
//! Malformed input is always an error, never a panic. A number keeps the
//! text it was written with; reading it as a float is left to the caller.
use vstd::prelude::*;
use vstd::utf8::{decode_utf8, encode_scalar, valid_utf8};

use crate::dap_json::{utf8_text, ParseError};
use crate::text::{decimal, push_decimal, push_str, string_from_chars};

verus! {

/// A JSON value.
#[derive(Debug, PartialEq)]
pub enum Json {
    Null,
    Bool(bool),
    /// A number, as the text it is written with.
    Num(String),
    Str(String),
    Arr(Vec<Json>),
    Obj(Vec<(String, Json)>),
}

/// A JSON value as a mathematical object.
pub ghost enum JsonV {
    Null,
    Bool(bool),
    Num(Seq<char>),
    Str(Seq<char>),
    Arr(Seq<JsonV>),
    Obj(Seq<(Seq<char>, JsonV)>),
}

/// The model of a value.
pub open spec fn jview(j: Json) -> JsonV
    decreases j, 0int,
{
    match j {
        Json::Null => JsonV::Null,
        Json::Bool(b) => JsonV::Bool(b),
        Json::Num(t) => JsonV::Num(t@),
        Json::Str(s) => JsonV::Str(s@),
        Json::Arr(items) => JsonV::Arr(items_view(items, items@.len() as int)),
        Json::Obj(pairs) => JsonV::Obj(pairs_view(pairs, pairs@.len() as int)),
    }
}

/// The models of the first `k` items.
pub open spec fn items_view(items: Vec<Json>, k: int) -> Seq<JsonV>
    decreases items, k,
{
    if k <= 0 || k > items@.len() {
        Seq::empty()
    } else {
        items_view(items, k - 1).push(jview(items@[k - 1]))
    }
}

/// The models of the first `k` members.
pub open spec fn pairs_view(pairs: Vec<(String, Json)>, k: int) -> Seq<(Seq<char>, JsonV)>
    decreases pairs, k,
{
    if k <= 0 || k > pairs@.len() {
        Seq::empty()
    } else {
        pairs_view(pairs, k - 1).push((pairs@[k - 1].0@, jview(pairs@[k - 1].1)))
    }
}

// ---------------------------------------------------------------------------
// The grammar, as functions from the input and a position to the value read
// and the position after it, or the error message. A position outside the
// input, or a value that would end where it began, never arises (every
// reader below consumes at least one byte); there the definitions give an
// empty message only so that they stay well-founded.
/// Whether a byte is JSON whitespace.
pub open spec fn is_ws(c: u8) -> bool {
    c == 0x20 || c == 0x09 || c == 0x0A || c == 0x0D
}

/// The position after the whitespace starting at `pos`.
pub open spec fn skip_ws(b: Seq<u8>, pos: int) -> int
    decreases b.len() - pos,
{
    if 0 <= pos < b.len() && is_ws(b[pos]) {
        skip_ws(b, pos + 1)
    } else {
        pos
    }
}

/// Skipping whitespace moves forward over whitespace only and stops at the
/// end or at a byte that is not whitespace.
pub proof fn lemma_skip_ws(b: Seq<u8>, pos: int)
    requires
        0 <= pos <= b.len(),
    ensures
        pos <= skip_ws(b, pos) <= b.len(),
        skip_ws(b, pos) < b.len() ==> !is_ws(b[skip_ws(b, pos)]),
        forall|i: int| pos <= i < skip_ws(b, pos) ==> is_ws(#[trigger] b[i]),
    decreases b.len() - pos,
{
    if pos < b.len() && is_ws(b[pos]) {
        lemma_skip_ws(b, pos + 1);
    }
}

/// An error message naming the position where it arose.
pub open spec fn at(msg: Seq<char>, pos: int) -> Seq<char> {
    msg + " at byte "@ + decimal(pos as nat)
}

/// The lowercase hexadecimal digit for a value below sixteen.
pub open spec fn hex_digit(n: int) -> char {
    if n < 10 {
        (48 + n) as char
    } else {
        (87 + n) as char
    }
}

/// The value of a hexadecimal digit.
pub open spec fn hex_value(c: u8) -> Option<int> {
    if 0x30 <= c <= 0x39 {
        Some(c - 0x30)
    } else if 0x61 <= c <= 0x66 {
        Some(c - 0x61 + 10)
    } else if 0x41 <= c <= 0x46 {
        Some(c - 0x41 + 10)
    } else {
        None
    }
}

/// The value of the `n` hexadecimal digits at `q` (on top of `acc`).
pub open spec fn hex_digits(b: Seq<u8>, q: int, acc: int, n: nat) -> Result<int, Seq<char>>
    decreases n,
{
    if n == 0 {
        Ok(acc)
    } else if q >= b.len() {
        Err(at("bad \\u escape"@, q))
    } else {
        match hex_value(b[q]) {
            Some(d) => hex_digits(b, q + 1, acc * 16 + d, (n - 1) as nat),
            None => Err(at("bad \\u escape"@, q + 1)),
        }
    }
}

/// The bytes a `\u` escape whose digits start at `q` stands for (a pair of
/// escapes for a surrogate pair), and the position after it.
pub open spec fn unicode_escape(b: Seq<u8>, q: int) -> Result<(Seq<u8>, int), Seq<char>> {
    match hex_digits(b, q, 0, 4) {
        Err(e) => Err(e),
        Ok(hi) => {
            let r = q + 4;
            if 0xD800 <= hi < 0xDC00 {
                let r1 = if r < b.len() {
                    r + 1
                } else {
                    r
                };
                let r2 = if r1 < b.len() {
                    r1 + 1
                } else {
                    r1
                };
                if r + 1 < b.len() && b[r] == 0x5C && b[r + 1] == 0x75 {
                    match hex_digits(b, r + 2, 0, 4) {
                        Err(e) => Err(e),
                        Ok(lo) => if !(0xDC00 <= lo < 0xE000) {
                            Err(at("bad low surrogate"@, r + 6))
                        } else {
                            let cp = 0x10000 + (hi - 0xD800) * 1024 + (lo - 0xDC00);
                            if vstd::utf8::is_scalar(cp as u32) {
                                Ok((encode_scalar(cp as u32), r + 6))
                            } else {
                                Err(at("bad codepoint"@, r + 6))
                            }
                        },
                    }
                } else {
                    Err(at("lone high surrogate"@, r2))
                }
            } else if 0xDC00 <= hi < 0xE000 {
                Err(at("lone low surrogate"@, r))
            } else if vstd::utf8::is_scalar(hi as u32) {
                Ok((encode_scalar(hi as u32), r))
            } else {
                Err(at("bad codepoint"@, r))
            }
        },
    }
}

/// The rest of a string from `pos`, with `out` the bytes read so far: the
/// text and the position after the closing quote.
pub open spec fn string_body(b: Seq<u8>, pos: int, out: Seq<u8>) -> Result<(Seq<char>, int), Seq<char>>
    decreases b.len() - pos,
{
    if pos < 0 || pos >= b.len() {
        Err(at("unterminated string"@, pos))
    } else {
        let c = b[pos];
        if c == 0x22 {
            if valid_utf8(out) {
                Ok((decode_utf8(out), pos + 1))
            } else {
                Err("invalid UTF-8"@)
            }
        } else if c == 0x5C {
            if pos + 1 >= b.len() {
                Err(at("unterminated escape"@, pos + 1))
            } else {
                let e = b[pos + 1];
                if e == 0x22 || e == 0x5C || e == 0x2F {
                    string_body(b, pos + 2, out.push(e))
                } else if e == 0x62 {
                    string_body(b, pos + 2, out.push(0x08))
                } else if e == 0x66 {
                    string_body(b, pos + 2, out.push(0x0C))
                } else if e == 0x6E {
                    string_body(b, pos + 2, out.push(0x0A))
                } else if e == 0x72 {
                    string_body(b, pos + 2, out.push(0x0D))
                } else if e == 0x74 {
                    string_body(b, pos + 2, out.push(0x09))
                } else if e == 0x75 {
                    match unicode_escape(b, pos + 2) {
                        Err(m) => Err(m),
                        Ok((bytes, np)) => if pos < np <= b.len() {
                            string_body(b, np, out + bytes)
                        } else {
                            Err(Seq::empty())
                        },
                    }
                } else {
                    Err(at("bad escape"@, pos + 2))
                }
            }
        } else if c < 0x20 {
            Err(at("unescaped control character"@, pos + 1))
        } else {
            string_body(b, pos + 1, out.push(c))
        }
    }
}

/// The string whose opening quote is at `p`.
pub open spec fn string_at(b: Seq<u8>, p: int) -> Result<(Seq<char>, int), Seq<char>> {
    string_body(b, p + 1, Seq::empty())
}

/// Whether a byte is a decimal digit.
pub open spec fn is_digit(c: u8) -> bool {
    0x30 <= c <= 0x39
}

/// The end of the run of digits at `q`.
pub open spec fn scan_digits(b: Seq<u8>, q: int) -> int
    decreases b.len() - q,
{
    if 0 <= q < b.len() && is_digit(b[q]) {
        scan_digits(b, q + 1)
    } else {
        q
    }
}

/// ASCII bytes as characters.
pub open spec fn ascii_chars(s: Seq<u8>) -> Seq<char> {
    s.map_values(|x: u8| x as char)
}

/// The number starting at `p`: an optional minus, digits, an optional
/// fraction and an optional exponent, with at least one digit before the
/// exponent; kept as its text.
pub open spec fn number_at(b: Seq<u8>, p: int) -> Result<(JsonV, int), Seq<char>> {
    let q0 = if p < b.len() && b[p] == 0x2D {
        p + 1
    } else {
        p
    };
    let q1 = scan_digits(b, q0);
    let (q2, frac) = if q1 < b.len() && b[q1] == 0x2E {
        (scan_digits(b, q1 + 1), scan_digits(b, q1 + 1) - (q1 + 1))
    } else {
        (q1, 0)
    };
    let digits = (q1 - q0) + frac;
    if q2 < b.len() && (b[q2] == 0x65 || b[q2] == 0x45) {
        let q4 = if q2 + 1 < b.len() && (b[q2 + 1] == 0x2B || b[q2 + 1] == 0x2D) {
            q2 + 2
        } else {
            q2 + 1
        };
        let q5 = scan_digits(b, q4);
        if q5 == q4 {
            Err(at("bad exponent"@, q5))
        } else if digits == 0 {
            Err(at("bad number"@, q5))
        } else {
            Ok((JsonV::Num(ascii_chars(b.subrange(p, q5))), q5))
        }
    } else if digits == 0 {
        Err(at("bad number"@, q2))
    } else {
        Ok((JsonV::Num(ascii_chars(b.subrange(p, q2))), q2))
    }
}

/// The literal `word` at `p`, standing for `v`.
pub open spec fn literal_at(b: Seq<u8>, p: int, word: Seq<u8>, v: JsonV) -> Result<(JsonV, int), Seq<char>> {
    if p + word.len() <= b.len() && b.subrange(p, p + word.len()) == word {
        Ok((v, p + word.len()))
    } else {
        Err(at("invalid literal"@, p))
    }
}

/// The message for an unexpected byte: its value in two hexadecimal digits.
pub open spec fn unexpected_byte(c: u8) -> Seq<char> {
    "unexpected byte 0x"@ + seq![hex_digit(c as int / 16), hex_digit(c as int % 16)]
}

/// The bytes of `null`.
pub open spec fn null_word() -> Seq<u8> {
    seq![0x6Eu8, 0x75, 0x6C, 0x6C]
}

/// The bytes of `true`.
pub open spec fn true_word() -> Seq<u8> {
    seq![0x74u8, 0x72, 0x75, 0x65]
}

/// The bytes of `false`.
pub open spec fn false_word() -> Seq<u8> {
    seq![0x66u8, 0x61, 0x6C, 0x73, 0x65]
}

/// The value starting at `pos` (after any whitespace).
pub open spec fn value_at(b: Seq<u8>, pos: int) -> Result<(JsonV, int), Seq<char>>
    decreases b.len() - pos, 3int,
{
    if pos < 0 || pos > b.len() {
        Err(Seq::empty())
    } else {
        proof {
            lemma_skip_ws(b, pos);
        }
        let p = skip_ws(b, pos);
        if p >= b.len() {
            Err(at("unexpected end of input"@, p))
        } else {
            let c = b[p];
            if c == 0x6E {
                literal_at(b, p, null_word(), JsonV::Null)
            } else if c == 0x74 {
                literal_at(b, p, true_word(), JsonV::Bool(true))
            } else if c == 0x66 {
                literal_at(b, p, false_word(), JsonV::Bool(false))
            } else if c == 0x22 {
                match string_at(b, p) {
                    Ok((t, q)) => Ok((JsonV::Str(t), q)),
                    Err(m) => Err(m),
                }
            } else if c == 0x5B {
                array_at(b, p)
            } else if c == 0x7B {
                object_at(b, p)
            } else if c == 0x2D || is_digit(c) {
                number_at(b, p)
            } else {
                Err(unexpected_byte(c))
            }
        }
    }
}

/// The array whose `[` is at `p`.
pub open spec fn array_at(b: Seq<u8>, p: int) -> Result<(JsonV, int), Seq<char>>
    decreases b.len() - p, 2int,
{
    if p < 0 || p >= b.len() {
        Err(Seq::empty())
    } else {
        proof {
            lemma_skip_ws(b, p + 1);
        }
        let q = skip_ws(b, p + 1);
        if q < b.len() && b[q] == 0x5D {
            Ok((JsonV::Arr(Seq::empty()), q + 1))
        } else {
            array_items(b, q, Seq::empty())
        }
    }
}

/// The rest of an array from `pos`, with `acc` the items read so far.
pub open spec fn array_items(b: Seq<u8>, pos: int, acc: Seq<JsonV>) -> Result<(JsonV, int), Seq<char>>
    decreases b.len() - pos, 4int,
{
    if pos < 0 || pos > b.len() {
        Err(Seq::empty())
    } else {
        match value_at(b, pos) {
            Err(m) => Err(m),
            Ok((v, q)) => if q <= pos || q > b.len() {
                Err(Seq::empty())
            } else {
                proof {
                    lemma_skip_ws(b, q);
                }
                let r = skip_ws(b, q);
                if r >= b.len() {
                    Err(at("unterminated array"@, r))
                } else if b[r] == 0x2C {
                    array_items(b, r + 1, acc.push(v))
                } else if b[r] == 0x5D {
                    Ok((JsonV::Arr(acc.push(v)), r + 1))
                } else {
                    Err(at("expected ',' or ']'"@, r))
                }
            },
        }
    }
}

/// The object whose `{` is at `p`.
pub open spec fn object_at(b: Seq<u8>, p: int) -> Result<(JsonV, int), Seq<char>>
    decreases b.len() - p, 2int,
{
    if p < 0 || p >= b.len() {
        Err(Seq::empty())
    } else {
        proof {
            lemma_skip_ws(b, p + 1);
        }
        let q = skip_ws(b, p + 1);
        if q < b.len() && b[q] == 0x7D {
            Ok((JsonV::Obj(Seq::empty()), q + 1))
        } else {
            object_members(b, p + 1, Seq::empty())
        }
    }
}

/// The rest of an object from `pos`, with `acc` the members read so far.
pub open spec fn object_members(b: Seq<u8>, pos: int, acc: Seq<(Seq<char>, JsonV)>) -> Result<(JsonV, int), Seq<char>>
    decreases b.len() - pos, 4int,
{
    if pos < 0 || pos > b.len() {
        Err(Seq::empty())
    } else {
        proof {
            lemma_skip_ws(b, pos);
        }
        let k = skip_ws(b, pos);
        if k >= b.len() || b[k] != 0x22 {
            Err(at("expected string key"@, k))
        } else {
            match string_at(b, k) {
                Err(m) => Err(m),
                Ok((key, q)) => if q <= k || q > b.len() {
                    Err(Seq::empty())
                } else {
                    proof {
                        lemma_skip_ws(b, q);
                    }
                    let r = skip_ws(b, q);
                    if r >= b.len() {
                        Err(at("expected ':'"@, r))
                    } else if b[r] != 0x3A {
                        Err(at("expected ':'"@, r + 1))
                    } else {
                        match value_at(b, r + 1) {
                            Err(m) => Err(m),
                            Ok((v, s)) => if s <= r + 1 || s > b.len() {
                                Err(Seq::empty())
                            } else {
                                proof {
                                    lemma_skip_ws(b, s);
                                }
                                let t = skip_ws(b, s);
                                if t >= b.len() {
                                    Err(at("unterminated object"@, t))
                                } else if b[t] == 0x2C {
                                    object_members(b, t + 1, acc.push((key, v)))
                                } else if b[t] == 0x7D {
                                    Ok((JsonV::Obj(acc.push((key, v))), t + 1))
                                } else {
                                    Err(at("expected ',' or '}'"@, t))
                                }
                            },
                        }
                    }
                },
            }
        }
    }
}

/// What parsing a whole document gives: its value, or the error message;
/// only whitespace may follow the value.
pub open spec fn parsed(b: Seq<u8>) -> Result<JsonV, Seq<char>> {
    match value_at(b, 0) {
        Err(m) => Err(m),
        Ok((v, q)) => if skip_ws(b, q) == b.len() {
            Ok(v)
        } else {
            Err(at("trailing bytes"@, skip_ws(b, q)))
        },
    }
}

// ---------------------------------------------------------------------------
// The parser.
/// What a parse step gives, as models.
pub open spec fn step_view(r: Result<(Json, usize), ParseError>) -> Result<(JsonV, int), Seq<char>> {
    match r {
        Ok((j, q)) => Ok((jview(j), q as int)),
        Err(e) => Err(e.0@),
    }
}

/// The error `msg` at byte `pos`.
fn err_at(msg: &str, pos: usize) -> (e: ParseError)
    ensures
        e.0@ == at(msg@, pos as int),
{
    let mut out: Vec<char> = Vec::new();
    push_str(&mut out, msg);
    push_str(&mut out, " at byte ");
    push_decimal(&mut out, pos as u64);
    ParseError(string_from_chars(out.as_slice()))
}

/// The position after the whitespace at `pos`.
fn skip_white(b: &[u8], pos: usize) -> (r: usize)
    requires
        pos <= b@.len(),
    ensures
        r as int == skip_ws(b@, pos as int),
        pos <= r <= b@.len(),
{
    proof {
        lemma_skip_ws(b@, pos as int);
    }
    let mut p = pos;
    while p < b.len() && (b[p] == 0x20 || b[p] == 0x09 || b[p] == 0x0A || b[p] == 0x0D)
        invariant
            pos <= p <= b@.len(),
            skip_ws(b@, p as int) == skip_ws(b@, pos as int),
        decreases b@.len() - p,
    {
        p = p + 1;
    }
    p
}

/// The value of a hexadecimal digit.
fn hex_val(c: u8) -> (r: Option<u32>)
    ensures
        match r {
            Some(d) => hex_value(c) == Some(d as int) && d < 16,
            None => hex_value(c) is None,
        },
{
    if 0x30 <= c && c <= 0x39 {
        Some((c - 0x30) as u32)
    } else if 0x61 <= c && c <= 0x66 {
        Some((c - 0x61 + 10) as u32)
    } else if 0x41 <= c && c <= 0x46 {
        Some((c - 0x41 + 10) as u32)
    } else {
        None
    }
}

/// The four hexadecimal digits at `q`.
fn parse_hex4(b: &[u8], q: usize) -> (r: Result<u32, ParseError>)
    requires
        q <= b@.len(),
    ensures
        match r {
            Ok(v) => hex_digits(b@, q as int, 0, 4) == Ok::<int, Seq<char>>(v as int) && q + 4 <= b@.len() && v <= 0xFFFF,
            Err(e) => hex_digits(b@, q as int, 0, 4) == Err::<int, Seq<char>>(e.0@),
        },
{
    proof {
        lemma_pow16_values();
    }
    let n = b.len();
    let mut v: u32 = 0;
    let mut i: usize = 0;
    while i < 4
        invariant
            i <= 4,
            n == b@.len(),
            pow16(4) == 0x10000,
            q + i <= b@.len(),
            v < pow16(i as nat),
            hex_digits(b@, q as int, 0, 4) == hex_digits(b@, q + i, v as int, (4 - i) as nat),
        decreases 4 - i,
    {
        if q + i >= n {
            return Err(err_at("bad \\u escape", q + i));
        }
        match hex_val(b[q + i]) {
            Some(d) => {
                proof {
                    lemma_pow16_step(i as nat, v as int, d as int);
                }
                v = v * 16 + d;
            },
            None => {
                return Err(err_at("bad \\u escape", q + i + 1));
            },
        }
        i = i + 1;
    }
    Ok(v)
}

/// Sixteen to the power `n`.
pub open spec fn pow16(n: nat) -> int
    decreases n,
{
    if n == 0 {
        1
    } else {
        16 * pow16((n - 1) as nat)
    }
}

proof fn lemma_pow16_values()
    ensures
        pow16(0) == 1,
        pow16(1) == 16,
        pow16(2) == 256,
        pow16(3) == 4096,
        pow16(4) == 0x10000,
{
    reveal_with_fuel(pow16, 5);
}

proof fn lemma_pow16_step(i: nat, v: int, d: int)
    requires
        i < 4,
        0 <= v < pow16(i),
        0 <= d < 16,
    ensures
        v * 16 + d < pow16(i + 1),
        pow16(i + 1) <= 0x10000,
{
    lemma_pow16_values();
}

/// Appends the UTF-8 encoding of a scalar value.
fn push_scalar(out: &mut Vec<u8>, cp: u32)
    requires
        vstd::utf8::is_scalar(cp),
    ensures
        final(out)@ == old(out)@ + encode_scalar(cp),
{
    let ghost o = out@;
    if cp <= 0x7F {
        out.push((cp & 0x7F) as u8);
        assert(out@ =~= o + encode_scalar(cp));
    } else if cp <= 0x7FF {
        out.push(0xC0 | ((cp >> 6) & 0x1F) as u8);
        out.push(0x80 | (cp & 0x3F) as u8);
        assert(out@ =~= o + encode_scalar(cp));
    } else if cp <= 0xFFFF {
        out.push(0xE0 | ((cp >> 12) & 0x0F) as u8);
        out.push(0x80 | ((cp >> 6) & 0x3F) as u8);
        out.push(0x80 | (cp & 0x3F) as u8);
        assert(out@ =~= o + encode_scalar(cp));
    } else {
        out.push(0xF0 | ((cp >> 18) & 0x7) as u8);
        out.push(0x80 | ((cp >> 12) & 0x3F) as u8);
        out.push(0x80 | ((cp >> 6) & 0x3F) as u8);
        out.push(0x80 | (cp & 0x3F) as u8);
        assert(out@ =~= o + encode_scalar(cp));
    }
}

/// Whether `v` is a Unicode scalar value (what `char::from_u32` accepts).
fn is_scalar_value(v: u32) -> (r: bool)
    ensures
        r == vstd::utf8::is_scalar(v),
{
    v <= 0x7F || (0x80 <= v && v <= 0x7FF) || (0x800 <= v && v <= 0xFFFF && !(0xD800 <= v && v <= 0xDFFF)) || (
    0x10000 <= v && v <= 0x10FFFF)
}

/// Reads a `\u` escape whose digits start at `q`, appending the bytes it
/// stands for; gives the position after it.
fn unicode_escape_into(b: &[u8], q: usize, out: &mut Vec<u8>) -> (r: Result<usize, ParseError>)
    requires
        q <= b@.len(),
    ensures
        match r {
            Ok(np) => unicode_escape(b@, q as int) matches Ok((bytes, np2)) && np2 == np as int && final(out)@
                == old(out)@ + bytes && q + 4 <= np <= b@.len(),
            Err(e) => unicode_escape(b@, q as int) == Err::<(Seq<u8>, int), Seq<char>>(e.0@),
        },
{
    let n = b.len();
    let hi = match parse_hex4(b, q) {
        Ok(v) => v,
        Err(e) => {
            return Err(e);
        },
    };
    let r = q + 4;
    if 0xD800 <= hi && hi < 0xDC00 {
        if r < n && b[r] == 0x5C && r + 1 < n && b[r + 1] == 0x75 {
            let lo = match parse_hex4(b, r + 2) {
                Ok(v) => v,
                Err(e) => {
                    return Err(e);
                },
            };
            if !(0xDC00 <= lo && lo < 0xE000) {
                return Err(err_at("bad low surrogate", r + 6));
            }
            let cp: u32 = 0x10000 + (hi - 0xD800) * 1024 + (lo - 0xDC00);
            if is_scalar_value(cp) {
                push_scalar(out, cp);
                Ok(r + 6)
            } else {
                Err(err_at("bad codepoint", r + 6))
            }
        } else {
            let r1 = if r < n {
                r + 1
            } else {
                r
            };
            let r2 = if r1 < n {
                r1 + 1
            } else {
                r1
            };
            Err(err_at("lone high surrogate", r2))
        }
    } else if 0xDC00 <= hi && hi < 0xE000 {
        Err(err_at("lone low surrogate", r))
    } else if is_scalar_value(hi) {
        push_scalar(out, hi);
        Ok(r)
    } else {
        Err(err_at("bad codepoint", r))
    }
}

/// Reads the string whose opening quote is at `p`.
fn parse_string(b: &[u8], p: usize) -> (r: Result<(String, usize), ParseError>)
    requires
        p < b@.len(),
    ensures
        match r {
            Ok((t, q)) => string_at(b@, p as int) == Ok::<(Seq<char>, int), Seq<char>>((t@, q as int)) && p < q
                <= b@.len(),
            Err(e) => string_at(b@, p as int) == Err::<(Seq<char>, int), Seq<char>>(e.0@),
        },
{
    let n = b.len();
    let mut out: Vec<u8> = Vec::new();
    let mut pos = p + 1;
    loop
        invariant
            p + 1 <= pos <= n,
            n == b@.len(),
            string_at(b@, p as int) == string_body(b@, pos as int, out@),
        decreases n - pos,
    {
        if pos >= n {
            return Err(err_at("unterminated string", pos));
        }
        let c = b[pos];
        if c == 0x22 {
            match utf8_text(out.as_slice()) {
                Some(t) => {
                    proof {
                        vstd::utf8::encode_utf8_decode_utf8(t@);
                    }
                    return Ok((t.to_owned(), pos + 1));
                },
                None => {
                    return Err(ParseError("invalid UTF-8".to_owned()));
                },
            }
        } else if c == 0x5C {
            if pos + 1 >= n {
                return Err(err_at("unterminated escape", pos + 1));
            }
            let e = b[pos + 1];
            if e == 0x22 || e == 0x5C || e == 0x2F {
                out.push(e);
                pos = pos + 2;
            } else if e == 0x62 {
                out.push(0x08);
                pos = pos + 2;
            } else if e == 0x66 {
                out.push(0x0C);
                pos = pos + 2;
            } else if e == 0x6E {
                out.push(0x0A);
                pos = pos + 2;
            } else if e == 0x72 {
                out.push(0x0D);
                pos = pos + 2;
            } else if e == 0x74 {
                out.push(0x09);
                pos = pos + 2;
            } else if e == 0x75 {
                match unicode_escape_into(b, pos + 2, &mut out) {
                    Ok(np) => {
                        pos = np;
                    },
                    Err(m) => {
                        return Err(m);
                    },
                }
            } else {
                return Err(err_at("bad escape", pos + 2));
            }
        } else if c < 0x20 {
            return Err(err_at("unescaped control character", pos + 1));
        } else {
            out.push(c);
            pos = pos + 1;
        }
    }
}

/// The end of the run of digits at `q`.
fn digits_end(b: &[u8], q: usize) -> (r: usize)
    requires
        q <= b@.len(),
    ensures
        r as int == scan_digits(b@, q as int),
        q <= r <= b@.len(),
{
    let mut i = q;
    while i < b.len() && 0x30 <= b[i] && b[i] <= 0x39
        invariant
            q <= i <= b@.len(),
            scan_digits(b@, i as int) == scan_digits(b@, q as int),
        decreases b@.len() - i,
    {
        i = i + 1;
    }
    i
}

/// The bytes from `from` to `to`, as characters.
fn ascii_string(b: &[u8], from: usize, to: usize) -> (s: String)
    requires
        from <= to <= b@.len(),
    ensures
        s@ == ascii_chars(b@.subrange(from as int, to as int)),
{
    let mut cs: Vec<char> = Vec::new();
    let mut i = from;
    while i < to
        invariant
            from <= i <= to,
            to <= b@.len(),
            cs@ == ascii_chars(b@.subrange(from as int, i as int)),
        decreases to - i,
    {
        cs.push(b[i] as char);
        proof {
            assert(ascii_chars(b@.subrange(from as int, i + 1)) =~= ascii_chars(b@.subrange(from as int, i as int)).push(
                b@[i as int] as char,
            ));
        }
        i = i + 1;
    }
    string_from_chars(cs.as_slice())
}

/// Reads the number starting at `p`.
fn parse_number(b: &[u8], p: usize) -> (r: Result<(Json, usize), ParseError>)
    requires
        p < b@.len(),
    ensures
        step_view(r) == number_at(b@, p as int),
        r matches Ok((_, q)) ==> p < q <= b@.len(),
{
    let n = b.len();
    let q0 = if b[p] == 0x2D {
        p + 1
    } else {
        p
    };
    let q1 = digits_end(b, q0);
    let mut q2 = q1;
    let mut frac: usize = 0;
    if q1 < n && b[q1] == 0x2E {
        let e = digits_end(b, q1 + 1);
        frac = e - (q1 + 1);
        q2 = e;
    }
    let digits = (q1 - q0) + frac;
    let mut end = q2;
    if q2 < n && (b[q2] == 0x65 || b[q2] == 0x45) {
        let q4 = if q2 + 1 < n && (b[q2 + 1] == 0x2B || b[q2 + 1] == 0x2D) {
            q2 + 2
        } else {
            q2 + 1
        };
        let q5 = digits_end(b, q4);
        if q5 == q4 {
            return Err(err_at("bad exponent", q5));
        }
        if digits == 0 {
            return Err(err_at("bad number", q5));
        }
        end = q5;
    } else if digits == 0 {
        return Err(err_at("bad number", q2));
    }
    let text = ascii_string(b, p, end);
    Ok((Json::Num(text), end))
}

/// Whether the bytes at `p` are `w`.
fn bytes_at(b: &[u8], p: usize, w: &Vec<u8>) -> (r: bool)
    requires
        p <= b@.len(),
    ensures
        r == (p + w@.len() <= b@.len() && b@.subrange(p as int, p + w@.len()) == w@),
{
    let n = b.len();
    if w.len() > n - p {
        return false;
    }
    let mut i: usize = 0;
    while i < w.len()
        invariant
            n == b@.len(),
            i <= w@.len(),
            p + w@.len() <= b@.len(),
            forall|k: int| 0 <= k < i ==> b@[p + k] == w@[k],
        decreases w@.len() - i,
    {
        if b[p + i] != w[i] {
            assert(b@.subrange(p as int, p + w@.len())[i as int] != w@[i as int]);
            return false;
        }
        i = i + 1;
    }
    assert(b@.subrange(p as int, p + w@.len()) =~= w@);
    true
}

/// The bytes of a literal word of four or five letters.
fn word_of(c0: u8, c1: u8, c2: u8, c3: u8, c4: Option<u8>) -> (v: Vec<u8>)
    ensures
        v@ == match c4 {
            Some(c) => seq![c0, c1, c2, c3, c],
            None => seq![c0, c1, c2, c3],
        },
{
    let mut v: Vec<u8> = Vec::new();
    v.push(c0);
    v.push(c1);
    v.push(c2);
    v.push(c3);
    match c4 {
        Some(c) => {
            v.push(c);
        },
        None => {},
    }
    assert(v@ =~= match c4 {
        Some(c) => seq![c0, c1, c2, c3, c],
        None => seq![c0, c1, c2, c3],
    });
    v
}

/// Reads the literal `w` at `p`, standing for `v`.
fn parse_literal(b: &[u8], p: usize, w: &Vec<u8>, v: Json) -> (r: Result<(Json, usize), ParseError>)
    requires
        p <= b@.len(),
        w@.len() > 0,
    ensures
        step_view(r) == literal_at(b@, p as int, w@, jview(v)),
        r matches Ok((_, q)) ==> p < q <= b@.len(),
{
    let n = b.len();
    if bytes_at(b, p, w) {
        assert(p + w@.len() <= n);
        Ok((v, p + w.len()))
    } else {
        Err(err_at("invalid literal", p))
    }
}

/// The hexadecimal digit for a value below sixteen.
fn hex_char(n: u8) -> (c: char)
    requires
        n < 16,
    ensures
        c == hex_digit(n as int),
{
    if n < 10 {
        (48 + n) as char
    } else {
        (87 + n) as char
    }
}

/// The hexadecimal digit for a value below sixteen.
fn hex_char32(n: u32) -> (c: char)
    requires
        n < 16,
    ensures
        c == hex_digit(n as int),
{
    hex_char(n as u8)
}

/// The message for an unexpected byte (see `unexpected_byte`).
fn unexpected_byte_message(c: u8) -> (s: String)
    ensures
        s@ == unexpected_byte(c),
{
    let mut out: Vec<char> = Vec::new();
    push_str(&mut out, "unexpected byte 0x");
    out.push(hex_char(c / 16));
    out.push(hex_char(c % 16));
    proof {
        assert(out@ =~= unexpected_byte(c));
    }
    string_from_chars(out.as_slice())
}

proof fn lemma_items_view_same(a: Vec<Json>, b: Vec<Json>, k: int)
    requires
        0 <= k <= a@.len(),
        k <= b@.len(),
        forall|i: int| 0 <= i < k ==> a@[i] == b@[i],
    ensures
        items_view(a, k) == items_view(b, k),
    decreases k,
{
    if k > 0 {
        lemma_items_view_same(a, b, k - 1);
    }
}

proof fn lemma_items_view_push(a: Vec<Json>, b: Vec<Json>, x: Json)
    requires
        b@ == a@.push(x),
    ensures
        items_view(b, b@.len() as int) == items_view(a, a@.len() as int).push(jview(x)),
{
    lemma_items_view_same(a, b, a@.len() as int);
}

proof fn lemma_pairs_view_same(a: Vec<(String, Json)>, b: Vec<(String, Json)>, k: int)
    requires
        0 <= k <= a@.len(),
        k <= b@.len(),
        forall|i: int| 0 <= i < k ==> a@[i] == b@[i],
    ensures
        pairs_view(a, k) == pairs_view(b, k),
    decreases k,
{
    if k > 0 {
        lemma_pairs_view_same(a, b, k - 1);
    }
}

proof fn lemma_pairs_view_push(a: Vec<(String, Json)>, b: Vec<(String, Json)>, x: (String, Json))
    requires
        b@ == a@.push(x),
    ensures
        pairs_view(b, b@.len() as int) == pairs_view(a, a@.len() as int).push((x.0@, jview(x.1))),
{
    lemma_pairs_view_same(a, b, a@.len() as int);
}

/// Reads the value at `pos` (after any whitespace).
fn parse_value(b: &[u8], pos: usize) -> (r: Result<(Json, usize), ParseError>)
    requires
        pos <= b@.len(),
    ensures
        step_view(r) == value_at(b@, pos as int),
        r matches Ok((_, q)) ==> pos < q <= b@.len(),
    decreases b@.len() - pos, 3int,
{
    let n = b.len();
    let p = skip_white(b, pos);
    if p >= n {
        return Err(err_at("unexpected end of input", p));
    }
    let c = b[p];
    if c == 0x6E {
        parse_literal(b, p, &word_of(0x6E, 0x75, 0x6C, 0x6C, None), Json::Null)
    } else if c == 0x74 {
        parse_literal(b, p, &word_of(0x74, 0x72, 0x75, 0x65, None), Json::Bool(true))
    } else if c == 0x66 {
        parse_literal(b, p, &word_of(0x66, 0x61, 0x6C, 0x73, Some(0x65)), Json::Bool(false))
    } else if c == 0x22 {
        match parse_string(b, p) {
            Ok((t, q)) => Ok((Json::Str(t), q)),
            Err(e) => Err(e),
        }
    } else if c == 0x5B {
        parse_array(b, p)
    } else if c == 0x7B {
        parse_object(b, p)
    } else if c == 0x2D || (0x30 <= c && c <= 0x39) {
        parse_number(b, p)
    } else {
        Err(ParseError(unexpected_byte_message(c)))
    }
}

/// Reads the array whose `[` is at `p`.
fn parse_array(b: &[u8], p: usize) -> (r: Result<(Json, usize), ParseError>)
    requires
        p < b@.len(),
    ensures
        step_view(r) == array_at(b@, p as int),
        r matches Ok((_, q)) ==> p < q <= b@.len(),
    decreases b@.len() - p, 2int,
{
    let n = b.len();
    let q = skip_white(b, p + 1);
    if q < n && b[q] == 0x5D {
        return Ok((Json::Arr(Vec::new()), q + 1));
    }
    let mut items: Vec<Json> = Vec::new();
    let mut cur = q;
    loop
        invariant
            p < cur <= n,
            n == b@.len(),
            array_at(b@, p as int) == array_items(b@, cur as int, items_view(items, items@.len() as int)),
        decreases n - cur,
    {
        let (v, q2) = match parse_value(b, cur) {
            Ok(x) => x,
            Err(e) => {
                return Err(e);
            },
        };
        let r = skip_white(b, q2);
        if r >= n {
            return Err(err_at("unterminated array", r));
        }
        if b[r] == 0x2C {
            let ghost before = items;
            let ghost vv = v;
            items.push(v);
            proof {
                lemma_items_view_push(before, items, vv);
            }
            cur = r + 1;
        } else if b[r] == 0x5D {
            let ghost before = items;
            let ghost vv = v;
            items.push(v);
            proof {
                lemma_items_view_push(before, items, vv);
            }
            return Ok((Json::Arr(items), r + 1));
        } else {
            return Err(err_at("expected ',' or ']'", r));
        }
    }
}

/// Reads the object whose `{` is at `p`.
fn parse_object(b: &[u8], p: usize) -> (r: Result<(Json, usize), ParseError>)
    requires
        p < b@.len(),
    ensures
        step_view(r) == object_at(b@, p as int),
        r matches Ok((_, q)) ==> p < q <= b@.len(),
    decreases b@.len() - p, 2int,
{
    let n = b.len();
    let q = skip_white(b, p + 1);
    if q < n && b[q] == 0x7D {
        return Ok((Json::Obj(Vec::new()), q + 1));
    }
    let mut pairs: Vec<(String, Json)> = Vec::new();
    let mut cur = p + 1;
    loop
        invariant
            p < cur <= n,
            n == b@.len(),
            object_at(b@, p as int) == object_members(b@, cur as int, pairs_view(pairs, pairs@.len() as int)),
        decreases n - cur,
    {
        let k = skip_white(b, cur);
        if k >= n || b[k] != 0x22 {
            return Err(err_at("expected string key", k));
        }
        let (key, q1) = match parse_string(b, k) {
            Ok(x) => x,
            Err(e) => {
                return Err(e);
            },
        };
        let r = skip_white(b, q1);
        if r >= n {
            return Err(err_at("expected ':'", r));
        }
        if b[r] != 0x3A {
            return Err(err_at("expected ':'", r + 1));
        }
        let (v, s2) = match parse_value(b, r + 1) {
            Ok(x) => x,
            Err(e) => {
                return Err(e);
            },
        };
        let t = skip_white(b, s2);
        if t >= n {
            return Err(err_at("unterminated object", t));
        }
        if b[t] == 0x2C {
            let ghost before = pairs;
            let ghost kv = (key, v);
            pairs.push((key, v));
            proof {
                lemma_pairs_view_push(before, pairs, kv);
            }
            cur = t + 1;
        } else if b[t] == 0x7D {
            let ghost before = pairs;
            let ghost kv = (key, v);
            pairs.push((key, v));
            proof {
                lemma_pairs_view_push(before, pairs, kv);
            }
            return Ok((Json::Obj(pairs), t + 1));
        } else {
            return Err(err_at("expected ',' or '}'", t));
        }
    }
}

/// Parses one complete JSON document (see `parsed`); anything but
/// whitespace after the value is an error.
pub fn parse_json(bytes: &[u8]) -> (r: Result<Json, ParseError>)
    ensures
        match r {
            Ok(j) => parsed(bytes@) == Ok::<JsonV, Seq<char>>(jview(j)),
            Err(e) => parsed(bytes@) == Err::<JsonV, Seq<char>>(e.0@),
        },
{
    let (v, q) = match parse_value(bytes, 0) {
        Ok(x) => x,
        Err(e) => {
            return Err(e);
        },
    };
    let r = skip_white(bytes, q);
    if r == bytes.len() {
        Ok(v)
    } else {
        Err(err_at("trailing bytes", r))
    }
}

// ---------------------------------------------------------------------------
// Access.
/// The value of the first member named `key`, in an object.
pub open spec fn member(v: JsonV, key: Seq<char>) -> Option<JsonV> {
    match v {
        JsonV::Obj(ps) => first_member(ps, key, 0),
        _ => None,
    }
}

/// The value of the first member from position `i` on named `key`.
pub open spec fn first_member(ps: Seq<(Seq<char>, JsonV)>, key: Seq<char>, i: int) -> Option<JsonV>
    decreases ps.len() - i,
{
    if i < 0 || i >= ps.len() {
        None
    } else if ps[i].0 == key {
        Some(ps[i].1)
    } else {
        first_member(ps, key, i + 1)
    }
}

proof fn lemma_pairs_view_index(pairs: Vec<(String, Json)>, k: int, i: int)
    requires
        0 <= i < k <= pairs@.len(),
    ensures
        pairs_view(pairs, k).len() == k,
        pairs_view(pairs, k)[i] == (pairs@[i].0@, jview(pairs@[i].1)),
    decreases k,
{
    if i < k - 1 {
        lemma_pairs_view_index(pairs, k - 1, i);
    }
    lemma_pairs_view_len(pairs, k - 1);
}

proof fn lemma_pairs_view_len(pairs: Vec<(String, Json)>, k: int)
    requires
        0 <= k <= pairs@.len(),
    ensures
        pairs_view(pairs, k).len() == k,
    decreases k,
{
    if k > 0 {
        lemma_pairs_view_len(pairs, k - 1);
    }
}

proof fn lemma_items_view_index(items: Vec<Json>, k: int, i: int)
    requires
        0 <= i < k <= items@.len(),
    ensures
        items_view(items, k).len() == k,
        items_view(items, k)[i] == jview(items@[i]),
    decreases k,
{
    if i < k - 1 {
        lemma_items_view_index(items, k - 1, i);
    }
    lemma_items_view_len(items, k - 1);
}

proof fn lemma_items_view_len(items: Vec<Json>, k: int)
    requires
        0 <= k <= items@.len(),
    ensures
        items_view(items, k).len() == k,
    decreases k,
{
    if k > 0 {
        lemma_items_view_len(items, k - 1);
    }
}

impl Json {
    /// The value of the first member named `key`, when this is an object.
    pub fn get(&self, key: &str) -> (r: Option<&Json>)
        ensures
            match r {
                Some(x) => member(jview(*self), key@) == Some(jview(*x)),
                None => member(jview(*self), key@) is None,
            },
    {
        match self {
            Json::Obj(pairs) => {
                let ghost ps = pairs_view(*pairs, pairs@.len() as int);
                proof {
                    lemma_pairs_view_len(*pairs, pairs@.len() as int);
                }
                let wanted = crate::text::chars_of(key);
                let mut i: usize = 0;
                while i < pairs.len()
                    invariant
                        i <= pairs@.len(),
                        ps == pairs_view(*pairs, pairs@.len() as int),
                        ps.len() == pairs@.len(),
                        first_member(ps, key@, 0) == first_member(ps, key@, i as int),
                        wanted@ == key@,
                        *self == Json::Obj(*pairs),
                    decreases pairs@.len() - i,
                {
                    proof {
                        lemma_pairs_view_index(*pairs, pairs@.len() as int, i as int);
                    }
                    if crate::text::chars_eq_str(wanted.as_slice(), pairs[i].0.as_str()) {
                        assert(*self == Json::Obj(*pairs));
                        assert(jview(*self) == JsonV::Obj(ps));
                        assert(ps[i as int].0 == key@);
                        assert(first_member(ps, key@, i as int) == Some(ps[i as int].1));
                        return Some(&pairs[i].1);
                    }
                    i = i + 1;
                }
                None
            },
            _ => None,
        }
    }

    /// The text, when this is a string.
    pub fn as_str(&self) -> (r: Option<&str>)
        ensures
            match r {
                Some(s) => jview(*self) == JsonV::Str(s@),
                None => !(jview(*self) is Str),
            },
    {
        match self {
            Json::Str(s) => Some(s.as_str()),
            _ => None,
        }
    }
}

// ---------------------------------------------------------------------------
// The serializer.
/// A character as it is written inside a string literal.
pub open spec fn escape_char(c: char) -> Seq<char> {
    if c == '"' {
        seq!['\\', '"']
    } else if c == '\\' {
        seq!['\\', '\\']
    } else if c == '\n' {
        seq!['\\', 'n']
    } else if c == '\r' {
        seq!['\\', 'r']
    } else if c == '\t' {
        seq!['\\', 't']
    } else if c == '\u{0008}' {
        seq!['\\', 'b']
    } else if c == '\u{000C}' {
        seq!['\\', 'f']
    } else if (c as u32) < 0x20 {
        seq!['\\', 'u', '0', '0', hex_digit((c as u32) as int / 16), hex_digit((c as u32) as int % 16)]
    } else {
        seq![c]
    }
}

/// Text as it is written inside a string literal.
pub open spec fn escaped(s: Seq<char>) -> Seq<char>
    decreases s.len(),
{
    if s.len() == 0 {
        Seq::empty()
    } else {
        escaped(s.drop_last()) + escape_char(s.last())
    }
}

/// A string literal.
pub open spec fn quoted(s: Seq<char>) -> Seq<char> {
    seq!['"'] + escaped(s) + seq!['"']
}

/// The compact text of a value (no whitespace; a number as its text).
pub open spec fn rendered(v: JsonV) -> Seq<char>
    decreases v, 0int,
{
    match v {
        JsonV::Null => seq!['n', 'u', 'l', 'l'],
        JsonV::Bool(b) => if b {
            seq!['t', 'r', 'u', 'e']
        } else {
            seq!['f', 'a', 'l', 's', 'e']
        },
        JsonV::Num(t) => t,
        JsonV::Str(s) => quoted(s),
        JsonV::Arr(items) => seq!['['] + rendered_items(items, items.len() as int) + seq![']'],
        JsonV::Obj(ps) => seq!['{'] + rendered_members(ps, ps.len() as int) + seq!['}'],
    }
}

/// The first `k` items, comma-separated.
pub open spec fn rendered_items(items: Seq<JsonV>, k: int) -> Seq<char>
    decreases items, k,
{
    if k <= 0 || k > items.len() {
        Seq::empty()
    } else if k == 1 {
        rendered(items[0])
    } else {
        rendered_items(items, k - 1) + seq![','] + rendered(items[k - 1])
    }
}

/// The first `k` members, comma-separated.
pub open spec fn rendered_members(ps: Seq<(Seq<char>, JsonV)>, k: int) -> Seq<char>
    decreases ps, k,
{
    if k <= 0 || k > ps.len() {
        Seq::empty()
    } else if k == 1 {
        quoted(ps[0].0) + seq![':'] + rendered(ps[0].1)
    } else {
        rendered_members(ps, k - 1) + seq![','] + quoted(ps[k - 1].0) + seq![':'] + rendered(ps[k - 1].1)
    }
}

/// Appends `s` as it is written inside a string literal.
fn escape_into(out: &mut Vec<char>, s: &str)
    ensures
        final(out)@ == old(out)@ + escaped(s@),
{
    let cs = crate::text::chars_of(s);
    let mut i: usize = 0;
    while i < cs.len()
        invariant
            i <= cs@.len(),
            cs@ == s@,
            out@ == old(out)@ + escaped(cs@.take(i as int)),
        decreases cs@.len() - i,
    {
        let c = cs[i];
        let ghost o = out@;
        if c == '"' {
            out.push('\\');
            out.push('"');
        } else if c == '\\' {
            out.push('\\');
            out.push('\\');
        } else if c == '\n' {
            out.push('\\');
            out.push('n');
        } else if c == '\r' {
            out.push('\\');
            out.push('r');
        } else if c == '\t' {
            out.push('\\');
            out.push('t');
        } else if c == '\u{0008}' {
            out.push('\\');
            out.push('b');
        } else if c == '\u{000C}' {
            out.push('\\');
            out.push('f');
        } else if (c as u32) < 0x20 {
            let v = c as u32;
            out.push('\\');
            out.push('u');
            out.push('0');
            out.push('0');
            out.push(hex_char32(v / 16));
            out.push(hex_char32(v % 16));
        } else {
            out.push(c);
        }
        proof {
            assert(cs@.take(i + 1).drop_last() =~= cs@.take(i as int));
            assert(out@ =~= o + escape_char(c));
        }
        i = i + 1;
    }
    proof {
        assert(cs@.take(cs@.len() as int) =~= cs@);
    }
}

/// Appends the characters of `s`.
fn push_chars(out: &mut Vec<char>, s: &str)
    ensures
        final(out)@ == old(out)@ + s@,
{
    push_str(out, s);
}

/// Appends the compact text of `val`.
fn render_into(out: &mut Vec<char>, val: &Json)
    ensures
        final(out)@ == old(out)@ + rendered(jview(*val)),
    decreases val,
{
    let ghost o = out@;
    match val {
        Json::Null => {
            out.push('n');
            out.push('u');
            out.push('l');
            out.push('l');
            assert(out@ =~= o + rendered(jview(*val)));
        },
        Json::Bool(b) => {
            if *b {
                out.push('t');
                out.push('r');
                out.push('u');
                out.push('e');
            } else {
                out.push('f');
                out.push('a');
                out.push('l');
                out.push('s');
                out.push('e');
            }
            assert(out@ =~= o + rendered(jview(*val)));
        },
        Json::Num(t) => {
            push_chars(out, t.as_str());
        },
        Json::Str(s) => {
            out.push('"');
            escape_into(out, s.as_str());
            out.push('"');
            assert(out@ =~= o + rendered(jview(*val)));
        },
        Json::Arr(items) => {
            let ghost iv = items_view(*items, items@.len() as int);
            proof {
                lemma_items_view_len(*items, items@.len() as int);
            }
            out.push('[');
            let mut i: usize = 0;
            while i < items.len()
                invariant
                    i <= items@.len(),
                    iv == items_view(*items, items@.len() as int),
                    iv.len() == items@.len(),
                    *val == Json::Arr(*items),
                    out@ == o + seq!['['] + rendered_items(iv, i as int),
                decreases items@.len() - i,
            {
                proof {
                    lemma_items_view_index(*items, items@.len() as int, i as int);
                }
                let ghost before = out@;
                if i > 0 {
                    out.push(',');
                }
                proof {
                    assert(*val == Json::Arr(*items));
                    assert(decreases_to!(*val => (*val)->Arr_0));
                    assert((*val)->Arr_0 == *items);
                    vstd::std_specs::vec::axiom_vec_index_decreases(*items, i as int);
                    assert(decreases_to!(*items => items@[i as int]));
                    assert(decreases_to!(*val => items@[i as int]));
                }
                render_into(out, &items[i]);
                proof {
                    if i == 0 {
                        assert(out@ =~= o + seq!['['] + rendered_items(iv, 1));
                    } else {
                        assert(out@ =~= o + seq!['['] + rendered_items(iv, i + 1));
                    }
                }
                i = i + 1;
            }
            out.push(']');
            assert(out@ =~= o + rendered(jview(*val)));
        },
        Json::Obj(pairs) => {
            let ghost pv = pairs_view(*pairs, pairs@.len() as int);
            proof {
                lemma_pairs_view_len(*pairs, pairs@.len() as int);
            }
            out.push('{');
            let mut i: usize = 0;
            while i < pairs.len()
                invariant
                    i <= pairs@.len(),
                    pv == pairs_view(*pairs, pairs@.len() as int),
                    pv.len() == pairs@.len(),
                    *val == Json::Obj(*pairs),
                    out@ == o + seq!['{'] + rendered_members(pv, i as int),
                decreases pairs@.len() - i,
            {
                proof {
                    lemma_pairs_view_index(*pairs, pairs@.len() as int, i as int);
                }
                if i > 0 {
                    out.push(',');
                }
                out.push('"');
                escape_into(out, pairs[i].0.as_str());
                out.push('"');
                out.push(':');
                proof {
                    assert(decreases_to!(*val => (*val)->Obj_0));
                    assert((*val)->Obj_0 == *pairs);
                    vstd::std_specs::vec::axiom_vec_index_decreases(*pairs, i as int);
                    assert(decreases_to!(*pairs => pairs@[i as int]));
                    assert(decreases_to!(pairs@[i as int] => pairs@[i as int].1));
                    assert(decreases_to!(*val => pairs@[i as int].1));
                }
                render_into(out, &pairs[i].1);
                proof {
                    if i == 0 {
                        assert(out@ =~= o + seq!['{'] + rendered_members(pv, 1));
                    } else {
                        assert(out@ =~= o + seq!['{'] + rendered_members(pv, i + 1));
                    }
                }
                i = i + 1;
            }
            out.push('}');
            assert(out@ =~= o + rendered(jview(*val)));
        },
    }
}

/// The compact text of a value (see `rendered`).
pub fn render_json(val: &Json) -> (s: String)
    ensures
        s@ == rendered(jview(*val)),
{
    let mut out: Vec<char> = Vec::new();
    render_into(&mut out, val);
    string_from_chars(out.as_slice())
}

// ---------------------------------------------------------------------------
// Numbers in the standard grammar
// ---------------------------------------------------------------------------

/// Whether every byte is a decimal digit.
pub open spec fn all_decimal(s: Seq<u8>) -> bool {
    forall|i: int| 0 <= i < s.len() ==> is_digit(#[trigger] s[i])
}

/// The integer part of a JSON number (RFC 8259): `0`, or a digit `1`-`9`
/// followed by digits.
pub open spec fn rfc_int(s: Seq<u8>) -> bool {
    s == seq![0x30u8] || (s.len() > 0 && 0x31 <= s[0] <= 0x39 && all_decimal(s))
}

/// The fraction part of a JSON number: nothing, or `.` and one or more
/// digits.
pub open spec fn rfc_frac(s: Seq<u8>) -> bool {
    s.len() == 0 || (s.len() >= 2 && s[0] == 0x2E && all_decimal(s.drop_first()))
}

/// The exponent part of a JSON number: nothing, or `e` or `E`, an optional
/// `+` or `-`, and one or more digits.
pub open spec fn rfc_exp(s: Seq<u8>) -> bool {
    ||| s.len() == 0
    ||| s.len() >= 2 && (s[0] == 0x65 || s[0] == 0x45) && all_decimal(s.drop_first())
    ||| s.len() >= 3 && (s[0] == 0x65 || s[0] == 0x45) && (s[1] == 0x2B || s[1] == 0x2D) && all_decimal(
        s.skip(2),
    )
}

proof fn lemma_scan_run(b: Seq<u8>, a: int, e: int)
    requires
        0 <= a <= e <= b.len(),
        forall|i: int| a <= i < e ==> is_digit(#[trigger] b[i]),
        e == b.len() || !is_digit(b[e]),
    ensures
        scan_digits(b, a) == e,
    decreases e - a,
{
    if a < e {
        lemma_scan_run(b, a + 1, e);
    }
}

/// A document that is one number written in the standard JSON grammar
/// (an optional `-`, an integer part, an optional fraction, an optional
/// exponent whose sign may be `+` or `-`) parses to that number, its text
/// kept as written.
pub proof fn lemma_standard_numbers_parse(sign: Seq<u8>, int_part: Seq<u8>, frac: Seq<u8>, exp: Seq<u8>)
    requires
        sign.len() == 0 || sign == seq![0x2Du8],
        rfc_int(int_part),
        rfc_frac(frac),
        rfc_exp(exp),
    ensures
        parsed(sign + int_part + frac + exp) == Ok::<JsonV, Seq<char>>(
            JsonV::Num(ascii_chars(sign + int_part + frac + exp)),
        ),
{
    let t = sign + int_part + frac + exp;
    let n = t.len() as int;
    let q0 = sign.len() as int;
    let q1 = q0 + int_part.len();
    let q2 = q1 + frac.len();
    assert(int_part.len() > 0);
    assert forall|i: int| q0 <= i < q1 implies is_digit(#[trigger] t[i]) by {
        assert(t[i] == int_part[i - q0]);
        if int_part != seq![0x30u8] {
            assert(is_digit(int_part[i - q0]));
        }
    }
    assert(t[0] == 0x2D || is_digit(t[0])) by {
        if sign.len() == 0 {
            assert(t[0] == int_part[0]);
        } else {
            assert(t[0] == sign[0]);
        }
    }
    assert(!is_ws(t[0]));
    assert(skip_ws(t, 0) == 0);
    if q1 < n {
        assert(t[q1] == 0x2E || t[q1] == 0x65 || t[q1] == 0x45) by {
            if frac.len() > 0 {
                assert(t[q1] == frac[0]);
            } else {
                assert(t[q1] == exp[0]);
            }
        }
    }
    lemma_scan_run(t, q0, q1);
    assert(scan_digits(t, q0) == q1);
    if frac.len() > 0 {
        assert(t[q1] == 0x2E);
        assert forall|i: int| q1 + 1 <= i < q2 implies is_digit(#[trigger] t[i]) by {
            assert(t[i] == frac[i - q1]);
            assert(frac.drop_first()[i - q1 - 1] == frac[i - q1]);
        }
        if q2 < n {
            assert(t[q2] == exp[0]);
        }
        lemma_scan_run(t, q1 + 1, q2);
    } else {
        if q1 < n {
            assert(t[q1] != 0x2E);
        }
    }
    if exp.len() > 0 {
        assert(t[q2] == exp[0]);
        assert(t[q2] == 0x65 || t[q2] == 0x45);
        if exp.len() >= 3 && (exp[1] == 0x2B || exp[1] == 0x2D) && all_decimal(exp.skip(2)) {
            assert(t[q2 + 1] == exp[1]);
            assert forall|i: int| q2 + 2 <= i < n implies is_digit(#[trigger] t[i]) by {
                assert(t[i] == exp[i - q2]);
                assert(exp.skip(2)[i - q2 - 2] == exp[i - q2]);
            }
            lemma_scan_run(t, q2 + 2, n);
        } else {
            assert(all_decimal(exp.drop_first()));
            assert(t[q2 + 1] == exp[1]);
            assert(is_digit(exp.drop_first()[0]));
            assert(t[q2 + 1] != 0x2B && t[q2 + 1] != 0x2D);
            assert forall|i: int| q2 + 1 <= i < n implies is_digit(#[trigger] t[i]) by {
                assert(t[i] == exp[i - q2]);
                assert(exp.drop_first()[i - q2 - 1] == exp[i - q2]);
            }
            lemma_scan_run(t, q2 + 1, n);
        }
    }
    assert(t.subrange(0, n) =~= t);
    assert(number_at(t, 0) == Ok::<(JsonV, int), Seq<char>>((JsonV::Num(ascii_chars(t)), n)));
    assert(value_at(t, 0) == number_at(t, 0));
}

} // verus!
