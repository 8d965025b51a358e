//! DAP wire framing: messages travel as a `Content-Length: N` header block,
//! ended by a blank line, followed by N bytes of body.
use vstd::prelude::*;
use vstd::utf8::{decode_utf8, encode_utf8, valid_utf8};
use vstd::string::StringSliceAdditionalSpecFns;
use crate::module_loader::searcher::{is_white_space, skip_white_back, skip_white_from, trim_chars, trimmed};
use crate::text::{chars_of, copy_chars, decimal, digit_char, push_decimal, push_str, string_from_chars};

pub mod json;
pub mod round_trip;

pub use self::json::{parse_json, render_json, Json, JsonV};

verus! {

/// A JSON document that could not be parsed, with the reason.
#[derive(Debug, PartialEq)]
pub struct ParseError(pub String);

impl ParseError {
    /// The error as a message.
    pub fn message(&self) -> (r: String)
        ensures
            r@ == "json parse error: "@ + self.0@,
    {
        let mut out: Vec<char> = Vec::new();
        push_str(&mut out, "json parse error: ");
        push_str(&mut out, self.0.as_str());
        string_from_chars(out.as_slice())
    }
}

/// Why a framed message could not be read.
#[derive(Clone, Copy, Debug, PartialEq, Eq, Structural)]
pub enum FramingError {
    /// A header line is not UTF-8.
    InvalidUtf8,
    /// The header block ended without a usable `Content-Length`.
    MissingContentLength,
    /// The input ended inside the body.
    UnexpectedEof,
}

impl FramingError {
    /// The error as a message.
    pub fn message(&self) -> (r: &'static str)
        ensures
            r@ == match *self {
                FramingError::InvalidUtf8 => "stream did not contain valid UTF-8"@,
                FramingError::MissingContentLength => "missing Content-Length"@,
                FramingError::UnexpectedEof => "failed to fill whole buffer"@,
            },
    {
        match self {
            FramingError::InvalidUtf8 => "stream did not contain valid UTF-8",
            FramingError::MissingContentLength => "missing Content-Length",
            FramingError::UnexpectedEof => "failed to fill whole buffer",
        }
    }
}

/// The text of a UTF-8 byte string (`std::str::from_utf8`): present exactly
/// when the bytes are valid UTF-8, and then encoded by exactly those bytes.
#[verifier::external_body]
pub(crate) fn utf8_text(bytes: &[u8]) -> (r: Option<&str>)
    ensures
        r is Some <==> valid_utf8(bytes@),
        r matches Some(s) ==> s.spec_bytes() == bytes@,
{
    match std::str::from_utf8(bytes) {
        Ok(s) => Some(s),
        Err(_) => None,
    }
}

/// The value of a decimal digit character.
pub open spec fn digit_value(c: char) -> nat {
    (c as u32 - '0' as u32) as nat
}

/// Whether every character is a decimal digit.
pub open spec fn all_digits(d: Seq<char>) -> bool {
    forall|i: int| 0 <= i < d.len() ==> '0' <= #[trigger] d[i] <= '9'
}

/// The number the decimal digits `d` spell.
pub open spec fn digits_value(d: Seq<char>) -> nat
    decreases d.len(),
{
    if d.len() == 0 {
        0
    } else {
        digits_value(d.drop_last()) * 10 + digit_value(d.last())
    }
}

/// What `usize::from_str` makes of `s`: an optional `+` and at least one
/// decimal digit, with a value that fits in a `usize`.
pub open spec fn parse_usize(s: Seq<char>) -> Option<nat> {
    let d = if s.len() > 0 && s[0] == '+' {
        s.skip(1)
    } else {
        s
    };
    if d.len() > 0 && all_digits(d) && digits_value(d) <= usize::MAX {
        Some(digits_value(d))
    } else {
        None
    }
}

proof fn lemma_digits_grow(d: Seq<char>, i: int, j: int)
    requires
        0 <= i <= j <= d.len(),
    ensures
        digits_value(d.take(i)) <= digits_value(d.take(j)),
    decreases j - i,
{
    if i < j {
        lemma_digits_grow(d, i, j - 1);
        assert(d.take(j).drop_last() =~= d.take(j - 1));
    }
}

/// The number a string of characters holds, as `usize::from_str` reads it.
pub fn parse_usize_chars(s: &[char]) -> (r: Option<usize>)
    ensures
        match r {
            Some(v) => parse_usize(s@) == Some(v as nat),
            None => parse_usize(s@) is None,
        },
{
    let start: usize = if s.len() > 0 && s[0] == '+' {
        1
    } else {
        0
    };
    let ghost d = if s@.len() > 0 && s@[0] == '+' {
        s@.skip(1)
    } else {
        s@
    };
    assert(d =~= s@.skip(start as int));
    if start >= s.len() {
        assert(d.len() == 0);
        return None;
    }
    let mut v: usize = 0;
    let mut i: usize = start;
    while i < s.len()
        invariant
            start <= i <= s@.len(),
            d == s@.skip(start as int),
            d == (if s@.len() > 0 && s@[0] == '+' {
                s@.skip(1)
            } else {
                s@
            }),
            all_digits(d.take(i - start)),
            v as nat == digits_value(d.take(i - start)),
        decreases s@.len() - i,
    {
        let c = s[i];
        assert(d.take(i - start + 1).drop_last() =~= d.take(i - start));
        assert(d.take(i - start + 1).last() == c);
        if c < '0' || c > '9' {
            assert(!all_digits(d)) by {
                assert(d[i - start] == c);
            }
            return None;
        }
        let dv: usize = ((c as u32) - ('0' as u32)) as usize;
        match v.checked_mul(10) {
            None => {
                proof {
                    lemma_digits_grow(d, i - start + 1, d.len() as int);
                    assert(d.take(d.len() as int) =~= d);
                }
                return None;
            },
            Some(m) => match m.checked_add(dv) {
                None => {
                    proof {
                        lemma_digits_grow(d, i - start + 1, d.len() as int);
                        assert(d.take(d.len() as int) =~= d);
                    }
                    return None;
                },
                Some(n) => {
                    v = n;
                },
            },
        }
        i = i + 1;
    }
    assert(d.take(d.len() as int) =~= d);
    Some(v)
}

/// The end of the line that starts at `pos`: just past its `\n`, or the end
/// of the input.
pub open spec fn line_end(input: Seq<u8>, pos: int) -> int
    decreases input.len() - pos,
{
    if pos >= input.len() || pos < 0 {
        input.len() as int
    } else if input[pos] == 10u8 {
        pos + 1
    } else {
        line_end(input, pos + 1)
    }
}

pub proof fn lemma_line_end(input: Seq<u8>, pos: int)
    requires
        0 <= pos < input.len(),
    ensures
        pos < line_end(input, pos) <= input.len(),
    decreases input.len() - pos,
{
    if input[pos] != 10u8 {
        if pos + 1 < input.len() {
            lemma_line_end(input, pos + 1);
        } else {
            assert(line_end(input, pos + 1) == input.len());
        }
    }
}

/// `s` without its trailing `\r` and `\n` characters.
pub open spec fn trim_newlines_end(s: Seq<char>) -> Seq<char>
    decreases s.len(),
{
    if s.len() > 0 && (s.last() == '\r' || s.last() == '\n') {
        trim_newlines_end(s.drop_last())
    } else {
        s
    }
}

/// A length as a mathematical number.
pub open spec fn opt_nat(o: Option<usize>) -> Option<nat> {
    match o {
        Some(v) => Some(v as nat),
        None => None,
    }
}

/// The name of the length header.
pub open spec fn length_header() -> Seq<char> {
    "Content-Length:"@
}

/// The content length a header line leaves, given the one before it: a
/// `Content-Length:` line sets it to its value (or to none, when that is
/// not a number); other lines leave it.
pub open spec fn header_length(line: Seq<char>, before: Option<nat>) -> Option<nat> {
    let n = length_header().len() as int;
    if n <= line.len() && line.take(n) == length_header() {
        parse_usize(trimmed(line.skip(n)))
    } else {
        before
    }
}

/// Reads header lines from `pos`, with the content length `len` so far.
/// The outcome is `(0, _, _)` when the input ends before a blank line,
/// `(1, e, _)` when the line ending at `e` is not UTF-8, and `(2, e, len)`
/// when the blank line ending at `e` closes the block with length `len`.
pub open spec fn scan_headers(input: Seq<u8>, pos: int, len: Option<nat>) -> (int, int, Option<nat>)
    decreases input.len() - pos,
{
    if pos >= input.len() || pos < 0 {
        (0, input.len() as int, len)
    } else {
        let e = line_end(input, pos);
        let line = input.subrange(pos, e);
        proof {
            lemma_line_end(input, pos);
        }
        if !valid_utf8(line) {
            (1, e, len)
        } else {
            let t = trim_newlines_end(decode_utf8(line));
            if t.len() == 0 {
                (2, e, len)
            } else {
                scan_headers(input, e, header_length(t, len))
            }
        }
    }
}

/// What reading one message at `pos` gives, and where reading stops: input
/// that ends before any header byte gives no message; input that ends after
/// a header byte but before the header block closes is cut short (an
/// error, stopping at the end); a header line that is not UTF-8, a block without a usable
/// length, or a body cut short is an error (the last stops at the end).
pub open spec fn read_outcome(input: Seq<u8>, pos: int) -> (Result<Option<Seq<u8>>, FramingError>, int) {
    let (kind, end, len) = scan_headers(input, pos, None);
    if kind == 0 {
        if pos >= input.len() {
            (Ok(None), input.len() as int)
        } else {
            (Err(FramingError::UnexpectedEof), input.len() as int)
        }
    } else if kind == 1 {
        (Err(FramingError::InvalidUtf8), end)
    } else {
        match len {
            None => (Err(FramingError::MissingContentLength), end),
            Some(n) => if end + n <= input.len() {
                (Ok(Some(input.subrange(end, end + n))), end + n)
            } else {
                (Err(FramingError::UnexpectedEof), input.len() as int)
            },
        }
    }
}

/// A read result with the body as a sequence of bytes.
pub open spec fn message_view(r: Result<Option<Vec<u8>>, FramingError>) -> Result<Option<Seq<u8>>, FramingError> {
    match r {
        Ok(Some(b)) => Ok(Some(b@)),
        Ok(None) => Ok(None),
        Err(e) => Err(e),
    }
}

/// Reads one framed message from `input` at `*pos`, moving `*pos` past what
/// was read (see `read_outcome`).
pub fn read_message(input: &[u8], pos: &mut usize) -> (r: Result<Option<Vec<u8>>, FramingError>)
    requires
        *old(pos) <= input@.len(),
    ensures
        message_view(r) == read_outcome(input@, *old(pos) as int).0,
        *final(pos) == read_outcome(input@, *old(pos) as int).1,
{
    let start = *pos;
    let mut len: Option<usize> = None;
    loop
        invariant
            start == *old(pos) <= *pos <= input@.len(),
            scan_headers(input@, *old(pos) as int, None) == scan_headers(input@, *pos as int, opt_nat(len)),
        decreases input@.len() - *pos,
    {
        let p = *pos;
        if p >= input.len() {
            assert(scan_headers(input@, p as int, opt_nat(len)).0 == 0);
            *pos = input.len();
            if p == start {
                return Ok(None);
            }
            return Err(FramingError::UnexpectedEof);
        }
        let mut e: usize = p;
        while e < input.len() && input[e] != 10u8
            invariant
                p <= e <= input@.len(),
                line_end(input@, p as int) == line_end(input@, e as int),
            decreases input@.len() - e,
        {
            e = e + 1;
        }
        if e < input.len() {
            e = e + 1;
        }
        proof {
            lemma_line_end(input@, p as int);
        }
        assert(e == line_end(input@, p as int));
        let line: &[u8] = slice_range(input, p, e);
        let text = match utf8_text(line) {
            None => {
                assert(scan_headers(input@, p as int, opt_nat(len)) == (1int, e as int, opt_nat(len)));
                *pos = e;
                return Err(FramingError::InvalidUtf8);
            },
            Some(t) => t,
        };
        proof {
            vstd::utf8::decode_utf8_encode_utf8(line@);
            vstd::utf8::encode_utf8_decode_utf8(text@);
        }
        assert(text@ == decode_utf8(line@));
        let cs = chars_of(text);
        let mut t_end: usize = cs.len();
        assert(cs@.take(cs@.len() as int) =~= cs@);
        while t_end > 0 && (cs[t_end - 1] == '\r' || cs[t_end - 1] == '\n')
            invariant
                t_end <= cs@.len(),
                trim_newlines_end(cs@) == trim_newlines_end(cs@.take(t_end as int)),
            decreases t_end,
        {
            assert(cs@.take(t_end as int).drop_last() =~= cs@.take(t_end - 1));
            t_end = t_end - 1;
        }
        let t = copy_chars(cs.as_slice(), 0, t_end);
        assert(t@ =~= cs@.take(t_end as int));
        assert(trim_newlines_end(t@) == t@);
        *pos = e;
        if t.len() == 0 {
            match len {
                None => {
                    return Err(FramingError::MissingContentLength);
                },
                Some(n) => {
                    if n > input.len() - e {
                        *pos = input.len();
                        return Err(FramingError::UnexpectedEof);
                    }
                    let body = copy_bytes(input, e, e + n);
                    *pos = e + n;
                    return Ok(Some(body));
                },
            }
        }
        let header = chars_of("Content-Length:");
        proof {
            reveal_strlit("Content-Length:");
        }
        if header.len() <= t.len() && starts_with_chars(t.as_slice(), header.as_slice()) {
            let rest = copy_chars(t.as_slice(), header.len(), t.len());
            let value = trim_chars(rest.as_slice());
            len = parse_usize_chars(value.as_slice());
            assert(rest@ =~= t@.skip(header@.len() as int));
        } else {
            assert(!(length_header().len() <= t@.len() && t@.take(length_header().len() as int)
                == length_header()));
        }
    }
}

/// Whether `s` begins with `prefix`.
fn starts_with_chars(s: &[char], prefix: &[char]) -> (r: bool)
    requires
        prefix@.len() <= s@.len(),
    ensures
        r == (s@.take(prefix@.len() as int) == prefix@),
{
    let mut i: usize = 0;
    while i < prefix.len()
        invariant
            prefix@.len() <= s@.len(),
            i <= prefix@.len(),
            forall|k: int| 0 <= k < i ==> s@[k] == prefix@[k],
        decreases prefix@.len() - i,
    {
        if s[i] != prefix[i] {
            assert(s@.take(prefix@.len() as int)[i as int] != prefix@[i as int]);
            return false;
        }
        i = i + 1;
    }
    assert(s@.take(prefix@.len() as int) =~= prefix@);
    true
}

/// The bytes `v[from..to]`, as a slice.
fn slice_range(v: &[u8], from: usize, to: usize) -> (r: &[u8])
    requires
        from <= to <= v@.len(),
    ensures
        r@ == v@.subrange(from as int, to as int),
{
    let (head, _) = v.split_at(to);
    let (_, mid) = head.split_at(from);
    assert(mid@ =~= v@.subrange(from as int, to as int));
    mid
}

/// The bytes `v[from..to]`, copied.
fn copy_bytes(v: &[u8], from: usize, to: usize) -> (r: Vec<u8>)
    requires
        from <= to <= v@.len(),
    ensures
        r@ == v@.subrange(from as int, to as int),
{
    let mut r: Vec<u8> = Vec::new();
    let mut i = from;
    while i < to
        invariant
            from <= i <= to <= v@.len(),
            r@ == v@.subrange(from as int, i as int),
        decreases to - i,
    {
        r.push(v[i]);
        assert(v@.subrange(from as int, i + 1) =~= v@.subrange(from as int, i as int).push(v@[i as int]));
        i = i + 1;
    }
    r
}

/// The bytes of ASCII text.
pub open spec fn ascii_bytes(s: Seq<char>) -> Seq<u8> {
    s.map_values(|c: char| c as u8)
}

/// The header block of a message whose body is `n` bytes long.
pub open spec fn frame_header(n: nat) -> Seq<u8> {
    ascii_bytes("Content-Length: "@ + decimal(n) + "\r\n\r\n"@)
}

/// Appends one framed message, header block then body, to `out`.
pub fn write_message(out: &mut Vec<u8>, body: &[u8])
    ensures
        final(out)@ == old(out)@ + frame_header(body@.len()) + body@,
{
    let mut head: Vec<char> = Vec::new();
    push_str(&mut head, "Content-Length: ");
    push_decimal(&mut head, body.len() as u64);
    push_str(&mut head, "\r\n\r\n");
    assert(head@ =~= "Content-Length: "@ + decimal(body@.len()) + "\r\n\r\n"@);
    let ghost before = out@;
    let mut i: usize = 0;
    while i < head.len()
        invariant
            i <= head@.len(),
            out@ == before + ascii_bytes(head@.take(i as int)),
        decreases head@.len() - i,
    {
        out.push(head[i] as u8);
        assert(ascii_bytes(head@.take(i + 1)) =~= ascii_bytes(head@.take(i as int)).push(head@[i as int] as u8));
        i = i + 1;
    }
    assert(head@.take(head@.len() as int) =~= head@);
    let ghost mid = out@;
    let mut j: usize = 0;
    while j < body.len()
        invariant
            j <= body@.len(),
            out@ == mid + body@.take(j as int),
        decreases body@.len() - j,
    {
        out.push(body[j]);
        assert(body@.take(j + 1) =~= body@.take(j as int).push(body@[j as int]));
        j = j + 1;
    }
    assert(body@.take(body@.len() as int) =~= body@);
    assert(out@ =~= before + frame_header(body@.len()) + body@);
}

/// Whether every character is ASCII.
pub open spec fn is_ascii_text(s: Seq<char>) -> bool {
    forall|i: int| 0 <= i < s.len() ==> (#[trigger] s[i] as u32) < 128
}

pub(crate) proof fn lemma_ascii_utf8(s: Seq<char>)
    requires
        is_ascii_text(s),
    ensures
        encode_utf8(s) == ascii_bytes(s),
        valid_utf8(ascii_bytes(s)),
        decode_utf8(ascii_bytes(s)) == s,
    decreases s.len(),
{
    if s.len() > 0 {
        assert(is_ascii_text(s.drop_first())) by {
            assert forall|i: int| 0 <= i < s.drop_first().len() implies (#[trigger] s.drop_first()[i] as u32)
                < 128 by {
                assert(s.drop_first()[i] == s[i + 1]);
            }
        }
        lemma_ascii_utf8(s.drop_first());
        let v = s[0] as u32;
        assert(v < 128);
        assert((v & 0x7f) as u8 == v as u8) by (bit_vector)
            requires
                v < 128u32,
        ;
        assert(ascii_bytes(s) =~= seq![s[0] as u8] + ascii_bytes(s.drop_first()));
    } else {
        assert(ascii_bytes(s) =~= Seq::<u8>::empty());
    }
    vstd::utf8::encode_utf8_valid_utf8(s);
    vstd::utf8::encode_utf8_decode_utf8(s);
}

proof fn lemma_line_end_at(input: Seq<u8>, p: int, q: int)
    requires
        0 <= p <= q < input.len(),
        input[q] == 10u8,
        forall|i: int| p <= i < q ==> input[i] != 10u8,
    ensures
        line_end(input, p) == q + 1,
    decreases q - p,
{
    if p < q {
        lemma_line_end_at(input, p + 1, q);
    }
}

proof fn lemma_digit_char(d: nat)
    requires
        d < 10,
    ensures
        '0' <= digit_char(d) <= '9',
        digit_value(digit_char(d)) == d,
{
}

proof fn lemma_decimal(n: nat)
    ensures
        decimal(n).len() >= 1,
        all_digits(decimal(n)),
        digits_value(decimal(n)) == n,
    decreases n,
{
    if n < 10 {
        lemma_digit_char(n);
        assert(decimal(n).drop_last() =~= Seq::<char>::empty());
        assert(digits_value(Seq::<char>::empty()) == 0);
        assert(digits_value(decimal(n)) == digits_value(decimal(n).drop_last()) * 10 + digit_value(
            decimal(n).last(),
        ));
    } else {
        lemma_decimal(n / 10);
        lemma_digit_char(n % 10);
        let d = decimal(n);
        assert(d.drop_last() =~= decimal(n / 10));
        assert(d.last() == digit_char(n % 10));
        assert((n / 10) * 10 + n % 10 == n) by (nonlinear_arith);
        assert(digits_value(d) == digits_value(decimal(n / 10)) * 10 + digit_value(digit_char(n % 10)));
        assert forall|i: int| 0 <= i < d.len() implies '0' <= #[trigger] d[i] <= '9' by {
            if i < d.len() - 1 {
                assert(d[i] == decimal(n / 10)[i]);
            }
        }
    }
}

proof fn lemma_digits_not_white(d: Seq<char>, i: int)
    requires
        all_digits(d),
        0 <= i < d.len(),
    ensures
        !is_white_space(d[i]),
        (d[i] as u32) < 128,
        d[i] != '\n',
        d[i] != '\r',
        d[i] != '+',
{
    assert('0' <= d[i] <= '9');
}

proof fn lemma_trim_space_digits(d: Seq<char>)
    requires
        d.len() >= 1,
        all_digits(d),
    ensures
        trimmed(seq![' '] + d) == d,
{
    let s = seq![' '] + d;
    lemma_digits_not_white(d, 0);
    lemma_digits_not_white(d, d.len() - 1);
    assert(s[1] == d[0]);
    assert(skip_white_from(s, 1) == 1);
    assert(skip_white_from(s, 0) == 1);
    assert(s[s.len() - 1] == d[d.len() - 1]);
    assert(skip_white_back(s, s.len() as int) == s.len());
    assert(s.subrange(1, s.len() as int) =~= d);
}

/// Reading back a framed message gives exactly its body, and stops right
/// after it, whatever follows.
pub proof fn lemma_read_of_write(body: Seq<u8>, rest: Seq<u8>)
    requires
        body.len() <= usize::MAX,
    ensures
        read_outcome(frame_header(body.len()) + body + rest, 0) == (
            Ok::<Option<Seq<u8>>, FramingError>(Some(body)),
            (frame_header(body.len()).len() + body.len()) as int,
        ),
{
    let n = body.len();
    reveal_strlit("Content-Length: ");
    reveal_strlit("Content-Length:");
    reveal_strlit("\r\n\r\n");
    lemma_decimal(n);
    let dec = decimal(n);
    let a = "Content-Length: "@ + dec;
    let crlf = seq!['\r', '\n'];
    let l1 = a + crlf;
    let hdr = l1 + crlf;
    assert(hdr =~= "Content-Length: "@ + decimal(n) + "\r\n\r\n"@);
    assert(is_ascii_text(hdr)) by {
        assert forall|i: int| 0 <= i < hdr.len() implies (#[trigger] hdr[i] as u32) < 128 by {
            if 16 <= i < 16 + dec.len() {
                lemma_digits_not_white(dec, i - 16);
                assert(hdr[i] == dec[i - 16]);
            }
        }
    }
    let input = frame_header(n) + body + rest;
    let e1 = l1.len() as int;
    assert(frame_header(n) == ascii_bytes(hdr));
    assert forall|i: int| 0 <= i < hdr.len() implies input[i] == #[trigger] hdr[i] as u8 by {
        assert(ascii_bytes(hdr)[i] == hdr[i] as u8);
    }
    assert forall|i: int| 0 <= i < e1 - 1 implies input[i] != 10u8 by {
        assert(input[i] == hdr[i] as u8);
        if 16 <= i < 16 + dec.len() {
            lemma_digits_not_white(dec, i - 16);
            assert(hdr[i] == dec[i - 16]);
        }
        assert((hdr[i] as u32) < 128);
    }
    assert(input[e1 - 1] == hdr[e1 - 1] as u8);
    lemma_line_end_at(input, 0, e1 - 1);
    assert(is_ascii_text(l1)) by {
        assert forall|i: int| 0 <= i < l1.len() implies (#[trigger] l1[i] as u32) < 128 by {
            assert(l1[i] == hdr[i]);
        }
    }
    assert(input.subrange(0, e1) =~= ascii_bytes(l1)) by {
        assert forall|i: int| 0 <= i < e1 implies #[trigger] input.subrange(0, e1)[i] == ascii_bytes(l1)[i] by {
            assert(l1[i] == hdr[i]);
            assert(input[i] == hdr[i] as u8);
        }
    }
    lemma_ascii_utf8(l1);
    lemma_digits_not_white(dec, dec.len() - 1);
    assert(l1.drop_last() =~= a + seq!['\r']);
    assert((a + seq!['\r']).drop_last() =~= a);
    assert(a.last() == dec.last());
    assert(dec.last() == dec[dec.len() - 1]);
    assert(trim_newlines_end(a) == a);
    assert(trim_newlines_end(a + seq!['\r']) == trim_newlines_end(a));
    assert(trim_newlines_end(l1) == a);
    assert(a.take(15) =~= "Content-Length:"@);
    assert(a.skip(15) =~= seq![' '] + dec);
    lemma_trim_space_digits(dec);
    lemma_digits_not_white(dec, 0);
    assert(parse_usize(dec) == Some(n));
    assert(header_length(a, None) == Some(n));
    assert(scan_headers(input, 0, None) == scan_headers(input, e1, Some(n)));
    assert(input[e1] == 13u8 && input[e1 + 1] == 10u8) by {
        assert(input[e1] == hdr[e1] as u8);
        assert(input[e1 + 1] == hdr[e1 + 1] as u8);
    }
    lemma_line_end_at(input, e1, e1 + 1);
    assert(input.subrange(e1, e1 + 2) =~= ascii_bytes(crlf));
    assert(is_ascii_text(crlf));
    lemma_ascii_utf8(crlf);
    assert(crlf.drop_last() =~= seq!['\r']);
    assert(seq!['\r'].drop_last() =~= Seq::<char>::empty());
    assert(trim_newlines_end(Seq::<char>::empty()) =~= Seq::<char>::empty());
    assert(trim_newlines_end(seq!['\r']) == trim_newlines_end(Seq::<char>::empty()));
    assert(trim_newlines_end(crlf) =~= Seq::<char>::empty());
    assert(scan_headers(input, e1, Some(n)) == (2int, e1 + 2, Some(n)));
    assert(input.subrange(e1 + 2, e1 + 2 + n) =~= body);
}

} // verus!
