//! What the serializer writes, the parser reads back.
use vstd::prelude::*;
use vstd::utf8::{decode_utf8, encode_scalar, encode_utf8, valid_utf8};

use crate::dap_json::json::{
    array_at, array_items, ascii_chars, escape_char, escaped, false_word, hex_digit, hex_digits, hex_value, is_digit,
    is_ws, literal_at, null_word, number_at, object_at, object_members, parsed, quoted, rendered, rendered_items,
    rendered_members, scan_digits, skip_ws, string_at, string_body, true_word, unicode_escape, value_at, JsonV,
};
use crate::dap_json::{ascii_bytes, is_ascii_text, lemma_ascii_utf8};

verus! {

/// Whether the bytes of `b` at `q` are `x`.
pub open spec fn at_bytes(b: Seq<u8>, q: int, x: Seq<u8>) -> bool {
    0 <= q && q + x.len() <= b.len() && b.subrange(q, q + x.len()) == x
}

proof fn lemma_at_concat(b: Seq<u8>, q: int, x: Seq<u8>, y: Seq<u8>)
    requires
        at_bytes(b, q, x + y),
    ensures
        at_bytes(b, q, x),
        at_bytes(b, q + x.len(), y),
{
    let w = b.subrange(q, q + x.len() + y.len());
    assert(w == x + y);
    assert forall|i: int| 0 <= i < x.len() implies #[trigger] b.subrange(q, q + x.len())[i] == x[i] by {
        assert(w[i] == (x + y)[i]);
    }
    assert(b.subrange(q, q + x.len()) =~= x);
    assert forall|i: int| 0 <= i < y.len() implies #[trigger] b.subrange(q + x.len(), q + x.len() + y.len())[i]
        == y[i] by {
        assert(w[x.len() + i] == (x + y)[x.len() + i]);
    }
    assert(b.subrange(q + x.len(), q + x.len() + y.len()) =~= y);
}

proof fn lemma_at_index(b: Seq<u8>, q: int, x: Seq<u8>, i: int)
    requires
        at_bytes(b, q, x),
        0 <= i < x.len(),
    ensures
        b[q + i] == x[i],
{
    assert(b.subrange(q, q + x.len())[i] == b[q + i]);
}

pub proof fn lemma_encode_concat(a: Seq<char>, c: Seq<char>)
    ensures
        encode_utf8(a + c) == encode_utf8(a) + encode_utf8(c),
    decreases a.len(),
{
    if a.len() == 0 {
        assert(a + c =~= c);
        assert(encode_utf8(a) =~= Seq::<u8>::empty());
        assert(encode_utf8(a) + encode_utf8(c) =~= encode_utf8(c));
    } else {
        assert((a + c).drop_first() =~= a.drop_first() + c);
        assert((a + c)[0] == a[0]);
        lemma_encode_concat(a.drop_first(), c);
        assert(encode_utf8(a + c) =~= encode_utf8(a) + encode_utf8(c));
    }
}

proof fn lemma_encode_one(c: char)
    ensures
        encode_utf8(seq![c]) == encode_scalar(c as u32),
{
    assert(seq![c].drop_first() =~= Seq::<char>::empty());
    assert(encode_utf8(Seq::<char>::empty()) =~= Seq::<u8>::empty());
    assert(encode_scalar(c as u32) + Seq::<u8>::empty() =~= encode_scalar(c as u32));
}

/// A scalar below 128 is encoded as itself.
proof fn lemma_scalar_ascii(v: u32)
    requires
        v < 128,
    ensures
        encode_scalar(v) == seq![v as u8],
{
    assert((v & 0x7f) as u8 == v as u8) by (bit_vector)
        requires
            v < 128u32,
    ;
}

/// Every byte of the encoding of a scalar of 128 or more is 128 or more.
proof fn lemma_scalar_high(v: u32)
    requires
        vstd::utf8::is_scalar(v),
        v >= 128,
    ensures
        forall|i: int| 0 <= i < encode_scalar(v).len() ==> #[trigger] encode_scalar(v)[i] >= 0x80,
{
    assert((0xC0u8 | ((v >> 6u32) & 0x1Fu32) as u8) >= 0x80u8) by (bit_vector);
    assert((0xE0u8 | ((v >> 12u32) & 0x0Fu32) as u8) >= 0x80u8) by (bit_vector);
    assert((0xF0u8 | ((v >> 18u32) & 0x7u32) as u8) >= 0x80u8) by (bit_vector);
    assert((0x80u8 | (v & 0x3Fu32) as u8) >= 0x80u8) by (bit_vector);
    assert((0x80u8 | ((v >> 6u32) & 0x3Fu32) as u8) >= 0x80u8) by (bit_vector);
    assert((0x80u8 | ((v >> 12u32) & 0x3Fu32) as u8) >= 0x80u8) by (bit_vector);
}

/// Whether a byte stands for itself inside a string literal.
pub open spec fn plain(x: u8) -> bool {
    x >= 0x20 && x != 0x22 && x != 0x5C
}

/// A run of plain bytes is copied as it is.
proof fn lemma_plain_run(b: Seq<u8>, q: int, m: int, out: Seq<u8>)
    requires
        0 <= q,
        0 <= m,
        q + m <= b.len(),
        forall|i: int| q <= i < q + m ==> plain(#[trigger] b[i]),
    ensures
        string_body(b, q, out) == string_body(b, q + m, out + b.subrange(q, q + m)),
    decreases m,
{
    if m == 0 {
        assert(out + b.subrange(q, q) =~= out);
    } else {
        assert(plain(b[q]));
        lemma_plain_run(b, q + 1, m - 1, out.push(b[q]));
        assert(out.push(b[q]) + b.subrange(q + 1, q + m) =~= out + b.subrange(q, q + m));
    }
}

/// Reading the value of a hexadecimal digit back.
proof fn lemma_hex_round(n: int)
    requires
        0 <= n < 16,
    ensures
        hex_value(hex_digit(n) as u8) == Some(n),
{
}

/// The bytes of one character as written in a string literal read back as
/// the character's own encoding.
proof fn lemma_char_step(b: Seq<u8>, q: int, out: Seq<u8>, c: char)
    requires
        at_bytes(b, q, encode_utf8(escape_char(c))),
    ensures
        string_body(b, q, out) == string_body(
            b,
            q + encode_utf8(escape_char(c)).len(),
            out + encode_scalar(c as u32),
        ),
{
    let e = escape_char(c);
    let x = encode_utf8(e);
    vstd::utf8::char_is_scalar(c);
    let v = c as u32;
    if v < 0x20 || c == '"' || c == '\\' {
        assert(is_ascii_text(e)) by {
            if v < 0x20 && !(c == '\n' || c == '\r' || c == '\t' || c == '\u{0008}' || c == '\u{000C}') {
                assert(v / 16 < 2);
            }
        }
        lemma_ascii_utf8(e);
        lemma_scalar_ascii(v);
        assert(x == ascii_bytes(e));
        lemma_at_index(b, q, x, 0);
        lemma_at_index(b, q, x, 1);
        assert(b[q] == 0x5C);
        if c == '"' || c == '\\' || c == '\n' || c == '\r' || c == '\t' || c == '\u{0008}' || c == '\u{000C}' {
            assert(x.len() == 2);
            assert(out.push(v as u8) =~= out + seq![v as u8]);
        } else {
            assert(x.len() == 6);
            lemma_at_index(b, q, x, 2);
            lemma_at_index(b, q, x, 3);
            lemma_at_index(b, q, x, 4);
            lemma_at_index(b, q, x, 5);
            lemma_hex_round(v as int / 16);
            lemma_hex_round(v as int % 16);
            assert(hex_digits(b, q + 2, 0, 4) == Ok::<int, Seq<char>>(v as int)) by {
                reveal_with_fuel(hex_digits, 5);
            }
            assert(unicode_escape(b, q + 2) == Ok::<(Seq<u8>, int), Seq<char>>((encode_scalar(v), q + 6)));
        }
    } else {
        assert(e == seq![c]);
        lemma_encode_one(c);
        assert(x == encode_scalar(v));
        if v < 128 {
            lemma_scalar_ascii(v);
        } else {
            lemma_scalar_high(v);
        }
        assert forall|i: int| q <= i < q + x.len() implies plain(#[trigger] b[i]) by {
            lemma_at_index(b, q, x, i - q);
        }
        lemma_plain_run(b, q, x.len() as int, out);
        assert(b.subrange(q, q + x.len()) == x);
    }
}

/// The bytes of a string literal read back as its text.
pub proof fn lemma_string_round_trip(b: Seq<u8>, p: int, s: Seq<char>)
    requires
        at_bytes(b, p, encode_utf8(quoted(s))),
    ensures
        string_at(b, p) == Ok::<(Seq<char>, int), Seq<char>>((s, p + encode_utf8(quoted(s)).len())),
{
    let body = encode_utf8(escaped(s));
    lemma_encode_concat(seq!['"'] + escaped(s), seq!['"']);
    lemma_encode_concat(seq!['"'], escaped(s));
    lemma_encode_one('"');
    lemma_scalar_ascii('"' as u32);
    let q0 = p + 1;
    assert(encode_utf8(quoted(s)) == seq![0x22u8] + body + seq![0x22u8]);
    lemma_at_concat(b, p, seq![0x22u8] + body, seq![0x22u8]);
    lemma_at_concat(b, p, seq![0x22u8], body);
    // step through the characters
    assert forall|k: int| 0 <= k <= s.len() implies string_body(b, q0, Seq::empty()) == string_body(
        b,
        q0 + #[trigger] encode_utf8(escaped(s.take(k))).len(),
        encode_utf8(s.take(k)),
    ) by {
        lemma_string_prefix(b, q0, s, k);
    }
    assert(s.take(s.len() as int) =~= s);
    let qe = q0 + body.len();
    lemma_at_index(b, p, encode_utf8(quoted(s)), body.len() as int + 1);
    assert(b[qe] == 0x22);
    vstd::utf8::encode_utf8_valid_utf8(s);
    vstd::utf8::encode_utf8_decode_utf8(s);
}

proof fn lemma_escaped_take(s: Seq<char>, k: int)
    requires
        0 <= k < s.len(),
    ensures
        escaped(s.take(k + 1)) == escaped(s.take(k)) + escape_char(s[k]),
        s.take(k + 1) == s.take(k) + seq![s[k]],
{
    assert(s.take(k + 1).drop_last() =~= s.take(k));
    assert(s.take(k + 1) =~= s.take(k) + seq![s[k]]);
}

proof fn lemma_escaped_prefix(s: Seq<char>, k: int, n: int)
    requires
        0 <= k <= n <= s.len(),
    ensures
        escaped(s.take(n)) == escaped(s.take(k)) + escaped_from(s, k, n),
    decreases n - k,
{
    if k < n {
        lemma_escaped_prefix(s, k + 1, n);
        lemma_escaped_take(s, k);
        assert(escaped(s.take(n)) =~= escaped(s.take(k)) + escaped_from(s, k, n));
    } else {
        assert(escaped(s.take(n)) =~= escaped(s.take(k)) + escaped_from(s, k, n));
    }
}

/// The escaped text of characters `k` to `n` of `s`.
pub open spec fn escaped_from(s: Seq<char>, k: int, n: int) -> Seq<char>
    decreases n - k,
{
    if k >= n {
        Seq::empty()
    } else {
        escape_char(s[k]) + escaped_from(s, k + 1, n)
    }
}

proof fn lemma_string_prefix(b: Seq<u8>, q0: int, s: Seq<char>, k: int)
    requires
        0 <= k <= s.len(),
        at_bytes(b, q0, encode_utf8(escaped(s))),
    ensures
        string_body(b, q0, Seq::empty()) == string_body(
            b,
            q0 + encode_utf8(escaped(s.take(k))).len(),
            encode_utf8(s.take(k)),
        ),
    decreases k,
{
    if k == 0 {
        assert(s.take(0) =~= Seq::<char>::empty());
        assert(escaped(s.take(0)) =~= Seq::<char>::empty());
        assert(encode_utf8(Seq::<char>::empty()) =~= Seq::<u8>::empty());
    } else {
        lemma_string_prefix(b, q0, s, k - 1);
        lemma_escaped_take(s, k - 1);
        let pre = escaped(s.take(k - 1));
        let ec = escape_char(s[k - 1]);
        lemma_encode_concat(pre, ec);
        lemma_encode_concat(s.take(k - 1), seq![s[k - 1]]);
        lemma_encode_one(s[k - 1]);
        // the character's bytes sit right after those of the prefix
        lemma_escaped_prefix(s, k, s.len() as int);
        assert(s.take(s.len() as int) =~= s);
        lemma_encode_concat(escaped(s.take(k)), escaped_from(s, k, s.len() as int));
        lemma_at_concat(b, q0, encode_utf8(escaped(s.take(k))), encode_utf8(escaped_from(s, k, s.len() as int)));
        lemma_at_concat(b, q0, encode_utf8(pre), encode_utf8(ec));
        lemma_char_step(b, q0 + encode_utf8(pre).len(), encode_utf8(s.take(k - 1)), s[k - 1]);
    }
}

// ---------------------------------------------------------------------------
// Numbers.
/// Whether the byte at `e` ends a value: the end of the input, a comma or a
/// closing bracket.
pub open spec fn stops(b: Seq<u8>, e: int) -> bool {
    e == b.len() || (0 <= e < b.len() && (b[e] == 0x2C || b[e] == 0x5D || b[e] == 0x7D))
}

/// Whether `t` is written in number syntax: it starts with a minus or a
/// digit, and the number grammar reads all of it.
pub open spec fn number_text(t: Seq<char>) -> bool {
    &&& t.len() > 0
    &&& is_ascii_text(t)
    &&& (t[0] == '-' || ('0' <= t[0] && t[0] <= '9'))
    &&& number_at(ascii_bytes(t), 0) == Ok::<(JsonV, int), Seq<char>>((JsonV::Num(t), t.len() as int))
}

/// Whether every number in `v` is written in number syntax.
pub open spec fn numbers_ok(v: JsonV) -> bool
    decreases v,
{
    match v {
        JsonV::Num(t) => number_text(t),
        JsonV::Arr(items) => forall|i: int| 0 <= i < items.len() ==> numbers_ok(#[trigger] items[i]),
        JsonV::Obj(ps) => forall|i: int| 0 <= i < ps.len() ==> numbers_ok(#[trigger] ps[i].1),
        _ => true,
    }
}

proof fn lemma_scan_context(b: Seq<u8>, pos: int, t: Seq<u8>, i: int)
    requires
        at_bytes(b, pos, t),
        stops(b, pos + t.len()),
        0 <= i <= t.len(),
    ensures
        scan_digits(b, pos + i) == pos + scan_digits(t, i),
        i <= scan_digits(t, i) <= t.len(),
    decreases t.len() - i,
{
    if i < t.len() {
        lemma_at_index(b, pos, t, i);
        if is_digit(t[i]) {
            lemma_scan_context(b, pos, t, i + 1);
        }
    }
}

/// A number's text followed by the end or a closing byte reads as itself.
proof fn lemma_number_round_trip(b: Seq<u8>, pos: int, t: Seq<char>)
    requires
        number_text(t),
        at_bytes(b, pos, ascii_bytes(t)),
        stops(b, pos + t.len()),
    ensures
        number_at(b, pos) == Ok::<(JsonV, int), Seq<char>>((JsonV::Num(t), pos + t.len())),
{
    let x = ascii_bytes(t);
    let n = x.len() as int;
    assert forall|i: int| 0 <= i < n implies b[pos + i] == #[trigger] x[i] by {
        lemma_at_index(b, pos, x, i);
    }
    assert forall|i: int| 0 <= i <= n implies scan_digits(b, pos + i) == pos + #[trigger] scan_digits(x, i) && i
        <= scan_digits(x, i) <= n by {
        lemma_scan_context(b, pos, x, i);
    }
    assert(b.subrange(pos, pos + n) == x);
    let q0 = if 0 < x.len() && x[0] == 0x2D {
        1int
    } else {
        0int
    };
    let q1 = scan_digits(x, q0);
    assert(scan_digits(b, pos + q0) == pos + q1);
    let (q2, frac) = if q1 < x.len() && x[q1] == 0x2E {
        (scan_digits(x, q1 + 1), scan_digits(x, q1 + 1) - (q1 + 1))
    } else {
        (q1, 0)
    };
    if q1 < n && x[q1] == 0x2E {
        assert(scan_digits(b, pos + q1 + 1) == pos + scan_digits(x, q1 + 1));
    }
    if q2 < n && (x[q2] == 0x65 || x[q2] == 0x45) {
        let q4 = if q2 + 1 < x.len() && (x[q2 + 1] == 0x2B || x[q2 + 1] == 0x2D) {
            q2 + 2
        } else {
            q2 + 1
        };
        assert(scan_digits(b, pos + q4) == pos + scan_digits(x, q4));
        assert(scan_digits(x, q4) == n);
        assert(b.subrange(pos, pos + scan_digits(x, q4)) == x.subrange(0, scan_digits(x, q4)));
    } else {
        assert(q2 == n);
        assert(b.subrange(pos, pos + q2) == x.subrange(0, q2));
    }
}

// ---------------------------------------------------------------------------
// Values.
/// The UTF-8 bytes of a value's text.
pub open spec fn text_bytes(v: JsonV) -> Seq<u8> {
    encode_utf8(rendered(v))
}

/// The text of items `k` to `n`, each after a comma.
pub open spec fn items_rest(items: Seq<JsonV>, k: int, n: int) -> Seq<char>
    decreases n - k,
{
    if n <= k {
        Seq::empty()
    } else {
        items_rest(items, k, n - 1) + seq![','] + rendered(items[n - 1])
    }
}

/// The text of members `k` to `n`, each after a comma.
pub open spec fn members_rest(ps: Seq<(Seq<char>, JsonV)>, k: int, n: int) -> Seq<char>
    decreases n - k,
{
    if n <= k {
        Seq::empty()
    } else {
        members_rest(ps, k, n - 1) + seq![','] + quoted(ps[n - 1].0) + seq![':'] + rendered(ps[n - 1].1)
    }
}

proof fn lemma_items_split(items: Seq<JsonV>, k: int, n: int)
    requires
        1 <= k <= n <= items.len(),
    ensures
        rendered_items(items, n) == rendered_items(items, k) + items_rest(items, k, n),
    decreases n,
{
    if n > k {
        lemma_items_split(items, k, n - 1);
        assert(rendered_items(items, n) =~= rendered_items(items, k) + items_rest(items, k, n));
    } else {
        assert(rendered_items(items, n) =~= rendered_items(items, k) + items_rest(items, k, n));
    }
}

proof fn lemma_items_rest_front(items: Seq<JsonV>, k: int, n: int)
    requires
        0 <= k < n <= items.len(),
    ensures
        items_rest(items, k, n) == seq![','] + rendered(items[k]) + items_rest(items, k + 1, n),
    decreases n,
{
    if n > k + 1 {
        lemma_items_rest_front(items, k, n - 1);
        assert(items_rest(items, k, n) =~= seq![','] + rendered(items[k]) + items_rest(items, k + 1, n));
    } else {
        assert(items_rest(items, k, k) =~= Seq::<char>::empty());
        assert(items_rest(items, k + 1, n) =~= Seq::<char>::empty());
        assert(items_rest(items, k, n) =~= seq![','] + rendered(items[k]) + items_rest(items, k + 1, n));
    }
}

proof fn lemma_members_split(ps: Seq<(Seq<char>, JsonV)>, k: int, n: int)
    requires
        1 <= k <= n <= ps.len(),
    ensures
        rendered_members(ps, n) == rendered_members(ps, k) + members_rest(ps, k, n),
    decreases n,
{
    if n > k {
        lemma_members_split(ps, k, n - 1);
        assert(rendered_members(ps, n) =~= rendered_members(ps, k) + members_rest(ps, k, n));
    } else {
        assert(rendered_members(ps, n) =~= rendered_members(ps, k) + members_rest(ps, k, n));
    }
}

proof fn lemma_members_rest_front(ps: Seq<(Seq<char>, JsonV)>, k: int, n: int)
    requires
        0 <= k < n <= ps.len(),
    ensures
        members_rest(ps, k, n) == seq![','] + quoted(ps[k].0) + seq![':'] + rendered(ps[k].1) + members_rest(
            ps,
            k + 1,
            n,
        ),
    decreases n,
{
    if n > k + 1 {
        lemma_members_rest_front(ps, k, n - 1);
        assert(members_rest(ps, k, n) =~= seq![','] + quoted(ps[k].0) + seq![':'] + rendered(ps[k].1)
            + members_rest(ps, k + 1, n));
    } else {
        assert(members_rest(ps, k, k) =~= Seq::<char>::empty());
        assert(members_rest(ps, k + 1, n) =~= Seq::<char>::empty());
        assert(members_rest(ps, k, n) =~= seq![','] + quoted(ps[k].0) + seq![':'] + rendered(ps[k].1)
            + members_rest(ps, k + 1, n));
    }
}

/// An ASCII character in front of text is its own byte in front of the
/// text's bytes.
proof fn lemma_enc_front(c: char, rest: Seq<char>)
    requires
        (c as u32) < 128,
    ensures
        encode_utf8(seq![c] + rest) == seq![c as u8] + encode_utf8(rest),
{
    lemma_encode_concat(seq![c], rest);
    lemma_encode_one(c);
    lemma_scalar_ascii(c as u32);
}

/// The first byte of a value's text, which is never whitespace.
proof fn lemma_first_byte(v: JsonV)
    requires
        numbers_ok(v),
    ensures
        text_bytes(v).len() > 0,
        !is_ws(text_bytes(v)[0]),
        text_bytes(v)[0] == match v {
            JsonV::Null => 0x6Eu8,
            JsonV::Bool(x) => if x {
                0x74u8
            } else {
                0x66u8
            },
            JsonV::Num(t) => t[0] as u8,
            JsonV::Str(_) => 0x22u8,
            JsonV::Arr(_) => 0x5Bu8,
            JsonV::Obj(_) => 0x7Bu8,
        },
{
    let r = rendered(v);
    match v {
        JsonV::Num(t) => {
            lemma_ascii_utf8(t);
        },
        _ => {
            assert(r == seq![r[0]] + r.drop_first());
            lemma_enc_front(r[0], r.drop_first());
        },
    }
}

/// The bytes of `[` + `mid` + `]` (or any bracket pair).
proof fn lemma_enc_bracketed(open: char, mid: Seq<char>, close: char)
    requires
        (open as u32) < 128,
        (close as u32) < 128,
    ensures
        encode_utf8(seq![open] + mid + seq![close]) == seq![open as u8] + encode_utf8(mid) + seq![close as u8],
{
    assert(seq![open] + mid + seq![close] =~= seq![open] + (mid + seq![close]));
    lemma_enc_front(open, mid + seq![close]);
    lemma_encode_concat(mid, seq![close]);
    lemma_encode_one(close);
    lemma_scalar_ascii(close as u32);
    assert(seq![open as u8] + (encode_utf8(mid) + seq![close as u8]) =~= seq![open as u8] + encode_utf8(mid) + seq![
        close as u8,
    ]);
}

/// At a byte that is not whitespace, skipping whitespace stays put.
proof fn lemma_no_ws(b: Seq<u8>, e: int)
    requires
        0 <= e < b.len(),
        !is_ws(b[e]),
    ensures
        skip_ws(b, e) == e,
{
}

/// Where item `k - 1` of an array rendered at `pos` sits, and what follows
/// it.
proof fn lemma_item_layout(b: Seq<u8>, pos: int, items: Seq<JsonV>, k: int)
    requires
        1 <= k <= items.len(),
        at_bytes(b, pos + 1, encode_utf8(rendered_items(items, items.len() as int))),
        pos + 1 + encode_utf8(rendered_items(items, items.len() as int)).len() < b.len(),
        b[pos + 1 + encode_utf8(rendered_items(items, items.len() as int)).len()] == 0x5D,
    ensures
        ({
            let start = if k == 1 {
                pos + 1
            } else {
                pos + 2 + encode_utf8(rendered_items(items, k - 1)).len()
            };
            let e = pos + 1 + encode_utf8(rendered_items(items, k)).len();
            &&& at_bytes(b, start, text_bytes(items[k - 1]))
            &&& start + text_bytes(items[k - 1]).len() == e
            &&& e < b.len()
            &&& b[e] == if k < items.len() {
                0x2Cu8
            } else {
                0x5Du8
            }
        }),
{
    let n = items.len() as int;
    let en = encode_utf8(rendered_items(items, n));
    let ek = encode_utf8(rendered_items(items, k));
    let t = text_bytes(items[k - 1]);
    let rest = encode_utf8(items_rest(items, k, n));
    lemma_items_split(items, k, n);
    lemma_encode_concat(rendered_items(items, k), items_rest(items, k, n));
    lemma_at_concat(b, pos + 1, ek, rest);
    let e = pos + 1 + ek.len();
    if k == 1 {
        assert(ek == t);
    } else {
        let ep = encode_utf8(rendered_items(items, k - 1));
        assert(rendered_items(items, k) == rendered_items(items, k - 1) + seq![','] + rendered(items[k - 1]));
        lemma_encode_concat(rendered_items(items, k - 1) + seq![','], rendered(items[k - 1]));
        lemma_encode_concat(rendered_items(items, k - 1), seq![',']);
        lemma_encode_one(',');
        lemma_scalar_ascii(',' as u32);
        assert(ek == ep + seq![0x2Cu8] + t);
        lemma_at_concat(b, pos + 1, ep + seq![0x2Cu8], t);
    }
    if k < n {
        lemma_items_rest_front(items, k, n);
        lemma_enc_front(',', rendered(items[k]) + items_rest(items, k + 1, n));
        assert(items_rest(items, k, n) == seq![','] + (rendered(items[k]) + items_rest(items, k + 1, n)));
        lemma_at_index(b, e, rest, 0);
    } else {
        assert(ek == en);
    }
}

proof fn lemma_items_round_trip(b: Seq<u8>, pos: int, items: Seq<JsonV>, k: int)
    requires
        1 <= k <= items.len(),
        forall|i: int| 0 <= i < items.len() ==> numbers_ok(#[trigger] items[i]),
        at_bytes(b, pos + 1, encode_utf8(rendered_items(items, items.len() as int))),
        pos + 1 + encode_utf8(rendered_items(items, items.len() as int)).len() < b.len(),
        b[pos + 1 + encode_utf8(rendered_items(items, items.len() as int)).len()] == 0x5D,
    ensures
        array_items(b, pos + 1, Seq::empty()) == if k < items.len() {
            array_items(b, pos + 2 + encode_utf8(rendered_items(items, k)).len(), items.take(k))
        } else {
            Ok::<(JsonV, int), Seq<char>>(
                (JsonV::Arr(items), pos + 2 + encode_utf8(rendered_items(items, items.len() as int)).len()),
            )
        },
    decreases items, k,
{
    let n = items.len() as int;
    let start = if k == 1 {
        pos + 1
    } else {
        pos + 2 + encode_utf8(rendered_items(items, k - 1)).len()
    };
    let e = pos + 1 + encode_utf8(rendered_items(items, k)).len();
    lemma_item_layout(b, pos, items, k);
    assert(numbers_ok(items[k - 1]));
    lemma_value_round_trip(b, start, items[k - 1]);
    lemma_first_byte(items[k - 1]);
    lemma_no_ws(b, e);
    let acc = items.take(k - 1);
    if k > 1 {
        lemma_items_round_trip(b, pos, items, k - 1);
    } else {
        assert(acc =~= Seq::<JsonV>::empty());
    }
    assert(acc.push(items[k - 1]) =~= items.take(k));
    if k == n {
        assert(items.take(k) =~= items);
    }
}

/// Where member `k - 1` of an object rendered at `pos` sits, and what
/// follows it.
proof fn lemma_member_layout(b: Seq<u8>, pos: int, ps: Seq<(Seq<char>, JsonV)>, k: int)
    requires
        1 <= k <= ps.len(),
        at_bytes(b, pos + 1, encode_utf8(rendered_members(ps, ps.len() as int))),
        pos + 1 + encode_utf8(rendered_members(ps, ps.len() as int)).len() < b.len(),
        b[pos + 1 + encode_utf8(rendered_members(ps, ps.len() as int)).len()] == 0x7D,
    ensures
        ({
            let start = if k == 1 {
                pos + 1
            } else {
                pos + 2 + encode_utf8(rendered_members(ps, k - 1)).len()
            };
            let qb = encode_utf8(quoted(ps[k - 1].0));
            let colon = start + qb.len();
            let e = pos + 1 + encode_utf8(rendered_members(ps, k)).len();
            &&& at_bytes(b, start, qb)
            &&& colon < b.len()
            &&& b[colon] == 0x3A
            &&& at_bytes(b, colon + 1, text_bytes(ps[k - 1].1))
            &&& colon + 1 + text_bytes(ps[k - 1].1).len() == e
            &&& e < b.len()
            &&& b[e] == if k < ps.len() {
                0x2Cu8
            } else {
                0x7Du8
            }
        }),
{
    let n = ps.len() as int;
    let en = encode_utf8(rendered_members(ps, n));
    let ek = encode_utf8(rendered_members(ps, k));
    let key = ps[k - 1].0;
    let val = ps[k - 1].1;
    let qb = encode_utf8(quoted(key));
    let t = text_bytes(val);
    let rest = encode_utf8(members_rest(ps, k, n));
    lemma_members_split(ps, k, n);
    lemma_encode_concat(rendered_members(ps, k), members_rest(ps, k, n));
    lemma_at_concat(b, pos + 1, ek, rest);
    let e = pos + 1 + ek.len();
    let mb = qb + seq![0x3Au8] + t;
    lemma_encode_concat(quoted(key) + seq![':'], rendered(val));
    lemma_encode_concat(quoted(key), seq![':']);
    lemma_encode_one(':');
    lemma_scalar_ascii(':' as u32);
    assert(encode_utf8(quoted(key) + seq![':'] + rendered(val)) == mb);
    let start = if k == 1 {
        pos + 1
    } else {
        pos + 2 + encode_utf8(rendered_members(ps, k - 1)).len()
    };
    if k == 1 {
        assert(ek == mb);
    } else {
        let ep = encode_utf8(rendered_members(ps, k - 1));
        assert(rendered_members(ps, k) =~= (rendered_members(ps, k - 1) + seq![',']) + (quoted(key) + seq![':']
            + rendered(val)));
        lemma_encode_concat(rendered_members(ps, k - 1) + seq![','], quoted(key) + seq![':'] + rendered(val));
        lemma_encode_concat(rendered_members(ps, k - 1), seq![',']);
        lemma_encode_one(',');
        lemma_scalar_ascii(',' as u32);
        assert(ek == ep + seq![0x2Cu8] + mb);
        lemma_at_concat(b, pos + 1, ep + seq![0x2Cu8], mb);
    }
    lemma_at_concat(b, start, qb + seq![0x3Au8], t);
    lemma_at_concat(b, start, qb, seq![0x3Au8]);
    lemma_at_index(b, start + qb.len(), seq![0x3Au8], 0);
    if k < n {
        lemma_members_rest_front(ps, k, n);
        assert(members_rest(ps, k, n) =~= seq![','] + (quoted(ps[k].0) + seq![':'] + rendered(ps[k].1)
            + members_rest(ps, k + 1, n)));
        lemma_enc_front(',', quoted(ps[k].0) + seq![':'] + rendered(ps[k].1) + members_rest(ps, k + 1, n));
        lemma_at_index(b, e, rest, 0);
    } else {
        assert(ek == en);
    }
}

#[verifier::spinoff_prover]
#[verifier::rlimit(40)]
proof fn lemma_members_round_trip(b: Seq<u8>, pos: int, ps: Seq<(Seq<char>, JsonV)>, k: int)
    requires
        1 <= k <= ps.len(),
        forall|i: int| 0 <= i < ps.len() ==> numbers_ok(#[trigger] ps[i].1),
        at_bytes(b, pos + 1, encode_utf8(rendered_members(ps, ps.len() as int))),
        pos + 1 + encode_utf8(rendered_members(ps, ps.len() as int)).len() < b.len(),
        b[pos + 1 + encode_utf8(rendered_members(ps, ps.len() as int)).len()] == 0x7D,
    ensures
        object_members(b, pos + 1, Seq::empty()) == if k < ps.len() {
            object_members(b, pos + 2 + encode_utf8(rendered_members(ps, k)).len(), ps.take(k))
        } else {
            Ok::<(JsonV, int), Seq<char>>(
                (JsonV::Obj(ps), pos + 2 + encode_utf8(rendered_members(ps, ps.len() as int)).len()),
            )
        },
    decreases ps, k,
{
    let n = ps.len() as int;
    let key = ps[k - 1].0;
    let val = ps[k - 1].1;
    let start = if k == 1 {
        pos + 1
    } else {
        pos + 2 + encode_utf8(rendered_members(ps, k - 1)).len()
    };
    let qb = encode_utf8(quoted(key));
    let colon = start + qb.len();
    let e = pos + 1 + encode_utf8(rendered_members(ps, k)).len();
    lemma_member_layout(b, pos, ps, k);
    lemma_string_round_trip(b, start, key);
    lemma_enc_bracketed('"', escaped(key), '"');
    lemma_at_index(b, start, qb, 0);
    lemma_no_ws(b, start);
    lemma_no_ws(b, colon);
    assert(numbers_ok(val));
    lemma_value_round_trip(b, colon + 1, val);
    lemma_first_byte(val);
    lemma_no_ws(b, e);
    let acc = ps.take(k - 1);
    if k > 1 {
        lemma_members_round_trip(b, pos, ps, k - 1);
    } else {
        assert(acc =~= Seq::<(Seq<char>, JsonV)>::empty());
    }
    assert(acc.push((key, val)) =~= ps.take(k));
    if k == n {
        assert(ps.take(k) =~= ps);
    }
}

/// An array's bytes read back as the array.
proof fn lemma_array_round_trip(b: Seq<u8>, pos: int, items: Seq<JsonV>)
    requires
        numbers_ok(JsonV::Arr(items)),
        at_bytes(b, pos, text_bytes(JsonV::Arr(items))),
    ensures
        array_at(b, pos) == Ok::<(JsonV, int), Seq<char>>(
            (JsonV::Arr(items), pos + text_bytes(JsonV::Arr(items)).len()),
        ),
    decreases items, items.len() + 1,
{
    let n = items.len() as int;
    let mid = encode_utf8(rendered_items(items, n));
    lemma_enc_bracketed('[', rendered_items(items, n), ']');
    lemma_at_concat(b, pos, seq![0x5Bu8] + mid, seq![0x5Du8]);
    lemma_at_concat(b, pos, seq![0x5Bu8], mid);
    let close = pos + 1 + mid.len();
    lemma_at_index(b, close, seq![0x5Du8], 0);
    if n == 0 {
        assert(rendered_items(items, n) =~= Seq::<char>::empty());
        assert(mid =~= Seq::<u8>::empty());
        lemma_no_ws(b, pos + 1);
        assert(items =~= Seq::<JsonV>::empty());
    } else {
        lemma_items_split(items, 1, n);
        lemma_encode_concat(rendered_items(items, 1), items_rest(items, 1, n));
        assert(numbers_ok(items[0]));
        lemma_first_byte(items[0]);
        assert(mid[0] == text_bytes(items[0])[0]);
        lemma_at_index(b, pos + 1, mid, 0);
        lemma_no_ws(b, pos + 1);
        lemma_items_round_trip(b, pos, items, n);
    }
}

/// An object's bytes read back as the object.
proof fn lemma_object_round_trip(b: Seq<u8>, pos: int, ps: Seq<(Seq<char>, JsonV)>)
    requires
        numbers_ok(JsonV::Obj(ps)),
        at_bytes(b, pos, text_bytes(JsonV::Obj(ps))),
    ensures
        object_at(b, pos) == Ok::<(JsonV, int), Seq<char>>((JsonV::Obj(ps), pos + text_bytes(JsonV::Obj(ps)).len())),
    decreases ps, ps.len() + 1,
{
    let n = ps.len() as int;
    let mid = encode_utf8(rendered_members(ps, n));
    lemma_enc_bracketed('{', rendered_members(ps, n), '}');
    lemma_at_concat(b, pos, seq![0x7Bu8] + mid, seq![0x7Du8]);
    lemma_at_concat(b, pos, seq![0x7Bu8], mid);
    let close = pos + 1 + mid.len();
    lemma_at_index(b, close, seq![0x7Du8], 0);
    if n == 0 {
        assert(rendered_members(ps, n) =~= Seq::<char>::empty());
        assert(mid =~= Seq::<u8>::empty());
        lemma_no_ws(b, pos + 1);
        assert(ps =~= Seq::<(Seq<char>, JsonV)>::empty());
    } else {
        lemma_members_split(ps, 1, n);
        lemma_encode_concat(rendered_members(ps, 1), members_rest(ps, 1, n));
        let first = quoted(ps[0].0) + seq![':'] + rendered(ps[0].1);
        assert(rendered_members(ps, 1) == first);
        assert(first =~= seq!['"'] + (escaped(ps[0].0) + seq!['"'] + seq![':'] + rendered(ps[0].1)));
        lemma_enc_front('"', escaped(ps[0].0) + seq!['"'] + seq![':'] + rendered(ps[0].1));
        assert(mid[0] == 0x22);
        lemma_at_index(b, pos + 1, mid, 0);
        lemma_no_ws(b, pos + 1);
        lemma_members_round_trip(b, pos, ps, n);
    }
}

/// A literal's bytes read back as the literal.
proof fn lemma_literal_round_trip(b: Seq<u8>, pos: int, v: JsonV)
    requires
        v is Null || v is Bool,
        at_bytes(b, pos, text_bytes(v)),
    ensures
        value_at(b, pos) == Ok::<(JsonV, int), Seq<char>>((v, pos + text_bytes(v).len())),
{
    let x = text_bytes(v);
    lemma_first_byte(v);
    lemma_at_index(b, pos, x, 0);
    lemma_no_ws(b, pos);
    match v {
        JsonV::Null => {
            lemma_ascii_utf8(seq!['n', 'u', 'l', 'l']);
            assert(x =~= null_word());
        },
        JsonV::Bool(y) => {
            if y {
                lemma_ascii_utf8(seq!['t', 'r', 'u', 'e']);
                assert(x =~= true_word());
            } else {
                lemma_ascii_utf8(seq!['f', 'a', 'l', 's', 'e']);
                assert(x =~= false_word());
            }
        },
        _ => {},
    }
}

/// A value's bytes, followed by the end or a closing byte, read back as
/// the value.
pub proof fn lemma_value_round_trip(b: Seq<u8>, pos: int, v: JsonV)
    requires
        numbers_ok(v),
        at_bytes(b, pos, text_bytes(v)),
        stops(b, pos + text_bytes(v).len()),
    ensures
        value_at(b, pos) == Ok::<(JsonV, int), Seq<char>>((v, pos + text_bytes(v).len())),
    decreases v, 0int,
{
    let x = text_bytes(v);
    lemma_first_byte(v);
    lemma_at_index(b, pos, x, 0);
    lemma_no_ws(b, pos);
    match v {
        JsonV::Null => {
            lemma_literal_round_trip(b, pos, v);
        },
        JsonV::Bool(_) => {
            lemma_literal_round_trip(b, pos, v);
        },
        JsonV::Num(t) => {
            lemma_ascii_utf8(t);
            lemma_number_round_trip(b, pos, t);
        },
        JsonV::Str(st) => {
            lemma_string_round_trip(b, pos, st);
        },
        JsonV::Arr(items) => {
            lemma_array_round_trip(b, pos, items);
        },
        JsonV::Obj(ps) => {
            lemma_object_round_trip(b, pos, ps);
        },
    }
}

/// What `render_json` writes, `parse_json` reads back: the UTF-8 bytes of a
/// value's text parse as the value itself, when its numbers are written in
/// number syntax.
pub proof fn lemma_parse_of_render(v: JsonV)
    requires
        numbers_ok(v),
    ensures
        parsed(text_bytes(v)) == Ok::<JsonV, Seq<char>>(v),
{
    let b = text_bytes(v);
    assert(b.subrange(0, b.len() as int) =~= b);
    lemma_value_round_trip(b, 0, v);
}

} // verus!
