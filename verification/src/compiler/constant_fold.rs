//! Compile-time constant folding over the statement tree.
//!
//! Integer arithmetic (`+ - * // % ^`), bitwise operators (`& | ~ << >>`),
//! comparisons, string concatenation and length, `not`, unary `-`, and the
//! short-circuit operators `and`, `or`, `??` are evaluated where their
//! operands are constants; a statically true `if` drops its other branches
//! and a statically false `while` disappears. A number written with a
//! fraction or an exponent is a constant kept as its text: its type is
//! known and it can be negated, but no arithmetic is done on it, so an
//! operation whose result would be a floating-point number stays as it is.
//! A hexadecimal number is an integer constant.
use num_bigint::BigInt;
use vstd::prelude::*;
use vstd::arithmetic::power::pow;
use vstd::arithmetic::power2::pow2;
use vstd::utf8::encode_utf8;

use crate::compiler::ir::builder::{decimal_bigint, digits_value, parse_int_from_str};
use crate::compiler::ir::types::{
    big_abs, big_and, big_from_u64, big_not, big_or, big_pow, big_shl, big_shr, big_to_u32, big_to_usize, big_xor,
    bigint_and, bigint_or, bigint_xor, big_add, big_decimal, big_div_floor, big_eq, big_ge, big_gt, big_is_zero, big_le, big_lt, big_mod_floor,
    big_mul, big_neg, big_sub, big_value, clone_bigint, floor_div, floor_mod, int_text,
};
use crate::parse_model::{
    branches_view, entries_view, expr_view, exprs_view, lemma_branches_view_push, lemma_entries_view_push,
    lemma_exprs_view_push, lemma_stmts_view_push, opt_expr_view, opt_text, param_view, params_view, stmt_view,
    stmts_view, strings_view, EntryV, ExprV, ParamV, StmtV,
};
use crate::parser::{clone_expr, clone_params, Expr, Param, Stmt, TableEntry};
use crate::lexer::{digit, digits_stop, hex_digit, is_digit, is_hex_digit, scan_digits};
use crate::text::{chars_eq, chars_eq_str, chars_of, copy_chars, string_from_chars};

verus! {

// ---------------------------------------------------------------------------
// Constants and the operations on them
// ---------------------------------------------------------------------------

/// What `str::to_lowercase` gives for a text.
pub uninterp spec fn lowercase(s: Seq<char>) -> Seq<char>;

/// What `str::to_uppercase` gives for a text.
pub uninterp spec fn uppercase(s: Seq<char>) -> Seq<char>;

/// A constant value as the folder sees it.
pub enum ConstV {
    Nil,
    Bool(bool),
    Int(int),
    /// A number with a fraction or an exponent, by its text.
    Float(Seq<char>),
    Str(Seq<char>),
}

/// The largest exponent of `^`, and the largest left shift, that folds;
/// beyond it the result is left to run time.
pub const MAX_FOLDED_EXPONENT: u32 = 4096;

/// The value of a hexadecimal digit.
pub open spec fn hex_digit_value(c: char) -> int {
    if '0' <= c <= '9' {
        c as int - '0' as int
    } else if 'a' <= c <= 'f' {
        c as int - 'a' as int + 10
    } else {
        c as int - 'A' as int + 10
    }
}

/// The value of a string of hexadecimal digits, most significant first.
pub open spec fn hex_value(d: Seq<char>) -> int
    decreases d.len(),
{
    if d.len() == 0 {
        0
    } else {
        hex_value(d.drop_last()) * 16 + hex_digit_value(d.last())
    }
}

/// Whether `t` writes a hexadecimal integer: `0x` or `0X` and at least one
/// hexadecimal digit, and nothing else.
pub open spec fn hex_text(t: Seq<char>) -> bool {
    &&& t.len() > 2
    &&& t[0] == '0'
    &&& (t[1] == 'x' || t[1] == 'X')
    &&& forall|i: int| 2 <= i < t.len() ==> is_hex_digit(#[trigger] t[i])
}

/// The digits of a numeral after an optional leading `-`.
pub open spec fn unsigned_part(t: Seq<char>) -> Seq<char> {
    if t.len() > 0 && t[0] == '-' {
        t.drop_first()
    } else {
        t
    }
}

/// The end of the exponent that may follow a numeral's digits at `j`: `e`
/// or `E`, an optional sign and digits, or nothing.
pub open spec fn exponent_stop(b: Seq<char>, j: int) -> int {
    if j + 1 < b.len() && (b[j] == 'e' || b[j] == 'E') {
        if is_digit(b[j + 1]) {
            digits_stop(b, j + 1)
        } else if j + 2 < b.len() && (b[j + 1] == '+' || b[j + 1] == '-') && is_digit(b[j + 2]) {
            digits_stop(b, j + 2)
        } else {
            j
        }
    } else {
        j
    }
}

/// Whether `t` writes a floating-point number: an optional `-`, decimal
/// digits, then a fraction (`.` and digits), an exponent (`e` or `E`, an
/// optional sign, digits), or both, and nothing else.
pub open spec fn float_text(t: Seq<char>) -> bool {
    let b = unsigned_part(t);
    let i = digits_stop(b, 0);
    let j = if i + 1 < b.len() && b[i] == '.' && is_digit(b[i + 1]) {
        digits_stop(b, i + 1)
    } else {
        i
    };
    let k = exponent_stop(b, j);
    0 < i && i < k && k == b.len()
}

/// The text of a floating-point number negated.
pub open spec fn neg_text(t: Seq<char>) -> Seq<char> {
    if t.len() > 0 && t[0] == '-' {
        t.drop_first()
    } else {
        seq!['-'] + t
    }
}

/// The constant an expression is, if it is one: `nil`, `true`, `false`, a
/// decimal or hexadecimal integer literal, a floating-point literal, or a
/// string.
pub open spec fn const_of(e: ExprV) -> Option<ConstV> {
    match e {
        ExprV::Literal(t) => if t == "nil"@ {
            Some(ConstV::Nil)
        } else if t == "true"@ {
            Some(ConstV::Bool(true))
        } else if t == "false"@ {
            Some(ConstV::Bool(false))
        } else {
            match decimal_bigint(t) {
                Some(n) => Some(ConstV::Int(n)),
                None => if hex_text(t) {
                    Some(ConstV::Int(hex_value(t.skip(2))))
                } else if float_text(t) {
                    Some(ConstV::Float(t))
                } else {
                    None
                },
            }
        },
        ExprV::Str(s) => Some(ConstV::Str(s)),
        _ => None,
    }
}

/// The expression that writes a constant.
pub open spec fn const_expr(c: ConstV) -> ExprV {
    match c {
        ConstV::Nil => ExprV::Literal("nil"@),
        ConstV::Bool(b) => ExprV::Literal(
            if b {
                "true"@
            } else {
                "false"@
            },
        ),
        ConstV::Int(n) => ExprV::Literal(int_text(n)),
        ConstV::Float(t) => ExprV::Literal(t),
        ConstV::Str(s) => ExprV::Str(s),
    }
}

/// Whether a constant counts as true: all but `nil` and `false`.
pub open spec fn truthy(c: ConstV) -> bool {
    match c {
        ConstV::Nil => false,
        ConstV::Bool(b) => b,
        _ => true,
    }
}

/// Whether `a` sorts before `b`, character by character.
pub open spec fn text_lt(a: Seq<char>, b: Seq<char>) -> bool
    decreases a.len(),
{
    if a.len() == 0 {
        b.len() > 0
    } else if b.len() == 0 {
        false
    } else if a[0] != b[0] {
        (a[0] as int) < (b[0] as int)
    } else {
        text_lt(a.drop_first(), b.drop_first())
    }
}

/// A floating-point literal written without an exponent, as a scaled
/// integer: the value of its digits with the `.` left out (negated after a
/// leading `-`), and how many digits follow the `.`.
pub open spec fn plain_float(t: Seq<char>) -> Option<(int, nat)> {
    let b = unsigned_part(t);
    let i = digits_stop(b, 0);
    if float_text(t) && i < b.len() && b[i] == '.' && digits_stop(b, i + 1) == b.len() {
        let m = digits_value(b.take(i) + b.skip(i + 1));
        Some(
            (
                if t.len() > 0 && t[0] == '-' {
                    -m
                } else {
                    m
                },
                (b.len() - i - 1) as nat,
            ),
        )
    } else {
        None
    }
}

/// Whether an integer and a floating-point literal are known to be the same
/// number: the literal has no exponent and at most `MAX_FOLDED_EXPONENT`
/// fraction digits, its exact value is the integer, and the integer lies
/// within 2^53, where both are exact floating-point numbers.
pub open spec fn int_float_same(n: int, t: Seq<char>) -> bool {
    match plain_float(t) {
        Some((m, f)) => f <= MAX_FOLDED_EXPONENT && -9007199254740992 <= n <= 9007199254740992 && n * pow(
            10,
            f,
        ) == m,
        None => false,
    }
}

/// Whether two floating-point literals are known to be the same number: both
/// without an exponent, with at most `MAX_FOLDED_EXPONENT` fraction digits,
/// and of the same exact value (so they read as the same float).
pub open spec fn floats_same(s: Seq<char>, t: Seq<char>) -> bool {
    match (plain_float(s), plain_float(t)) {
        (Some((m1, f1)), Some((m2, f2))) => f1 <= MAX_FOLDED_EXPONENT && f2 <= MAX_FOLDED_EXPONENT && m1 * pow(
            10,
            f2,
        ) == m2 * pow(10, f1),
        _ => false,
    }
}

/// Whether the equality of two constants is decided without floating-point
/// arithmetic: where a floating-point number meets a number, only when they
/// are known to be the same number.
pub open spec fn eq_known(a: ConstV, b: ConstV) -> bool {
    match (a, b) {
        (ConstV::Int(n), ConstV::Float(t)) => int_float_same(n, t),
        (ConstV::Float(t), ConstV::Int(n)) => int_float_same(n, t),
        (ConstV::Float(s), ConstV::Float(t)) => floats_same(s, t),
        _ => true,
    }
}

/// Equality of constants: same kind and same value, an integer and a
/// floating-point number being equal where they are known to be the same
/// number (a floating-point number is unequal to `nil`, a boolean and a
/// string).
pub open spec fn const_eq(a: ConstV, b: ConstV) -> bool {
    match (a, b) {
        (ConstV::Nil, ConstV::Nil) => true,
        (ConstV::Bool(x), ConstV::Bool(y)) => x == y,
        (ConstV::Int(x), ConstV::Int(y)) => x == y,
        (ConstV::Str(x), ConstV::Str(y)) => x == y,
        (ConstV::Int(n), ConstV::Float(t)) => int_float_same(n, t),
        (ConstV::Float(t), ConstV::Int(n)) => int_float_same(n, t),
        (ConstV::Float(s), ConstV::Float(t)) => floats_same(s, t),
        _ => false,
    }
}

/// The text a constant contributes to `..`: a string's own, an integer's
/// decimal text.
pub open spec fn concat_text(c: ConstV) -> Option<Seq<char>> {
    match c {
        ConstV::Str(s) => Some(s),
        ConstV::Int(n) => Some(int_text(n)),
        _ => None,
    }
}

/// A unary operator applied to a constant, where it folds: `not`, `-` of a
/// number, `#` of a string (its length in UTF-8 bytes) and `~` of an
/// integer.
pub open spec fn fold_unary(op: Seq<char>, c: ConstV) -> Option<ConstV> {
    if op == "not"@ {
        Some(ConstV::Bool(!truthy(c)))
    } else if op == "-"@ {
        match c {
            ConstV::Int(n) => Some(ConstV::Int(-n)),
            ConstV::Float(t) => Some(ConstV::Float(neg_text(t))),
            _ => None,
        }
    } else if op == "#"@ {
        match c {
            ConstV::Str(s) => Some(ConstV::Int(encode_utf8(s).len() as int)),
            _ => None,
        }
    } else if op == "~"@ {
        match c {
            ConstV::Int(n) => Some(ConstV::Int(-n - 1)),
            _ => None,
        }
    } else {
        None
    }
}

/// `a << n` on integers, a negative `n` shifting right; `None` where the
/// amount is past `usize`, or a left shift past `MAX_FOLDED_EXPONENT`.
pub open spec fn shift_left(a: int, n: int) -> Option<int> {
    if n >= 0 {
        if n <= MAX_FOLDED_EXPONENT {
            Some(a * pow2(n as nat))
        } else {
            None
        }
    } else if -n <= usize::MAX {
        Some(floor_div(a, pow2((-n) as nat) as int))
    } else {
        None
    }
}

/// `a >> n` on integers, rounding down, a negative `n` shifting left.
pub open spec fn shift_right(a: int, n: int) -> Option<int> {
    if n >= 0 {
        if n <= usize::MAX {
            Some(floor_div(a, pow2(n as nat) as int))
        } else {
            None
        }
    } else {
        shift_left(a, -n)
    }
}

/// An ordering operator applied to two integers or two strings.
pub open spec fn fold_order(op: Seq<char>, a: ConstV, b: ConstV) -> Option<ConstV> {
    match (a, b) {
        (ConstV::Int(x), ConstV::Int(y)) => if op == "<"@ {
            Some(ConstV::Bool(x < y))
        } else if op == "<="@ {
            Some(ConstV::Bool(x <= y))
        } else if op == ">"@ {
            Some(ConstV::Bool(x > y))
        } else {
            Some(ConstV::Bool(x >= y))
        },
        (ConstV::Str(x), ConstV::Str(y)) => if op == "<"@ {
            Some(ConstV::Bool(text_lt(x, y)))
        } else if op == "<="@ {
            Some(ConstV::Bool(text_lt(x, y) || x == y))
        } else if op == ">"@ {
            Some(ConstV::Bool(text_lt(y, x)))
        } else {
            Some(ConstV::Bool(text_lt(y, x) || x == y))
        },
        _ => None,
    }
}

/// A binary operator (other than `and`, `or`, `??`) applied to two
/// constants, where it folds.
pub open spec fn fold_binary(op: Seq<char>, a: ConstV, b: ConstV) -> Option<ConstV> {
    if (op == "=="@ || op == "!="@) && !eq_known(a, b) {
        None
    } else if op == "=="@ {
        Some(ConstV::Bool(const_eq(a, b)))
    } else if op == "!="@ {
        Some(ConstV::Bool(!const_eq(a, b)))
    } else if op == "<"@ || op == "<="@ || op == ">"@ || op == ">="@ {
        fold_order(op, a, b)
    } else if op == ".."@ {
        match (concat_text(a), concat_text(b)) {
            (Some(x), Some(y)) => Some(ConstV::Str(x + y)),
            _ => None,
        }
    } else {
        match (a, b) {
            (ConstV::Int(x), ConstV::Int(y)) => if op == "+"@ {
                Some(ConstV::Int(x + y))
            } else if op == "-"@ {
                Some(ConstV::Int(x - y))
            } else if op == "*"@ {
                Some(ConstV::Int(x * y))
            } else if op == "//"@ && y != 0 {
                Some(ConstV::Int(floor_div(x, y)))
            } else if op == "%"@ && y != 0 {
                Some(ConstV::Int(floor_mod(x, y)))
            } else if op == "^"@ && 0 <= y <= MAX_FOLDED_EXPONENT {
                Some(ConstV::Int(pow(x, y as nat)))
            } else if op == "&"@ {
                Some(ConstV::Int(bigint_and(x, y)))
            } else if op == "|"@ {
                Some(ConstV::Int(bigint_or(x, y)))
            } else if op == "~"@ {
                Some(ConstV::Int(bigint_xor(x, y)))
            } else if op == "<<"@ {
                match shift_left(x, y) {
                    Some(v) => Some(ConstV::Int(v)),
                    None => None,
                }
            } else if op == ">>"@ {
                match shift_right(x, y) {
                    Some(v) => Some(ConstV::Int(v)),
                    None => None,
                }
            } else {
                None
            },
            _ => None,
        }
    }
}

// ---------------------------------------------------------------------------
// Calls of built-in functions
// ---------------------------------------------------------------------------

/// What a callee names when it is a built-in that no local name hides: its
/// module (empty for a global function) and the function's name.
pub open spec fn builtin_name(fc: ExprV, sh: Seq<Seq<char>>) -> Option<(Seq<char>, Seq<char>)> {
    match fc {
        ExprV::Variable(n) => if sh.contains(n) {
            None
        } else {
            Some((Seq::empty(), n))
        },
        ExprV::Member { object, field } => match *object {
            ExprV::Variable(m) => if sh.contains(m) {
                None
            } else {
                Some((m, field))
            },
            _ => None,
        },
        _ => None,
    }
}

/// The name `type` gives a constant.
pub open spec fn type_text(c: ConstV) -> Seq<char> {
    match c {
        ConstV::Nil => "nil"@,
        ConstV::Bool(_) => "boolean"@,
        ConstV::Int(_) => "number"@,
        ConstV::Float(_) => "number"@,
        ConstV::Str(_) => "string"@,
    }
}

/// The name `typeof` gives a constant.
pub open spec fn typeof_text(c: ConstV) -> Seq<char> {
    match c {
        ConstV::Nil => "nil"@,
        ConstV::Bool(_) => "boolean"@,
        ConstV::Int(_) => "bigint"@,
        ConstV::Float(_) => "float"@,
        ConstV::Str(_) => "string"@,
    }
}

/// The text `tostring` gives a constant other than a floating-point number.
pub open spec fn tostring_text(c: ConstV) -> Seq<char> {
    match c {
        ConstV::Nil => "nil"@,
        ConstV::Bool(b) => if b {
            "true"@
        } else {
            "false"@
        },
        ConstV::Int(n) => int_text(n),
        ConstV::Float(t) => t,
        ConstV::Str(s) => s,
    }
}

/// The bitwise operation `bit.band`, `bit.bor` or `bit.bxor` names.
pub open spec fn bit_op(f: Seq<char>, a: int, b: int) -> int {
    if f == "band"@ {
        bigint_and(a, b)
    } else if f == "bor"@ {
        bigint_or(a, b)
    } else {
        bigint_xor(a, b)
    }
}

/// A bitwise operation folded over its integer arguments, left to right.
pub open spec fn fold_bits(f: Seq<char>, cs: Seq<ConstV>) -> Option<int>
    decreases cs.len(),
{
    if cs.len() == 0 {
        None
    } else if cs.len() == 1 {
        match cs[0] {
            ConstV::Int(i) => Some(i),
            _ => None,
        }
    } else {
        match (fold_bits(f, cs.drop_last()), cs.last()) {
            (Some(a), ConstV::Int(b)) => Some(bit_op(f, a, b)),
            _ => None,
        }
    }
}

/// Whether every constant is an integer.
pub open spec fn all_ints(cs: Seq<ConstV>) -> bool {
    forall|i: int| 0 <= i < cs.len() ==> cs[i] is Int
}

/// Whether a built-in call on constants would give a floating-point number
/// (`math.floor`, `ceil`, `sqrt` of a non-negative, `min`, `max`); such a
/// call is left as it is.
pub open spec fn float_call(fc: ExprV, cs: Seq<ConstV>, sh: Seq<Seq<char>>) -> bool {
    match builtin_name(fc, sh) {
        Some((m, f)) => m == "math"@ && cs.len() > 0 && ((f == "floor"@ || f == "ceil"@) && cs[0] is Int || f
            == "sqrt"@ && cs[0] is Int && cs[0]->Int_0 >= 0 || (f == "min"@ || f == "max"@) && all_ints(cs)),
        None => false,
    }
}

/// Whether a call of `bit.lshift` or `bit32.lshift` on constants shifts an
/// integer left by more than `MAX_FOLDED_EXPONENT` bits (but by a `usize`);
/// such a call is left as it is.
pub open spec fn huge_shift(fc: ExprV, cs: Seq<ConstV>, sh: Seq<Seq<char>>) -> bool {
    match builtin_name(fc, sh) {
        Some((m, f)) => (m == "bit"@ || m == "bit32"@) && f == "lshift"@ && cs.len() >= 2 && cs[0] is Int
            && cs[1] is Int && MAX_FOLDED_EXPONENT < cs[1]->Int_0 <= usize::MAX,
        None => false,
    }
}

/// A built-in call on constant arguments, where it folds: `type`, `typeof`,
/// `tostring` (but of a floating-point number), `math.abs` of a number,
/// `bit.band`/`bor`/`bxor`/`bnot`/`lshift`/`rshift` of integers (also under
/// `bit32`), and `string.len`/`lower`/`upper`/`reverse` of a string.
pub open spec fn const_call(fc: ExprV, cs: Seq<ConstV>, sh: Seq<Seq<char>>) -> Option<ConstV> {
    match builtin_name(fc, sh) {
        None => None,
        Some((m, f)) => if m.len() == 0 {
            if cs.len() == 0 {
                None
            } else if f == "type"@ {
                Some(ConstV::Str(type_text(cs[0])))
            } else if f == "typeof"@ {
                Some(ConstV::Str(typeof_text(cs[0])))
            } else if f == "tostring"@ && !(cs[0] is Float) {
                Some(ConstV::Str(tostring_text(cs[0])))
            } else {
                None
            }
        } else if m == "math"@ {
            if f == "abs"@ && cs.len() > 0 && cs[0] is Int {
                let i = cs[0]->Int_0;
                Some(ConstV::Int(if i < 0 { -i } else { i }))
            } else if f == "abs"@ && cs.len() > 0 && cs[0] is Float {
                Some(ConstV::Float(unsigned_part(cs[0]->Float_0)))
            } else {
                None
            }
        } else if m == "bit"@ || m == "bit32"@ {
            if f == "band"@ || f == "bor"@ || f == "bxor"@ {
                match fold_bits(f, cs) {
                    Some(v) => Some(ConstV::Int(v)),
                    None => None,
                }
            } else if f == "bnot"@ && cs.len() > 0 && cs[0] is Int {
                Some(ConstV::Int(-cs[0]->Int_0 - 1))
            } else if (f == "lshift"@ || f == "rshift"@) && cs.len() >= 2 && cs[0] is Int && cs[1] is Int
                && 0 <= cs[1]->Int_0 <= usize::MAX {
                let (v, n) = (cs[0]->Int_0, cs[1]->Int_0);
                if f == "rshift"@ {
                    Some(ConstV::Int(floor_div(v, pow2(n as nat) as int)))
                } else if n <= MAX_FOLDED_EXPONENT {
                    Some(ConstV::Int(v * pow2(n as nat)))
                } else {
                    None
                }
            } else {
                None
            }
        } else if m == "string"@ && cs.len() > 0 && cs[0] is Str {
            let s = cs[0]->Str_0;
            if f == "len"@ {
                Some(ConstV::Int(encode_utf8(s).len() as int))
            } else if f == "lower"@ {
                Some(ConstV::Str(lowercase(s)))
            } else if f == "upper"@ {
                Some(ConstV::Str(uppercase(s)))
            } else if f == "reverse"@ {
                Some(ConstV::Str(s.reverse()))
            } else {
                None
            }
        } else {
            None
        },
    }
}

/// The integer literal an expression is, if it is one.
pub open spec fn int_arg(e: ExprV) -> Option<int> {
    match const_of(e) {
        Some(ConstV::Int(i)) => Some(i),
        _ => None,
    }
}

/// A built-in call folded on its argument expressions, where one of them
/// is not a constant or the constant fold did not apply: `math.abs`,
/// `floor`, `ceil` of an integer literal, `math.abs` of a floating-point
/// literal, `bit.band`/`bor`/`bxor`/`bnot`/
/// `lshift`/`rshift` of integer literals, `string.len`/`lower`/`upper` of a
/// string, and `int` of an integer literal or a decimal string.
pub open spec fn scoped_call(fc: ExprV, args: Seq<ExprV>, sh: Seq<Seq<char>>) -> Option<ExprV> {
    match builtin_name(fc, sh) {
        None => None,
        Some((m, f)) => if args.len() == 0 {
            None
        } else if m == "math"@ && (f == "abs"@ || f == "floor"@ || f == "ceil"@) {
            match int_arg(args[0]) {
                Some(i) => Some(
                    const_expr(
                        ConstV::Int(
                            if f == "abs"@ && i < 0 {
                                -i
                            } else {
                                i
                            },
                        ),
                    ),
                ),
                None => if f == "abs"@ {
                    match const_of(args[0]) {
                        Some(ConstV::Float(t)) => Some(ExprV::Literal(unsigned_part(t))),
                        _ => None,
                    }
                } else {
                    None
                },
            }
        } else if m == "bit"@ && f == "bnot"@ {
            match int_arg(args[0]) {
                Some(a) => Some(
                    const_expr(
                        ConstV::Int(
                            4294967295 - if 0 <= a <= u32::MAX {
                                a
                            } else {
                                0
                            },
                        ),
                    ),
                ),
                None => None,
            }
        } else if m == "bit"@ && (f == "band"@ || f == "bor"@ || f == "bxor"@ || f == "lshift"@ || f
            == "rshift"@) {
            if args.len() < 2 {
                None
            } else {
                match (int_arg(args[0]), int_arg(args[1])) {
                    (Some(a), Some(b)) => if f == "band"@ || f == "bor"@ || f == "bxor"@ {
                        Some(const_expr(ConstV::Int(bit_op(f, a, b))))
                    } else if !(0 <= b <= usize::MAX) {
                        None
                    } else if b > 64 {
                        Some(const_expr(ConstV::Int(0)))
                    } else if f == "lshift"@ {
                        Some(const_expr(ConstV::Int(a * pow2(b as nat))))
                    } else {
                        Some(const_expr(ConstV::Int(floor_div(a, pow2(b as nat) as int))))
                    },
                    _ => None,
                }
            }
        } else if m == "string"@ && (f == "len"@ || f == "lower"@ || f == "upper"@) {
            match args[0] {
                ExprV::Str(s) => Some(
                    if f == "len"@ {
                        const_expr(ConstV::Int(encode_utf8(s).len() as int))
                    } else if f == "lower"@ {
                        const_expr(ConstV::Str(lowercase(s)))
                    } else {
                        const_expr(ConstV::Str(uppercase(s)))
                    },
                ),
                _ => None,
            }
        } else if m.len() == 0 && f == "int"@ {
            match int_arg(args[0]) {
                Some(i) => Some(const_expr(ConstV::Int(i))),
                None => match args[0] {
                    ExprV::Str(s) => match decimal_bigint(s) {
                        Some(i) => Some(const_expr(ConstV::Int(i))),
                        None => None,
                    },
                    _ => None,
                },
            }
        } else {
            None
        },
    }
}

/// The constants of a list of expressions, if every one is a constant.
pub open spec fn consts_of(es: Seq<ExprV>) -> Option<Seq<ConstV>>
    decreases es.len(),
{
    if es.len() == 0 {
        Some(Seq::empty())
    } else {
        match (consts_of(es.drop_last()), const_of(es.last())) {
            (Some(cs), Some(c)) => Some(cs.push(c)),
            _ => None,
        }
    }
}

/// A call whose callee and arguments are folded: a built-in on constants
/// folds to its value (one that would be a floating-point number stays a
/// call), otherwise the fold on argument expressions is tried, otherwise
/// the call stays.
pub open spec fn fold_call(fc: ExprV, fa: Seq<ExprV>, sh: Seq<Seq<char>>) -> ExprV {
    let plain = ExprV::Call { callee: Box::new(fc), args: fa };
    match consts_of(fa) {
        Some(cs) => if float_call(fc, cs, sh) || huge_shift(fc, cs, sh) {
            plain
        } else {
            match const_call(fc, cs, sh) {
                Some(v) => const_expr(v),
                None => match scoped_call(fc, fa, sh) {
                    Some(x) => x,
                    None => plain,
                },
            }
        },
        None => match scoped_call(fc, fa, sh) {
            Some(x) => x,
            None => plain,
        },
    }
}

// ---------------------------------------------------------------------------
// Folding trees
// ---------------------------------------------------------------------------

/// The names of a parameter list.
pub open spec fn param_names(ps: Seq<ParamV>) -> Seq<Seq<char>> {
    ps.map_values(|p: ParamV| p.name)
}

/// An expression with its constant parts folded, bottom up, where `sh`
/// holds the local names in scope (which hide built-ins of that name).
pub open spec fn fold_e(e: ExprV, sh: Seq<Seq<char>>) -> ExprV
    decreases e,
{
    match e {
        ExprV::Unary { op, expr } => {
            let x = fold_e(*expr, sh);
            match const_of(x) {
                Some(c) => match fold_unary(op, c) {
                    Some(r) => const_expr(r),
                    None => ExprV::Unary { op, expr: Box::new(x) },
                },
                None => ExprV::Unary { op, expr: Box::new(x) },
            }
        },
        ExprV::Binary { left, op, right } => {
            let l = fold_e(*left, sh);
            if (op == "and"@ || op == "or"@ || op == "??"@) && const_of(l) is Some {
                let c = const_of(l)->0;
                let keep_left = if op == "and"@ {
                    !truthy(c)
                } else if op == "or"@ {
                    truthy(c)
                } else {
                    !(c is Nil)
                };
                if keep_left {
                    l
                } else {
                    fold_e(*right, sh)
                }
            } else {
                let r = fold_e(*right, sh);
                match (const_of(l), const_of(r)) {
                    (Some(a), Some(b)) => if op == "and"@ || op == "or"@ || op == "??"@ {
                        ExprV::Binary { left: Box::new(l), op, right: Box::new(r) }
                    } else {
                        match fold_binary(op, a, b) {
                            Some(v) => const_expr(v),
                            None => ExprV::Binary { left: Box::new(l), op, right: Box::new(r) },
                        }
                    },
                    _ => ExprV::Binary { left: Box::new(l), op, right: Box::new(r) },
                }
            }
        },
        ExprV::Member { object, field } => ExprV::Member { object: Box::new(fold_e(*object, sh)), field },
        ExprV::Index { object, index } => ExprV::Index {
            object: Box::new(fold_e(*object, sh)),
            index: Box::new(fold_e(*index, sh)),
        },
        ExprV::Call { callee, args } => fold_call(fold_e(*callee, sh), fold_es(args, sh), sh),
        ExprV::MethodCall { object, method, args } => ExprV::MethodCall {
            object: Box::new(fold_e(*object, sh)),
            method,
            args: fold_es(args, sh),
        },
        ExprV::Function { params, body } => ExprV::Function {
            params,
            body: fold_block(body, sh + param_names(params)).0,
        },
        ExprV::Table(entries) => ExprV::Table(fold_entries(entries, sh)),
        _ => e,
    }
}

/// Expressions folded one by one.
pub open spec fn fold_es(es: Seq<ExprV>, sh: Seq<Seq<char>>) -> Seq<ExprV>
    decreases es,
{
    if es.len() == 0 {
        Seq::empty()
    } else {
        fold_es(es.subrange(0, es.len() - 1), sh).push(fold_e(es[es.len() - 1], sh))
    }
}

/// Table entries with their values folded.
pub open spec fn fold_entries(es: Seq<EntryV>, sh: Seq<Seq<char>>) -> Seq<EntryV>
    decreases es,
{
    if es.len() == 0 {
        Seq::empty()
    } else {
        fold_entries(es.subrange(0, es.len() - 1), sh).push(
            EntryV { key: es[es.len() - 1].key, value: fold_e(es[es.len() - 1].value, sh) },
        )
    }
}

/// An assignment target folded: the object (and index) of a member or
/// index target; a name stays.
pub open spec fn fold_target(e: ExprV, sh: Seq<Seq<char>>) -> ExprV
    decreases e,
{
    match e {
        ExprV::Member { object, field } => ExprV::Member { object: Box::new(fold_e(*object, sh)), field },
        ExprV::Index { object, index } => ExprV::Index {
            object: Box::new(fold_e(*object, sh)),
            index: Box::new(fold_e(*index, sh)),
        },
        _ => e,
    }
}

/// Assignment targets folded one by one.
pub open spec fn fold_targets(es: Seq<ExprV>, sh: Seq<Seq<char>>) -> Seq<ExprV>
    decreases es,
{
    if es.len() == 0 {
        Seq::empty()
    } else {
        fold_targets(es.subrange(0, es.len() - 1), sh).push(fold_target(es[es.len() - 1], sh))
    }
}

/// An optional expression folded.
pub open spec fn fold_opt(o: Option<ExprV>, sh: Seq<Seq<char>>) -> Option<ExprV>
    decreases o,
{
    match o {
        Some(e) => Some(fold_e(e, sh)),
        None => None,
    }
}

/// `elseif` branches folded, each block in its own scope.
pub open spec fn fold_branches(bs: Seq<(ExprV, Seq<StmtV>)>, sh: Seq<Seq<char>>) -> Seq<(ExprV, Seq<StmtV>)>
    decreases bs,
{
    if bs.len() == 0 {
        Seq::empty()
    } else {
        fold_branches(bs.subrange(0, bs.len() - 1), sh).push(
            (fold_e(bs[bs.len() - 1].0, sh), fold_block(bs[bs.len() - 1].1, sh).0),
        )
    }
}

/// Whether a folded `while` condition is statically false (`false` or
/// `nil`).
pub open spec fn never_true(c: ExprV) -> bool {
    match const_of(c) {
        Some(ConstV::Bool(false)) => true,
        Some(ConstV::Nil) => true,
        _ => false,
    }
}

/// A statement folded with the names `sh` in scope: the folded statement
/// (`None` where it disappears, a `while` whose condition is statically
/// false) and the names in scope after it (a local, a local list or a named
/// function adds its names). Nested blocks fold in scopes of their own.
pub open spec fn fold_s(s: StmtV, sh: Seq<Seq<char>>) -> (Option<StmtV>, Seq<Seq<char>>)
    decreases s,
{
    match s {
        StmtV::Local { name, is_const, type_annotation, initializer } => (
            Some(StmtV::Local { name, is_const, type_annotation, initializer: fold_opt(initializer, sh) }),
            sh.push(name),
        ),
        StmtV::LocalMany { names, is_const, initializers } => (
            Some(StmtV::LocalMany { names, is_const, initializers: fold_es(initializers, sh) }),
            sh + names,
        ),
        StmtV::Assign { target, value, is_const } => (
            Some(StmtV::Assign { target: fold_target(target, sh), value: fold_e(value, sh), is_const }),
            sh,
        ),
        StmtV::AssignMany { targets, values } => (
            Some(StmtV::AssignMany { targets: fold_targets(targets, sh), values: fold_es(values, sh) }),
            sh,
        ),
        StmtV::Increment { target, amount } => (
            Some(StmtV::Increment { target: fold_target(target, sh), amount }),
            sh,
        ),
        StmtV::Function { name, is_const, params, return_type, body } => (
            Some(
                StmtV::Function {
                    name,
                    is_const,
                    params,
                    return_type,
                    body: fold_block(body, sh + param_names(params)).0,
                },
            ),
            match name {
                Some(n) => sh.push(n),
                None => sh,
            },
        ),
        StmtV::If { condition, then_branch, else_if_branches, else_branch } => {
            let c = fold_e(condition, sh);
            if const_of(c) is Some && truthy(const_of(c)->0) {
                (
                    Some(
                        StmtV::If {
                            condition: c,
                            then_branch: fold_block(then_branch, sh).0,
                            else_if_branches: Seq::empty(),
                            else_branch: None,
                        },
                    ),
                    sh,
                )
            } else {
                (
                    Some(
                        StmtV::If {
                            condition: c,
                            then_branch: fold_block(then_branch, sh).0,
                            else_if_branches: fold_branches(else_if_branches, sh),
                            else_branch: match else_branch {
                                Some(b) => Some(fold_block(b, sh).0),
                                None => None,
                            },
                        },
                    ),
                    sh,
                )
            }
        },
        StmtV::While { condition, body } => {
            let c = fold_e(condition, sh);
            if never_true(c) {
                (None, sh)
            } else {
                (Some(StmtV::While { condition: c, body: fold_block(body, sh).0 }), sh)
            }
        },
        StmtV::NumericFor { var, start, end, step, body } => (
            Some(
                StmtV::NumericFor {
                    var,
                    start: fold_e(start, sh),
                    end: fold_e(end, sh),
                    step: fold_opt(step, sh),
                    body: fold_block(body, sh.push(var)).0,
                },
            ),
            sh,
        ),
        StmtV::For { vars, source, body } => (
            Some(StmtV::For { vars, source: fold_e(source, sh), body: fold_block(body, sh + vars).0 }),
            sh,
        ),
        StmtV::Repeat { body, condition } => {
            let (b, inner) = fold_block(body, sh);
            (Some(StmtV::Repeat { body: b, condition: fold_e(condition, inner) }), sh)
        },
        StmtV::Return(values) => (Some(StmtV::Return(fold_es(values, sh))), sh),
        StmtV::Expr(e) => (Some(StmtV::Expr(fold_e(e, sh))), sh),
        _ => (Some(s), sh),
    }
}

/// A block folded statement by statement with the names `sh` in scope, the
/// vanished statements left out; also the names in scope at its end.
pub open spec fn fold_block(ss: Seq<StmtV>, sh: Seq<Seq<char>>) -> (Seq<StmtV>, Seq<Seq<char>>)
    decreases ss,
{
    if ss.len() == 0 {
        (Seq::empty(), sh)
    } else {
        let (rest, sh1) = fold_block(ss.subrange(0, ss.len() - 1), sh);
        let (o, sh2) = fold_s(ss[ss.len() - 1], sh1);
        match o {
            Some(s) => (rest.push(s), sh2),
            None => (rest, sh2),
        }
    }
}

/// Folding repeated until nothing changes, at most `rounds` times, each
/// round starting with no local names in scope.
pub open spec fn fold_rounds(ss: Seq<StmtV>, rounds: nat) -> Seq<StmtV>
    decreases rounds,
{
    if rounds == 0 {
        ss
    } else {
        let next = fold_block(ss, Seq::empty()).0;
        if next == ss {
            next
        } else {
            fold_rounds(next, (rounds - 1) as nat)
        }
    }
}

// ---------------------------------------------------------------------------
// Executable folding
// ---------------------------------------------------------------------------

/// A constant value while folding.
pub enum FoldVal {
    Nil,
    Bool(bool),
    Int(BigInt),
    Float(String),
    Str(String),
}

/// The constant a folding value holds.
pub open spec fn fold_val_view(v: FoldVal) -> ConstV {
    match v {
        FoldVal::Nil => ConstV::Nil,
        FoldVal::Bool(b) => ConstV::Bool(b),
        FoldVal::Int(i) => ConstV::Int(big_value(i)),
        FoldVal::Float(t) => ConstV::Float(t@),
        FoldVal::Str(s) => ConstV::Str(s@),
    }
}

/// An optional folding value as an optional constant.
pub open spec fn opt_val_view(v: Option<FoldVal>) -> Option<ConstV> {
    match v {
        Some(x) => Some(fold_val_view(x)),
        None => None,
    }
}

/// Whether the text of `s` is `w`.
fn text_is(s: &String, w: &str) -> (r: bool)
    ensures
        r == (s@ == w@),
{
    let cs = chars_of(s.as_str());
    chars_eq_str(cs.as_slice(), w)
}

/// A text without its leading `-` (see `unsigned_part`).
fn unsigned_text(t: &String) -> (r: String)
    ensures
        r@ == unsigned_part(t@),
{
    let cs = chars_of(t.as_str());
    if cs.len() > 0 && cs[0] == '-' {
        let rest = copy_chars(cs.as_slice(), 1, cs.len());
        assert(rest@ =~= t@.drop_first());
        string_from_chars(rest.as_slice())
    } else {
        t.clone()
    }
}

/// A floating-point number's text negated (see `neg_text`).
fn negated_text(t: &String) -> (r: String)
    ensures
        r@ == neg_text(t@),
{
    let cs = chars_of(t.as_str());
    if cs.len() > 0 && cs[0] == '-' {
        unsigned_text(t)
    } else {
        let mut out: Vec<char> = Vec::new();
        out.push('-');
        let mut k: usize = 0;
        while k < cs.len()
            invariant
                k <= cs@.len(),
                out@ == seq!['-'] + cs@.take(k as int),
            decreases cs@.len() - k,
        {
            out.push(cs[k]);
            k = k + 1;
            assert(out@ =~= seq!['-'] + cs@.take(k as int));
        }
        assert(cs@.take(cs@.len() as int) =~= cs@);
        string_from_chars(out.as_slice())
    }
}

/// The value of a hexadecimal digit (see `hex_digit_value`).
fn hex_digit_exec(c: char) -> (r: u64)
    requires
        is_hex_digit(c),
    ensures
        r == hex_digit_value(c),
{
    if '0' <= c && c <= '9' {
        (c as u32 - '0' as u32) as u64
    } else if 'a' <= c && c <= 'f' {
        (c as u32 - 'a' as u32 + 10) as u64
    } else {
        (c as u32 - 'A' as u32 + 10) as u64
    }
}

/// The integer a hexadecimal literal writes (see `hex_text`), if it is one.
fn hex_literal(t: &String) -> (r: Option<BigInt>)
    ensures
        r is Some <==> hex_text(t@),
        r matches Some(b) ==> big_value(b) == hex_value(t@.skip(2)),
{
    let cs = chars_of(t.as_str());
    if !(cs.len() > 2 && cs[0] == '0' && (cs[1] == 'x' || cs[1] == 'X')) {
        return None;
    }
    let sixteen = big_from_u64(16);
    let mut acc = big_from_u64(0);
    let mut i: usize = 2;
    assert(cs@.subrange(2, 2) =~= Seq::<char>::empty());
    while i < cs.len()
        invariant
            2 <= i <= cs@.len(),
            cs@ == t@,
            big_value(sixteen) == 16,
            big_value(acc) == hex_value(cs@.subrange(2, i as int)),
            forall|k: int| 2 <= k < i ==> is_hex_digit(#[trigger] cs@[k]),
        decreases cs@.len() - i,
    {
        if !hex_digit(cs[i]) {
            assert(!hex_text(t@));
            return None;
        }
        let d = hex_digit_exec(cs[i]);
        let scaled = big_mul(&acc, &sixteen);
        acc = big_add(&scaled, &big_from_u64(d));
        assert(cs@.subrange(2, i + 1).drop_last() =~= cs@.subrange(2, i as int));
        i = i + 1;
    }
    assert(cs@.subrange(2, cs@.len() as int) =~= t@.skip(2));
    Some(acc)
}

/// Whether a text writes a floating-point number (see `float_text`).
fn float_literal(t: &String) -> (r: bool)
    ensures
        r == float_text(t@),
{
    let u = unsigned_text(t);
    let b = chars_of(u.as_str());
    let len = b.len();
    let i = scan_digits(&b, 0);
    let j = if i < len && i + 1 < len && b[i] == '.' && digit(b[i + 1]) {
        scan_digits(&b, i + 1)
    } else {
        i
    };
    let k = if j < len && j + 1 < len && (b[j] == 'e' || b[j] == 'E') {
        if digit(b[j + 1]) {
            scan_digits(&b, j + 1)
        } else if j + 2 < len && (b[j + 1] == '+' || b[j + 1] == '-') && digit(b[j + 2]) {
            scan_digits(&b, j + 2)
        } else {
            j
        }
    } else {
        j
    };
    0 < i && i < k && k == len
}

/// The constant an expression is, if it is one (see `const_of`).
fn const_from(e: &Expr) -> (r: Option<FoldVal>)
    ensures
        opt_val_view(r) == const_of(expr_view(*e)),
{
    match e {
        Expr::Literal(t) => {
            if text_is(t, "nil") {
                Some(FoldVal::Nil)
            } else if text_is(t, "true") {
                Some(FoldVal::Bool(true))
            } else if text_is(t, "false") {
                Some(FoldVal::Bool(false))
            } else {
                match parse_int_from_str(t.as_str()) {
                    Some(n) => Some(FoldVal::Int(n)),
                    None => match hex_literal(t) {
                        Some(n) => Some(FoldVal::Int(n)),
                        None => if float_literal(t) {
                            Some(FoldVal::Float(t.clone()))
                        } else {
                            None
                        },
                    },
                }
            }
        },
        Expr::Str(s) => Some(FoldVal::Str(s.clone())),
        _ => None,
    }
}

/// The expression that writes a constant.
fn const_to_expr(v: &FoldVal) -> (r: Expr)
    ensures
        expr_view(r) == const_expr(fold_val_view(*v)),
{
    match v {
        FoldVal::Nil => Expr::Literal(String::from_str("nil")),
        FoldVal::Bool(b) => if *b {
            Expr::Literal(String::from_str("true"))
        } else {
            Expr::Literal(String::from_str("false"))
        },
        FoldVal::Int(i) => Expr::Literal(big_decimal(i)),
        FoldVal::Float(t) => Expr::Literal(t.clone()),
        FoldVal::Str(s) => Expr::Str(s.clone()),
    }
}

fn is_truthy(v: &FoldVal) -> (r: bool)
    ensures
        r == truthy(fold_val_view(*v)),
{
    match v {
        FoldVal::Nil => false,
        FoldVal::Bool(b) => *b,
        _ => true,
    }
}

/// Whether two strings have the same text.
fn text_same(a: &String, b: &String) -> (r: bool)
    ensures
        r == (a@ == b@),
{
    let x = chars_of(a.as_str());
    let y = chars_of(b.as_str());
    chars_eq(x.as_slice(), y.as_slice())
}

/// Whether `a` sorts before `b` (see `text_lt`).
fn text_less(a: &String, b: &String) -> (r: bool)
    ensures
        r == text_lt(a@, b@),
{
    let x = chars_of(a.as_str());
    let y = chars_of(b.as_str());
    let mut i: usize = 0;
    assert(x@.skip(0) =~= x@);
    assert(y@.skip(0) =~= y@);
    while i < x.len() && i < y.len() && x[i] == y[i]
        invariant
            i <= x@.len(),
            i <= y@.len(),
            x@ == a@,
            y@ == b@,
            text_lt(x@, y@) == text_lt(x@.skip(i as int), y@.skip(i as int)),
        decreases x@.len() - i,
    {
        assert(x@.skip(i as int).drop_first() =~= x@.skip(i + 1));
        assert(y@.skip(i as int).drop_first() =~= y@.skip(i + 1));
        i = i + 1;
    }
    let ghost xs = x@.skip(i as int);
    let ghost ys = y@.skip(i as int);
    assert(xs.len() == x@.len() - i);
    assert(ys.len() == y@.len() - i);
    if i == x.len() {
        i < y.len()
    } else if i == y.len() {
        false
    } else {
        assert(xs[0] == x@[i as int]);
        assert(ys[0] == y@[i as int]);
        let cx = x[i];
        let cy = y[i];
        assert(cx != cy);
        cx < cy
    }
}

fn const_equal(a: &FoldVal, b: &FoldVal) -> (r: bool)
    ensures
        r == const_eq(fold_val_view(*a), fold_val_view(*b)),
{
    match (a, b) {
        (FoldVal::Nil, FoldVal::Nil) => true,
        (FoldVal::Bool(x), FoldVal::Bool(y)) => *x == *y,
        (FoldVal::Int(x), FoldVal::Int(y)) => big_eq(x, y),
        (FoldVal::Str(x), FoldVal::Str(y)) => text_same(x, y),
        (FoldVal::Int(n), FoldVal::Float(t)) => int_float_equal(n, t),
        (FoldVal::Float(t), FoldVal::Int(n)) => int_float_equal(n, t),
        (FoldVal::Float(x), FoldVal::Float(y)) => floats_equal(x, y),
        _ => false,
    }
}

/// A floating-point literal without an exponent as a scaled integer (see
/// `plain_float`).
fn plain_float_exec(t: &String) -> (r: Option<(BigInt, usize)>)
    ensures
        match r {
            Some((m, f)) => plain_float(t@) == Some((big_value(m), f as nat)),
            None => plain_float(t@) is None,
        },
{
    if !float_literal(t) {
        return None;
    }
    let u = unsigned_text(t);
    let b = chars_of(u.as_str());
    let len = b.len();
    let i = scan_digits(&b, 0);
    if !(i < len && b[i] == '.') {
        return None;
    }
    let j = scan_digits(&b, i + 1);
    if j != len {
        return None;
    }
    let mut ds: Vec<char> = Vec::new();
    let mut k: usize = 0;
    while k < len
        invariant
            k <= len,
            len == b@.len(),
            i < len,
            ds@ == if k <= i {
                b@.take(k as int)
            } else {
                b@.take(i as int) + b@.subrange(i + 1, k as int)
            },
        decreases len - k,
    {
        if k != i {
            ds.push(b[k]);
        }
        proof {
            if k < i {
                assert(b@.take(k + 1) =~= b@.take(k as int).push(b@[k as int]));
            } else if k == i {
                assert(b@.subrange(i + 1, k + 1) =~= Seq::<char>::empty());
                assert(b@.take(i as int) + b@.subrange(i + 1, k + 1) =~= b@.take(i as int));
            } else {
                assert(b@.take(i as int) + b@.subrange(i + 1, k + 1) =~= (b@.take(i as int) + b@.subrange(
                    i + 1,
                    k as int,
                )).push(b@[k as int]));
            }
        }
        k = k + 1;
    }
    assert(b@.subrange(i + 1, len as int) =~= b@.skip(i + 1));
    let ten = big_from_u64(10);
    let mut m = big_from_u64(0);
    let mut q: usize = 0;
    assert(ds@.take(0) =~= Seq::<char>::empty());
    while q < ds.len()
        invariant
            q <= ds@.len(),
            big_value(ten) == 10,
            big_value(m) == digits_value(ds@.take(q as int)),
            forall|x: int| 0 <= x < ds@.len() ==> is_digit(#[trigger] ds@[x]),
        decreases ds@.len() - q,
    {
        let c = ds[q];
        let d: u64 = (c as u32 - '0' as u32) as u64;
        let scaled = big_mul(&m, &ten);
        m = big_add(&scaled, &big_from_u64(d));
        assert(ds@.take(q + 1).drop_last() =~= ds@.take(q as int));
        q = q + 1;
    }
    assert(ds@.take(ds@.len() as int) =~= ds@);
    let neg = text_starts_minus(t);
    let v = if neg {
        big_neg(&m)
    } else {
        m
    };
    Some((v, len - i - 1))
}

/// Whether a text begins with `-`.
fn text_starts_minus(t: &String) -> (r: bool)
    ensures
        r == (t@.len() > 0 && t@[0] == '-'),
{
    let cs = chars_of(t.as_str());
    cs.len() > 0 && cs[0] == '-'
}

/// Whether an integer and a floating-point literal are known to be the same
/// number (see `int_float_same`).
fn int_float_equal(n: &BigInt, t: &String) -> (r: bool)
    ensures
        r == int_float_same(big_value(*n), t@),
{
    match plain_float_exec(t) {
        Some((m, f)) => {
            if f > 4096 {
                return false;
            }
            let bound = big_from_u64(9007199254740992);
            if !big_le(&big_abs(n), &bound) {
                return false;
            }
            let p = big_pow(&big_from_u64(10), f as u32);
            big_eq(&big_mul(n, &p), &m)
        },
        None => false,
    }
}

/// Whether two floating-point literals are known to be the same number (see
/// `floats_same`).
fn floats_equal(s: &String, t: &String) -> (r: bool)
    ensures
        r == floats_same(s@, t@),
{
    match (plain_float_exec(s), plain_float_exec(t)) {
        (Some((m1, f1)), Some((m2, f2))) => {
            if f1 > 4096 || f2 > 4096 {
                return false;
            }
            let ten = big_from_u64(10);
            let p1 = big_pow(&ten, f1 as u32);
            let p2 = big_pow(&ten, f2 as u32);
            big_eq(&big_mul(&m1, &p2), &big_mul(&m2, &p1))
        },
        _ => false,
    }
}

/// The text a constant contributes to `..` (see `concat_text`).
fn concat_piece(c: &FoldVal) -> (r: Option<String>)
    ensures
        match r {
            Some(s) => concat_text(fold_val_view(*c)) == Some(s@),
            None => concat_text(fold_val_view(*c)) is None,
        },
{
    match c {
        FoldVal::Str(s) => Some(s.clone()),
        FoldVal::Int(i) => Some(big_decimal(i)),
        _ => None,
    }
}

fn unary_value(op: &String, c: &FoldVal) -> (r: Option<FoldVal>)
    ensures
        opt_val_view(r) == fold_unary(op@, fold_val_view(*c)),
{
    if text_is(op, "not") {
        Some(FoldVal::Bool(!is_truthy(c)))
    } else if text_is(op, "-") {
        match c {
            FoldVal::Int(i) => Some(FoldVal::Int(big_neg(i))),
            FoldVal::Float(t) => Some(FoldVal::Float(negated_text(t))),
            _ => None,
        }
    } else if text_is(op, "#") {
        match c {
            FoldVal::Str(s) => {
                let n = byte_len(s);
                Some(FoldVal::Int(big_from_u64(n as u64)))
            },
            _ => None,
        }
    } else if text_is(op, "~") {
        match c {
            FoldVal::Int(i) => Some(FoldVal::Int(big_not(i))),
            _ => None,
        }
    } else {
        None
    }
}

/// An optional big integer as an optional integer.
pub open spec fn opt_big_view(r: Option<BigInt>) -> Option<int> {
    match r {
        Some(b) => Some(big_value(b)),
        None => None,
    }
}

/// `a << n` on big integers (see `shift_left`).
fn shift_left_exec(a: &BigInt, n: &BigInt) -> (r: Option<BigInt>)
    ensures
        opt_big_view(r) == shift_left(big_value(*a), big_value(*n)),
{
    let zero = big_from_u64(0);
    if big_ge(n, &zero) {
        match big_to_usize(n) {
            Some(k) => if k <= 4096 {
                Some(big_shl(a, k))
            } else {
                None
            },
            None => None,
        }
    } else {
        let m = big_neg(n);
        match big_to_usize(&m) {
            Some(k) => Some(big_shr(a, k)),
            None => None,
        }
    }
}

/// `a >> n` on big integers (see `shift_right`).
fn shift_right_exec(a: &BigInt, n: &BigInt) -> (r: Option<BigInt>)
    ensures
        opt_big_view(r) == shift_right(big_value(*a), big_value(*n)),
{
    let zero = big_from_u64(0);
    if big_ge(n, &zero) {
        match big_to_usize(n) {
            Some(k) => Some(big_shr(a, k)),
            None => None,
        }
    } else {
        let m = big_neg(n);
        shift_left_exec(a, &m)
    }
}

/// An exponent of `^` that folds, as a `u32`.
fn folded_exponent(y: &BigInt) -> (r: Option<u32>)
    ensures
        r is Some <==> 0 <= big_value(*y) <= MAX_FOLDED_EXPONENT,
        r matches Some(e) ==> e == big_value(*y),
{
    match big_to_u32(y) {
        Some(e) => if e <= MAX_FOLDED_EXPONENT {
            Some(e)
        } else {
            None
        },
        None => None,
    }
}

/// Whether the equality of two folding values is decided (see `eq_known`).
fn eq_decided(a: &FoldVal, b: &FoldVal) -> (r: bool)
    ensures
        r == eq_known(fold_val_view(*a), fold_val_view(*b)),
{
    match (a, b) {
        (FoldVal::Float(t), FoldVal::Int(n)) => int_float_equal(n, t),
        (FoldVal::Float(x), FoldVal::Float(y)) => floats_equal(x, y),
        (FoldVal::Int(n), FoldVal::Float(t)) => int_float_equal(n, t),
        _ => true,
    }
}

fn order_value(op: &String, a: &FoldVal, b: &FoldVal) -> (r: Option<FoldVal>)
    ensures
        opt_val_view(r) == fold_order(op@, fold_val_view(*a), fold_val_view(*b)),
{
    match (a, b) {
        (FoldVal::Int(x), FoldVal::Int(y)) => if text_is(op, "<") {
            Some(FoldVal::Bool(big_lt(x, y)))
        } else if text_is(op, "<=") {
            Some(FoldVal::Bool(big_le(x, y)))
        } else if text_is(op, ">") {
            Some(FoldVal::Bool(big_gt(x, y)))
        } else {
            Some(FoldVal::Bool(big_ge(x, y)))
        },
        (FoldVal::Str(x), FoldVal::Str(y)) => if text_is(op, "<") {
            Some(FoldVal::Bool(text_less(x, y)))
        } else if text_is(op, "<=") {
            Some(FoldVal::Bool(text_less(x, y) || text_same(x, y)))
        } else if text_is(op, ">") {
            Some(FoldVal::Bool(text_less(y, x)))
        } else {
            Some(FoldVal::Bool(text_less(y, x) || text_same(x, y)))
        },
        _ => None,
    }
}

fn binary_value(op: &String, a: &FoldVal, b: &FoldVal) -> (r: Option<FoldVal>)
    ensures
        opt_val_view(r) == fold_binary(op@, fold_val_view(*a), fold_val_view(*b)),
{
    if (text_is(op, "==") || text_is(op, "!=")) && !eq_decided(a, b) {
        None
    } else if text_is(op, "==") {
        Some(FoldVal::Bool(const_equal(a, b)))
    } else if text_is(op, "!=") {
        Some(FoldVal::Bool(!const_equal(a, b)))
    } else if text_is(op, "<") || text_is(op, "<=") || text_is(op, ">") || text_is(op, ">=") {
        order_value(op, a, b)
    } else if text_is(op, "..") {
        match (concat_piece(a), concat_piece(b)) {
            (Some(x), Some(y)) => {
                let mut cs = chars_of(x.as_str());
                let ys = chars_of(y.as_str());
                let ghost c0 = cs@;
                let mut k: usize = 0;
                while k < ys.len()
                    invariant
                        k <= ys@.len(),
                        cs@ == c0 + ys@.take(k as int),
                    decreases ys@.len() - k,
                {
                    cs.push(ys[k]);
                    k = k + 1;
                    assert(cs@ =~= c0 + ys@.take(k as int));
                }
                assert(ys@.take(ys@.len() as int) =~= ys@);
                Some(FoldVal::Str(string_from_chars(cs.as_slice())))
            },
            _ => None,
        }
    } else {
        match (a, b) {
            (FoldVal::Int(x), FoldVal::Int(y)) => if text_is(op, "+") {
                Some(FoldVal::Int(big_add(x, y)))
            } else if text_is(op, "-") {
                Some(FoldVal::Int(big_sub(x, y)))
            } else if text_is(op, "*") {
                Some(FoldVal::Int(big_mul(x, y)))
            } else if text_is(op, "//") && !big_is_zero(y) {
                Some(FoldVal::Int(big_div_floor(x, y)))
            } else if text_is(op, "%") && !big_is_zero(y) {
                Some(FoldVal::Int(big_mod_floor(x, y)))
            } else if text_is(op, "^") && folded_exponent(y).is_some() {
                match folded_exponent(y) {
                    Some(e) => Some(FoldVal::Int(big_pow(x, e))),
                    None => None,
                }
            } else if text_is(op, "&") {
                Some(FoldVal::Int(big_and(x, y)))
            } else if text_is(op, "|") {
                Some(FoldVal::Int(big_or(x, y)))
            } else if text_is(op, "~") {
                Some(FoldVal::Int(big_xor(x, y)))
            } else if text_is(op, "<<") {
                match shift_left_exec(x, y) {
                    Some(v) => Some(FoldVal::Int(v)),
                    None => None,
                }
            } else if text_is(op, ">>") {
                match shift_right_exec(x, y) {
                    Some(v) => Some(FoldVal::Int(v)),
                    None => None,
                }
            } else {
                None
            },
            _ => None,
        }
    }
}

// ---------------------------------------------------------------------------
// Executable built-in folding
// ---------------------------------------------------------------------------

/// The length in bytes of a string's UTF-8 text.
fn byte_len(s: &String) -> (r: usize)
    ensures
        r == encode_utf8(s@).len(),
{
    let bytes = s.as_str().as_bytes();
    bytes.len()
}

/// A string in lower case (`str::to_lowercase`).
#[verifier::external_body]
fn to_lower(s: &String) -> (r: String)
    ensures
        r@ == lowercase(s@),
{
    s.to_lowercase()
}

/// A string in upper case (`str::to_uppercase`).
#[verifier::external_body]
fn to_upper(s: &String) -> (r: String)
    ensures
        r@ == uppercase(s@),
{
    s.to_uppercase()
}

/// Constants as values.
pub open spec fn vals_view(v: Seq<FoldVal>) -> Seq<ConstV> {
    v.map_values(|x: FoldVal| fold_val_view(x))
}

/// Whether `name` is among the names in scope.
fn names_contain(sh: &Vec<String>, name: &String) -> (r: bool)
    ensures
        r == strings_view(sh@).contains(name@),
{
    let mut i: usize = 0;
    while i < sh.len()
        invariant
            i <= sh@.len(),
            forall|k: int| 0 <= k < i ==> sh@[k]@ != name@,
        decreases sh@.len() - i,
    {
        if text_same(&sh[i], name) {
            assert(strings_view(sh@)[i as int] == name@);
            return true;
        }
        i = i + 1;
    }
    assert(!strings_view(sh@).contains(name@)) by {
        if strings_view(sh@).contains(name@) {
            let k = choose|k: int| 0 <= k < strings_view(sh@).len() && strings_view(sh@)[k] == name@;
            assert(sh@[k]@ == name@);
        }
    }
    false
}

/// The texts of a pair of strings.
pub open spec fn pair_text(p: (String, String)) -> (Seq<char>, Seq<char>) {
    (p.0@, p.1@)
}

/// The built-in a callee names (see `builtin_name`).
fn builtin_callee(fc: &Expr, sh: &Vec<String>) -> (r: Option<(String, String)>)
    ensures
        r is None <==> builtin_name(expr_view(*fc), strings_view(sh@)) is None,
        r is Some ==> builtin_name(expr_view(*fc), strings_view(sh@)) == Some(pair_text(r->0)),
{
    match fc {
        Expr::Variable(n) => if names_contain(sh, n) {
            assert(expr_view(*fc) == ExprV::Variable(n@));
            assert(builtin_name(expr_view(*fc), strings_view(sh@)) is None);
            None
        } else {
            assert(expr_view(*fc) == ExprV::Variable(n@));
            let m = String::new();
            assert(m@ =~= Seq::<char>::empty());
            let nn = n.clone();
            assert(nn@ == n@);
            let res = (m, nn);
            assert(builtin_name(expr_view(*fc), strings_view(sh@)) == Some(pair_text(res)));
            Some(res)
        },
        Expr::Member { object, field } => {
            let ob: &Expr = object;
            assert(expr_view(*fc) == ExprV::Member { object: Box::new(expr_view(*ob)), field: field@ });
            match ob {
            Expr::Variable(m) => if names_contain(sh, m) {
                None
            } else {
                let mm = m.clone();
                let ff = field.clone();
                assert(mm@ == m@ && ff@ == field@);
                let res = (mm, ff);
                assert(builtin_name(expr_view(*fc), strings_view(sh@)) == Some(pair_text(res)));
                Some(res)
            },
            _ => {
                assert(builtin_name(expr_view(*fc), strings_view(sh@)) is None);
                None
            },
            }
        },
        _ => {
            assert(builtin_name(expr_view(*fc), strings_view(sh@)) is None);
            None
        },
    }
}

fn type_name_of(c: &FoldVal, typeof_names: bool) -> (r: String)
    ensures
        r@ == if typeof_names {
            typeof_text(fold_val_view(*c))
        } else {
            type_text(fold_val_view(*c))
        },
{
    match c {
        FoldVal::Nil => String::from_str("nil"),
        FoldVal::Bool(_) => String::from_str("boolean"),
        FoldVal::Int(_) => if typeof_names {
            String::from_str("bigint")
        } else {
            String::from_str("number")
        },
        FoldVal::Float(_) => if typeof_names {
            String::from_str("float")
        } else {
            String::from_str("number")
        },
        FoldVal::Str(_) => String::from_str("string"),
    }
}

fn tostring_of(c: &FoldVal) -> (r: String)
    ensures
        r@ == tostring_text(fold_val_view(*c)),
{
    match c {
        FoldVal::Nil => String::from_str("nil"),
        FoldVal::Bool(b) => if *b {
            String::from_str("true")
        } else {
            String::from_str("false")
        },
        FoldVal::Int(i) => big_decimal(i),
        FoldVal::Float(t) => t.clone(),
        FoldVal::Str(s) => s.clone(),
    }
}

/// A bitwise operation folded over constant arguments (see `fold_bits`).
fn fold_bits_exec(f: &String, cs: &Vec<FoldVal>) -> (r: Option<BigInt>)
    ensures
        match r {
            Some(v) => fold_bits(f@, vals_view(cs@)) == Some(big_value(v)),
            None => fold_bits(f@, vals_view(cs@)) is None,
        },
{
    let ghost vs = vals_view(cs@);
    if cs.len() == 0 {
        return None;
    }
    let mut acc = match &cs[0] {
        FoldVal::Int(i) => clone_bigint(i),
        _ => {
            proof {
                lemma_fold_bits_none_first(f@, vs);
            }
            return None;
        },
    };
    assert(vs.take(1).drop_last() =~= Seq::<ConstV>::empty());
    assert(fold_bits(f@, vs.take(1)) == Some(big_value(acc)));
    let is_and = text_is(f, "band");
    let is_or = text_is(f, "bor");
    let mut i: usize = 1;
    while i < cs.len()
        invariant
            1 <= i <= cs@.len(),
            vs == vals_view(cs@),
            is_and == (f@ == "band"@),
            is_or == (f@ == "bor"@),
            fold_bits(f@, vs.take(i as int)) == Some(big_value(acc)),
        decreases cs@.len() - i,
    {
        assert(vs.take(i + 1).drop_last() =~= vs.take(i as int));
        assert(vs.take(i + 1).last() == vs[i as int]);
        match &cs[i] {
            FoldVal::Int(b) => {
                acc = if is_and {
                    big_and(&acc, b)
                } else if is_or {
                    big_or(&acc, b)
                } else {
                    big_xor(&acc, b)
                };
            },
            _ => {
                proof {
                    lemma_fold_bits_none_later(f@, vs, i as int);
                }
                return None;
            },
        }
        i = i + 1;
    }
    assert(vs.take(cs@.len() as int) =~= vs);
    Some(acc)
}

proof fn lemma_fold_bits_none_first(f: Seq<char>, vs: Seq<ConstV>)
    requires
        vs.len() > 0,
        !(vs[0] is Int),
    ensures
        fold_bits(f, vs) is None,
    decreases vs.len(),
{
    if vs.len() > 1 {
        lemma_fold_bits_none_first(f, vs.drop_last());
    }
}

proof fn lemma_fold_bits_none_later(f: Seq<char>, vs: Seq<ConstV>, i: int)
    requires
        1 <= i < vs.len(),
        !(vs[i] is Int),
    ensures
        fold_bits(f, vs) is None,
    decreases vs.len(),
{
    if i < vs.len() - 1 {
        lemma_fold_bits_none_later(f, vs.drop_last(), i);
    }
}

fn all_ints_exec(cs: &Vec<FoldVal>) -> (r: bool)
    ensures
        r == all_ints(vals_view(cs@)),
{
    let mut i: usize = 0;
    while i < cs.len()
        invariant
            i <= cs@.len(),
            forall|k: int| 0 <= k < i ==> vals_view(cs@)[k] is Int,
        decreases cs@.len() - i,
    {
        match &cs[i] {
            FoldVal::Int(_) => {},
            _ => {
                assert(!(vals_view(cs@)[i as int] is Int));
                return false;
            },
        }
        i = i + 1;
    }
    true
}

/// Whether a built-in call on constants would give a float (see
/// `float_call`).
fn float_call_exec(fc: &Expr, cs: &Vec<FoldVal>, sh: &Vec<String>) -> (r: bool)
    ensures
        r == float_call(expr_view(*fc), vals_view(cs@), strings_view(sh@)),
{
    match builtin_callee(fc, sh) {
        Some((m, f)) => {
            if !text_is(&m, "math") || cs.len() == 0 {
                return false;
            }
            let first_int = match &cs[0] {
                FoldVal::Int(_) => true,
                _ => false,
            };
            if (text_is(&f, "floor") || text_is(&f, "ceil")) && first_int {
                return true;
            }
            if text_is(&f, "sqrt") {
                match &cs[0] {
                    FoldVal::Int(i) => {
                        let zero = big_from_u64(0);
                        if big_ge(i, &zero) {
                            return true;
                        }
                    },
                    _ => {},
                }
            }
            (text_is(&f, "min") || text_is(&f, "max")) && all_ints_exec(cs)
        },
        None => false,
    }
}

/// Whether a call shifts left past the folding limit (see `huge_shift`).
fn huge_shift_exec(fc: &Expr, cs: &Vec<FoldVal>, sh: &Vec<String>) -> (r: bool)
    ensures
        r == huge_shift(expr_view(*fc), vals_view(cs@), strings_view(sh@)),
{
    match builtin_callee(fc, sh) {
        Some((m, f)) => {
            if !((text_is(&m, "bit") || text_is(&m, "bit32")) && text_is(&f, "lshift") && cs.len() >= 2) {
                return false;
            }
            match (&cs[0], &cs[1]) {
                (FoldVal::Int(_), FoldVal::Int(n)) => match big_to_usize(n) {
                    Some(k) => k > 4096,
                    None => false,
                },
                _ => false,
            }
        },
        None => false,
    }
}

/// Whether a string is empty.
fn text_empty(s: &String) -> (r: bool)
    ensures
        r == (s@.len() == 0),
{
    let cs = chars_of(s.as_str());
    cs.len() == 0
}

/// A built-in call on constants (see `const_call`).
fn const_call_exec(fc: &Expr, cs: &Vec<FoldVal>, sh: &Vec<String>) -> (r: Option<FoldVal>)
    ensures
        opt_val_view(r) == const_call(expr_view(*fc), vals_view(cs@), strings_view(sh@)),
{
    let ghost vs = vals_view(cs@);
    match builtin_callee(fc, sh) {
        None => None,
        Some((m, f)) => {
            if text_empty(&m) {
                if cs.len() == 0 {
                    None
                } else if text_is(&f, "type") {
                    Some(FoldVal::Str(type_name_of(&cs[0], false)))
                } else if text_is(&f, "typeof") {
                    Some(FoldVal::Str(type_name_of(&cs[0], true)))
                } else if text_is(&f, "tostring") {
                    match &cs[0] {
                        FoldVal::Float(_) => None,
                        c => Some(FoldVal::Str(tostring_of(c))),
                    }
                } else {
                    None
                }
            } else if text_is(&m, "math") {
                if text_is(&f, "abs") && cs.len() > 0 {
                    match &cs[0] {
                        FoldVal::Int(i) => Some(FoldVal::Int(big_abs(i))),
                        FoldVal::Float(t) => Some(FoldVal::Float(unsigned_text(t))),
                        _ => None,
                    }
                } else {
                    None
                }
            } else if text_is(&m, "bit") || text_is(&m, "bit32") {
                if text_is(&f, "band") || text_is(&f, "bor") || text_is(&f, "bxor") {
                    match fold_bits_exec(&f, cs) {
                        Some(v) => Some(FoldVal::Int(v)),
                        None => None,
                    }
                } else if text_is(&f, "bnot") && cs.len() > 0 {
                    match &cs[0] {
                        FoldVal::Int(i) => Some(FoldVal::Int(big_not(i))),
                        _ => None,
                    }
                } else if (text_is(&f, "lshift") || text_is(&f, "rshift")) && cs.len() >= 2 {
                    match (&cs[0], &cs[1]) {
                        (FoldVal::Int(v), FoldVal::Int(n)) => match big_to_usize(n) {
                            Some(k) => if text_is(&f, "rshift") {
                                Some(FoldVal::Int(big_shr(v, k)))
                            } else if k <= 4096 {
                                Some(FoldVal::Int(big_shl(v, k)))
                            } else {
                                None
                            },
                            None => None,
                        },
                        _ => None,
                    }
                } else {
                    None
                }
            } else if text_is(&m, "string") && cs.len() > 0 {
                match &cs[0] {
                    FoldVal::Str(s) => if text_is(&f, "len") {
                        let n = byte_len(s);
                        Some(FoldVal::Int(big_from_u64(n as u64)))
                    } else if text_is(&f, "lower") {
                        Some(FoldVal::Str(to_lower(s)))
                    } else if text_is(&f, "upper") {
                        Some(FoldVal::Str(to_upper(s)))
                    } else if text_is(&f, "reverse") {
                        let x = chars_of(s.as_str());
                        let mut out: Vec<char> = Vec::new();
                        let mut k: usize = x.len();
                        while k > 0
                            invariant
                                k <= x@.len(),
                                out@ == x@.subrange(k as int, x@.len() as int).reverse(),
                            decreases k,
                        {
                            k = k - 1;
                            out.push(x[k]);
                            assert(out@ =~= x@.subrange(k as int, x@.len() as int).reverse());
                        }
                        assert(x@.subrange(0, x@.len() as int) =~= x@);
                        Some(FoldVal::Str(string_from_chars(out.as_slice())))
                    } else {
                        None
                    },
                    _ => None,
                }
            } else {
                None
            }
        },
    }
}

/// The integer literal an expression is, if it is one (see `int_arg`).
fn int_arg_exec(e: &Expr) -> (r: Option<BigInt>)
    ensures
        match r {
            Some(i) => int_arg(expr_view(*e)) == Some(big_value(i)),
            None => int_arg(expr_view(*e)) is None,
        },
{
    match const_from(e) {
        Some(FoldVal::Int(i)) => Some(i),
        _ => None,
    }
}

/// A built-in call on argument expressions (see `scoped_call`).
pub(crate) fn scoped_call_exec(fc: &Expr, fa: &Vec<Expr>, sh: &Vec<String>) -> (r: Option<Expr>)
    ensures
        match r {
            Some(x) => scoped_call(expr_view(*fc), exprs_view(fa@), strings_view(sh@)) == Some(expr_view(x)),
            None => scoped_call(expr_view(*fc), exprs_view(fa@), strings_view(sh@)) is None,
        },
{
    proof {
        lemma_exprs_view_index(fa@);
    }
    let ghost args = exprs_view(fa@);
    match builtin_callee(fc, sh) {
        None => None,
        Some((m, f)) => {
            if fa.len() == 0 {
                return None;
            }
            assert(args[0] == expr_view(fa@[0]));
            if text_is(&m, "math") && (text_is(&f, "abs") || text_is(&f, "floor") || text_is(&f, "ceil")) {
                match int_arg_exec(&fa[0]) {
                    Some(i) => {
                        let v = if text_is(&f, "abs") {
                            big_abs(&i)
                        } else {
                            i
                        };
                        Some(const_to_expr(&FoldVal::Int(v)))
                    },
                    None => if text_is(&f, "abs") {
                        match const_from(&fa[0]) {
                            Some(FoldVal::Float(t)) => Some(Expr::Literal(unsigned_text(&t))),
                            _ => None,
                        }
                    } else {
                        None
                    },
                }
            } else if text_is(&m, "bit") && text_is(&f, "bnot") {
                match int_arg_exec(&fa[0]) {
                    Some(a) => {
                        let u: u64 = match big_to_u32(&a) {
                            Some(x) => x as u64,
                            None => 0,
                        };
                        let v = big_from_u64(4294967295 - u);
                        Some(const_to_expr(&FoldVal::Int(v)))
                    },
                    None => None,
                }
            } else if text_is(&m, "bit") && (text_is(&f, "band") || text_is(&f, "bor") || text_is(&f, "bxor")
                || text_is(&f, "lshift") || text_is(&f, "rshift")) {
                if fa.len() < 2 {
                    return None;
                }
                assert(args[1] == expr_view(fa@[1]));
                match (int_arg_exec(&fa[0]), int_arg_exec(&fa[1])) {
                    (Some(a), Some(b)) => {
                        if text_is(&f, "band") {
                            Some(const_to_expr(&FoldVal::Int(big_and(&a, &b))))
                        } else if text_is(&f, "bor") {
                            Some(const_to_expr(&FoldVal::Int(big_or(&a, &b))))
                        } else if text_is(&f, "bxor") {
                            Some(const_to_expr(&FoldVal::Int(big_xor(&a, &b))))
                        } else {
                            match big_to_usize(&b) {
                                None => None,
                                Some(n) => if n > 64 {
                                    Some(const_to_expr(&FoldVal::Int(big_from_u64(0))))
                                } else if text_is(&f, "lshift") {
                                    Some(const_to_expr(&FoldVal::Int(big_shl(&a, n))))
                                } else {
                                    Some(const_to_expr(&FoldVal::Int(big_shr(&a, n))))
                                },
                            }
                        }
                    },
                    _ => None,
                }
            } else if text_is(&m, "string") && (text_is(&f, "len") || text_is(&f, "lower") || text_is(&f, "upper")) {
                match &fa[0] {
                    Expr::Str(s) => if text_is(&f, "len") {
                        let n = byte_len(s);
                        Some(const_to_expr(&FoldVal::Int(big_from_u64(n as u64))))
                    } else if text_is(&f, "lower") {
                        Some(const_to_expr(&FoldVal::Str(to_lower(s))))
                    } else {
                        Some(const_to_expr(&FoldVal::Str(to_upper(s))))
                    },
                    _ => None,
                }
            } else if text_empty(&m) && text_is(&f, "int") {
                match int_arg_exec(&fa[0]) {
                    Some(i) => Some(const_to_expr(&FoldVal::Int(i))),
                    None => match &fa[0] {
                        Expr::Str(s) => match parse_int_from_str(s.as_str()) {
                            Some(i) => Some(const_to_expr(&FoldVal::Int(i))),
                            None => None,
                        },
                        _ => None,
                    },
                }
            } else {
                None
            }
        },
    }
}

/// The constants of a list of expressions, if every one is a constant
/// (see `consts_of`).
fn consts_from(fa: &Vec<Expr>) -> (r: Option<Vec<FoldVal>>)
    ensures
        match r {
            Some(v) => consts_of(exprs_view(fa@)) == Some(vals_view(v@)),
            None => consts_of(exprs_view(fa@)) is None,
        },
{
    let mut out: Vec<FoldVal> = Vec::new();
    let mut i: usize = 0;
    proof {
        lemma_exprs_view_index(fa@);
    }
    assert(exprs_view(fa@.subrange(0, 0)) =~= Seq::<ExprV>::empty());
    assert(vals_view(out@) =~= Seq::<ConstV>::empty());
    while i < fa.len()
        invariant
            i <= fa@.len(),
            consts_of(exprs_view(fa@.subrange(0, i as int))) == Some(vals_view(out@)),
            exprs_view(fa@).len() == fa@.len(),
            forall|k: int| 0 <= k < fa@.len() ==> #[trigger] exprs_view(fa@)[k] == expr_view(fa@[k]),
        decreases fa@.len() - i,
    {
        let ghost a = fa@.subrange(0, i as int);
        assert(fa@.subrange(0, i + 1) =~= a.push(fa@[i as int]));
        proof {
            lemma_exprs_view_push(a, fa@[i as int]);
            assert(exprs_view(a).push(expr_view(fa@[i as int])).drop_last() =~= exprs_view(a));
        }
        match const_from(&fa[i]) {
            Some(c) => {
                let ghost o = out@;
                out.push(c);
                assert(vals_view(out@) =~= vals_view(o).push(fold_val_view(c)));
            },
            None => {
                proof {
                    lemma_consts_none(exprs_view(fa@), i as int);
                }
                return None;
            },
        }
        i = i + 1;
    }
    assert(fa@.subrange(0, fa@.len() as int) =~= fa@);
    Some(out)
}

proof fn lemma_consts_none(es: Seq<ExprV>, i: int)
    requires
        0 <= i < es.len(),
        const_of(es[i]) is None,
    ensures
        consts_of(es) is None,
    decreases es.len(),
{
    if i < es.len() - 1 {
        lemma_consts_none(es.drop_last(), i);
    }
}

/// A call with folded callee and arguments (see `fold_call`).
fn fold_call_exec(fc: Expr, fa: Vec<Expr>, sh: &Vec<String>) -> (r: Expr)
    ensures
        expr_view(r) == fold_call(expr_view(fc), exprs_view(fa@), strings_view(sh@)),
{
    match consts_from(&fa) {
        Some(cs) => {
            if float_call_exec(&fc, &cs, sh) || huge_shift_exec(&fc, &cs, sh) {
                return Expr::Call { callee: Box::new(fc), args: fa };
            }
            match const_call_exec(&fc, &cs, sh) {
                Some(v) => {
                    return const_to_expr(&v);
                },
                None => {},
            }
        },
        None => {},
    }
    match scoped_call_exec(&fc, &fa, sh) {
        Some(x) => x,
        None => Expr::Call { callee: Box::new(fc), args: fa },
    }
}

/// An optional statement as a value.
pub open spec fn opt_stmt_view(o: Option<Stmt>) -> Option<StmtV> {
    match o {
        Some(s) => Some(stmt_view(s)),
        None => None,
    }
}

proof fn lemma_fold_es_step(v: Seq<Expr>, i: int, sh: Seq<Seq<char>>)
    requires
        0 <= i < v.len(),
    ensures
        fold_es(exprs_view(v.subrange(0, i + 1)), sh) == fold_es(exprs_view(v.subrange(0, i)), sh).push(
            fold_e(expr_view(v[i]), sh),
        ),
        fold_targets(exprs_view(v.subrange(0, i + 1)), sh) == fold_targets(exprs_view(v.subrange(0, i)), sh).push(
            fold_target(expr_view(v[i]), sh),
        ),
{
    let a = v.subrange(0, i);
    assert(v.subrange(0, i + 1) =~= a.push(v[i]));
    lemma_exprs_view_push(a, v[i]);
    let s = exprs_view(a);
    assert(s.push(expr_view(v[i])).subrange(0, s.len() as int) =~= s);
}

proof fn lemma_fold_entries_step(v: Seq<TableEntry>, i: int, sh: Seq<Seq<char>>)
    requires
        0 <= i < v.len(),
    ensures
        fold_entries(entries_view(v.subrange(0, i + 1)), sh) == fold_entries(entries_view(v.subrange(0, i)), sh).push(
            EntryV { key: opt_text(v[i].key), value: fold_e(expr_view(v[i].value), sh) },
        ),
{
    let a = v.subrange(0, i);
    assert(v.subrange(0, i + 1) =~= a.push(v[i]));
    lemma_entries_view_push(a, v[i]);
    let s = entries_view(a);
    let x = EntryV { key: opt_text(v[i].key), value: expr_view(v[i].value) };
    assert(s.push(x).subrange(0, s.len() as int) =~= s);
}

proof fn lemma_fold_block_step(v: Seq<Stmt>, i: int, sh: Seq<Seq<char>>)
    requires
        0 <= i < v.len(),
    ensures
        fold_block(stmts_view(v.subrange(0, i + 1)), sh) == ({
            let (rest, sh1) = fold_block(stmts_view(v.subrange(0, i)), sh);
            let (o, sh2) = fold_s(stmt_view(v[i]), sh1);
            match o {
                Some(s) => (rest.push(s), sh2),
                None => (rest, sh2),
            }
        }),
{
    let a = v.subrange(0, i);
    assert(v.subrange(0, i + 1) =~= a.push(v[i]));
    lemma_stmts_view_push(a, v[i]);
    let s = stmts_view(a);
    assert(s.push(stmt_view(v[i])).subrange(0, s.len() as int) =~= s);
}

proof fn lemma_fold_branches_step(v: Seq<(Expr, Vec<Stmt>)>, i: int, sh: Seq<Seq<char>>)
    requires
        0 <= i < v.len(),
    ensures
        fold_branches(branches_view(v.subrange(0, i + 1)), sh) == fold_branches(
            branches_view(v.subrange(0, i)),
            sh,
        ).push((fold_e(expr_view(v[i].0), sh), fold_block(stmts_view(v[i].1@), sh).0)),
{
    let a = v.subrange(0, i);
    assert(v.subrange(0, i + 1) =~= a.push(v[i]));
    lemma_branches_view_push(a, v[i]);
    let s = branches_view(a);
    let x = (expr_view(v[i].0), stmts_view(v[i].1@));
    assert(s.push(x).subrange(0, s.len() as int) =~= s);
}

/// Appends names to the names in scope.
fn push_names(sh: &mut Vec<String>, names: &Vec<String>)
    ensures
        strings_view(final(sh)@) == strings_view(old(sh)@) + strings_view(names@),
{
    let mut i: usize = 0;
    while i < names.len()
        invariant
            i <= names@.len(),
            strings_view(sh@) == strings_view(old(sh)@) + strings_view(names@.subrange(0, i as int)),
        decreases names@.len() - i,
    {
        let ghost before = sh@;
        let nm = names[i].clone();
        assert(nm@ == names@[i as int]@);
        sh.push(nm);
        assert(strings_view(sh@) =~= strings_view(before).push(names@[i as int]@));
        assert(strings_view(names@.subrange(0, i + 1)) =~= strings_view(names@.subrange(0, i as int)).push(
            names@[i as int]@,
        ));
        assert(strings_view(sh@) =~= strings_view(old(sh)@) + strings_view(names@.subrange(0, i + 1)));
        i = i + 1;
    }
    assert(names@.subrange(0, names@.len() as int) =~= names@);
}

/// Appends the names of parameters to the names in scope.
fn push_param_names(sh: &mut Vec<String>, ps: &Vec<Param>)
    ensures
        strings_view(final(sh)@) == strings_view(old(sh)@) + param_names(params_view(ps@)),
{
    let mut i: usize = 0;
    while i < ps.len()
        invariant
            i <= ps@.len(),
            strings_view(sh@) == strings_view(old(sh)@) + param_names(params_view(ps@.subrange(0, i as int))),
        decreases ps@.len() - i,
    {
        let ghost before = sh@;
        let nm = ps[i].name.clone();
        assert(nm@ == ps@[i as int].name@);
        sh.push(nm);
        assert(strings_view(sh@) =~= strings_view(before).push(ps@[i as int].name@));
        assert(param_names(params_view(ps@.subrange(0, i + 1))) =~= param_names(
            params_view(ps@.subrange(0, i as int)),
        ).push(ps@[i as int].name@));
        assert(strings_view(sh@) =~= strings_view(old(sh)@) + param_names(params_view(ps@.subrange(0, i + 1))));
        i = i + 1;
    }
    assert(ps@.subrange(0, ps@.len() as int) =~= ps@);
}

/// A copy of the names in scope, for a nested scope.
fn scope_copy(sh: &Vec<String>) -> (r: Vec<String>)
    ensures
        strings_view(r@) == strings_view(sh@),
{
    crate::parser::clone_strings(sh)
}

/// An expression with its constant parts folded (see `fold_e`).
fn fold_expr_scoped(e: &Expr, sh: &Vec<String>) -> (r: Expr)
    ensures
        expr_view(r) == fold_e(expr_view(*e), strings_view(sh@)),
    decreases e,
{
    match e {
        Expr::Unary { op, expr } => {
            let x = fold_expr_scoped(expr, sh);
            match const_from(&x) {
                Some(c) => match unary_value(op, &c) {
                    Some(v) => const_to_expr(&v),
                    None => Expr::Unary { op: op.clone(), expr: Box::new(x) },
                },
                None => Expr::Unary { op: op.clone(), expr: Box::new(x) },
            }
        },
        Expr::Binary { left, op, right } => {
            let l = fold_expr_scoped(left, sh);
            let is_and = text_is(op, "and");
            let is_or = text_is(op, "or");
            let is_sc = is_and || is_or || text_is(op, "??");
            if is_sc {
                match const_from(&l) {
                    Some(c) => {
                        let keep_left = if is_and {
                            !is_truthy(&c)
                        } else if is_or {
                            is_truthy(&c)
                        } else {
                            match c {
                                FoldVal::Nil => false,
                                _ => true,
                            }
                        };
                        if keep_left {
                            return l;
                        } else {
                            return fold_expr_scoped(right, sh);
                        }
                    },
                    None => {},
                }
            }
            let r = fold_expr_scoped(right, sh);
            if !is_sc {
                match (const_from(&l), const_from(&r)) {
                    (Some(a), Some(b)) => match binary_value(op, &a, &b) {
                        Some(v) => {
                            return const_to_expr(&v);
                        },
                        None => {},
                    },
                    _ => {},
                }
            }
            Expr::Binary { left: Box::new(l), op: op.clone(), right: Box::new(r) }
        },
        Expr::Member { object, field } => Expr::Member {
            object: Box::new(fold_expr_scoped(object, sh)),
            field: field.clone(),
        },
        Expr::Index { object, index } => Expr::Index {
            object: Box::new(fold_expr_scoped(object, sh)),
            index: Box::new(fold_expr_scoped(index, sh)),
        },
        Expr::Call { callee, args } => {
            let fc = fold_expr_scoped(callee, sh);
            let fa = fold_exprs(args, sh);
            fold_call_exec(fc, fa, sh)
        },
        Expr::MethodCall { object, method, args } => Expr::MethodCall {
            object: Box::new(fold_expr_scoped(object, sh)),
            method: method.clone(),
            args: fold_exprs(args, sh),
        },
        Expr::Function { params, body } => {
            let mut child = scope_copy(sh);
            push_param_names(&mut child, params);
            Expr::Function { params: clone_params(params), body: fold_block_ref(body, &mut child) }
        },
        Expr::Table(entries) => Expr::Table(fold_entries_ref(entries, sh)),
        _ => clone_expr(e),
    }
}

/// Expressions folded one by one.
fn fold_exprs(v: &Vec<Expr>, sh: &Vec<String>) -> (r: Vec<Expr>)
    ensures
        exprs_view(r@) == fold_es(exprs_view(v@), strings_view(sh@)),
    decreases v,
{
    let mut r: Vec<Expr> = Vec::new();
    let mut i: usize = 0;
    assert(exprs_view(v@.subrange(0, 0)) =~= Seq::<ExprV>::empty());
    assert(exprs_view(r@) =~= Seq::<ExprV>::empty());
    while i < v.len()
        invariant
            i <= v@.len(),
            exprs_view(r@) == fold_es(exprs_view(v@.subrange(0, i as int)), strings_view(sh@)),
        decreases v@.len() - i,
    {
        proof {
            assert(decreases_to!(v => v@[i as int]));
            lemma_fold_es_step(v@, i as int, strings_view(sh@));
        }
        let x = fold_expr_scoped(&v[i], sh);
        proof {
            lemma_exprs_view_push(r@, x);
        }
        r.push(x);
        i = i + 1;
    }
    assert(v@.subrange(0, v@.len() as int) =~= v@);
    r
}

/// An assignment target folded (see `fold_target`).
fn fold_target_ref(e: &Expr, sh: &Vec<String>) -> (r: Expr)
    ensures
        expr_view(r) == fold_target(expr_view(*e), strings_view(sh@)),
    decreases e,
{
    match e {
        Expr::Member { object, field } => Expr::Member {
            object: Box::new(fold_expr_scoped(object, sh)),
            field: field.clone(),
        },
        Expr::Index { object, index } => Expr::Index {
            object: Box::new(fold_expr_scoped(object, sh)),
            index: Box::new(fold_expr_scoped(index, sh)),
        },
        _ => clone_expr(e),
    }
}

/// Assignment targets folded one by one.
fn fold_targets_ref(v: &Vec<Expr>, sh: &Vec<String>) -> (r: Vec<Expr>)
    ensures
        exprs_view(r@) == fold_targets(exprs_view(v@), strings_view(sh@)),
    decreases v,
{
    let mut r: Vec<Expr> = Vec::new();
    let mut i: usize = 0;
    assert(exprs_view(v@.subrange(0, 0)) =~= Seq::<ExprV>::empty());
    assert(exprs_view(r@) =~= Seq::<ExprV>::empty());
    while i < v.len()
        invariant
            i <= v@.len(),
            exprs_view(r@) == fold_targets(exprs_view(v@.subrange(0, i as int)), strings_view(sh@)),
        decreases v@.len() - i,
    {
        proof {
            assert(decreases_to!(v => v@[i as int]));
            lemma_fold_es_step(v@, i as int, strings_view(sh@));
        }
        let x = fold_target_ref(&v[i], sh);
        proof {
            lemma_exprs_view_push(r@, x);
        }
        r.push(x);
        i = i + 1;
    }
    assert(v@.subrange(0, v@.len() as int) =~= v@);
    r
}

/// Table entries with their values folded.
fn fold_entries_ref(v: &Vec<TableEntry>, sh: &Vec<String>) -> (r: Vec<TableEntry>)
    ensures
        entries_view(r@) == fold_entries(entries_view(v@), strings_view(sh@)),
    decreases v,
{
    let mut r: Vec<TableEntry> = Vec::new();
    let mut i: usize = 0;
    assert(entries_view(v@.subrange(0, 0)) =~= Seq::<EntryV>::empty());
    assert(entries_view(r@) =~= Seq::<EntryV>::empty());
    while i < v.len()
        invariant
            i <= v@.len(),
            entries_view(r@) == fold_entries(entries_view(v@.subrange(0, i as int)), strings_view(sh@)),
        decreases v@.len() - i,
    {
        proof {
            assert(decreases_to!(v => v@[i as int]));
            lemma_fold_entries_step(v@, i as int, strings_view(sh@));
        }
        let x = TableEntry {
            key: crate::parser::clone_opt_string(&v[i].key),
            value: fold_expr_scoped(&v[i].value, sh),
        };
        proof {
            lemma_entries_view_push(r@, x);
        }
        r.push(x);
        i = i + 1;
    }
    assert(v@.subrange(0, v@.len() as int) =~= v@);
    r
}

/// A block folded statement by statement (see `fold_block`); `sh` holds
/// the names in scope and ends with those in scope after the block.
fn fold_block_ref(v: &Vec<Stmt>, sh: &mut Vec<String>) -> (r: Vec<Stmt>)
    ensures
        (stmts_view(r@), strings_view(final(sh)@)) == fold_block(stmts_view(v@), strings_view(old(sh)@)),
    decreases v,
{
    let ghost start = strings_view(sh@);
    let mut r: Vec<Stmt> = Vec::new();
    let mut i: usize = 0;
    assert(stmts_view(v@.subrange(0, 0)) =~= Seq::<StmtV>::empty());
    assert(stmts_view(r@) =~= Seq::<StmtV>::empty());
    while i < v.len()
        invariant
            i <= v@.len(),
            start == strings_view(old(sh)@),
            (stmts_view(r@), strings_view(sh@)) == fold_block(stmts_view(v@.subrange(0, i as int)), start),
        decreases v@.len() - i,
    {
        proof {
            assert(decreases_to!(v => v@[i as int]));
            lemma_fold_block_step(v@, i as int, start);
        }
        match fold_stmt_scoped(&v[i], sh) {
            Some(x) => {
                proof {
                    lemma_stmts_view_push(r@, x);
                }
                r.push(x);
            },
            None => {},
        }
        i = i + 1;
    }
    assert(v@.subrange(0, v@.len() as int) =~= v@);
    r
}

/// `elseif` branches folded.
fn fold_branches_ref(v: &Vec<(Expr, Vec<Stmt>)>, sh: &Vec<String>) -> (r: Vec<(Expr, Vec<Stmt>)>)
    ensures
        branches_view(r@) == fold_branches(branches_view(v@), strings_view(sh@)),
    decreases v,
{
    let mut r: Vec<(Expr, Vec<Stmt>)> = Vec::new();
    let mut i: usize = 0;
    assert(branches_view(v@.subrange(0, 0)) =~= Seq::<(ExprV, Seq<StmtV>)>::empty());
    assert(branches_view(r@) =~= Seq::<(ExprV, Seq<StmtV>)>::empty());
    while i < v.len()
        invariant
            i <= v@.len(),
            branches_view(r@) == fold_branches(branches_view(v@.subrange(0, i as int)), strings_view(sh@)),
        decreases v@.len() - i,
    {
        proof {
            assert(decreases_to!(v => v@[i as int]));
            lemma_fold_branches_step(v@, i as int, strings_view(sh@));
        }
        let x = (fold_expr_scoped(&v[i].0, sh), {
                let mut child = scope_copy(sh);
                fold_block_ref(&v[i].1, &mut child)
            });
        proof {
            lemma_branches_view_push(r@, x);
        }
        r.push(x);
        i = i + 1;
    }
    assert(v@.subrange(0, v@.len() as int) =~= v@);
    r
}

fn fold_opt_ref(o: &Option<Expr>, sh: &Vec<String>) -> (r: Option<Expr>)
    ensures
        opt_expr_view(r) == fold_opt(opt_expr_view(*o), strings_view(sh@)),
    decreases o,
{
    match o {
        Some(e) => Some(fold_expr_scoped(e, sh)),
        None => None,
    }
}

/// A statement folded (see `fold_s`); `sh` holds the names in scope and
/// ends with those in scope after the statement.
fn fold_stmt_scoped(s: &Stmt, sh: &mut Vec<String>) -> (r: Option<Stmt>)
    ensures
        (opt_stmt_view(r), strings_view(final(sh)@)) == fold_s(stmt_view(*s), strings_view(old(sh)@)),
    decreases s,
{
    match s {
        Stmt::Local { name, is_const, type_annotation, initializer } => {
            let init = fold_opt_ref(initializer, sh);
            sh.push(name.clone());
            assert(strings_view(sh@) =~= strings_view(old(sh)@).push(name@));
            Some(
                Stmt::Local {
                    name: name.clone(),
                    is_const: *is_const,
                    type_annotation: crate::parser::clone_opt_string(type_annotation),
                    initializer: init,
                },
            )
        },
        Stmt::LocalMany { names, is_const, initializers } => {
            let inits = fold_exprs(initializers, sh);
            push_names(sh, names);
            Some(
                Stmt::LocalMany {
                    names: crate::parser::clone_strings(names),
                    is_const: *is_const,
                    initializers: inits,
                },
            )
        },
        Stmt::Assign { target, value, is_const } => Some(
            Stmt::Assign { target: fold_target_ref(target, sh), value: fold_expr_scoped(value, sh), is_const: *is_const },
        ),
        Stmt::AssignMany { targets, values } => Some(
            Stmt::AssignMany { targets: fold_targets_ref(targets, sh), values: fold_exprs(values, sh) },
        ),
        Stmt::Increment { target, amount } => Some(
            Stmt::Increment { target: fold_target_ref(target, sh), amount: *amount },
        ),
        Stmt::Function { name, is_const, params, return_type, body } => {
            let mut child = scope_copy(sh);
            push_param_names(&mut child, params);
            let b = fold_block_ref(body, &mut child);
            match name {
                Some(n) => {
                    sh.push(n.clone());
                    assert(strings_view(sh@) =~= strings_view(old(sh)@).push(n@));
                },
                None => {},
            }
            Some(
                Stmt::Function {
                    name: crate::parser::clone_opt_string(name),
                    is_const: *is_const,
                    params: clone_params(params),
                    return_type: crate::parser::clone_opt_string(return_type),
                    body: b,
                },
            )
        },
        Stmt::If { condition, then_branch, else_if_branches, else_branch } => {
            let c = fold_expr_scoped(condition, sh);
            let pruned = match const_from(&c) {
                Some(v) => is_truthy(&v),
                None => false,
            };
            if pruned {
                let none: Vec<(Expr, Vec<Stmt>)> = Vec::new();
                assert(branches_view(none@) =~= Seq::<(ExprV, Seq<StmtV>)>::empty());
                Some(
                    Stmt::If {
                        condition: c,
                        then_branch: {
                let mut child = scope_copy(sh);
                fold_block_ref(then_branch, &mut child)
            },
                        else_if_branches: none,
                        else_branch: None,
                    },
                )
            } else {
                Some(
                    Stmt::If {
                        condition: c,
                        then_branch: {
                let mut child = scope_copy(sh);
                fold_block_ref(then_branch, &mut child)
            },
                        else_if_branches: fold_branches_ref(else_if_branches, sh),
                        else_branch: match else_branch {
                            Some(b) => Some({
                let mut child = scope_copy(sh);
                fold_block_ref(b, &mut child)
            }),
                            None => None,
                        },
                    },
                )
            }
        },
        Stmt::While { condition, body } => {
            let c = fold_expr_scoped(condition, sh);
            let never = match const_from(&c) {
                Some(FoldVal::Bool(b)) => !b,
                Some(FoldVal::Nil) => true,
                _ => false,
            };
            if never {
                None
            } else {
                Some(Stmt::While { condition: c, body: {
                let mut child = scope_copy(sh);
                fold_block_ref(body, &mut child)
            } })
            }
        },
        Stmt::NumericFor { var, start, end, step, body } => {
            let f_start = fold_expr_scoped(start, sh);
            let f_end = fold_expr_scoped(end, sh);
            let f_step = fold_opt_ref(step, sh);
            let mut child = scope_copy(sh);
            child.push(var.clone());
            assert(strings_view(child@) =~= strings_view(sh@).push(var@));
            Some(
                Stmt::NumericFor {
                    var: var.clone(),
                    start: f_start,
                    end: f_end,
                    step: f_step,
                    body: fold_block_ref(body, &mut child),
                },
            )
        },
        Stmt::For { vars, source, body } => {
            let f_source = fold_expr_scoped(source, sh);
            let mut child = scope_copy(sh);
            push_names(&mut child, vars);
            Some(
                Stmt::For {
                    vars: crate::parser::clone_strings(vars),
                    source: f_source,
                    body: fold_block_ref(body, &mut child),
                },
            )
        },
        Stmt::Repeat { body, condition } => {
            let mut child = scope_copy(sh);
            let b = fold_block_ref(body, &mut child);
            Some(Stmt::Repeat { body: b, condition: fold_expr_scoped(condition, &child) })
        },
        Stmt::Return(values) => Some(Stmt::Return(fold_exprs(values, sh))),
        Stmt::Expr(e) => Some(Stmt::Expr(fold_expr_scoped(e, sh))),
        Stmt::Break => Some(Stmt::Break),
        Stmt::Continue => Some(Stmt::Continue),
    }
}

/// Folds the constant parts of an expression, with no local names in
/// scope (see `fold_e`).
pub fn fold_expr(expr: Expr) -> (r: Expr)
    ensures
        expr_view(r) == fold_e(expr_view(expr), Seq::empty()),
{
    let sh: Vec<String> = Vec::new();
    assert(strings_view(sh@) =~= Seq::<Seq<char>>::empty());
    fold_expr_scoped(&expr, &sh)
}

/// Folds the constant parts of a statement, with no local names in scope;
/// `None` where it disappears (see `fold_s`).
pub fn fold_stmt(stmt: Stmt) -> (r: Option<Stmt>)
    ensures
        opt_stmt_view(r) == fold_s(stmt_view(stmt), Seq::empty()).0,
{
    let mut sh: Vec<String> = Vec::new();
    assert(strings_view(sh@) =~= Seq::<Seq<char>>::empty());
    fold_stmt_scoped(&stmt, &mut sh)
}

// ---------------------------------------------------------------------------
// Comparing trees
// ---------------------------------------------------------------------------

proof fn lemma_exprs_view_index(s: Seq<Expr>)
    ensures
        exprs_view(s).len() == s.len(),
        forall|i: int| 0 <= i < s.len() ==> #[trigger] exprs_view(s)[i] == expr_view(s[i]),
    decreases s.len(),
{
    if s.len() > 0 {
        lemma_exprs_view_index(s.subrange(0, s.len() - 1));
    }
}

proof fn lemma_stmts_view_index(s: Seq<Stmt>)
    ensures
        stmts_view(s).len() == s.len(),
        forall|i: int| 0 <= i < s.len() ==> #[trigger] stmts_view(s)[i] == stmt_view(s[i]),
    decreases s.len(),
{
    if s.len() > 0 {
        lemma_stmts_view_index(s.subrange(0, s.len() - 1));
    }
}

proof fn lemma_entries_view_index(s: Seq<TableEntry>)
    ensures
        entries_view(s).len() == s.len(),
        forall|i: int|
            0 <= i < s.len() ==> #[trigger] entries_view(s)[i] == (EntryV {
                key: opt_text(s[i].key),
                value: expr_view(s[i].value),
            }),
    decreases s.len(),
{
    if s.len() > 0 {
        lemma_entries_view_index(s.subrange(0, s.len() - 1));
    }
}

proof fn lemma_branches_view_index(s: Seq<(Expr, Vec<Stmt>)>)
    ensures
        branches_view(s).len() == s.len(),
        forall|i: int|
            0 <= i < s.len() ==> #[trigger] branches_view(s)[i] == (expr_view(s[i].0), stmts_view(s[i].1@)),
    decreases s.len(),
{
    if s.len() > 0 {
        lemma_branches_view_index(s.subrange(0, s.len() - 1));
    }
}

fn opt_text_same(a: &Option<String>, b: &Option<String>) -> (r: bool)
    ensures
        r == (opt_text(*a) == opt_text(*b)),
{
    match (a, b) {
        (Some(x), Some(y)) => text_same(x, y),
        (None, None) => true,
        _ => false,
    }
}

fn strings_same(a: &Vec<String>, b: &Vec<String>) -> (r: bool)
    ensures
        r == (strings_view(a@) == strings_view(b@)),
{
    if a.len() != b.len() {
        assert(strings_view(a@).len() != strings_view(b@).len());
        return false;
    }
    let mut i: usize = 0;
    while i < a.len()
        invariant
            i <= a@.len(),
            a@.len() == b@.len(),
            forall|k: int| 0 <= k < i ==> a@[k]@ == b@[k]@,
        decreases a@.len() - i,
    {
        if !text_same(&a[i], &b[i]) {
            assert(strings_view(a@)[i as int] != strings_view(b@)[i as int]);
            return false;
        }
        i = i + 1;
    }
    assert(strings_view(a@) =~= strings_view(b@));
    true
}

fn params_same(a: &Vec<Param>, b: &Vec<Param>) -> (r: bool)
    ensures
        r == (params_view(a@) == params_view(b@)),
{
    if a.len() != b.len() {
        assert(params_view(a@).len() != params_view(b@).len());
        return false;
    }
    let mut i: usize = 0;
    while i < a.len()
        invariant
            i <= a@.len(),
            a@.len() == b@.len(),
            forall|k: int| 0 <= k < i ==> param_view(a@[k]) == param_view(b@[k]),
        decreases a@.len() - i,
    {
        let same = text_same(&a[i].name, &b[i].name) && opt_text_same(&a[i].type_annotation, &b[i].type_annotation)
            && a[i].variadic == b[i].variadic;
        if !same {
            assert(params_view(a@)[i as int] != params_view(b@)[i as int]);
            return false;
        }
        i = i + 1;
    }
    assert(params_view(a@) =~= params_view(b@));
    true
}

/// Whether two expressions are the same tree.
fn expr_same(a: &Expr, b: &Expr) -> (r: bool)
    ensures
        r == (expr_view(*a) == expr_view(*b)),
    decreases a,
{
    match (a, b) {
        (Expr::Literal(x), Expr::Literal(y)) => text_same(x, y),
        (Expr::Str(x), Expr::Str(y)) => text_same(x, y),
        (Expr::Interp(x), Expr::Interp(y)) => text_same(x, y),
        (Expr::Variable(x), Expr::Variable(y)) => text_same(x, y),
        (Expr::Vararg, Expr::Vararg) => true,
        (Expr::Member { object: o1, field: f1 }, Expr::Member { object: o2, field: f2 }) => expr_same(o1, o2)
            && text_same(f1, f2),
        (Expr::Index { object: o1, index: i1 }, Expr::Index { object: o2, index: i2 }) => expr_same(o1, o2)
            && expr_same(i1, i2),
        (Expr::Call { callee: c1, args: a1 }, Expr::Call { callee: c2, args: a2 }) => expr_same(c1, c2)
            && exprs_same(a1, a2),
        (
            Expr::MethodCall { object: o1, method: m1, args: a1 },
            Expr::MethodCall { object: o2, method: m2, args: a2 },
        ) => expr_same(o1, o2) && text_same(m1, m2) && exprs_same(a1, a2),
        (Expr::Function { params: p1, body: b1 }, Expr::Function { params: p2, body: b2 }) => params_same(p1, p2)
            && stmts_same(b1, b2),
        (Expr::Unary { op: p1, expr: e1 }, Expr::Unary { op: p2, expr: e2 }) => text_same(p1, p2) && expr_same(
            e1,
            e2,
        ),
        (Expr::Binary { left: l1, op: p1, right: r1 }, Expr::Binary { left: l2, op: p2, right: r2 }) => expr_same(
            l1,
            l2,
        ) && text_same(p1, p2) && expr_same(r1, r2),
        (Expr::Table(e1), Expr::Table(e2)) => entries_same(e1, e2),
        _ => false,
    }
}

fn exprs_same(a: &Vec<Expr>, b: &Vec<Expr>) -> (r: bool)
    ensures
        r == (exprs_view(a@) == exprs_view(b@)),
    decreases a,
{
    proof {
        lemma_exprs_view_index(a@);
        lemma_exprs_view_index(b@);
    }
    if a.len() != b.len() {
        return false;
    }
    let mut i: usize = 0;
    while i < a.len()
        invariant
            i <= a@.len(),
            a@.len() == b@.len(),
            exprs_view(a@).len() == a@.len(),
            exprs_view(b@).len() == b@.len(),
            forall|k: int| 0 <= k < a@.len() ==> #[trigger] exprs_view(a@)[k] == expr_view(a@[k]),
            forall|k: int| 0 <= k < b@.len() ==> #[trigger] exprs_view(b@)[k] == expr_view(b@[k]),
            forall|k: int| 0 <= k < i ==> expr_view(a@[k]) == expr_view(b@[k]),
        decreases a@.len() - i,
    {
        proof {
            assert(decreases_to!(a => a@[i as int]));
        }
        if !expr_same(&a[i], &b[i]) {
            assert(exprs_view(a@)[i as int] != exprs_view(b@)[i as int]);
            return false;
        }
        i = i + 1;
    }
    assert(exprs_view(a@) =~= exprs_view(b@));
    true
}

fn entries_same(a: &Vec<TableEntry>, b: &Vec<TableEntry>) -> (r: bool)
    ensures
        r == (entries_view(a@) == entries_view(b@)),
    decreases a,
{
    proof {
        lemma_entries_view_index(a@);
        lemma_entries_view_index(b@);
    }
    if a.len() != b.len() {
        return false;
    }
    let mut i: usize = 0;
    while i < a.len()
        invariant
            i <= a@.len(),
            a@.len() == b@.len(),
            entries_view(a@).len() == a@.len(),
            entries_view(b@).len() == b@.len(),
            forall|k: int|
                0 <= k < a@.len() ==> #[trigger] entries_view(a@)[k] == (EntryV {
                    key: opt_text(a@[k].key),
                    value: expr_view(a@[k].value),
                }),
            forall|k: int|
                0 <= k < b@.len() ==> #[trigger] entries_view(b@)[k] == (EntryV {
                    key: opt_text(b@[k].key),
                    value: expr_view(b@[k].value),
                }),
            forall|k: int|
                0 <= k < i ==> opt_text(a@[k].key) == opt_text(b@[k].key) && expr_view(a@[k].value) == expr_view(
                    b@[k].value,
                ),
        decreases a@.len() - i,
    {
        proof {
            assert(decreases_to!(a => a@[i as int]));
        }
        if !(opt_text_same(&a[i].key, &b[i].key) && expr_same(&a[i].value, &b[i].value)) {
            assert(entries_view(a@)[i as int] != entries_view(b@)[i as int]);
            return false;
        }
        i = i + 1;
    }
    assert(entries_view(a@) =~= entries_view(b@));
    true
}

fn opt_expr_same(a: &Option<Expr>, b: &Option<Expr>) -> (r: bool)
    ensures
        r == (opt_expr_view(*a) == opt_expr_view(*b)),
    decreases a,
{
    match (a, b) {
        (Some(x), Some(y)) => expr_same(x, y),
        (None, None) => true,
        _ => false,
    }
}

fn opt_block_same(a: &Option<Vec<Stmt>>, b: &Option<Vec<Stmt>>) -> (r: bool)
    ensures
        r == (match *a {
            Some(x) => Some(stmts_view(x@)),
            None => None,
        } == match *b {
            Some(y) => Some(stmts_view(y@)),
            None => None,
        }),
    decreases a,
{
    match (a, b) {
        (Some(x), Some(y)) => stmts_same(x, y),
        (None, None) => true,
        _ => false,
    }
}

fn branches_same(a: &Vec<(Expr, Vec<Stmt>)>, b: &Vec<(Expr, Vec<Stmt>)>) -> (r: bool)
    ensures
        r == (branches_view(a@) == branches_view(b@)),
    decreases a,
{
    proof {
        lemma_branches_view_index(a@);
        lemma_branches_view_index(b@);
    }
    if a.len() != b.len() {
        return false;
    }
    let mut i: usize = 0;
    while i < a.len()
        invariant
            i <= a@.len(),
            a@.len() == b@.len(),
            branches_view(a@).len() == a@.len(),
            branches_view(b@).len() == b@.len(),
            forall|k: int|
                0 <= k < a@.len() ==> #[trigger] branches_view(a@)[k] == (expr_view(a@[k].0), stmts_view(a@[k].1@)),
            forall|k: int|
                0 <= k < b@.len() ==> #[trigger] branches_view(b@)[k] == (expr_view(b@[k].0), stmts_view(b@[k].1@)),
            forall|k: int|
                0 <= k < i ==> expr_view(a@[k].0) == expr_view(b@[k].0) && stmts_view(a@[k].1@) == stmts_view(
                    b@[k].1@,
                ),
        decreases a@.len() - i,
    {
        proof {
            assert(decreases_to!(a => a@[i as int]));
        }
        if !(expr_same(&a[i].0, &b[i].0) && stmts_same(&a[i].1, &b[i].1)) {
            assert(branches_view(a@)[i as int] != branches_view(b@)[i as int]);
            return false;
        }
        i = i + 1;
    }
    assert(branches_view(a@) =~= branches_view(b@));
    true
}

/// Whether two statements are the same tree.
fn stmt_same(a: &Stmt, b: &Stmt) -> (r: bool)
    ensures
        r == (stmt_view(*a) == stmt_view(*b)),
    decreases a,
{
    match (a, b) {
        (
            Stmt::Local { name: n1, is_const: c1, type_annotation: t1, initializer: i1 },
            Stmt::Local { name: n2, is_const: c2, type_annotation: t2, initializer: i2 },
        ) => text_same(n1, n2) && *c1 == *c2 && opt_text_same(t1, t2) && opt_expr_same(i1, i2),
        (
            Stmt::LocalMany { names: n1, is_const: c1, initializers: i1 },
            Stmt::LocalMany { names: n2, is_const: c2, initializers: i2 },
        ) => strings_same(n1, n2) && *c1 == *c2 && exprs_same(i1, i2),
        (
            Stmt::Assign { target: t1, value: v1, is_const: c1 },
            Stmt::Assign { target: t2, value: v2, is_const: c2 },
        ) => expr_same(t1, t2) && expr_same(v1, v2) && *c1 == *c2,
        (Stmt::AssignMany { targets: t1, values: v1 }, Stmt::AssignMany { targets: t2, values: v2 }) => exprs_same(
            t1,
            t2,
        ) && exprs_same(v1, v2),
        (Stmt::Increment { target: t1, amount: a1 }, Stmt::Increment { target: t2, amount: a2 }) => expr_same(
            t1,
            t2,
        ) && *a1 == *a2,
        (
            Stmt::Function { name: n1, is_const: c1, params: p1, return_type: r1, body: b1 },
            Stmt::Function { name: n2, is_const: c2, params: p2, return_type: r2, body: b2 },
        ) => opt_text_same(n1, n2) && *c1 == *c2 && params_same(p1, p2) && opt_text_same(r1, r2) && stmts_same(
            b1,
            b2,
        ),
        (
            Stmt::If { condition: c1, then_branch: t1, else_if_branches: e1, else_branch: x1 },
            Stmt::If { condition: c2, then_branch: t2, else_if_branches: e2, else_branch: x2 },
        ) => expr_same(c1, c2) && stmts_same(t1, t2) && branches_same(e1, e2) && opt_block_same(x1, x2),
        (Stmt::For { vars: v1, source: s1, body: b1 }, Stmt::For { vars: v2, source: s2, body: b2 }) => strings_same(
            v1,
            v2,
        ) && expr_same(s1, s2) && stmts_same(b1, b2),
        (
            Stmt::NumericFor { var: v1, start: s1, end: e1, step: p1, body: b1 },
            Stmt::NumericFor { var: v2, start: s2, end: e2, step: p2, body: b2 },
        ) => text_same(v1, v2) && expr_same(s1, s2) && expr_same(e1, e2) && opt_expr_same(p1, p2) && stmts_same(
            b1,
            b2,
        ),
        (Stmt::While { condition: c1, body: b1 }, Stmt::While { condition: c2, body: b2 }) => expr_same(c1, c2)
            && stmts_same(b1, b2),
        (Stmt::Repeat { body: b1, condition: c1 }, Stmt::Repeat { body: b2, condition: c2 }) => stmts_same(b1, b2)
            && expr_same(c1, c2),
        (Stmt::Return(v1), Stmt::Return(v2)) => exprs_same(v1, v2),
        (Stmt::Break, Stmt::Break) => true,
        (Stmt::Continue, Stmt::Continue) => true,
        (Stmt::Expr(e1), Stmt::Expr(e2)) => expr_same(e1, e2),
        _ => false,
    }
}

/// Whether two statement lists are the same trees.
fn stmts_same(a: &Vec<Stmt>, b: &Vec<Stmt>) -> (r: bool)
    ensures
        r == (stmts_view(a@) == stmts_view(b@)),
    decreases a,
{
    proof {
        lemma_stmts_view_index(a@);
        lemma_stmts_view_index(b@);
    }
    if a.len() != b.len() {
        return false;
    }
    let mut i: usize = 0;
    while i < a.len()
        invariant
            i <= a@.len(),
            a@.len() == b@.len(),
            stmts_view(a@).len() == a@.len(),
            stmts_view(b@).len() == b@.len(),
            forall|k: int| 0 <= k < a@.len() ==> #[trigger] stmts_view(a@)[k] == stmt_view(a@[k]),
            forall|k: int| 0 <= k < b@.len() ==> #[trigger] stmts_view(b@)[k] == stmt_view(b@[k]),
            forall|k: int| 0 <= k < i ==> stmt_view(a@[k]) == stmt_view(b@[k]),
        decreases a@.len() - i,
    {
        proof {
            assert(decreases_to!(a => a@[i as int]));
        }
        if !stmt_same(&a[i], &b[i]) {
            assert(stmts_view(a@)[i as int] != stmts_view(b@)[i as int]);
            return false;
        }
        i = i + 1;
    }
    assert(stmts_view(a@) =~= stmts_view(b@));
    true
}

/// Folds a whole program, repeating until a round changes nothing, at
/// most 16 rounds (see `fold_rounds`).
pub fn fold_program(stmts: Vec<Stmt>) -> (r: Vec<Stmt>)
    ensures
        stmts_view(r@) == fold_rounds(stmts_view(stmts@), 16),
{
    let mut cur = stmts;
    let mut round: usize = 0;
    while round < 16
        invariant
            round <= 16,
            fold_rounds(stmts_view(cur@), (16 - round) as nat) == fold_rounds(stmts_view(stmts@), 16),
        decreases 16 - round,
    {
        let mut sh: Vec<String> = Vec::new();
        assert(strings_view(sh@) =~= Seq::<Seq<char>>::empty());
        let next = fold_block_ref(&cur, &mut sh);
        if stmts_same(&next, &cur) {
            return next;
        }
        cur = next;
        round = round + 1;
    }
    cur
}

// ---------------------------------------------------------------------------
// Laws of integer folding
// ---------------------------------------------------------------------------

proof fn lemma_operator_texts_distinct()
    ensures
        "=="@ != "-"@ && "!="@ != "-"@ && "<"@ != "-"@ && "<="@ != "-"@ && ">"@ != "-"@ && ">="@ != "-"@ && ".."@
            != "-"@ && "+"@ != "-"@,
        "=="@ != "+"@ && "!="@ != "+"@ && "<"@ != "+"@ && "<="@ != "+"@ && ">"@ != "+"@ && ">="@ != "+"@ && ".."@
            != "+"@,
        "=="@ != "*"@ && "!="@ != "*"@ && "<"@ != "*"@ && "<="@ != "*"@ && ">"@ != "*"@ && ">="@ != "*"@ && ".."@
            != "*"@ && "+"@ != "*"@ && "-"@ != "*"@,
        "=="@ != "//"@ && "!="@ != "//"@ && "<"@ != "//"@ && "<="@ != "//"@ && ">"@ != "//"@ && ">="@ != "//"@
            && ".."@ != "//"@ && "+"@ != "//"@ && "-"@ != "//"@ && "*"@ != "//"@,
        "=="@ != "%"@ && "!="@ != "%"@ && "<"@ != "%"@ && "<="@ != "%"@ && ">"@ != "%"@ && ">="@ != "%"@ && ".."@
            != "%"@ && "+"@ != "%"@ && "-"@ != "%"@ && "*"@ != "%"@ && "//"@ != "%"@,
        "=="@ != "!="@ && "<"@ != "<="@ && "<"@ != ">"@ && "<"@ != ">="@ && "<="@ != ">"@ && "<="@ != ">="@ && ">"@
            != ">="@,
        "=="@ != "<"@ && "=="@ != "<="@ && "=="@ != ">"@ && "=="@ != ">="@ && "!="@ != "<"@ && "!="@ != "<="@
            && "!="@ != ">"@ && "!="@ != ">="@,
        "//"@ != "^"@ && "//"@ != "&"@ && "//"@ != "|"@ && "//"@ != "~"@ && "//"@ != "<<"@ && "//"@ != ">>"@,
        "%"@ != "^"@ && "%"@ != "&"@ && "%"@ != "|"@ && "%"@ != "~"@ && "%"@ != "<<"@ && "%"@ != ">>"@,
{
    reveal_strlit("==");
    reveal_strlit("!=");
    reveal_strlit("<");
    reveal_strlit("<=");
    reveal_strlit(">");
    reveal_strlit(">=");
    reveal_strlit("..");
    reveal_strlit("+");
    reveal_strlit("-");
    reveal_strlit("*");
    reveal_strlit("//");
    reveal_strlit("%");
    reveal_strlit("^");
    reveal_strlit("&");
    reveal_strlit("|");
    reveal_strlit("~");
    reveal_strlit("<<");
    reveal_strlit(">>");
    reveal_strlit("and");
    reveal_strlit("or");
    reveal_strlit("??");
    assert("=="@.len() == 2 && "=="@[0] == '=' && "=="@[1] == '=');
    assert("!="@.len() == 2 && "!="@[0] == '!' && "!="@[1] == '=');
    assert("<"@.len() == 1 && "<"@[0] == '<');
    assert("<="@.len() == 2 && "<="@[0] == '<' && "<="@[1] == '=');
    assert(">"@.len() == 1 && ">"@[0] == '>');
    assert(">="@.len() == 2 && ">="@[0] == '>' && ">="@[1] == '=');
    assert(".."@.len() == 2 && ".."@[0] == '.' && ".."@[1] == '.');
    assert("+"@.len() == 1 && "+"@[0] == '+');
    assert("-"@.len() == 1 && "-"@[0] == '-');
    assert("*"@.len() == 1 && "*"@[0] == '*');
    assert("//"@.len() == 2 && "//"@[0] == '/' && "//"@[1] == '/');
    assert("%"@.len() == 1 && "%"@[0] == '%');
    assert("^"@.len() == 1 && "^"@[0] == '^');
    assert("&"@.len() == 1 && "&"@[0] == '&');
    assert("|"@.len() == 1 && "|"@[0] == '|');
    assert("~"@.len() == 1 && "~"@[0] == '~');
    assert("<<"@.len() == 2 && "<<"@[0] == '<' && "<<"@[1] == '<');
    assert(">>"@.len() == 2 && ">>"@[0] == '>' && ">>"@[1] == '>');
}

/// Integer operators fold to their meaning on the integers, left operand
/// first: for integer constants `x` and `y`, `+`, `-` and `*` give `x + y`,
/// `x - y` and `x * y`; `//` and `%` by a non-zero `y` give `q` and `r`
/// with `x == q * y + r` and `r` on `y`'s side of zero, smaller than `|y|`,
/// and by zero they do not fold; the comparisons give whether `x == y`,
/// `x != y`, `x < y`, `x <= y`, `x > y`, `x >= y`.
pub proof fn lemma_integer_folding(x: int, y: int)
    ensures
        fold_binary("+"@, ConstV::Int(x), ConstV::Int(y)) == Some(ConstV::Int(x + y)),
        fold_binary("-"@, ConstV::Int(x), ConstV::Int(y)) == Some(ConstV::Int(x - y)),
        fold_binary("*"@, ConstV::Int(x), ConstV::Int(y)) == Some(ConstV::Int(x * y)),
        fold_binary("=="@, ConstV::Int(x), ConstV::Int(y)) == Some(ConstV::Bool(x == y)),
        fold_binary("!="@, ConstV::Int(x), ConstV::Int(y)) == Some(ConstV::Bool(x != y)),
        fold_binary("<"@, ConstV::Int(x), ConstV::Int(y)) == Some(ConstV::Bool(x < y)),
        fold_binary("<="@, ConstV::Int(x), ConstV::Int(y)) == Some(ConstV::Bool(x <= y)),
        fold_binary(">"@, ConstV::Int(x), ConstV::Int(y)) == Some(ConstV::Bool(x > y)),
        fold_binary(">="@, ConstV::Int(x), ConstV::Int(y)) == Some(ConstV::Bool(x >= y)),
        y != 0 ==> (fold_binary("//"@, ConstV::Int(x), ConstV::Int(y)) matches Some(ConstV::Int(q))
            && fold_binary("%"@, ConstV::Int(x), ConstV::Int(y)) matches Some(ConstV::Int(r)) && x == q * y + r
            && (y > 0 ==> 0 <= r < y) && (y < 0 ==> y < r <= 0)),
        y == 0 ==> fold_binary("//"@, ConstV::Int(x), ConstV::Int(y)) is None && fold_binary(
            "%"@,
            ConstV::Int(x),
            ConstV::Int(y),
        ) is None,
{
    lemma_operator_texts_distinct();
    if y > 0 {
        let q = x / y;
        assert(0 <= x - y * q < y) by (nonlinear_arith)
            requires
                y > 0,
                q == x / y,
        ;
        assert(x == q * y + (x - y * q)) by (nonlinear_arith);
    } else if y < 0 {
        let q = (-x) / (-y);
        assert(0 <= (-x) - (-y) * q < -y) by (nonlinear_arith)
            requires
                y < 0,
                q == (-x) / (-y),
        ;
        assert(x - y * q == -((-x) - (-y) * q)) by (nonlinear_arith);
        assert(x == q * y + (x - y * q)) by (nonlinear_arith);
    }
}

/// A binary operator other than `and`, `or`, `??` whose operands fold to
/// integers folds the left operand's value with the right one's, in that
/// order; where the operator gives no constant the operation stays, its
/// operands folded.
pub proof fn lemma_fold_integer_operands(l: ExprV, op: Seq<char>, r: ExprV, sh: Seq<Seq<char>>, x: int, y: int)
    requires
        const_of(fold_e(l, sh)) == Some(ConstV::Int(x)),
        const_of(fold_e(r, sh)) == Some(ConstV::Int(y)),
        op != "and"@,
        op != "or"@,
        op != "??"@,
    ensures
        fold_e(ExprV::Binary { left: Box::new(l), op, right: Box::new(r) }, sh) == match fold_binary(
            op,
            ConstV::Int(x),
            ConstV::Int(y),
        ) {
            Some(v) => const_expr(v),
            None => ExprV::Binary { left: Box::new(fold_e(l, sh)), op, right: Box::new(fold_e(r, sh)) },
        },
{
}

proof fn lemma_operator_spellings()
    ensures
        "=="@.len() == 2 && "=="@[0] == '=' && "=="@[1] == '=',
        "!="@.len() == 2 && "!="@[0] == '!' && "!="@[1] == '=',
        "<"@.len() == 1 && "<"@[0] == '<',
        "<="@.len() == 2 && "<="@[0] == '<' && "<="@[1] == '=',
        ">"@.len() == 1 && ">"@[0] == '>',
        ">="@.len() == 2 && ">="@[0] == '>' && ">="@[1] == '=',
        ".."@.len() == 2 && ".."@[0] == '.' && ".."@[1] == '.',
        "+"@.len() == 1 && "+"@[0] == '+',
        "-"@.len() == 1 && "-"@[0] == '-',
        "*"@.len() == 1 && "*"@[0] == '*',
        "//"@.len() == 2 && "//"@[0] == '/' && "//"@[1] == '/',
        "%"@.len() == 1 && "%"@[0] == '%',
        "^"@.len() == 1 && "^"@[0] == '^',
        "&"@.len() == 1 && "&"@[0] == '&',
        "|"@.len() == 1 && "|"@[0] == '|',
        "~"@.len() == 1 && "~"@[0] == '~',
        "<<"@.len() == 2 && "<<"@[0] == '<' && "<<"@[1] == '<',
        ">>"@.len() == 2 && ">>"@[0] == '>' && ">>"@[1] == '>',
        "not"@.len() == 3 && "not"@[0] == 'n' && "not"@[1] == 'o' && "not"@[2] == 't',
        "#"@.len() == 1 && "#"@[0] == '#',
{
    reveal_strlit("==");
    reveal_strlit("!=");
    reveal_strlit("<");
    reveal_strlit("<=");
    reveal_strlit(">");
    reveal_strlit(">=");
    reveal_strlit("..");
    reveal_strlit("+");
    reveal_strlit("-");
    reveal_strlit("*");
    reveal_strlit("//");
    reveal_strlit("%");
    reveal_strlit("^");
    reveal_strlit("&");
    reveal_strlit("|");
    reveal_strlit("~");
    reveal_strlit("<<");
    reveal_strlit(">>");
    reveal_strlit("not");
    reveal_strlit("#");
}

/// More integer and string operators fold to their meaning, left operand
/// first: `x ^ y` is `x` to the power `y` (for `0 <= y <= 4096`);
/// `x << y` is `x * 2^y` (same bound); `x >> y` is `x` divided by `2^y`
/// rounding down (for `0 <= y`); unary `-` gives `-x` and `~` gives
/// `-x - 1`; `s .. t` on strings is `s` followed by `t`; and the ordering
/// of strings reads the same from either side (`s < t` is `t > s`,
/// `s <= t` is `t >= s`).
pub proof fn lemma_more_folding(x: int, y: int, s: Seq<char>, t: Seq<char>)
    ensures
        0 <= y <= MAX_FOLDED_EXPONENT ==> fold_binary("^"@, ConstV::Int(x), ConstV::Int(y)) == Some(
            ConstV::Int(pow(x, y as nat)),
        ),
        0 <= y <= MAX_FOLDED_EXPONENT ==> fold_binary("<<"@, ConstV::Int(x), ConstV::Int(y)) == Some(
            ConstV::Int(x * pow2(y as nat)),
        ),
        0 <= y <= usize::MAX ==> (fold_binary(">>"@, ConstV::Int(x), ConstV::Int(y)) matches Some(ConstV::Int(q))
            && q * pow2(y as nat) <= x < q * pow2(y as nat) + pow2(y as nat)),
        fold_unary("-"@, ConstV::Int(x)) == Some(ConstV::Int(-x)),
        fold_unary("~"@, ConstV::Int(x)) == Some(ConstV::Int(-x - 1)),
        fold_binary(".."@, ConstV::Str(s), ConstV::Str(t)) == Some(ConstV::Str(s + t)),
        fold_binary("<"@, ConstV::Str(s), ConstV::Str(t)) == fold_binary(">"@, ConstV::Str(t), ConstV::Str(s)),
        fold_binary("<="@, ConstV::Str(s), ConstV::Str(t)) == fold_binary(">="@, ConstV::Str(t), ConstV::Str(s)),
{
    lemma_operator_spellings();
    if 0 <= y <= usize::MAX {
        let p = pow2(y as nat) as int;
        vstd::arithmetic::power2::lemma_pow2_pos(y as nat);
        let q = x / p;
        assert(q * p <= x < q * p + p) by (nonlinear_arith)
            requires
                p > 0,
                q == x / p,
        ;
    }
}


} // verus!
