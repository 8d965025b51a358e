//! Variables, labels and operators of the intermediate representation.
use num_bigint::BigInt;
use num_integer::Integer;
use num_traits::{Signed, ToPrimitive, Zero};
use vstd::prelude::*;

use crate::text::decimal;

verus! {

#[verifier::external_type_specification]
#[verifier::external_body]
pub struct ExBigInt(BigInt);

/// The integer a big integer holds (its sign and digits).
pub uninterp spec fn big_value(b: BigInt) -> int;

/// The sum of two big integers (`&BigInt + &BigInt`, exact).
#[verifier::external_body]
pub(crate) fn big_add(a: &BigInt, b: &BigInt) -> (r: BigInt)
    ensures
        big_value(r) == big_value(*a) + big_value(*b),
{
    a + b
}

/// The difference of two big integers (`&BigInt - &BigInt`, exact).
#[verifier::external_body]
pub(crate) fn big_sub(a: &BigInt, b: &BigInt) -> (r: BigInt)
    ensures
        big_value(r) == big_value(*a) - big_value(*b),
{
    a - b
}

/// The product of two big integers (`&BigInt * &BigInt`, exact).
#[verifier::external_body]
pub(crate) fn big_mul(a: &BigInt, b: &BigInt) -> (r: BigInt)
    ensures
        big_value(r) == big_value(*a) * big_value(*b),
{
    a * b
}

/// Whether two big integers are equal (`BigInt::eq`: same sign and digits).
#[verifier::external_body]
pub(crate) fn big_eq(a: &BigInt, b: &BigInt) -> (r: bool)
    ensures
        r == (big_value(*a) == big_value(*b)),
{
    a == b
}

/// Whether `a < b` (`PartialOrd::lt` of `BigInt`, the order of the integers).
#[verifier::external_body]
pub(crate) fn big_lt(a: &BigInt, b: &BigInt) -> (r: bool)
    ensures
        r == (big_value(*a) < big_value(*b)),
{
    a < b
}

/// Whether `a <= b` (`PartialOrd::le` of `BigInt`).
#[verifier::external_body]
pub(crate) fn big_le(a: &BigInt, b: &BigInt) -> (r: bool)
    ensures
        r == (big_value(*a) <= big_value(*b)),
{
    a <= b
}

/// Whether `a > b` (`PartialOrd::gt` of `BigInt`).
#[verifier::external_body]
pub(crate) fn big_gt(a: &BigInt, b: &BigInt) -> (r: bool)
    ensures
        r == (big_value(*a) > big_value(*b)),
{
    a > b
}

/// Whether `a >= b` (`PartialOrd::ge` of `BigInt`).
#[verifier::external_body]
pub(crate) fn big_ge(a: &BigInt, b: &BigInt) -> (r: bool)
    ensures
        r == (big_value(*a) >= big_value(*b)),
{
    a >= b
}

/// A copy of a big integer (`BigInt::clone`, which copies its sign and
/// digits): the same number.
#[verifier::external_body]
pub(crate) fn clone_bigint(b: &BigInt) -> (r: BigInt)
    ensures
        r == *b,
{
    b.clone()
}

/// `a / b` rounded toward negative infinity (`b` not zero).
pub open spec fn floor_div(a: int, b: int) -> int {
    if b > 0 {
        a / b
    } else {
        (-a) / (-b)
    }
}

/// The remainder of `floor_div`, which has the sign of `b`.
pub open spec fn floor_mod(a: int, b: int) -> int {
    a - b * floor_div(a, b)
}

/// The decimal text of an integer, with `-` before a negative one.
pub open spec fn int_text(n: int) -> Seq<char> {
    if n < 0 {
        seq!['-'] + decimal((-n) as nat)
    } else {
        decimal(n as nat)
    }
}

/// The negation of a big integer (`-&BigInt`, exact).
#[verifier::external_body]
pub(crate) fn big_neg(a: &BigInt) -> (r: BigInt)
    ensures
        big_value(r) == -big_value(*a),
{
    -a
}

/// Whether a big integer is zero (`Zero::is_zero`).
#[verifier::external_body]
pub(crate) fn big_is_zero(a: &BigInt) -> (r: bool)
    ensures
        r == (big_value(*a) == 0),
{
    a.is_zero()
}

/// Floor division of big integers (`Integer::div_floor`), `b` not zero.
#[verifier::external_body]
pub(crate) fn big_div_floor(a: &BigInt, b: &BigInt) -> (r: BigInt)
    requires
        big_value(*b) != 0,
    ensures
        big_value(r) == floor_div(big_value(*a), big_value(*b)),
{
    a.div_floor(b)
}

/// The remainder of floor division (`Integer::mod_floor`), `b` not zero.
#[verifier::external_body]
pub(crate) fn big_mod_floor(a: &BigInt, b: &BigInt) -> (r: BigInt)
    requires
        big_value(*b) != 0,
    ensures
        big_value(r) == floor_mod(big_value(*a), big_value(*b)),
{
    a.mod_floor(b)
}

/// The decimal text of a big integer (`ToString` through `Display`, radix
/// 10, `-` before a negative value).
#[verifier::external_body]
pub(crate) fn big_decimal(a: &BigInt) -> (r: String)
    ensures
        r@ == int_text(big_value(*a)),
{
    a.to_string()
}

/// The magnitude of an integer.
pub open spec fn magnitude(a: int) -> int {
    if a < 0 {
        -a
    } else {
        a
    }
}

/// The two's-complement bitwise and of two integers, bit by bit from the
/// lowest: `0` and anything is `0`, `-1` (all ones) and `b` is `b`.
pub open spec fn bigint_and(a: int, b: int) -> int
    decreases magnitude(a) + magnitude(b),
{
    if a == 0 || b == 0 {
        0
    } else if a == -1 {
        b
    } else if b == -1 {
        a
    } else {
        2 * bigint_and(a / 2, b / 2) + (a % 2) * (b % 2)
    }
}

/// The two's-complement bitwise or of two integers: `-1` (all ones) or
/// anything is `-1`, `0` or `b` is `b`.
pub open spec fn bigint_or(a: int, b: int) -> int
    decreases magnitude(a) + magnitude(b),
{
    if a == -1 || b == -1 {
        -1
    } else if a == 0 {
        b
    } else if b == 0 {
        a
    } else {
        2 * bigint_or(a / 2, b / 2) + (a % 2 + b % 2 - (a % 2) * (b % 2))
    }
}

/// The two's-complement bitwise exclusive or of two integers: `0` and `b`
/// is `b`, `-1` (all ones) and `b` is `-b - 1`.
pub open spec fn bigint_xor(a: int, b: int) -> int
    decreases magnitude(a) + magnitude(b),
{
    if a == 0 {
        b
    } else if b == 0 {
        a
    } else if a == -1 {
        -b - 1
    } else if b == -1 {
        -a - 1
    } else {
        2 * bigint_xor(a / 2, b / 2) + (a % 2 + b % 2) % 2
    }
}

/// Bitwise and of big integers (`&BigInt & &BigInt`).
#[verifier::external_body]
pub(crate) fn big_and(a: &BigInt, b: &BigInt) -> (r: BigInt)
    ensures
        big_value(r) == bigint_and(big_value(*a), big_value(*b)),
{
    a & b
}

/// Bitwise or of big integers (`&BigInt | &BigInt`).
#[verifier::external_body]
pub(crate) fn big_or(a: &BigInt, b: &BigInt) -> (r: BigInt)
    ensures
        big_value(r) == bigint_or(big_value(*a), big_value(*b)),
{
    a | b
}

/// Bitwise exclusive or of big integers (`&BigInt ^ &BigInt`).
#[verifier::external_body]
pub(crate) fn big_xor(a: &BigInt, b: &BigInt) -> (r: BigInt)
    ensures
        big_value(r) == bigint_xor(big_value(*a), big_value(*b)),
{
    a ^ b
}

/// Bitwise not of a big integer (`!&BigInt`), which is `-a - 1`.
#[verifier::external_body]
pub(crate) fn big_not(a: &BigInt) -> (r: BigInt)
    ensures
        big_value(r) == -big_value(*a) - 1,
{
    !a
}

/// The absolute value of a big integer (`Signed::abs`).
#[verifier::external_body]
pub(crate) fn big_abs(a: &BigInt) -> (r: BigInt)
    ensures
        big_value(r) == if big_value(*a) < 0 {
            -big_value(*a)
        } else {
            big_value(*a)
        },
{
    a.abs()
}

/// A big integer holding `n` (`BigInt::from(u64)`).
#[verifier::external_body]
pub(crate) fn big_from_u64(n: u64) -> (r: BigInt)
    ensures
        big_value(r) == n,
{
    BigInt::from(n)
}

/// A big integer as a `usize` (`ToPrimitive::to_usize`): `Some` exactly when
/// it lies in `0..=usize::MAX`.
#[verifier::external_body]
pub(crate) fn big_to_usize(a: &BigInt) -> (r: Option<usize>)
    ensures
        r is Some <==> 0 <= big_value(*a) <= usize::MAX,
        r matches Some(n) ==> n == big_value(*a),
{
    a.to_usize()
}

/// A big integer as a `u32` (`ToPrimitive::to_u32`): `Some` exactly when it
/// lies in `0..=u32::MAX`.
#[verifier::external_body]
pub(crate) fn big_to_u32(a: &BigInt) -> (r: Option<u32>)
    ensures
        r is Some <==> 0 <= big_value(*a) <= u32::MAX,
        r matches Some(n) ==> n == big_value(*a),
{
    a.to_u32()
}

/// A big integer shifted left by at most 4096 bits (`&BigInt << usize`).
#[verifier::external_body]
pub(crate) fn big_shl(a: &BigInt, n: usize) -> (r: BigInt)
    requires
        n <= 4096,
    ensures
        big_value(r) == big_value(*a) * vstd::arithmetic::power2::pow2(n as nat),
{
    a << n
}

/// A big integer shifted right (`&BigInt >> usize`), rounding toward
/// negative infinity.
#[verifier::external_body]
pub(crate) fn big_shr(a: &BigInt, n: usize) -> (r: BigInt)
    ensures
        big_value(r) == floor_div(big_value(*a), vstd::arithmetic::power2::pow2(n as nat) as int),
{
    a >> n
}

/// A big integer raised to a power of at most 4096 (`BigInt::pow`).
#[verifier::external_body]
pub(crate) fn big_pow(a: &BigInt, e: u32) -> (r: BigInt)
    requires
        e <= 4096,
    ensures
        big_value(r) == vstd::arithmetic::power::pow(big_value(*a), e as nat),
{
    a.pow(e)
}

/// A constant loaded by the IR.
#[derive(Debug, PartialEq)]
pub enum IrConstant {
    Nil,
    Bool(bool),
    Int(BigInt),
    /// A floating-point constant, by its IEEE-754 bit pattern.
    Float(u64),
    String(String),
}

/// A copy of a constant.
pub fn clone_constant(c: &IrConstant) -> (r: IrConstant)
    ensures
        r == *c,
{
    match c {
        IrConstant::Nil => IrConstant::Nil,
        IrConstant::Bool(b) => IrConstant::Bool(*b),
        IrConstant::Int(i) => IrConstant::Int(clone_bigint(i)),
        IrConstant::Float(f) => IrConstant::Float(*f),
        IrConstant::String(s) => IrConstant::String(s.clone()),
    }
}

/// A virtual variable (unbounded, not limited to the machine's registers).
#[derive(Clone, Copy, Debug, PartialEq, Eq, Hash, Structural)]
pub struct IrVar(pub u32);

/// A control-flow target.
#[derive(Clone, Copy, Debug, PartialEq, Eq, Hash, Structural)]
pub struct IrLabel(pub usize);

impl IrLabel {
    pub fn new(id: usize) -> (r: Self)
        ensures
            r == IrLabel(id),
    {
        IrLabel(id)
    }
}

#[derive(Clone, Copy, Debug, PartialEq, Eq, Hash, Structural)]
pub enum IrBinaryOp {
    Add,
    Sub,
    Mul,
    Div,
    IDiv,
    Mod,
    Pow,
    BitAnd,
    BitOr,
    BitXor,
    Shl,
    Shr,
    LShl,
    LShr,
    Concat,
    Eq,
    Ne,
    Lt,
    Le,
    Gt,
    Ge,
    Coalesce,
}

#[derive(Clone, Copy, Debug, PartialEq, Eq, Hash, Structural)]
pub enum IrUnaryOp {
    Neg,
    Not,
    Len,
    BitNot,
}

} // verus!
