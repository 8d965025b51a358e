//! Reading integer literals of the source into big integers.
use num_bigint::BigInt;
use std::str::FromStr;
use vstd::prelude::*;

use crate::compiler::ir::types::big_value;

verus! {

/// Whether `c` is one of `0`..`9`.
pub open spec fn is_decimal_digit(c: char) -> bool {
    '0' <= c <= '9'
}

/// A magnitude that the decimal reader takes: not empty, not led by `_`,
/// and made of digits and `_` separators only.
pub open spec fn magnitude_ok(s: Seq<char>) -> bool {
    &&& s.len() > 0
    &&& s[0] != '_'
    &&& forall|i: int| 0 <= i < s.len() ==> is_decimal_digit(#[trigger] s[i]) || s[i] == '_'
}

/// The digits of a numeral, its `_` separators left out.
pub open spec fn digits_of(s: Seq<char>) -> Seq<char> {
    s.filter(|c: char| c != '_')
}

/// The value of a string of decimal digits, most significant first.
pub open spec fn digits_value(d: Seq<char>) -> int
    decreases d.len(),
{
    if d.len() == 0 {
        0
    } else {
        digits_value(d.drop_last()) * 10 + (d.last() as int - '0' as int)
    }
}

/// The integer a decimal numeral denotes, or `None` where it is malformed:
/// an optional `-` (not followed by `+`) or `+` (not followed by another
/// `+`), then a magnitude (`magnitude_ok`) whose digits give the value.
pub open spec fn decimal_bigint(s: Seq<char>) -> Option<int> {
    if s.len() > 0 && s[0] == '-' {
        let body = s.drop_first();
        if body.len() > 0 && body[0] == '+' {
            None
        } else if magnitude_ok(body) {
            Some(-digits_value(digits_of(body)))
        } else {
            None
        }
    } else {
        let body = if s.len() > 0 && s[0] == '+' && !(s.len() > 1 && s[1] == '+') {
            s.drop_first()
        } else {
            s
        };
        if magnitude_ok(body) {
            Some(digits_value(digits_of(body)))
        } else {
            None
        }
    }
}

/// `BigInt::from_str` (decimal `from_str_radix`): it takes a leading `-`
/// unless a `+` follows it, then a leading `+` unless another `+` follows,
/// then a non-empty run of digits and `_` that does not start with `_`, and
/// gives the signed value of the digits; anything else is an error.
#[verifier::external_body]
fn bigint_from_decimal(s: &str) -> (r: Option<BigInt>)
    ensures
        r is Some <==> decimal_bigint(s@) is Some,
        r matches Some(b) ==> decimal_bigint(s@) == Some(big_value(b)),
{
    BigInt::from_str(s).ok()
}

/// Reads a decimal integer literal: its value where `s` is a well-formed
/// numeral (see `decimal_bigint`), `None` otherwise.
pub fn parse_int_from_str(s: &str) -> (r: Option<BigInt>)
    ensures
        r is Some <==> decimal_bigint(s@) is Some,
        r matches Some(b) ==> decimal_bigint(s@) == Some(big_value(b)),
{
    bigint_from_decimal(s)
}

} // verus!
