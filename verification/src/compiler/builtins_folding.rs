//! Folding calls of built-in functions on literal arguments.
use vstd::prelude::*;

use crate::compiler::constant_fold::{scoped_call, scoped_call_exec};
use crate::parse_model::{expr_view, exprs_view, strings_view};
use crate::parser::Expr;

verus! {

/// A call of a built-in on literal arguments folded to its value, with no
/// local names in scope (see `scoped_call`); `None` where it does not fold.
pub fn fold_builtin_call(callee: &Expr, args: &Vec<Expr>) -> (r: Option<Expr>)
    ensures
        match r {
            Some(x) => scoped_call(expr_view(*callee), exprs_view(args@), Seq::empty()) == Some(expr_view(x)),
            None => scoped_call(expr_view(*callee), exprs_view(args@), Seq::empty()) is None,
        },
{
    let shadowed: Vec<String> = Vec::new();
    assert(strings_view(shadowed@) =~= Seq::<Seq<char>>::empty());
    scoped_call_exec(callee, args, &shadowed)
}

/// A call of a built-in on literal arguments folded to its value, where no
/// name in `shadowed` hides the built-in (see `scoped_call`).
pub fn fold_builtin_call_scoped(callee: &Expr, args: &Vec<Expr>, shadowed: &Vec<String>) -> (r: Option<Expr>)
    ensures
        match r {
            Some(x) => scoped_call(expr_view(*callee), exprs_view(args@), strings_view(shadowed@)) == Some(
                expr_view(x),
            ),
            None => scoped_call(expr_view(*callee), exprs_view(args@), strings_view(shadowed@)) is None,
        },
{
    scoped_call_exec(callee, args, shadowed)
}

} // verus!
