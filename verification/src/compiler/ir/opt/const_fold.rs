//! Constant propagation and folding on the flat instruction list of a
//! module.
use vstd::prelude::*;

use crate::compiler::ir::block::{same_insts, IrModule};
use crate::compiler::ir::inst::{clone_inst, same_inst, IrInst};
use crate::compiler::ir::types::{
    big_add, big_eq, big_ge, big_gt, big_le, big_lt, big_mul, big_sub, big_value, clone_constant,
    IrBinaryOp, IrConstant, IrVar,
};
use crate::text::{push_str, string_from_chars};

verus! {

/// The constant last loaded into `v` among `out`, if any.
pub open spec fn last_const(out: Seq<IrInst>, v: IrVar) -> Option<IrConstant>
    decreases out.len(),
{
    if out.len() == 0 {
        None
    } else {
        match out.last() {
            IrInst::LoadConst { dst, val } => if dst == v {
                Some(val)
            } else {
                last_const(out.drop_last(), v)
            },
            _ => last_const(out.drop_last(), v),
        }
    }
}

/// The operators folded on two integer constants.
pub open spec fn int_op_folds(op: IrBinaryOp) -> bool {
    op == IrBinaryOp::Add || op == IrBinaryOp::Sub || op == IrBinaryOp::Mul || op == IrBinaryOp::Eq
        || op == IrBinaryOp::Ne || op == IrBinaryOp::Lt || op == IrBinaryOp::Le || op == IrBinaryOp::Gt
        || op == IrBinaryOp::Ge
}

/// Whether `op` is folded on operands with the known constants `ca` and
/// `cb`: arithmetic and comparisons on two integers, concatenation of two
/// strings.
pub open spec fn folds(op: IrBinaryOp, ca: Option<IrConstant>, cb: Option<IrConstant>) -> bool {
    match (ca, cb) {
        (Some(IrConstant::Int(_)), Some(IrConstant::Int(_))) => int_op_folds(op),
        (Some(IrConstant::String(_)), Some(IrConstant::String(_))) => op == IrBinaryOp::Concat,
        _ => false,
    }
}

/// Whether `r` is the constant `op` gives on `ca` and `cb`.
pub open spec fn folded_to(op: IrBinaryOp, ca: Option<IrConstant>, cb: Option<IrConstant>, r: IrConstant) -> bool {
    match (ca, cb) {
        (Some(IrConstant::Int(a)), Some(IrConstant::Int(b))) => {
            let x = big_value(a);
            let y = big_value(b);
            match op {
                IrBinaryOp::Add => r matches IrConstant::Int(c) && big_value(c) == x + y,
                IrBinaryOp::Sub => r matches IrConstant::Int(c) && big_value(c) == x - y,
                IrBinaryOp::Mul => r matches IrConstant::Int(c) && big_value(c) == x * y,
                IrBinaryOp::Eq => r == IrConstant::Bool(x == y),
                IrBinaryOp::Ne => r == IrConstant::Bool(x != y),
                IrBinaryOp::Lt => r == IrConstant::Bool(x < y),
                IrBinaryOp::Le => r == IrConstant::Bool(x <= y),
                IrBinaryOp::Gt => r == IrConstant::Bool(x > y),
                IrBinaryOp::Ge => r == IrConstant::Bool(x >= y),
                _ => false,
            }
        },
        (Some(IrConstant::String(a)), Some(IrConstant::String(b))) => r matches IrConstant::String(c) && c@
            == a@ + b@,
        _ => false,
    }
}

/// Whether `o` is what the pass emits for `i`, given what it emitted
/// before (`prefix`): an operator whose operands hold known constants that it
/// folds becomes a load of the folded constant; anything else is kept.
pub open spec fn propagates_to(i: IrInst, prefix: Seq<IrInst>, o: IrInst) -> bool {
    match i {
        IrInst::BinOp { dst, op, lhs, rhs } => if folds(op, last_const(prefix, lhs), last_const(prefix, rhs)) {
            o matches IrInst::LoadConst { dst: d, val } && d == dst && folded_to(
                op,
                last_const(prefix, lhs),
                last_const(prefix, rhs),
                val,
            )
        } else {
            same_inst(o, i)
        },
        _ => same_inst(o, i),
    }
}

/// Whether `out` is what the pass makes of `s`, instruction by instruction.
pub open spec fn propagated(s: Seq<IrInst>, out: Seq<IrInst>) -> bool {
    out.len() == s.len() && forall|k: int| 0 <= k < s.len() ==> propagates_to(#[trigger] s[k], out.take(k), out[k])
}

/// The constant last loaded into `v` among `out`.
fn find_const(out: &Vec<IrInst>, v: IrVar) -> (r: Option<&IrConstant>)
    ensures
        match r {
            Some(c) => last_const(out@, v) == Some(*c),
            None => last_const(out@, v) is None,
        },
{
    let mut i: usize = out.len();
    assert(out@.take(i as int) =~= out@);
    while i > 0
        invariant
            i <= out@.len(),
            last_const(out@, v) == last_const(out@.take(i as int), v),
        decreases i,
    {
        assert(out@.take(i as int).drop_last() =~= out@.take(i - 1));
        assert(out@.take(i as int).last() == out@[i - 1]);
        match &out[i - 1] {
            IrInst::LoadConst { dst, val } => {
                if *dst == v {
                    return Some(val);
                }
            },
            _ => {},
        }
        i = i - 1;
    }
    None
}

/// The constant `op` gives on `ca` and `cb`, when it folds them.
fn fold(op: IrBinaryOp, ca: Option<&IrConstant>, cb: Option<&IrConstant>) -> (r: Option<IrConstant>)
    ensures
        ({
            let a = match ca {
                Some(c) => Some(*c),
                None => None,
            };
            let b = match cb {
                Some(c) => Some(*c),
                None => None,
            };
            match r {
                Some(v) => folds(op, a, b) && folded_to(op, a, b, v),
                None => !folds(op, a, b),
            }
        }),
{
    match (ca, cb) {
        (Some(IrConstant::Int(a)), Some(IrConstant::Int(b))) => match op {
            IrBinaryOp::Add => Some(IrConstant::Int(big_add(a, b))),
            IrBinaryOp::Sub => Some(IrConstant::Int(big_sub(a, b))),
            IrBinaryOp::Mul => Some(IrConstant::Int(big_mul(a, b))),
            IrBinaryOp::Eq => Some(IrConstant::Bool(big_eq(a, b))),
            IrBinaryOp::Ne => Some(IrConstant::Bool(!big_eq(a, b))),
            IrBinaryOp::Lt => Some(IrConstant::Bool(big_lt(a, b))),
            IrBinaryOp::Le => Some(IrConstant::Bool(big_le(a, b))),
            IrBinaryOp::Gt => Some(IrConstant::Bool(big_gt(a, b))),
            IrBinaryOp::Ge => Some(IrConstant::Bool(big_ge(a, b))),
            _ => None,
        },
        (Some(IrConstant::String(a)), Some(IrConstant::String(b))) => match op {
            IrBinaryOp::Concat => {
                let mut cs: Vec<char> = Vec::new();
                push_str(&mut cs, a.as_str());
                push_str(&mut cs, b.as_str());
                Some(IrConstant::String(string_from_chars(cs.as_slice())))
            },
            _ => None,
        },
        _ => None,
    }
}

/// Replaces each operator on operands whose constants are known (from the
/// loads emitted before it) by a load of the folded constant, where the
/// operator folds them (see `propagated`); nothing else changes.
pub fn constant_propagation(module: &mut IrModule)
    ensures
        propagated(old(module).main.instructions@, final(module).main.instructions@),
        final(module).main.name == old(module).main.name,
        final(module).main.num_params == old(module).main.num_params,
        final(module).main.is_vararg == old(module).main.is_vararg,
        final(module).main.params == old(module).main.params,
        final(module).main.protos == old(module).main.protos,
        final(module).main.upvalues == old(module).main.upvalues,
        final(module).main.upvalue_vars == old(module).main.upvalue_vars,
        final(module).main.cfg == old(module).main.cfg,
{
    let ghost s = module.main.instructions@;
    let mut out: Vec<IrInst> = Vec::new();
    let mut k: usize = 0;
    while k < module.main.instructions.len()
        invariant
            s == module.main.instructions@,
            k <= s.len(),
            out@.len() == k,
            forall|m: int| 0 <= m < k ==> propagates_to(#[trigger] s[m], out@.take(m), out@[m]),
        decreases s.len() - k,
    {
        let ghost before = out@;
        let next: IrInst = match &module.main.instructions[k] {
            IrInst::BinOp { dst, op, lhs, rhs } => {
                let ca = find_const(&out, *lhs);
                let cb = find_const(&out, *rhs);
                match fold(*op, ca, cb) {
                    Some(v) => IrInst::LoadConst { dst: *dst, val: v },
                    None => clone_inst(&module.main.instructions[k]),
                }
            },
            _ => clone_inst(&module.main.instructions[k]),
        };
        assert(propagates_to(s[k as int], before, next));
        out.push(next);
        assert forall|m: int| 0 <= m < k + 1 implies propagates_to(#[trigger] s[m], out@.take(m), out@[m]) by {
            assert(out@.take(m) =~= before.take(m));
            if m < k {
                assert(out@[m] == before[m]);
            } else {
                assert(out@.take(m) =~= before);
            }
        }
        k = k + 1;
    }
    module.main.instructions = out;
}

} // verus!
