//! Common subexpression elimination: within a block, a pure computation
//! already held in a variable is replaced by a move from that variable.
use vstd::prelude::*;

use crate::compiler::ir::block::{take_block, ControlFlowGraph, IrModule};
use crate::compiler::ir::dom::pairs_get;
use crate::compiler::ir::inst::{inst_def_var, IrInst};
use crate::compiler::ir::types::{IrBinaryOp, IrUnaryOp, IrVar};

verus! {

/// A pure computation, identified by operator and operands.
#[derive(Clone, Copy, Debug, PartialEq, Eq, Hash, Structural)]
pub enum ExpressionKey {
    BinOp(IrBinaryOp, IrVar, IrVar),
    UnOp(IrUnaryOp, IrVar),
}

/// Operators whose operands can be swapped without changing the result.
pub open spec fn is_commutative(op: IrBinaryOp) -> bool {
    op == IrBinaryOp::Add || op == IrBinaryOp::Mul || op == IrBinaryOp::Eq || op == IrBinaryOp::Ne
        || op == IrBinaryOp::BitAnd || op == IrBinaryOp::BitOr || op == IrBinaryOp::BitXor
}

/// The key of `lhs op rhs`: the operands of a commutative operator are put
/// in increasing order.
pub open spec fn canonical_key(op: IrBinaryOp, lhs: IrVar, rhs: IrVar) -> ExpressionKey {
    if is_commutative(op) && lhs.0 > rhs.0 {
        ExpressionKey::BinOp(op, rhs, lhs)
    } else {
        ExpressionKey::BinOp(op, lhs, rhs)
    }
}

/// The key of `lhs op rhs` (see `canonical_key`).
pub fn canonical_binop_key(op: IrBinaryOp, lhs: IrVar, rhs: IrVar) -> (r: ExpressionKey)
    ensures
        r == canonical_key(op, lhs, rhs),
{
    match op {
        IrBinaryOp::Add | IrBinaryOp::Mul | IrBinaryOp::Eq | IrBinaryOp::Ne | IrBinaryOp::BitAnd
        | IrBinaryOp::BitOr | IrBinaryOp::BitXor => {
            if lhs.0 <= rhs.0 {
                ExpressionKey::BinOp(op, lhs, rhs)
            } else {
                ExpressionKey::BinOp(op, rhs, lhs)
            }
        },
        _ => ExpressionKey::BinOp(op, lhs, rhs),
    }
}

/// `a op b` and `b op a` share a key when `op` is commutative, so either
/// form finds the other's result; a non-commutative operator keeps its
/// operand order, so `a - b` and `b - a` differ unless `a` is `b`.
pub proof fn lemma_canonical_key_symmetric(op: IrBinaryOp, a: IrVar, b: IrVar)
    ensures
        is_commutative(op) ==> canonical_key(op, a, b) == canonical_key(op, b, a),
        !is_commutative(op) ==> (canonical_key(op, a, b) == canonical_key(op, b, a) <==> a == b),
{
}

/// Whether a remembered computation `key` (held in `target`) is still valid
/// after `modified` is written.
pub open spec fn survives(key: ExpressionKey, target: IrVar, modified: IrVar) -> bool {
    target != modified && match key {
        ExpressionKey::BinOp(_, lhs, rhs) => lhs != modified && rhs != modified,
        ExpressionKey::UnOp(_, src) => src != modified,
    }
}

/// The test `survives` as a predicate on remembered pairs.
pub open spec fn survives_pred(modified: IrVar) -> spec_fn((ExpressionKey, IrVar)) -> bool {
    |e: (ExpressionKey, IrVar)| survives(e.0, e.1, modified)
}

/// Forgets every remembered computation that reads or is held in
/// `modified_var`, keeping the others in order.
pub fn invalidate_expressions(map: &mut Vec<(ExpressionKey, IrVar)>, modified_var: IrVar)
    ensures
        final(map)@ == old(map)@.filter(survives_pred(modified_var)),
{
    let ghost pred = survives_pred(modified_var);
    let mut kept: Vec<(ExpressionKey, IrVar)> = Vec::new();
    let mut i: usize = 0;
    while i < map.len()
        invariant
            i <= map@.len(),
            map@ == old(map)@,
            pred == survives_pred(modified_var),
            kept@ == map@.take(i as int).filter(pred),
        decreases map@.len() - i,
    {
        let (key, target) = map[i];
        let keep = target != modified_var && match key {
            ExpressionKey::BinOp(_, lhs, rhs) => lhs != modified_var && rhs != modified_var,
            ExpressionKey::UnOp(_, src) => src != modified_var,
        };
        proof {
            assert(map@.take(i + 1).drop_last() =~= map@.take(i as int));
            assert(map@.take(i + 1).last() == map@[i as int]);
            assert(map@[i as int] == (key, target));
            assert(pred(map@[i as int]) == survives(key, target, modified_var));
            assert(keep == pred(map@[i as int]));
        }
        let ghost t = map@.take(i + 1);
        proof {
            reveal_with_fuel(Seq::<(ExpressionKey, IrVar)>::filter, 1);
        }
        assert(t.filter(pred) == if pred(t.last()) {
            t.drop_last().filter(pred).push(t.last())
        } else {
            t.drop_last().filter(pred)
        });
        if keep {
            kept.push((key, target));
        }
        i = i + 1;
    }
    assert(map@.take(map@.len() as int) =~= map@);
    *map = kept;
}

/// The key and destination of a computation that can be remembered.
pub open spec fn computed_key(i: IrInst) -> Option<(ExpressionKey, IrVar)> {
    match i {
        IrInst::BinOp { dst, op, lhs, rhs } => Some((canonical_key(op, lhs, rhs), dst)),
        IrInst::UnOp { dst, op, src } => Some((ExpressionKey::UnOp(op, src), dst)),
        _ => None,
    }
}

/// One step of the pass on instruction `i`, with the computations `m`
/// remembered so far: the instruction it leaves, what is remembered after
/// it, and whether it replaced the instruction. A computation already held
/// in another variable becomes a move from it; a new one is remembered in
/// its destination; whatever writes a variable forgets what reads or is held
/// in it.
pub open spec fn cse_step(m: Seq<(ExpressionKey, IrVar)>, i: IrInst) -> (IrInst, Seq<(ExpressionKey, IrVar)>, bool) {
    match computed_key(i) {
        Some((k, d)) => match pairs_get(m, k) {
            Some(e) => (
                if e != d {
                    IrInst::Move { dst: d, src: e }
                } else {
                    i
                },
                m.filter(survives_pred(d)),
                e != d,
            ),
            None => (i, m.filter(survives_pred(d)).push((k, d)), false),
        },
        None => (
            i,
            match inst_def_var(i) {
                Some(v) => m.filter(survives_pred(v)),
                None => m,
            },
            false,
        ),
    }
}

/// The pass over the first `k` instructions of `s`: the instructions it
/// leaves, what it remembers, and whether it replaced any.
pub open spec fn cse_prefix(s: Seq<IrInst>, k: int) -> (Seq<IrInst>, Seq<(ExpressionKey, IrVar)>, bool)
    decreases k,
{
    if k <= 0 {
        (Seq::empty(), Seq::empty(), false)
    } else {
        let (done, m, c) = cse_prefix(s, k - 1);
        let (ni, m2, c2) = cse_step(m, s[k - 1]);
        (done.push(ni), m2, c || c2)
    }
}

/// The instructions the pass leaves for `s`, and whether it replaced any.
pub open spec fn cse_insts(s: Seq<IrInst>) -> (Seq<IrInst>, bool) {
    let r = cse_prefix(s, s.len() as int);
    (r.0, r.2)
}

proof fn lemma_cse_prefix_len(s: Seq<IrInst>, k: int)
    requires
        0 <= k,
    ensures
        cse_prefix(s, k).0.len() == k,
    decreases k,
{
    if k > 0 {
        lemma_cse_prefix_len(s, k - 1);
    }
}

/// The variable remembered for `key`.
fn find_key(map: &Vec<(ExpressionKey, IrVar)>, key: ExpressionKey) -> (r: Option<IrVar>)
    ensures
        r == pairs_get(map@, key),
{
    let mut i: usize = 0;
    assert(map@.skip(0) =~= map@);
    while i < map.len()
        invariant
            i <= map@.len(),
            pairs_get(map@, key) == pairs_get(map@.skip(i as int), key),
        decreases map@.len() - i,
    {
        assert(map@.skip(i as int).drop_first() =~= map@.skip(i + 1));
        if map[i].0 == key {
            return Some(map[i].1);
        }
        i = i + 1;
    }
    None
}

/// Replaces, within `instructions`, each pure computation already held in
/// a variable by a move from it (see `cse_insts`); the result tells whether
/// any was replaced.
pub fn cse_slice(instructions: &mut Vec<IrInst>) -> (modified: bool)
    ensures
        final(instructions)@ == cse_insts(old(instructions)@).0,
        modified == cse_insts(old(instructions)@).1,
{
    let ghost s = instructions@;
    let mut expr_map: Vec<(ExpressionKey, IrVar)> = Vec::new();
    let mut modified = false;
    let mut i: usize = 0;
    while i < instructions.len()
        invariant
            instructions@.len() == s.len(),
            i <= s.len(),
            forall|q: int| i <= q < s.len() ==> instructions@[q] == s[q],
            instructions@.take(i as int) == cse_prefix(s, i as int).0,
            expr_map@ == cse_prefix(s, i as int).1,
            modified == cse_prefix(s, i as int).2,
        decreases s.len() - i,
    {
        proof {
            lemma_cse_prefix_len(s, i as int);
        }
        let ghost before = instructions@;
        let ghost m = expr_map@;
        let found: Option<(ExpressionKey, IrVar)> = match &instructions[i] {
            IrInst::BinOp { dst, op, lhs, rhs } => Some((canonical_binop_key(*op, *lhs, *rhs), *dst)),
            IrInst::UnOp { dst, op, src } => Some((ExpressionKey::UnOp(*op, *src), *dst)),
            _ => None,
        };
        assert(found == computed_key(s[i as int]));
        match found {
            Some((key, d)) => {
                match find_key(&expr_map, key) {
                    Some(existing) => {
                        if existing != d {
                            instructions.set(i, IrInst::Move { dst: d, src: existing });
                            modified = true;
                        }
                        invalidate_expressions(&mut expr_map, d);
                    },
                    None => {
                        invalidate_expressions(&mut expr_map, d);
                        expr_map.push((key, d));
                    },
                }
            },
            None => {
                match instructions[i].def_var() {
                    Some(v) => {
                        invalidate_expressions(&mut expr_map, v);
                    },
                    None => {},
                }
            },
        }
        assert(instructions@.take(i + 1) =~= cse_prefix(s, i + 1).0);
        i = i + 1;
    }
    assert(instructions@ =~= instructions@.take(s.len() as int));
    modified
}

/// Runs `cse_slice` on the instructions of every block; the result tells
/// whether any block changed.
pub fn common_subexpression_elimination_cfg(cfg: &mut ControlFlowGraph) -> (changed: bool)
    ensures
        final(cfg).entry_label == old(cfg).entry_label,
        final(cfg).blocks@.len() == old(cfg).blocks@.len(),
        forall|j: int|
            0 <= j < old(cfg).blocks@.len() ==> {
                let b = old(cfg).blocks@[j];
                let nb = #[trigger] final(cfg).blocks@[j];
                &&& nb.instructions@ == cse_insts(b.instructions@).0
                &&& nb.label == b.label
                &&& nb.predecessors == b.predecessors
                &&& nb.successors == b.successors
            },
        changed == exists|j: int|
            0 <= j < old(cfg).blocks@.len() && cse_insts(#[trigger] old(cfg).blocks@[j].instructions@).1,
{
    let ghost old_blocks = cfg.blocks@;
    let mut changed = false;
    let mut j: usize = 0;
    while j < cfg.blocks.len()
        invariant
            cfg.blocks@.len() == old_blocks.len(),
            j <= old_blocks.len(),
            cfg.entry_label == old(cfg).entry_label,
            old_blocks == old(cfg).blocks@,
            forall|q: int| j <= q < old_blocks.len() ==> cfg.blocks@[q] == old_blocks[q],
            forall|q: int|
                0 <= q < j ==> {
                    let b = old_blocks[q];
                    let nb = #[trigger] cfg.blocks@[q];
                    &&& nb.instructions@ == cse_insts(b.instructions@).0
                    &&& nb.label == b.label
                    &&& nb.predecessors == b.predecessors
                    &&& nb.successors == b.successors
                },
            changed == exists|q: int| 0 <= q < j && cse_insts(#[trigger] old_blocks[q].instructions@).1,
        decreases old_blocks.len() - j,
    {
        let mut blk = take_block(&mut cfg.blocks, j);
        assert(blk == old_blocks[j as int]);
        if cse_slice(&mut blk.instructions) {
            changed = true;
        }
        cfg.blocks.set(j, blk);
        proof {
            if cse_insts(old_blocks[j as int].instructions@).1 {
                assert(exists|q: int| 0 <= q < j + 1 && cse_insts(#[trigger] old_blocks[q].instructions@).1);
            }
        }
        j = j + 1;
    }
    changed
}

/// Runs `cse_slice` on the instructions of the main function.
pub fn common_subexpression_elimination(module: &mut IrModule)
    ensures
        final(module).main.instructions@ == cse_insts(old(module).main.instructions@).0,
        final(module).main.name == old(module).main.name,
        final(module).main.num_params == old(module).main.num_params,
        final(module).main.is_vararg == old(module).main.is_vararg,
        final(module).main.params == old(module).main.params,
        final(module).main.protos == old(module).main.protos,
        final(module).main.upvalues == old(module).main.upvalues,
        final(module).main.upvalue_vars == old(module).main.upvalue_vars,
        final(module).main.cfg == old(module).main.cfg,
{
    let _ = cse_slice(&mut module.main.instructions);
}

} // verus!
