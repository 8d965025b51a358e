//! Static single assignment form: fresh variables, lowering of phi nodes
//! back to copies, and constant and copy propagation over phi nodes.
use vstd::prelude::*;

use crate::compiler::ir::block::{take_block, ControlFlowGraph};
use crate::compiler::ir::inst::{inst_is_terminator, IrInst};
use crate::compiler::ir::verify::{cfg_ok, lemma_cfg_ok_kept, phis_first, term_shapes};
use crate::compiler::ir::opt::loop_invariant::{first_terminator, first_terminator_exec};
use crate::compiler::ir::opt::simplify_cfg::{index_of_label, model, model_index, models, BlockModel};
use crate::compiler::ir::types::{
    big_add, big_eq, big_ge, big_gt, big_le, big_lt, big_mul, big_sub, big_value, clone_constant, IrBinaryOp, IrConstant,
    IrLabel, IrVar,
};
use crate::text::{chars_eq, chars_of};
use num_bigint::BigInt;
use std::collections::HashMap;

pub use crate::compiler::ir::ssa_construct::construct_ssa;

verus! {

/// Hands out variables numbered after every existing one.
pub struct SsaContext {
    var_counter: u32,
}

impl SsaContext {
    /// The number the next fresh variable gets.
    pub closed spec fn next(&self) -> nat {
        self.var_counter as nat
    }

    /// A context whose fresh variables come after `max_existing_var`.
    pub fn new(max_existing_var: u32) -> (r: Self)
        requires
            max_existing_var < u32::MAX,
        ensures
            r.next() == max_existing_var + 1,
    {
        SsaContext { var_counter: max_existing_var + 1 }
    }

    /// A variable not handed out before.
    pub fn fresh_var(&mut self) -> (v: IrVar)
        requires
            old(self).next() < u32::MAX,
        ensures
            v.0 == old(self).next(),
            final(self).next() == old(self).next() + 1,
    {
        let v = IrVar(self.var_counter);
        self.var_counter = self.var_counter + 1;
        v
    }
}

/// The copies the phi nodes among the first `k` of `s` stand for: for each
/// incoming (predecessor, variable), a move into the phi's variable, to be
/// placed in that predecessor.
pub open spec fn phi_copies(s: Seq<IrInst>, k: int) -> Seq<(IrLabel, IrInst)>
    decreases k,
{
    if k <= 0 {
        Seq::empty()
    } else {
        let prev = phi_copies(s, k - 1);
        match s[k - 1] {
            IrInst::Phi { dst, incoming } => prev + Seq::new(
                incoming@.len(),
                |q: int| (incoming@[q].0, IrInst::Move { dst, src: incoming@[q].1 }),
            ),
            _ => prev,
        }
    }
}

/// The test for an instruction other than a phi node.
pub open spec fn not_phi() -> spec_fn(IrInst) -> bool {
    |i: IrInst| !(i is Phi)
}

/// The instructions of `s` other than phi nodes, in order.
pub open spec fn non_phis(s: Seq<IrInst>) -> Seq<IrInst> {
    s.filter(not_phi())
}

/// The copies `(predecessor, destination, source)` as instructions.
pub open spec fn copies_view(v: Seq<(IrLabel, IrVar, IrVar)>) -> Seq<(IrLabel, IrInst)> {
    Seq::new(v.len(), |q: int| (v[q].0, IrInst::Move { dst: v[q].1, src: v[q].2 }))
}

/// The copies of the phi nodes of the first `n` blocks, block by block.
pub open spec fn block_copies(m: Seq<BlockModel>, n: int) -> Seq<(IrLabel, IrInst)>
    decreases n,
{
    if n <= 0 {
        Seq::empty()
    } else {
        block_copies(m, n - 1) + phi_copies(m[n - 1].insts, m[n - 1].insts.len() as int)
    }
}

/// The first `k` copies placed in turn, each in the (first) block of its
/// predecessor, just before its first terminator (at the end without one).
pub open spec fn place_copies(m: Seq<BlockModel>, copies: Seq<(IrLabel, IrInst)>, k: int) -> Seq<BlockModel>
    decreases k,
{
    if k <= 0 {
        m
    } else {
        let prev = place_copies(m, copies, k - 1);
        let (pred, c) = copies[k - 1];
        let idx = model_index(prev, pred);
        if idx >= 0 {
            let s = prev[idx].insts;
            prev.update(idx, BlockModel { insts: s.insert(first_terminator(s), c), ..prev[idx] })
        } else {
            prev
        }
    }
}

/// The blocks after phi nodes are lowered to copies: every phi removed,
/// then its copies placed in the predecessors.
pub open spec fn destructed(m: Seq<BlockModel>) -> Seq<BlockModel> {
    let stripped = Seq::new(m.len(), |j: int| BlockModel { insts: non_phis(m[j].insts), ..m[j] });
    let copies = block_copies(m, m.len() as int);
    place_copies(stripped, copies, copies.len() as int)
}

/// Lowers phi nodes to copies (see `destructed`).
pub fn destruct_ssa(cfg: &mut ControlFlowGraph)
    ensures
        final(cfg).entry_label == old(cfg).entry_label,
        models(final(cfg).blocks@) == destructed(models(old(cfg).blocks@)),
{
    let ghost m = models(cfg.blocks@);
    let ghost stripped = Seq::new(m.len(), |j: int| BlockModel { insts: non_phis(m[j].insts), ..m[j] });
    let mut copies: Vec<(IrLabel, IrVar, IrVar)> = Vec::new();
    let mut j: usize = 0;
    while j < cfg.blocks.len()
        invariant
            j <= m.len(),
            cfg.blocks@.len() == m.len(),
            cfg.entry_label == old(cfg).entry_label,
            m == models(old(cfg).blocks@),
            stripped == Seq::new(m.len(), |q: int| BlockModel { insts: non_phis(m[q].insts), ..m[q] }),
            forall|q: int| 0 <= q < j ==> model(#[trigger] cfg.blocks@[q]) == stripped[q],
            forall|q: int| j <= q < m.len() ==> model(#[trigger] cfg.blocks@[q]) == m[q],
            copies_view(copies@) == block_copies(m, j as int),
        decreases m.len() - j,
    {
        let mut blk = take_block(&mut cfg.blocks, j);
        assert(model(blk) == m[j as int]);
        let ghost s = blk.instructions@;
        let mut rest: Vec<IrInst> = Vec::new();
        std::mem::swap(&mut rest, &mut blk.instructions);
        let total = rest.len();
        let mut kept: Vec<IrInst> = Vec::new();
        let ghost c0 = copies_view(copies@);
        let mut k: usize = 0;
        while rest.len() > 0
            invariant
                k <= s.len(),
                total == s.len(),
                rest@ == s.skip(k as int),
                kept@ == s.take(k as int).filter(not_phi()),
                copies_view(copies@) == c0 + phi_copies(s, k as int),
            decreases rest@.len(),
        {
            assert(k < s.len());
            let inst = rest.remove(0);
            assert(inst == s[k as int]);
            assert(rest@ =~= s.skip(k + 1));
            let ghost t = s.take(k + 1);
            proof {
                assert(t.drop_last() =~= s.take(k as int));
                assert(t.last() == s[k as int]);
                reveal_with_fuel(Seq::<IrInst>::filter, 1);
            }
            let ghost pred = not_phi();
            assert(t.filter(pred) == if pred(t.last()) {
                t.drop_last().filter(pred).push(t.last())
            } else {
                t.drop_last().filter(pred)
            });
            match inst {
                IrInst::Phi { dst, incoming } => {
                    let ghost cb = copies_view(copies@);
                    let mut q: usize = 0;
                    while q < incoming.len()
                        invariant
                            q <= incoming@.len(),
                            copies_view(copies@) == cb + Seq::new(
                                q as nat,
                                |w: int| (incoming@[w].0, IrInst::Move { dst, src: incoming@[w].1 }),
                            ),
                        decreases incoming@.len() - q,
                    {
                        let (pl, sv) = incoming[q];
                        let ghost before_c = copies@;
                        copies.push((pl, dst, sv));
                        assert(copies_view(copies@) =~= copies_view(before_c).push((pl, IrInst::Move { dst, src: sv })));
                        assert(copies_view(copies@) =~= cb + Seq::new(
                            (q + 1) as nat,
                            |w: int| (incoming@[w].0, IrInst::Move { dst, src: incoming@[w].1 }),
                        ));
                        q = q + 1;
                    }
                },
                other => {
                    kept.push(other);
                },
            }
            k = k + 1;
        }
        assert(s.take(s.len() as int) =~= s);
        assert(phi_copies(s, s.len() as int) == phi_copies(m[j as int].insts, m[j as int].insts.len() as int));
        blk.instructions = kept;
        cfg.blocks.set(j, blk);
        assert(block_copies(m, j + 1) == block_copies(m, j as int) + phi_copies(s, s.len() as int));
        j = j + 1;
    }
    assert(models(cfg.blocks@) =~= stripped);
    let ghost cs = copies_view(copies@);
    let mut k: usize = 0;
    while k < copies.len()
        invariant
            k <= cs.len(),
            cs == copies_view(copies@),
            cs == block_copies(m, m.len() as int),
            cfg.entry_label == old(cfg).entry_label,
            models(cfg.blocks@) == place_copies(stripped, cs, k as int),
        decreases cs.len() - k,
    {
        let ghost prev = models(cfg.blocks@);
        let pred = copies[k].0;
        match index_of_label(&cfg.blocks, pred) {
            Some(idx) => {
                let mut blk = take_block(&mut cfg.blocks, idx);
                assert(model(blk) == prev[idx as int]);
                let pos = first_terminator_exec(&blk.instructions);
                let c = IrInst::Move { dst: copies[k].1, src: copies[k].2 };
                let ghost s = blk.instructions@;
                blk.instructions.insert(pos, c);
                cfg.blocks.set(idx, blk);
                assert(models(cfg.blocks@) =~= prev.update(idx as int, BlockModel { insts: s.insert(pos as int, cs[k as int].1), ..prev[idx as int] }));
            },
            None => {},
        }
        k = k + 1;
    }
}

/// A constant as the propagation sees it.
pub ghost enum ConstValue {
    Nil,
    Bool(bool),
    Int(int),
    Float(u64),
    Str(Seq<char>),
}

/// The value of a constant.
pub open spec fn cval(c: IrConstant) -> ConstValue {
    match c {
        IrConstant::Nil => ConstValue::Nil,
        IrConstant::Bool(b) => ConstValue::Bool(b),
        IrConstant::Int(i) => ConstValue::Int(big_value(i)),
        IrConstant::Float(f) => ConstValue::Float(f),
        IrConstant::String(s) => ConstValue::Str(s@),
    }
}

/// Whether a bit pattern is a NaN.
pub open spec fn float_is_nan(x: u64) -> bool {
    (x & 0x7ff0_0000_0000_0000u64) == 0x7ff0_0000_0000_0000u64 && (x & 0x000f_ffff_ffff_ffffu64) != 0
}

/// Whether a bit pattern is a zero (of either sign).
pub open spec fn float_is_zero(x: u64) -> bool {
    (x & 0x7fff_ffff_ffff_ffffu64) == 0
}

/// Floating-point equality on bit patterns: no NaN equals anything, the
/// two zeros are equal, other values are equal when their bits are.
pub open spec fn float_eq(a: u64, b: u64) -> bool {
    !float_is_nan(a) && !float_is_nan(b) && (a == b || (float_is_zero(a) && float_is_zero(b)))
}

/// Equality of constants (`==` on `IrConstant`).
pub open spec fn const_eq(a: ConstValue, b: ConstValue) -> bool {
    match (a, b) {
        (ConstValue::Nil, ConstValue::Nil) => true,
        (ConstValue::Bool(x), ConstValue::Bool(y)) => x == y,
        (ConstValue::Int(x), ConstValue::Int(y)) => x == y,
        (ConstValue::Float(x), ConstValue::Float(y)) => float_eq(x, y),
        (ConstValue::Str(x), ConstValue::Str(y)) => x == y,
        _ => false,
    }
}

/// What the propagation knows: the constant and the copied variable held
/// in each variable.
pub ghost struct PropState {
    pub consts: Map<IrVar, ConstValue>,
    pub copies: Map<IrVar, IrVar>,
}

/// What becomes of an instruction: kept, replaced by a constant load, or
/// replaced by a copy.
pub ghost enum PropInst {
    Keep,
    Load(IrVar, ConstValue),
    Copy(IrVar, IrVar),
}

/// The variable `v` is a copy of, or `v` itself.
pub open spec fn resolve(copies: Map<IrVar, IrVar>, v: IrVar) -> IrVar {
    if copies.dom().contains(v) {
        copies[v]
    } else {
        v
    }
}

/// The common constant of the first `k` incoming variables of a phi with
/// variable `dst` (its own variable skipped), and whether all so far agree:
/// each must resolve to a known constant equal to the first.
pub open spec fn common_const(st: PropState, dst: IrVar, inc: Seq<(IrLabel, IrVar)>, k: int) -> (Option<ConstValue>, bool)
    decreases k,
{
    if k <= 0 {
        (None, inc.len() > 0)
    } else {
        let (c, ok) = common_const(st, dst, inc, k - 1);
        let sv = inc[k - 1].1;
        if !ok || sv == dst {
            (c, ok)
        } else {
            let r = resolve(st.copies, sv);
            if st.consts.dom().contains(r) {
                match c {
                    Some(p) => (c, const_eq(p, st.consts[r])),
                    None => (Some(st.consts[r]), true),
                }
            } else {
                (c, false)
            }
        }
    }
}

/// The common variable the first `k` incoming variables resolve to (its
/// own variable skipped), and whether all so far agree.
pub open spec fn common_var(st: PropState, dst: IrVar, inc: Seq<(IrLabel, IrVar)>, k: int) -> (Option<IrVar>, bool)
    decreases k,
{
    if k <= 0 {
        (None, inc.len() > 0)
    } else {
        let (c, ok) = common_var(st, dst, inc, k - 1);
        let sv = inc[k - 1].1;
        if !ok || sv == dst {
            (c, ok)
        } else {
            let r = resolve(st.copies, sv);
            match c {
                Some(p) => (c, p == r),
                None => (Some(r), true),
            }
        }
    }
}

/// The constant `op` gives on the integers `x` and `y`, when it folds them.
pub open spec fn fold_ints(op: IrBinaryOp, x: int, y: int) -> Option<ConstValue> {
    match op {
        IrBinaryOp::Add => Some(ConstValue::Int(x + y)),
        IrBinaryOp::Sub => Some(ConstValue::Int(x - y)),
        IrBinaryOp::Mul => Some(ConstValue::Int(x * y)),
        IrBinaryOp::Eq => Some(ConstValue::Bool(x == y)),
        IrBinaryOp::Ne => Some(ConstValue::Bool(x != y)),
        IrBinaryOp::Lt => Some(ConstValue::Bool(x < y)),
        IrBinaryOp::Le => Some(ConstValue::Bool(x <= y)),
        IrBinaryOp::Gt => Some(ConstValue::Bool(x > y)),
        IrBinaryOp::Ge => Some(ConstValue::Bool(x >= y)),
        _ => None,
    }
}

/// One step of the propagation on instruction `i`: what becomes of it, what
/// is known after it, and whether it taught something new. A constant load
/// records its constant; a move records the constant or variable its source
/// resolves to; a phi whose incoming values agree on a constant becomes a
/// load of it, or, when they resolve to one variable, a copy of it; an
/// operator on two known integers becomes a load of the result.
pub open spec fn prop_step(st: PropState, i: IrInst) -> (PropInst, PropState, bool) {
    match i {
        IrInst::LoadConst { dst, val } => (
            PropInst::Keep,
            PropState { consts: st.consts.insert(dst, cval(val)), ..st },
            !st.consts.dom().contains(dst),
        ),
        IrInst::Move { dst, src } => {
            let r = resolve(st.copies, src);
            if st.consts.dom().contains(r) {
                (
                    PropInst::Keep,
                    PropState { consts: st.consts.insert(dst, st.consts[r]), ..st },
                    !st.consts.dom().contains(dst),
                )
            } else {
                (PropInst::Keep, PropState { copies: st.copies.insert(dst, r), ..st }, !st.copies.dom().contains(dst))
            }
        },
        IrInst::Phi { dst, incoming } => {
            let (cc, cok) = common_const(st, dst, incoming@, incoming@.len() as int);
            let (cv, vok) = common_var(st, dst, incoming@, incoming@.len() as int);
            if cok && cc is Some {
                (
                    PropInst::Load(dst, cc->0),
                    PropState { consts: st.consts.insert(dst, cc->0), ..st },
                    !st.consts.dom().contains(dst),
                )
            } else if vok && cv is Some {
                (PropInst::Copy(dst, cv->0), PropState { copies: st.copies.insert(dst, cv->0), ..st }, true)
            } else {
                (PropInst::Keep, st, false)
            }
        },
        IrInst::BinOp { dst, op, lhs, rhs } => {
            if st.consts.dom().contains(lhs) && st.consts.dom().contains(rhs) && st.consts[lhs] is Int
                && st.consts[rhs] is Int && fold_ints(op, st.consts[lhs]->Int_0, st.consts[rhs]->Int_0) is Some {
                let v = fold_ints(op, st.consts[lhs]->Int_0, st.consts[rhs]->Int_0)->0;
                (PropInst::Load(dst, v), PropState { consts: st.consts.insert(dst, v), ..st }, true)
            } else {
                (PropInst::Keep, st, false)
            }
        },
        _ => (PropInst::Keep, st, false),
    }
}

/// Whether `out` is what becomes of `i` by `p`.
pub open spec fn realizes(out: IrInst, i: IrInst, p: PropInst) -> bool {
    match p {
        PropInst::Keep => out == i,
        PropInst::Load(d, v) => out matches IrInst::LoadConst { dst, val } && dst == d && cval(val) == v,
        PropInst::Copy(d, s) => out == IrInst::Move { dst: d, src: s },
    }
}

/// The steps over the first `k` of `s`: what becomes of each, what is
/// known after them, and whether any taught something new.
pub open spec fn prop_insts(st: PropState, s: Seq<IrInst>, k: int) -> (Seq<PropInst>, PropState, bool)
    decreases k,
{
    if k <= 0 {
        (Seq::empty(), st, false)
    } else {
        let (ps, st1, c1) = prop_insts(st, s, k - 1);
        let (p, st2, c2) = prop_step(st1, s[k - 1]);
        (ps.push(p), st2, c1 || c2)
    }
}

/// The steps over the first `n` blocks, in order: for each block what
/// becomes of its instructions, then what is known after and whether
/// anything new was learnt.
pub open spec fn prop_blocks(st: PropState, m: Seq<BlockModel>, n: int) -> (Seq<Seq<PropInst>>, PropState, bool)
    decreases n,
{
    if n <= 0 {
        (Seq::empty(), st, false)
    } else {
        let (pss, st1, c1) = prop_blocks(st, m, n - 1);
        let (ps, st2, c2) = prop_insts(st1, m[n - 1].insts, m[n - 1].insts.len() as int);
        (pss.push(ps), st2, c1 || c2)
    }
}

/// Whether `after` is `before` after one pass from `st`, which leaves
/// `st2` known and learns something new exactly when `c`.
pub open spec fn prop_pass(before: Seq<BlockModel>, st: PropState, after: Seq<BlockModel>, st2: PropState, c: bool) -> bool {
    let (pss, s2, c2) = prop_blocks(st, before, before.len() as int);
    &&& st2 == s2
    &&& c == c2
    &&& after.len() == before.len()
    &&& forall|j: int|
        0 <= j < before.len() ==> {
            let b = before[j];
            let a = #[trigger] after[j];
            &&& a.label == b.label
            &&& a.preds == b.preds
            &&& a.succs == b.succs
            &&& a.insts.len() == b.insts.len()
            &&& forall|k: int| 0 <= k < b.insts.len() ==> realizes(#[trigger] a.insts[k], b.insts[k], pss[j][k])
        }
}

/// Whether the pairs `v`, one per variable, are the map `m`.
pub open spec fn vars_hold(v: Seq<(IrVar, IrVar)>, m: Map<IrVar, IrVar>) -> bool {
    &&& forall|i: int, j: int| 0 <= i < j < v.len() ==> v[i].0 != v[j].0
    &&& forall|i: int| 0 <= i < v.len() ==> m.dom().contains(#[trigger] v[i].0) && m[v[i].0] == v[i].1
    &&& forall|k: IrVar| m.dom().contains(k) ==> exists|i: int| 0 <= i < v.len() && v[i].0 == k
}

pub(crate) fn var_index(v: &Vec<(IrVar, IrVar)>, k: IrVar) -> (r: Option<usize>)
    ensures
        r matches Some(i) ==> i < v@.len() && v@[i as int].0 == k,
        r is None ==> forall|i: int| 0 <= i < v@.len() ==> v@[i].0 != k,
{
    let mut i: usize = 0;
    while i < v.len()
        invariant
            i <= v@.len(),
            forall|q: int| 0 <= q < i ==> v@[q].0 != k,
        decreases v@.len() - i,
    {
        if v[i].0 == k {
            return Some(i);
        }
        i = i + 1;
    }
    None
}

/// Records that `k` copies `x`; the result tells whether `k` had no entry.
pub(crate) fn var_put(v: &mut Vec<(IrVar, IrVar)>, k: IrVar, x: IrVar, Ghost(m): Ghost<Map<IrVar, IrVar>>) -> (fresh: bool)
    requires
        vars_hold(old(v)@, m),
    ensures
        vars_hold(final(v)@, m.insert(k, x)),
        fresh == !m.dom().contains(k),
{
    let ghost v0 = v@;
    let ghost m2 = m.insert(k, x);
    match var_index(v, k) {
        Some(i) => {
            v.set(i, (k, x));
            assert forall|q: int| 0 <= q < v@.len() implies m2.dom().contains(#[trigger] v@[q].0) && m2[v@[q].0] == v@[q].1 by {
                if q != i {
                    assert(v@[q] == v0[q]);
                }
            }
            assert forall|k2: IrVar| m2.dom().contains(k2) implies exists|q: int| 0 <= q < v@.len() && v@[q].0 == k2 by {
                if k2 == k {
                    assert(v@[i as int].0 == k2);
                } else {
                    assert(m.dom().contains(k2));
                    let q = choose|q: int| 0 <= q < v0.len() && v0[q].0 == k2;
                    assert(v@[q].0 == k2);
                }
            }
            assert forall|a: int, b: int| 0 <= a < b < v@.len() implies v@[a].0 != v@[b].0 by {
                assert(v@[a].0 == v0[a].0 && v@[b].0 == v0[b].0);
            }
            false
        },
        None => {
            assert(!m.dom().contains(k)) by {
                if m.dom().contains(k) {
                    let q = choose|q: int| 0 <= q < v0.len() && v0[q].0 == k;
                }
            }
            v.push((k, x));
            assert forall|q: int| 0 <= q < v@.len() implies m2.dom().contains(#[trigger] v@[q].0) && m2[v@[q].0] == v@[q].1 by {
                if q < v0.len() {
                    assert(v@[q] == v0[q]);
                }
            }
            assert forall|k2: IrVar| m2.dom().contains(k2) implies exists|q: int| 0 <= q < v@.len() && v@[q].0 == k2 by {
                if k2 == k {
                    assert(v@[v0.len() as int].0 == k2);
                } else {
                    let q = choose|q: int| 0 <= q < v0.len() && v0[q].0 == k2;
                    assert(v@[q].0 == k2);
                }
            }
            true
        },
    }
}

/// Whether a table keyed by variable number holds the constants of `m`.
pub open spec fn const_table(t: Map<u32, IrConstant>, m: Map<IrVar, ConstValue>) -> bool {
    &&& forall|k: IrVar| #[trigger] m.dom().contains(k) ==> t.dom().contains(k.0) && m[k] == cval(t[k.0])
    &&& forall|n: u32| #[trigger] t.dom().contains(n) ==> m.dom().contains(IrVar(n))
}

/// Whether a table keyed by variable number is the copy map `m`.
pub open spec fn copy_table(t: Map<u32, IrVar>, m: Map<IrVar, IrVar>) -> bool {
    &&& forall|k: IrVar| #[trigger] m.dom().contains(k) ==> t.dom().contains(k.0) && m[k] == t[k.0]
    &&& forall|n: u32| #[trigger] t.dom().contains(n) ==> m.dom().contains(IrVar(n))
}

/// The constant recorded for `k`, if any.
fn const_lookup(t: &HashMap<u32, IrConstant>, k: IrVar, Ghost(m): Ghost<Map<IrVar, ConstValue>>) -> (r: Option<IrConstant>)
    requires
        const_table(t@, m),
    ensures
        r is Some <==> m.dom().contains(k),
        r matches Some(c) ==> m[k] == cval(c),
{
    broadcast use vstd::std_specs::hash::group_hash_axioms;

    match t.get(&k.0) {
        Some(c) => {
            assert(m.dom().contains(IrVar(k.0)));
            Some(clone_constant(c))
        },
        None => None,
    }
}

/// Records the constant `c` for `k`; the result tells whether `k` had none.
fn const_store(t: &mut HashMap<u32, IrConstant>, k: IrVar, c: IrConstant, Ghost(m): Ghost<Map<IrVar, ConstValue>>) -> (fresh: bool)
    requires
        const_table(old(t)@, m),
    ensures
        const_table(final(t)@, m.insert(k, cval(c))),
        fresh == !m.dom().contains(k),
{
    broadcast use vstd::std_specs::hash::group_hash_axioms;

    let ghost t0 = t@;
    let ghost m2 = m.insert(k, cval(c));
    let prev = t.insert(k.0, c);
    assert forall|k2: IrVar| #[trigger] m2.dom().contains(k2) implies t@.dom().contains(k2.0) && m2[k2] == cval(
        t@[k2.0],
    ) by {
        if k2 != k {
            assert(k2.0 != k.0);
        }
    }
    assert forall|n: u32| #[trigger] t@.dom().contains(n) implies m2.dom().contains(IrVar(n)) by {
        if n != k.0 {
            assert(t0.dom().contains(n));
        }
    }
    prev.is_none()
}

/// The variable recorded as the copy source of `k`, if any.
fn copy_lookup(t: &HashMap<u32, IrVar>, k: IrVar, Ghost(m): Ghost<Map<IrVar, IrVar>>) -> (r: Option<IrVar>)
    requires
        copy_table(t@, m),
    ensures
        r is Some <==> m.dom().contains(k),
        r matches Some(x) ==> m[k] == x,
{
    broadcast use vstd::std_specs::hash::group_hash_axioms;

    match t.get(&k.0) {
        Some(x) => {
            assert(m.dom().contains(IrVar(k.0)));
            Some(*x)
        },
        None => None,
    }
}

/// Records that `k` copies `x`; the result tells whether `k` had no entry.
fn copy_store(t: &mut HashMap<u32, IrVar>, k: IrVar, x: IrVar, Ghost(m): Ghost<Map<IrVar, IrVar>>) -> (fresh: bool)
    requires
        copy_table(old(t)@, m),
    ensures
        copy_table(final(t)@, m.insert(k, x)),
        fresh == !m.dom().contains(k),
{
    broadcast use vstd::std_specs::hash::group_hash_axioms;

    let ghost t0 = t@;
    let ghost m2 = m.insert(k, x);
    let prev = t.insert(k.0, x);
    assert forall|k2: IrVar| #[trigger] m2.dom().contains(k2) implies t@.dom().contains(k2.0) && m2[k2] == t@[k2.0] by {
        if k2 != k {
            assert(k2.0 != k.0);
        }
    }
    assert forall|n: u32| #[trigger] t@.dom().contains(n) implies m2.dom().contains(IrVar(n)) by {
        if n != k.0 {
            assert(t0.dom().contains(n));
        }
    }
    prev.is_none()
}

/// The variable `v` is recorded as a copy of, or `v` itself.
fn resolve_exec(copies: &HashMap<u32, IrVar>, v: IrVar, Ghost(m): Ghost<Map<IrVar, IrVar>>) -> (r: IrVar)
    requires
        copy_table(copies@, m),
    ensures
        r == resolve(m, v),
{
    match copy_lookup(copies, v, Ghost(m)) {
        Some(x) => x,
        None => v,
    }
}

fn float_equal(a: u64, b: u64) -> (r: bool)
    ensures
        r == float_eq(a, b),
{
    let a_nan = (a & 0x7ff0_0000_0000_0000u64) == 0x7ff0_0000_0000_0000u64 && (a & 0x000f_ffff_ffff_ffffu64) != 0;
    let b_nan = (b & 0x7ff0_0000_0000_0000u64) == 0x7ff0_0000_0000_0000u64 && (b & 0x000f_ffff_ffff_ffffu64) != 0;
    let a_zero = (a & 0x7fff_ffff_ffff_ffffu64) == 0;
    let b_zero = (b & 0x7fff_ffff_ffff_ffffu64) == 0;
    !a_nan && !b_nan && (a == b || (a_zero && b_zero))
}

/// Whether two constants are equal (see `const_eq`).
fn constants_equal(a: &IrConstant, b: &IrConstant) -> (r: bool)
    ensures
        r == const_eq(cval(*a), cval(*b)),
{
    match (a, b) {
        (IrConstant::Nil, IrConstant::Nil) => true,
        (IrConstant::Bool(x), IrConstant::Bool(y)) => *x == *y,
        (IrConstant::Int(x), IrConstant::Int(y)) => big_eq(x, y),
        (IrConstant::Float(x), IrConstant::Float(y)) => float_equal(*x, *y),
        (IrConstant::String(x), IrConstant::String(y)) => {
            let cx = chars_of(x.as_str());
            let cy = chars_of(y.as_str());
            chars_eq(cx.as_slice(), cy.as_slice())
        },
        _ => false,
    }
}

/// The constant `op` gives on two integers, when it folds them.
fn fold_int_pair(op: IrBinaryOp, a: &BigInt, b: &BigInt) -> (r: Option<IrConstant>)
    ensures
        match fold_ints(op, big_value(*a), big_value(*b)) {
            Some(v) => r matches Some(c) && cval(c) == v,
            None => r is None,
        },
{
    match op {
        IrBinaryOp::Add => Some(IrConstant::Int(big_add(a, b))),
        IrBinaryOp::Sub => Some(IrConstant::Int(big_sub(a, b))),
        IrBinaryOp::Mul => Some(IrConstant::Int(big_mul(a, b))),
        IrBinaryOp::Eq => Some(IrConstant::Bool(big_eq(a, b))),
        IrBinaryOp::Ne => Some(IrConstant::Bool(!big_eq(a, b))),
        IrBinaryOp::Lt => Some(IrConstant::Bool(big_lt(a, b))),
        IrBinaryOp::Le => Some(IrConstant::Bool(big_le(a, b))),
        IrBinaryOp::Gt => Some(IrConstant::Bool(big_gt(a, b))),
        IrBinaryOp::Ge => Some(IrConstant::Bool(big_ge(a, b))),
        _ => None,
    }
}

/// The value of an optional constant.
pub open spec fn opt_cval(o: Option<IrConstant>) -> Option<ConstValue> {
    match o {
        Some(c) => Some(cval(c)),
        None => None,
    }
}

proof fn lemma_common_const_stuck(st: PropState, dst: IrVar, inc: Seq<(IrLabel, IrVar)>, a: int, b: int)
    requires
        0 <= a <= b,
        !common_const(st, dst, inc, a).1,
    ensures
        common_const(st, dst, inc, b) == common_const(st, dst, inc, a),
    decreases b - a,
{
    if a < b {
        lemma_common_const_stuck(st, dst, inc, a, b - 1);
    }
}

proof fn lemma_common_var_stuck(st: PropState, dst: IrVar, inc: Seq<(IrLabel, IrVar)>, a: int, b: int)
    requires
        0 <= a <= b,
        !common_var(st, dst, inc, a).1,
    ensures
        common_var(st, dst, inc, b) == common_var(st, dst, inc, a),
    decreases b - a,
{
    if a < b {
        lemma_common_var_stuck(st, dst, inc, a, b - 1);
    }
}

/// One step of the propagation (see `prop_step`): the replacement for
/// `inst`, if any, and whether something new was learnt.
fn step_exec(
    inst: &IrInst,
    consts: &mut HashMap<u32, IrConstant>,
    copies: &mut HashMap<u32, IrVar>,
    Ghost(st): Ghost<PropState>,
) -> (r: (Option<IrInst>, bool))
    requires
        const_table(old(consts)@, st.consts),
        copy_table(old(copies)@, st.copies),
    ensures
        ({
            let (p, st2, c) = prop_step(st, *inst);
            &&& const_table(final(consts)@, st2.consts)
            &&& copy_table(final(copies)@, st2.copies)
            &&& r.1 == c
            &&& match p {
                PropInst::Keep => r.0 is None,
                _ => r.0 matches Some(o) && realizes(o, *inst, p),
            }
        }),
{
    match inst {
        IrInst::LoadConst { dst, val } => {
            let fresh = const_store(consts, *dst, clone_constant(val), Ghost(st.consts));
            (None, fresh)
        },
        IrInst::Move { dst, src } => {
            let r = resolve_exec(copies, *src, Ghost(st.copies));
            match const_lookup(consts, r, Ghost(st.consts)) {
                Some(c) => {
                    let fresh = const_store(consts, *dst, c, Ghost(st.consts));
                    (None, fresh)
                },
                None => {
                    let fresh = copy_store(copies, *dst, r, Ghost(st.copies));
                    (None, fresh)
                },
            }
        },
        IrInst::Phi { dst, incoming } => {
            let dst = *dst;
            let n = incoming.len();
            let mut common: Option<IrConstant> = None;
            let mut ok = n > 0;
            let mut q: usize = 0;
            while q < n && ok
                invariant
                    q <= n,
                    n == incoming@.len(),
                    const_table(consts@, st.consts),
                    copy_table(copies@, st.copies),
                    common_const(st, dst, incoming@, q as int) == (opt_cval(common), ok),
                decreases n - q,
            {
                let sv = incoming[q].1;
                if sv != dst {
                    let r = resolve_exec(copies, sv, Ghost(st.copies));
                    match const_lookup(consts, r, Ghost(st.consts)) {
                        Some(c) => {
                            match &common {
                                Some(p) => {
                                    if !constants_equal(p, &c) {
                                        ok = false;
                                    }
                                },
                                None => {
                                    common = Some(c);
                                },
                            }
                        },
                        None => {
                            ok = false;
                        },
                    }
                }
                q = q + 1;
            }
            proof {
                if !ok {
                    lemma_common_const_stuck(st, dst, incoming@, q as int, n as int);
                }
            }
            if ok {
                match common {
                    Some(c) => {
                        let fresh = const_store(consts, dst, clone_constant(&c), Ghost(st.consts));
                        return (Some(IrInst::LoadConst { dst, val: c }), fresh);
                    },
                    None => {},
                }
            }
            let mut cv: Option<IrVar> = None;
            let mut vok = n > 0;
            let mut q: usize = 0;
            while q < n && vok
                invariant
                    q <= n,
                    n == incoming@.len(),
                    copy_table(copies@, st.copies),
                    common_var(st, dst, incoming@, q as int) == (cv, vok),
                decreases n - q,
            {
                let sv = incoming[q].1;
                if sv != dst {
                    let r = resolve_exec(copies, sv, Ghost(st.copies));
                    match cv {
                        Some(p) => {
                            if p != r {
                                vok = false;
                            }
                        },
                        None => {
                            cv = Some(r);
                        },
                    }
                }
                q = q + 1;
            }
            proof {
                if !vok {
                    lemma_common_var_stuck(st, dst, incoming@, q as int, n as int);
                }
            }
            if vok {
                match cv {
                    Some(src) => {
                        let _ = copy_store(copies, dst, src, Ghost(st.copies));
                        return (Some(IrInst::Move { dst, src }), true);
                    },
                    None => {},
                }
            }
            (None, false)
        },
        IrInst::BinOp { dst, op, lhs, rhs } => {
            let li = const_lookup(consts, *lhs, Ghost(st.consts));
            let ri = const_lookup(consts, *rhs, Ghost(st.consts));
            match (li, ri) {
                (Some(a), Some(b)) => {
                    let folded = match (&a, &b) {
                        (IrConstant::Int(x), IrConstant::Int(y)) => fold_int_pair(*op, x, y),
                        _ => None,
                    };
                    match folded {
                        Some(val) => {
                            let _ = const_store(consts, *dst, clone_constant(&val), Ghost(st.consts));
                            (Some(IrInst::LoadConst { dst: *dst, val }), true)
                        },
                        None => (None, false),
                    }
                },
                _ => (None, false),
            }
        },
        _ => (None, false),
    }
}

/// One pass over every block (see `prop_pass`); the result tells whether
/// something new was learnt.
fn prop_pass_exec(
    cfg: &mut ControlFlowGraph,
    consts: &mut HashMap<u32, IrConstant>,
    copies: &mut HashMap<u32, IrVar>,
    Ghost(st): Ghost<PropState>,
) -> (c: bool)
    requires
        const_table(old(consts)@, st.consts),
        copy_table(old(copies)@, st.copies),
    ensures
        final(cfg).entry_label == old(cfg).entry_label,
        ({
            let st2 = prop_blocks(st, models(old(cfg).blocks@), old(cfg).blocks@.len() as int).1;
            &&& prop_pass(models(old(cfg).blocks@), st, models(final(cfg).blocks@), st2, c)
            &&& const_table(final(consts)@, st2.consts)
            &&& copy_table(final(copies)@, st2.copies)
        }),
{
    let ghost mb = models(cfg.blocks@);
    let mut flag = false;
    let mut j: usize = 0;
    while j < cfg.blocks.len()
        invariant
            j <= mb.len(),
            cfg.blocks@.len() == mb.len(),
            mb == models(old(cfg).blocks@),
            cfg.entry_label == old(cfg).entry_label,
            const_table(consts@, prop_blocks(st, mb, j as int).1.consts),
            copy_table(copies@, prop_blocks(st, mb, j as int).1.copies),
            flag == prop_blocks(st, mb, j as int).2,
            prop_blocks(st, mb, j as int).0.len() == j,
            forall|q: int| j <= q < mb.len() ==> model(#[trigger] cfg.blocks@[q]) == mb[q],
            forall|q: int|
                0 <= q < j ==> {
                    let b = mb[q];
                    let a = model(#[trigger] cfg.blocks@[q]);
                    &&& a.label == b.label
                    &&& a.preds == b.preds
                    &&& a.succs == b.succs
                    &&& a.insts.len() == b.insts.len()
                    &&& forall|k: int|
                        0 <= k < b.insts.len() ==> realizes(
                            #[trigger] a.insts[k],
                            b.insts[k],
                            prop_blocks(st, mb, j as int).0[q][k],
                        )
                },
        decreases mb.len() - j,
    {
        let ghost stj = prop_blocks(st, mb, j as int).1;
        let ghost pssj = prop_blocks(st, mb, j as int).0;
        let mut blk = take_block(&mut cfg.blocks, j);
        assert(model(blk) == mb[j as int]);
        let ghost s = blk.instructions@;
        let ghost blk0 = blk;
        let mut k: usize = 0;
        let mut bflag = false;
        while k < blk.instructions.len()
            invariant
                k <= s.len(),
                blk.instructions@.len() == s.len(),
                blk.label == blk0.label,
                blk.predecessors == blk0.predecessors,
                blk.successors == blk0.successors,
                const_table(consts@, prop_insts(stj, s, k as int).1.consts),
                copy_table(copies@, prop_insts(stj, s, k as int).1.copies),
                bflag == prop_insts(stj, s, k as int).2,
                prop_insts(stj, s, k as int).0.len() == k,
                forall|q: int| k <= q < s.len() ==> blk.instructions@[q] == s[q],
                forall|q: int| 0 <= q < k ==> realizes(#[trigger] blk.instructions@[q], s[q], prop_insts(stj, s, k as int).0[q]),
            decreases s.len() - k,
        {
            let ghost stk = prop_insts(stj, s, k as int).1;
            let ghost before = blk.instructions@;
            let (rep, c) = step_exec(&blk.instructions[k], consts, copies, Ghost(stk));
            if c {
                bflag = true;
            }
            match rep {
                Some(ni) => {
                    blk.instructions.set(k, ni);
                },
                None => {},
            }
            assert forall|q: int| 0 <= q < k + 1 implies realizes(#[trigger] blk.instructions@[q], s[q], prop_insts(stj, s, k + 1).0[q]) by {
                if q < k {
                    assert(blk.instructions@[q] == before[q]);
                    assert(prop_insts(stj, s, k + 1).0[q] == prop_insts(stj, s, k as int).0[q]);
                }
            }
            k = k + 1;
        }
        cfg.blocks.set(j, blk);
        proof {
            let pss2 = prop_blocks(st, mb, j + 1).0;
            assert(pss2 == pssj.push(prop_insts(stj, s, s.len() as int).0));
            assert forall|q: int| 0 <= q < j + 1 implies {
                let b = mb[q];
                let a = model(#[trigger] cfg.blocks@[q]);
                &&& a.label == b.label
                &&& a.preds == b.preds
                &&& a.succs == b.succs
                &&& a.insts.len() == b.insts.len()
                &&& forall|k2: int| 0 <= k2 < b.insts.len() ==> realizes(#[trigger] a.insts[k2], b.insts[k2], pss2[q][k2])
            } by {
                if q < j {
                    assert(pss2[q] == pssj[q]);
                }
            }
        }
        if bflag {
            flag = true;
        }
        j = j + 1;
    }
    proof {
        let (pss, s2, c2) = prop_blocks(st, mb, mb.len() as int);
        let after = models(cfg.blocks@);
        assert forall|q: int| 0 <= q < mb.len() implies {
            let b = mb[q];
            let a = #[trigger] after[q];
            &&& a.label == b.label
            &&& a.preds == b.preds
            &&& a.succs == b.succs
            &&& a.insts.len() == b.insts.len()
            &&& forall|k: int| 0 <= k < b.insts.len() ==> realizes(#[trigger] a.insts[k], b.insts[k], pss[q][k])
        } by {
            assert(after[q] == model(cfg.blocks@[q]));
        }
    }
    flag
}

/// The most passes of the propagation.
pub const MAX_PROP_PASSES: usize = 16;

/// Whether `chain` (the blocks before each pass, then after the last),
/// `states` (what is known before each pass, then after the last) and
/// `flags` (whether each pass learnt something) describe a run of
/// `ssa_constant_propagation`: passes go on while they learn something, at
/// most `MAX_PROP_PASSES`.
pub open spec fn prop_run(chain: Seq<Seq<BlockModel>>, states: Seq<PropState>, flags: Seq<bool>) -> bool {
    &&& 2 <= chain.len() <= MAX_PROP_PASSES + 1
    &&& states.len() == chain.len()
    &&& flags.len() == chain.len() - 1
    &&& states[0] == PropState { consts: Map::empty(), copies: Map::empty() }
    &&& forall|r: int|
        0 <= r < chain.len() - 1 ==> prop_pass(#[trigger] chain[r], states[r], chain[r + 1], states[r + 1], flags[r])
    &&& forall|r: int| 0 <= r < flags.len() - 1 ==> #[trigger] flags[r]
    &&& chain.len() < MAX_PROP_PASSES + 1 ==> !flags[flags.len() - 1]
}

/// Sparse constant and copy propagation over SSA form: passes over every
/// instruction in layout order (see `prop_step`) fold phi nodes whose
/// incoming values agree and operators on known integers, until a pass
/// learns nothing new, at most `MAX_PROP_PASSES` passes (see `prop_run`).
/// The result tells whether the first pass learnt something.
pub fn ssa_constant_propagation(cfg: &mut ControlFlowGraph) -> (changed: bool)
    ensures
        final(cfg).entry_label == old(cfg).entry_label,
        exists|chain: Seq<Seq<BlockModel>>, states: Seq<PropState>, flags: Seq<bool>|
            {
                &&& prop_run(chain, states, flags)
                &&& chain[0] == models(old(cfg).blocks@)
                &&& chain.last() == models(final(cfg).blocks@)
                &&& changed == flags[0]
            },
{
    let mut consts: HashMap<u32, IrConstant> = HashMap::new();
    let mut copies: HashMap<u32, IrVar> = HashMap::new();
    let ghost st0 = PropState { consts: Map::empty(), copies: Map::empty() };
    let ghost mut chain: Seq<Seq<BlockModel>> = seq![models(cfg.blocks@)];
    let ghost mut states: Seq<PropState> = seq![st0];
    let ghost mut flags: Seq<bool> = Seq::empty();
    let mut changed = false;
    let mut passes: usize = 0;
    proof {
        assert(const_table(consts@, st0.consts));
        assert(copy_table(copies@, st0.copies));
    }
    loop
        invariant_except_break
            passes < MAX_PROP_PASSES,
            passes > 0 ==> flags.last(),
        invariant
            cfg.entry_label == old(cfg).entry_label,
            passes <= MAX_PROP_PASSES,
            chain.len() == passes + 1,
            states.len() == chain.len(),
            flags.len() == passes,
            chain[0] == models(old(cfg).blocks@),
            chain.last() == models(cfg.blocks@),
            states[0] == st0,
            st0 == (PropState { consts: Map::empty(), copies: Map::empty() }),
            const_table(consts@, states.last().consts),
            copy_table(copies@, states.last().copies),
            forall|r: int|
                0 <= r < chain.len() - 1 ==> prop_pass(#[trigger] chain[r], states[r], chain[r + 1], states[r + 1], flags[r]),
            forall|r: int| 0 <= r < flags.len() - 1 ==> #[trigger] flags[r],
            passes > 0 ==> changed == flags[0],
            passes == 0 ==> !changed,
        ensures
            passes >= 1,
            passes == MAX_PROP_PASSES || !flags.last(),
            forall|r: int| 0 <= r < flags.len() - 1 ==> #[trigger] flags[r],
            changed == flags[0],
        decreases MAX_PROP_PASSES - passes,
    {
        let ghost before = models(cfg.blocks@);
        let ghost sb = states.last();
        passes = passes + 1;
        let c = prop_pass_exec(cfg, &mut consts, &mut copies, Ghost(sb));
        proof {
            let prevc = chain;
            let prevs = states;
            let prevf = flags;
            chain = chain.push(models(cfg.blocks@));
            states = states.push(prop_blocks(sb, before, before.len() as int).1);
            flags = flags.push(c);
            assert forall|r: int| 0 <= r < chain.len() - 1 implies prop_pass(#[trigger] chain[r], states[r], chain[r + 1], states[r + 1], flags[r]) by {
                if r < prevc.len() - 1 {
                    assert(chain[r] == prevc[r] && chain[r + 1] == prevc[r + 1]);
                    assert(states[r] == prevs[r] && states[r + 1] == prevs[r + 1]);
                    assert(flags[r] == prevf[r]);
                } else {
                    assert(chain[r] == before);
                    assert(states[r] == sb);
                }
            }
            assert forall|r: int| 0 <= r < flags.len() - 1 implies #[trigger] flags[r] by {
                assert(flags[r] == prevf[r]);
            }
            assert(chain[0] == prevc[0]);
            assert(states[0] == prevs[0]);
        }
        if !c {
            break;
        }
        changed = true;
        if passes >= MAX_PROP_PASSES {
            break;
        }
    }
    proof {
        assert(prop_run(chain, states, flags));
    }
    changed
}

pub(crate) proof fn lemma_term_shapes_add(a: Seq<IrInst>, b: Seq<IrInst>)
    ensures
        term_shapes(a + b) == term_shapes(a) + term_shapes(b),
    decreases b.len(),
{
    if b.len() == 0 {
        assert(a + b =~= a);
        assert(term_shapes(a) + term_shapes(b) =~= term_shapes(a));
    } else {
        assert((a + b).drop_last() =~= a + b.drop_last());
        assert((a + b).last() == b.last());
        lemma_term_shapes_add(a, b.drop_last());
        if inst_is_terminator(b.last()) {
            assert(term_shapes(a + b) =~= term_shapes(a) + term_shapes(b));
        }
    }
}

/// Inserting an instruction that is no terminator leaves the terminators'
/// shapes as they were.
pub(crate) proof fn lemma_term_shapes_insert(s: Seq<IrInst>, p: int, x: IrInst)
    requires
        0 <= p <= s.len(),
        !inst_is_terminator(x),
    ensures
        term_shapes(s.insert(p, x)) == term_shapes(s),
{
    assert(s.insert(p, x) =~= s.take(p) + (seq![x] + s.skip(p)));
    assert(s =~= s.take(p) + s.skip(p));
    assert(seq![x].drop_last() =~= Seq::<IrInst>::empty());
    lemma_term_shapes_add(seq![x], s.skip(p));
    lemma_term_shapes_add(s.take(p), seq![x] + s.skip(p));
    lemma_term_shapes_add(s.take(p), s.skip(p));
    assert(seq![x].last() == x);
    assert(term_shapes(Seq::<IrInst>::empty()) =~= Seq::empty());
    assert(term_shapes(seq![x]) == term_shapes(seq![x].drop_last()));
    assert(term_shapes(seq![x]) =~= Seq::empty());
    assert(term_shapes(seq![x]) + term_shapes(s.skip(p)) =~= term_shapes(s.skip(p)));
}

proof fn lemma_term_shapes_non_phis(s: Seq<IrInst>)
    ensures
        term_shapes(non_phis(s)) == term_shapes(s),
        forall|q: int| 0 <= q < non_phis(s).len() ==> !(#[trigger] non_phis(s)[q] is Phi),
    decreases s.len(),
{
    reveal(Seq::filter);
    if s.len() > 0 {
        lemma_term_shapes_non_phis(s.drop_last());
        let sub = non_phis(s.drop_last());
        if !(s.last() is Phi) {
            assert(non_phis(s) == sub.push(s.last()));
            assert(sub.push(s.last()).drop_last() =~= sub);
            assert forall|q: int| 0 <= q < non_phis(s).len() implies !(#[trigger] non_phis(s)[q] is Phi) by {
                if q < sub.len() {
                    assert(non_phis(s)[q] == sub[q]);
                }
            }
        } else {
            assert(non_phis(s) == sub);
        }
    }
}

proof fn lemma_first_terminator_bound(s: Seq<IrInst>)
    ensures
        0 <= first_terminator(s) <= s.len(),
    decreases s.len(),
{
    if s.len() > 0 && !inst_is_terminator(s[0]) {
        lemma_first_terminator_bound(s.drop_first());
    }
}

proof fn lemma_phi_copies_moves(s: Seq<IrInst>, k: int)
    ensures
        forall|q: int| 0 <= q < phi_copies(s, k).len() ==> (#[trigger] phi_copies(s, k)[q]).1 is Move,
    decreases k,
{
    if k > 0 {
        lemma_phi_copies_moves(s, k - 1);
        let prev = phi_copies(s, k - 1);
        match s[k - 1] {
            IrInst::Phi { dst, incoming } => {
                let add = Seq::new(incoming@.len(), |q: int| (incoming@[q].0, IrInst::Move { dst, src: incoming@[q].1 }));
                assert forall|q: int| 0 <= q < phi_copies(s, k).len() implies (#[trigger] phi_copies(s, k)[q]).1 is Move by {
                    if q < prev.len() {
                        assert(phi_copies(s, k)[q] == prev[q]);
                    } else {
                        assert(phi_copies(s, k)[q] == add[q - prev.len()]);
                    }
                }
            },
            _ => {},
        }
    }
}

proof fn lemma_block_copies_moves(m: Seq<BlockModel>, n: int)
    ensures
        forall|q: int| 0 <= q < block_copies(m, n).len() ==> (#[trigger] block_copies(m, n)[q]).1 is Move,
    decreases n,
{
    if n > 0 {
        lemma_block_copies_moves(m, n - 1);
        let prev = block_copies(m, n - 1);
        let add = phi_copies(m[n - 1].insts, m[n - 1].insts.len() as int);
        lemma_phi_copies_moves(m[n - 1].insts, m[n - 1].insts.len() as int);
        assert forall|q: int| 0 <= q < block_copies(m, n).len() implies (#[trigger] block_copies(m, n)[q]).1 is Move by {
            if q < prev.len() {
                assert(block_copies(m, n)[q] == prev[q]);
            } else {
                assert(block_copies(m, n)[q] == add[q - prev.len()]);
            }
        }
    }
}

/// Whether the blocks `p` keep the labels, edges and terminator shapes of
/// `m` and hold no phi node.
pub open spec fn phi_free_like(p: Seq<BlockModel>, m: Seq<BlockModel>) -> bool {
    &&& p.len() == m.len()
    &&& forall|j: int|
        0 <= j < m.len() ==> (#[trigger] p[j]).label == m[j].label && p[j].preds == m[j].preds && p[j].succs
            == m[j].succs && term_shapes(p[j].insts) == term_shapes(m[j].insts)
    &&& forall|j: int, q: int| 0 <= j < m.len() && 0 <= q < p[j].insts.len() ==> !(#[trigger] p[j].insts[q] is Phi)
}

proof fn lemma_place_copies_kept(p: Seq<BlockModel>, copies: Seq<(IrLabel, IrInst)>, k: int, m: Seq<BlockModel>)
    requires
        phi_free_like(p, m),
        0 <= k <= copies.len(),
        forall|q: int| 0 <= q < copies.len() ==> (#[trigger] copies[q]).1 is Move,
    ensures
        phi_free_like(place_copies(p, copies, k), m),
    decreases k,
{
    if k > 0 {
        lemma_place_copies_kept(p, copies, k - 1, m);
        let prev = place_copies(p, copies, k - 1);
        let (pred, c) = copies[k - 1];
        let idx = model_index(prev, pred);
        crate::compiler::ir::opt::simplify_cfg::lemma_model_index(prev, pred);
        if idx >= 0 {
            let s = prev[idx].insts;
            lemma_first_terminator_bound(s);
            assert(c is Move);
            lemma_term_shapes_insert(s, first_terminator(s), c);
            let s2 = s.insert(first_terminator(s), c);
            let next = place_copies(p, copies, k);
            assert forall|j: int, q: int| 0 <= j < m.len() && 0 <= q < next[j].insts.len() implies !(
            #[trigger] next[j].insts[q] is Phi) by {
                if j == idx {
                    let f = first_terminator(s);
                    if q < f {
                        assert(s2[q] == s[q]);
                    } else if q > f {
                        assert(s2[q] == s[q - 1]);
                    }
                }
            }
        }
    }
}

/// Lowering phi nodes keeps a well-formed control-flow graph well-formed:
/// every block keeps its label, edges and terminators, and no phi node is
/// left.
pub proof fn lemma_destruct_keeps_cfg_ok(before: ControlFlowGraph, after: ControlFlowGraph)
    requires
        cfg_ok(before),
        after.entry_label == before.entry_label,
        models(after.blocks@) == destructed(models(before.blocks@)),
    ensures
        cfg_ok(after),
        forall|j: int, q: int|
            0 <= j < after.blocks@.len() && 0 <= q < after.blocks@[j].instructions@.len() ==> !(
            #[trigger] after.blocks@[j].instructions@[q] is Phi),
{
    let m = models(before.blocks@);
    let stripped = Seq::new(m.len(), |j: int| BlockModel { insts: non_phis(m[j].insts), ..m[j] });
    assert forall|j: int| 0 <= j < m.len() implies term_shapes(#[trigger] stripped[j].insts) == term_shapes(m[j].insts)
        && forall|q: int| 0 <= q < stripped[j].insts.len() ==> !(#[trigger] stripped[j].insts[q] is Phi) by {
        lemma_term_shapes_non_phis(m[j].insts);
    }
    assert(phi_free_like(stripped, m));
    let copies = block_copies(m, m.len() as int);
    lemma_block_copies_moves(m, m.len() as int);
    lemma_place_copies_kept(stripped, copies, copies.len() as int, m);
    let d = destructed(m);
    assert(d.len() == after.blocks@.len());
    assert forall|i: int| 0 <= i < before.blocks@.len() implies (#[trigger] after.blocks@[i]).label
        == before.blocks@[i].label && after.blocks@[i].predecessors@ == before.blocks@[i].predecessors@
        && after.blocks@[i].successors@ == before.blocks@[i].successors@ && term_shapes(
        after.blocks@[i].instructions@,
    ) == term_shapes(before.blocks@[i].instructions@) && phis_first(after.blocks@[i].instructions@) by {
        assert(models(after.blocks@)[i] == model(after.blocks@[i]));
        assert(m[i] == model(before.blocks@[i]));
        assert(d[i] == model(after.blocks@[i]));
        let s = after.blocks@[i].instructions@;
        assert forall|a: int, b: int| 0 <= a < b < s.len() && !(#[trigger] s[a] is Phi) implies !(#[trigger] s[b] is Phi) by {
            assert(d[i].insts[b] == s[b]);
        }
    }
    lemma_cfg_ok_kept(before, after);
    assert forall|j: int, q: int|
        0 <= j < after.blocks@.len() && 0 <= q < after.blocks@[j].instructions@.len() implies !(
        #[trigger] after.blocks@[j].instructions@[q] is Phi) by {
        assert(d[j] == model(after.blocks@[j]));
        assert(d[j].insts[q] == after.blocks@[j].instructions@[q]);
    }
}

} // verus!
