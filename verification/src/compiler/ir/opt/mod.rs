//! Optimization passes on the intermediate representation.
pub mod const_fold;
pub mod cse;
pub mod dce;
pub mod inline;
pub mod loop_invariant;
pub mod simplify_cfg;

pub use loop_invariant::NaturalLoop;

use vstd::prelude::*;

use crate::compiler::ir::block::{BasicBlock, ControlFlowGraph};
use crate::compiler::ir::inst::{flatten_captures, IrInst};
use crate::compiler::ir::liveness::{insert_var, lemma_push_to_set};
use crate::compiler::ir::types::IrVar;

verus! {

/// The variables a closure instruction captures.
pub open spec fn closure_captures(i: IrInst) -> Seq<IrVar> {
    match i {
        IrInst::Closure { captures, .. } => flatten_captures(captures@),
        _ => Seq::empty(),
    }
}

/// The variables captured by closures among the first `k` of `s`.
pub open spec fn captured_in_insts(s: Seq<IrInst>, k: int) -> Set<IrVar>
    decreases k,
{
    if k <= 0 {
        Set::empty()
    } else {
        captured_in_insts(s, k - 1).union(closure_captures(s[k - 1]).to_set())
    }
}

/// The variables captured by closures in the first `n` blocks.
pub open spec fn captured_in_blocks(bs: Seq<BasicBlock>, n: int) -> Set<IrVar>
    decreases n,
{
    if n <= 0 {
        Set::empty()
    } else {
        captured_in_blocks(bs, n - 1).union(
            captured_in_insts(bs[n - 1].instructions@, bs[n - 1].instructions@.len() as int),
        )
    }
}

/// The variables that some closure of `cfg` captures, each once. A closure
/// holds on to them, so they stay alive as long as it may run.
pub fn captured_vars(cfg: &ControlFlowGraph) -> (r: Vec<IrVar>)
    ensures
        r@.no_duplicates(),
        r@.to_set() == captured_in_blocks(cfg.blocks@, cfg.blocks@.len() as int),
{
    let ghost bs = cfg.blocks@;
    let mut r: Vec<IrVar> = Vec::new();
    let mut n: usize = 0;
    assert(r@.to_set() =~= Set::<IrVar>::empty());
    while n < cfg.blocks.len()
        invariant
            n <= bs.len(),
            bs == cfg.blocks@,
            r@.no_duplicates(),
            r@.to_set() == captured_in_blocks(bs, n as int),
        decreases bs.len() - n,
    {
        let insts = &cfg.blocks[n].instructions;
        let ghost base = r@.to_set();
        let mut k: usize = 0;
        assert(base.union(captured_in_insts(insts@, 0)) =~= base);
        while k < insts.len()
            invariant
                k <= insts@.len(),
                r@.no_duplicates(),
                r@.to_set() == base.union(captured_in_insts(insts@, k as int)),
            decreases insts@.len() - k,
        {
            let ghost before = r@.to_set();
            match &insts[k] {
                IrInst::Closure { .. } => {
                    let vs = insts[k].use_vars();
                    assert(vs@ == closure_captures(insts@[k as int]));
                    let mut q: usize = 0;
                    while q < vs.len()
                        invariant
                            q <= vs@.len(),
                            r@.no_duplicates(),
                            r@.to_set() == before.union(vs@.take(q as int).to_set()),
                        decreases vs@.len() - q,
                    {
                        proof {
                            lemma_push_to_set(vs@.take(q as int), vs@[q as int]);
                            assert(vs@.take(q + 1) =~= vs@.take(q as int).push(vs@[q as int]));
                        }
                        insert_var(&mut r, vs[q]);
                        assert(r@.to_set() =~= before.union(vs@.take(q + 1).to_set()));
                        q = q + 1;
                    }
                    assert(vs@.take(vs@.len() as int) =~= vs@);
                },
                _ => {
                    assert(closure_captures(insts@[k as int]).to_set() =~= Set::<IrVar>::empty());
                },
            }
            assert(r@.to_set() =~= base.union(captured_in_insts(insts@, k + 1)));
            k = k + 1;
        }
        n = n + 1;
    }
    r
}

} // verus!
