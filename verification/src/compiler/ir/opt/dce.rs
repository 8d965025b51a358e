//! Dead code elimination: on the flat instruction list of a module, and on
//! a control-flow graph guided by liveness.
use vstd::prelude::*;

use crate::compiler::ir::block::{same_insts, take_block, BasicBlock, ControlFlowGraph, IrModule};
use crate::compiler::ir::inst::{clone_inst, copy_vars, inst_def_var, inst_use_vars, same_inst, IrInst};
use crate::compiler::ir::liveness::{
    contains_var, find_block, insert_var, lemma_push_to_set, lemma_same_shape_visits, live_sets, live_sets_of, same_shape,
    visits_known_labels, LivenessInfo,
};
use crate::compiler::ir::types::{IrLabel, IrVar};

verus! {

/// Whether an instruction only computes a value, with no other effect.
pub open spec fn is_pure(i: IrInst) -> bool {
    match i {
        IrInst::LoadConst { .. } => true,
        IrInst::LoadNil { .. } => true,
        IrInst::Move { .. } => true,
        IrInst::BinOp { .. } => true,
        IrInst::UnOp { .. } => true,
        IrInst::NewTable { .. } => true,
        IrInst::Phi { .. } => true,
        _ => false,
    }
}

/// Whether an instruction only computes a value, with no other effect.
pub fn is_pure_instruction(inst: &IrInst) -> (r: bool)
    ensures
        r == is_pure(*inst),
{
    match inst {
        IrInst::LoadConst { .. } | IrInst::LoadNil { .. } | IrInst::Move { .. } | IrInst::BinOp { .. }
        | IrInst::UnOp { .. } | IrInst::NewTable { .. } | IrInst::Phi { .. } => true,
        _ => false,
    }
}

/// Whether some instruction of `s` reads `v`.
pub open spec fn uses_var(s: Seq<IrInst>, v: IrVar) -> bool {
    exists|k: int| 0 <= k < s.len() && #[trigger] inst_use_vars(s[k]).contains(v)
}

/// The variable a constant load or an operator writes, for the
/// instructions the pass may drop.
pub open spec fn droppable_dst(i: IrInst) -> Option<IrVar> {
    match i {
        IrInst::LoadConst { dst, .. } => Some(dst),
        IrInst::LoadNil { dst } => Some(dst),
        IrInst::BinOp { dst, .. } => Some(dst),
        IrInst::UnOp { dst, .. } => Some(dst),
        _ => None,
    }
}

/// What the pass keeps of the first `n` instructions of `s`, and whether it
/// is past a `Return` or `Jump` with no label since: a constant load or
/// operator whose result nothing in `s` reads is dropped, and after a
/// `Return` or `Jump` everything up to the next label is dropped.
pub open spec fn dce_keep(s: Seq<IrInst>, n: int) -> (Seq<IrInst>, bool)
    decreases n,
{
    if n <= 0 {
        (Seq::empty(), false)
    } else {
        let (kept, unreachable) = dce_keep(s, n - 1);
        let i = s[n - 1];
        if unreachable {
            if i is Label {
                (kept.push(i), false)
            } else {
                (kept, true)
            }
        } else {
            match droppable_dst(i) {
                Some(dst) => if uses_var(s, dst) {
                    (kept.push(i), false)
                } else {
                    (kept, false)
                },
                None => (kept.push(i), i is Return || i is Jump),
            }
        }
    }
}

/// Whether `vs` holds `v`.
fn vars_contain(vs: &Vec<IrVar>, v: IrVar) -> (r: bool)
    ensures
        r == vs@.contains(v),
{
    let mut i: usize = 0;
    while i < vs.len()
        invariant
            i <= vs@.len(),
            forall|k: int| 0 <= k < i ==> vs@[k] != v,
        decreases vs@.len() - i,
    {
        if vs[i] == v {
            assert(vs@[i as int] == v);
            return true;
        }
        i = i + 1;
    }
    false
}

/// Drops from the main function's instructions the constant loads and
/// operators whose results nothing reads, and the code after a `Return` or
/// `Jump` up to the next label (see `dce_keep`); nothing else changes.
pub fn dead_code_elimination(module: &mut IrModule)
    ensures
        same_insts(
            final(module).main.instructions@,
            dce_keep(old(module).main.instructions@, old(module).main.instructions@.len() as int).0,
        ),
        final(module).main.name == old(module).main.name,
        final(module).main.num_params == old(module).main.num_params,
        final(module).main.is_vararg == old(module).main.is_vararg,
        final(module).main.params == old(module).main.params,
        final(module).main.protos == old(module).main.protos,
        final(module).main.upvalues == old(module).main.upvalues,
        final(module).main.upvalue_vars == old(module).main.upvalue_vars,
        final(module).main.cfg == old(module).main.cfg,
{
    let ghost s = module.main.instructions@;
    let mut used: Vec<IrVar> = Vec::new();
    let mut k: usize = 0;
    while k < module.main.instructions.len()
        invariant
            s == module.main.instructions@,
            k <= s.len(),
            forall|v: IrVar| #[trigger] used@.contains(v) <==> exists|m: int|
                0 <= m < k && #[trigger] inst_use_vars(s[m]).contains(v),
        decreases s.len() - k,
    {
        let uses = module.main.instructions[k].use_vars();
        let ghost before = used@;
        let mut j: usize = 0;
        while j < uses.len()
            invariant
                uses@ == inst_use_vars(s[k as int]),
                j <= uses@.len(),
                forall|v: IrVar| #[trigger] used@.contains(v) <==> (before.contains(v) || uses@.take(j as int).contains(v)),
            decreases uses@.len() - j,
        {
            let ghost prev = used@;
            used.push(uses[j]);
            assert forall|v: IrVar| #[trigger] used@.contains(v) <==> (before.contains(v) || uses@.take(j + 1).contains(v)) by {
                assert(uses@.take(j + 1) == uses@.take(j as int).push(uses@[j as int]));
                if used@.contains(v) {
                    let w = choose|w: int| 0 <= w < used@.len() && used@[w] == v;
                    if w < prev.len() {
                        assert(prev[w] == v);
                        assert(prev.contains(v));
                        if !before.contains(v) {
                            assert(uses@.take(j as int).contains(v));
                            let w2 = choose|w2: int| 0 <= w2 < j && #[trigger] uses@.take(j as int)[w2] == v;
                            assert(uses@.take(j + 1)[w2] == v);
                        }
                    } else {
                        assert(used@[w] == uses@[j as int]);
                        assert(uses@.take(j + 1)[j as int] == v);
                    }
                }
                if prev.contains(v) {
                    let w = choose|w: int| 0 <= w < prev.len() && prev[w] == v;
                    assert(used@[w] == v);
                }
                if uses@.take(j + 1).contains(v) {
                    let w = choose|w: int| 0 <= w < j + 1 && #[trigger] uses@.take(j + 1)[w] == v;
                    if w < j {
                        assert(uses@.take(j as int)[w] == v);
                    } else {
                        assert(used@[prev.len() as int] == v);
                    }
                }
                if uses@.take(j as int).contains(v) {
                    let w = choose|w: int| 0 <= w < j && #[trigger] uses@.take(j as int)[w] == v;
                    assert(uses@.take(j + 1)[w] == v);
                }
            }
            j = j + 1;
        }
        assert(uses@.take(uses@.len() as int) == uses@);
        assert forall|v: IrVar| #[trigger] used@.contains(v) <==> exists|m: int|
            0 <= m < k + 1 && #[trigger] inst_use_vars(s[m]).contains(v) by {
            if exists|m: int| 0 <= m < k + 1 && #[trigger] inst_use_vars(s[m]).contains(v) {
                let m = choose|m: int| 0 <= m < k + 1 && #[trigger] inst_use_vars(s[m]).contains(v);
                if m < k {
                    assert(before.contains(v));
                }
            }
        }
        k = k + 1;
    }
    let mut kept: Vec<IrInst> = Vec::new();
    let mut unreachable = false;
    let mut n: usize = 0;
    while n < module.main.instructions.len()
        invariant
            s == module.main.instructions@,
            n <= s.len(),
            forall|v: IrVar| #[trigger] used@.contains(v) <==> uses_var(s, v),
            same_insts(kept@, dce_keep(s, n as int).0),
            unreachable == dce_keep(s, n as int).1,
        decreases s.len() - n,
    {
        let inst = &module.main.instructions[n];
        let ghost prev = dce_keep(s, n as int).0;
        let ghost before = kept@;
        let keep_it: bool;
        if unreachable {
            if inst.is_label() {
                unreachable = false;
                keep_it = true;
            } else {
                keep_it = false;
            }
        } else {
            match inst {
                IrInst::LoadConst { dst, .. } | IrInst::LoadNil { dst } | IrInst::BinOp { dst, .. }
                | IrInst::UnOp { dst, .. } => {
                    keep_it = vars_contain(&used, *dst);
                },
                IrInst::Return(_) | IrInst::Jump(_) => {
                    keep_it = true;
                    unreachable = true;
                },
                _ => {
                    keep_it = true;
                },
            }
        }
        if keep_it {
            kept.push(clone_inst(inst));
            assert(dce_keep(s, n + 1).0 == prev.push(s[n as int]));
            assert forall|q: int| 0 <= q < kept@.len() implies same_inst(
                #[trigger] kept@[q],
                dce_keep(s, n + 1).0[q],
            ) by {
                if q < before.len() {
                    assert(kept@[q] == before[q]);
                    assert(dce_keep(s, n + 1).0[q] == prev[q]);
                }
            }
        } else {
            assert(dce_keep(s, n + 1).0 == prev);
        }
        n = n + 1;
    }
    module.main.instructions = kept;
}

/// The backward sweep of a block from instruction `k` on, starting with the
/// variables `live_out` live at its end: what it keeps of `insts[k..]`, the
/// variables live before `insts[k]`, and whether it dropped anything. A pure
/// instruction whose result is not live is dropped; any other takes its
/// result out of the live variables and adds those it reads.
pub open spec fn sweep(insts: Seq<IrInst>, live_out: Set<IrVar>, k: int) -> (Seq<IrInst>, Set<IrVar>, bool)
    decreases insts.len() - k,
{
    if k < 0 || k >= insts.len() {
        (Seq::empty(), live_out, false)
    } else {
        let (rest, live, c) = sweep(insts, live_out, k + 1);
        let i = insts[k];
        if is_pure(i) && inst_def_var(i) is Some && !live.contains(inst_def_var(i)->0) {
            (rest, live, true)
        } else {
            let live1 = match inst_def_var(i) {
                Some(d) => live.remove(d),
                None => live,
            };
            (seq![i] + rest, live1.union(inst_use_vars(i).to_set()), c)
        }
    }
}

/// The variables live at the end of block `l`, as the sets give them.
pub open spec fn live_at_exit(sets: Map<IrLabel, (Set<IrVar>, Set<IrVar>)>, l: IrLabel) -> Set<IrVar> {
    if sets.dom().contains(l) {
        sets[l].1
    } else {
        Set::empty()
    }
}

/// Whether `next` is `prev` after one round: each block swept with the
/// variables `sets` gives as live at its end.
pub open spec fn swept(prev: Seq<BasicBlock>, next: Seq<BasicBlock>, sets: Map<IrLabel, (Set<IrVar>, Set<IrVar>)>) -> bool {
    &&& next.len() == prev.len()
    &&& forall|j: int|
        0 <= j < prev.len() ==> {
            let b = prev[j];
            let nb = #[trigger] next[j];
            &&& nb.label == b.label
            &&& nb.predecessors == b.predecessors
            &&& nb.successors == b.successors
            &&& nb.instructions@ == sweep(b.instructions@, live_at_exit(sets, b.label), 0).0
        }
}

/// Whether a round over `bs` drops anything.
pub open spec fn round_drops(bs: Seq<BasicBlock>, sets: Map<IrLabel, (Set<IrVar>, Set<IrVar>)>) -> bool {
    exists|j: int| 0 <= j < bs.len() && sweep(#[trigger] bs[j].instructions@, live_at_exit(sets, bs[j].label), 0).2
}

/// The most rounds of the pass over a graph.
pub const MAX_PASSES: usize = 20;

/// Removes `x` from the set of variables `v`.
fn remove_var(v: &mut Vec<IrVar>, x: IrVar)
    requires
        old(v)@.no_duplicates(),
    ensures
        final(v)@.no_duplicates(),
        final(v)@.to_set() == old(v)@.to_set().remove(x),
{
    let mut r: Vec<IrVar> = Vec::new();
    let mut i: usize = 0;
    while i < v.len()
        invariant
            i <= v@.len(),
            v@ == old(v)@,
            v@.no_duplicates(),
            r@.no_duplicates(),
            forall|k: int| 0 <= k < r@.len() ==> #[trigger] r@[k] != x,
            r@.to_set() == v@.take(i as int).to_set().remove(x),
            forall|k: int| 0 <= k < r@.len() ==> v@.take(i as int).contains(#[trigger] r@[k]),
        decreases v@.len() - i,
    {
        proof {
            lemma_push_to_set(v@.take(i as int), v@[i as int]);
            assert(v@.take(i + 1) =~= v@.take(i as int).push(v@[i as int]));
        }
        if v[i] != x {
            let ghost r0 = r@;
            proof {
                lemma_push_to_set(r@, v@[i as int]);
                assert forall|k: int| 0 <= k < r0.len() implies r0[k] != v@[i as int] by {
                    let q = choose|q: int| 0 <= q < i && v@.take(i as int)[q] == r0[k];
                    assert(v@[q] == r0[k]);
                }
            }
            r.push(v[i]);
            assert forall|k: int| 0 <= k < r@.len() implies v@.take(i + 1).contains(#[trigger] r@[k]) by {
                if k < r0.len() {
                    assert(v@.take(i as int).contains(r0[k]));
                    let q = choose|q: int| 0 <= q < i && v@.take(i as int)[q] == r0[k];
                    assert(v@.take(i + 1)[q] == r0[k]);
                } else {
                    assert(v@.take(i + 1)[i as int] == r@[k]);
                }
            }
        } else {
            assert forall|k: int| 0 <= k < r@.len() implies v@.take(i + 1).contains(#[trigger] r@[k]) by {
                let q = choose|q: int| 0 <= q < i && v@.take(i as int)[q] == r@[k];
                assert(v@.take(i + 1)[q] == r@[k]);
            }
        }
        assert(r@.to_set() =~= v@.take(i + 1).to_set().remove(x));
        i = i + 1;
    }
    assert(v@.take(v@.len() as int) =~= v@);
    *v = r;
}

/// Sweeps one block backward (see `sweep`), with `live` the variables live
/// at its end; the result tells whether anything was dropped.
fn sweep_block(insts: &mut Vec<IrInst>, live: Vec<IrVar>) -> (dropped: bool)
    requires
        live@.no_duplicates(),
    ensures
        final(insts)@ == sweep(old(insts)@, live@.to_set(), 0).0,
        dropped == sweep(old(insts)@, live@.to_set(), 0).2,
{
    let ghost orig = insts@;
    let ghost out = live@.to_set();
    let mut live_now = live;
    let mut retained: Vec<IrInst> = Vec::new();
    let mut dropped = false;
    while insts.len() > 0
        invariant
            insts@ == orig.take(insts@.len() as int),
            insts@.len() <= orig.len(),
            live_now@.no_duplicates(),
            retained@ == sweep(orig, out, insts@.len() as int).0,
            live_now@.to_set() == sweep(orig, out, insts@.len() as int).1,
            dropped == sweep(orig, out, insts@.len() as int).2,
        decreases insts@.len(),
    {
        let ghost k = insts@.len() - 1;
        let inst = insts.pop().unwrap();
        assert(inst == orig[k]);
        assert(insts@ =~= orig.take(k));
        let dead = match inst.def_var() {
            Some(dst) => is_pure_instruction(&inst) && !contains_var(&live_now, dst),
            None => false,
        };
        if dead {
            dropped = true;
        } else {
            match inst.def_var() {
                Some(d) => {
                    remove_var(&mut live_now, d);
                },
                None => {},
            }
            let uses = inst.use_vars();
            let ghost base = live_now@.to_set();
            let mut q: usize = 0;
            while q < uses.len()
                invariant
                    q <= uses@.len(),
                    live_now@.no_duplicates(),
                    live_now@.to_set() == base.union(uses@.take(q as int).to_set()),
                decreases uses@.len() - q,
            {
                proof {
                    lemma_push_to_set(uses@.take(q as int), uses@[q as int]);
                    assert(uses@.take(q + 1) =~= uses@.take(q as int).push(uses@[q as int]));
                }
                insert_var(&mut live_now, uses[q]);
                assert(live_now@.to_set() =~= base.union(uses@.take(q + 1).to_set()));
                q = q + 1;
            }
            assert(uses@.take(uses@.len() as int) =~= uses@);
            retained.insert(0, inst);
            assert(retained@ =~= seq![orig[k]] + sweep(orig, out, k + 1).0);
        }
    }
    *insts = retained;
    dropped
}

/// One round: liveness is computed, then every block swept backward with
/// the variables live at its end.
fn dce_round(cfg: &mut ControlFlowGraph) -> (dropped: bool)
    requires
        old(cfg).blocks@.len() < usize::MAX,
        visits_known_labels(*old(cfg)),
    ensures
        final(cfg).entry_label == old(cfg).entry_label,
        swept(old(cfg).blocks@, final(cfg).blocks@, live_sets(*old(cfg))),
        dropped == round_drops(old(cfg).blocks@, live_sets(*old(cfg))),
{
    let liveness = LivenessInfo::compute(cfg);
    let ghost sets = live_sets(*cfg);
    proof {
        liveness.lemma_describes_records(*cfg);
    }
    let ghost old_blocks = cfg.blocks@;
    let mut dropped = false;
    let mut j: usize = 0;
    while j < cfg.blocks.len()
        invariant
            cfg.blocks@.len() == old_blocks.len(),
            j <= old_blocks.len(),
            cfg.entry_label == old(cfg).entry_label,
            old_blocks == old(cfg).blocks@,
            liveness.describes(*old(cfg)),
            liveness.recorded_sets() == sets,
            forall|q: int| j <= q < old_blocks.len() ==> cfg.blocks@[q] == old_blocks[q],
            forall|q: int|
                0 <= q < j ==> {
                    let b = old_blocks[q];
                    let nb = #[trigger] cfg.blocks@[q];
                    &&& nb.label == b.label
                    &&& nb.predecessors == b.predecessors
                    &&& nb.successors == b.successors
                    &&& nb.instructions@ == sweep(b.instructions@, live_at_exit(sets, b.label), 0).0
                },
            dropped == exists|q: int|
                0 <= q < j && sweep(#[trigger] old_blocks[q].instructions@, live_at_exit(sets, old_blocks[q].label), 0).2,
        decreases old_blocks.len() - j,
    {
        let mut blk = take_block(&mut cfg.blocks, j);
        assert(blk == old_blocks[j as int]);
        let live = match find_block(&liveness.blocks, blk.label) {
            Some(e) => {
                assert(liveness.recorded_sets().dom().contains(blk.label));
                copy_vars(&liveness.blocks[e].1.live_out)
            },
            None => {
                assert(!liveness.recorded_sets().dom().contains(blk.label));
                let v: Vec<IrVar> = Vec::new();
                assert(v@.to_set() =~= Set::<IrVar>::empty());
                v
            },
        };
        assert(live@.to_set() == live_at_exit(sets, blk.label));
        let d = sweep_block(&mut blk.instructions, live);
        if d {
            dropped = true;
        }
        cfg.blocks.set(j, blk);
        proof {
            if sweep(old_blocks[j as int].instructions@, live_at_exit(sets, old_blocks[j as int].label), 0).2 {
                assert(exists|q: int|
                    0 <= q < j + 1 && sweep(#[trigger] old_blocks[q].instructions@, live_at_exit(sets, old_blocks[q].label), 0).2);
            }
        }
        j = j + 1;
    }
    dropped
}

/// Whether `chain` is a run of `dead_code_elimination_cfg` on blocks entered
/// at `entry`: each list of blocks is the one before after a round with the
/// liveness of the one before, the rounds go on while they drop something,
/// and there are at most `MAX_PASSES`.
pub open spec fn dce_run(chain: Seq<Seq<BasicBlock>>, entry: IrLabel) -> bool {
    &&& 2 <= chain.len() <= MAX_PASSES + 1
    &&& forall|r: int|
        0 <= r < chain.len() - 1 ==> swept(#[trigger] chain[r], chain[r + 1], live_sets_of(chain[r], entry))
    &&& forall|r: int| 0 <= r < chain.len() - 2 ==> round_drops(#[trigger] chain[r], live_sets_of(chain[r], entry))
    &&& chain.len() < MAX_PASSES + 1 ==> !round_drops(
        chain[chain.len() - 2],
        live_sets_of(chain[chain.len() - 2], entry),
    )
}

/// Runs rounds of liveness-guided sweeping (see `dce_run`) until one drops
/// nothing, at most `MAX_PASSES`; the result tells whether any instruction
/// was dropped.
pub fn dead_code_elimination_cfg(cfg: &mut ControlFlowGraph) -> (changed: bool)
    requires
        old(cfg).blocks@.len() < usize::MAX,
        visits_known_labels(*old(cfg)),
    ensures
        final(cfg).entry_label == old(cfg).entry_label,
        exists|chain: Seq<Seq<BasicBlock>>|
            {
                &&& dce_run(chain, old(cfg).entry_label)
                &&& chain[0] == old(cfg).blocks@
                &&& chain.last() == final(cfg).blocks@
                &&& changed == round_drops(chain[0], live_sets_of(chain[0], old(cfg).entry_label))
            },
{
    let ghost entry = cfg.entry_label;
    let ghost mut chain: Seq<Seq<BasicBlock>> = seq![cfg.blocks@];
    let mut any_changed = false;
    let mut changed = true;
    let mut iterations: usize = 0;
    while changed && iterations < MAX_PASSES
        invariant
            cfg.entry_label == entry,
            entry == old(cfg).entry_label,
            old(cfg).blocks@.len() < usize::MAX,
            cfg.blocks@.len() == old(cfg).blocks@.len(),
            visits_known_labels(*cfg),
            iterations <= MAX_PASSES,
            chain.len() == iterations + 1,
            chain[0] == old(cfg).blocks@,
            chain.last() == cfg.blocks@,
            forall|r: int|
                0 <= r < chain.len() - 1 ==> swept(#[trigger] chain[r], chain[r + 1], live_sets_of(chain[r], entry)),
            forall|r: int| 0 <= r < chain.len() - 2 ==> round_drops(#[trigger] chain[r], live_sets_of(chain[r], entry)),
            iterations > 0 ==> changed == round_drops(
                chain[chain.len() - 2],
                live_sets_of(chain[chain.len() - 2], entry),
            ),
            iterations == 0 ==> changed && !any_changed,
            iterations > 0 ==> any_changed == round_drops(chain[0], live_sets_of(chain[0], entry)),
        decreases MAX_PASSES - iterations,
    {
        let ghost before = *cfg;
        proof {
            if iterations > 0 {
                if chain.len() - 2 > 0 {
                    assert(round_drops(chain[0], live_sets_of(chain[0], entry)));
                }
                assert(any_changed);
            }
        }
        iterations = iterations + 1;
        changed = dce_round(cfg);
        if changed {
            any_changed = true;
        }
        proof {
            let prev = chain;
            chain = chain.push(cfg.blocks@);
            assert(chain[0] == prev[0]);
            assert(prev.last() == before.blocks@);
            assert(changed == round_drops(before.blocks@, live_sets_of(before.blocks@, entry)));
            assert(same_shape(before.blocks@, cfg.blocks@)) by {
                assert forall|i: int| 0 <= i < before.blocks@.len() implies (#[trigger] before.blocks@[i]).label == cfg.blocks@[i].label
                    && before.blocks@[i].successors@ == cfg.blocks@[i].successors@ by {
                    assert(swept(before.blocks@, cfg.blocks@, live_sets(before)));
                }
            }
            lemma_same_shape_visits(before, *cfg);
            assert forall|r: int| 0 <= r < chain.len() - 1 implies swept(#[trigger] chain[r], chain[r + 1], live_sets_of(chain[r], entry)) by {
                if r < prev.len() - 1 {
                    assert(chain[r] == prev[r] && chain[r + 1] == prev[r + 1]);
                } else {
                    assert(chain[r] == before.blocks@);
                }
            }
            assert forall|r: int| 0 <= r < chain.len() - 2 implies round_drops(#[trigger] chain[r], live_sets_of(chain[r], entry)) by {
                assert(chain[r] == prev[r]);
                if r == prev.len() - 2 {
                } 
            }
        }
    }
    any_changed
}

} // verus!
