//! Control-flow graph simplification: removal of the blocks that cannot be
//! reached from the entry, bypassing of blocks that only jump elsewhere, and
//! merging of a block with its only successor.
use vstd::prelude::*;

use crate::compiler::ir::block::{is_first_block, take_block, BasicBlock, ControlFlowGraph};
use crate::compiler::ir::inst::IrInst;
use crate::compiler::ir::types::IrLabel;
use crate::compiler::ir::verify::{first_index, lemma_first_index};

verus! {

/// The successors of the first block labelled `m` (none if there is none).
pub open spec fn succs_of_label(bs: Seq<BasicBlock>, m: IrLabel) -> Seq<IrLabel> {
    let f = first_index(bs, m);
    if f >= 0 {
        bs[f].successors@
    } else {
        Seq::empty()
    }
}

/// Whether `l` can be reached from `entry` in at most `n` steps along the
/// successor edges (each label standing for its first block).
pub open spec fn reach_within(bs: Seq<BasicBlock>, entry: IrLabel, l: IrLabel, n: nat) -> bool
    decreases n,
{
    if n == 0 {
        l == entry
    } else {
        reach_within(bs, entry, l, (n - 1) as nat) || exists|m: IrLabel|
            reach_within(bs, entry, m, (n - 1) as nat) && #[trigger] succs_of_label(bs, m).contains(l)
    }
}

/// Whether `l` can be reached from the entry of `cfg`.
pub open spec fn reachable(cfg: ControlFlowGraph, l: IrLabel) -> bool {
    exists|n: nat| #[trigger] reach_within(cfg.blocks@, cfg.entry_label, l, n)
}

/// The labels among `ps` that can be reached, in order.
pub open spec fn reached_only(ps: Seq<IrLabel>, cfg: ControlFlowGraph) -> Seq<IrLabel>
    decreases ps.len(),
{
    if ps.len() == 0 {
        Seq::empty()
    } else if reachable(cfg, ps.last()) {
        reached_only(ps.drop_last(), cfg).push(ps.last())
    } else {
        reached_only(ps.drop_last(), cfg)
    }
}

/// The positions of the blocks of `cfg` whose labels can be reached, among
/// the first `n`, in order.
pub open spec fn kept_blocks(cfg: ControlFlowGraph, n: int) -> Seq<int>
    decreases n,
{
    if n <= 0 {
        Seq::empty()
    } else if reachable(cfg, cfg.blocks@[n - 1].label) {
        kept_blocks(cfg, n - 1).push(n - 1)
    } else {
        kept_blocks(cfg, n - 1)
    }
}

proof fn lemma_kept_blocks_bounds(cfg: ControlFlowGraph, n: int)
    requires
        0 <= n,
    ensures
        forall|q: int| 0 <= q < kept_blocks(cfg, n).len() ==> 0 <= #[trigger] kept_blocks(cfg, n)[q] < n,
    decreases n,
{
    if n > 0 {
        lemma_kept_blocks_bounds(cfg, n - 1);
        let prev = kept_blocks(cfg, n - 1);
        assert forall|q: int| 0 <= q < kept_blocks(cfg, n).len() implies 0 <= #[trigger] kept_blocks(cfg, n)[q]
            < n by {
            if q < prev.len() {
                assert(kept_blocks(cfg, n)[q] == prev[q]);
            }
        }
    }
}

/// Every label a successor edge names, and the entry.
pub open spec fn all_labels(bs: Seq<BasicBlock>, entry: IrLabel) -> Seq<IrLabel>
    decreases bs.len(),
{
    if bs.len() == 0 {
        seq![entry]
    } else {
        all_labels(bs.drop_last(), entry) + bs.last().successors@
    }
}

proof fn lemma_all_labels(bs: Seq<BasicBlock>, entry: IrLabel)
    ensures
        all_labels(bs, entry).contains(entry),
        forall|i: int, l: IrLabel|
            0 <= i < bs.len() && #[trigger] bs[i].successors@.contains(l) ==> all_labels(bs, entry).contains(l),
    decreases bs.len(),
{
    if bs.len() == 0 {
        assert(all_labels(bs, entry)[0] == entry);
    } else {
        let d = bs.drop_last();
        lemma_all_labels(d, entry);
        let a = all_labels(d, entry);
        let s = bs.last().successors@;
        assert(all_labels(bs, entry) == a + s);
        let w0 = choose|w: int| 0 <= w < a.len() && a[w] == entry;
        assert((a + s)[w0] == entry);
        assert forall|i: int, l: IrLabel|
            0 <= i < bs.len() && #[trigger] bs[i].successors@.contains(l) implies all_labels(bs, entry).contains(l) by {
            if i < bs.len() - 1 {
                assert(bs[i] == d[i]);
                let w = choose|w: int| 0 <= w < a.len() && a[w] == l;
                assert((a + s)[w] == l);
            } else {
                let w = choose|w: int| 0 <= w < s.len() && s[w] == l;
                assert((a + s)[a.len() + w] == l);
            }
        }
    }
}

proof fn lemma_distinct_within(r: Seq<IrLabel>, u: Seq<IrLabel>)
    requires
        r.no_duplicates(),
        forall|k: int| 0 <= k < r.len() ==> u.contains(#[trigger] r[k]),
    ensures
        r.len() <= u.len(),
{
    r.unique_seq_to_set();
    u.lemma_cardinality_of_set();
    assert(r.to_set().subset_of(u.to_set())) by {
        assert forall|x: IrLabel| r.to_set().contains(x) implies u.to_set().contains(x) by {
            let k = choose|k: int| 0 <= k < r.len() && r[k] == x;
            assert(u.contains(r[k]));
        }
    }
    vstd::set_lib::lemma_len_subset(r.to_set(), u.to_set());
}

proof fn lemma_reach_step(bs: Seq<BasicBlock>, entry: IrLabel, m: IrLabel, n: nat, l: IrLabel)
    requires
        reach_within(bs, entry, m, n),
        succs_of_label(bs, m).contains(l),
    ensures
        reach_within(bs, entry, l, n + 1),
{
    assert(reach_within(bs, entry, l, ((n + 1) - 1) as nat) || exists|m2: IrLabel|
        reach_within(bs, entry, m2, ((n + 1) - 1) as nat) && #[trigger] succs_of_label(bs, m2).contains(l));
}

proof fn lemma_closed_complete(bs: Seq<BasicBlock>, entry: IrLabel, r: Seq<IrLabel>, l: IrLabel, n: nat)
    requires
        r.contains(entry),
        forall|k: int, x: IrLabel|
            0 <= k < r.len() && #[trigger] succs_of_label(bs, r[k]).contains(x) ==> r.contains(x),
        reach_within(bs, entry, l, n),
    ensures
        r.contains(l),
    decreases n,
{
    if n > 0 {
        if reach_within(bs, entry, l, (n - 1) as nat) {
            lemma_closed_complete(bs, entry, r, l, (n - 1) as nat);
        } else {
            let m = choose|m: IrLabel|
                reach_within(bs, entry, m, (n - 1) as nat) && #[trigger] succs_of_label(bs, m).contains(l);
            lemma_closed_complete(bs, entry, r, m, (n - 1) as nat);
            let k = choose|k: int| 0 <= k < r.len() && r[k] == m;
            assert(succs_of_label(bs, r[k]).contains(l));
        }
    }
}

/// The successors of the first block labelled `m`.
fn succs_for(cfg: &ControlFlowGraph, m: IrLabel) -> (r: Vec<IrLabel>)
    ensures
        r@ == succs_of_label(cfg.blocks@, m),
{
    proof {
        lemma_first_index(cfg.blocks@, m);
    }
    match cfg.block_index(m) {
        Some(i) => {
            proof {
                let f = first_index(cfg.blocks@, m);
                if f < 0 || f > i {
                    assert(cfg.blocks@[i as int].label != m);
                } else if f < i {
                    assert(cfg.blocks@[f].label != m);
                }
            }
            let mut r: Vec<IrLabel> = Vec::new();
            let succ = &cfg.blocks[i].successors;
            let mut k: usize = 0;
            while k < succ.len()
                invariant
                    k <= succ@.len(),
                    r@ == succ@.take(k as int),
                decreases succ@.len() - k,
            {
                r.push(succ[k]);
                assert(succ@.take(k + 1) == succ@.take(k as int).push(succ@[k as int]));
                k = k + 1;
            }
            assert(succ@.take(succ@.len() as int) == succ@);
            r
        },
        None => {
            proof {
                if first_index(cfg.blocks@, m) >= 0 {
                    assert(cfg.blocks@[first_index(cfg.blocks@, m)].label == m);
                }
            }
            Vec::new()
        },
    }
}

/// Whether `v` holds `l`.
fn label_in(v: &Vec<IrLabel>, l: IrLabel) -> (r: bool)
    ensures
        r == v@.contains(l),
{
    let mut i: usize = 0;
    while i < v.len()
        invariant
            i <= v@.len(),
            forall|k: int| 0 <= k < i ==> v@[k] != l,
        decreases v@.len() - i,
    {
        if v[i] == l {
            assert(v@[i as int] == l);
            return true;
        }
        i = i + 1;
    }
    false
}

/// The labels that can be reached from the entry (in breadth-first order).
fn reachable_labels(cfg: &ControlFlowGraph) -> (r: Vec<IrLabel>)
    ensures
        forall|l: IrLabel| #[trigger] r@.contains(l) <==> reachable(*cfg, l),
{
    let ghost bs = cfg.blocks@;
    let ghost entry = cfg.entry_label;
    let ghost u = all_labels(bs, entry);
    proof {
        lemma_all_labels(bs, entry);
    }
    let mut reached: Vec<IrLabel> = Vec::new();
    reached.push(cfg.entry_label);
    assert(reach_within(bs, entry, entry, 0));
    let mut head: usize = 0;
    while head < reached.len()
        invariant
            bs == cfg.blocks@,
            entry == cfg.entry_label,
            u == all_labels(bs, entry),
            u.contains(entry),
            forall|i: int, l: IrLabel|
                0 <= i < bs.len() && #[trigger] bs[i].successors@.contains(l) ==> u.contains(l),
            reached@.len() >= 1,
            reached@[0] == entry,
            head <= reached@.len(),
            reached@.no_duplicates(),
            forall|k: int| 0 <= k < reached@.len() ==> u.contains(#[trigger] reached@[k]),
            forall|k: int| 0 <= k < reached@.len() ==> reachable(*cfg, #[trigger] reached@[k]),
            forall|k: int, x: IrLabel|
                0 <= k < head && #[trigger] succs_of_label(bs, reached@[k]).contains(x) ==> reached@.contains(x),
        decreases 2 * u.len() - reached@.len() - head,
    {
        proof {
            lemma_distinct_within(reached@, u);
        }
        let m = reached[head];
        let succ = succs_for(cfg, m);
        let ghost before = reached@;
        let mut k: usize = 0;
        while k < succ.len()
            invariant
                bs == cfg.blocks@,
                entry == cfg.entry_label,
                u == all_labels(bs, entry),
                forall|i: int, l: IrLabel|
                    0 <= i < bs.len() && #[trigger] bs[i].successors@.contains(l) ==> u.contains(l),
                succ@ == succs_of_label(bs, m),
                reachable(*cfg, m),
                head < before.len(),
                m == before[head as int],
                k <= succ@.len(),
                reached@.len() >= before.len(),
                forall|q: int| 0 <= q < before.len() ==> #[trigger] reached@[q] == before[q],
                reached@.no_duplicates(),
                forall|q: int| 0 <= q < reached@.len() ==> u.contains(#[trigger] reached@[q]),
                forall|q: int| 0 <= q < reached@.len() ==> reachable(*cfg, #[trigger] reached@[q]),
                forall|q: int| 0 <= q < k ==> reached@.contains(#[trigger] succ@[q]),
            decreases succ@.len() - k,
        {
            let x = succ[k];
            if !label_in(&reached, x) {
                let ghost prev = reached@;
                reached.push(x);
                proof {
                    assert forall|a: int, b: int| 0 <= a < b < reached@.len() implies reached@[a] != reached@[b] by {
                        if b == prev.len() {
                            assert(reached@[a] == prev[a]);
                        } else {
                            assert(prev[a] != prev[b]);
                        }
                    }
                    let f = first_index(bs, m);
                    lemma_first_index(bs, m);
                    assert(f >= 0);
                    assert(bs[f].successors@.contains(x)) by {
                        assert(bs[f].successors@[k as int] == x);
                    }
                    assert(u.contains(x));
                    let n = choose|n: nat| #[trigger] reach_within(bs, entry, m, n);
                    assert(succs_of_label(bs, m).contains(x)) by {
                        assert(succ@[k as int] == x);
                    }
                    lemma_reach_step(bs, entry, m, n, x);
                    assert forall|q: int| 0 <= q < k + 1 implies reached@.contains(#[trigger] succ@[q]) by {
                        if q < k {
                            let w = choose|w: int| 0 <= w < prev.len() && prev[w] == succ@[q];
                            assert(reached@[w] == succ@[q]);
                        } else {
                            assert(reached@[prev.len() as int] == x);
                        }
                    }
                }
            }
            k = k + 1;
        }
        proof {
            assert forall|k2: int, x: IrLabel|
                0 <= k2 < head + 1 && #[trigger] succs_of_label(bs, reached@[k2]).contains(x) implies reached@.contains(x) by {
                assert(reached@[k2] == before[k2]);
                if k2 < head {
                    assert(before.contains(x));
                    let w = choose|w: int| 0 <= w < before.len() && before[w] == x;
                    assert(reached@[w] == x);
                } else {
                    let w = choose|w: int| 0 <= w < succ@.len() && succ@[w] == x;
                    assert(reached@.contains(succ@[w]));
                }
            }
            lemma_distinct_within(reached@, u);
        }
        head = head + 1;
    }
    proof {
        assert(reached@[0] == entry);
        assert forall|l: IrLabel| reachable(*cfg, l) implies #[trigger] reached@.contains(l) by {
            let n = choose|n: nat| #[trigger] reach_within(bs, entry, l, n);
            lemma_closed_complete(bs, entry, reached@, l, n);
        }
        assert forall|l: IrLabel| #[trigger] reached@.contains(l) implies reachable(*cfg, l) by {
            let w = choose|w: int| 0 <= w < reached@.len() && reached@[w] == l;
        }
    }
    reached
}

/// Removes the blocks that cannot be reached from the entry, and the
/// unreachable labels from the predecessors of the rest; the result tells
/// whether a block was removed.
pub fn remove_unreachable_blocks(cfg: &mut ControlFlowGraph) -> (changed: bool)
    ensures
        final(cfg).entry_label == old(cfg).entry_label,
        models(final(cfg).blocks@) == pruned(models(old(cfg).blocks@), old(cfg).entry_label),
        changed == (final(cfg).blocks@.len() != old(cfg).blocks@.len()),
{
    let reached = reachable_labels(cfg);
    let ghost old_cfg = *cfg;
    let initial_len = cfg.blocks.len();
    let mut rest: Vec<BasicBlock> = Vec::new();
    std::mem::swap(&mut rest, &mut cfg.blocks);
    let ghost bs = rest@;
    assert(bs == old_cfg.blocks@);
    let mut kept: Vec<BasicBlock> = Vec::new();
    let mut i: usize = 0;
    while i < initial_len
        invariant
            initial_len == bs.len(),
            bs == old_cfg.blocks@,
            forall|l: IrLabel| #[trigger] reached@.contains(l) <==> reachable(old_cfg, l),
            i <= initial_len,
            rest@ == bs.skip(i as int),
            ({
                let ks = kept_blocks(old_cfg, i as int);
                &&& kept@.len() == ks.len()
                &&& forall|q: int|
                    0 <= q < ks.len() ==> {
                        let b = bs[ks[q]];
                        &&& (#[trigger] kept@[q]).label == b.label
                        &&& kept@[q].instructions == b.instructions
                        &&& kept@[q].successors == b.successors
                        &&& kept@[q].predecessors@ == reached_only(b.predecessors@, old_cfg)
                    }
            }),
        decreases initial_len - i,
    {
        let ghost ks = kept_blocks(old_cfg, i as int);
        let mut block = rest.remove(0);
        assert(block == bs[i as int]);
        assert(rest@ =~= bs.skip(i + 1));
        if label_in(&reached, block.label) {
            let old_preds = block.predecessors;
            let mut preds: Vec<IrLabel> = Vec::new();
            let mut k: usize = 0;
            while k < old_preds.len()
                invariant
                    forall|l: IrLabel| #[trigger] reached@.contains(l) <==> reachable(old_cfg, l),
                    k <= old_preds@.len(),
                    preds@ == reached_only(old_preds@.take(k as int), old_cfg),
                decreases old_preds@.len() - k,
            {
                assert(old_preds@.take(k + 1).drop_last() =~= old_preds@.take(k as int));
                assert(old_preds@.take(k + 1).last() == old_preds@[k as int]);
                if label_in(&reached, old_preds[k]) {
                    preds.push(old_preds[k]);
                }
                k = k + 1;
            }
            assert(old_preds@.take(old_preds@.len() as int) =~= old_preds@);
            assert(preds@ == reached_only(bs[i as int].predecessors@, old_cfg));
            let nb = BasicBlock {
                label: block.label,
                instructions: block.instructions,
                predecessors: preds,
                successors: block.successors,
            };
            let ghost before = kept@;
            kept.push(nb);
            assert(reachable(old_cfg, bs[i as int].label));
            assert(kept_blocks(old_cfg, i + 1) == ks.push(i as int));
            assert(kept@[ks.len() as int] == nb);
            assert(nb.label == bs[i as int].label);
            assert(nb.instructions == bs[i as int].instructions);
            assert(nb.successors == bs[i as int].successors);
            assert forall|q: int| 0 <= q < kept_blocks(old_cfg, i + 1).len() implies {
                let b = bs[kept_blocks(old_cfg, i + 1)[q]];
                &&& (#[trigger] kept@[q]).label == b.label
                &&& kept@[q].instructions == b.instructions
                &&& kept@[q].successors == b.successors
                &&& kept@[q].predecessors@ == reached_only(b.predecessors@, old_cfg)
            } by {
                if q < ks.len() {
                    assert(kept@[q] == before[q]);
                }
            }
        } else {
            assert(!reachable(old_cfg, bs[i as int].label));
            assert(kept_blocks(old_cfg, i + 1) == ks);
        }
        i = i + 1;
    }
    proof {
        lemma_kept_blocks_bounds(old_cfg, initial_len as int);
    }
    cfg.blocks = kept;
    proof {
        lemma_pruned_result(old_cfg, *cfg);
    }
    cfg.blocks.len() != initial_len
}

/// A block as the rewriting passes see it.
pub ghost struct BlockModel {
    pub label: IrLabel,
    pub insts: Seq<IrInst>,
    pub preds: Seq<IrLabel>,
    pub succs: Seq<IrLabel>,
}

/// The model of a block.
pub open spec fn model(b: BasicBlock) -> BlockModel {
    BlockModel { label: b.label, insts: b.instructions@, preds: b.predecessors@, succs: b.successors@ }
}

/// The models of a list of blocks.
pub open spec fn models(bs: Seq<BasicBlock>) -> Seq<BlockModel> {
    Seq::new(bs.len(), |i: int| model(bs[i]))
}

/// Whether `i` is a jump (of any kind) to `e`.
pub open spec fn jumps_to(i: IrInst, e: IrLabel) -> bool {
    match i {
        IrInst::Jump(j) => j == e,
        IrInst::JumpIfFalse { target, .. } => target == e,
        IrInst::ForPrep { jump, .. } => jump == e,
        IrInst::ForLoop { jump, .. } => jump == e,
        IrInst::TForLoop { jump, .. } => jump == e,
        _ => false,
    }
}

/// `i` with a jump to `e` sent to `t` instead.
pub open spec fn retarget(i: IrInst, e: IrLabel, t: IrLabel) -> IrInst {
    match i {
        IrInst::Jump(j) => if j == e {
            IrInst::Jump(t)
        } else {
            i
        },
        IrInst::JumpIfFalse { cond, target } => if target == e {
            IrInst::JumpIfFalse { cond, target: t }
        } else {
            i
        },
        IrInst::ForPrep { base, limit, step, loop_var, jump } => if jump == e {
            IrInst::ForPrep { base, limit, step, loop_var, jump: t }
        } else {
            i
        },
        IrInst::ForLoop { base, jump } => if jump == e {
            IrInst::ForLoop { base, jump: t }
        } else {
            i
        },
        IrInst::TForLoop { base, jump } => if jump == e {
            IrInst::TForLoop { base, jump: t }
        } else {
            i
        },
        _ => i,
    }
}

/// Every instruction retargeted from `e` to `t`.
pub open spec fn retarget_all(s: Seq<IrInst>, e: IrLabel, t: IrLabel) -> Seq<IrInst> {
    Seq::new(s.len(), |k: int| retarget(s[k], e, t))
}

/// Every label `e` replaced by `t`.
pub open spec fn relabel_all(s: Seq<IrLabel>, e: IrLabel, t: IrLabel) -> Seq<IrLabel> {
    Seq::new(s.len(), |k: int| if s[k] == e { t } else { s[k] })
}

/// `s` without the label `e`.
pub open spec fn without_label(s: Seq<IrLabel>, e: IrLabel) -> Seq<IrLabel>
    decreases s.len(),
{
    if s.len() == 0 {
        s
    } else if s.last() == e {
        without_label(s.drop_last(), e)
    } else {
        without_label(s.drop_last(), e).push(s.last())
    }
}

/// `ps` with the first `k` labels of `extra` added, each unless it is there
/// already or is `t`.
pub open spec fn add_preds(ps: Seq<IrLabel>, extra: Seq<IrLabel>, t: IrLabel, k: int) -> Seq<IrLabel>
    decreases k,
{
    if k <= 0 {
        ps
    } else {
        let a = add_preds(ps, extra, t, k - 1);
        let p = extra[k - 1];
        if !a.contains(p) && p != t {
            a.push(p)
        } else {
            a
        }
    }
}

/// The blocks not labelled `e`.
pub open spec fn without_blocks(m: Seq<BlockModel>, e: IrLabel) -> Seq<BlockModel>
    decreases m.len(),
{
    if m.len() == 0 {
        m
    } else if m.last().label == e {
        without_blocks(m.drop_last(), e)
    } else {
        without_blocks(m.drop_last(), e).push(m.last())
    }
}

/// The position of the first model labelled `l`, or -1.
pub open spec fn model_index(m: Seq<BlockModel>, l: IrLabel) -> int
    decreases m.len(),
{
    if m.len() == 0 {
        -1
    } else if model_index(m.drop_last(), l) >= 0 {
        model_index(m.drop_last(), l)
    } else if m.last().label == l {
        m.len() - 1
    } else {
        -1
    }
}

/// Whether some block other than `e` jumps to `e` or lists it as a
/// successor.
pub open spec fn refers_to(m: Seq<BlockModel>, e: IrLabel) -> bool {
    exists|j: int|
        0 <= j < m.len() && m[j].label != e && ((exists|q: int|
            0 <= q < m[j].insts.len() && jumps_to(#[trigger] m[j].insts[q], e)) || m[j].succs.contains(e))
}

/// The blocks with every reference to `e` (outside `e` itself) sent to `t`.
pub open spec fn redirected(m: Seq<BlockModel>, e: IrLabel, t: IrLabel) -> Seq<BlockModel> {
    Seq::new(
        m.len(),
        |j: int|
            if m[j].label == e {
                m[j]
            } else {
                BlockModel {
                    insts: retarget_all(m[j].insts, e, t),
                    succs: relabel_all(m[j].succs, e, t),
                    ..m[j]
                }
            },
    )
}

/// The block `e`, which holds only a jump to `t`, bypassed: when something
/// refers to it, every reference goes to `t` instead, `t` takes over its
/// predecessors, and the blocks labelled `e` are removed.
pub open spec fn bypass(m: Seq<BlockModel>, e: IrLabel, t: IrLabel) -> Seq<BlockModel> {
    if !refers_to(m, e) {
        m
    } else {
        let ei = model_index(m, e);
        let extra = if ei >= 0 {
            m[ei].preds
        } else {
            Seq::empty()
        };
        let r = redirected(m, e, t);
        let ti = model_index(r, t);
        let r2 = if ti >= 0 {
            r.update(
                ti,
                BlockModel { preds: add_preds(without_label(r[ti].preds, e), extra, t, extra.len() as int), ..r[ti] },
            )
        } else {
            r
        };
        without_blocks(r2, e)
    }
}

/// The blocks other than the entry that hold nothing but a jump to another
/// label, with that label, in order.
pub open spec fn empty_jump_blocks(m: Seq<BlockModel>, entry: IrLabel) -> Seq<(IrLabel, IrLabel)>
    decreases m.len(),
{
    if m.len() == 0 {
        Seq::empty()
    } else {
        let rest = empty_jump_blocks(m.drop_last(), entry);
        let b = m.last();
        if b.label != entry && b.insts.len() == 1 && b.insts[0] is Jump && b.insts[0]->Jump_0 != b.label {
            rest.push((b.label, b.insts[0]->Jump_0))
        } else {
            rest
        }
    }
}

/// The blocks after bypassing the first `k` candidates in turn, and whether
/// any was bypassed.
pub open spec fn bypass_all(m: Seq<BlockModel>, cands: Seq<(IrLabel, IrLabel)>, k: int) -> (Seq<BlockModel>, bool)
    decreases k,
{
    if k <= 0 {
        (m, false)
    } else {
        let (prev, changed) = bypass_all(m, cands, k - 1);
        let (e, t) = cands[k - 1];
        (bypass(prev, e, t), changed || refers_to(prev, e))
    }
}

pub(crate) proof fn lemma_model_index(m: Seq<BlockModel>, l: IrLabel)
    ensures
        -1 <= model_index(m, l) < m.len(),
        model_index(m, l) >= 0 ==> m[model_index(m, l)].label == l,
        forall|j: int| 0 <= j < m.len() && (j < model_index(m, l) || model_index(m, l) < 0) ==> (#[trigger] m[j]).label
            != l,
    decreases m.len(),
{
    if m.len() > 0 {
        lemma_model_index(m.drop_last(), l);
        assert forall|j: int| 0 <= j < m.len() && (j < model_index(m, l) || model_index(m, l) < 0) implies (
        #[trigger] m[j]).label != l by {
            if j < m.len() - 1 {
                assert(m[j] == m.drop_last()[j]);
            }
        }
    }
}

/// The position of the first block labelled `l`, as `model_index` gives it.
pub(crate) fn index_of_label(bs: &Vec<BasicBlock>, l: IrLabel) -> (r: Option<usize>)
    ensures
        match r {
            Some(i) => model_index(models(bs@), l) == i && i < bs@.len(),
            None => model_index(models(bs@), l) == -1,
        },
{
    proof {
        lemma_model_index(models(bs@), l);
    }
    let mut i: usize = 0;
    while i < bs.len()
        invariant
            i <= bs@.len(),
            forall|j: int| 0 <= j < i ==> (#[trigger] bs@[j]).label != l,
        decreases bs@.len() - i,
    {
        if bs[i].label == l {
            proof {
                lemma_model_index(models(bs@), l);
                let f = model_index(models(bs@), l);
                assert(models(bs@)[i as int] == model(bs@[i as int]));
                if f < 0 || f > i {
                    assert(models(bs@)[i as int].label == l);
                } else if f < i {
                    assert(models(bs@)[f] == model(bs@[f]));
                    assert(models(bs@)[f].label == bs@[f].label);
                }
            }
            return Some(i);
        }
        i = i + 1;
    }
    proof {
        let f = model_index(models(bs@), l);
        if f >= 0 {
            assert(models(bs@)[f].label == bs@[f].label);
        }
    }
    None
}

/// The instruction retargeted from `e` to `t`, when it jumps to `e`.
fn retarget_inst(i: &IrInst, e: IrLabel, t: IrLabel) -> (r: Option<IrInst>)
    ensures
        match r {
            Some(n) => jumps_to(*i, e) && n == retarget(*i, e, t),
            None => !jumps_to(*i, e) && retarget(*i, e, t) == *i,
        },
{
    match i {
        IrInst::Jump(j) => if *j == e {
            Some(IrInst::Jump(t))
        } else {
            None
        },
        IrInst::JumpIfFalse { cond, target } => if *target == e {
            Some(IrInst::JumpIfFalse { cond: *cond, target: t })
        } else {
            None
        },
        IrInst::ForPrep { base, limit, step, loop_var, jump } => if *jump == e {
            Some(IrInst::ForPrep { base: *base, limit: *limit, step: *step, loop_var: *loop_var, jump: t })
        } else {
            None
        },
        IrInst::ForLoop { base, jump } => if *jump == e {
            Some(IrInst::ForLoop { base: *base, jump: t })
        } else {
            None
        },
        IrInst::TForLoop { base, jump } => if *jump == e {
            Some(IrInst::TForLoop { base: *base, jump: t })
        } else {
            None
        },
        _ => None,
    }
}

/// Sends every jump to `e` among `insts` to `t`; the result tells whether
/// there was any.
fn retarget_insts(insts: &mut Vec<IrInst>, e: IrLabel, t: IrLabel) -> (touched: bool)
    ensures
        final(insts)@ == retarget_all(old(insts)@, e, t),
        touched == exists|q: int| 0 <= q < old(insts)@.len() && jumps_to(#[trigger] old(insts)@[q], e),
{
    let ghost insts0 = insts@;
    let mut touched = false;
    let mut q: usize = 0;
    while q < insts.len()
        invariant
            insts0 == old(insts)@,
            insts@.len() == insts0.len(),
            q <= insts0.len(),
            forall|k: int| 0 <= k < q ==> #[trigger] insts@[k] == retarget(insts0[k], e, t),
            forall|k: int| q <= k < insts0.len() ==> #[trigger] insts@[k] == insts0[k],
            touched == exists|k: int| 0 <= k < q && jumps_to(#[trigger] insts0[k], e),
        decreases insts0.len() - q,
    {
        match retarget_inst(&insts[q], e, t) {
            Some(n) => {
                insts.set(q, n);
                touched = true;
            },
            None => {},
        }
        q = q + 1;
    }
    assert(insts@ =~= retarget_all(insts0, e, t));
    touched
}

/// Sends every jump to `e` and successor edge to `e` in `b` to `t`; the
/// result tells whether there was any.
fn redirect_block(b: &mut BasicBlock, e: IrLabel, t: IrLabel) -> (touched: bool)
    ensures
        final(b).label == old(b).label,
        final(b).predecessors == old(b).predecessors,
        final(b).instructions@ == retarget_all(old(b).instructions@, e, t),
        final(b).successors@ == relabel_all(old(b).successors@, e, t),
        touched == ((exists|q: int|
            0 <= q < old(b).instructions@.len() && jumps_to(#[trigger] old(b).instructions@[q], e))
            || old(b).successors@.contains(e)),
{
    let ghost insts0 = b.instructions@;
    let ghost succs0 = b.successors@;
    let mut touched = retarget_insts(&mut b.instructions, e, t);
    let mut k: usize = 0;
    let ghost touched_insts = touched;
    while k < b.successors.len()
        invariant
            b.label == old(b).label,
            b.predecessors == old(b).predecessors,
            b.instructions@ == retarget_all(insts0, e, t),
            succs0 == old(b).successors@,
            b.successors@.len() == succs0.len(),
            k <= succs0.len(),
            forall|j: int| 0 <= j < k ==> #[trigger] b.successors@[j] == (if succs0[j] == e { t } else { succs0[j] }),
            forall|j: int| k <= j < succs0.len() ==> #[trigger] b.successors@[j] == succs0[j],
            touched == (touched_insts || exists|j: int| 0 <= j < k && #[trigger] succs0[j] == e),
        decreases succs0.len() - k,
    {
        if b.successors[k] == e {
            b.successors.set(k, t);
            touched = true;
        }
        k = k + 1;
    }
    assert(b.successors@ =~= relabel_all(succs0, e, t));
    proof {
        if touched_insts || exists|j: int| 0 <= j < succs0.len() && #[trigger] succs0[j] == e {
        }
        if succs0.contains(e) {
            let j = choose|j: int| 0 <= j < succs0.len() && succs0[j] == e;
            assert(succs0[j] == e);
        }
    }
    touched
}

/// A copy of a list of labels.
fn copy_labels(v: &Vec<IrLabel>) -> (r: Vec<IrLabel>)
    ensures
        r@ == v@,
{
    let mut r: Vec<IrLabel> = Vec::new();
    let mut i: usize = 0;
    while i < v.len()
        invariant
            i <= v@.len(),
            r@ == v@.take(i as int),
        decreases v@.len() - i,
    {
        r.push(v[i]);
        assert(v@.take(i + 1) == v@.take(i as int).push(v@[i as int]));
        i = i + 1;
    }
    assert(v@.take(v@.len() as int) == v@);
    r
}

/// `ps` without `e`, then with the labels of `extra` added (see
/// `add_preds`).
fn merged_preds(ps: &Vec<IrLabel>, e: IrLabel, extra: &Vec<IrLabel>, t: IrLabel) -> (r: Vec<IrLabel>)
    ensures
        r@ == add_preds(without_label(ps@, e), extra@, t, extra@.len() as int),
{
    let mut r: Vec<IrLabel> = Vec::new();
    let mut i: usize = 0;
    while i < ps.len()
        invariant
            i <= ps@.len(),
            r@ == without_label(ps@.take(i as int), e),
        decreases ps@.len() - i,
    {
        assert(ps@.take(i + 1).drop_last() =~= ps@.take(i as int));
        assert(ps@.take(i + 1).last() == ps@[i as int]);
        if ps[i] != e {
            r.push(ps[i]);
        }
        i = i + 1;
    }
    assert(ps@.take(ps@.len() as int) =~= ps@);
    let ghost base = r@;
    let mut k: usize = 0;
    while k < extra.len()
        invariant
            base == without_label(ps@, e),
            k <= extra@.len(),
            r@ == add_preds(base, extra@, t, k as int),
        decreases extra@.len() - k,
    {
        let p = extra[k];
        if !label_in(&r, p) && p != t {
            r.push(p);
        }
        k = k + 1;
    }
    r
}

/// The blocks not labelled `e`, in order.
fn drop_labelled(bs: Vec<BasicBlock>, e: IrLabel) -> (r: Vec<BasicBlock>)
    ensures
        models(r@) == without_blocks(models(bs@), e),
{
    let ghost m0 = models(bs@);
    let ghost b0 = bs@;
    let mut bs = bs;
    let mut r: Vec<BasicBlock> = Vec::new();
    let n = bs.len();
    let mut i: usize = 0;
    while i < n
        invariant
            n == b0.len(),
            m0 == models(b0),
            i <= n,
            bs@ == b0.skip(i as int),
            models(r@) == without_blocks(m0.take(i as int), e),
        decreases n - i,
    {
        let b = bs.remove(0);
        assert(b == b0[i as int]);
        assert(bs@ =~= b0.skip(i + 1));
        assert(m0.take(i + 1).drop_last() =~= m0.take(i as int));
        assert(m0.take(i + 1).last() == model(b));
        if b.label != e {
            let ghost before = r@;
            r.push(b);
            assert(models(r@) =~= models(before).push(model(b)));
        }
        i = i + 1;
    }
    assert(m0.take(n as int) =~= m0);
    r
}


/// Bypasses the block `e`, which holds only a jump to `t` (see `bypass`);
/// the result tells whether anything referred to it.
fn bypass_block(cfg: &mut ControlFlowGraph, e: IrLabel, t: IrLabel) -> (bypassed: bool)
    ensures
        final(cfg).entry_label == old(cfg).entry_label,
        models(final(cfg).blocks@) == bypass(models(old(cfg).blocks@), e, t),
        bypassed == refers_to(models(old(cfg).blocks@), e),
{
    let ghost m0 = models(cfg.blocks@);
    let ghost b0 = cfg.blocks@;
    let extra: Vec<IrLabel> = match index_of_label(&cfg.blocks, e) {
        Some(i) => copy_labels(&cfg.blocks[i].predecessors),
        None => Vec::new(),
    };
    let ghost ei = model_index(m0, e);
    assert(extra@ == if ei >= 0 { m0[ei].preds } else { Seq::<IrLabel>::empty() });
    let ghost r0 = redirected(m0, e, t);
    let mut bypassed = false;
    let n = cfg.blocks.len();
    let mut j: usize = 0;
    while j < n
        invariant
            n == b0.len(),
            m0 == models(b0),
            r0 == redirected(m0, e, t),
            cfg.entry_label == old(cfg).entry_label,
            cfg.blocks@.len() == n,
            j <= n,
            forall|k: int| 0 <= k < j ==> model(#[trigger] cfg.blocks@[k]) == r0[k],
            forall|k: int| j <= k < n ==> #[trigger] cfg.blocks@[k] == b0[k],
            bypassed == exists|k: int|
                0 <= k < j && m0[k].label != e && ((exists|q: int|
                    0 <= q < m0[k].insts.len() && jumps_to(#[trigger] m0[k].insts[q], e)) || m0[k].succs.contains(e)),
        decreases n - j,
    {
        assert(model(b0[j as int]) == m0[j as int]);
        if cfg.blocks[j].label != e {
            let mut b = take_block(&mut cfg.blocks, j);
            let touched = redirect_block(&mut b, e, t);
            cfg.blocks.set(j, b);
            if touched {
                bypassed = true;
            }
        }
        assert(model(cfg.blocks@[j as int]) == r0[j as int]);
        j = j + 1;
    }
    assert(bypassed == refers_to(m0, e));
    assert(models(cfg.blocks@) =~= r0);
    if !bypassed {
        assert(r0 =~= m0) by {
            assert forall|k: int| 0 <= k < m0.len() implies r0[k] == m0[k] by {
                if m0[k].label != e {
                    assert(retarget_all(m0[k].insts, e, t) =~= m0[k].insts) by {
                        assert forall|q: int| 0 <= q < m0[k].insts.len() implies retarget(
                            m0[k].insts[q],
                            e,
                            t,
                        ) == m0[k].insts[q] by {
                            assert(!jumps_to(m0[k].insts[q], e));
                        }
                    }
                    assert(relabel_all(m0[k].succs, e, t) =~= m0[k].succs) by {
                        assert forall|q: int| 0 <= q < m0[k].succs.len() implies m0[k].succs[q] != e by {
                            if m0[k].succs[q] == e {
                                assert(m0[k].succs.contains(e));
                            }
                        }
                    }
                }
            }
        }
        return false;
    }
    match index_of_label(&cfg.blocks, t) {
        Some(ti) => {
            let mut tb = take_block(&mut cfg.blocks, ti);
            let preds = merged_preds(&tb.predecessors, e, &extra, t);
            tb.predecessors = preds;
            cfg.blocks.set(ti, tb);
            assert(models(cfg.blocks@) =~= r0.update(
                ti as int,
                BlockModel {
                    preds: add_preds(without_label(r0[ti as int].preds, e), extra@, t, extra@.len() as int),
                    ..r0[ti as int]
                },
            ));
        },
        None => {},
    }
    let mut blocks: Vec<BasicBlock> = Vec::new();
    std::mem::swap(&mut blocks, &mut cfg.blocks);
    cfg.blocks = drop_labelled(blocks, e);
    true
}

/// Collapses the blocks other than the entry that hold nothing but a jump
/// elsewhere: each such block (found once, in order) is bypassed in turn
/// (see `bypass_all`); the result tells whether any was.
pub fn eliminate_empty_jump_blocks(cfg: &mut ControlFlowGraph) -> (changed: bool)
    ensures
        final(cfg).entry_label == old(cfg).entry_label,
        ({
            let m = models(old(cfg).blocks@);
            let cands = empty_jump_blocks(m, old(cfg).entry_label);
            &&& models(final(cfg).blocks@) == bypass_all(m, cands, cands.len() as int).0
            &&& changed == bypass_all(m, cands, cands.len() as int).1
        }),
{
    let ghost m = models(cfg.blocks@);
    let entry = cfg.entry_label;
    let mut cands: Vec<(IrLabel, IrLabel)> = Vec::new();
    let mut i: usize = 0;
    while i < cfg.blocks.len()
        invariant
            m == models(cfg.blocks@),
            entry == cfg.entry_label,
            i <= m.len(),
            cands@ == empty_jump_blocks(m.take(i as int), entry),
        decreases m.len() - i,
    {
        assert(m.take(i + 1).drop_last() =~= m.take(i as int));
        assert(m.take(i + 1).last() == model(cfg.blocks@[i as int]));
        let b = &cfg.blocks[i];
        if b.label != entry && b.instructions.len() == 1 {
            match &b.instructions[0] {
                IrInst::Jump(target) => {
                    if *target != b.label {
                        cands.push((b.label, *target));
                    }
                },
                _ => {},
            }
        }
        i = i + 1;
    }
    assert(m.take(m.len() as int) =~= m);
    let mut changed = false;
    let mut k: usize = 0;
    while k < cands.len()
        invariant
            cands@ == empty_jump_blocks(m, entry),
            entry == old(cfg).entry_label,
            cfg.entry_label == entry,
            k <= cands@.len(),
            models(cfg.blocks@) == bypass_all(m, cands@, k as int).0,
            changed == bypass_all(m, cands@, k as int).1,
        decreases cands@.len() - k,
    {
        let (e, t) = cands[k];
        let bypassed = bypass_block(cfg, e, t);
        if bypassed {
            changed = true;
        }
        k = k + 1;
    }
    changed
}

/// Whether block `i` (A) can absorb its only successor B: B is neither A
/// nor the entry, exists, and has A as its only predecessor.
pub open spec fn merge_candidate(m: Seq<BlockModel>, entry: IrLabel, i: int) -> bool {
    let a = m[i];
    &&& a.succs.len() == 1
    &&& a.succs[0] != a.label
    &&& a.succs[0] != entry
    &&& model_index(m, a.succs[0]) >= 0
    &&& m[model_index(m, a.succs[0])].preds == seq![a.label]
}

/// The first block among the first `n` that can absorb its successor, or -1.
pub open spec fn first_merge(m: Seq<BlockModel>, entry: IrLabel, n: int) -> int
    decreases n,
{
    if n <= 0 {
        -1
    } else if first_merge(m, entry, n - 1) >= 0 {
        first_merge(m, entry, n - 1)
    } else if merge_candidate(m, entry, n - 1) {
        n - 1
    } else {
        -1
    }
}

/// The blocks after replacing `b` by `a` among the predecessors of the
/// (first) blocks named by the first `k` labels of `succs`, in turn.
pub open spec fn fix_preds(m: Seq<BlockModel>, succs: Seq<IrLabel>, b: IrLabel, a: IrLabel, k: int) -> Seq<BlockModel>
    decreases k,
{
    if k <= 0 {
        m
    } else {
        let prev = fix_preds(m, succs, b, a, k - 1);
        let idx = model_index(prev, succs[k - 1]);
        if idx >= 0 {
            prev.update(idx, BlockModel { preds: relabel_all(prev[idx].preds, b, a), ..prev[idx] })
        } else {
            prev
        }
    }
}

/// The code of A when it absorbs B: a final jump to B is dropped, then B's
/// code follows.
pub open spec fn absorbed_insts(a: Seq<IrInst>, b_label: IrLabel, b: Seq<IrInst>) -> Seq<IrInst> {
    if a.len() > 0 && a.last() == IrInst::Jump(b_label) {
        a.drop_last() + b
    } else {
        a + b
    }
}

/// The first block that can absorb its only successor does so: it takes
/// over the successor's code and successors, the successor's successors
/// list it as predecessor in the successor's place, every jump to the
/// successor goes to it, and the successor is removed. The result tells
/// whether a merge happened.
pub open spec fn merge_once(m: Seq<BlockModel>, entry: IrLabel) -> (Seq<BlockModel>, bool) {
    let i = first_merge(m, entry, m.len() as int);
    if i < 0 {
        (m, false)
    } else {
        let a = m[i];
        let bl = a.succs[0];
        let bi = model_index(m, bl);
        let bm = m[bi];
        let m1 = m.update(i, BlockModel { insts: absorbed_insts(a.insts, bl, bm.insts), succs: bm.succs, ..a }).update(
            bi,
            BlockModel { insts: Seq::empty(), ..bm },
        );
        let m2 = fix_preds(m1, bm.succs, bl, a.label, bm.succs.len() as int);
        let m3 = Seq::new(
            m2.len(),
            |j: int| BlockModel { insts: retarget_all(m2[j].insts, bl, a.label), ..m2[j] },
        );
        (m3.remove(bi), true)
    }
}

/// Appends the instructions of `b` to `a`.
fn append_insts(a: &mut Vec<IrInst>, b: Vec<IrInst>)
    ensures
        final(a)@ == old(a)@ + b@,
{
    let mut b = b;
    a.append(&mut b);
}

/// Merges the first block that can absorb its only successor (see
/// `merge_once`); the result tells whether one did.
pub fn merge_single_edge_blocks(cfg: &mut ControlFlowGraph) -> (changed: bool)
    ensures
        final(cfg).entry_label == old(cfg).entry_label,
        models(final(cfg).blocks@) == merge_once(models(old(cfg).blocks@), old(cfg).entry_label).0,
        changed == merge_once(models(old(cfg).blocks@), old(cfg).entry_label).1,
{
    let ghost m = models(cfg.blocks@);
    let entry = cfg.entry_label;
    let n = cfg.blocks.len();
    let mut found: Option<(usize, usize)> = None;
    let mut i: usize = 0;
    while i < n
        invariant_except_break
            found is None,
        invariant
            m == models(cfg.blocks@),
            n == m.len(),
            entry == cfg.entry_label,
            i <= n,
            first_merge(m, entry, i as int) == -1,
        ensures
            found is None ==> first_merge(m, entry, n as int) == -1,
            found matches Some((a, b)) ==> {
                &&& a < n
                &&& merge_candidate(m, entry, a as int)
                &&& first_merge(m, entry, a as int) == -1
                &&& b as int == model_index(m, m[a as int].succs[0])
            },
        decreases n - i,
    {
        assert(m[i as int] == model(cfg.blocks@[i as int]));
        let a_label = cfg.blocks[i].label;
        if cfg.blocks[i].successors.len() == 1 {
            let b_label = cfg.blocks[i].successors[0];
            if b_label != a_label && b_label != entry {
                match index_of_label(&cfg.blocks, b_label) {
                    Some(bi) => {
                        assert(m[bi as int] == model(cfg.blocks@[bi as int]));
                        assert(m[i as int].succs[0] == b_label);
                        let preds = &cfg.blocks[bi].predecessors;
                        if preds.len() == 1 && preds[0] == a_label {
                            assert(preds@ =~= seq![a_label]);
                            assert(merge_candidate(m, entry, i as int));
                            found = Some((i, bi));
                            break;
                        }
                        assert(preds@ != seq![a_label]) by {
                            if preds@ == seq![a_label] {
                                assert(preds@.len() == 1 && preds@[0] == a_label);
                            }
                        }
                    },
                    None => {},
                }
            }
        }
        assert(!merge_candidate(m, entry, i as int));
        i = i + 1;
    }
    let (ai, bi) = match found {
        None => {
            return false;
        },
        Some(p) => p,
    };
    proof {
        lemma_model_index(m, m[ai as int].succs[0]);
    }
    assert(first_merge(m, entry, m.len() as int) == ai) by {
        assert(first_merge(m, entry, ai + 1) == ai);
        assert forall|k: int| ai + 1 <= k <= m.len() implies first_merge(m, entry, k) == ai by {
            lemma_first_merge_stable(m, entry, ai + 1, k);
        }
    }
    let a_label = cfg.blocks[ai].label;
    let b_label = cfg.blocks[ai].successors[0];
    proof {
        lemma_model_index(m, b_label);
    }
    assert(bi != ai);
    // B's code and successors move into A; B keeps an empty body until it is
    // removed.
    let mut bblk = take_block(&mut cfg.blocks, bi);
    let b_insts = bblk.instructions;
    let b_succs = copy_labels(&bblk.successors);
    let keep = BasicBlock {
        label: bblk.label,
        instructions: Vec::new(),
        predecessors: bblk.predecessors,
        successors: bblk.successors,
    };
    cfg.blocks.set(bi, keep);
    let mut ablk = take_block(&mut cfg.blocks, ai);
    let ghost a_insts0 = ablk.instructions@;
    let drop_jump = match ablk.instructions.last() {
        Some(IrInst::Jump(j)) => *j == b_label,
        _ => false,
    };
    if drop_jump {
        ablk.instructions.pop();
    }
    append_insts(&mut ablk.instructions, b_insts);
    let b_succs2 = copy_labels(&b_succs);
    ablk.successors = b_succs2;
    cfg.blocks.set(ai, ablk);
    let ghost bm = m[bi as int];
    let ghost am = m[ai as int];
    let ghost m1 = m.update(
        ai as int,
        BlockModel { insts: absorbed_insts(am.insts, b_label, bm.insts), succs: bm.succs, ..am },
    ).update(bi as int, BlockModel { insts: Seq::empty(), ..bm });
    proof {
        if a_insts0.len() > 0 && a_insts0.last() == IrInst::Jump(b_label) {
            assert(drop_jump);
        }
        if drop_jump {
            assert(a_insts0.last() == IrInst::Jump(b_label));
        }
    }
    assert(models(cfg.blocks@) =~= m1);
    // Predecessors of B's successors.
    let mut k: usize = 0;
    while k < b_succs.len()
        invariant
            b_succs@ == bm.succs,
            k <= b_succs@.len(),
            models(cfg.blocks@) == fix_preds(m1, bm.succs, b_label, a_label, k as int),
            cfg.entry_label == entry,
            cfg.blocks@.len() == n,
        decreases b_succs@.len() - k,
    {
        let ghost prev = models(cfg.blocks@);
        match index_of_label(&cfg.blocks, b_succs[k]) {
            Some(idx) => {
                let mut sb = take_block(&mut cfg.blocks, idx);
                let old_preds = sb.predecessors;
                let mut np: Vec<IrLabel> = Vec::new();
                let mut q: usize = 0;
                while q < old_preds.len()
                    invariant
                        q <= old_preds@.len(),
                        np@ == relabel_all(old_preds@.take(q as int), b_label, a_label),
                    decreases old_preds@.len() - q,
                {
                    if old_preds[q] == b_label {
                        np.push(a_label);
                    } else {
                        np.push(old_preds[q]);
                    }
                    assert(np@ =~= relabel_all(old_preds@.take(q + 1), b_label, a_label));
                    q = q + 1;
                }
                assert(old_preds@.take(old_preds@.len() as int) =~= old_preds@);
                let nsb = BasicBlock {
                    label: sb.label,
                    instructions: sb.instructions,
                    predecessors: np,
                    successors: sb.successors,
                };
                cfg.blocks.set(idx, nsb);
                assert(models(cfg.blocks@) =~= prev.update(
                    idx as int,
                    BlockModel { preds: relabel_all(prev[idx as int].preds, b_label, a_label), ..prev[idx as int] },
                ));
            },
            None => {},
        }
        k = k + 1;
    }
    let ghost m2 = models(cfg.blocks@);
    // Jumps to B go to A.
    let mut j: usize = 0;
    while j < n
        invariant
            m2 == fix_preds(m1, bm.succs, b_label, a_label, b_succs@.len() as int),
            n == m2.len(),
            cfg.blocks@.len() == n,
            cfg.entry_label == entry,
            j <= n,
            forall|q: int|
                0 <= q < j ==> model(#[trigger] cfg.blocks@[q]) == (BlockModel {
                    insts: retarget_all(m2[q].insts, b_label, a_label),
                    ..m2[q]
                }),
            forall|q: int| j <= q < n ==> model(#[trigger] cfg.blocks@[q]) == m2[q],
        decreases n - j,
    {
        let mut blk = take_block(&mut cfg.blocks, j);
        let _ = retarget_insts(&mut blk.instructions, b_label, a_label);
        cfg.blocks.set(j, blk);
        j = j + 1;
    }
    let ghost m3 = Seq::new(
        m2.len(),
        |q: int| BlockModel { insts: retarget_all(m2[q].insts, b_label, a_label), ..m2[q] },
    );
    assert(models(cfg.blocks@) =~= m3);
    let _ = cfg.blocks.remove(bi);
    assert(models(cfg.blocks@) =~= m3.remove(bi as int));
    true
}

proof fn lemma_first_merge_stable(m: Seq<BlockModel>, entry: IrLabel, a: int, k: int)
    requires
        0 <= a <= k,
        first_merge(m, entry, a) >= 0,
    ensures
        first_merge(m, entry, k) == first_merge(m, entry, a),
    decreases k - a,
{
    if k > a {
        lemma_first_merge_stable(m, entry, a, k - 1);
    }
}

/// The successors of the first model labelled `l` (none if there is none).
pub open spec fn model_succs(m: Seq<BlockModel>, l: IrLabel) -> Seq<IrLabel> {
    let f = model_index(m, l);
    if f >= 0 {
        m[f].succs
    } else {
        Seq::empty()
    }
}

/// `reach_within`, over block models.
pub open spec fn model_reach_within(m: Seq<BlockModel>, entry: IrLabel, l: IrLabel, n: nat) -> bool
    decreases n,
{
    if n == 0 {
        l == entry
    } else {
        model_reach_within(m, entry, l, (n - 1) as nat) || exists|k: IrLabel|
            model_reach_within(m, entry, k, (n - 1) as nat) && #[trigger] model_succs(m, k).contains(l)
    }
}

/// Whether `l` can be reached from `entry` along the successor edges.
pub open spec fn model_reachable(m: Seq<BlockModel>, entry: IrLabel, l: IrLabel) -> bool {
    exists|n: nat| #[trigger] model_reach_within(m, entry, l, n)
}

/// The labels among `ps` that can be reached, in order.
pub open spec fn model_reached_only(ps: Seq<IrLabel>, m: Seq<BlockModel>, entry: IrLabel) -> Seq<IrLabel>
    decreases ps.len(),
{
    if ps.len() == 0 {
        Seq::empty()
    } else if model_reachable(m, entry, ps.last()) {
        model_reached_only(ps.drop_last(), m, entry).push(ps.last())
    } else {
        model_reached_only(ps.drop_last(), m, entry)
    }
}

/// The reachable blocks among the first `n`, in order, each with only its
/// reachable predecessors.
pub open spec fn pruned_upto(m: Seq<BlockModel>, entry: IrLabel, n: int) -> Seq<BlockModel>
    decreases n,
{
    if n <= 0 {
        Seq::empty()
    } else if model_reachable(m, entry, m[n - 1].label) {
        pruned_upto(m, entry, n - 1).push(
            BlockModel { preds: model_reached_only(m[n - 1].preds, m, entry), ..m[n - 1] },
        )
    } else {
        pruned_upto(m, entry, n - 1)
    }
}

/// The blocks that `remove_unreachable_blocks` leaves.
pub open spec fn pruned(m: Seq<BlockModel>, entry: IrLabel) -> Seq<BlockModel> {
    pruned_upto(m, entry, m.len() as int)
}

/// One round of `simplify_cfg`: unreachable blocks go, empty jump blocks
/// are bypassed, one pair of blocks is merged; the flag tells whether any
/// of the three changed something (a block removed, bypassed or merged).
pub open spec fn simplify_round(m: Seq<BlockModel>, entry: IrLabel) -> (Seq<BlockModel>, bool) {
    let p = pruned(m, entry);
    let cands = empty_jump_blocks(p, entry);
    let (e, c2) = bypass_all(p, cands, cands.len() as int);
    let (g, c3) = merge_once(e, entry);
    (g, p.len() != m.len() || c2 || c3)
}

/// At most `k` rounds, stopping after the first that changes nothing; the
/// flag tells whether the first round changed something.
pub open spec fn simplify_rounds(m: Seq<BlockModel>, entry: IrLabel, k: nat) -> (Seq<BlockModel>, bool)
    decreases k,
{
    if k == 0 {
        (m, false)
    } else {
        let (r, c) = simplify_round(m, entry);
        if !c {
            (r, false)
        } else {
            (simplify_rounds(r, entry, (k - 1) as nat).0, true)
        }
    }
}

/// The number of rounds `simplify_cfg` runs at most.
pub const MAX_PASSES: usize = 20;

proof fn lemma_index_agree(bs: Seq<BasicBlock>, l: IrLabel)
    ensures
        first_index(bs, l) == model_index(models(bs), l),
{
    lemma_first_index(bs, l);
    lemma_model_index(models(bs), l);
    let f = first_index(bs, l);
    let g = model_index(models(bs), l);
    if f >= 0 {
        assert(models(bs)[f].label == l);
    }
    if g >= 0 {
        assert(bs[g].label == models(bs)[g].label);
    }
}

proof fn lemma_reach_agree(bs: Seq<BasicBlock>, entry: IrLabel, l: IrLabel, n: nat)
    ensures
        reach_within(bs, entry, l, n) == model_reach_within(models(bs), entry, l, n),
    decreases n,
{
    if n > 0 {
        let m = models(bs);
        assert forall|k: IrLabel|
            reach_within(bs, entry, k, (n - 1) as nat) == model_reach_within(m, entry, k, (n - 1) as nat)
                && succs_of_label(bs, k) == #[trigger] model_succs(m, k) by {
            lemma_reach_agree(bs, entry, k, (n - 1) as nat);
            lemma_index_agree(bs, k);
            lemma_first_index(bs, k);
            let f = first_index(bs, k);
            if f >= 0 {
                assert(m[f] == model(bs[f]));
            }
        }
        lemma_reach_agree(bs, entry, l, (n - 1) as nat);
        if reach_within(bs, entry, l, n) && !reach_within(bs, entry, l, (n - 1) as nat) {
            let k = choose|k: IrLabel|
                reach_within(bs, entry, k, (n - 1) as nat) && #[trigger] succs_of_label(bs, k).contains(l);
            assert(model_succs(m, k).contains(l));
        }
        if model_reach_within(m, entry, l, n) && !model_reach_within(m, entry, l, (n - 1) as nat) {
            let k = choose|k: IrLabel|
                model_reach_within(m, entry, k, (n - 1) as nat) && #[trigger] model_succs(m, k).contains(l);
            assert(succs_of_label(bs, k).contains(l));
        }
    }
}

proof fn lemma_reachable_agree(cfg: ControlFlowGraph, l: IrLabel)
    ensures
        reachable(cfg, l) == model_reachable(models(cfg.blocks@), cfg.entry_label, l),
{
    let bs = cfg.blocks@;
    assert forall|n: nat|
        reach_within(bs, cfg.entry_label, l, n) == #[trigger] model_reach_within(
            models(bs),
            cfg.entry_label,
            l,
            n,
        ) by {
        lemma_reach_agree(bs, cfg.entry_label, l, n);
    }
    if reachable(cfg, l) {
        let n = choose|n: nat| #[trigger] reach_within(bs, cfg.entry_label, l, n);
        assert(model_reach_within(models(bs), cfg.entry_label, l, n));
    }
}

proof fn lemma_reached_only_agree(ps: Seq<IrLabel>, cfg: ControlFlowGraph)
    ensures
        reached_only(ps, cfg) == model_reached_only(ps, models(cfg.blocks@), cfg.entry_label),
    decreases ps.len(),
{
    if ps.len() > 0 {
        lemma_reached_only_agree(ps.drop_last(), cfg);
        lemma_reachable_agree(cfg, ps.last());
    }
}

proof fn lemma_pruned_agree(cfg: ControlFlowGraph, n: int)
    requires
        0 <= n <= cfg.blocks@.len(),
    ensures
        ({
            let kept = kept_blocks(cfg, n);
            let bs = cfg.blocks@;
            pruned_upto(models(bs), cfg.entry_label, n) == Seq::new(
                kept.len(),
                |q: int|
                    BlockModel { preds: reached_only(bs[kept[q]].predecessors@, cfg), ..model(bs[kept[q]]) },
            )
        }),
    decreases n,
{
    let bs = cfg.blocks@;
    let m = models(bs);
    if n > 0 {
        lemma_pruned_agree(cfg, n - 1);
        lemma_kept_blocks_bounds(cfg, n - 1);
        lemma_reachable_agree(cfg, bs[n - 1].label);
        lemma_reached_only_agree(bs[n - 1].predecessors@, cfg);
        assert(m[n - 1] == model(bs[n - 1]));
        let kept = kept_blocks(cfg, n);
        let f = |q: int| BlockModel { preds: reached_only(bs[kept[q]].predecessors@, cfg), ..model(bs[kept[q]]) };
        assert(pruned_upto(m, cfg.entry_label, n) =~= Seq::new(kept.len(), f));
    }
}

proof fn lemma_pruned_result(old_cfg: ControlFlowGraph, new_cfg: ControlFlowGraph)
    requires
        new_cfg.entry_label == old_cfg.entry_label,
        ({
            let kept = kept_blocks(old_cfg, old_cfg.blocks@.len() as int);
            &&& new_cfg.blocks@.len() == kept.len()
            &&& forall|q: int|
                0 <= q < kept.len() ==> {
                    let b = old_cfg.blocks@[kept[q]];
                    &&& 0 <= kept[q] < old_cfg.blocks@.len()
                    &&& (#[trigger] new_cfg.blocks@[q]).label == b.label
                    &&& new_cfg.blocks@[q].instructions == b.instructions
                    &&& new_cfg.blocks@[q].successors == b.successors
                    &&& new_cfg.blocks@[q].predecessors@ == reached_only(b.predecessors@, old_cfg)
                }
        }),
    ensures
        models(new_cfg.blocks@) == pruned(models(old_cfg.blocks@), old_cfg.entry_label),
{
    lemma_pruned_agree(old_cfg, old_cfg.blocks@.len() as int);
    assert(models(old_cfg.blocks@).len() == old_cfg.blocks@.len());
    assert(models(new_cfg.blocks@) =~= pruned(models(old_cfg.blocks@), old_cfg.entry_label));
}

/// Runs rounds of unreachable-block removal, empty-jump bypassing and
/// single-edge merging until a round changes nothing, at most `MAX_PASSES`
/// of them (see `simplify_rounds`); the result tells whether the first
/// round changed something.
pub fn simplify_cfg(cfg: &mut ControlFlowGraph) -> (changed: bool)
    ensures
        final(cfg).entry_label == old(cfg).entry_label,
        models(final(cfg).blocks@) == simplify_rounds(
            models(old(cfg).blocks@),
            old(cfg).entry_label,
            MAX_PASSES as nat,
        ).0,
        changed == simplify_rounds(models(old(cfg).blocks@), old(cfg).entry_label, MAX_PASSES as nat).1,
{
    let ghost m0 = models(cfg.blocks@);
    let ghost entry = cfg.entry_label;
    let mut changed = false;
    let mut iterations: usize = 0;
    while iterations < MAX_PASSES
        invariant_except_break
            changed == (iterations > 0),
            simplify_rounds(m0, entry, MAX_PASSES as nat) == (
                simplify_rounds(models(cfg.blocks@), entry, (MAX_PASSES - iterations) as nat).0,
                changed || simplify_rounds(models(cfg.blocks@), entry, (MAX_PASSES - iterations) as nat).1,
            ),
        invariant
            cfg.entry_label == entry,
            iterations <= MAX_PASSES,
        ensures
            cfg.entry_label == entry,
            simplify_rounds(m0, entry, MAX_PASSES as nat) == (models(cfg.blocks@), changed),
        decreases MAX_PASSES - iterations,
    {
        let ghost cur = models(cfg.blocks@);
        iterations = iterations + 1;
        let c1 = remove_unreachable_blocks(cfg);
        let c2 = eliminate_empty_jump_blocks(cfg);
        let c3 = merge_single_edge_blocks(cfg);
        assert(simplify_round(cur, entry) == (models(cfg.blocks@), c1 || c2 || c3));
        if !c1 && !c2 && !c3 {
            break;
        }
        changed = true;
    }
    changed
}

} // verus!
