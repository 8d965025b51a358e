//! Construction of static single assignment form: a phi node for each
//! variable at the iterated dominance frontier of the blocks that write it,
//! then a walk down the dominator tree that gives every write a fresh
//! variable and every read the variable of the write it sees.
use vstd::prelude::*;

use crate::compiler::ir::block::{take_block, BasicBlock, ControlFlowGraph};
use crate::compiler::ir::dom::DominatorTree;
use crate::compiler::ir::inst::{inst_def_var, inst_is_terminator, inst_use_vars, IrInst};
use crate::compiler::ir::opt::inline::max_in;
use crate::compiler::ir::ssa::{var_index, var_put, vars_hold, SsaContext};
use crate::compiler::ir::types::{IrLabel, IrVar};
use crate::compiler::ir::verify::{block_ok, cfg_ok, lemma_cfg_ok_kept, phis_first, term_shape, term_shapes};

verus! {

/// An instruction as SSA construction rewrites it: the lists it changes
/// (phi inputs, call arguments and results, returned values) as sequences.
pub ghost enum SsaInst {
    Phi { dst: IrVar, incoming: Seq<(IrLabel, IrVar)> },
    Call { dsts: Seq<IrVar>, callee: IrVar, args: Seq<IrVar>, retc: u8 },
    Return(Seq<IrVar>),
    Other(IrInst),
}

/// The model of an instruction.
pub open spec fn sinst(i: IrInst) -> SsaInst {
    match i {
        IrInst::Phi { dst, incoming } => SsaInst::Phi { dst, incoming: incoming@ },
        IrInst::Call { dsts, callee, args, retc } => SsaInst::Call { dsts: dsts@, callee, args: args@, retc },
        IrInst::Return(vs) => SsaInst::Return(vs@),
        _ => SsaInst::Other(i),
    }
}

/// The models of a list of instructions.
pub open spec fn sinsts(s: Seq<IrInst>) -> Seq<SsaInst> {
    s.map_values(|i: IrInst| sinst(i))
}

/// The instructions of each block, as models.
pub open spec fn block_insts(bs: Seq<BasicBlock>) -> Seq<Seq<SsaInst>> {
    bs.map_values(|b: BasicBlock| sinsts(b.instructions@))
}

/// The label of each block.
pub open spec fn labels(bs: Seq<BasicBlock>) -> Seq<IrLabel> {
    bs.map_values(|b: BasicBlock| b.label)
}

/// The successors of each block.
pub open spec fn succ_lists(bs: Seq<BasicBlock>) -> Seq<Seq<IrLabel>> {
    bs.map_values(|b: BasicBlock| b.successors@)
}

/// Whether `a` and `b` have the same blocks but for their instructions.
pub open spec fn same_shape(a: Seq<BasicBlock>, b: Seq<BasicBlock>) -> bool {
    &&& a.len() == b.len()
    &&& forall|i: int|
        0 <= i < a.len() ==> (#[trigger] a[i]).label == b[i].label && a[i].predecessors == b[i].predecessors
            && a[i].successors == b[i].successors
}

/// The position of the first `l` in `labs`, or -1.
pub open spec fn label_index(labs: Seq<IrLabel>, l: IrLabel) -> int
    decreases labs.len(),
{
    if labs.len() == 0 {
        -1
    } else {
        let r = label_index(labs.drop_last(), l);
        if r >= 0 {
            r
        } else if labs.last() == l {
            labs.len() - 1
        } else {
            -1
        }
    }
}

pub(crate) proof fn lemma_label_index(labs: Seq<IrLabel>, l: IrLabel)
    ensures
        -1 <= label_index(labs, l) < labs.len(),
        label_index(labs, l) >= 0 ==> labs[label_index(labs, l)] == l,
        forall|j: int|
            0 <= j < labs.len() && (j < label_index(labs, l) || label_index(labs, l) < 0) ==> #[trigger] labs[j]
                != l,
    decreases labs.len(),
{
    if labs.len() > 0 {
        lemma_label_index(labs.drop_last(), l);
        assert forall|j: int|
            0 <= j < labs.len() && (j < label_index(labs, l) || label_index(labs, l) < 0) implies #[trigger] labs[j]
                != l by {
            if j < labs.len() - 1 {
                assert(labs[j] == labs.drop_last()[j]);
            }
        }
    }
}

/// `i` is the first position of `l` when `labs[i] == l` and no earlier one is.
pub(crate) proof fn lemma_label_index_at(labs: Seq<IrLabel>, l: IrLabel, i: int)
    requires
        0 <= i < labs.len(),
        labs[i] == l,
        forall|j: int| 0 <= j < i ==> labs[j] != l,
    ensures
        label_index(labs, l) == i,
{
    lemma_label_index(labs, l);
}

/// The first block labelled `l`.
fn find_label(bs: &Vec<BasicBlock>, l: IrLabel) -> (r: Option<usize>)
    ensures
        match r {
            Some(i) => i < bs@.len() && label_index(labels(bs@), l) == i,
            None => label_index(labels(bs@), l) == -1,
        },
{
    let ghost labs = labels(bs@);
    proof {
        lemma_label_index(labs, l);
    }
    let mut i: usize = 0;
    while i < bs.len()
        invariant
            i <= bs@.len(),
            labs == labels(bs@),
            forall|j: int| 0 <= j < i ==> labs[j] != l,
        decreases bs@.len() - i,
    {
        if bs[i].label == l {
            proof {
                lemma_label_index_at(labs, l, i as int);
            }
            return Some(i);
        }
        i = i + 1;
    }
    proof {
        if label_index(labs, l) >= 0 {
            assert(labs[label_index(labs, l)] == l);
        }
    }
    None
}

/// The position of the first entry for `l` in a list of (label, labels)
/// entries, or -1.
pub open spec fn entry_index(es: Seq<(IrLabel, Vec<IrLabel>)>, l: IrLabel) -> int {
    label_index(es.map_values(|e: (IrLabel, Vec<IrLabel>)| e.0), l)
}

/// The labels the first entry for `l` lists (none when there is no entry).
pub open spec fn entry_of(es: Seq<(IrLabel, Vec<IrLabel>)>, l: IrLabel) -> Seq<IrLabel> {
    if entry_index(es, l) >= 0 {
        es[entry_index(es, l)].1@
    } else {
        Seq::empty()
    }
}

/// The first entry for `l`.
pub(crate) fn find_entry(es: &Vec<(IrLabel, Vec<IrLabel>)>, l: IrLabel) -> (r: Option<usize>)
    ensures
        match r {
            Some(i) => i < es@.len() && entry_index(es@, l) == i,
            None => entry_index(es@, l) == -1,
        },
{
    let ghost keys = es@.map_values(|e: (IrLabel, Vec<IrLabel>)| e.0);
    proof {
        lemma_label_index(keys, l);
    }
    let mut i: usize = 0;
    while i < es.len()
        invariant
            i <= es@.len(),
            keys == es@.map_values(|e: (IrLabel, Vec<IrLabel>)| e.0),
            forall|j: int| 0 <= j < i ==> keys[j] != l,
        decreases es@.len() - i,
    {
        if es[i].0 == l {
            proof {
                lemma_label_index_at(keys, l, i as int);
            }
            return Some(i);
        }
        i = i + 1;
    }
    proof {
        if label_index(keys, l) >= 0 {
            assert(keys[label_index(keys, l)] == l);
        }
    }
    None
}

// ---------------------------------------------------------------------------
// Variables written and read.
/// The largest of `m` and the variable numbers `i` writes (its single
/// result) or reads.
pub open spec fn var_max_step(m: int, i: IrInst) -> int {
    let with_def = match inst_def_var(i) {
        Some(d) => if d.0 > m {
            d.0 as int
        } else {
            m
        },
        None => m,
    };
    max_in(inst_use_vars(i), with_def)
}

/// The largest of `m` and the variable numbers of the first `k` of `s`.
pub open spec fn var_max_insts(m: int, s: Seq<IrInst>, k: int) -> int
    decreases k,
{
    if k <= 0 {
        m
    } else {
        var_max_step(var_max_insts(m, s, k - 1), s[k - 1])
    }
}

/// The largest variable number in the first `n` blocks, or 0.
pub open spec fn var_max_blocks(bs: Seq<BasicBlock>, n: int) -> int
    decreases n,
{
    if n <= 0 {
        0
    } else {
        var_max_insts(var_max_blocks(bs, n - 1), bs[n - 1].instructions@, bs[n - 1].instructions@.len() as int)
    }
}

/// The variables `acc` and then those the first `k` of `s` write, each once,
/// in the order of their first write.
pub open spec fn def_order_insts(acc: Seq<IrVar>, s: Seq<IrInst>, k: int) -> Seq<IrVar>
    decreases k,
{
    if k <= 0 {
        acc
    } else {
        let a = def_order_insts(acc, s, k - 1);
        match inst_def_var(s[k - 1]) {
            Some(d) => if a.contains(d) {
                a
            } else {
                a.push(d)
            },
            None => a,
        }
    }
}

/// The variables the first `n` blocks write, each once, in the order of
/// their first write.
pub open spec fn def_order(bs: Seq<BasicBlock>, n: int) -> Seq<IrVar>
    decreases n,
{
    if n <= 0 {
        Seq::empty()
    } else {
        def_order_insts(def_order(bs, n - 1), bs[n - 1].instructions@, bs[n - 1].instructions@.len() as int)
    }
}

/// Whether a block labelled `l` writes `v`.
pub open spec fn defines(bs: Seq<BasicBlock>, v: IrVar, l: IrLabel) -> bool {
    exists|i: int, j: int|
        0 <= i < bs.len() && bs[i].label == l && 0 <= j < bs[i].instructions@.len() && inst_def_var(
            #[trigger] bs[i].instructions@[j],
        ) == Some(v)
}

fn var_max_exec(bs: &Vec<BasicBlock>) -> (r: u32)
    ensures
        r as int == var_max_blocks(bs@, bs@.len() as int),
{
    let mut m: u32 = 0;
    let mut i: usize = 0;
    while i < bs.len()
        invariant
            i <= bs@.len(),
            m as int == var_max_blocks(bs@, i as int),
        decreases bs@.len() - i,
    {
        let ghost m0 = m as int;
        let insts = &bs[i].instructions;
        let mut j: usize = 0;
        while j < insts.len()
            invariant
                j <= insts@.len(),
                insts == bs@[i as int].instructions,
                m as int == var_max_insts(m0, insts@, j as int),
            decreases insts@.len() - j,
        {
            match insts[j].def_var() {
                Some(d) => {
                    if d.0 > m {
                        m = d.0;
                    }
                },
                None => {},
            }
            let ghost w = m as int;
            let us = insts[j].use_vars();
            let mut k: usize = 0;
            while k < us.len()
                invariant
                    k <= us@.len(),
                    m as int == max_in(us@.take(k as int), w),
                decreases us@.len() - k,
            {
                if us[k].0 > m {
                    m = us[k].0;
                }
                proof {
                    assert(us@.take(k + 1).drop_last() =~= us@.take(k as int));
                }
                k = k + 1;
            }
            proof {
                assert(us@.take(us@.len() as int) =~= us@);
            }
            j = j + 1;
        }
        i = i + 1;
    }
    m
}

fn contains_var(v: &Vec<IrVar>, x: IrVar) -> (r: bool)
    ensures
        r == v@.contains(x),
{
    let mut i: usize = 0;
    while i < v.len()
        invariant
            i <= v@.len(),
            forall|j: int| 0 <= j < i ==> v@[j] != x,
        decreases v@.len() - i,
    {
        if v[i] == x {
            return true;
        }
        i = i + 1;
    }
    false
}

fn def_order_exec(bs: &Vec<BasicBlock>) -> (r: Vec<IrVar>)
    ensures
        r@ == def_order(bs@, bs@.len() as int),
{
    let mut order: Vec<IrVar> = Vec::new();
    let mut i: usize = 0;
    while i < bs.len()
        invariant
            i <= bs@.len(),
            order@ == def_order(bs@, i as int),
        decreases bs@.len() - i,
    {
        let ghost o0 = order@;
        let insts = &bs[i].instructions;
        let mut j: usize = 0;
        while j < insts.len()
            invariant
                j <= insts@.len(),
                insts == bs@[i as int].instructions,
                order@ == def_order_insts(o0, insts@, j as int),
            decreases insts@.len() - j,
        {
            match insts[j].def_var() {
                Some(d) => {
                    if !contains_var(&order, d) {
                        order.push(d);
                    }
                },
                None => {},
            }
            j = j + 1;
        }
        i = i + 1;
    }
    order
}

/// The labels of the blocks that write `v` (with repeats).
fn def_labels(bs: &Vec<BasicBlock>, v: IrVar) -> (r: Vec<IrLabel>)
    ensures
        forall|k: int| 0 <= k < r@.len() ==> defines(bs@, v, #[trigger] r@[k]),
        forall|l: IrLabel| defines(bs@, v, l) ==> r@.contains(l),
{
    let mut r: Vec<IrLabel> = Vec::new();
    let mut i: usize = 0;
    while i < bs.len()
        invariant
            i <= bs@.len(),
            forall|k: int| 0 <= k < r@.len() ==> defines(bs@, v, #[trigger] r@[k]),
            forall|a: int, j: int|
                0 <= a < i && 0 <= j < bs@[a].instructions@.len() && inst_def_var(
                    #[trigger] bs@[a].instructions@[j],
                ) == Some(v) ==> r@.contains(bs@[a].label),
        decreases bs@.len() - i,
    {
        let insts = &bs[i].instructions;
        let mut found = false;
        let mut j: usize = 0;
        while j < insts.len()
            invariant
                j <= insts@.len(),
                i < bs@.len(),
                insts == bs@[i as int].instructions,
                found ==> defines(bs@, v, bs@[i as int].label),
                !found ==> forall|q: int| 0 <= q < j ==> inst_def_var(#[trigger] insts@[q]) != Some(v),
            decreases insts@.len() - j,
        {
            if insts[j].def_var() == Some(v) {
                assert(inst_def_var(bs@[i as int].instructions@[j as int]) == Some(v));
                found = true;
            }
            j = j + 1;
        }
        let ghost r0 = r@;
        if found {
            r.push(bs[i].label);
            assert(r@[r0.len() as int] == bs@[i as int].label);
        }
        assert forall|a: int, q: int|
            0 <= a < i + 1 && 0 <= q < bs@[a].instructions@.len() && inst_def_var(
                #[trigger] bs@[a].instructions@[q],
            ) == Some(v) implies r@.contains(bs@[a].label) by {
            let l = bs@[a].label;
            if a < i {
                assert(r0.contains(l));
                let w = choose|w: int| 0 <= w < r0.len() && r0[w] == l;
                assert(r@[w] == l);
            } else {
                assert(found);
                assert(r@[r0.len() as int] == l);
            }
        }
        i = i + 1;
    }
    assert forall|l: IrLabel| defines(bs@, v, l) implies r@.contains(l) by {
        let (a, q) = choose|a: int, q: int|
            0 <= a < bs@.len() && bs@[a].label == l && 0 <= q < bs@[a].instructions@.len() && inst_def_var(
                #[trigger] bs@[a].instructions@[q],
            ) == Some(v);
    }
    r
}

// ---------------------------------------------------------------------------
// Phi nodes.
/// Whether `p` is a path from a block that writes `v` along frontier edges
/// (each step from a block into its dominance frontier), of at least one
/// step.
pub open spec fn frontier_path(fr: Seq<(IrLabel, Vec<IrLabel>)>, bs: Seq<BasicBlock>, v: IrVar, p: Seq<IrLabel>) -> bool {
    &&& p.len() >= 2
    &&& defines(bs, v, p[0])
    &&& forall|i: int| 0 <= i < p.len() - 1 ==> entry_of(fr, #[trigger] p[i]).contains(p[i + 1])
}

/// Whether `f` is in the iterated dominance frontier of the blocks that
/// write `v`.
pub open spec fn in_idf(fr: Seq<(IrLabel, Vec<IrLabel>)>, bs: Seq<BasicBlock>, v: IrVar, f: IrLabel) -> bool {
    exists|p: Seq<IrLabel>| #[trigger] frontier_path(fr, bs, v, p) && p.last() == f
}

/// A phi node for `v` with no inputs yet.
pub open spec fn phi_of(v: IrVar) -> SsaInst {
    SsaInst::Phi { dst: v, incoming: Seq::empty() }
}

/// The phi nodes block `i` starts with once the first `j` of `order` have
/// theirs: one for each variable whose iterated frontier holds the block's
/// label, when it is the first block so labelled, the latest variable
/// first.
pub open spec fn phis_for(order: Seq<IrVar>, j: int, fr: Seq<(IrLabel, Vec<IrLabel>)>, bs: Seq<BasicBlock>, i: int) -> Seq<
    SsaInst,
>
    decreases j,
{
    if j <= 0 {
        Seq::empty()
    } else {
        let rest = phis_for(order, j - 1, fr, bs, i);
        if label_index(labels(bs), bs[i].label) == i && in_idf(fr, bs, order[j - 1], bs[i].label) {
            seq![phi_of(order[j - 1])] + rest
        } else {
            rest
        }
    }
}

/// The blocks' instructions once every written variable has its phi nodes.
pub open spec fn phis_placed(bs: Seq<BasicBlock>, fr: Seq<(IrLabel, Vec<IrLabel>)>) -> Seq<Seq<SsaInst>> {
    let order = def_order(bs, bs.len() as int);
    Seq::new(bs.len(), |i: int| phis_for(order, order.len() as int, fr, bs, i) + sinsts(bs[i].instructions@))
}

/// Every label that some frontier list holds.
pub open spec fn fr_labels(fr: Seq<(IrLabel, Vec<IrLabel>)>, n: int) -> Set<IrLabel>
    decreases n,
{
    if n <= 0 {
        Set::empty()
    } else {
        fr_labels(fr, n - 1).union(fr[n - 1].1@.to_set())
    }
}

proof fn lemma_fr_labels(fr: Seq<(IrLabel, Vec<IrLabel>)>, n: int)
    requires
        0 <= n <= fr.len(),
    ensures
        fr_labels(fr, n).finite(),
        forall|i: int, l: IrLabel| 0 <= i < n && #[trigger] fr[i].1@.contains(l) ==> fr_labels(fr, n).contains(l),
    decreases n,
{
    if n > 0 {
        lemma_fr_labels(fr, n - 1);
        vstd::seq_lib::seq_to_set_is_finite(fr[n - 1].1@);
        assert forall|i: int, l: IrLabel| 0 <= i < n && #[trigger] fr[i].1@.contains(l) implies fr_labels(fr, n).contains(
            l,
        ) by {
            if i == n - 1 {
                assert(fr[n - 1].1@.to_set().contains(l));
            }
        }
    }
}

proof fn lemma_entry_of_in(fr: Seq<(IrLabel, Vec<IrLabel>)>, l: IrLabel, f: IrLabel)
    requires
        entry_of(fr, l).contains(f),
    ensures
        fr_labels(fr, fr.len() as int).contains(f),
{
    let keys = fr.map_values(|e: (IrLabel, Vec<IrLabel>)| e.0);
    lemma_label_index(keys, l);
    lemma_fr_labels(fr, fr.len() as int);
    let i = entry_index(fr, l);
    assert(fr[i].1@.contains(f));
}

/// The blocks once those whose label is in `hp` (the first of each label)
/// start with a phi node for `v`.
pub open spec fn with_phi(before: Seq<Seq<SsaInst>>, labs: Seq<IrLabel>, hp: Set<IrLabel>, v: IrVar) -> Seq<
    Seq<SsaInst>,
> {
    Seq::new(
        before.len(),
        |i: int|
            if label_index(labs, labs[i]) == i && hp.contains(labs[i]) {
                seq![phi_of(v)] + before[i]
            } else {
                before[i]
            },
    )
}

/// A frontier path extended by one more frontier step.
proof fn lemma_path_extend(fr: Seq<(IrLabel, Vec<IrLabel>)>, bs: Seq<BasicBlock>, v: IrVar, p: Seq<IrLabel>, f: IrLabel)
    requires
        frontier_path(fr, bs, v, p),
        entry_of(fr, p.last()).contains(f),
    ensures
        frontier_path(fr, bs, v, p.push(f)),
{
    let q = p.push(f);
    assert forall|i: int| 0 <= i < q.len() - 1 implies entry_of(fr, #[trigger] q[i]).contains(q[i + 1]) by {
        if i < p.len() - 1 {
            assert(q[i] == p[i] && q[i + 1] == p[i + 1]);
        } else {
            assert(q[i] == p.last());
        }
    }
}

/// In a set closed under frontier steps from the writing blocks, every
/// frontier path ends.
proof fn lemma_closed_holds_paths(
    fr: Seq<(IrLabel, Vec<IrLabel>)>,
    bs: Seq<BasicBlock>,
    v: IrVar,
    hp: Set<IrLabel>,
    p: Seq<IrLabel>,
)
    requires
        frontier_path(fr, bs, v, p),
        forall|x: IrLabel, f: IrLabel|
            (defines(bs, v, x) || hp.contains(x)) && #[trigger] entry_of(fr, x).contains(f) ==> hp.contains(f),
    ensures
        hp.contains(p.last()),
    decreases p.len(),
{
    if p.len() == 2 {
        assert(entry_of(fr, p[0]).contains(p[1]));
    } else {
        let q = p.drop_last();
        assert forall|i: int| 0 <= i < q.len() - 1 implies entry_of(fr, #[trigger] q[i]).contains(q[i + 1]) by {
            assert(q[i] == p[i] && q[i + 1] == p[i + 1]);
        }
        lemma_closed_holds_paths(fr, bs, v, hp, q);
        assert(entry_of(fr, p[p.len() - 2]).contains(p[p.len() - 1]));
    }
}

/// Gives each block in the iterated dominance frontier of `v`'s writers
/// (`d`) a phi node for `v`.
fn place_phis_for(
    cfg: &mut ControlFlowGraph,
    fr: &Vec<(IrLabel, Vec<IrLabel>)>,
    v: IrVar,
    d: &Vec<IrLabel>,
    Ghost(bs0): Ghost<Seq<BasicBlock>>,
)
    requires
        forall|k: int| 0 <= k < d@.len() ==> defines(bs0, v, #[trigger] d@[k]),
        forall|l: IrLabel| defines(bs0, v, l) ==> d@.contains(l),
        same_shape(old(cfg).blocks@, bs0),
    ensures
        same_shape(final(cfg).blocks@, bs0),
        final(cfg).entry_label == old(cfg).entry_label,
        block_insts(final(cfg).blocks@) == with_phi(
            block_insts(old(cfg).blocks@),
            labels(bs0),
            Set::new(|f: IrLabel| in_idf(fr@, bs0, v, f)),
            v,
        ),
{
    let ghost labs = labels(bs0);
    let ghost before = block_insts(cfg.blocks@);
    let ghost univ = fr_labels(fr@, fr@.len() as int);
    proof {
        lemma_fr_labels(fr@, fr@.len() as int);
        assert(labels(cfg.blocks@) =~= labs);
    }
    let mut worklist: Vec<IrLabel> = Vec::new();
    let mut k: usize = 0;
    while k < d.len()
        invariant
            k <= d@.len(),
            worklist@ == d@.take(k as int),
        decreases d@.len() - k,
    {
        worklist.push(d[k]);
        proof {
            assert(d@.take(k + 1) =~= d@.take(k as int).push(d@[k as int]));
        }
        k = k + 1;
    }
    proof {
        assert(d@.take(d@.len() as int) =~= d@);
    }
    let mut has_phi: Vec<IrLabel> = Vec::new();
    while worklist.len() > 0
        invariant
            same_shape(cfg.blocks@, bs0),
            cfg.entry_label == old(cfg).entry_label,
            labs == labels(bs0),
            labels(cfg.blocks@) == labs,
            before == block_insts(old(cfg).blocks@),
            before.len() == bs0.len(),
            univ == fr_labels(fr@, fr@.len() as int),
            univ.finite(),
            forall|l: IrLabel| defines(bs0, v, l) ==> d@.contains(l),
            has_phi@.no_duplicates(),
            has_phi@.to_set().subset_of(univ),
            forall|q: int| 0 <= q < has_phi@.len() ==> in_idf(fr@, bs0, v, #[trigger] has_phi@[q]),
            forall|q: int|
                0 <= q < worklist@.len() ==> defines(bs0, v, #[trigger] worklist@[q]) || has_phi@.contains(
                    worklist@[q],
                ),
            forall|x: IrLabel, f: IrLabel|
                (d@.contains(x) || has_phi@.contains(x)) && !worklist@.contains(x) && #[trigger] entry_of(
                    fr@,
                    x,
                ).contains(f) ==> has_phi@.contains(f),
            block_insts(cfg.blocks@) == with_phi(before, labs, has_phi@.to_set(), v),
        decreases univ.len() - has_phi@.len(), worklist@.len(),
    {
        proof {
            has_phi@.unique_seq_to_set();
            vstd::set_lib::lemma_len_subset(has_phi@.to_set(), univ);
        }
        let ghost hp_len0 = has_phi@.len();
        let ghost wl0 = worklist@;
        let blk = worklist.pop().unwrap();
        assert(wl0 == worklist@.push(blk));
        assert(wl0[wl0.len() - 1] == blk);
        let ghost hp0 = has_phi@;
        proof {
            // where `blk` comes from
            assert(defines(bs0, v, blk) || hp0.contains(blk));
        }
        match find_entry(fr, blk) {
            Some(e) => {
                let ghost front = fr@[e as int].1@;
                assert(entry_of(fr@, blk) == front);
                let mut q: usize = 0;
                while q < fr[e].1.len()
                    invariant
                        e < fr@.len(),
                        front == fr@[e as int].1@,
                        entry_of(fr@, blk) == front,
                        q <= front.len(),
                        defines(bs0, v, blk) || hp0.contains(blk),
                        hp0.len() == hp_len0,
                        forall|r: int| 0 <= r < hp0.len() ==> has_phi@[r] == hp0[r],
                        hp0.len() <= has_phi@.len(),
                        same_shape(cfg.blocks@, bs0),
                        cfg.entry_label == old(cfg).entry_label,
                        labs == labels(bs0),
                        labels(cfg.blocks@) == labs,
                        before.len() == bs0.len(),
                        univ == fr_labels(fr@, fr@.len() as int),
                        has_phi@.no_duplicates(),
                        has_phi@.to_set().subset_of(univ),
                        forall|r: int| 0 <= r < has_phi@.len() ==> in_idf(fr@, bs0, v, #[trigger] has_phi@[r]),
                        forall|r: int|
                            0 <= r < worklist@.len() ==> defines(bs0, v, #[trigger] worklist@[r])
                                || has_phi@.contains(worklist@[r]),
                        forall|x: IrLabel, f: IrLabel|
                            (d@.contains(x) || has_phi@.contains(x)) && !worklist@.contains(x) && x != blk
                                && #[trigger] entry_of(fr@, x).contains(f) ==> has_phi@.contains(f),
                        forall|r: int| 0 <= r < q ==> has_phi@.contains(#[trigger] front[r]),
                        forall|r: int| hp0.len() <= r < has_phi@.len() ==> worklist@.contains(#[trigger] has_phi@[r]),
                        hp0.len() < has_phi@.len() || worklist@ == wl0.drop_last(),
                        block_insts(cfg.blocks@) == with_phi(before, labs, has_phi@.to_set(), v),
                    decreases front.len() - q,
                {
                    let f = fr[e].1[q];
                    assert(f == front[q as int]);
                    let ghost hps = has_phi@;
                    let ghost wls = worklist@;
                    if !contains_label(&has_phi, f) {
                        let ghost hp1 = has_phi@;
                        let ghost cur = block_insts(cfg.blocks@);
                        proof {
                            assert(entry_of(fr@, blk).contains(f));
                            lemma_entry_of_in(fr@, blk, f);
                            // `f` is reached by one more frontier step
                            if defines(bs0, v, blk) {
                                let p = seq![blk, f];
                                assert forall|i: int| 0 <= i < p.len() - 1 implies entry_of(fr@, #[trigger] p[i]).contains(
                                    p[i + 1],
                                ) by {
                                    assert(p[0] == blk && p[1] == f);
                                }
                                assert(frontier_path(fr@, bs0, v, p));
                                assert(p.last() == f);
                            } else {
                                let r = choose|r: int| 0 <= r < hp0.len() && hp0[r] == blk;
                                assert(has_phi@[r] == blk);
                                assert(in_idf(fr@, bs0, v, blk));
                                let p = choose|p: Seq<IrLabel>| #[trigger] frontier_path(fr@, bs0, v, p) && p.last() == blk;
                                lemma_path_extend(fr@, bs0, v, p, f);
                                assert(p.push(f).last() == f);
                            }
                        }
                        has_phi.push(f);
                        proof {
                            assert(has_phi@ == hp1.push(f));
                            assert forall|x: IrLabel| has_phi@.to_set().contains(x) <==> hp1.to_set().insert(f).contains(x) by {
                                if x == f {
                                    assert(has_phi@[hp1.len() as int] == f);
                                }
                                if hp1.contains(x) {
                                    let w = choose|w: int| 0 <= w < hp1.len() && hp1[w] == x;
                                    assert(has_phi@[w] == x);
                                }
                                if has_phi@.contains(x) {
                                    let w = choose|w: int| 0 <= w < has_phi@.len() && has_phi@[w] == x;
                                    if w < hp1.len() {
                                        assert(hp1[w] == x);
                                    }
                                }
                            }
                            assert(has_phi@.to_set() =~= hp1.to_set().insert(f));
                        }
                        match find_label(&cfg.blocks, f) {
                            Some(bi) => {
                                let ghost pre = cfg.blocks@;
                                let mut b = take_block(&mut cfg.blocks, bi);
                                let ghost mid = cfg.blocks@;
                                let ghost old_b = b;
                                b.instructions.insert(0, IrInst::Phi { dst: v, incoming: Vec::new() });
                                cfg.blocks.set(bi, b);
                                proof {
                                    assert(sinsts(b.instructions@) =~= seq![phi_of(v)] + sinsts(old_b.instructions@));
                                    assert(cur[bi as int] == sinsts(old_b.instructions@));
                                    assert(labels(cfg.blocks@) =~= labs) by {
                                        assert forall|i: int| 0 <= i < labs.len() implies labels(cfg.blocks@)[i] == labs[i] by {
                                            if i != bi {
                                                assert(mid[i] == pre[i]);
                                                assert(cfg.blocks@[i] == pre[i]);
                                            }
                                        }
                                    }
                                    assert(same_shape(cfg.blocks@, bs0)) by {
                                        assert forall|i: int| 0 <= i < bs0.len() implies (#[trigger] cfg.blocks@[i]).label == bs0[i].label
                                            && cfg.blocks@[i].predecessors == bs0[i].predecessors
                                            && cfg.blocks@[i].successors == bs0[i].successors by {
                                            if i != bi {
                                                assert(mid[i] == pre[i]);
                                                assert(cfg.blocks@[i] == pre[i]);
                                            }
                                        }
                                    }
                                    lemma_label_index(labs, f);
                                    assert(labs[bi as int] == f);
                                    assert(block_insts(cfg.blocks@) =~= with_phi(before, labs, has_phi@.to_set(), v)) by {
                                        assert forall|i: int| 0 <= i < before.len() implies block_insts(cfg.blocks@)[i]
                                            == #[trigger] with_phi(before, labs, has_phi@.to_set(), v)[i] by {
                                            if i != bi {
                                                assert(mid[i] == pre[i]);
                                                assert(cfg.blocks@[i] == pre[i]);
                                                assert(cur[i] == with_phi(before, labs, hp1.to_set(), v)[i]);
                                                if labs[i] == f {
                                                    assert(label_index(labs, labs[i]) != i);
                                                } else {
                                                    assert(has_phi@.to_set().contains(labs[i]) == hp1.to_set().contains(labs[i]));
                                                }
                                            } else {
                                                assert(cur[i] == with_phi(before, labs, hp1.to_set(), v)[i]);
                                                assert(!hp1.to_set().contains(f));
                                            }
                                        }
                                    }
                                }
                            },
                            None => {
                                proof {
                                    lemma_label_index(labs, f);
                                    assert(block_insts(cfg.blocks@) =~= with_phi(before, labs, has_phi@.to_set(), v)) by {
                                        assert forall|i: int| 0 <= i < before.len() implies block_insts(cfg.blocks@)[i]
                                            == #[trigger] with_phi(before, labs, has_phi@.to_set(), v)[i] by {
                                            assert(labs[i] != f);
                                        }
                                    }
                                }
                            },
                        }
                        let ghost wlb = worklist@;
                        worklist.push(f);
                        proof {
                            assert(has_phi@[hp1.len() as int] == f);
                            assert forall|r: int| 0 <= r < worklist@.len() implies defines(bs0, v, #[trigger] worklist@[r])
                                || has_phi@.contains(worklist@[r]) by {
                                if r < wlb.len() {
                                    assert(worklist@[r] == wlb[r]);
                                    if hp1.contains(wlb[r]) {
                                        let w = choose|w: int| 0 <= w < hp1.len() && hp1[w] == wlb[r];
                                        assert(has_phi@[w] == wlb[r]);
                                    }
                                } else {
                                    assert(worklist@[r] == f);
                                }
                            }
                        }
                    }
                    proof {
                        if has_phi@ != hps {
                            assert(has_phi@ == hps.push(f) && worklist@ == wls.push(f));
                            assert forall|y: IrLabel| hps.contains(y) implies has_phi@.contains(y) by {
                                lemma_push_contains(hps, f, y);
                            }
                            assert forall|y: IrLabel| worklist@.contains(y) implies wls.contains(y) || y == f by {
                                lemma_push_contains(wls, f, y);
                            }
                            assert forall|y: IrLabel| has_phi@.contains(y) implies hps.contains(y) || y == f by {
                                lemma_push_contains(hps, f, y);
                            }
                            lemma_push_contains(hps, f, f);
                            lemma_push_contains(wls, f, f);
                            assert forall|x: IrLabel, f2: IrLabel|
                                (d@.contains(x) || has_phi@.contains(x)) && !worklist@.contains(x) && x != blk
                                    && #[trigger] entry_of(fr@, x).contains(f2) implies has_phi@.contains(f2) by {
                                lemma_push_contains(hps, f, x);
                                lemma_push_contains(wls, f, x);
                                lemma_push_contains(hps, f, f2);
                            }
                            assert forall|r: int| hp0.len() <= r < has_phi@.len() implies worklist@.contains(
                                #[trigger] has_phi@[r],
                            ) by {
                                if r < hps.len() {
                                    assert(has_phi@[r] == hps[r]);
                                    lemma_push_contains(wls, f, hps[r]);
                                } else {
                                    assert(has_phi@[r] == f);
                                }
                            }
                        }
                    }
                    q = q + 1;
                }
            },
            None => {
                proof {
                    assert(entry_of(fr@, blk) =~= Seq::<IrLabel>::empty());
                }
            },
        }
        proof {
            has_phi@.unique_seq_to_set();
            vstd::set_lib::lemma_len_subset(has_phi@.to_set(), univ);
        }
    }
    proof {
        let idf = Set::new(|f: IrLabel| in_idf(fr@, bs0, v, f));
        assert forall|x: IrLabel, f: IrLabel|
            (defines(bs0, v, x) || has_phi@.to_set().contains(x)) && #[trigger] entry_of(fr@, x).contains(f) implies has_phi@.to_set().contains(
            f,
        ) by {
            assert(!worklist@.contains(x));
        }
        assert forall|f: IrLabel| idf.contains(f) <==> has_phi@.to_set().contains(f) by {
            if idf.contains(f) {
                let p = choose|p: Seq<IrLabel>| #[trigger] frontier_path(fr@, bs0, v, p) && p.last() == f;
                lemma_closed_holds_paths(fr@, bs0, v, has_phi@.to_set(), p);
            }
            if has_phi@.to_set().contains(f) {
                let r = choose|r: int| 0 <= r < has_phi@.len() && has_phi@[r] == f;
                assert(in_idf(fr@, bs0, v, has_phi@[r]));
            }
        }
        assert(idf =~= has_phi@.to_set());
    }
}

proof fn lemma_push_contains<A>(s: Seq<A>, a: A, x: A)
    ensures
        s.push(a).contains(x) <==> (s.contains(x) || x == a),
{
    if s.contains(x) {
        let w = choose|w: int| 0 <= w < s.len() && s[w] == x;
        assert(s.push(a)[w] == x);
    }
    if x == a {
        assert(s.push(a)[s.len() as int] == a);
    }
    if s.push(a).contains(x) {
        let w = choose|w: int| 0 <= w < s.push(a).len() && s.push(a)[w] == x;
        if w < s.len() {
            assert(s[w] == x);
        }
    }
}

fn contains_label(v: &Vec<IrLabel>, x: IrLabel) -> (r: bool)
    ensures
        r == v@.contains(x),
{
    let mut i: usize = 0;
    while i < v.len()
        invariant
            i <= v@.len(),
            forall|j: int| 0 <= j < i ==> v@[j] != x,
        decreases v@.len() - i,
    {
        if v[i] == x {
            return true;
        }
        i = i + 1;
    }
    false
}

/// Gives every written variable its phi nodes (see `phis_placed`).
fn place_phis(cfg: &mut ControlFlowGraph, fr: &Vec<(IrLabel, Vec<IrLabel>)>)
    ensures
        same_shape(final(cfg).blocks@, old(cfg).blocks@),
        final(cfg).entry_label == old(cfg).entry_label,
        block_insts(final(cfg).blocks@) == phis_placed(old(cfg).blocks@, fr@),
{
    let ghost bs0 = cfg.blocks@;
    let order = def_order_exec(&cfg.blocks);
    let mut writers: Vec<Vec<IrLabel>> = Vec::new();
    let mut j: usize = 0;
    while j < order.len()
        invariant
            j <= order@.len(),
            bs0 == cfg.blocks@,
            writers@.len() == j,
            forall|q: int, k: int|
                0 <= q < j && 0 <= k < writers@[q]@.len() ==> defines(bs0, order@[q], #[trigger] writers@[q]@[k]),
            forall|q: int, l: IrLabel| 0 <= q < j && defines(bs0, order@[q], l) ==> #[trigger] writers@[q]@.contains(l),
        decreases order@.len() - j,
    {
        let w = def_labels(&cfg.blocks, order[j]);
        writers.push(w);
        j = j + 1;
    }
    proof {
        assert forall|i: int| 0 <= i < bs0.len() implies (#[trigger] bs0[i]).label == bs0[i].label
            && bs0[i].predecessors == bs0[i].predecessors && bs0[i].successors == bs0[i].successors by {}
        assert(block_insts(bs0) =~= Seq::new(
            bs0.len(),
            |i: int| phis_for(order@, 0, fr@, bs0, i) + sinsts(bs0[i].instructions@),
        )) by {
            assert forall|i: int| 0 <= i < bs0.len() implies block_insts(bs0)[i] =~= phis_for(order@, 0, fr@, bs0, i)
                + sinsts(bs0[i].instructions@) by {}
        }
    }
    let mut j: usize = 0;
    while j < order.len()
        invariant
            j <= order@.len(),
            order@ == def_order(bs0, bs0.len() as int),
            writers@.len() == order@.len(),
            forall|q: int, k: int|
                0 <= q < order@.len() && 0 <= k < writers@[q]@.len() ==> defines(
                    bs0,
                    order@[q],
                    #[trigger] writers@[q]@[k],
                ),
            forall|q: int, l: IrLabel|
                0 <= q < order@.len() && defines(bs0, order@[q], l) ==> #[trigger] writers@[q]@.contains(l),
            same_shape(cfg.blocks@, bs0),
            cfg.entry_label == old(cfg).entry_label,
            bs0 == old(cfg).blocks@,
            block_insts(cfg.blocks@) == Seq::new(
                bs0.len(),
                |i: int| phis_for(order@, j as int, fr@, bs0, i) + sinsts(bs0[i].instructions@),
            ),
        decreases order@.len() - j,
    {
        let ghost prev = block_insts(cfg.blocks@);
        let v = order[j];
        proof {
            assert forall|k: int| 0 <= k < writers@[j as int]@.len() implies defines(bs0, v, #[trigger] writers@[j as int]@[k]) by {}
            assert forall|l: IrLabel| defines(bs0, v, l) implies writers@[j as int]@.contains(l) by {}
        }
        place_phis_for(cfg, fr, v, &writers[j], Ghost(bs0));
        proof {
            let labs = labels(bs0);
            let idf = Set::new(|f: IrLabel| in_idf(fr@, bs0, v, f));
            assert forall|i: int| 0 <= i < bs0.len() implies #[trigger] block_insts(cfg.blocks@)[i] =~= phis_for(
                order@,
                j + 1,
                fr@,
                bs0,
                i,
            ) + sinsts(bs0[i].instructions@) by {
                assert(labs[i] == bs0[i].label);
                assert(block_insts(cfg.blocks@)[i] == with_phi(prev, labs, idf, v)[i]);
                if label_index(labs, labs[i]) == i && idf.contains(labs[i]) {
                    assert(seq![phi_of(v)] + (phis_for(order@, j as int, fr@, bs0, i) + sinsts(bs0[i].instructions@))
                        =~= (seq![phi_of(v)] + phis_for(order@, j as int, fr@, bs0, i)) + sinsts(bs0[i].instructions@));
                }
            }
            assert(block_insts(cfg.blocks@) =~= Seq::new(
                bs0.len(),
                |i: int| phis_for(order@, j + 1, fr@, bs0, i) + sinsts(bs0[i].instructions@),
            ));
        }
        j = j + 1;
    }
}

// ---------------------------------------------------------------------------
// Renaming.
/// `v` as renamed by `n`: the variable of the write it sees, or itself.
pub open spec fn rn(n: Map<IrVar, IrVar>, v: IrVar) -> IrVar {
    if n.dom().contains(v) {
        n[v]
    } else {
        v
    }
}

/// Each of `vs` renamed.
pub open spec fn rn_all(n: Map<IrVar, IrVar>, vs: Seq<IrVar>) -> Seq<IrVar> {
    vs.map_values(|v: IrVar| rn(n, v))
}

/// An instruction with its reads renamed: the operands of moves, operators,
/// table reads and writes, global and upvalue writes, calls, returns,
/// conditional jumps and loop headers; nothing else.
pub open spec fn rename_uses(i: SsaInst, n: Map<IrVar, IrVar>) -> SsaInst {
    match i {
        SsaInst::Call { dsts, callee, args, retc } => SsaInst::Call {
            dsts,
            callee: rn(n, callee),
            args: rn_all(n, args),
            retc,
        },
        SsaInst::Return(vs) => SsaInst::Return(rn_all(n, vs)),
        SsaInst::Phi { .. } => i,
        SsaInst::Other(x) => SsaInst::Other(
            match x {
                IrInst::Move { dst, src } => IrInst::Move { dst, src: rn(n, src) },
                IrInst::UnOp { dst, op, src } => IrInst::UnOp { dst, op, src: rn(n, src) },
                IrInst::AppendArray { table, src } => IrInst::AppendArray { table, src: rn(n, src) },
                IrInst::BinOp { dst, op, lhs, rhs } => IrInst::BinOp { dst, op, lhs: rn(n, lhs), rhs: rn(n, rhs) },
                IrInst::GetTable { dst, table, key } => IrInst::GetTable { dst, table: rn(n, table), key: rn(n, key) },
                IrInst::SetTable { table, key, val } => IrInst::SetTable {
                    table: rn(n, table),
                    key: rn(n, key),
                    val: rn(n, val),
                },
                IrInst::SetGlobal { name, src } => IrInst::SetGlobal { name, src: rn(n, src) },
                IrInst::SetUpval { index, src } => IrInst::SetUpval { index, src: rn(n, src) },
                IrInst::JumpIfFalse { cond, target } => IrInst::JumpIfFalse { cond: rn(n, cond), target },
                IrInst::ForPrep { base, limit, step, loop_var, jump } => IrInst::ForPrep {
                    base: rn(n, base),
                    limit: rn(n, limit),
                    step: rn(n, step),
                    loop_var,
                    jump,
                },
                IrInst::ForLoop { base, jump } => IrInst::ForLoop { base: rn(n, base), jump },
                IrInst::TForLoop { base, jump } => IrInst::TForLoop { base: rn(n, base), jump },
                IrInst::TForCall { base, state, ctrl, vars } => IrInst::TForCall {
                    base: rn(n, base),
                    state: rn(n, state),
                    ctrl: rn(n, ctrl),
                    vars,
                },
                _ => x,
            },
        ),
    }
}

/// The single variable a model writes.
pub open spec fn sdef(i: SsaInst) -> Option<IrVar> {
    match i {
        SsaInst::Phi { dst, .. } => Some(dst),
        SsaInst::Call { dsts, .. } => if dsts.len() > 0 {
            Some(dsts[0])
        } else {
            None
        },
        SsaInst::Return(_) => None,
        SsaInst::Other(x) => inst_def_var(x),
    }
}

/// A model writing `d` in place of its single written variable.
pub open spec fn set_def(i: SsaInst, d: IrVar) -> SsaInst {
    match i {
        SsaInst::Phi { incoming, .. } => SsaInst::Phi { dst: d, incoming },
        SsaInst::Call { dsts, callee, args, retc } => if dsts.len() > 0 {
            SsaInst::Call { dsts: dsts.update(0, d), callee, args, retc }
        } else {
            i
        },
        SsaInst::Return(_) => i,
        SsaInst::Other(x) => SsaInst::Other(
            match x {
                IrInst::LoadConst { val, .. } => IrInst::LoadConst { dst: d, val },
                IrInst::LoadNil { .. } => IrInst::LoadNil { dst: d },
                IrInst::Move { src, .. } => IrInst::Move { dst: d, src },
                IrInst::BinOp { op, lhs, rhs, .. } => IrInst::BinOp { dst: d, op, lhs, rhs },
                IrInst::UnOp { op, src, .. } => IrInst::UnOp { dst: d, op, src },
                IrInst::NewTable { .. } => IrInst::NewTable { dst: d },
                IrInst::GetTable { table, key, .. } => IrInst::GetTable { dst: d, table, key },
                IrInst::GetImport { module, field, .. } => IrInst::GetImport { dst: d, module, field },
                IrInst::GetGlobal { name, .. } => IrInst::GetGlobal { dst: d, name },
                IrInst::GetUpval { index, .. } => IrInst::GetUpval { dst: d, index },
                IrInst::Closure { proto_idx, captures, .. } => IrInst::Closure { dst: d, proto_idx, captures },
                IrInst::Vararg { count, .. } => IrInst::Vararg { dst: d, count },
                _ => x,
            },
        ),
    }
}

/// One instruction renamed with names `n` and next fresh number `c`: a phi
/// writes a fresh variable; any other instruction has its reads renamed,
/// then writes a fresh variable if it writes one. Gives the instruction,
/// the names after it, the next fresh number, and the fresh variable used.
pub open spec fn rename_step(i: SsaInst, n: Map<IrVar, IrVar>, c: int) -> (SsaInst, Map<IrVar, IrVar>, int, Option<IrVar>) {
    let fresh = IrVar(c as u32);
    match i {
        SsaInst::Phi { dst, incoming } => (SsaInst::Phi { dst: fresh, incoming }, n.insert(dst, fresh), c + 1, Some(fresh)),
        _ => {
            let u = rename_uses(i, n);
            match sdef(u) {
                Some(d) => (set_def(u, fresh), n.insert(d, fresh), c + 1, Some(fresh)),
                None => (u, n, c, None),
            }
        },
    }
}

/// The first `k` of `s` renamed in turn; the last item is the last fresh
/// variable used, if any.
pub open spec fn rename_insts(s: Seq<SsaInst>, k: int, n: Map<IrVar, IrVar>, c: int) -> (
    Seq<SsaInst>,
    Map<IrVar, IrVar>,
    int,
    Option<IrVar>,
)
    decreases k,
{
    if k <= 0 {
        (Seq::empty(), n, c, None)
    } else {
        let (o, n1, c1, l1) = rename_insts(s, k - 1, n, c);
        let (i2, n2, c2, l2) = rename_step(s[k - 1], n1, c1);
        (
            o.push(i2),
            n2,
            c2,
            if l2 is Some {
                l2
            } else {
                l1
            },
        )
    }
}

/// A phi node given the input `(from, v)`; other models unchanged.
pub open spec fn add_input(i: SsaInst, from: IrLabel, v: IrVar) -> SsaInst {
    match i {
        SsaInst::Phi { dst, incoming } => SsaInst::Phi { dst, incoming: incoming.push((from, v)) },
        _ => i,
    }
}

/// The blocks once the first blocks labelled by the first `k` of `succs`
/// have each of their phi nodes given the input `(from, v)`.
pub open spec fn fill_succs(st: Seq<Seq<SsaInst>>, labs: Seq<IrLabel>, succs: Seq<IrLabel>, k: int, from: IrLabel, v: IrVar) -> Seq<
    Seq<SsaInst>,
>
    decreases k,
{
    if k <= 0 {
        st
    } else {
        let st1 = fill_succs(st, labs, succs, k - 1, from, v);
        let bi = label_index(labs, succs[k - 1]);
        if bi >= 0 {
            st1.update(bi, st1[bi].map_values(|i: SsaInst| add_input(i, from, v)))
        } else {
            st1
        }
    }
}

/// Whether `rank` decreases from each label to the labels the first entry
/// for it lists: the children lists form no cycle.
pub open spec fn ranked(kids: Seq<(IrLabel, Vec<IrLabel>)>, rank: spec_fn(IrLabel) -> nat) -> bool {
    forall|l: IrLabel, j: int| 0 <= j < entry_of(kids, l).len() ==> rank(#[trigger] entry_of(kids, l)[j]) < rank(l)
}

/// Whether the children lists form no cycle.
pub open spec fn acyclic(kids: Seq<(IrLabel, Vec<IrLabel>)>) -> bool {
    exists|rank: spec_fn(IrLabel) -> nat| ranked(kids, rank)
}

/// A rank that decreases from parent to child, when there is one.
pub open spec fn kid_rank(kids: Seq<(IrLabel, Vec<IrLabel>)>) -> spec_fn(IrLabel) -> nat {
    choose|rank: spec_fn(IrLabel) -> nat| ranked(kids, rank)
}

/// The renaming walk at block `l`, from blocks and next fresh number `st`
/// and names `n`: the first block labelled `l` has its instructions renamed;
/// if it used a fresh variable, the phi nodes of its successors get the
/// input (`l`, the last fresh variable it used); then each child of `l` in
/// the dominator tree is walked in turn with the names as they stand after
/// the block.
pub open spec fn visit(
    l: IrLabel,
    st: (Seq<Seq<SsaInst>>, int),
    n: Map<IrVar, IrVar>,
    labs: Seq<IrLabel>,
    succs: Seq<Seq<IrLabel>>,
    kids: Seq<(IrLabel, Vec<IrLabel>)>,
    rank: spec_fn(IrLabel) -> nat,
) -> (Seq<Seq<SsaInst>>, int)
    decreases rank(l), entry_of(kids, l).len() + 1,
{
    let bi = label_index(labs, l);
    if bi >= 0 {
        let (s2, n2, c2, last) = rename_insts(st.0[bi], st.0[bi].len() as int, n, st.1);
        let b1 = st.0.update(bi, s2);
        let b2 = match last {
            Some(v) => fill_succs(b1, labs, succs[bi], succs[bi].len() as int, l, v),
            None => b1,
        };
        visit_kids(l, entry_of(kids, l).len() as int, (b2, c2), n2, labs, succs, kids, rank)
    } else {
        visit_kids(l, entry_of(kids, l).len() as int, st, n, labs, succs, kids, rank)
    }
}

/// The walk over the first `k` children of `l`, each with names `n`.
pub open spec fn visit_kids(
    l: IrLabel,
    k: int,
    st: (Seq<Seq<SsaInst>>, int),
    n: Map<IrVar, IrVar>,
    labs: Seq<IrLabel>,
    succs: Seq<Seq<IrLabel>>,
    kids: Seq<(IrLabel, Vec<IrLabel>)>,
    rank: spec_fn(IrLabel) -> nat,
) -> (Seq<Seq<SsaInst>>, int)
    decreases rank(l), k,
{
    if k <= 0 {
        st
    } else {
        let st1 = visit_kids(l, k - 1, st, n, labs, succs, kids, rank);
        let c = entry_of(kids, l)[k - 1];
        if rank(c) < rank(l) {
            visit(c, st1, n, labs, succs, kids, rank)
        } else {
            st1
        }
    }
}

/// What SSA construction makes of blocks `bs` with entry `entry` and
/// dominator tree `dom`: the blocks' instructions and the next fresh number.
pub open spec fn ssa_built(bs: Seq<BasicBlock>, entry: IrLabel, dom: DominatorTree) -> (Seq<Seq<SsaInst>>, int) {
    visit(
        entry,
        (phis_placed(bs, dom.frontiers@), var_max_blocks(bs, bs.len() as int) + 1),
        Map::empty(),
        labels(bs),
        succ_lists(bs),
        dom.children@,
        kid_rank(dom.children@),
    )
}

proof fn lemma_step_mono(i: SsaInst, n: Map<IrVar, IrVar>, c: int)
    ensures
        rename_step(i, n, c).2 >= c,
{
}

proof fn lemma_insts_mono(s: Seq<SsaInst>, k: int, k2: int, n: Map<IrVar, IrVar>, c: int)
    requires
        k <= k2,
    ensures
        rename_insts(s, k, n, c).2 <= rename_insts(s, k2, n, c).2,
        rename_insts(s, k, n, c).2 >= c,
    decreases k2,
{
    if k2 > 0 && k < k2 {
        lemma_insts_mono(s, k, k2 - 1, n, c);
        let r = rename_insts(s, k2 - 1, n, c);
        lemma_step_mono(s[k2 - 1], r.1, r.2);
    }
    if k > 0 {
        lemma_insts_mono(s, k - 1, k - 1, n, c);
        let r = rename_insts(s, k - 1, n, c);
        lemma_step_mono(s[k - 1], r.1, r.2);
    }
}

proof fn lemma_visit_mono(
    l: IrLabel,
    st: (Seq<Seq<SsaInst>>, int),
    n: Map<IrVar, IrVar>,
    labs: Seq<IrLabel>,
    succs: Seq<Seq<IrLabel>>,
    kids: Seq<(IrLabel, Vec<IrLabel>)>,
    rank: spec_fn(IrLabel) -> nat,
)
    ensures
        visit(l, st, n, labs, succs, kids, rank).1 >= st.1,
    decreases rank(l), entry_of(kids, l).len() + 1,
{
    let bi = label_index(labs, l);
    let len = entry_of(kids, l).len() as int;
    if bi >= 0 {
        let (s2, n2, c2, last) = rename_insts(st.0[bi], st.0[bi].len() as int, n, st.1);
        lemma_insts_mono(st.0[bi], st.0[bi].len() as int, st.0[bi].len() as int, n, st.1);
        let b1 = st.0.update(bi, s2);
        let b2 = match last {
            Some(v) => fill_succs(b1, labs, succs[bi], succs[bi].len() as int, l, v),
            None => b1,
        };
        lemma_kids_mono(l, len, len, (b2, c2), n2, labs, succs, kids, rank);
    } else {
        lemma_kids_mono(l, len, len, st, n, labs, succs, kids, rank);
    }
}

proof fn lemma_kids_mono(
    l: IrLabel,
    k: int,
    k2: int,
    st: (Seq<Seq<SsaInst>>, int),
    n: Map<IrVar, IrVar>,
    labs: Seq<IrLabel>,
    succs: Seq<Seq<IrLabel>>,
    kids: Seq<(IrLabel, Vec<IrLabel>)>,
    rank: spec_fn(IrLabel) -> nat,
)
    requires
        k <= k2,
    ensures
        visit_kids(l, k, st, n, labs, succs, kids, rank).1 >= st.1,
        visit_kids(l, k, st, n, labs, succs, kids, rank).1 <= visit_kids(l, k2, st, n, labs, succs, kids, rank).1,
    decreases rank(l), k2,
{
    if k2 > 0 {
        let st1 = visit_kids(l, k2 - 1, st, n, labs, succs, kids, rank);
        let c = entry_of(kids, l)[k2 - 1];
        lemma_kids_mono(l, if k < k2 { k } else { k2 - 1 }, k2 - 1, st, n, labs, succs, kids, rank);
        if rank(c) < rank(l) {
            lemma_visit_mono(c, st1, n, labs, succs, kids, rank);
        }
        if k == k2 {
            lemma_kids_mono(l, k2 - 1, k2 - 1, st, n, labs, succs, kids, rank);
        }
    }
}

fn rn_exec(names: &Vec<(IrVar, IrVar)>, v: IrVar, Ghost(m): Ghost<Map<IrVar, IrVar>>) -> (r: IrVar)
    requires
        vars_hold(names@, m),
    ensures
        r == rn(m, v),
{
    match var_index(names, v) {
        Some(i) => names[i].1,
        None => {
            proof {
                if m.dom().contains(v) {
                    let q = choose|q: int| 0 <= q < names@.len() && names@[q].0 == v;
                }
            }
            v
        },
    }
}

fn rn_vec(names: &Vec<(IrVar, IrVar)>, vs: &Vec<IrVar>, Ghost(m): Ghost<Map<IrVar, IrVar>>) -> (r: Vec<IrVar>)
    requires
        vars_hold(names@, m),
    ensures
        r@ == rn_all(m, vs@),
{
    let mut r: Vec<IrVar> = Vec::new();
    let mut i: usize = 0;
    while i < vs.len()
        invariant
            i <= vs@.len(),
            vars_hold(names@, m),
            r@.len() == i,
            forall|q: int| 0 <= q < i ==> r@[q] == rn(m, #[trigger] vs@[q]),
        decreases vs@.len() - i,
    {
        let x = rn_exec(names, vs[i], Ghost(m));
        r.push(x);
        i = i + 1;
    }
    assert(r@ =~= rn_all(m, vs@));
    r
}

fn copy_pairs(v: &Vec<(IrVar, IrVar)>) -> (r: Vec<(IrVar, IrVar)>)
    ensures
        r@ == v@,
{
    let mut r: Vec<(IrVar, IrVar)> = Vec::new();
    let mut i: usize = 0;
    while i < v.len()
        invariant
            i <= v@.len(),
            r@ == v@.take(i as int),
        decreases v@.len() - i,
    {
        r.push(v[i]);
        proof {
            assert(v@.take(i + 1) =~= v@.take(i as int).push(v@[i as int]));
        }
        i = i + 1;
    }
    assert(v@.take(v@.len() as int) =~= v@);
    r
}

/// A fresh variable for a write of `d`, recorded as `d`'s current name.
fn fresh_for(names: &mut Vec<(IrVar, IrVar)>, ctx: &mut SsaContext, d: IrVar, Ghost(m): Ghost<Map<IrVar, IrVar>>) -> (f: IrVar)
    requires
        vars_hold(old(names)@, m),
        old(ctx).next() < u32::MAX,
    ensures
        f == IrVar(old(ctx).next() as u32),
        final(ctx).next() == old(ctx).next() + 1,
        vars_hold(final(names)@, m.insert(d, f)),
{
    let f = ctx.fresh_var();
    let _ = var_put(names, d, f, Ghost(m));
    f
}

/// One instruction renamed (see `rename_step`), with the fresh variable it
/// used.
fn rename_one(inst: IrInst, names: &mut Vec<(IrVar, IrVar)>, ctx: &mut SsaContext, Ghost(m): Ghost<Map<IrVar, IrVar>>) -> (r: (
    IrInst,
    Option<IrVar>,
))
    requires
        vars_hold(old(names)@, m),
        rename_step(sinst(inst), m, old(ctx).next() as int).2 <= u32::MAX,
    ensures
        ({
            let (i2, m2, c2, l2) = rename_step(sinst(inst), m, old(ctx).next() as int);
            &&& sinst(r.0) == i2
            &&& vars_hold(final(names)@, m2)
            &&& final(ctx).next() == c2
            &&& r.1 == l2
        }),
{
    match inst {
        IrInst::Phi { dst, incoming } => {
            let f = fresh_for(names, ctx, dst, Ghost(m));
            (IrInst::Phi { dst: f, incoming }, Some(f))
        },
        IrInst::Call { dsts, callee, args, retc } => {
            let callee2 = rn_exec(names, callee, Ghost(m));
            let args2 = rn_vec(names, &args, Ghost(m));
            if dsts.len() > 0 {
                let d = dsts[0];
                let mut dsts2 = dsts;
                let f = fresh_for(names, ctx, d, Ghost(m));
                dsts2.set(0, f);
                (IrInst::Call { dsts: dsts2, callee: callee2, args: args2, retc }, Some(f))
            } else {
                (IrInst::Call { dsts, callee: callee2, args: args2, retc }, None)
            }
        },
        IrInst::Return(vs) => {
            let vs2 = rn_vec(names, &vs, Ghost(m));
            (IrInst::Return(vs2), None)
        },
        IrInst::Move { dst, src } => {
            let s = rn_exec(names, src, Ghost(m));
            let f = fresh_for(names, ctx, dst, Ghost(m));
            (IrInst::Move { dst: f, src: s }, Some(f))
        },
        IrInst::UnOp { dst, op, src } => {
            let s = rn_exec(names, src, Ghost(m));
            let f = fresh_for(names, ctx, dst, Ghost(m));
            (IrInst::UnOp { dst: f, op, src: s }, Some(f))
        },
        IrInst::BinOp { dst, op, lhs, rhs } => {
            let a = rn_exec(names, lhs, Ghost(m));
            let b = rn_exec(names, rhs, Ghost(m));
            let f = fresh_for(names, ctx, dst, Ghost(m));
            (IrInst::BinOp { dst: f, op, lhs: a, rhs: b }, Some(f))
        },
        IrInst::GetTable { dst, table, key } => {
            let t = rn_exec(names, table, Ghost(m));
            let k = rn_exec(names, key, Ghost(m));
            let f = fresh_for(names, ctx, dst, Ghost(m));
            (IrInst::GetTable { dst: f, table: t, key: k }, Some(f))
        },
        IrInst::AppendArray { table, src } => {
            let s = rn_exec(names, src, Ghost(m));
            (IrInst::AppendArray { table, src: s }, None)
        },
        IrInst::SetTable { table, key, val } => {
            let t = rn_exec(names, table, Ghost(m));
            let k = rn_exec(names, key, Ghost(m));
            let x = rn_exec(names, val, Ghost(m));
            (IrInst::SetTable { table: t, key: k, val: x }, None)
        },
        IrInst::SetGlobal { name, src } => {
            let s = rn_exec(names, src, Ghost(m));
            (IrInst::SetGlobal { name, src: s }, None)
        },
        IrInst::SetUpval { index, src } => {
            let s = rn_exec(names, src, Ghost(m));
            (IrInst::SetUpval { index, src: s }, None)
        },
        IrInst::JumpIfFalse { cond, target } => {
            let c = rn_exec(names, cond, Ghost(m));
            (IrInst::JumpIfFalse { cond: c, target }, None)
        },
        IrInst::ForPrep { base, limit, step, loop_var, jump } => {
            let b = rn_exec(names, base, Ghost(m));
            let li = rn_exec(names, limit, Ghost(m));
            let st = rn_exec(names, step, Ghost(m));
            (IrInst::ForPrep { base: b, limit: li, step: st, loop_var, jump }, None)
        },
        IrInst::ForLoop { base, jump } => {
            let b = rn_exec(names, base, Ghost(m));
            (IrInst::ForLoop { base: b, jump }, None)
        },
        IrInst::TForLoop { base, jump } => {
            let b = rn_exec(names, base, Ghost(m));
            (IrInst::TForLoop { base: b, jump }, None)
        },
        IrInst::TForCall { base, state, ctrl, vars } => {
            let b = rn_exec(names, base, Ghost(m));
            let st = rn_exec(names, state, Ghost(m));
            let c = rn_exec(names, ctrl, Ghost(m));
            (IrInst::TForCall { base: b, state: st, ctrl: c, vars }, None)
        },
        IrInst::LoadConst { dst, val } => {
            let f = fresh_for(names, ctx, dst, Ghost(m));
            (IrInst::LoadConst { dst: f, val }, Some(f))
        },
        IrInst::LoadNil { dst } => {
            let f = fresh_for(names, ctx, dst, Ghost(m));
            (IrInst::LoadNil { dst: f }, Some(f))
        },
        IrInst::NewTable { dst } => {
            let f = fresh_for(names, ctx, dst, Ghost(m));
            (IrInst::NewTable { dst: f }, Some(f))
        },
        IrInst::GetImport { dst, module, field } => {
            let f = fresh_for(names, ctx, dst, Ghost(m));
            (IrInst::GetImport { dst: f, module, field }, Some(f))
        },
        IrInst::GetGlobal { dst, name } => {
            let f = fresh_for(names, ctx, dst, Ghost(m));
            (IrInst::GetGlobal { dst: f, name }, Some(f))
        },
        IrInst::GetUpval { dst, index } => {
            let f = fresh_for(names, ctx, dst, Ghost(m));
            (IrInst::GetUpval { dst: f, index }, Some(f))
        },
        IrInst::Closure { dst, proto_idx, captures } => {
            let f = fresh_for(names, ctx, dst, Ghost(m));
            (IrInst::Closure { dst: f, proto_idx, captures }, Some(f))
        },
        IrInst::Vararg { dst, count } => {
            let f = fresh_for(names, ctx, dst, Ghost(m));
            (IrInst::Vararg { dst: f, count }, Some(f))
        },
        other => (other, None),
    }
}

/// Gives each phi node of block `bi` the input `(from, v)`.
fn add_inputs(cfg: &mut ControlFlowGraph, bi: usize, from: IrLabel, v: IrVar)
    requires
        bi < old(cfg).blocks@.len(),
    ensures
        same_shape(final(cfg).blocks@, old(cfg).blocks@),
        final(cfg).entry_label == old(cfg).entry_label,
        block_insts(final(cfg).blocks@) == block_insts(old(cfg).blocks@).update(
            bi as int,
            block_insts(old(cfg).blocks@)[bi as int].map_values(|i: SsaInst| add_input(i, from, v)),
        ),
{
    let ghost pre = cfg.blocks@;
    let mut b = take_block(&mut cfg.blocks, bi);
    let ghost mid = cfg.blocks@;
    let mut rest: Vec<IrInst> = Vec::new();
    std::mem::swap(&mut rest, &mut b.instructions);
    let ghost s0 = rest@;
    let total = rest.len();
    let mut out: Vec<IrInst> = Vec::new();
    let mut k: usize = 0;
    while k < total
        invariant
            total == s0.len(),
            k <= s0.len(),
            rest@ == s0.skip(k as int),
            rest@.len() == s0.len() - k,
            out@.len() == k,
            forall|q: int| 0 <= q < k ==> sinst(#[trigger] out@[q]) == add_input(sinst(s0[q]), from, v),
        decreases rest@.len(),
    {
        let inst = rest.remove(0);
        assert(inst == s0[k as int]);
        let r = match inst {
            IrInst::Phi { dst, incoming } => {
                let mut inc = incoming;
                inc.push((from, v));
                IrInst::Phi { dst, incoming: inc }
            },
            other => other,
        };
        out.push(r);
        assert(rest@ =~= s0.skip(k + 1));
        k = k + 1;
    }
    b.instructions = out;
    cfg.blocks.set(bi, b);
    proof {
        assert(sinsts(b.instructions@) =~= sinsts(s0).map_values(|i: SsaInst| add_input(i, from, v)));
        assert forall|i: int| 0 <= i < pre.len() && i != bi implies cfg.blocks@[i] == pre[i] by {
            assert(mid[i] == pre[i]);
        }
        assert(block_insts(cfg.blocks@) =~= block_insts(pre).update(
            bi as int,
            block_insts(pre)[bi as int].map_values(|i: SsaInst| add_input(i, from, v)),
        ));
    }
}

/// The renaming walk from block `l` (see `visit`), with current names
/// `names`.
fn rename_block(
    l: IrLabel,
    cfg: &mut ControlFlowGraph,
    dom: &DominatorTree,
    names: &Vec<(IrVar, IrVar)>,
    ctx: &mut SsaContext,
    Ghost(n): Ghost<Map<IrVar, IrVar>>,
    Ghost(labs): Ghost<Seq<IrLabel>>,
    Ghost(succs): Ghost<Seq<Seq<IrLabel>>>,
    Ghost(rank): Ghost<spec_fn(IrLabel) -> nat>,
)
    requires
        vars_hold(names@, n),
        ranked(dom.children@, rank),
        labels(old(cfg).blocks@) == labs,
        succ_lists(old(cfg).blocks@) == succs,
        visit(l, (block_insts(old(cfg).blocks@), old(ctx).next() as int), n, labs, succs, dom.children@, rank).1
            <= u32::MAX,
    ensures
        same_shape(final(cfg).blocks@, old(cfg).blocks@),
        final(cfg).entry_label == old(cfg).entry_label,
        (block_insts(final(cfg).blocks@), final(ctx).next() as int) == visit(
            l,
            (block_insts(old(cfg).blocks@), old(ctx).next() as int),
            n,
            labs,
            succs,
            dom.children@,
            rank,
        ),
    decreases rank(l),
{
    let ghost st0 = (block_insts(cfg.blocks@), ctx.next() as int);
    let ghost bs_in = cfg.blocks@;
    let ghost kids = dom.children@;
    let ghost kl = entry_of(kids, l);
    let ghost total = visit(l, st0, n, labs, succs, kids, rank).1;
    let mut n1 = copy_pairs(names);
    let ghost mut nm = n;
    let ghost mut st2 = st0;
    proof {
        assert(same_shape(bs_in, bs_in));
    }
    match find_label(&cfg.blocks, l) {
        Some(bi) => {
            let ghost s = st0.0[bi as int];
            let ghost full = rename_insts(s, s.len() as int, n, st0.1);
            let ghost b1 = st0.0.update(bi as int, full.0);
            let ghost b2 = match full.3 {
                Some(v) => fill_succs(b1, labs, succs[bi as int], succs[bi as int].len() as int, l, v),
                None => b1,
            };
            proof {
                lemma_kids_mono(l, kl.len() as int, kl.len() as int, (b2, full.2), full.1, labs, succs, kids, rank);
                assert(total == visit_kids(l, kl.len() as int, (b2, full.2), full.1, labs, succs, kids, rank).1);
            }
            let mut b = take_block(&mut cfg.blocks, bi);
            let ghost mid = cfg.blocks@;
            let mut rest: Vec<IrInst> = Vec::new();
            std::mem::swap(&mut rest, &mut b.instructions);
            let ghost orig = rest@;
            assert(sinsts(orig) == s);
            let mut out: Vec<IrInst> = Vec::new();
            let mut last: Option<IrVar> = None;
            let total_len = rest.len();
            let mut k: usize = 0;
            while k < total_len
                invariant
                    total_len == orig.len(),
                    k <= orig.len(),
                    rest@ == orig.skip(k as int),
                    rest@.len() == orig.len() - k,
                    sinsts(orig) == s,
                    full == rename_insts(s, s.len() as int, n, st0.1),
                    full.2 <= u32::MAX,
                    ({
                        let (o, m1, c1, l1) = rename_insts(s, k as int, n, st0.1);
                        &&& sinsts(out@) == o
                        &&& vars_hold(n1@, m1)
                        &&& ctx.next() == c1
                        &&& last == l1
                    }),
                decreases rest@.len(),
            {
                let inst = rest.remove(0);
                assert(sinst(inst) == s[k as int]);
                let ghost mk = rename_insts(s, k as int, n, st0.1).1;
                proof {
                    lemma_insts_mono(s, k + 1, s.len() as int, n, st0.1);
                }
                let ghost ob = out@;
                let (r, lo) = rename_one(inst, &mut n1, ctx, Ghost(mk));
                out.push(r);
                if lo.is_some() {
                    last = lo;
                }
                proof {
                    assert(sinsts(out@) =~= sinsts(ob).push(sinst(r)));
                }
                assert(rest@ =~= orig.skip(k + 1));
                k = k + 1;
            }
            proof {
                assert(k == s.len());
            }
            b.instructions = out;
            cfg.blocks.set(bi, b);
            proof {
                assert forall|i: int| 0 <= i < bs_in.len() && i != bi implies cfg.blocks@[i] == bs_in[i] by {
                    assert(mid[i] == bs_in[i]);
                }
                assert(block_insts(cfg.blocks@) =~= b1);
                assert(labels(cfg.blocks@) =~= labs);
                assert(succ_lists(cfg.blocks@) =~= succs);
            }
            match last {
                Some(v) => {
                    let mut q: usize = 0;
                    while q < cfg.blocks[bi].successors.len()
                        invariant
                            bi < bs_in.len(),
                            q <= succs[bi as int].len(),
                            cfg.blocks@.len() == bs_in.len(),
                            same_shape(cfg.blocks@, bs_in),
                            labels(cfg.blocks@) == labs,
                            succ_lists(cfg.blocks@) == succs,
                            cfg.entry_label == old(cfg).entry_label,
                            block_insts(cfg.blocks@) == fill_succs(b1, labs, succs[bi as int], q as int, l, v),
                        decreases succs[bi as int].len() - q,
                    {
                        assert(cfg.blocks@[bi as int].successors@ == succs[bi as int]);
                        let sl = cfg.blocks[bi].successors[q];
                        match find_label(&cfg.blocks, sl) {
                            Some(si) => {
                                let ghost pre = cfg.blocks@;
                                add_inputs(cfg, si, l, v);
                                proof {
                                    assert(labels(cfg.blocks@) =~= labs) by {
                                        assert forall|i: int| 0 <= i < labs.len() implies labels(cfg.blocks@)[i] == labs[i] by {
                                            assert(cfg.blocks@[i].label == pre[i].label);
                                        }
                                    }
                                    assert(succ_lists(cfg.blocks@) =~= succs) by {
                                        assert forall|i: int| 0 <= i < labs.len() implies succ_lists(cfg.blocks@)[i] == succs[i] by {
                                            assert(cfg.blocks@[i].successors == pre[i].successors);
                                        }
                                    }
                                    assert(same_shape(cfg.blocks@, bs_in)) by {
                                        assert forall|i: int| 0 <= i < bs_in.len() implies (#[trigger] cfg.blocks@[i]).label == bs_in[i].label
                                            && cfg.blocks@[i].predecessors == bs_in[i].predecessors
                                            && cfg.blocks@[i].successors == bs_in[i].successors by {
                                            assert(cfg.blocks@[i].label == pre[i].label);
                                        }
                                    }
                                }
                            },
                            None => {},
                        }
                        q = q + 1;
                    }
                },
                None => {},
            }
            proof {
                nm = full.1;
                st2 = (b2, full.2);
            }
        },
        None => {},
    }
    proof {
        assert(total == visit_kids(l, kl.len() as int, st2, nm, labs, succs, kids, rank).1);
        assert(same_shape(cfg.blocks@, bs_in));
    }
    match find_entry(&dom.children, l) {
        Some(ci) => {
            assert(kl == dom.children@[ci as int].1@);
            let mut k: usize = 0;
            while k < dom.children[ci].1.len()
                invariant
                    ci < dom.children@.len(),
                    kids == dom.children@,
                    kl == dom.children@[ci as int].1@,
                    kl == entry_of(kids, l),
                    k <= kl.len(),
                    ranked(kids, rank),
                    vars_hold(n1@, nm),
                    labels(cfg.blocks@) == labs,
                    succ_lists(cfg.blocks@) == succs,
                    same_shape(cfg.blocks@, bs_in),
                    cfg.entry_label == old(cfg).entry_label,
                    total == visit_kids(l, kl.len() as int, st2, nm, labs, succs, kids, rank).1,
                    total <= u32::MAX,
                    (block_insts(cfg.blocks@), ctx.next() as int) == visit_kids(l, k as int, st2, nm, labs, succs, kids, rank),
                decreases kl.len() - k,
            {
                let c = dom.children[ci].1[k];
                assert(c == kl[k as int]);
                assert(rank(entry_of(kids, l)[k as int]) < rank(l));
                proof {
                    lemma_kids_mono(l, k + 1, kl.len() as int, st2, nm, labs, succs, kids, rank);
                    assert(visit_kids(l, k + 1, st2, nm, labs, succs, kids, rank) == visit(
                        c,
                        visit_kids(l, k as int, st2, nm, labs, succs, kids, rank),
                        nm,
                        labs,
                        succs,
                        kids,
                        rank,
                    ));
                }
                let ghost pre = cfg.blocks@;
                rename_block(c, cfg, dom, &n1, ctx, Ghost(nm), Ghost(labs), Ghost(succs), Ghost(rank));
                proof {
                    assert(labels(cfg.blocks@) =~= labs) by {
                        assert forall|i: int| 0 <= i < labs.len() implies labels(cfg.blocks@)[i] == labs[i] by {
                            assert(cfg.blocks@[i].label == pre[i].label);
                        }
                    }
                    assert(succ_lists(cfg.blocks@) =~= succs) by {
                        assert forall|i: int| 0 <= i < labs.len() implies succ_lists(cfg.blocks@)[i] == succs[i] by {
                            assert(cfg.blocks@[i].successors == pre[i].successors);
                        }
                    }
                    assert(same_shape(cfg.blocks@, bs_in)) by {
                        assert forall|i: int| 0 <= i < bs_in.len() implies (#[trigger] cfg.blocks@[i]).label == bs_in[i].label
                            && cfg.blocks@[i].predecessors == bs_in[i].predecessors
                            && cfg.blocks@[i].successors == bs_in[i].successors by {
                            assert(cfg.blocks@[i].label == pre[i].label);
                        }
                    }
                }
                k = k + 1;
            }
        },
        None => {
            proof {
                assert(kl.len() == 0);
            }
        },
    }
}

/// Puts the blocks of `cfg` in static single assignment form (see
/// `ssa_built`): each variable gets a phi node at every block of the
/// iterated dominance frontier of the blocks that write it, then a walk
/// down the dominator tree from the entry gives every write a fresh
/// variable, numbered after every variable in use, and every read the
/// variable of the write it sees. Whether the dominator tree's children
/// lists are acyclic, as this requires, is decided by `children_acyclic`.
pub fn construct_ssa(cfg: &mut ControlFlowGraph, dom: &DominatorTree)
    requires
        acyclic(dom.children@),
        var_max_blocks(old(cfg).blocks@, old(cfg).blocks@.len() as int) < u32::MAX,
        ssa_built(old(cfg).blocks@, old(cfg).entry_label, *dom).1 <= u32::MAX,
    ensures
        same_shape(final(cfg).blocks@, old(cfg).blocks@),
        final(cfg).entry_label == old(cfg).entry_label,
        block_insts(final(cfg).blocks@) == ssa_built(old(cfg).blocks@, old(cfg).entry_label, *dom).0,
{
    let ghost bs0 = cfg.blocks@;
    let maxv = var_max_exec(&cfg.blocks);
    let mut ctx = SsaContext::new(maxv);
    place_phis(cfg, &dom.frontiers);
    let names: Vec<(IrVar, IrVar)> = Vec::new();
    let ghost rank = kid_rank(dom.children@);
    proof {
        assert(vars_hold(names@, Map::empty()));
        assert(labels(cfg.blocks@) =~= labels(bs0)) by {
            assert forall|i: int| 0 <= i < bs0.len() implies labels(cfg.blocks@)[i] == labels(bs0)[i] by {
                assert(cfg.blocks@[i].label == bs0[i].label);
            }
        }
        assert(succ_lists(cfg.blocks@) =~= succ_lists(bs0)) by {
            assert forall|i: int| 0 <= i < bs0.len() implies succ_lists(cfg.blocks@)[i] == succ_lists(bs0)[i] by {
                assert(cfg.blocks@[i].successors == bs0[i].successors);
            }
        }
    }
    let ghost pre = cfg.blocks@;
    rename_block(
        cfg.entry_label,
        cfg,
        dom,
        &names,
        &mut ctx,
        Ghost(Map::empty()),
        Ghost(labels(bs0)),
        Ghost(succ_lists(bs0)),
        Ghost(rank),
    );
    proof {
        assert(same_shape(cfg.blocks@, bs0)) by {
            assert forall|i: int| 0 <= i < bs0.len() implies (#[trigger] cfg.blocks@[i]).label == bs0[i].label
                && cfg.blocks@[i].predecessors == bs0[i].predecessors && cfg.blocks@[i].successors == bs0[i].successors by {
                assert(cfg.blocks@[i].label == pre[i].label);
            }
        }
    }
}

// ---------------------------------------------------------------------------
// What the well-formedness checks see.
/// Whether a model ends a block.
pub open spec fn s_term(i: SsaInst) -> bool {
    match i {
        SsaInst::Other(x) => inst_is_terminator(x),
        SsaInst::Return(_) => true,
        _ => false,
    }
}

/// The terminator shape of a model (see `term_shape`).
pub open spec fn s_shape(i: SsaInst) -> (int, Seq<IrLabel>) {
    match i {
        SsaInst::Other(x) => term_shape(x),
        SsaInst::Return(_) => (1, Seq::empty()),
        _ => (0, Seq::empty()),
    }
}

/// Whether two models look alike to the checks.
pub open spec fn skel_eq(a: SsaInst, b: SsaInst) -> bool {
    &&& s_term(a) == s_term(b)
    &&& s_shape(a) == s_shape(b)
    &&& (a is Phi) == (b is Phi)
}

/// Whether two lists of models look alike to the checks, one for one.
pub open spec fn same_skel(a: Seq<SsaInst>, b: Seq<SsaInst>) -> bool {
    a.len() == b.len() && forall|k: int| 0 <= k < a.len() ==> skel_eq(#[trigger] a[k], b[k])
}

/// Whether the blocks `st` look alike to the checks to the blocks `base`.
pub open spec fn skel_like(st: Seq<Seq<SsaInst>>, base: Seq<Seq<SsaInst>>) -> bool {
    st.len() == base.len() && forall|i: int| 0 <= i < st.len() ==> same_skel(#[trigger] st[i], base[i])
}

/// The terminator shapes of a list of models.
pub open spec fn s_term_shapes(s: Seq<SsaInst>) -> Seq<(int, Seq<IrLabel>)>
    decreases s.len(),
{
    if s.len() == 0 {
        Seq::empty()
    } else if s_term(s.last()) {
        s_term_shapes(s.drop_last()).push(s_shape(s.last()))
    } else {
        s_term_shapes(s.drop_last())
    }
}

proof fn lemma_sinst_skel(i: IrInst)
    ensures
        s_term(sinst(i)) == inst_is_terminator(i),
        s_shape(sinst(i)) == term_shape(i),
        (sinst(i) is Phi) == (i is Phi),
{
}

proof fn lemma_s_term_shapes_of(s: Seq<IrInst>)
    ensures
        s_term_shapes(sinsts(s)) == term_shapes(s),
    decreases s.len(),
{
    if s.len() > 0 {
        assert(sinsts(s).drop_last() =~= sinsts(s.drop_last()));
        assert(sinsts(s).last() == sinst(s.last()));
        lemma_sinst_skel(s.last());
        lemma_s_term_shapes_of(s.drop_last());
    }
}

proof fn lemma_same_skel_shapes(a: Seq<SsaInst>, b: Seq<SsaInst>)
    requires
        same_skel(a, b),
    ensures
        s_term_shapes(a) == s_term_shapes(b),
    decreases a.len(),
{
    if a.len() > 0 {
        assert(skel_eq(a[a.len() - 1], b[b.len() - 1]));
        assert forall|k: int| 0 <= k < a.drop_last().len() implies skel_eq(#[trigger] a.drop_last()[k], b.drop_last()[k]) by {
            assert(skel_eq(a[k], b[k]));
        }
        lemma_same_skel_shapes(a.drop_last(), b.drop_last());
    }
}

proof fn lemma_s_term_shapes_add(a: Seq<SsaInst>, b: Seq<SsaInst>)
    ensures
        s_term_shapes(a + b) == s_term_shapes(a) + s_term_shapes(b),
    decreases b.len(),
{
    if b.len() == 0 {
        assert(a + b =~= a);
        assert(s_term_shapes(a) + s_term_shapes(b) =~= s_term_shapes(a));
    } else {
        assert((a + b).drop_last() =~= a + b.drop_last());
        assert((a + b).last() == b.last());
        lemma_s_term_shapes_add(a, b.drop_last());
        if s_term(b.last()) {
            assert(s_term_shapes(a + b) =~= s_term_shapes(a) + s_term_shapes(b));
        }
    }
}

proof fn lemma_s_term_shapes_phis(p: Seq<SsaInst>)
    requires
        forall|k: int| 0 <= k < p.len() ==> #[trigger] p[k] is Phi,
    ensures
        s_term_shapes(p) == Seq::<(int, Seq<IrLabel>)>::empty(),
    decreases p.len(),
{
    if p.len() > 0 {
        assert(p.last() is Phi);
        assert forall|k: int| 0 <= k < p.drop_last().len() implies #[trigger] p.drop_last()[k] is Phi by {
            assert(p[k] is Phi);
        }
        lemma_s_term_shapes_phis(p.drop_last());
    }
}

proof fn lemma_phis_for_phis(order: Seq<IrVar>, j: int, fr: Seq<(IrLabel, Vec<IrLabel>)>, bs: Seq<BasicBlock>, i: int)
    ensures
        forall|k: int| 0 <= k < phis_for(order, j, fr, bs, i).len() ==> #[trigger] phis_for(order, j, fr, bs, i)[k] is Phi,
    decreases j,
{
    if j > 0 {
        lemma_phis_for_phis(order, j - 1, fr, bs, i);
        let rest = phis_for(order, j - 1, fr, bs, i);
        assert forall|k: int| 0 <= k < phis_for(order, j, fr, bs, i).len() implies #[trigger] phis_for(order, j, fr, bs, i)[k] is Phi by {
            if phis_for(order, j, fr, bs, i) != rest {
                if k > 0 {
                    assert(phis_for(order, j, fr, bs, i)[k] == rest[k - 1]);
                }
            }
        }
    }
}

proof fn lemma_rename_step_skel(i: SsaInst, n: Map<IrVar, IrVar>, c: int)
    ensures
        skel_eq(rename_step(i, n, c).0, i),
{
    match i {
        SsaInst::Other(x) => {
            match x {
                IrInst::Jump(_) => {},
                IrInst::JumpIfFalse { .. } => {},
                IrInst::ForPrep { .. } => {},
                IrInst::ForLoop { .. } => {},
                IrInst::TForLoop { .. } => {},
                IrInst::Return(_) => {},
                IrInst::Spread { .. } => {},
                _ => {},
            }
        },
        _ => {},
    }
}

proof fn lemma_rename_insts_skel(s: Seq<SsaInst>, k: int, n: Map<IrVar, IrVar>, c: int)
    requires
        0 <= k <= s.len(),
    ensures
        same_skel(rename_insts(s, k, n, c).0, s.take(k)),
    decreases k,
{
    if k > 0 {
        lemma_rename_insts_skel(s, k - 1, n, c);
        let (o, n1, c1, l1) = rename_insts(s, k - 1, n, c);
        lemma_rename_step_skel(s[k - 1], n1, c1);
        let out = rename_insts(s, k, n, c).0;
        assert forall|q: int| 0 <= q < out.len() implies skel_eq(#[trigger] out[q], s.take(k)[q]) by {
            if q < k - 1 {
                assert(out[q] == o[q]);
                assert(s.take(k)[q] == s.take(k - 1)[q]);
            }
        }
    }
}

proof fn lemma_fill_skel(
    st: Seq<Seq<SsaInst>>,
    labs: Seq<IrLabel>,
    succs: Seq<IrLabel>,
    k: int,
    from: IrLabel,
    v: IrVar,
    base: Seq<Seq<SsaInst>>,
)
    requires
        skel_like(st, base),
        labs.len() == base.len(),
    ensures
        skel_like(fill_succs(st, labs, succs, k, from, v), base),
    decreases k,
{
    if k > 0 {
        lemma_fill_skel(st, labs, succs, k - 1, from, v, base);
        let st1 = fill_succs(st, labs, succs, k - 1, from, v);
        let bi = label_index(labs, succs[k - 1]);
        lemma_label_index(labs, succs[k - 1]);
        if bi >= 0 {
            let row = st1[bi].map_values(|i: SsaInst| add_input(i, from, v));
            assert(same_skel(row, base[bi])) by {
                assert(same_skel(st1[bi], base[bi]));
                assert forall|q: int| 0 <= q < row.len() implies skel_eq(#[trigger] row[q], base[bi][q]) by {
                    assert(skel_eq(st1[bi][q], base[bi][q]));
                }
            }
            let r = fill_succs(st, labs, succs, k, from, v);
            assert forall|i: int| 0 <= i < r.len() implies same_skel(#[trigger] r[i], base[i]) by {
                if i != bi {
                    assert(r[i] == st1[i]);
                }
            }
        }
    }
}

proof fn lemma_visit_skel(
    l: IrLabel,
    st: (Seq<Seq<SsaInst>>, int),
    n: Map<IrVar, IrVar>,
    labs: Seq<IrLabel>,
    succs: Seq<Seq<IrLabel>>,
    kids: Seq<(IrLabel, Vec<IrLabel>)>,
    rank: spec_fn(IrLabel) -> nat,
    base: Seq<Seq<SsaInst>>,
)
    requires
        skel_like(st.0, base),
        labs.len() == base.len(),
    ensures
        skel_like(visit(l, st, n, labs, succs, kids, rank).0, base),
    decreases rank(l), entry_of(kids, l).len() + 1,
{
    let bi = label_index(labs, l);
    lemma_label_index(labs, l);
    let len = entry_of(kids, l).len() as int;
    if bi >= 0 {
        let (s2, n2, c2, last) = rename_insts(st.0[bi], st.0[bi].len() as int, n, st.1);
        lemma_rename_insts_skel(st.0[bi], st.0[bi].len() as int, n, st.1);
        assert(st.0[bi].take(st.0[bi].len() as int) =~= st.0[bi]);
        let b1 = st.0.update(bi, s2);
        assert(skel_like(b1, base)) by {
            assert(same_skel(st.0[bi], base[bi]));
            assert forall|i: int| 0 <= i < b1.len() implies same_skel(#[trigger] b1[i], base[i]) by {
                if i == bi {
                    assert forall|q: int| 0 <= q < s2.len() implies skel_eq(#[trigger] s2[q], base[bi][q]) by {
                        assert(skel_eq(s2[q], st.0[bi][q]));
                        assert(skel_eq(st.0[bi][q], base[bi][q]));
                    }
                }
            }
        }
        let b2 = match last {
            Some(v) => fill_succs(b1, labs, succs[bi], succs[bi].len() as int, l, v),
            None => b1,
        };
        match last {
            Some(v) => lemma_fill_skel(b1, labs, succs[bi], succs[bi].len() as int, l, v, base),
            None => {},
        }
        lemma_kids_skel(l, len, (b2, c2), n2, labs, succs, kids, rank, base);
    } else {
        lemma_kids_skel(l, len, st, n, labs, succs, kids, rank, base);
    }
}

proof fn lemma_kids_skel(
    l: IrLabel,
    k: int,
    st: (Seq<Seq<SsaInst>>, int),
    n: Map<IrVar, IrVar>,
    labs: Seq<IrLabel>,
    succs: Seq<Seq<IrLabel>>,
    kids: Seq<(IrLabel, Vec<IrLabel>)>,
    rank: spec_fn(IrLabel) -> nat,
    base: Seq<Seq<SsaInst>>,
)
    requires
        skel_like(st.0, base),
        labs.len() == base.len(),
    ensures
        skel_like(visit_kids(l, k, st, n, labs, succs, kids, rank).0, base),
    decreases rank(l), k,
{
    if k > 0 {
        lemma_kids_skel(l, k - 1, st, n, labs, succs, kids, rank, base);
        let st1 = visit_kids(l, k - 1, st, n, labs, succs, kids, rank);
        let c = entry_of(kids, l)[k - 1];
        if rank(c) < rank(l) {
            lemma_visit_skel(c, st1, n, labs, succs, kids, rank, base);
        }
    }
}

/// SSA construction keeps a well-formed control-flow graph well-formed:
/// every block keeps its label and edges, its terminators keep their kinds
/// and jump targets, and its phi nodes stay first.
pub proof fn lemma_construct_keeps_cfg_ok(before: ControlFlowGraph, dom: DominatorTree, after: ControlFlowGraph)
    requires
        cfg_ok(before),
        after.entry_label == before.entry_label,
        same_shape(after.blocks@, before.blocks@),
        block_insts(after.blocks@) == ssa_built(before.blocks@, before.entry_label, dom).0,
    ensures
        cfg_ok(after),
{
    let bs = before.blocks@;
    let base = phis_placed(bs, dom.frontiers@);
    assert(skel_like(base, base)) by {
        assert forall|i: int| 0 <= i < base.len() implies same_skel(#[trigger] base[i], base[i]) by {}
    }
    assert(labels(bs).len() == base.len());
    lemma_visit_skel(
        before.entry_label,
        (base, var_max_blocks(bs, bs.len() as int) + 1),
        Map::empty(),
        labels(bs),
        succ_lists(bs),
        dom.children@,
        kid_rank(dom.children@),
        base,
    );
    let order = def_order(bs, bs.len() as int);
    assert forall|i: int| 0 <= i < bs.len() implies (#[trigger] after.blocks@[i]).label == bs[i].label
        && after.blocks@[i].predecessors@ == bs[i].predecessors@ && after.blocks@[i].successors@ == bs[i].successors@
        && term_shapes(after.blocks@[i].instructions@) == term_shapes(bs[i].instructions@) && phis_first(
        after.blocks@[i].instructions@,
    ) by {
        let sa = after.blocks@[i].instructions@;
        let sb = bs[i].instructions@;
        let p = phis_for(order, order.len() as int, dom.frontiers@, bs, i);
        assert(base[i] == p + sinsts(sb));
        assert(block_insts(after.blocks@)[i] == sinsts(sa));
        assert(same_skel(sinsts(sa), base[i]));
        lemma_same_skel_shapes(sinsts(sa), base[i]);
        lemma_phis_for_phis(order, order.len() as int, dom.frontiers@, bs, i);
        lemma_s_term_shapes_phis(p);
        lemma_s_term_shapes_add(p, sinsts(sb));
        assert(Seq::<(int, Seq<IrLabel>)>::empty() + s_term_shapes(sinsts(sb)) =~= s_term_shapes(sinsts(sb)));
        lemma_s_term_shapes_of(sa);
        lemma_s_term_shapes_of(sb);
        assert(block_ok(bs, bs[i]));
        assert(phis_first(sb));
        assert forall|a: int, b: int| 0 <= a < b < sa.len() && !(#[trigger] sa[a] is Phi) implies !(#[trigger] sa[b] is Phi) by {
            lemma_sinst_skel(sa[a]);
            lemma_sinst_skel(sa[b]);
            assert(skel_eq(sinsts(sa)[a], base[i][a]));
            assert(skel_eq(sinsts(sa)[b], base[i][b]));
            if a < p.len() {
                assert(base[i][a] == p[a]);
                assert(p[a] is Phi);
            } else {
                assert(base[i][a] == sinsts(sb)[a - p.len()]);
                assert(base[i][b] == sinsts(sb)[b - p.len()]);
                lemma_sinst_skel(sb[a - p.len()]);
                lemma_sinst_skel(sb[b - p.len()]);
            }
        }
    }
    lemma_cfg_ok_kept(before, after);
}

} // verus!
