//! Construction of the control-flow graph from a flat instruction list.
use vstd::prelude::*;

use crate::compiler::ir::block::{
    last_terminator, last_terminator_index, lemma_last_terminator, same_insts, BasicBlock,
    ControlFlowGraph,
};
use crate::compiler::ir::inst::{
    clone_inst, inst_is_terminator, inst_jump_targets, lemma_same_inst_alike, same_inst, IrInst,
    SpreadSink,
};
use crate::compiler::ir::types::IrLabel;
use crate::compiler::ir::verify::{
    block_ok, cfg_ok, first_index, has_block, jumps_ok, labels_unique, lemma_first_index, phis_first,
    predecessors_ok, successors_ok, terminator_ok,
};

verus! {

/// The first label handed to a block that starts without one (when no label
/// in the input is higher).
pub const AUTO_LABEL_START: usize = 900000;

/// Whether the next instruction after `i` starts a new block.
pub open spec fn ends_block(i: IrInst) -> bool {
    match i {
        IrInst::Jump(_) => true,
        IrInst::JumpIfFalse { .. } => true,
        IrInst::Return(_) => true,
        IrInst::ForPrep { .. } => true,
        IrInst::ForLoop { .. } => true,
        IrInst::TForLoop { .. } => true,
        _ => false,
    }
}

/// Whether instruction `k` starts a block: the first one, a label, or one
/// after a jump, return or loop instruction.
pub open spec fn is_leader(s: Seq<IrInst>, k: int) -> bool {
    k == 0 || s[k] is Label || ends_block(s[k - 1])
}

/// `m` raised to the label and jump target of `i`.
pub open spec fn raise_to_labels(i: IrInst, m: nat) -> nat {
    let m1 = match i {
        IrInst::Label(l) => if l.0 > m {
            l.0 as nat
        } else {
            m
        },
        _ => m,
    };
    let ts = inst_jump_targets(i);
    if ts.len() > 0 && ts[0].0 > m1 {
        ts[0].0 as nat
    } else {
        m1
    }
}

/// The highest label named in `s` (as a label or a jump target), or
/// `AUTO_LABEL_START` if that is higher: fresh labels are taken above it.
pub open spec fn label_floor(s: Seq<IrInst>) -> nat
    decreases s.len(),
{
    if s.len() == 0 {
        AUTO_LABEL_START as nat
    } else {
        raise_to_labels(s.last(), label_floor(s.drop_last()))
    }
}

/// The number of blocks among the first `n` instructions that start without
/// a label.
pub open spec fn auto_count(s: Seq<IrInst>, n: int) -> nat
    decreases n,
{
    if n <= 0 {
        0
    } else {
        auto_count(s, n - 1) + if is_leader(s, n - 1) && !(s[n - 1] is Label) {
            1nat
        } else {
            0nat
        }
    }
}

/// The blocks the first `n` instructions fall into, each with its label and
/// its instructions (labels dropped): a block that starts with a label takes
/// it, any other takes the next label above `base`.
pub open spec fn pre_blocks(s: Seq<IrInst>, n: int, base: nat) -> Seq<(IrLabel, Seq<IrInst>)>
    decreases n,
{
    if n <= 0 {
        Seq::empty()
    } else {
        let prev = pre_blocks(s, n - 1, base);
        let k = n - 1;
        if is_leader(s, k) {
            match s[k] {
                IrInst::Label(l) => prev.push((l, Seq::empty())),
                _ => prev.push((IrLabel((base + auto_count(s, k) + 1) as usize), seq![s[k]])),
            }
        } else if s[k] is Label || prev.len() == 0 {
            prev
        } else {
            prev.update(prev.len() - 1, (prev.last().0, prev.last().1.push(s[k])))
        }
    }
}

/// Where a block with instructions `body` can go by its last terminator,
/// and whether it can also fall through to the next block.
pub open spec fn exit_targets(body: Seq<IrInst>) -> (Seq<IrLabel>, bool) {
    let t = last_terminator(body);
    if t < 0 {
        (Seq::empty(), true)
    } else {
        match body[t] {
            IrInst::Jump(x) => (seq![x], false),
            IrInst::JumpIfFalse { target, .. } => (seq![target], true),
            IrInst::ForPrep { jump, .. } => (seq![jump], true),
            IrInst::ForLoop { jump, .. } => (seq![jump], true),
            IrInst::TForLoop { jump, .. } => (seq![jump], true),
            IrInst::Return(_) => (Seq::empty(), false),
            IrInst::Spread { sink: SpreadSink::Return, .. } => (Seq::empty(), false),
            _ => (Seq::empty(), true),
        }
    }
}

/// `ts` with `l` added at the end unless it is there already.
pub open spec fn add_label(ts: Seq<IrLabel>, l: IrLabel) -> Seq<IrLabel> {
    if ts.contains(l) {
        ts
    } else {
        ts.push(l)
    }
}

/// The label of the block after block `i`, if there is one.
pub open spec fn next_label(pb: Seq<(IrLabel, Seq<IrInst>)>, i: int) -> Option<IrLabel> {
    if i + 1 < pb.len() {
        Some(pb[i + 1].0)
    } else {
        None
    }
}

/// Whether block `i` falls through to a next block.
pub open spec fn falls_through(pb: Seq<(IrLabel, Seq<IrInst>)>, i: int) -> bool {
    exit_targets(pb[i].1).1 && i + 1 < pb.len()
}

/// The successors of block `i`: its terminator's target, then the next
/// block when it falls through.
pub open spec fn succs_of(pb: Seq<(IrLabel, Seq<IrInst>)>, i: int) -> Seq<IrLabel> {
    if falls_through(pb, i) {
        add_label(exit_targets(pb[i].1).0, pb[i + 1].0)
    } else {
        exit_targets(pb[i].1).0
    }
}

/// The instructions of block `i`: its own, then a jump to the next block
/// when it falls through, so the edge survives any reordering of blocks.
pub open spec fn block_insts(pb: Seq<(IrLabel, Seq<IrInst>)>, i: int) -> Seq<IrInst> {
    if falls_through(pb, i) {
        pb[i].1.push(IrInst::Jump(pb[i + 1].0))
    } else {
        pb[i].1
    }
}

/// Whether no block after `j` has its label.
pub open spec fn is_last_with_label(pb: Seq<(IrLabel, Seq<IrInst>)>, j: int) -> bool {
    forall|m: int| j < m < pb.len() ==> (#[trigger] pb[m]).0 != pb[j].0
}

/// The predecessors of block `j` found among the first `n` blocks: edges go
/// to the last block with the target label, and each source label is listed
/// once, in order.
pub open spec fn preds_upto(pb: Seq<(IrLabel, Seq<IrInst>)>, j: int, n: int) -> Seq<IrLabel>
    decreases n,
{
    if n <= 0 {
        Seq::empty()
    } else {
        let p = preds_upto(pb, j, n - 1);
        if is_last_with_label(pb, j) && succs_of(pb, n - 1).contains(pb[j].0) {
            add_label(p, pb[n - 1].0)
        } else {
            p
        }
    }
}

proof fn lemma_same_insts_last_terminator(a: Seq<IrInst>, b: Seq<IrInst>)
    requires
        same_insts(a, b),
    ensures
        last_terminator(a) == last_terminator(b),
    decreases a.len(),
{
    if a.len() > 0 {
        lemma_same_inst_alike(a.last(), b.last());
        assert(a.drop_last().len() == b.drop_last().len());
        assert forall|k: int| 0 <= k < a.drop_last().len() implies same_inst(
            #[trigger] a.drop_last()[k],
            b.drop_last()[k],
        ) by {
            assert(same_inst(a[k], b[k]));
        }
        lemma_same_insts_last_terminator(a.drop_last(), b.drop_last());
    }
}

proof fn lemma_same_insts_exit(a: Seq<IrInst>, b: Seq<IrInst>)
    requires
        same_insts(a, b),
    ensures
        exit_targets(a) == exit_targets(b),
{
    lemma_same_insts_last_terminator(a, b);
    let t = last_terminator(a);
    if t >= 0 {
        lemma_last_terminator(a);
        assert(same_inst(a[t], b[t]));
    }
}

/// Whether `i` is a jump, return or loop instruction.
fn ends_block_exec(i: &IrInst) -> (r: bool)
    ensures
        r == ends_block(*i),
{
    match i {
        IrInst::Jump(_) | IrInst::JumpIfFalse { .. } | IrInst::Return(_) | IrInst::ForPrep { .. }
        | IrInst::ForLoop { .. } | IrInst::TForLoop { .. } => true,
        _ => false,
    }
}

/// The highest label named in `insts` (see `label_floor`).
fn compute_label_floor(insts: &[IrInst]) -> (r: usize)
    ensures
        r == label_floor(insts@),
{
    let mut m: usize = AUTO_LABEL_START;
    let mut k: usize = 0;
    assert(insts@.take(0) =~= Seq::<IrInst>::empty());
    while k < insts.len()
        invariant
            k <= insts@.len(),
            m == label_floor(insts@.take(k as int)),
        decreases insts@.len() - k,
    {
        assert(insts@.take(k + 1).drop_last() =~= insts@.take(k as int));
        assert(insts@.take(k + 1).last() == insts@[k as int]);
        match &insts[k] {
            IrInst::Label(l) => {
                if l.0 > m {
                    m = l.0;
                }
            },
            _ => {},
        }
        let ts = insts[k].jump_targets();
        if ts.len() > 0 && ts[0].0 > m {
            m = ts[0].0;
        }
        k = k + 1;
    }
    assert(insts@.take(insts@.len() as int) =~= insts@);
    m
}

proof fn lemma_auto_count_bound(s: Seq<IrInst>, n: int)
    requires
        0 <= n,
    ensures
        auto_count(s, n) <= n,
    decreases n,
{
    if n > 0 {
        lemma_auto_count_bound(s, n - 1);
    }
}

/// Splits `insts` into blocks (see `pre_blocks`), giving their labels and
/// their instructions.
#[verifier::spinoff_prover]
fn partition(insts: &[IrInst], base: usize) -> (r: (Vec<IrLabel>, Vec<Vec<IrInst>>))
    requires
        insts@.len() > 0,
        base + insts@.len() < usize::MAX,
    ensures
        ({
            let pb = pre_blocks(insts@, insts@.len() as int, base as nat);
            &&& r.0@.len() == pb.len()
            &&& r.1@.len() == pb.len()
            &&& forall|m: int|
                0 <= m < pb.len() ==> (#[trigger] r.0@[m]) == pb[m].0 && same_insts(r.1@[m]@, pb[m].1)
        }),
        r.0@.len() > 0,
{
    let ghost s = insts@;
    let mut labels: Vec<IrLabel> = Vec::new();
    let mut bodies: Vec<Vec<IrInst>> = Vec::new();
    let mut auto: usize = base;
    let mut k: usize = 0;
    while k < insts.len()
        invariant
            s == insts@,
            k <= s.len(),
            base + s.len() < usize::MAX,
            auto == base + auto_count(s, k as int),
            auto_count(s, k as int) <= k,
            k > 0 ==> labels@.len() > 0,
            labels@.len() == pre_blocks(s, k as int, base as nat).len(),
            bodies@.len() == labels@.len(),
            forall|m: int|
                0 <= m < labels@.len() ==> (#[trigger] labels@[m]) == pre_blocks(s, k as int, base as nat)[m].0
                    && same_insts(bodies@[m]@, pre_blocks(s, k as int, base as nat)[m].1),
        decreases s.len() - k,
    {
        let ghost prev = pre_blocks(s, k as int, base as nat);
        let ghost next = pre_blocks(s, k + 1, base as nat);
        let ghost labels0 = labels@;
        let ghost bodies0 = bodies@;
        let leader = k == 0 || insts[k].is_label() || ends_block_exec(&insts[k - 1]);
        assert(leader == is_leader(s, k as int));
        proof {
            lemma_auto_count_bound(s, k as int);
        }
        if leader {
            match &insts[k] {
                IrInst::Label(l) => {
                    labels.push(*l);
                    bodies.push(Vec::new());
                    assert(next == prev.push((*l, Seq::<IrInst>::empty())));
                    assert(auto_count(s, k + 1) == auto_count(s, k as int));
                    assert forall|m: int| 0 <= m < labels@.len() implies (#[trigger] labels@[m]) == next[m].0
                        && same_insts(bodies@[m]@, next[m].1) by {
                        if m < prev.len() {
                            assert(next[m] == prev[m]);
                            assert(labels0[m] == prev[m].0);
                            assert(labels@[m] == labels0[m]);
                            assert(bodies@[m] == bodies0[m]);
                        }
                    }
                },
                _ => {
                    auto = auto + 1;
                    let l = IrLabel(auto);
                    let mut body: Vec<IrInst> = Vec::new();
                    body.push(clone_inst(&insts[k]));
                    labels.push(l);
                    bodies.push(body);
                    assert(next == prev.push((l, seq![s[k as int]])));
                    assert forall|m: int| 0 <= m < labels@.len() implies (#[trigger] labels@[m]) == next[m].0
                        && same_insts(bodies@[m]@, next[m].1) by {
                        if m < prev.len() {
                            assert(next[m] == prev[m]);
                            assert(labels0[m] == prev[m].0);
                            assert(labels@[m] == labels0[m]);
                            assert(bodies@[m] == bodies0[m]);
                        } else {
                            assert(bodies@[m]@ == body@);
                        }
                    }
                },
            }
        } else {
            assert(k > 0);
            assert(!(s[k as int] is Label));
            assert(next == prev.update(prev.len() - 1, (prev.last().0, prev.last().1.push(s[k as int]))));
            let last = bodies.len() - 1;
            let ghost bodies_before = bodies@;
            let mut body = bodies.pop().unwrap();
            assert(body == bodies_before[last as int]);
            let ghost old_body = body@;
            body.push(clone_inst(&insts[k]));
            bodies.push(body);
            assert(bodies@ == bodies_before.drop_last().push(body));
            assert forall|m: int| 0 <= m < labels@.len() implies (#[trigger] labels@[m]) == next[m].0 && same_insts(
                bodies@[m]@,
                next[m].1,
            ) by {
                if m < last {
                    assert(next[m] == prev[m]);
                    assert(bodies@[m] == bodies_before[m]);
                    assert(labels0[m] == prev[m].0);
                } else {
                    assert(next[m] == (prev.last().0, prev.last().1.push(s[k as int])));
                    assert(prev.last() == prev[m]);
                    assert(labels0[m] == prev[m].0);
                    assert(bodies@[m]@ == old_body.push(body@.last()));
                    assert(same_insts(old_body, prev[m].1));
                    assert forall|q: int| 0 <= q < bodies@[m]@.len() implies same_inst(
                        #[trigger] bodies@[m]@[q],
                        next[m].1[q],
                    ) by {
                        if q < old_body.len() {
                            assert(bodies@[m]@[q] == old_body[q]);
                            assert(next[m].1[q] == prev[m].1[q]);
                        }
                    }
                }
            }
        }
        k = k + 1;
    }
    (labels, bodies)
}

/// Where a block with instructions `body` can go by its last terminator,
/// and whether it can fall through.
fn exit_info(body: &Vec<IrInst>) -> (r: (Vec<IrLabel>, bool))
    ensures
        r.0@ == exit_targets(body@).0,
        r.1 == exit_targets(body@).1,
{
    proof {
        lemma_last_terminator(body@);
    }
    match last_terminator_index(body) {
        None => (Vec::new(), true),
        Some(t) => match &body[t] {
            IrInst::Jump(x) => (vec![*x], false),
            IrInst::JumpIfFalse { target, .. } => (vec![*target], true),
            IrInst::ForPrep { jump, .. } | IrInst::ForLoop { jump, .. } | IrInst::TForLoop { jump, .. } => (
                vec![*jump],
                true,
            ),
            IrInst::Return(_) => (Vec::new(), false),
            IrInst::Spread { sink: SpreadSink::Return, .. } => (Vec::new(), false),
            _ => (Vec::new(), true),
        },
    }
}

/// Whether `v` holds `l`.
fn has_label(v: &Vec<IrLabel>, l: IrLabel) -> (r: bool)
    ensures
        r == v@.contains(l),
{
    let mut i: usize = 0;
    while i < v.len()
        invariant
            i <= v@.len(),
            forall|k: int| 0 <= k < i ==> v@[k] != l,
        decreases v@.len() - i,
    {
        if v[i] == l {
            assert(v@[i as int] == l);
            return true;
        }
        i = i + 1;
    }
    false
}

/// Whether `r` is the control-flow graph of the flat instruction list `s`:
/// the list is split into blocks (see `pre_blocks`, with fresh labels above
/// `label_floor`), each block's successors follow its terminator (see
/// `succs_of`, with a jump added where a block falls through), and
/// predecessors mirror successors (see `preds_upto`). An empty list gives one
/// empty block labelled 0.
pub open spec fn built_from(s: Seq<IrInst>, r: ControlFlowGraph) -> bool {
    &&& s.len() == 0 ==> {
        &&& r.entry_label == IrLabel(0)
        &&& r.blocks@.len() == 1
        &&& r.blocks@[0].label == IrLabel(0)
        &&& r.blocks@[0].instructions@.len() == 0
        &&& r.blocks@[0].predecessors@.len() == 0
        &&& r.blocks@[0].successors@.len() == 0
    }
    &&& s.len() > 0 ==> {
        let pb = pre_blocks(s, s.len() as int, label_floor(s));
        &&& pb.len() > 0
        &&& r.blocks@.len() == pb.len()
        &&& r.entry_label == pb[0].0
        &&& forall|i: int|
            0 <= i < pb.len() ==> {
                &&& (#[trigger] r.blocks@[i]).label == pb[i].0
                &&& same_insts(r.blocks@[i].instructions@, block_insts(pb, i))
                &&& r.blocks@[i].successors@ == succs_of(pb, i)
                &&& r.blocks@[i].predecessors@ == preds_upto(pb, i, pb.len() as int)
            }
    }
}

/// Builds the control-flow graph of a flat instruction list (see
/// `built_from`).
pub fn build_cfg(instructions: &[IrInst]) -> (r: ControlFlowGraph)
    requires
        label_floor(instructions@) + instructions@.len() < usize::MAX,
    ensures
        built_from(instructions@, r),
{
    if instructions.len() == 0 {
        let entry = IrLabel(0);
        let mut cfg = ControlFlowGraph::new(entry);
        cfg.blocks.push(BasicBlock::new(entry));
        return cfg;
    }
    let base = compute_label_floor(instructions);
    let (labels, bodies) = partition(instructions, base);
    let ghost pb = pre_blocks(instructions@, instructions@.len() as int, base as nat);
    let nb = labels.len();

    // Successors, and whether each block falls through.
    let mut succs: Vec<Vec<IrLabel>> = Vec::new();
    let mut falls: Vec<bool> = Vec::new();
    let mut i: usize = 0;
    while i < nb
        invariant
            nb == labels@.len(),
            nb == pb.len(),
            bodies@.len() == nb,
            forall|m: int| 0 <= m < nb ==> (#[trigger] labels@[m]) == pb[m].0 && same_insts(bodies@[m]@, pb[m].1),
            i <= nb,
            succs@.len() == i,
            falls@.len() == i,
            forall|m: int| 0 <= m < i ==> (#[trigger] succs@[m])@ == succs_of(pb, m),
            forall|m: int| 0 <= m < i ==> (#[trigger] falls@[m]) == falls_through(pb, m),
        decreases nb - i,
    {
        let (targets, fall) = exit_info(&bodies[i]);
        proof {
            assert(labels@[i as int] == pb[i as int].0);
            assert(same_insts(bodies@[i as int]@, pb[i as int].1));
            lemma_same_insts_exit(bodies@[i as int]@, pb[i as int].1);
        }
        let mut ts = targets;
        let f = fall && i + 1 < nb;
        if f {
            let nl = labels[i + 1];
            if !has_label(&ts, nl) {
                ts.push(nl);
            }
        }
        succs.push(ts);
        falls.push(f);
        i = i + 1;
    }

    // Predecessors.
    let mut preds: Vec<Vec<IrLabel>> = Vec::new();
    let mut j: usize = 0;
    while j < nb
        invariant
            nb == labels@.len(),
            nb == pb.len(),
            forall|m: int| 0 <= m < nb ==> (#[trigger] labels@[m]) == pb[m].0,
            succs@.len() == nb,
            forall|m: int| 0 <= m < nb ==> (#[trigger] succs@[m])@ == succs_of(pb, m),
            j <= nb,
            preds@.len() == j,
            forall|m: int| 0 <= m < j ==> (#[trigger] preds@[m])@ == preds_upto(pb, m, nb as int),
        decreases nb - j,
    {
        let lj = labels[j];
        let mut last = true;
        let mut q: usize = j + 1;
        while q < nb
            invariant
                nb == labels@.len(),
                nb == pb.len(),
                forall|m: int| 0 <= m < nb ==> (#[trigger] labels@[m]) == pb[m].0,
                j < q <= nb,
                lj == pb[j as int].0,
                last == forall|m: int| j < m < q ==> (#[trigger] pb[m]).0 != pb[j as int].0,
            decreases nb - q,
        {
            if labels[q] == lj {
                last = false;
            }
            q = q + 1;
        }
        assert(last == is_last_with_label(pb, j as int));
        let mut p: Vec<IrLabel> = Vec::new();
        let mut n: usize = 0;
        while n < nb
            invariant
                nb == labels@.len(),
                nb == pb.len(),
                forall|m: int| 0 <= m < nb ==> (#[trigger] labels@[m]) == pb[m].0,
                succs@.len() == nb,
                forall|m: int| 0 <= m < nb ==> (#[trigger] succs@[m])@ == succs_of(pb, m),
                j < nb,
                lj == pb[j as int].0,
                last == is_last_with_label(pb, j as int),
                n <= nb,
                p@ == preds_upto(pb, j as int, n as int),
            decreases nb - n,
        {
            if last && has_label(&succs[n], lj) {
                let ln = labels[n];
                if !has_label(&p, ln) {
                    p.push(ln);
                }
            }
            n = n + 1;
        }
        preds.push(p);
        j = j + 1;
    }

    // The blocks themselves.
    let mut bodies = bodies;
    let mut succs = succs;
    let mut preds = preds;
    let mut blocks: Vec<BasicBlock> = Vec::new();
    let ghost bodies0 = bodies@;
    let ghost succs0 = succs@;
    let ghost preds0 = preds@;
    assert forall|m: int| 0 <= m < nb implies same_insts((#[trigger] bodies0[m])@, pb[m].1) by {
        assert(labels@[m] == pb[m].0);
    }
    let mut b: usize = 0;
    while b < nb
        invariant
            nb == labels@.len(),
            nb == pb.len(),
            forall|m: int| 0 <= m < nb ==> (#[trigger] labels@[m]) == pb[m].0,
            bodies0.len() == nb,
            forall|m: int| 0 <= m < nb ==> same_insts((#[trigger] bodies0[m])@, pb[m].1),
            succs0.len() == nb,
            forall|m: int| 0 <= m < nb ==> (#[trigger] succs0[m])@ == succs_of(pb, m),
            preds0.len() == nb,
            forall|m: int| 0 <= m < nb ==> (#[trigger] preds0[m])@ == preds_upto(pb, m, nb as int),
            falls@.len() == nb,
            forall|m: int| 0 <= m < nb ==> (#[trigger] falls@[m]) == falls_through(pb, m),
            b <= nb,
            bodies@ == bodies0.skip(b as int),
            succs@ == succs0.skip(b as int),
            preds@ == preds0.skip(b as int),
            blocks@.len() == b,
            forall|m: int|
                0 <= m < b ==> {
                    &&& (#[trigger] blocks@[m]).label == pb[m].0
                    &&& same_insts(blocks@[m].instructions@, block_insts(pb, m))
                    &&& blocks@[m].successors@ == succs_of(pb, m)
                    &&& blocks@[m].predecessors@ == preds_upto(pb, m, nb as int)
                },
        decreases nb - b,
    {
        let mut body = bodies.remove(0);
        let sb = succs.remove(0);
        let pbk = preds.remove(0);
        assert(body == bodies0[b as int]);
        assert(sb == succs0[b as int]);
        assert(pbk == preds0[b as int]);
        assert(bodies@ =~= bodies0.skip(b + 1));
        assert(succs@ =~= succs0.skip(b + 1));
        assert(preds@ =~= preds0.skip(b + 1));
        let ghost old_body = body@;
        if falls[b] {
            body.push(IrInst::Jump(labels[b + 1]));
            assert forall|q: int| 0 <= q < body@.len() implies same_inst(
                #[trigger] body@[q],
                block_insts(pb, b as int)[q],
            ) by {
                if q < old_body.len() {
                    assert(body@[q] == old_body[q]);
                }
            }
        }
        blocks.push(BasicBlock { label: labels[b], instructions: body, predecessors: pbk, successors: sb });
        b = b + 1;
    }
    let entry_label = labels[0];
    assert(base as nat == label_floor(instructions@));
    ControlFlowGraph { blocks, entry_label }
}

/// Whether no label is declared twice in `s`.
pub open spec fn labels_distinct(s: Seq<IrInst>) -> bool {
    forall|a: int, b: int|
        0 <= a < b < s.len() ==> !(#[trigger] s[a] matches IrInst::Label(la) && #[trigger] s[b] matches IrInst::Label(
            lb,
        ) && la == lb)
}

/// Whether `l` is declared by a `Label` among the first `n` instructions.
pub open spec fn labelled_at(s: Seq<IrInst>, l: IrLabel, n: int) -> bool {
    exists|k: int| 0 <= k < n && #[trigger] s[k] == IrInst::Label(l)
}

/// Whether `x` is one of the first `n` instructions of `s`.
pub open spec fn occurs_in(s: Seq<IrInst>, x: IrInst, n: int) -> bool {
    exists|k: int| 0 <= k < n && #[trigger] s[k] == x
}

/// Whether every jump target in `s` is declared by a `Label` in `s`.
pub open spec fn targets_declared(s: Seq<IrInst>) -> bool {
    forall|k: int, t: int|
        0 <= k < s.len() && 0 <= t < inst_jump_targets(s[k]).len() ==> labelled_at(
            s,
            #[trigger] inst_jump_targets(#[trigger] s[k])[t],
            s.len() as int,
        )
}

/// Whether `s` holds no phi.
pub open spec fn no_phis(s: Seq<IrInst>) -> bool {
    forall|k: int| 0 <= k < s.len() ==> !(#[trigger] s[k] is Phi)
}

proof fn lemma_label_floor(s: Seq<IrInst>)
    ensures
        label_floor(s) >= AUTO_LABEL_START,
        forall|k: int| 0 <= k < s.len() ==> (#[trigger] s[k] matches IrInst::Label(l) ==> l.0 <= label_floor(s)),
        forall|k: int, t: int|
            0 <= k < s.len() && 0 <= t < inst_jump_targets(s[k]).len() ==> (#[trigger] inst_jump_targets(
                #[trigger] s[k],
            )[t]).0 <= label_floor(s),
    decreases s.len(),
{
    if s.len() > 0 {
        let d = s.drop_last();
        lemma_label_floor(d);
        assert forall|k: int| 0 <= k < s.len() implies (#[trigger] s[k] matches IrInst::Label(l) ==> l.0
            <= label_floor(s)) by {
            if k < s.len() - 1 {
                assert(s[k] == d[k]);
            }
        }
        assert forall|k: int, t: int|
            0 <= k < s.len() && 0 <= t < inst_jump_targets(s[k]).len() implies (#[trigger] inst_jump_targets(
            #[trigger] s[k],
        )[t]).0 <= label_floor(s) by {
            if k < s.len() - 1 {
                assert(s[k] == d[k]);
                assert(inst_jump_targets(d[k])[t].0 <= label_floor(d));
            }
        }
    }
}

proof fn lemma_pre_blocks_shape(s: Seq<IrInst>, n: int, base: nat)
    requires
        0 <= n <= s.len(),
        base + s.len() < usize::MAX,
        labels_distinct(s),
        forall|k: int| 0 <= k < s.len() ==> (#[trigger] s[k] matches IrInst::Label(l) ==> l.0 <= base),
    ensures
        n > 0 ==> pre_blocks(s, n, base).len() > 0,
        forall|i: int|
            0 <= i < pre_blocks(s, n, base).len() ==> labelled_at(s, (#[trigger] pre_blocks(s, n, base)[i]).0, n)
                || (base < pre_blocks(s, n, base)[i].0.0 <= base + auto_count(s, n)),
        forall|i: int, j: int|
            0 <= i < j < pre_blocks(s, n, base).len() ==> (#[trigger] pre_blocks(s, n, base)[i]).0 != (
            #[trigger] pre_blocks(s, n, base)[j]).0,
        forall|k: int|
            0 <= k < n ==> (#[trigger] s[k] matches IrInst::Label(l) ==> exists|i: int|
                0 <= i < pre_blocks(s, n, base).len() && (#[trigger] pre_blocks(s, n, base)[i]).0 == l),
        forall|i: int, q: int|
            0 <= i < pre_blocks(s, n, base).len() && 0 <= q < pre_blocks(s, n, base)[i].1.len() ==> occurs_in(
                s,
                #[trigger] pre_blocks(s, n, base)[i].1[q],
                n,
            ),
    decreases n,
{
    if n > 0 {
        let k = n - 1;
        lemma_pre_blocks_shape(s, k, base);
        lemma_auto_count_bound(s, k);
        let prev = pre_blocks(s, k, base);
        let next = pre_blocks(s, n, base);
        assert forall|i: int| 0 <= i < prev.len() && labelled_at(s, prev[i].0, k) implies labelled_at(
            s,
            prev[i].0,
            n,
        ) by {
            let w = choose|w: int| 0 <= w < k && #[trigger] s[w] == IrInst::Label(prev[i].0);
            assert(s[w] == IrInst::Label(prev[i].0));
        }
        if is_leader(s, k) {
            match s[k] {
                IrInst::Label(l) => {
                    assert(next == prev.push((l, Seq::<IrInst>::empty())));
                    assert(labelled_at(s, l, n)) by {
                        assert(s[k] == IrInst::Label(l));
                    }
                    assert forall|i: int| 0 <= i < prev.len() implies prev[i].0 != l by {
                        if labelled_at(s, prev[i].0, k) {
                            let w = choose|w: int| 0 <= w < k && #[trigger] s[w] == IrInst::Label(prev[i].0);
                            if prev[i].0 == l {
                                assert(s[w] matches IrInst::Label(la) && s[k] matches IrInst::Label(lb) && la == lb);
                            }
                        } else {
                            assert(l.0 <= base);
                        }
                    }
                    assert forall|i: int, j: int| 0 <= i < j < next.len() implies (#[trigger] next[i]).0 != (
                    #[trigger] next[j]).0 by {
                        if j < prev.len() {
                            assert(next[i] == prev[i] && next[j] == prev[j]);
                        } else {
                            assert(next[i] == prev[i]);
                        }
                    }
                    assert forall|k2: int| 0 <= k2 < n implies (#[trigger] s[k2] matches IrInst::Label(l2) ==> exists|
                        i: int,
                    | 0 <= i < next.len() && (#[trigger] next[i]).0 == l2) by {
                        if let IrInst::Label(l2) = s[k2] {
                            if k2 < k {
                                let i = choose|i: int| 0 <= i < prev.len() && (#[trigger] prev[i]).0 == l2;
                                assert(next[i] == prev[i]);
                            } else {
                                assert(next[prev.len() as int].0 == l2);
                            }
                        }
                    }
                    assert forall|i: int, q: int| 0 <= i < next.len() && 0 <= q < next[i].1.len() implies occurs_in(
                        s,
                        #[trigger] next[i].1[q],
                        n,
                    ) by {
                        assert(next[i] == prev[i]);
                        assert(occurs_in(s, prev[i].1[q], k));
                        let k2 = choose|k2: int| 0 <= k2 < k && #[trigger] s[k2] == prev[i].1[q];
                        assert(s[k2] == next[i].1[q]);
                    }
                },
                _ => {
                    let a = IrLabel((base + auto_count(s, k) + 1) as usize);
                    assert(a.0 == base + auto_count(s, k) + 1);
                    assert(next == prev.push((a, seq![s[k]])));
                    assert(auto_count(s, n) == auto_count(s, k) + 1);
                    assert forall|i: int| 0 <= i < prev.len() implies prev[i].0 != a by {
                        if labelled_at(s, prev[i].0, k) {
                            let w = choose|w: int| 0 <= w < k && #[trigger] s[w] == IrInst::Label(prev[i].0);
                            assert(s[w] matches IrInst::Label(l) ==> l.0 <= base);
                        }
                    }
                    assert forall|i: int, j: int| 0 <= i < j < next.len() implies (#[trigger] next[i]).0 != (
                    #[trigger] next[j]).0 by {
                        if j < prev.len() {
                            assert(next[i] == prev[i] && next[j] == prev[j]);
                        } else {
                            assert(next[i] == prev[i]);
                        }
                    }
                    assert forall|k2: int| 0 <= k2 < n implies (#[trigger] s[k2] matches IrInst::Label(l2) ==> exists|
                        i: int,
                    | 0 <= i < next.len() && (#[trigger] next[i]).0 == l2) by {
                        if let IrInst::Label(l2) = s[k2] {
                            assert(k2 < k);
                            let i = choose|i: int| 0 <= i < prev.len() && (#[trigger] prev[i]).0 == l2;
                            assert(next[i] == prev[i]);
                        }
                    }
                    assert forall|i: int, q: int| 0 <= i < next.len() && 0 <= q < next[i].1.len() implies occurs_in(
                        s,
                        #[trigger] next[i].1[q],
                        n,
                    ) by {
                        if i < prev.len() {
                            assert(next[i] == prev[i]);
                            assert(occurs_in(s, prev[i].1[q], k));
                            let k2 = choose|k2: int| 0 <= k2 < k && #[trigger] s[k2] == prev[i].1[q];
                            assert(s[k2] == next[i].1[q]);
                        } else {
                            assert(next[i].1[q] == s[k]);
                        }
                    }
                },
            }
        } else {
            assert(k > 0);
            assert(prev.len() > 0);
            assert(!(s[k] is Label));
            assert(next == prev.update(prev.len() - 1, (prev.last().0, prev.last().1.push(s[k]))));
            assert(auto_count(s, n) == auto_count(s, k));
            assert forall|i: int, j: int| 0 <= i < j < next.len() implies (#[trigger] next[i]).0 != (
            #[trigger] next[j]).0 by {
                assert(next[i].0 == prev[i].0 && next[j].0 == prev[j].0);
            }
            assert forall|k2: int| 0 <= k2 < n implies (#[trigger] s[k2] matches IrInst::Label(l2) ==> exists|
                i: int,
            | 0 <= i < next.len() && (#[trigger] next[i]).0 == l2) by {
                if let IrInst::Label(l2) = s[k2] {
                    assert(k2 < k);
                    let i = choose|i: int| 0 <= i < prev.len() && (#[trigger] prev[i]).0 == l2;
                    assert(next[i].0 == prev[i].0);
                }
            }
            assert forall|i: int| 0 <= i < next.len() implies labelled_at(s, (#[trigger] next[i]).0, n) || (base
                < next[i].0.0 <= base + auto_count(s, n)) by {
                assert(next[i].0 == prev[i].0);
            }
            assert forall|i: int, q: int| 0 <= i < next.len() && 0 <= q < next[i].1.len() implies occurs_in(
                s,
                #[trigger] next[i].1[q],
                n,
            ) by {
                if i < prev.len() - 1 {
                    assert(next[i] == prev[i]);
                    assert(occurs_in(s, prev[i].1[q], k));
                    let k2 = choose|k2: int| 0 <= k2 < k && #[trigger] s[k2] == prev[i].1[q];
                    assert(s[k2] == next[i].1[q]);
                } else if q < prev[i].1.len() {
                    assert(next[i].1[q] == prev[i].1[q]);
                    assert(occurs_in(s, prev[i].1[q], k));
                    let k2 = choose|k2: int| 0 <= k2 < k && #[trigger] s[k2] == prev[i].1[q];
                    assert(s[k2] == next[i].1[q]);
                } else {
                    assert(next[i].1[q] == s[k]);
                }
            }
        }
    }
}

proof fn lemma_preds_upto(pb: Seq<(IrLabel, Seq<IrInst>)>, j: int, n: int)
    requires
        0 <= n <= pb.len(),
        0 <= j < pb.len(),
    ensures
        forall|x: IrLabel|
            #[trigger] preds_upto(pb, j, n).contains(x) <==> (is_last_with_label(pb, j) && exists|i: int|
                0 <= i < n && pb[i].0 == x && #[trigger] succs_of(pb, i).contains(pb[j].0)),
    decreases n,
{
    if n > 0 {
        lemma_preds_upto(pb, j, n - 1);
        let p = preds_upto(pb, j, n - 1);
        assert forall|x: IrLabel|
            #[trigger] preds_upto(pb, j, n).contains(x) <==> (is_last_with_label(pb, j) && exists|i: int|
                0 <= i < n && pb[i].0 == x && #[trigger] succs_of(pb, i).contains(pb[j].0)) by {
            if is_last_with_label(pb, j) && succs_of(pb, n - 1).contains(pb[j].0) {
                let a = add_label(p, pb[n - 1].0);
                assert(a.contains(x) <==> (p.contains(x) || x == pb[n - 1].0)) by {
                    if !p.contains(pb[n - 1].0) {
                        if a.contains(x) {
                            let w = choose|w: int| 0 <= w < a.len() && a[w] == x;
                            if w < p.len() {
                                assert(p[w] == x);
                            }
                        }
                        if p.contains(x) {
                            let w = choose|w: int| 0 <= w < p.len() && p[w] == x;
                            assert(a[w] == x);
                        }
                        assert(a[p.len() as int] == pb[n - 1].0);
                    }
                }
            }
        }
    }
}

proof fn lemma_succs_of(pb: Seq<(IrLabel, Seq<IrInst>)>, i: int)
    requires
        0 <= i < pb.len(),
    ensures
        forall|x: IrLabel|
            #[trigger] succs_of(pb, i).contains(x) ==> (falls_through(pb, i) && x == pb[i + 1].0) || (
            last_terminator(pb[i].1) >= 0 && inst_jump_targets(pb[i].1[last_terminator(pb[i].1)]).contains(x)),
{
    let body = pb[i].1;
    let t = last_terminator(body);
    let e = exit_targets(body);
    assert forall|x: IrLabel| #[trigger] e.0.contains(x) implies t >= 0 && inst_jump_targets(body[t]).contains(
        x,
    ) by {
        let w = choose|w: int| 0 <= w < e.0.len() && e.0[w] == x;
        assert(inst_jump_targets(body[t])[w] == x);
    }
    assert forall|x: IrLabel| #[trigger] succs_of(pb, i).contains(x) implies (falls_through(pb, i) && x == pb[i
        + 1].0) || (t >= 0 && inst_jump_targets(body[t]).contains(x)) by {
        if falls_through(pb, i) && !e.0.contains(pb[i + 1].0) {
            let a = e.0.push(pb[i + 1].0);
            let w = choose|w: int| 0 <= w < a.len() && a[w] == x;
            if w < e.0.len() {
                assert(e.0[w] == x);
            }
        }
    }
}

proof fn lemma_first_is(r: Seq<BasicBlock>, j: int)
    requires
        labels_unique(r),
        0 <= j < r.len(),
    ensures
        first_index(r, r[j].label) == j,
        has_block(r, r[j].label),
{
    lemma_first_index(r, r[j].label);
    let f = first_index(r, r[j].label);
    if f < 0 || f > j {
        assert(r[j].label != r[j].label);
    }
    if f >= 0 && f < j {
        assert(r[f].label != r[j].label);
    }
    assert(r[j].label == r[j].label);
}

proof fn lemma_same_inst_not_phi(a: IrInst, b: IrInst)
    requires
        same_inst(a, b),
        !(b is Phi),
    ensures
        !(a is Phi),
{
}

proof fn lemma_same_inst_jump(a: IrInst, l: IrLabel)
    requires
        same_inst(a, IrInst::Jump(l)),
    ensures
        a == IrInst::Jump(l),
{
}

/// The facts about a built graph that the checks of one block rest on.
pub open spec fn built_context(s: Seq<IrInst>, cfg: ControlFlowGraph) -> bool {
    let pb = pre_blocks(s, s.len() as int, label_floor(s));
    &&& s.len() > 0
    &&& label_floor(s) + s.len() < usize::MAX
    &&& labels_distinct(s)
    &&& targets_declared(s)
    &&& no_phis(s)
    &&& built_from(s, cfg)
    &&& labels_unique(cfg.blocks@)
    &&& forall|i: int, j: int| 0 <= i < j < pb.len() ==> (#[trigger] pb[i]).0 != (#[trigger] pb[j]).0
    &&& forall|k: int|
        0 <= k < s.len() ==> (#[trigger] s[k] matches IrInst::Label(l) ==> exists|i: int|
            0 <= i < pb.len() && (#[trigger] pb[i]).0 == l)
    &&& forall|i: int, q: int|
        0 <= i < pb.len() && 0 <= q < pb[i].1.len() ==> occurs_in(s, #[trigger] pb[i].1[q], s.len() as int)
}

proof fn lemma_declared_block(s: Seq<IrInst>, cfg: ControlFlowGraph, l: IrLabel)
    requires
        built_context(s, cfg),
        labelled_at(s, l, s.len() as int),
    ensures
        has_block(cfg.blocks@, l),
{
    let pb = pre_blocks(s, s.len() as int, label_floor(s));
    let k = choose|k: int| 0 <= k < s.len() && #[trigger] s[k] == IrInst::Label(l);
    assert(s[k] matches IrInst::Label(l2) && l2 == l);
    let i = choose|i: int| 0 <= i < pb.len() && (#[trigger] pb[i]).0 == l;
    assert(cfg.blocks@[i].label == l);
}

proof fn lemma_input_targets(s: Seq<IrInst>, cfg: ControlFlowGraph, x: IrInst, l: IrLabel)
    requires
        built_context(s, cfg),
        occurs_in(s, x, s.len() as int),
        inst_jump_targets(x).contains(l),
    ensures
        has_block(cfg.blocks@, l),
        !(x is Phi),
{
    let k = choose|k: int| 0 <= k < s.len() && #[trigger] s[k] == x;
    let t = choose|t: int| 0 <= t < inst_jump_targets(x).len() && inst_jump_targets(x)[t] == l;
    assert(inst_jump_targets(s[k])[t] == l);
    assert(labelled_at(s, inst_jump_targets(s[k])[t], s.len() as int));
    lemma_declared_block(s, cfg, l);
}

proof fn lemma_block_checks(s: Seq<IrInst>, cfg: ControlFlowGraph, i: int)
    requires
        built_context(s, cfg),
        0 <= i < cfg.blocks@.len(),
    ensures
        block_ok(cfg.blocks@, cfg.blocks@[i]),
{
    let pb = pre_blocks(s, s.len() as int, label_floor(s));
    let r = cfg.blocks@;
    let b = r[i];
    let bi = block_insts(pb, i);
    assert(b.label == pb[i].0);
    assert(same_insts(b.instructions@, bi));
    // Where each instruction of the block comes from.
    assert forall|q: int| 0 <= q < bi.len() implies (q < pb[i].1.len() && #[trigger] bi[q] == pb[i].1[q]
        && occurs_in(s, bi[q], s.len() as int)) || (falls_through(pb, i) && q == pb[i].1.len() && bi[q]
        == IrInst::Jump(pb[i + 1].0)) by {
        if q < pb[i].1.len() {
            assert(bi[q] == pb[i].1[q]);
        }
    }
    // Jump targets.
    assert forall|q: int, t: int|
        0 <= q < b.instructions@.len() && 0 <= t < inst_jump_targets(b.instructions@[q]).len() implies has_block(
        r,
        #[trigger] inst_jump_targets(#[trigger] b.instructions@[q])[t],
    ) by {
        lemma_same_inst_alike(b.instructions@[q], bi[q]);
        let l = inst_jump_targets(b.instructions@[q])[t];
        assert(inst_jump_targets(bi[q]).contains(l)) by {
            assert(inst_jump_targets(bi[q])[t] == l);
        }
        if q < pb[i].1.len() {
            lemma_input_targets(s, cfg, bi[q], l);
        } else {
            assert(r[i + 1].label == pb[i + 1].0);
            assert(inst_jump_targets(IrInst::Jump(pb[i + 1].0)) == seq![pb[i + 1].0]);
            assert(l == pb[i + 1].0);
        }
    }
    assert(jumps_ok(r, b));
    // Successors.
    lemma_succs_of(pb, i);
    assert forall|k: int| 0 <= k < b.successors@.len() implies has_block(r, #[trigger] b.successors@[k])
        && r[first_index(r, b.successors@[k])].predecessors@.contains(b.label) by {
        let x = b.successors@[k];
        assert(succs_of(pb, i).contains(x)) by {
            assert(succs_of(pb, i)[k] == x);
        }
        if falls_through(pb, i) && x == pb[i + 1].0 {
            assert(r[i + 1].label == x);
        } else {
            let t = last_terminator(pb[i].1);
            lemma_last_terminator(pb[i].1);
            lemma_input_targets(s, cfg, pb[i].1[t], x);
        }
        let j = choose|jj: int| 0 <= jj < r.len() && (#[trigger] r[jj]).label == x;
        lemma_first_is(r, j);
        assert(r[j].label == pb[j].0);
        lemma_preds_upto(pb, j, pb.len() as int);
        assert(is_last_with_label(pb, j)) by {
            assert forall|m: int| j < m < pb.len() implies (#[trigger] pb[m]).0 != pb[j].0 by {
                assert(pb[j].0 != pb[m].0);
            }
        }
        assert(pb[i].0 == b.label && succs_of(pb, i).contains(pb[j].0));
        assert(preds_upto(pb, j, pb.len() as int).contains(b.label));
    }
    assert(successors_ok(r, b));
    // Predecessors.
    lemma_preds_upto(pb, i, pb.len() as int);
    assert forall|k: int| 0 <= k < b.predecessors@.len() implies has_block(r, #[trigger] b.predecessors@[k])
        && r[first_index(r, b.predecessors@[k])].successors@.contains(b.label) by {
        let p = b.predecessors@[k];
        assert(preds_upto(pb, i, pb.len() as int).contains(p)) by {
            assert(preds_upto(pb, i, pb.len() as int)[k] == p);
        }
        let m = choose|m: int|
            0 <= m < pb.len() && pb[m].0 == p && #[trigger] succs_of(pb, m).contains(pb[i].0);
        assert(r[m].label == p);
        lemma_first_is(r, m);
        assert(r[m].successors@ == succs_of(pb, m));
    }
    assert(predecessors_ok(r, b));
    // The terminator.
    lemma_same_insts_last_terminator(b.instructions@, bi);
    let t = last_terminator(bi);
    if falls_through(pb, i) {
        assert(bi == pb[i].1.push(IrInst::Jump(pb[i + 1].0)));
        assert(bi.drop_last() == pb[i].1);
        assert(last_terminator(bi) == pb[i].1.len());
        lemma_same_inst_jump(b.instructions@[t], pb[i + 1].0);
        assert(b.successors@ == add_label(exit_targets(pb[i].1).0, pb[i + 1].0));
        assert(b.successors@.contains(pb[i + 1].0)) by {
            if !exit_targets(pb[i].1).0.contains(pb[i + 1].0) {
                assert(b.successors@[exit_targets(pb[i].1).0.len() as int] == pb[i + 1].0);
            }
        }
    } else if t >= 0 {
        lemma_last_terminator(bi);
        assert(same_inst(b.instructions@[t], bi[t]));
        match bi[t] {
            IrInst::Jump(x) => {
                lemma_same_inst_jump(b.instructions@[t], x);
                assert(b.successors@ == seq![x]);
                assert(b.successors@[0] == x);
            },
            _ => {},
        }
    }
    assert(terminator_ok(b));
    // Phis.
    assert forall|q: int| 0 <= q < b.instructions@.len() implies !(#[trigger] b.instructions@[q] is Phi) by {
        if q < pb[i].1.len() {
            let k = choose|k: int| 0 <= k < s.len() && #[trigger] s[k] == bi[q];
            assert(!(s[k] is Phi));
        }
        lemma_same_inst_not_phi(b.instructions@[q], bi[q]);
    }
    assert(phis_first(b.instructions@));
}

/// A graph built from a flat instruction list that declares each label
/// once, jumps only to declared labels and holds no phis passes every
/// integrity check of `verify_cfg`.
pub proof fn lemma_built_cfg_verifies(s: Seq<IrInst>, cfg: ControlFlowGraph)
    requires
        label_floor(s) + s.len() < usize::MAX,
        labels_distinct(s),
        targets_declared(s),
        no_phis(s),
        built_from(s, cfg),
    ensures
        cfg_ok(cfg),
{
    let r = cfg.blocks@;
    if s.len() == 0 {
        assert(r[0].label == IrLabel(0));
        assert(has_block(r, cfg.entry_label));
        assert forall|i: int| 0 <= i < r.len() implies block_ok(r, #[trigger] r[i]) by {
            assert(i == 0);
            assert(last_terminator(r[0].instructions@) == -1);
        }
    } else {
        let base = label_floor(s);
        let pb = pre_blocks(s, s.len() as int, base);
        lemma_label_floor(s);
        lemma_pre_blocks_shape(s, s.len() as int, base);
        assert forall|i: int, j: int| 0 <= i < j < r.len() implies #[trigger] r[i].label != #[trigger] r[j].label by {
            assert(r[i].label == pb[i].0 && r[j].label == pb[j].0);
        }
        assert(built_context(s, cfg));
        assert(r[0].label == cfg.entry_label);
        assert(has_block(r, cfg.entry_label));
        assert forall|i: int| 0 <= i < r.len() implies block_ok(r, #[trigger] r[i]) by {
            lemma_block_checks(s, cfg, i);
        }
    }
}

} // verus!
