//! Natural loops found by dominator analysis, and hoisting of loop-invariant
//! instructions out of them.
use vstd::prelude::*;

use crate::compiler::ir::block::{take_block, BasicBlock, ControlFlowGraph};
use crate::compiler::ir::dom::{pairs_get, walk_meets, DominatorTree};
use crate::compiler::ir::inst::{inst_def_var, inst_def_vars, inst_is_terminator, inst_use_vars, IrInst};
use crate::compiler::ir::liveness::{contains_var, insert_var, label_seen, lemma_push_to_set};
use crate::compiler::ir::opt::simplify_cfg::{index_of_label, model_index, models, BlockModel};
use crate::compiler::ir::opt::{captured_in_blocks, captured_vars};
use crate::compiler::ir::types::{IrLabel, IrVar};
use crate::compiler::ir::verify::{first_index, lemma_first_index};

verus! {

/// A loop with one entry block, found from a back edge.
#[derive(Debug, Clone)]
pub struct NaturalLoop {
    pub header: IrLabel,
    pub back_edge_source: IrLabel,
    pub body: Vec<IrLabel>,
}

/// The predecessors of the first block labelled `l` (none without one).
pub open spec fn preds_of_label(bs: Seq<BasicBlock>, l: IrLabel) -> Seq<IrLabel> {
    let f = first_index(bs, l);
    if f >= 0 {
        bs[f].predecessors@
    } else {
        Seq::empty()
    }
}

/// Whether `s` holds the header `h` and the back-edge source `n` and, for
/// each of its labels other than the header (the source always counts),
/// the predecessors.
pub open spec fn loop_closed(bs: Seq<BasicBlock>, h: IrLabel, n: IrLabel, s: Set<IrLabel>) -> bool {
    &&& s.contains(h)
    &&& s.contains(n)
    &&& forall|c: IrLabel, k: int|
        s.contains(c) && (c != h || c == n) && 0 <= k < preds_of_label(bs, c).len() ==> s.contains(
            #[trigger] preds_of_label(bs, c)[k],
        )
}

/// Whether `s` is the body of the natural loop of the back edge `n -> h`:
/// the least set as `loop_closed` describes.
pub open spec fn is_loop_body(bs: Seq<BasicBlock>, h: IrLabel, n: IrLabel, s: Set<IrLabel>) -> bool {
    &&& loop_closed(bs, h, n, s)
    &&& forall|t: Set<IrLabel>| #[trigger] loop_closed(bs, h, n, t) ==> s.subset_of(t)
}

/// Whether block `a` dominates block `b` by the recorded immediate
/// dominators (see `DominatorTree::dominates`).
pub open spec fn dominates_by(idom: Seq<(IrLabel, IrLabel)>, a: IrLabel, b: IrLabel) -> bool {
    a == b || walk_meets(idom, a, b, 0)
}

/// The back edges (header, source) from block `b` among its first `k`
/// successors: those to a block that dominates it.
pub open spec fn block_back_edges(b: BasicBlock, idom: Seq<(IrLabel, IrLabel)>, k: int) -> Seq<(IrLabel, IrLabel)>
    decreases k,
{
    if k <= 0 {
        Seq::empty()
    } else {
        let prev = block_back_edges(b, idom, k - 1);
        let h = b.successors@[k - 1];
        if dominates_by(idom, h, b.label) {
            prev.push((h, b.label))
        } else {
            prev
        }
    }
}

/// The back edges of the first `i` blocks, block by block.
pub open spec fn back_edges(bs: Seq<BasicBlock>, idom: Seq<(IrLabel, IrLabel)>, i: int) -> Seq<(IrLabel, IrLabel)>
    decreases i,
{
    if i <= 0 {
        Seq::empty()
    } else {
        back_edges(bs, idom, i - 1) + block_back_edges(bs[i - 1], idom, bs[i - 1].successors@.len() as int)
    }
}

/// Every predecessor entry of the first `i` blocks.
pub open spec fn all_preds(bs: Seq<BasicBlock>, i: int) -> Seq<IrLabel>
    decreases i,
{
    if i <= 0 {
        Seq::empty()
    } else {
        all_preds(bs, i - 1) + bs[i - 1].predecessors@
    }
}

proof fn lemma_all_preds_has(bs: Seq<BasicBlock>, i: int, j: int, k: int)
    requires
        0 <= j < i <= bs.len(),
        0 <= k < bs[j].predecessors@.len(),
    ensures
        all_preds(bs, i).contains(bs[j].predecessors@[k]),
    decreases i,
{
    if j < i - 1 {
        lemma_all_preds_has(bs, i - 1, j, k);
        let a = all_preds(bs, i - 1);
        let q = choose|q: int| 0 <= q < a.len() && a[q] == bs[j].predecessors@[k];
        assert(all_preds(bs, i)[q] == a[q]);
    } else {
        let a = all_preds(bs, i - 1);
        assert(all_preds(bs, i)[a.len() + k] == bs[j].predecessors@[k]);
    }
}

proof fn lemma_no_dup_bounded(s: Seq<IrLabel>, u: Seq<IrLabel>)
    requires
        s.no_duplicates(),
        forall|k: int| 0 <= k < s.len() ==> u.contains(#[trigger] s[k]),
    ensures
        s.len() <= u.len(),
{
    s.unique_seq_to_set();
    u.lemma_cardinality_of_set();
    assert(s.to_set().subset_of(u.to_set())) by {
        assert forall|x: IrLabel| s.to_set().contains(x) implies u.to_set().contains(x) by {
            let k = choose|k: int| 0 <= k < s.len() && s[k] == x;
            assert(u.contains(s[k]));
        }
    }
    vstd::set_lib::lemma_len_subset(s.to_set(), u.to_set());
}

proof fn lemma_first_index_is(bs: Seq<BasicBlock>, l: IrLabel, i: int)
    requires
        (i >= 0 && i < bs.len() && bs[i].label == l && forall|j: int| 0 <= j < i ==> (#[trigger] bs[j]).label != l) || (i
            == -1 && forall|j: int| 0 <= j < bs.len() ==> (#[trigger] bs[j]).label != l),
    ensures
        first_index(bs, l) == i,
{
    lemma_first_index(bs, l);
    let f = first_index(bs, l);
    if f >= 0 && i >= 0 {
        if f < i {
            assert(bs[f].label != l);
        } else if i < f {
            assert(bs[i].label != l);
        }
    }
    if f >= 0 && i < 0 {
        assert(bs[f].label != l);
    }
    if f < 0 && i >= 0 {
        assert(bs[i].label != l);
    }
}


/// The body of the natural loop of the back edge `n -> h`: starting from
/// `h` and `n`, the predecessors of each label reached (other than `h`)
/// are added, working from `n` backward.
fn loop_body(cfg: &ControlFlowGraph, h: IrLabel, n: IrLabel) -> (r: Vec<IrLabel>)
    ensures
        r@.no_duplicates(),
        is_loop_body(cfg.blocks@, h, n, r@.to_set()),
{
    let ghost bs = cfg.blocks@;
    let ghost u = seq![h, n] + all_preds(bs, bs.len() as int);
    let mut body: Vec<IrLabel> = Vec::new();
    body.push(h);
    if n != h {
        body.push(n);
    }
    let mut stack: Vec<IrLabel> = Vec::new();
    stack.push(n);
    proof {
        assert(body@[0] == h);
        if n != h {
            assert(body@[1] == n);
        }
        assert(u[0] == h && u[1] == n);
        assert forall|t: Set<IrLabel>, k: int| loop_closed(bs, h, n, t) && 0 <= k < body@.len() implies #[trigger] t.contains(body@[k]) by {}
        assert(stack@[0] == n);
        assert forall|c: IrLabel, k: int|
            body@.contains(c) && (c != h || c == n) && 0 <= k < preds_of_label(bs, c).len() implies stack@.contains(c)
                || body@.contains(#[trigger] preds_of_label(bs, c)[k]) by {
            let w = choose|w: int| 0 <= w < body@.len() && body@[w] == c;
            assert(c == n);
        }
    }
    while stack.len() > 0
        invariant
            bs == cfg.blocks@,
            u == seq![h, n] + all_preds(bs, bs.len() as int),
            body@.no_duplicates(),
            body@.contains(h),
            body@.contains(n),
            forall|k: int| 0 <= k < body@.len() ==> u.contains(#[trigger] body@[k]),
            forall|k: int| 0 <= k < stack@.len() ==> body@.contains(#[trigger] stack@[k]),
            forall|k: int| 0 <= k < stack@.len() ==> (#[trigger] stack@[k] != h || stack@[k] == n),
            forall|t: Set<IrLabel>, k: int| loop_closed(bs, h, n, t) && 0 <= k < body@.len() ==> #[trigger] t.contains(body@[k]),
            forall|c: IrLabel, k: int|
                body@.contains(c) && (c != h || c == n) && 0 <= k < preds_of_label(bs, c).len() ==> stack@.contains(c)
                    || body@.contains(#[trigger] preds_of_label(bs, c)[k]),
        decreases u.len() - body@.len(), stack@.len(),
    {
        proof {
            lemma_no_dup_bounded(body@, u);
        }
        let ghost s_old = stack@;
        let cur = stack.pop().unwrap();
        let ghost st0 = stack@;
        assert(s_old =~= st0.push(cur));
        let ghost body0 = body@;
        assert(body@.contains(cur));
        assert(cur != h || cur == n);
        let idx = cfg.block_index(cur);
        match idx {
            Some(i) => {
                proof {
                    lemma_first_index_is(bs, cur, i as int);
                }
                let preds = &cfg.blocks[i].predecessors;
                assert(preds@ == preds_of_label(bs, cur));
                let mut k: usize = 0;
                while k < preds.len()
                    invariant
                        bs == cfg.blocks@,
                        u == seq![h, n] + all_preds(bs, bs.len() as int),
                        i < bs.len(),
                        preds@ == bs[i as int].predecessors@,
                        preds@ == preds_of_label(bs, cur),
                        k <= preds@.len(),
                        body@.no_duplicates(),
                        body@.contains(h),
                        body@.contains(n),
                        body@.contains(cur),
                        cur != h || cur == n,
                        forall|q: int| 0 <= q < body0.len() ==> body@[q] == body0[q],
                        body0.len() <= body@.len(),
                        forall|q: int| 0 <= q < body@.len() ==> u.contains(#[trigger] body@[q]),
                        forall|q: int| 0 <= q < stack@.len() ==> body@.contains(#[trigger] stack@[q]),
                        forall|q: int| 0 <= q < stack@.len() ==> (#[trigger] stack@[q] != h || stack@[q] == n),
                        forall|t: Set<IrLabel>, q: int| loop_closed(bs, h, n, t) && 0 <= q < body@.len() ==> #[trigger] t.contains(body@[q]),
                        forall|q: int| 0 <= q < k ==> body@.contains(#[trigger] preds@[q]),
                        stack@.len() >= st0.len(),
                        forall|q: int| 0 <= q < st0.len() ==> stack@[q] == st0[q],
                        stack@.len() - st0.len() == body@.len() - body0.len(),
                        forall|q: int| 0 <= q < body@.len() - body0.len() ==> stack@[st0.len() + q] == #[trigger] body@[body0.len() + q],
                    decreases preds@.len() - k,
                {
                    let p = preds[k];
                    let seen = label_seen(&body, p);
                    if !seen {
                        let ghost b1 = body@;
                        let ghost s1 = stack@;
                        proof {
                            lemma_all_preds_has(bs, bs.len() as int, i as int, k as int);
                            let a = all_preds(bs, bs.len() as int);
                            let w = choose|w: int| 0 <= w < a.len() && a[w] == p;
                            assert(u[w + 2] == p);
                            assert(!body@.contains(p));
                        }
                        body.push(p);
                        stack.push(p);
                        proof {
                            assert forall|q2: int| 0 <= q2 < body@.len() - body0.len() implies stack@[st0.len() + q2] == #[trigger] body@[body0.len() + q2] by {
                                if q2 < b1.len() - body0.len() {
                                    assert(stack@[st0.len() + q2] == s1[st0.len() + q2]);
                                    assert(body@[body0.len() + q2] == b1[body0.len() + q2]);
                                }
                            }
                            assert forall|t: Set<IrLabel>, q2: int| loop_closed(bs, h, n, t) && 0 <= q2 < body@.len() implies #[trigger] t.contains(body@[q2]) by {
                                if q2 < b1.len() {
                                    assert(body@[q2] == b1[q2]);
                                } else {
                                    assert(b1.contains(cur));
                                    let w = choose|w: int| 0 <= w < b1.len() && b1[w] == cur;
                                    assert(t.contains(b1[w]));
                                    assert(preds_of_label(bs, cur)[k as int] == p);
                                }
                            }
                            assert forall|q2: int| 0 <= q2 < stack@.len() implies body@.contains(#[trigger] stack@[q2]) by {
                                if q2 < s1.len() {
                                    assert(b1.contains(s1[q2]));
                                    let w = choose|w: int| 0 <= w < b1.len() && b1[w] == s1[q2];
                                    assert(body@[w] == s1[q2]);
                                } else {
                                    assert(body@[b1.len() as int] == p);
                                }
                            }
                            assert(b1.contains(h) && b1.contains(n) && b1.contains(cur));
                            let wh = choose|w: int| 0 <= w < b1.len() && b1[w] == h;
                            assert(body@[wh] == h);
                            let wn = choose|w: int| 0 <= w < b1.len() && b1[w] == n;
                            assert(body@[wn] == n);
                            let wc = choose|w: int| 0 <= w < b1.len() && b1[w] == cur;
                            assert(body@[wc] == cur);
                            assert forall|q2: int| 0 <= q2 < k + 1 implies body@.contains(#[trigger] preds@[q2]) by {
                                if q2 < k {
                                    assert(b1.contains(preds@[q2]));
                                    let w = choose|w: int| 0 <= w < b1.len() && b1[w] == preds@[q2];
                                    assert(body@[w] == preds@[q2]);
                                } else {
                                    assert(body@[b1.len() as int] == p);
                                }
                            }
                            assert forall|q2: int| 0 <= q2 < body@.len() implies u.contains(#[trigger] body@[q2]) by {
                                if q2 < b1.len() {
                                    assert(body@[q2] == b1[q2]);
                                }
                            }
                        }
                    }
                    k = k + 1;
                }
            },
            None => {
                proof {
                    lemma_first_index_is(bs, cur, -1);
                }
            },
        }
        proof {
            lemma_no_dup_bounded(body@, u);
            assert(forall|q: int| 0 <= q < st0.len() ==> stack@[q] == st0[q]);
            assert(forall|q: int| 0 <= q < body@.len() - body0.len() ==> stack@[st0.len() + q] == #[trigger] body@[body0.len() + q]);
            assert forall|c: IrLabel, k: int|
                body@.contains(c) && (c != h || c == n) && 0 <= k < preds_of_label(bs, c).len() implies stack@.contains(c)
                    || body@.contains(#[trigger] preds_of_label(bs, c)[k]) by {
                if c == cur {
                } else if body0.contains(c) {
                    let w = choose|w: int| 0 <= w < body0.len() && body0[w] == c;
                    assert(body@[w] == c);
                    assert(s_old.contains(c) || body0.contains(preds_of_label(bs, c)[k]));
                    if (st0.push(cur)).contains(c) {
                        let w2 = choose|w2: int| 0 <= w2 < st0.push(cur).len() && st0.push(cur)[w2] == c;
                        assert(w2 < st0.len());
                        assert(st0[w2] == c);
                        assert(stack@[w2] == st0[w2]);
                    } else {
                        assert(body0.contains(preds_of_label(bs, c)[k]));
                        let w3 = choose|w3: int| 0 <= w3 < body0.len() && body0[w3] == preds_of_label(bs, c)[k];
                        assert(body@[w3] == body0[w3]);
                    }
                } else {
                    let w = choose|w: int| 0 <= w < body@.len() && body@[w] == c;
                    if w < body0.len() {
                        assert(body@[w] == body0[w]);
                    }
                    assert(w >= body0.len());
                    let q = w - body0.len();
                    assert(body@[body0.len() + q] == c);
                    assert(stack@[st0.len() + q] == body@[body0.len() + q]);
                }
            }
        }
    }
    proof {
        assert forall|c: IrLabel, k: int|
            body@.to_set().contains(c) && (c != h || c == n) && 0 <= k < preds_of_label(bs, c).len() implies body@.to_set().contains(
            #[trigger] preds_of_label(bs, c)[k]) by {
            assert(body@.contains(preds_of_label(bs, c)[k]));
        }
        assert(loop_closed(bs, h, n, body@.to_set()));
        assert forall|t: Set<IrLabel>| #[trigger] loop_closed(bs, h, n, t) implies body@.to_set().subset_of(t) by {
            assert forall|x: IrLabel| body@.to_set().contains(x) implies t.contains(x) by {
                let w = choose|w: int| 0 <= w < body@.len() && body@[w] == x;
                assert(t.contains(body@[w]));
            }
        }
    }
    body
}

/// The natural loop of every back edge `n -> h` (an edge to a block that
/// dominates its source), block by block and successor by successor: its
/// header, source and body (see `is_loop_body`).
pub fn find_natural_loops(cfg: &ControlFlowGraph, dom: &DominatorTree) -> (r: Vec<NaturalLoop>)
    ensures
        r@.len() == back_edges(cfg.blocks@, dom.idom@, cfg.blocks@.len() as int).len(),
        forall|i: int|
            0 <= i < r@.len() ==> {
                let e = back_edges(cfg.blocks@, dom.idom@, cfg.blocks@.len() as int)[i];
                &&& (#[trigger] r@[i]).header == e.0
                &&& r@[i].back_edge_source == e.1
                &&& r@[i].body@.no_duplicates()
                &&& is_loop_body(cfg.blocks@, e.0, e.1, r@[i].body@.to_set())
            },
{
    let ghost bs = cfg.blocks@;
    let mut loops: Vec<NaturalLoop> = Vec::new();
    let mut j: usize = 0;
    while j < cfg.blocks.len()
        invariant
            j <= bs.len(),
            bs == cfg.blocks@,
            loops@.len() == back_edges(bs, dom.idom@, j as int).len(),
            forall|i: int|
                0 <= i < loops@.len() ==> {
                    let e = back_edges(bs, dom.idom@, j as int)[i];
                    &&& (#[trigger] loops@[i]).header == e.0
                    &&& loops@[i].back_edge_source == e.1
                    &&& loops@[i].body@.no_duplicates()
                    &&& is_loop_body(bs, e.0, e.1, loops@[i].body@.to_set())
                },
        decreases bs.len() - j,
    {
        let block = &cfg.blocks[j];
        let n = block.label;
        let ghost base = back_edges(bs, dom.idom@, j as int);
        let mut k: usize = 0;
        while k < block.successors.len()
            invariant
                k <= block.successors@.len(),
                bs == cfg.blocks@,
                block == bs[j as int],
                n == block.label,
                base == back_edges(bs, dom.idom@, j as int),
                loops@.len() == (base + block_back_edges(*block, dom.idom@, k as int)).len(),
                forall|i: int|
                    0 <= i < loops@.len() ==> {
                        let e = (base + block_back_edges(*block, dom.idom@, k as int))[i];
                        &&& (#[trigger] loops@[i]).header == e.0
                        &&& loops@[i].back_edge_source == e.1
                        &&& loops@[i].body@.no_duplicates()
                        &&& is_loop_body(bs, e.0, e.1, loops@[i].body@.to_set())
                    },
            decreases block.successors@.len() - k,
        {
            let h = block.successors[k];
            let ghost prev = base + block_back_edges(*block, dom.idom@, k as int);
            if dom.dominates(h, n) {
                let body = loop_body(cfg, h, n);
                loops.push(NaturalLoop { header: h, back_edge_source: n, body });
                assert(base + block_back_edges(*block, dom.idom@, k + 1) =~= prev.push((h, n)));
            } else {
                assert(base + block_back_edges(*block, dom.idom@, k + 1) =~= prev);
            }
            k = k + 1;
        }
        assert(back_edges(bs, dom.idom@, j + 1) == base + block_back_edges(*block, dom.idom@, block.successors@.len() as int));
        j = j + 1;
    }
    loops
}

/// Whether an instruction may run earlier, and more or fewer times, than
/// written: loading a constant or copying a variable (any other can raise an
/// error or call a metamethod, and a table constructor must run once per
/// iteration).
pub open spec fn hoistable(i: IrInst) -> bool {
    match i {
        IrInst::LoadConst { .. } => true,
        IrInst::LoadNil { .. } => true,
        IrInst::Move { .. } => true,
        _ => false,
    }
}

/// Whether an instruction may run earlier than written (see `hoistable`).
pub fn is_hoistable(inst: &IrInst) -> (r: bool)
    ensures
        r == hoistable(*inst),
{
    match inst {
        IrInst::LoadConst { .. } | IrInst::LoadNil { .. } | IrInst::Move { .. } => true,
        _ => false,
    }
}

/// How often `v` occurs in `s`.
pub open spec fn count_in(s: Seq<IrVar>, v: IrVar) -> nat
    decreases s.len(),
{
    if s.len() == 0 {
        0
    } else {
        count_in(s.drop_last(), v) + if s.last() == v {
            1nat
        } else {
            0nat
        }
    }
}

/// How often the first `k` of `s` write `v`.
pub open spec fn writes_in(s: Seq<IrInst>, v: IrVar, k: int) -> nat
    decreases k,
{
    if k <= 0 {
        0
    } else {
        writes_in(s, v, k - 1) + count_in(inst_def_vars(s[k - 1]), v)
    }
}

/// How often the first `n` blocks write `v`.
pub open spec fn writes_of(m: Seq<BlockModel>, v: IrVar, n: int) -> nat
    decreases n,
{
    if n <= 0 {
        0
    } else {
        writes_of(m, v, n - 1) + writes_in(m[n - 1].insts, v, m[n - 1].insts.len() as int)
    }
}

/// Whether an instruction may leave its loop: it is hoistable, and each
/// variable it writes is written nowhere else (`single(v)`) and captured by
/// no closure.
pub open spec fn movable(i: IrInst, captured: Set<IrVar>, single: spec_fn(IrVar) -> bool) -> bool {
    &&& hoistable(i)
    &&& forall|k: int| 0 <= k < inst_def_vars(i).len() ==> !captured.contains(#[trigger] inst_def_vars(i)[k])
    &&& forall|k: int| 0 <= k < inst_def_vars(i).len() ==> single(#[trigger] inst_def_vars(i)[k])
}

/// The variables written in the blocks (the first labelled so) of the
/// first `k` labels of `order`.
pub open spec fn loop_defs(m: Seq<BlockModel>, order: Seq<IrLabel>, k: int) -> Set<IrVar>
    decreases k,
{
    if k <= 0 {
        Set::empty()
    } else {
        let prev = loop_defs(m, order, k - 1);
        let idx = model_index(m, order[k - 1]);
        if idx >= 0 {
            prev.union(Set::new(|v: IrVar| exists|q: int| 0 <= q < m[idx].insts.len() && inst_def_vars(#[trigger] m[idx].insts[q]).contains(v)))
        } else {
            prev
        }
    }
}

/// The scan of the first `k` instructions of a loop block: what stays, what
/// is hoisted, and the variables known invariant after it. A movable
/// instruction whose every operand is written nowhere in the loop
/// (`ldefs`) or is already known invariant is hoisted.
pub open spec fn scan_block(
    insts: Seq<IrInst>,
    ldefs: Set<IrVar>,
    inv: Set<IrVar>,
    captured: Set<IrVar>,
    single: spec_fn(IrVar) -> bool,
    k: int,
) -> (Seq<IrInst>, Seq<IrInst>, Set<IrVar>)
    decreases k,
{
    if k <= 0 {
        (Seq::empty(), Seq::empty(), inv)
    } else {
        let (rem, hoisted, inv1) = scan_block(insts, ldefs, inv, captured, single, k - 1);
        let i = insts[k - 1];
        if movable(i, captured, single) && forall|q: int|
            0 <= q < inst_use_vars(i).len() ==> !ldefs.contains(#[trigger] inst_use_vars(i)[q]) || inv1.contains(
                inst_use_vars(i)[q],
            ) {
            (
                rem,
                hoisted.push(i),
                match inst_def_var(i) {
                    Some(d) => inv1.insert(d),
                    None => inv1,
                },
            )
        } else {
            (rem.push(i), hoisted, inv1)
        }
    }
}

/// The blocks of the first `k` labels of `order` scanned in turn (the
/// header skipped): the blocks after, everything hoisted in order, and the
/// variables known invariant.
pub open spec fn hoist_blocks(
    m: Seq<BlockModel>,
    order: Seq<IrLabel>,
    header: IrLabel,
    ldefs: Set<IrVar>,
    captured: Set<IrVar>,
    single: spec_fn(IrVar) -> bool,
    k: int,
) -> (Seq<BlockModel>, Seq<IrInst>, Set<IrVar>)
    decreases k,
{
    if k <= 0 {
        (m, Seq::empty(), Set::empty())
    } else {
        let (m1, hoisted, inv) = hoist_blocks(m, order, header, ldefs, captured, single, k - 1);
        let l = order[k - 1];
        let idx = model_index(m1, l);
        if l == header || idx < 0 {
            (m1, hoisted, inv)
        } else {
            let insts = m1[idx].insts;
            let (rem, h2, inv2) = scan_block(insts, ldefs, inv, captured, single, insts.len() as int);
            (m1.update(idx, BlockModel { insts: rem, ..m1[idx] }), hoisted + h2, inv2)
        }
    }
}

/// The first of `ps` outside `body`.
pub open spec fn first_outside(ps: Seq<IrLabel>, body: Set<IrLabel>) -> Option<IrLabel>
    decreases ps.len(),
{
    if ps.len() == 0 {
        None
    } else if !body.contains(ps[0]) {
        Some(ps[0])
    } else {
        first_outside(ps.drop_first(), body)
    }
}

/// The position of the first terminator among `s`, or its length.
pub open spec fn first_terminator(s: Seq<IrInst>) -> int
    decreases s.len(),
{
    if s.len() == 0 {
        0
    } else if inst_is_terminator(s[0]) {
        0
    } else {
        1 + first_terminator(s.drop_first())
    }
}

/// One loop with header `header` and body `order` (see the steps in
/// `loop_invariant_code_motion`): unless the header has no predecessor
/// outside the body, the movable invariant instructions of the body blocks
/// are hoisted, in order, into that predecessor just before its first
/// terminator. The flag tells whether anything was hoisted.
pub open spec fn licm_loop(
    m: Seq<BlockModel>,
    header: IrLabel,
    order: Seq<IrLabel>,
    captured: Set<IrVar>,
    single: spec_fn(IrVar) -> bool,
) -> (Seq<BlockModel>, bool) {
    let hi = model_index(m, header);
    let pre = if hi >= 0 {
        first_outside(m[hi].preds, order.to_set())
    } else {
        None
    };
    match pre {
        None => (m, false),
        Some(p) => {
            let ldefs = loop_defs(m, order, order.len() as int);
            let (m1, hoisted, _) = hoist_blocks(m, order, header, ldefs, captured, single, order.len() as int);
            if hoisted.len() == 0 {
                (m1, false)
            } else {
                let pi = model_index(m1, p);
                if pi >= 0 {
                    let s = m1[pi].insts;
                    let tp = first_terminator(s);
                    (m1.update(pi, BlockModel { insts: s.take(tp) + hoisted + s.skip(tp), ..m1[pi] }), true)
                } else {
                    (m1, true)
                }
            }
        },
    }
}

/// The first `k` loops (headers `headers`, bodies `orders`) in turn, and
/// whether any hoisted something.
pub open spec fn licm_all(
    m: Seq<BlockModel>,
    headers: Seq<IrLabel>,
    orders: Seq<Seq<IrLabel>>,
    captured: Set<IrVar>,
    single: spec_fn(IrVar) -> bool,
    k: int,
) -> (Seq<BlockModel>, bool)
    decreases k,
{
    if k <= 0 {
        (m, false)
    } else {
        let (m1, c1) = licm_all(m, headers, orders, captured, single, k - 1);
        let (m2, c2) = licm_loop(m1, headers[k - 1], orders[k - 1], captured, single);
        (m2, c1 || c2)
    }
}

/// The writes of `v` recorded in `counts`, capped at two.
pub open spec fn recorded_writes(counts: Seq<(IrVar, u8)>, v: IrVar) -> int {
    match pairs_get(counts, v) {
        Some(c) => c as int,
        None => 0,
    }
}

fn bump(counts: &mut Vec<(IrVar, u8)>, v: IrVar)
    requires
        forall|w: IrVar| recorded_writes(old(counts)@, w) <= 2,
    ensures
        forall|w: IrVar| #[trigger] recorded_writes(final(counts)@, w) == if w == v {
            if recorded_writes(old(counts)@, w) < 2 {
                recorded_writes(old(counts)@, w) + 1
            } else {
                2
            }
        } else {
            recorded_writes(old(counts)@, w)
        },
{
    let ghost c0 = counts@;
    let mut i: usize = 0;
    assert(counts@.skip(0) =~= counts@);
    while i < counts.len()
        invariant
            i <= counts@.len(),
            counts@ == c0,
            c0 == old(counts)@,
            forall|q: int| 0 <= q < i ==> counts@[q].0 != v,
        decreases counts@.len() - i,
    {
        if counts[i].0 == v {
            let c = counts[i].1;
            assert(recorded_writes(c0, v) == c) by {
                lemma_first_pair(c0, v, i as int);
            }
            let nc: u8 = if c < 2 { c + 1 } else { 2 };
            counts.set(i, (v, nc));
            assert(counts@ == c0.update(i as int, (v, nc)));
            assert forall|q: int| 0 <= q < i implies counts@[q].0 != v by {
                assert(counts@[q] == c0[q]);
            }
            assert forall|w: IrVar| #[trigger] recorded_writes(counts@, w) == if w == v {
                if recorded_writes(c0, w) < 2 {
                    recorded_writes(c0, w) + 1
                } else {
                    2
                }
            } else {
                recorded_writes(c0, w)
            } by {
                if w == v {
                    lemma_first_pair(counts@, v, i as int);
                    assert(counts@[i as int] == (v, nc));
                } else {
                    lemma_pairs_get_update(c0, i as int, (v, nc), w);
                }
            }
            return;
        }
        i = i + 1;
    }
    proof {
        lemma_absent_pair(c0, v);
    }
    counts.push((v, 1));
    assert forall|w: IrVar| #[trigger] recorded_writes(counts@, w) == if w == v {
        if recorded_writes(c0, w) < 2 {
            recorded_writes(c0, w) + 1
        } else {
            2
        }
    } else {
        recorded_writes(c0, w)
    } by {
        lemma_pairs_get_push_absent(c0, (v, 1u8), w);
    }
}

proof fn lemma_first_pair<V>(s: Seq<(IrVar, V)>, v: IrVar, i: int)
    requires
        0 <= i < s.len(),
        s[i].0 == v,
        forall|q: int| 0 <= q < i ==> s[q].0 != v,
    ensures
        pairs_get(s, v) == Some(s[i].1),
    decreases i,
{
    if i > 0 {
        lemma_first_pair(s.drop_first(), v, i - 1);
    }
}

proof fn lemma_absent_pair<V>(s: Seq<(IrVar, V)>, v: IrVar)
    requires
        forall|q: int| 0 <= q < s.len() ==> s[q].0 != v,
    ensures
        pairs_get(s, v) is None,
    decreases s.len(),
{
    if s.len() > 0 {
        lemma_absent_pair(s.drop_first(), v);
    }
}

proof fn lemma_pairs_get_update<V>(s: Seq<(IrVar, V)>, i: int, p: (IrVar, V), w: IrVar)
    requires
        0 <= i < s.len(),
        s[i].0 == p.0,
        w != p.0,
    ensures
        pairs_get(s.update(i, p), w) == pairs_get(s, w),
    decreases s.len(),
{
    if i > 0 {
        assert(s.update(i, p).drop_first() =~= s.drop_first().update(i - 1, p));
        lemma_pairs_get_update(s.drop_first(), i - 1, p, w);
    } else {
        assert(s.update(i, p).drop_first() =~= s.drop_first());
    }
}

proof fn lemma_pairs_get_push_absent<V>(s: Seq<(IrVar, V)>, p: (IrVar, V), w: IrVar)
    requires
        pairs_get(s, p.0) is None,
    ensures
        pairs_get(s.push(p), w) == if w == p.0 {
            Some(p.1)
        } else {
            pairs_get(s, w)
        },
    decreases s.len(),
{
    let t = s.push(p);
    if s.len() > 0 {
        assert(s[0].0 != p.0);
        assert(t[0] == s[0]);
        assert(t.drop_first() =~= s.drop_first().push(p));
        lemma_pairs_get_push_absent(s.drop_first(), p, w);
        if s[0].0 == w {
            assert(pairs_get(t, w) == Some(s[0].1));
            assert(pairs_get(s, w) == Some(s[0].1));
        } else {
            assert(pairs_get(t, w) == pairs_get(t.drop_first(), w));
            assert(pairs_get(s, w) == pairs_get(s.drop_first(), w));
        }
    } else {
        assert(t[0] == p);
        assert(t.drop_first() =~= Seq::<(IrVar, V)>::empty());
        assert(pairs_get(Seq::<(IrVar, V)>::empty(), w) is None);
    }
}

/// How often each variable is written in `cfg`, capped at two.
fn count_writes(cfg: &ControlFlowGraph) -> (r: Vec<(IrVar, u8)>)
    ensures
        forall|v: IrVar|
            #[trigger] recorded_writes(r@, v) == if writes_of(models(cfg.blocks@), v, cfg.blocks@.len() as int) < 2 {
                writes_of(models(cfg.blocks@), v, cfg.blocks@.len() as int) as int
            } else {
                2
            },
{
    let ghost m = models(cfg.blocks@);
    let mut counts: Vec<(IrVar, u8)> = Vec::new();
    let mut n: usize = 0;
    while n < cfg.blocks.len()
        invariant
            n <= cfg.blocks@.len(),
            m == models(cfg.blocks@),
            forall|v: IrVar|
                #[trigger] recorded_writes(counts@, v) == if writes_of(m, v, n as int) < 2 {
                    writes_of(m, v, n as int) as int
                } else {
                    2
                },
        decreases cfg.blocks@.len() - n,
    {
        let insts = &cfg.blocks[n].instructions;
        assert(m[n as int].insts == insts@);
        let mut k: usize = 0;
        while k < insts.len()
            invariant
                k <= insts@.len(),
                m == models(cfg.blocks@),
                insts@ == m[n as int].insts,
                forall|v: IrVar|
                    #[trigger] recorded_writes(counts@, v) == if writes_of(m, v, n as int) + writes_in(insts@, v, k as int) < 2 {
                        writes_of(m, v, n as int) + writes_in(insts@, v, k as int)
                    } else {
                        2
                    },
            decreases insts@.len() - k,
        {
            let defs = insts[k].def_vars();
            let mut q: usize = 0;
            while q < defs.len()
                invariant
                    q <= defs@.len(),
                    defs@ == inst_def_vars(insts@[k as int]),
                    forall|v: IrVar|
                        #[trigger] recorded_writes(counts@, v) == if writes_of(m, v, n as int) + writes_in(insts@, v, k as int)
                            + count_in(defs@.take(q as int), v) < 2 {
                            writes_of(m, v, n as int) + writes_in(insts@, v, k as int) + count_in(defs@.take(q as int), v)
                        } else {
                            2
                        },
                decreases defs@.len() - q,
            {
                proof {
                    assert(defs@.take(q + 1).drop_last() =~= defs@.take(q as int));
                    assert(defs@.take(q + 1).last() == defs@[q as int]);
                }
                bump(&mut counts, defs[q]);
                q = q + 1;
            }
            assert(defs@.take(defs@.len() as int) =~= defs@);
            k = k + 1;
        }
        n = n + 1;
    }
    counts
}

/// The first of `ps` outside `body`.
fn first_outside_exec(ps: &Vec<IrLabel>, body: &Vec<IrLabel>) -> (r: Option<IrLabel>)
    ensures
        r == first_outside(ps@, body@.to_set()),
{
    let mut i: usize = 0;
    assert(ps@.skip(0) =~= ps@);
    while i < ps.len()
        invariant
            i <= ps@.len(),
            first_outside(ps@, body@.to_set()) == first_outside(ps@.skip(i as int), body@.to_set()),
        decreases ps@.len() - i,
    {
        assert(ps@.skip(i as int).drop_first() =~= ps@.skip(i + 1));
        if !label_seen(body, ps[i]) {
            return Some(ps[i]);
        }
        i = i + 1;
    }
    None
}

/// The position of the first terminator among `s`, or its length.
pub(crate) fn first_terminator_exec(s: &Vec<IrInst>) -> (r: usize)
    ensures
        r as int == first_terminator(s@),
        r <= s@.len(),
{
    let mut i: usize = 0;
    assert(s@.skip(0) =~= s@);
    while i < s.len()
        invariant
            i <= s@.len(),
            first_terminator(s@) == i + first_terminator(s@.skip(i as int)),
        decreases s@.len() - i,
    {
        assert(s@.skip(i as int).drop_first() =~= s@.skip(i + 1));
        if s[i].is_terminator() {
            return i;
        }
        i = i + 1;
    }
    i
}

/// The variables written in the blocks of `order` (see `loop_defs`).
fn loop_defs_exec(cfg: &ControlFlowGraph, order: &Vec<IrLabel>) -> (r: Vec<IrVar>)
    ensures
        r@.no_duplicates(),
        r@.to_set() == loop_defs(models(cfg.blocks@), order@, order@.len() as int),
{
    let ghost m = models(cfg.blocks@);
    let mut defs: Vec<IrVar> = Vec::new();
    let mut j: usize = 0;
    assert(defs@.to_set() =~= Set::<IrVar>::empty());
    while j < order.len()
        invariant
            j <= order@.len(),
            m == models(cfg.blocks@),
            defs@.no_duplicates(),
            defs@.to_set() == loop_defs(m, order@, j as int),
        decreases order@.len() - j,
    {
        match index_of_label(&cfg.blocks, order[j]) {
            Some(idx) => {
                let insts = &cfg.blocks[idx].instructions;
                assert(m[idx as int].insts == insts@);
                let ghost base = defs@.to_set();
                let ghost added = Set::new(
                    |v: IrVar| exists|q: int| 0 <= q < m[idx as int].insts.len() && inst_def_vars(#[trigger] m[idx as int].insts[q]).contains(v),
                );
                let mut k: usize = 0;
                while k < insts.len()
                    invariant
                        k <= insts@.len(),
                        defs@.no_duplicates(),
                        defs@.to_set() == base.union(
                            Set::new(|v: IrVar| exists|q: int| 0 <= q < k && inst_def_vars(#[trigger] insts@[q]).contains(v)),
                        ),
                    decreases insts@.len() - k,
                {
                    let ds = insts[k].def_vars();
                    let ghost before = defs@.to_set();
                    let mut q: usize = 0;
                    while q < ds.len()
                        invariant
                            q <= ds@.len(),
                            defs@.no_duplicates(),
                            defs@.to_set() == before.union(ds@.take(q as int).to_set()),
                        decreases ds@.len() - q,
                    {
                        proof {
                            lemma_push_to_set(ds@.take(q as int), ds@[q as int]);
                            assert(ds@.take(q + 1) =~= ds@.take(q as int).push(ds@[q as int]));
                        }
                        insert_var(&mut defs, ds[q]);
                        assert(defs@.to_set() =~= before.union(ds@.take(q + 1).to_set()));
                        q = q + 1;
                    }
                    assert(ds@.take(ds@.len() as int) =~= ds@);
                    assert(defs@.to_set() =~= base.union(
                        Set::new(|v: IrVar| exists|q2: int| 0 <= q2 < k + 1 && inst_def_vars(#[trigger] insts@[q2]).contains(v)),
                    )) by {
                        assert forall|v: IrVar| defs@.to_set().contains(v) <==> base.union(
                            Set::new(|v2: IrVar| exists|q2: int| 0 <= q2 < k + 1 && inst_def_vars(#[trigger] insts@[q2]).contains(v2)),
                        ).contains(v) by {
                            if ds@.contains(v) {
                                assert(inst_def_vars(insts@[k as int]).contains(v));
                            }
                            if exists|q2: int| 0 <= q2 < k + 1 && inst_def_vars(#[trigger] insts@[q2]).contains(v) {
                                let q2 = choose|q2: int| 0 <= q2 < k + 1 && inst_def_vars(#[trigger] insts@[q2]).contains(v);
                                if q2 == k {
                                    assert(ds@.to_set().contains(v));
                                }
                            }
                        }
                    }
                    k = k + 1;
                }
                assert(defs@.to_set() =~= loop_defs(m, order@, j + 1));
            },
            None => {},
        }
        j = j + 1;
    }
    defs
}

fn writes_lookup(counts: &Vec<(IrVar, u8)>, v: IrVar) -> (r: u8)
    ensures
        r as int == recorded_writes(counts@, v),
{
    let mut i: usize = 0;
    while i < counts.len()
        invariant
            i <= counts@.len(),
            forall|q: int| 0 <= q < i ==> counts@[q].0 != v,
        decreases counts@.len() - i,
    {
        if counts[i].0 == v {
            proof {
                lemma_first_pair(counts@, v, i as int);
            }
            return counts[i].1;
        }
        i = i + 1;
    }
    proof {
        lemma_absent_pair(counts@, v);
    }
    0
}

/// Whether `inst` may leave its loop (see `movable`).
fn movable_exec(
    inst: &IrInst,
    captured: &Vec<IrVar>,
    counts: &Vec<(IrVar, u8)>,
    Ghost(single): Ghost<spec_fn(IrVar) -> bool>,
) -> (r: bool)
    requires
        forall|v: IrVar| #[trigger] single(v) == (recorded_writes(counts@, v) == 1),
    ensures
        r == movable(*inst, captured@.to_set(), single),
{
    if !is_hoistable(inst) {
        return false;
    }
    let defs = inst.def_vars();
    let mut k: usize = 0;
    while k < defs.len()
        invariant
            k <= defs@.len(),
            defs@ == inst_def_vars(*inst),
            forall|v: IrVar| #[trigger] single(v) == (recorded_writes(counts@, v) == 1),
            forall|q: int| 0 <= q < k ==> !captured@.to_set().contains(#[trigger] defs@[q]) && single(defs@[q]),
        decreases defs@.len() - k,
    {
        if contains_var(captured, defs[k]) || writes_lookup(counts, defs[k]) != 1 {
            assert(captured@.to_set().contains(defs@[k as int]) || !single(defs@[k as int]));
            return false;
        }
        k = k + 1;
    }
    true
}

/// Whether every operand of `inst` is written nowhere in the loop or is
/// already known invariant.
fn operands_invariant(inst: &IrInst, ldefs: &Vec<IrVar>, inv: &Vec<IrVar>) -> (r: bool)
    ensures
        r == forall|q: int|
            0 <= q < inst_use_vars(*inst).len() ==> !ldefs@.to_set().contains(#[trigger] inst_use_vars(*inst)[q])
                || inv@.to_set().contains(inst_use_vars(*inst)[q]),
{
    let uses = inst.use_vars();
    let mut k: usize = 0;
    while k < uses.len()
        invariant
            k <= uses@.len(),
            uses@ == inst_use_vars(*inst),
            forall|q: int| 0 <= q < k ==> !ldefs@.to_set().contains(#[trigger] uses@[q]) || inv@.to_set().contains(uses@[q]),
        decreases uses@.len() - k,
    {
        if contains_var(ldefs, uses[k]) && !contains_var(inv, uses[k]) {
            return false;
        }
        k = k + 1;
    }
    true
}

/// The scan of one loop block (see `scan_block`): returns what stays,
/// appending what is hoisted to `hoisted` and what becomes invariant to
/// `inv`.
fn scan_exec(
    insts: Vec<IrInst>,
    ldefs: &Vec<IrVar>,
    inv: &mut Vec<IrVar>,
    hoisted: &mut Vec<IrInst>,
    captured: &Vec<IrVar>,
    counts: &Vec<(IrVar, u8)>,
    Ghost(single): Ghost<spec_fn(IrVar) -> bool>,
) -> (rem: Vec<IrInst>)
    requires
        old(inv)@.no_duplicates(),
        forall|v: IrVar| #[trigger] single(v) == (recorded_writes(counts@, v) == 1),
    ensures
        ({
            let (r, h, i2) = scan_block(
                insts@,
                ldefs@.to_set(),
                old(inv)@.to_set(),
                captured@.to_set(),
                single,
                insts@.len() as int,
            );
            &&& rem@ == r
            &&& final(hoisted)@ == old(hoisted)@ + h
            &&& final(inv)@.to_set() == i2
            &&& final(inv)@.no_duplicates()
        }),
{
    let ghost orig = insts@;
    let ghost inv0 = inv@.to_set();
    let ghost h0 = hoisted@;
    let total = insts.len();
    let mut rest = insts;
    let mut rem: Vec<IrInst> = Vec::new();
    let mut k: usize = 0;
    assert(rest@ =~= orig.skip(0));
    while rest.len() > 0
        invariant
            k <= orig.len(),
            total == orig.len(),
            rest@ == orig.skip(k as int),
            inv@.no_duplicates(),
            forall|v: IrVar| #[trigger] single(v) == (recorded_writes(counts@, v) == 1),
            ({
                let (r, h, i2) = scan_block(orig, ldefs@.to_set(), inv0, captured@.to_set(), single, k as int);
                &&& rem@ == r
                &&& hoisted@ == h0 + h
                &&& inv@.to_set() == i2
            }),
        decreases rest@.len(),
    {
        assert(k < orig.len());
        let inst = rest.remove(0);
        assert(inst == orig[k as int]);
        assert(rest@ =~= orig.skip(k + 1));
        let mv = movable_exec(&inst, captured, counts, Ghost(single));
        if mv && operands_invariant(&inst, ldefs, inv) {
            match inst.def_var() {
                Some(d) => {
                    insert_var(inv, d);
                },
                None => {},
            }
            let ghost hb = hoisted@;
            hoisted.push(inst);
            proof {
                let (r, h, i2) = scan_block(orig, ldefs@.to_set(), inv0, captured@.to_set(), single, k as int);
                assert(hoisted@ =~= h0 + h.push(orig[k as int]));
            }
        } else {
            rem.push(inst);
        }
        k = k + 1;
    }
    assert(k == orig.len());
    rem
}

/// One loop (see `licm_loop`).
fn licm_one(
    cfg: &mut ControlFlowGraph,
    header: IrLabel,
    body: &Vec<IrLabel>,
    captured: &Vec<IrVar>,
    counts: &Vec<(IrVar, u8)>,
    Ghost(single): Ghost<spec_fn(IrVar) -> bool>,
) -> (changed: bool)
    requires
        forall|v: IrVar| #[trigger] single(v) == (recorded_writes(counts@, v) == 1),
    ensures
        final(cfg).entry_label == old(cfg).entry_label,
        (models(final(cfg).blocks@), changed) == licm_loop(models(old(cfg).blocks@), header, body@, captured@.to_set(), single),
{
    let ghost m = models(cfg.blocks@);
    let ghost csets = captured@.to_set();
    let pre = match index_of_label(&cfg.blocks, header) {
        Some(hi) => {
            assert(m[hi as int].preds == cfg.blocks@[hi as int].predecessors@);
            first_outside_exec(&cfg.blocks[hi].predecessors, body)
        },
        None => None,
    };
    let p = match pre {
        None => {
            return false;
        },
        Some(p) => p,
    };
    let ldefs = loop_defs_exec(cfg, body);
    let ghost ld = ldefs@.to_set();
    let mut inv: Vec<IrVar> = Vec::new();
    let mut hoisted: Vec<IrInst> = Vec::new();
    let mut j: usize = 0;
    assert(inv@.to_set() =~= Set::<IrVar>::empty());
    assert(hoisted@ =~= Seq::<IrInst>::empty());
    while j < body.len()
        invariant
            j <= body@.len(),
            cfg.entry_label == old(cfg).entry_label,
            ld == ldefs@.to_set(),
            csets == captured@.to_set(),
            inv@.no_duplicates(),
            forall|v: IrVar| #[trigger] single(v) == (recorded_writes(counts@, v) == 1),
            ({
                let (m1, h, i2) = hoist_blocks(m, body@, header, ld, csets, single, j as int);
                &&& models(cfg.blocks@) == m1
                &&& hoisted@ == h
                &&& inv@.to_set() == i2
            }),
        decreases body@.len() - j,
    {
        let l = body[j];
        let ghost mcur = models(cfg.blocks@);
        if l != header {
            match index_of_label(&cfg.blocks, l) {
                Some(idx) => {
                    let mut blk = take_block(&mut cfg.blocks, idx);
                    assert(mcur[idx as int].insts == blk.instructions@);
                    let mut insts: Vec<IrInst> = Vec::new();
                    std::mem::swap(&mut insts, &mut blk.instructions);
                    let rem = scan_exec(insts, &ldefs, &mut inv, &mut hoisted, captured, counts, Ghost(single));
                    blk.instructions = rem;
                    cfg.blocks.set(idx, blk);
                    assert(models(cfg.blocks@) =~= mcur.update(idx as int, BlockModel { insts: blk.instructions@, ..mcur[idx as int] }));
                },
                None => {},
            }
        }
        j = j + 1;
    }
    if hoisted.len() == 0 {
        return false;
    }
    let ghost m1 = models(cfg.blocks@);
    match index_of_label(&cfg.blocks, p) {
        Some(pi) => {
            let mut blk = take_block(&mut cfg.blocks, pi);
            assert(m1[pi as int].insts == blk.instructions@);
            let ghost s = blk.instructions@;
            let tp = first_terminator_exec(&blk.instructions);
            let ghost hv = hoisted@;
            let ghost blk0 = blk;
            let mut hs = hoisted;
            let hn = hs.len();
            let mut q: usize = 0;
            assert(hs@ =~= hv.skip(0));
            assert(blk.instructions@ =~= s.take(tp as int) + hv.take(0) + s.skip(tp as int));
            while hs.len() > 0
                invariant
                    q <= hv.len(),
                    hn == hv.len(),
                    hs@ == hv.skip(q as int),
                    tp <= s.len(),
                    blk.label == blk0.label,
                    blk.predecessors == blk0.predecessors,
                    blk.successors == blk0.successors,
                    blk.instructions@ == s.take(tp as int) + hv.take(q as int) + s.skip(tp as int),
                decreases hs@.len(),
            {
                let inst = hs.remove(0);
                assert(inst == hv[q as int]);
                assert(hs@ =~= hv.skip(q + 1));
                let ghost before = blk.instructions@;
                let len_now = blk.instructions.len();
                assert(tp + q <= len_now);
                blk.instructions.insert(tp + q, inst);
                assert(blk.instructions@ =~= s.take(tp as int) + hv.take(q + 1) + s.skip(tp as int)) by {
                    assert(hv.take(q + 1) =~= hv.take(q as int).push(hv[q as int]));
                }
                q = q + 1;
            }
            assert(hv.take(q as int) =~= hv);
            let ghost newblk = blk;
            cfg.blocks.set(pi, blk);
            assert(models(cfg.blocks@) =~= m1.update(pi as int, BlockModel { insts: newblk.instructions@, ..m1[pi as int] }));
        },
        None => {},
    }
    true
}

/// Hoists loop-invariant instructions out of the natural loops of `cfg`,
/// loop after loop in the order `find_natural_loops` gives: for each loop
/// with a predecessor of its header outside the body, each body block
/// (other than the header; the body taken in some order without repeats)
/// gives up its movable instructions whose operands are written nowhere in
/// the loop or already hoisted, and these go, in order, into that
/// predecessor before its first terminator (see `licm_all`). A variable
/// written more than once anywhere, or captured by a closure, never moves.
/// The result tells whether anything moved.
pub fn loop_invariant_code_motion(cfg: &mut ControlFlowGraph, dom: &DominatorTree) -> (changed: bool)
    ensures
        final(cfg).entry_label == old(cfg).entry_label,
        ({
            let bs = old(cfg).blocks@;
            let e = back_edges(bs, dom.idom@, bs.len() as int);
            exists|orders: Seq<Seq<IrLabel>>|
                {
                    &&& orders.len() == e.len()
                    &&& forall|i: int|
                        0 <= i < e.len() ==> (#[trigger] orders[i]).no_duplicates() && is_loop_body(
                            bs,
                            e[i].0,
                            e[i].1,
                            orders[i].to_set(),
                        )
                    &&& (models(final(cfg).blocks@), changed) == licm_all(
                        models(bs),
                        Seq::new(e.len(), |i: int| e[i].0),
                        orders,
                        captured_in_blocks(bs, bs.len() as int),
                        |v: IrVar| writes_of(models(bs), v, bs.len() as int) == 1,
                        e.len() as int,
                    )
                }
        }),
{
    let ghost bs = cfg.blocks@;
    let ghost m0 = models(bs);
    let ghost e = back_edges(bs, dom.idom@, bs.len() as int);
    let ghost single = |v: IrVar| writes_of(m0, v, bs.len() as int) == 1;
    let captured = captured_vars(cfg);
    let loops = find_natural_loops(cfg, dom);
    let counts = count_writes(cfg);
    let ghost headers = Seq::new(e.len(), |i: int| e[i].0);
    let ghost orders = Seq::new(loops@.len(), |i: int| loops@[i].body@);
    let mut changed = false;
    let mut i: usize = 0;
    while i < loops.len()
        invariant
            i <= loops@.len(),
            loops@.len() == e.len(),
            cfg.entry_label == old(cfg).entry_label,
            forall|v: IrVar| #[trigger] single(v) == (recorded_writes(counts@, v) == 1),
            forall|q: int| 0 <= q < loops@.len() ==> (#[trigger] loops@[q]).header == headers[q],
            forall|q: int| 0 <= q < loops@.len() ==> orders[q] == (#[trigger] loops@[q]).body@,
            (models(cfg.blocks@), changed) == licm_all(m0, headers, orders, captured@.to_set(), single, i as int),
        decreases loops@.len() - i,
    {
        let c = licm_one(cfg, loops[i].header, &loops[i].body, &captured, &counts, Ghost(single));
        if c {
            changed = true;
        }
        i = i + 1;
    }
    proof {
        assert(orders.len() == e.len());
        assert forall|q: int| 0 <= q < e.len() implies (#[trigger] orders[q]).no_duplicates() && is_loop_body(bs, e[q].0, e[q].1, orders[q].to_set()) by {
            assert(orders[q] == loops@[q].body@);
        }
    }
    changed
}

} // verus!
