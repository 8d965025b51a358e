//! Liveness analysis: the variables live on entry to and exit from each
//! block, found by backward dataflow, and the live interval of each variable.
use vstd::prelude::*;

use crate::compiler::ir::block::{BasicBlock, ControlFlowGraph};
use crate::compiler::ir::dom::pairs_get;
use crate::compiler::ir::inst::{copy_vars, inst_def_vars, inst_use_vars, IrInst};
use crate::compiler::ir::opt::simplify_cfg::succs_of_label;
use crate::compiler::ir::types::{IrLabel, IrVar};
use crate::compiler::ir::verify::{first_index, lemma_first_index};

verus! {

/// The variables a block reads before writing, writes, and that are live on
/// entry to and exit from it.
#[derive(Debug, Clone)]
pub struct BlockLiveness {
    pub use_vars: Vec<IrVar>,
    pub def_vars: Vec<IrVar>,
    pub live_in: Vec<IrVar>,
    pub live_out: Vec<IrVar>,
}

/// The liveness of every block, by label.
#[derive(Debug, Clone)]
pub struct LivenessInfo {
    pub blocks: Vec<(IrLabel, BlockLiveness)>,
}

/// The instructions over which a variable is live.
#[derive(Debug, Clone, PartialEq, Eq)]
pub struct LiveInterval {
    pub var: IrVar,
    pub start: usize,
    pub end: usize,
}

pub(crate) fn contains_var(vs: &Vec<IrVar>, v: IrVar) -> (r: bool)
    ensures
        r == vs@.contains(v),
{
    let mut i: usize = 0;
    while i < vs.len()
        invariant
            i <= vs@.len(),
            forall|k: int| 0 <= k < i ==> vs@[k] != v,
        decreases vs@.len() - i,
    {
        if vs[i] == v {
            assert(vs@[i as int] == v);
            return true;
        }
        i = i + 1;
    }
    false
}

pub(crate) fn find_block(blocks: &Vec<(IrLabel, BlockLiveness)>, label: IrLabel) -> (r: Option<usize>)
    ensures
        r matches Some(i) ==> i < blocks@.len() && pairs_get(blocks@, label) == Some(blocks@[i as int].1),
        r is None ==> pairs_get(blocks@, label) is None,
{
    let mut i: usize = 0;
    assert(blocks@.skip(0) =~= blocks@);
    while i < blocks.len()
        invariant
            i <= blocks@.len(),
            pairs_get(blocks@, label) == pairs_get(blocks@.skip(i as int), label),
        decreases blocks@.len() - i,
    {
        assert(blocks@.skip(i as int).drop_first() =~= blocks@.skip(i + 1));
        if blocks[i].0 == label {
            return Some(i);
        }
        i = i + 1;
    }
    None
}

impl LivenessInfo {
    /// Whether `var` is live on entry to the block `label`.
    pub fn is_live_in(&self, label: IrLabel, var: IrVar) -> (r: bool)
        ensures
            r == (pairs_get(self.blocks@, label) matches Some(b) && b.live_in@.contains(var)),
    {
        match find_block(&self.blocks, label) {
            Some(i) => contains_var(&self.blocks[i].1.live_in, var),
            None => false,
        }
    }

    /// Whether `var` is live on exit from the block `label`.
    pub fn is_live_out(&self, label: IrLabel, var: IrVar) -> (r: bool)
        ensures
            r == (pairs_get(self.blocks@, label) matches Some(b) && b.live_out@.contains(var)),
    {
        match find_block(&self.blocks, label) {
            Some(i) => contains_var(&self.blocks[i].1.live_out, var),
            None => false,
        }
    }
}

/// The variables that the first `k` of `insts` write.
pub open spec fn written(insts: Seq<IrInst>, k: int) -> Set<IrVar>
    decreases k,
{
    if k <= 0 {
        Set::empty()
    } else {
        written(insts, k - 1).union(inst_def_vars(insts[k - 1]).to_set())
    }
}

/// The variables that the first `k` of `insts` read before any of them
/// writes them.
pub open spec fn upward_uses(insts: Seq<IrInst>, k: int) -> Set<IrVar>
    decreases k,
{
    if k <= 0 {
        Set::empty()
    } else {
        upward_uses(insts, k - 1).union(inst_use_vars(insts[k - 1]).to_set().difference(written(insts, k - 1)))
    }
}

pub(crate) proof fn lemma_push_to_set(s: Seq<IrVar>, x: IrVar)
    ensures
        s.push(x).to_set() == s.to_set().insert(x),
{
    assert forall|a: IrVar| s.push(x).to_set().contains(a) <==> s.to_set().insert(x).contains(a) by {
        if s.push(x).contains(a) {
            let k = choose|k: int| 0 <= k < s.push(x).len() && s.push(x)[k] == a;
            if k < s.len() {
                assert(s[k] == a);
            }
        }
        if s.contains(a) {
            let k = choose|k: int| 0 <= k < s.len() && s[k] == a;
            assert(s.push(x)[k] == a);
        }
        if a == x {
            assert(s.push(x)[s.len() as int] == x);
        }
    }
    assert(s.push(x).to_set() =~= s.to_set().insert(x));
}

/// Adds `x` to the set of variables `v`.
pub(crate) fn insert_var(v: &mut Vec<IrVar>, x: IrVar)
    requires
        old(v)@.no_duplicates(),
    ensures
        final(v)@.no_duplicates(),
        final(v)@.to_set() == old(v)@.to_set().insert(x),
{
    proof {
        lemma_push_to_set(v@, x);
    }
    if !contains_var(v, x) {
        v.push(x);
    } else {
        assert(v@.to_set().insert(x) =~= v@.to_set());
    }
}

/// Whether `a` and `b`, both without repeats, hold the same variables.
pub(crate) fn same_set(a: &Vec<IrVar>, b: &Vec<IrVar>) -> (r: bool)
    requires
        a@.no_duplicates(),
        b@.no_duplicates(),
    ensures
        r == (a@.to_set() == b@.to_set()),
{
    proof {
        a@.unique_seq_to_set();
        b@.unique_seq_to_set();
    }
    if a.len() != b.len() {
        return false;
    }
    let mut i: usize = 0;
    while i < a.len()
        invariant
            i <= a@.len(),
            a@.len() == b@.len(),
            forall|k: int| 0 <= k < i ==> b@.contains(#[trigger] a@[k]),
        decreases a@.len() - i,
    {
        if !contains_var(b, a[i]) {
            assert(a@.to_set().contains(a@[i as int]));
            return false;
        }
        i = i + 1;
    }
    proof {
        assert(a@.to_set().subset_of(b@.to_set())) by {
            assert forall|x: IrVar| a@.to_set().contains(x) implies b@.to_set().contains(x) by {
                let k = choose|k: int| 0 <= k < a@.len() && a@[k] == x;
                assert(b@.contains(a@[k]));
            }
        }
        vstd::set_lib::lemma_subset_equality(a@.to_set(), b@.to_set());
    }
    true
}

/// The variables a block reads before writing them, and those it writes.
fn local_sets(insts: &Vec<IrInst>) -> (r: (Vec<IrVar>, Vec<IrVar>))
    ensures
        r.0@.no_duplicates(),
        r.1@.no_duplicates(),
        r.0@.to_set() == upward_uses(insts@, insts@.len() as int),
        r.1@.to_set() == written(insts@, insts@.len() as int),
{
    let mut block_use: Vec<IrVar> = Vec::new();
    let mut block_def: Vec<IrVar> = Vec::new();
    let mut i: usize = 0;
    while i < insts.len()
        invariant
            i <= insts@.len(),
            block_use@.no_duplicates(),
            block_def@.no_duplicates(),
            block_use@.to_set() == upward_uses(insts@, i as int),
            block_def@.to_set() == written(insts@, i as int),
        decreases insts@.len() - i,
    {
        let uses = insts[i].use_vars();
        let ghost u0 = block_use@.to_set();
        let mut k: usize = 0;
        while k < uses.len()
            invariant
                k <= uses@.len(),
                uses@ == inst_use_vars(insts@[i as int]),
                block_use@.no_duplicates(),
                block_def@.to_set() == written(insts@, i as int),
                block_use@.to_set() == u0.union(uses@.take(k as int).to_set().difference(written(insts@, i as int))),
            decreases uses@.len() - k,
        {
            proof {
                lemma_push_to_set(uses@.take(k as int), uses@[k as int]);
                assert(uses@.take(k + 1) =~= uses@.take(k as int).push(uses@[k as int]));
            }
            if !contains_var(&block_def, uses[k]) {
                insert_var(&mut block_use, uses[k]);
            }
            assert(block_use@.to_set() =~= u0.union(uses@.take(k + 1).to_set().difference(written(insts@, i as int))));
            k = k + 1;
        }
        assert(uses@.take(uses@.len() as int) =~= uses@);
        let defs = insts[i].def_vars();
        let ghost d0 = block_def@.to_set();
        let mut k: usize = 0;
        while k < defs.len()
            invariant
                k <= defs@.len(),
                defs@ == inst_def_vars(insts@[i as int]),
                block_def@.no_duplicates(),
                block_def@.to_set() == d0.union(defs@.take(k as int).to_set()),
            decreases defs@.len() - k,
        {
            proof {
                lemma_push_to_set(defs@.take(k as int), defs@[k as int]);
                assert(defs@.take(k + 1) =~= defs@.take(k as int).push(defs@[k as int]));
            }
            insert_var(&mut block_def, defs[k]);
            assert(block_def@.to_set() =~= d0.union(defs@.take(k + 1).to_set()));
            k = k + 1;
        }
        assert(defs@.take(defs@.len() as int) =~= defs@);
        i = i + 1;
    }
    (block_use, block_def)
}

/// The labels a depth-first walk from `l` finishes, appended to `post`, and
/// the labels it has seen, given those seen before (`vis`): `l` is marked,
/// the successors of its first block are walked last to first, each unless
/// already seen, then `l` is finished. `fuel` bounds the depth of the walk.
pub open spec fn dfs_post(bs: Seq<BasicBlock>, l: IrLabel, vis: Set<IrLabel>, post: Seq<IrLabel>, fuel: nat) -> (
    Set<IrLabel>,
    Seq<IrLabel>,
)
    decreases fuel, 0nat, 0int,
{
    if vis.contains(l) || fuel == 0 {
        (vis, post)
    } else {
        let ss = succs_of_label(bs, l);
        let (v2, p2) = dfs_post_list(bs, ss, ss.len() as int, vis.insert(l), post, (fuel - 1) as nat);
        (v2, p2.push(l))
    }
}

/// The walk `dfs_post` from `ss[k - 1]`, then `ss[k - 2]`, down to `ss[0]`.
pub open spec fn dfs_post_list(
    bs: Seq<BasicBlock>,
    ss: Seq<IrLabel>,
    k: int,
    vis: Set<IrLabel>,
    post: Seq<IrLabel>,
    fuel: nat,
) -> (Set<IrLabel>, Seq<IrLabel>)
    decreases fuel, 1nat, k,
{
    if k <= 0 {
        (vis, post)
    } else {
        let (v2, p2) = dfs_post(bs, ss[k - 1], vis, post, fuel);
        dfs_post_list(bs, ss, k - 1, v2, p2, fuel)
    }
}

/// The walk from each of the first `k` seeds in turn.
pub open spec fn dfs_seeds(bs: Seq<BasicBlock>, seeds: Seq<IrLabel>, k: int, fuel: nat) -> (Set<IrLabel>, Seq<IrLabel>)
    decreases k,
{
    if k <= 0 {
        (Set::empty(), Seq::empty())
    } else {
        let (v, p) = dfs_seeds(bs, seeds, k - 1, fuel);
        dfs_post(bs, seeds[k - 1], v, p, fuel)
    }
}

/// The entry, then every block's label.
pub open spec fn walk_seeds_of(bs: Seq<BasicBlock>, entry: IrLabel) -> Seq<IrLabel> {
    seq![entry] + Seq::new(bs.len(), |i: int| bs[i].label)
}

/// `walk_seeds_of` for a graph.
pub open spec fn walk_seeds(cfg: ControlFlowGraph) -> Seq<IrLabel> {
    walk_seeds_of(cfg.blocks@, cfg.entry_label)
}

/// The order in which the analysis visits blocks: the postorder of a
/// depth-first walk from the entry (successors before predecessors), then
/// from every block in layout order, so that unreachable blocks come last.
pub open spec fn visit_order_of(bs: Seq<BasicBlock>, entry: IrLabel) -> Seq<IrLabel> {
    let seeds = walk_seeds_of(bs, entry);
    dfs_seeds(bs, seeds, seeds.len() as int, (bs.len() + 1) as nat).1
}

/// `visit_order_of` for a graph.
pub open spec fn visit_order(cfg: ControlFlowGraph) -> Seq<IrLabel> {
    visit_order_of(cfg.blocks@, cfg.entry_label)
}

/// The successors of the first block labelled `l`.
fn first_successors(cfg: &ControlFlowGraph, l: IrLabel) -> (r: Vec<IrLabel>)
    ensures
        r@ == succs_of_label(cfg.blocks@, l),
{
    proof {
        lemma_first_index(cfg.blocks@, l);
    }
    let mut i: usize = 0;
    while i < cfg.blocks.len()
        invariant
            i <= cfg.blocks@.len(),
            first_index(cfg.blocks@, l) < 0 || i <= first_index(cfg.blocks@, l),
            -1 <= first_index(cfg.blocks@, l) < cfg.blocks@.len(),
            forall|j: int| 0 <= j < cfg.blocks@.len() && (j < first_index(cfg.blocks@, l) || first_index(cfg.blocks@, l) < 0) ==> (#[trigger] cfg.blocks@[j]).label != l,
            first_index(cfg.blocks@, l) >= 0 ==> cfg.blocks@[first_index(cfg.blocks@, l)].label == l,
        decreases cfg.blocks@.len() - i,
    {
        if cfg.blocks[i].label == l {
            let mut r: Vec<IrLabel> = Vec::new();
            let ss = &cfg.blocks[i].successors;
            let mut k: usize = 0;
            while k < ss.len()
                invariant
                    k <= ss@.len(),
                    r@ == ss@.take(k as int),
                decreases ss@.len() - k,
            {
                r.push(ss[k]);
                assert(ss@.take(k + 1) =~= ss@.take(k as int).push(ss@[k as int]));
                k = k + 1;
            }
            assert(ss@.take(ss@.len() as int) =~= ss@);
            return r;
        }
        i = i + 1;
    }
    Vec::new()
}

/// Whether `l` is among `v`.
pub(crate) fn label_seen(v: &Vec<IrLabel>, l: IrLabel) -> (r: bool)
    ensures
        r == v@.contains(l),
{
    let mut i: usize = 0;
    while i < v.len()
        invariant
            i <= v@.len(),
            forall|k: int| 0 <= k < i ==> v@[k] != l,
        decreases v@.len() - i,
    {
        if v[i] == l {
            assert(v@[i as int] == l);
            return true;
        }
        i = i + 1;
    }
    false
}

/// The walk `dfs_post`, with the seen labels in `vis`.
fn dfs_visit(cfg: &ControlFlowGraph, l: IrLabel, vis: &mut Vec<IrLabel>, post: &mut Vec<IrLabel>, fuel: usize)
    ensures
        (final(vis)@.to_set(), final(post)@) == dfs_post(cfg.blocks@, l, old(vis)@.to_set(), old(post)@, fuel as nat),
    decreases fuel, 0nat, 0int,
{
    if fuel == 0 || label_seen(vis, l) {
        return ;
    }
    proof {
        lemma_push_to_set_label(vis@, l);
    }
    vis.push(l);
    let ss = first_successors(cfg, l);
    dfs_visit_list(cfg, &ss, ss.len(), vis, post, fuel - 1);
    post.push(l);
}

/// The walk `dfs_post_list`.
fn dfs_visit_list(
    cfg: &ControlFlowGraph,
    ss: &Vec<IrLabel>,
    k: usize,
    vis: &mut Vec<IrLabel>,
    post: &mut Vec<IrLabel>,
    fuel: usize,
)
    requires
        k <= ss@.len(),
    ensures
        (final(vis)@.to_set(), final(post)@) == dfs_post_list(
            cfg.blocks@,
            ss@,
            k as int,
            old(vis)@.to_set(),
            old(post)@,
            fuel as nat,
        ),
    decreases fuel, 1nat, k,
{
    if k == 0 {
        return ;
    }
    dfs_visit(cfg, ss[k - 1], vis, post, fuel);
    dfs_visit_list(cfg, ss, k - 1, vis, post, fuel);
}

proof fn lemma_push_to_set_label(s: Seq<IrLabel>, x: IrLabel)
    ensures
        s.push(x).to_set() == s.to_set().insert(x),
{
    assert forall|a: IrLabel| s.push(x).to_set().contains(a) <==> s.to_set().insert(x).contains(a) by {
        if s.push(x).contains(a) {
            let k = choose|k: int| 0 <= k < s.push(x).len() && s.push(x)[k] == a;
            if k < s.len() {
                assert(s[k] == a);
            }
        }
        if s.contains(a) {
            let k = choose|k: int| 0 <= k < s.len() && s[k] == a;
            assert(s.push(x)[k] == a);
        }
        if a == x {
            assert(s.push(x)[s.len() as int] == x);
        }
    }
    assert(s.push(x).to_set() =~= s.to_set().insert(x));
}

/// The order `visit_order`.
fn block_visit_order(cfg: &ControlFlowGraph) -> (r: Vec<IrLabel>)
    requires
        cfg.blocks@.len() < usize::MAX,
    ensures
        r@ == visit_order(*cfg),
{
    let ghost seeds = walk_seeds(*cfg);
    let fuel = cfg.blocks.len() + 1;
    let mut vis: Vec<IrLabel> = Vec::new();
    let mut post: Vec<IrLabel> = Vec::new();
    assert(vis@.to_set() =~= Set::<IrLabel>::empty());
    assert(post@ =~= Seq::<IrLabel>::empty());
    assert(dfs_seeds(cfg.blocks@, seeds, 0, fuel as nat) == (Set::<IrLabel>::empty(), Seq::<IrLabel>::empty()));
    dfs_visit(cfg, cfg.entry_label, &mut vis, &mut post, fuel);
    assert(seeds[0] == cfg.entry_label);
    assert((vis@.to_set(), post@) == dfs_seeds(cfg.blocks@, seeds, 1, fuel as nat));
    let mut i: usize = 0;
    while i < cfg.blocks.len()
        invariant
            i <= cfg.blocks@.len(),
            fuel == cfg.blocks@.len() + 1,
            seeds == walk_seeds(*cfg),
            (vis@.to_set(), post@) == dfs_seeds(cfg.blocks@, seeds, i + 1, fuel as nat),
        decreases cfg.blocks@.len() - i,
    {
        assert(seeds[i + 1] == cfg.blocks@[i as int].label);
        dfs_visit(cfg, cfg.blocks[i].label, &mut vis, &mut post, fuel);
        i = i + 1;
    }
    post
}

/// The index of the last block labelled `l` among the first `n`, or -1.
pub open spec fn last_block_upto(bs: Seq<BasicBlock>, l: IrLabel, n: int) -> int
    decreases n,
{
    if n <= 0 {
        -1
    } else if bs[n - 1].label == l {
        n - 1
    } else {
        last_block_upto(bs, l, n - 1)
    }
}

/// The index of the last block labelled `l`, or -1: the block whose code
/// and successors the analysis takes for `l`.
pub open spec fn last_block(bs: Seq<BasicBlock>, l: IrLabel) -> int {
    last_block_upto(bs, l, bs.len() as int)
}

pub(crate) proof fn lemma_last_block_upto(bs: Seq<BasicBlock>, l: IrLabel, n: int)
    requires
        0 <= n <= bs.len(),
    ensures
        -1 <= last_block_upto(bs, l, n) < n,
        last_block_upto(bs, l, n) >= 0 ==> bs[last_block_upto(bs, l, n)].label == l,
        forall|j: int| last_block_upto(bs, l, n) < j < n ==> (#[trigger] bs[j]).label != l,
    decreases n,
{
    if n > 0 {
        lemma_last_block_upto(bs, l, n - 1);
    }
}

/// What block `l` reads before writing.
pub open spec fn block_uses(bs: Seq<BasicBlock>, l: IrLabel) -> Set<IrVar> {
    let b = bs[last_block(bs, l)];
    upward_uses(b.instructions@, b.instructions@.len() as int)
}

/// What block `l` writes.
pub open spec fn block_defs(bs: Seq<BasicBlock>, l: IrLabel) -> Set<IrVar> {
    let b = bs[last_block(bs, l)];
    written(b.instructions@, b.instructions@.len() as int)
}

/// The variables live on entry to the first `k` of `ss` that have sets in
/// `st`.
pub open spec fn live_into(st: Map<IrLabel, (Set<IrVar>, Set<IrVar>)>, ss: Seq<IrLabel>, k: int) -> Set<IrVar>
    decreases k,
{
    if k <= 0 {
        Set::empty()
    } else {
        live_into(st, ss, k - 1).union(
            if st.dom().contains(ss[k - 1]) {
                st[ss[k - 1]].0
            } else {
                Set::empty()
            },
        )
    }
}

/// Block `l` brought up to date: live on exit is what is live on entry to
/// its successors, live on entry is what it reads before writing plus what
/// is live on exit and it does not write. The flag tells whether its sets
/// changed.
pub open spec fn visit_block(bs: Seq<BasicBlock>, st: Map<IrLabel, (Set<IrVar>, Set<IrVar>)>, l: IrLabel) -> (
    Map<IrLabel, (Set<IrVar>, Set<IrVar>)>,
    bool,
) {
    let ss = bs[last_block(bs, l)].successors@;
    let out = live_into(st, ss, ss.len() as int);
    let inn = block_uses(bs, l).union(out.difference(block_defs(bs, l)));
    (st.insert(l, (inn, out)), st[l] != (inn, out))
}

/// The first `k` blocks of `order` brought up to date in turn, and whether
/// any changed.
pub open spec fn live_round(
    bs: Seq<BasicBlock>,
    st: Map<IrLabel, (Set<IrVar>, Set<IrVar>)>,
    order: Seq<IrLabel>,
    k: int,
) -> (Map<IrLabel, (Set<IrVar>, Set<IrVar>)>, bool)
    decreases k,
{
    if k <= 0 {
        (st, false)
    } else {
        let (s1, c1) = live_round(bs, st, order, k - 1);
        let (s2, c2) = visit_block(bs, s1, order[k - 1]);
        (s2, c1 || c2)
    }
}

/// At most `n` rounds over `order`, stopping after one that changes
/// nothing.
pub open spec fn live_rounds(
    bs: Seq<BasicBlock>,
    st: Map<IrLabel, (Set<IrVar>, Set<IrVar>)>,
    order: Seq<IrLabel>,
    n: nat,
) -> Map<IrLabel, (Set<IrVar>, Set<IrVar>)>
    decreases n,
{
    if n == 0 {
        st
    } else {
        let (s1, c) = live_round(bs, st, order, order.len() as int);
        if !c {
            s1
        } else {
            live_rounds(bs, s1, order, (n - 1) as nat)
        }
    }
}

/// The most rounds the analysis runs.
pub const MAX_ITERATIONS: usize = 1000;

/// Empty sets for every block label.
pub open spec fn initial_sets(bs: Seq<BasicBlock>) -> Map<IrLabel, (Set<IrVar>, Set<IrVar>)> {
    Map::new(|l: IrLabel| last_block(bs, l) >= 0, |l: IrLabel| (Set::<IrVar>::empty(), Set::<IrVar>::empty()))
}

/// The live-on-entry and live-on-exit sets the analysis settles on for each
/// label of the blocks `bs`, entered at `entry`.
pub open spec fn live_sets_of(bs: Seq<BasicBlock>, entry: IrLabel) -> Map<IrLabel, (Set<IrVar>, Set<IrVar>)> {
    live_rounds(bs, initial_sets(bs), visit_order_of(bs, entry), MAX_ITERATIONS as nat)
}

/// `live_sets_of` for a graph.
pub open spec fn live_sets(cfg: ControlFlowGraph) -> Map<IrLabel, (Set<IrVar>, Set<IrVar>)> {
    live_sets_of(cfg.blocks@, cfg.entry_label)
}

/// Whether every label the analysis visits has a block.
pub open spec fn visits_known_labels(cfg: ControlFlowGraph) -> bool {
    forall|k: int| 0 <= k < visit_order(cfg).len() ==> last_block(cfg.blocks@, #[trigger] visit_order(cfg)[k]) >= 0
}

/// Whether `b` holds, without repeats, the sets of block `l` with `sets` as
/// its live-on-entry and live-on-exit sets.
pub open spec fn entry_holds(b: BlockLiveness, bs: Seq<BasicBlock>, l: IrLabel, sets: (Set<IrVar>, Set<IrVar>)) -> bool {
    &&& b.use_vars@.no_duplicates()
    &&& b.def_vars@.no_duplicates()
    &&& b.live_in@.no_duplicates()
    &&& b.live_out@.no_duplicates()
    &&& b.use_vars@.to_set() == block_uses(bs, l)
    &&& b.def_vars@.to_set() == block_defs(bs, l)
    &&& b.live_in@.to_set() == sets.0
    &&& b.live_out@.to_set() == sets.1
}

/// Whether table `t` holds exactly one entry for each label of `st`, each
/// as `entry_holds` says.
pub open spec fn table_holds(
    t: Seq<(IrLabel, BlockLiveness)>,
    bs: Seq<BasicBlock>,
    st: Map<IrLabel, (Set<IrVar>, Set<IrVar>)>,
) -> bool {
    &&& forall|i: int, j: int| 0 <= i < j < t.len() ==> t[i].0 != t[j].0
    &&& forall|i: int| 0 <= i < t.len() ==> st.dom().contains(#[trigger] t[i].0)
    &&& forall|l: IrLabel| st.dom().contains(l) ==> exists|i: int| 0 <= i < t.len() && t[i].0 == l
    &&& forall|i: int| 0 <= i < t.len() ==> entry_holds(#[trigger] t[i].1, bs, t[i].0, st[t[i].0])
}

/// The position of the entry for `l`.
fn entry_index(t: &Vec<(IrLabel, BlockLiveness)>, l: IrLabel) -> (r: Option<usize>)
    ensures
        r matches Some(i) ==> i < t@.len() && t@[i as int].0 == l,
        r is None ==> forall|i: int| 0 <= i < t@.len() ==> t@[i].0 != l,
{
    let mut i: usize = 0;
    while i < t.len()
        invariant
            i <= t@.len(),
            forall|k: int| 0 <= k < i ==> t@[k].0 != l,
        decreases t@.len() - i,
    {
        if t[i].0 == l {
            return Some(i);
        }
        i = i + 1;
    }
    None
}

/// The position of the last block labelled `l`.
pub(crate) fn last_block_index(bs: &Vec<BasicBlock>, l: IrLabel) -> (r: Option<usize>)
    ensures
        r matches Some(i) ==> i as int == last_block(bs@, l),
        r is None ==> last_block(bs@, l) == -1,
{
    let mut n: usize = bs.len();
    while n > 0
        invariant
            n <= bs@.len(),
            last_block(bs@, l) == last_block_upto(bs@, l, n as int),
        decreases n,
    {
        if bs[n - 1].label == l {
            return Some(n - 1);
        }
        n = n - 1;
    }
    None
}

proof fn lemma_table_lookup(
    t: Seq<(IrLabel, BlockLiveness)>,
    bs: Seq<BasicBlock>,
    st: Map<IrLabel, (Set<IrVar>, Set<IrVar>)>,
    l: IrLabel,
)
    requires
        table_holds(t, bs, st),
        st.dom().contains(l),
    ensures
        exists|i: int| 0 <= i < t.len() && t[i].0 == l,
{
}

/// The analysis state for `t` brought up to date at block `l`, as
/// `visit_block` says.
fn visit_entry(
    cfg: &ControlFlowGraph,
    t: &mut Vec<(IrLabel, BlockLiveness)>,
    l: IrLabel,
    Ghost(st): Ghost<Map<IrLabel, (Set<IrVar>, Set<IrVar>)>>,
) -> (changed: bool)
    requires
        table_holds(old(t)@, cfg.blocks@, st),
        st.dom().contains(l),
        last_block(cfg.blocks@, l) >= 0,
    ensures
        table_holds(final(t)@, cfg.blocks@, visit_block(cfg.blocks@, st, l).0),
        changed == visit_block(cfg.blocks@, st, l).1,
{
    let ghost bs = cfg.blocks@;
    let j = match entry_index(t, l) {
        Some(j) => j,
        None => {
            proof {
                lemma_table_lookup(t@, bs, st, l);
            }
            return false;
        },
    };
    let bi = match last_block_index(&cfg.blocks, l) {
        Some(bi) => bi,
        None => {
            return false;
        },
    };
    proof {
        lemma_last_block_upto(bs, l, bs.len() as int);
    }
    let succs = &cfg.blocks[bi].successors;
    let mut new_out: Vec<IrVar> = Vec::new();
    let mut k: usize = 0;
    while k < succs.len()
        invariant
            k <= succs@.len(),
            table_holds(t@, bs, st),
            new_out@.no_duplicates(),
            new_out@.to_set() == live_into(st, succs@, k as int),
        decreases succs@.len() - k,
    {
        match entry_index(t, succs[k]) {
            Some(e) => {
                let ins = &t[e].1.live_in;
                let ghost base = new_out@.to_set();
                let mut q: usize = 0;
                while q < ins.len()
                    invariant
                        q <= ins@.len(),
                        new_out@.no_duplicates(),
                        new_out@.to_set() == base.union(ins@.take(q as int).to_set()),
                    decreases ins@.len() - q,
                {
                    proof {
                        lemma_push_to_set(ins@.take(q as int), ins@[q as int]);
                        assert(ins@.take(q + 1) =~= ins@.take(q as int).push(ins@[q as int]));
                    }
                    insert_var(&mut new_out, ins[q]);
                    assert(new_out@.to_set() =~= base.union(ins@.take(q + 1).to_set()));
                    q = q + 1;
                }
                assert(ins@.take(ins@.len() as int) =~= ins@);
                assert(st.dom().contains(succs@[k as int]));
                assert(new_out@.to_set() =~= live_into(st, succs@, k + 1));
            },
            None => {
                assert(!st.dom().contains(succs@[k as int]));
                assert(live_into(st, succs@, k + 1) =~= live_into(st, succs@, k as int));
            },
        }
        k = k + 1;
    }
    let uses = copy_vars(&t[j].1.use_vars);
    let defs = copy_vars(&t[j].1.def_vars);
    let mut new_in = copy_vars(&uses);
    let ghost u = uses@.to_set();
    let ghost d = defs@.to_set();
    let mut q: usize = 0;
    while q < new_out.len()
        invariant
            q <= new_out@.len(),
            new_in@.no_duplicates(),
            new_in@.to_set() == u.union(new_out@.take(q as int).to_set().difference(d)),
            d == defs@.to_set(),
        decreases new_out@.len() - q,
    {
        proof {
            lemma_push_to_set(new_out@.take(q as int), new_out@[q as int]);
            assert(new_out@.take(q + 1) =~= new_out@.take(q as int).push(new_out@[q as int]));
        }
        if !contains_var(&defs, new_out[q]) {
            insert_var(&mut new_in, new_out[q]);
        }
        assert(new_in@.to_set() =~= u.union(new_out@.take(q + 1).to_set().difference(d)));
        q = q + 1;
    }
    assert(new_out@.take(new_out@.len() as int) =~= new_out@);
    let ghost inn = new_in@.to_set();
    let ghost out = new_out@.to_set();
    assert(st[l] == (t@[j as int].1.live_in@.to_set(), t@[j as int].1.live_out@.to_set()));
    let same = same_set(&t[j].1.live_out, &new_out) && same_set(&t[j].1.live_in, &new_in);
    if same {
        assert(st[l] == (inn, out));
        assert(st.insert(l, (inn, out)) =~= st);
        false
    } else {
        let ghost t0 = t@;
        t.set(j, (l, BlockLiveness { use_vars: uses, def_vars: defs, live_in: new_in, live_out: new_out }));
        let ghost st2 = st.insert(l, (inn, out));
        assert forall|i: int| 0 <= i < t@.len() implies entry_holds(#[trigger] t@[i].1, bs, t@[i].0, st2[t@[i].0]) by {
            if i != j {
                assert(t@[i] == t0[i]);
                assert(t0[i].0 != l);
            }
        }
        assert forall|x: IrLabel| st2.dom().contains(x) implies exists|i: int| 0 <= i < t@.len() && t@[i].0 == x by {
            if x == l {
                assert(t@[j as int].0 == l);
            } else {
                let i = choose|i: int| 0 <= i < t0.len() && t0[i].0 == x;
                assert(t@[i].0 == x);
            }
        }
        true
    }
}

/// One round: the blocks of `order` brought up to date in turn.
fn live_round_exec(
    cfg: &ControlFlowGraph,
    t: &mut Vec<(IrLabel, BlockLiveness)>,
    order: &Vec<IrLabel>,
    Ghost(st): Ghost<Map<IrLabel, (Set<IrVar>, Set<IrVar>)>>,
) -> (changed: bool)
    requires
        table_holds(old(t)@, cfg.blocks@, st),
        forall|l: IrLabel| st.dom().contains(l) <==> last_block(cfg.blocks@, l) >= 0,
        forall|k: int| 0 <= k < order@.len() ==> last_block(cfg.blocks@, #[trigger] order@[k]) >= 0,
    ensures
        table_holds(final(t)@, cfg.blocks@, live_round(cfg.blocks@, st, order@, order@.len() as int).0),
        changed == live_round(cfg.blocks@, st, order@, order@.len() as int).1,
        forall|l: IrLabel|
            live_round(cfg.blocks@, st, order@, order@.len() as int).0.dom().contains(l) <==> last_block(
                cfg.blocks@,
                l,
            ) >= 0,
{
    let ghost bs = cfg.blocks@;
    let mut changed = false;
    let mut k: usize = 0;
    while k < order.len()
        invariant
            k <= order@.len(),
            bs == cfg.blocks@,
            forall|q: int| 0 <= q < order@.len() ==> last_block(bs, #[trigger] order@[q]) >= 0,
            table_holds(t@, bs, live_round(bs, st, order@, k as int).0),
            changed == live_round(bs, st, order@, k as int).1,
            forall|l: IrLabel| live_round(bs, st, order@, k as int).0.dom().contains(l) <==> last_block(bs, l) >= 0,
        decreases order@.len() - k,
    {
        let ghost cur = live_round(bs, st, order@, k as int).0;
        assert(last_block(bs, order@[k as int]) >= 0);
        let c = visit_entry(cfg, t, order[k], Ghost(cur));
        if c {
            changed = true;
        }
        assert(visit_block(bs, cur, order@[k as int]).0.dom() =~= cur.dom().insert(order@[k as int]));
        k = k + 1;
    }
    changed
}

impl LivenessInfo {
    /// Whether this is the analysis of `cfg`: one entry per block label, with
    /// the variables the block (the last one with that label) reads before
    /// writing and writes, and the live sets of `live_sets`.
    pub open spec fn describes(&self, cfg: ControlFlowGraph) -> bool {
        &&& table_holds(self.blocks@, cfg.blocks@, live_sets(cfg))
        &&& forall|l: IrLabel| live_sets(cfg).dom().contains(l) <==> last_block(cfg.blocks@, l) >= 0
    }

    /// Backward dataflow over `cfg`: the blocks are visited in `visit_order`,
    /// live on exit being what is live on entry to the successors and live
    /// on entry what the block reads before writing plus what is live on exit
    /// and not written, round after round until nothing changes, at most
    /// `MAX_ITERATIONS` rounds.
    pub fn compute(cfg: &ControlFlowGraph) -> (r: Self)
        requires
            cfg.blocks@.len() < usize::MAX,
            visits_known_labels(*cfg),
        ensures
            r.describes(*cfg),
    {
        let ghost bs = cfg.blocks@;
        let mut table: Vec<(IrLabel, BlockLiveness)> = Vec::new();
        let mut i: usize = 0;
        while i < cfg.blocks.len()
            invariant
                i <= bs.len(),
                bs == cfg.blocks@,
                forall|a: int, b: int| 0 <= a < b < table@.len() ==> table@[a].0 != table@[b].0,
                forall|a: int| 0 <= a < table@.len() ==> last_block_upto(bs, #[trigger] table@[a].0, i as int) >= 0,
                forall|l: IrLabel| #[trigger] last_block_upto(bs, l, i as int) >= 0 ==> exists|a: int| 0 <= a < table@.len() && table@[a].0 == l,
                forall|a: int|
                    0 <= a < table@.len() ==> {
                        let e = #[trigger] table@[a].1;
                        let b = bs[last_block_upto(bs, table@[a].0, i as int)];
                        &&& e.use_vars@.no_duplicates()
                        &&& e.def_vars@.no_duplicates()
                        &&& e.live_in@.len() == 0
                        &&& e.live_out@.len() == 0
                        &&& e.use_vars@.to_set() == upward_uses(b.instructions@, b.instructions@.len() as int)
                        &&& e.def_vars@.to_set() == written(b.instructions@, b.instructions@.len() as int)
                    },
            decreases bs.len() - i,
        {
            let label = cfg.blocks[i].label;
            let (u, d) = local_sets(&cfg.blocks[i].instructions);
            let entry = BlockLiveness { use_vars: u, def_vars: d, live_in: Vec::new(), live_out: Vec::new() };
            let ghost t0 = table@;
            match entry_index(&table, label) {
                Some(j) => {
                    table.set(j, (label, entry));
                    assert forall|a: int| 0 <= a < table@.len() && a != j implies table@[a] == t0[a] by {}
                },
                None => {
                    table.push((label, entry));
                },
            }
            assert forall|l: IrLabel| #[trigger] last_block_upto(bs, l, i + 1) >= 0 implies exists|a: int|
                0 <= a < table@.len() && table@[a].0 == l by {
                if l != label {
                    assert(last_block_upto(bs, l, i as int) >= 0);
                    let a = choose|a: int| 0 <= a < t0.len() && t0[a].0 == l;
                    assert(table@[a].0 == l);
                } else {
                    if exists|a: int| 0 <= a < t0.len() && t0[a].0 == l {
                        let a = choose|a: int| 0 <= a < t0.len() && t0[a].0 == l;
                        assert(table@[a].0 == l);
                    } else {
                        assert(table@[t0.len() as int].0 == l);
                    }
                }
            }
            i = i + 1;
        }
        let ghost st0 = initial_sets(bs);
        proof {
            assert forall|a: int| 0 <= a < table@.len() implies entry_holds(#[trigger] table@[a].1, bs, table@[a].0, st0[table@[a].0]) by {
                assert(table@[a].1.live_in@.to_set() =~= Set::<IrVar>::empty());
                assert(table@[a].1.live_out@.to_set() =~= Set::<IrVar>::empty());
            }
        }
        let order = block_visit_order(cfg);
        let ghost ord = order@;
        let mut changed = true;
        let mut iterations: usize = 0;
        let ghost mut st = st0;
        while changed && iterations < MAX_ITERATIONS
            invariant
                bs == cfg.blocks@,
                ord == visit_order(*cfg),
                order@ == ord,
                visits_known_labels(*cfg),
                iterations <= MAX_ITERATIONS,
                table_holds(table@, bs, st),
                forall|l: IrLabel| st.dom().contains(l) <==> last_block(bs, l) >= 0,
                live_sets(*cfg) == if changed {
                    live_rounds(bs, st, ord, (MAX_ITERATIONS - iterations) as nat)
                } else {
                    st
                },
            decreases MAX_ITERATIONS - iterations,
        {
            let ghost before = st;
            changed = live_round_exec(cfg, &mut table, &order, Ghost(st));
            proof {
                st = live_round(bs, before, ord, ord.len() as int).0;
            }
            iterations = iterations + 1;
        }
        LivenessInfo { blocks: table }
    }
}

proof fn lemma_quiet_round(
    bs: Seq<BasicBlock>,
    st: Map<IrLabel, (Set<IrVar>, Set<IrVar>)>,
    order: Seq<IrLabel>,
    k: int,
)
    requires
        0 <= k <= order.len(),
        !live_round(bs, st, order, k).1,
        forall|q: int| 0 <= q < order.len() ==> st.dom().contains(#[trigger] order[q]),
    ensures
        live_round(bs, st, order, k).0 == st,
        forall|q: int| 0 <= q < k ==> visit_block(bs, st, #[trigger] order[q]).0 == st,
    decreases k,
{
    if k > 0 {
        lemma_quiet_round(bs, st, order, k - 1);
        let l = order[k - 1];
        let (inn, out) = st[l];
        assert(st.insert(l, (inn, out)) =~= st);
    }
}

/// Dataflow equations: when a round over `order` changes nothing, every
/// block of `order` already has as live-on-exit set the union of what is
/// live on entry to its successors, and as live-on-entry set what it reads
/// before writing plus what is live on exit and it does not write.
pub proof fn lemma_settled_round_solves_equations(
    bs: Seq<BasicBlock>,
    st: Map<IrLabel, (Set<IrVar>, Set<IrVar>)>,
    order: Seq<IrLabel>,
)
    requires
        !live_round(bs, st, order, order.len() as int).1,
        forall|q: int| 0 <= q < order.len() ==> st.dom().contains(#[trigger] order[q]),
    ensures
        live_round(bs, st, order, order.len() as int).0 == st,
        forall|q: int|
            0 <= q < order.len() ==> {
                let l = #[trigger] order[q];
                let ss = bs[last_block(bs, l)].successors@;
                &&& st[l].1 == live_into(st, ss, ss.len() as int)
                &&& st[l].0 == block_uses(bs, l).union(st[l].1.difference(block_defs(bs, l)))
            },
{
    lemma_quiet_round(bs, st, order, order.len() as int);
    assert forall|q: int| 0 <= q < order.len() implies {
        let l = #[trigger] order[q];
        let ss = bs[last_block(bs, l)].successors@;
        &&& st[l].1 == live_into(st, ss, ss.len() as int)
        &&& st[l].0 == block_uses(bs, l).union(st[l].1.difference(block_defs(bs, l)))
    } by {
        let l = order[q];
        let ss = bs[last_block(bs, l)].successors@;
        let out = live_into(st, ss, ss.len() as int);
        let inn = block_uses(bs, l).union(out.difference(block_defs(bs, l)));
        assert(visit_block(bs, st, l).0 == st);
        assert(st.insert(l, (inn, out))[l] == (inn, out));
    }
}

/// Whether the entry and every successor of every block have a block.
pub open spec fn successors_known(cfg: ControlFlowGraph) -> bool {
    &&& last_block(cfg.blocks@, cfg.entry_label) >= 0
    &&& forall|i: int, k: int|
        0 <= i < cfg.blocks@.len() && 0 <= k < cfg.blocks@[i].successors@.len() ==> last_block(
            cfg.blocks@,
            #[trigger] cfg.blocks@[i].successors@[k],
        ) >= 0
}

/// Whether every label of `s` has a block.
pub open spec fn all_known(bs: Seq<BasicBlock>, s: Seq<IrLabel>) -> bool {
    forall|k: int| 0 <= k < s.len() ==> last_block(bs, #[trigger] s[k]) >= 0
}

proof fn lemma_has_last(bs: Seq<BasicBlock>, i: int)
    requires
        0 <= i < bs.len(),
    ensures
        last_block(bs, bs[i].label) >= 0,
{
    lemma_last_block_upto(bs, bs[i].label, bs.len() as int);
}

proof fn lemma_dfs_known(bs: Seq<BasicBlock>, l: IrLabel, vis: Set<IrLabel>, post: Seq<IrLabel>, fuel: nat)
    requires
        forall|i: int, k: int|
            0 <= i < bs.len() && 0 <= k < bs[i].successors@.len() ==> last_block(bs, #[trigger] bs[i].successors@[k])
                >= 0,
        last_block(bs, l) >= 0,
        all_known(bs, post),
    ensures
        all_known(bs, dfs_post(bs, l, vis, post, fuel).1),
    decreases fuel, 0nat, 0int,
{
    if !(vis.contains(l) || fuel == 0) {
        let ss = succs_of_label(bs, l);
        lemma_first_index(bs, l);
        lemma_last_block_upto(bs, l, bs.len() as int);
        let f = first_index(bs, l);
        assert(f >= 0);
        assert forall|k: int| 0 <= k < ss.len() implies last_block(bs, #[trigger] ss[k]) >= 0 by {
            assert(ss[k] == bs[f].successors@[k]);
        }
        lemma_dfs_list_known(bs, ss, ss.len() as int, vis.insert(l), post, (fuel - 1) as nat);
        let p2 = dfs_post_list(bs, ss, ss.len() as int, vis.insert(l), post, (fuel - 1) as nat).1;
        assert forall|k: int| 0 <= k < p2.push(l).len() implies last_block(bs, #[trigger] p2.push(l)[k]) >= 0 by {
            if k < p2.len() {
                assert(p2.push(l)[k] == p2[k]);
            }
        }
    }
}

proof fn lemma_dfs_list_known(
    bs: Seq<BasicBlock>,
    ss: Seq<IrLabel>,
    k: int,
    vis: Set<IrLabel>,
    post: Seq<IrLabel>,
    fuel: nat,
)
    requires
        forall|i: int, q: int|
            0 <= i < bs.len() && 0 <= q < bs[i].successors@.len() ==> last_block(bs, #[trigger] bs[i].successors@[q])
                >= 0,
        k <= ss.len(),
        all_known(bs, ss),
        all_known(bs, post),
    ensures
        all_known(bs, dfs_post_list(bs, ss, k, vis, post, fuel).1),
    decreases fuel, 1nat, k,
{
    if k > 0 {
        lemma_dfs_known(bs, ss[k - 1], vis, post, fuel);
        let (v2, p2) = dfs_post(bs, ss[k - 1], vis, post, fuel);
        lemma_dfs_list_known(bs, ss, k - 1, v2, p2, fuel);
    }
}

proof fn lemma_seeds_known(cfg: ControlFlowGraph, k: int)
    requires
        successors_known(cfg),
        0 <= k <= walk_seeds(cfg).len(),
    ensures
        all_known(
            cfg.blocks@,
            dfs_seeds(cfg.blocks@, walk_seeds(cfg), k, (cfg.blocks@.len() + 1) as nat).1,
        ),
    decreases k,
{
    let bs = cfg.blocks@;
    let seeds = walk_seeds(cfg);
    if k > 0 {
        lemma_seeds_known(cfg, k - 1);
        let (v, p) = dfs_seeds(bs, seeds, k - 1, (bs.len() + 1) as nat);
        if k - 1 == 0 {
            assert(seeds[0] == cfg.entry_label);
        } else {
            assert(seeds[k - 1] == bs[k - 2].label);
            lemma_has_last(bs, k - 2);
        }
        lemma_dfs_known(bs, seeds[k - 1], v, p, (bs.len() + 1) as nat);
    }
}

/// When the entry and every successor have blocks, so does every label the
/// analysis visits.
pub proof fn lemma_successors_known_visits(cfg: ControlFlowGraph)
    requires
        successors_known(cfg),
    ensures
        visits_known_labels(cfg),
{
    lemma_seeds_known(cfg, walk_seeds(cfg).len() as int);
}

/// The intervals after the variables `vs` are seen at position `p`: one not
/// seen before starts and ends at `p`, one seen before ends at `p` unless it
/// ends later already.
pub open spec fn touch(m: Map<IrVar, (int, int)>, vs: Set<IrVar>, p: int) -> Map<IrVar, (int, int)> {
    Map::new(
        |v: IrVar| m.dom().contains(v) || vs.contains(v),
        |v: IrVar|
            if vs.contains(v) {
                if m.dom().contains(v) {
                    (m[v].0, if m[v].1 >= p { m[v].1 } else { p })
                } else {
                    (p, p)
                }
            } else {
                m[v]
            },
    )
}

/// The intervals after the first `k` of `insts`, the first at position `p`,
/// each seen with the variables it reads, then those it writes.
pub open spec fn touch_insts(m: Map<IrVar, (int, int)>, insts: Seq<IrInst>, k: int, p: int) -> Map<IrVar, (int, int)>
    decreases k,
{
    if k <= 0 {
        m
    } else {
        let m1 = touch_insts(m, insts, k - 1, p);
        touch(touch(m1, inst_use_vars(insts[k - 1]).to_set(), p + k - 1), inst_def_vars(insts[k - 1]).to_set(), p + k - 1)
    }
}

/// The intervals over the first `n` blocks of `bs`, numbering instructions
/// in layout order, and the position after them: a block's live-on-entry
/// variables (as `sets` gives them) are seen at its first position, its
/// instructions at theirs, its live-on-exit variables just after its last.
pub open spec fn intervals_upto(sets: Map<IrLabel, (Set<IrVar>, Set<IrVar>)>, bs: Seq<BasicBlock>, n: int) -> (
    Map<IrVar, (int, int)>,
    int,
)
    decreases n,
{
    if n <= 0 {
        (Map::empty(), 0)
    } else {
        let (m, p) = intervals_upto(sets, bs, n - 1);
        let b = bs[n - 1];
        let m1 = if sets.dom().contains(b.label) {
            touch(m, sets[b.label].0, p)
        } else {
            m
        };
        let m2 = touch_insts(m1, b.instructions@, b.instructions@.len() as int, p);
        let p2 = p + b.instructions@.len();
        let m3 = if sets.dom().contains(b.label) {
            touch(m2, sets[b.label].1, p2)
        } else {
            m2
        };
        (m3, p2)
    }
}

/// The number of instructions in the first `n` blocks.
pub open spec fn inst_count(bs: Seq<BasicBlock>, n: int) -> int
    decreases n,
{
    if n <= 0 {
        0
    } else {
        inst_count(bs, n - 1) + bs[n - 1].instructions@.len()
    }
}

/// Whether the intervals `s`, one per variable, are those of `m`.
pub open spec fn intervals_are(s: Seq<LiveInterval>, m: Map<IrVar, (int, int)>) -> bool {
    &&& forall|i: int, j: int| 0 <= i < j < s.len() ==> s[i].var != s[j].var
    &&& forall|i: int|
        0 <= i < s.len() ==> m.dom().contains(#[trigger] s[i].var) && m[s[i].var] == (s[i].start as int, s[i].end as int)
    &&& forall|v: IrVar| m.dom().contains(v) ==> exists|i: int| 0 <= i < s.len() && s[i].var == v
}

proof fn lemma_touch_insert(m: Map<IrVar, (int, int)>, vs: Set<IrVar>, x: IrVar, p: int)
    ensures
        touch(touch(m, vs, p), set![x], p) == touch(m, vs.insert(x), p),
{
    assert(touch(touch(m, vs, p), set![x], p) =~= touch(m, vs.insert(x), p));
}

proof fn lemma_intervals_upto_pos(t: Map<IrLabel, (Set<IrVar>, Set<IrVar>)>, bs: Seq<BasicBlock>, n: int)
    requires
        0 <= n <= bs.len(),
    ensures
        intervals_upto(t, bs, n).1 == inst_count(bs, n),
    decreases n,
{
    if n > 0 {
        lemma_intervals_upto_pos(t, bs, n - 1);
    }
}

/// The position of the interval of `x`.
fn interval_index(ivs: &Vec<LiveInterval>, x: IrVar) -> (r: Option<usize>)
    ensures
        r matches Some(j) ==> j < ivs@.len() && ivs@[j as int].var == x,
        r is None ==> forall|k: int| 0 <= k < ivs@.len() ==> ivs@[k].var != x,
{
    let mut i: usize = 0;
    while i < ivs.len()
        invariant
            i <= ivs@.len(),
            forall|k: int| 0 <= k < i ==> ivs@[k].var != x,
        decreases ivs@.len() - i,
    {
        if ivs[i].var == x {
            return Some(i);
        }
        i = i + 1;
    }
    None
}

/// Records that the variables of `vs` are seen at `p`.
fn touch_vars(ivs: &mut Vec<LiveInterval>, vs: &Vec<IrVar>, p: usize, Ghost(m): Ghost<Map<IrVar, (int, int)>>)
    requires
        intervals_are(old(ivs)@, m),
    ensures
        intervals_are(final(ivs)@, touch(m, vs@.to_set(), p as int)),
{
    let mut q: usize = 0;
    assert(touch(m, vs@.take(0).to_set(), p as int) =~= m);
    while q < vs.len()
        invariant
            q <= vs@.len(),
            intervals_are(ivs@, touch(m, vs@.take(q as int).to_set(), p as int)),
        decreases vs@.len() - q,
    {
        let ghost cur = touch(m, vs@.take(q as int).to_set(), p as int);
        let x = vs[q];
        proof {
            lemma_touch_insert(m, vs@.take(q as int).to_set(), x, p as int);
            lemma_push_to_set(vs@.take(q as int), x);
            assert(vs@.take(q + 1) =~= vs@.take(q as int).push(x));
        }
        let ghost t0 = ivs@;
        let found = interval_index(ivs, x);
        match found {
            Some(j) => {
                let old_iv = LiveInterval { var: ivs[j].var, start: ivs[j].start, end: ivs[j].end };
                let end = if old_iv.end >= p { old_iv.end } else { p };
                ivs.set(j, LiveInterval { var: x, start: old_iv.start, end });
                assert(cur.dom().contains(x));
                let ghost nxt = touch(cur, set![x], p as int);
                assert forall|k: int| 0 <= k < ivs@.len() implies nxt.dom().contains(#[trigger] ivs@[k].var) && nxt[ivs@[k].var] == (
                ivs@[k].start as int, ivs@[k].end as int) by {
                    if k != j {
                        assert(ivs@[k] == t0[k]);
                    }
                }
                assert forall|v: IrVar| nxt.dom().contains(v) implies exists|k: int| 0 <= k < ivs@.len() && ivs@[k].var == v by {
                    let k = choose|k: int| 0 <= k < t0.len() && t0[k].var == v;
                    assert(ivs@[k].var == v);
                }
            },
            None => {
                ivs.push(LiveInterval { var: x, start: p, end: p });
                assert(!cur.dom().contains(x)) by {
                    if cur.dom().contains(x) {
                        let k = choose|k: int| 0 <= k < t0.len() && t0[k].var == x;
                    }
                }
                let ghost nxt = touch(cur, set![x], p as int);
                assert forall|k: int| 0 <= k < ivs@.len() implies nxt.dom().contains(#[trigger] ivs@[k].var) && nxt[ivs@[k].var] == (
                ivs@[k].start as int, ivs@[k].end as int) by {
                    if k < t0.len() {
                        assert(ivs@[k] == t0[k]);
                    }
                }
                assert forall|v: IrVar| nxt.dom().contains(v) implies exists|k: int| 0 <= k < ivs@.len() && ivs@[k].var == v by {
                    if v == x {
                        assert(ivs@[t0.len() as int].var == v);
                    } else {
                        let k = choose|k: int| 0 <= k < t0.len() && t0[k].var == v;
                        assert(ivs@[k].var == v);
                    }
                }
            },
        }
        q = q + 1;
    }
    assert(vs@.take(vs@.len() as int) =~= vs@);
}

impl LivenessInfo {
    /// The live sets each entry records, by label.
    pub open spec fn recorded_sets(&self) -> Map<IrLabel, (Set<IrVar>, Set<IrVar>)> {
        Map::new(
            |l: IrLabel| pairs_get(self.blocks@, l) is Some,
            |l: IrLabel|
                (pairs_get(self.blocks@, l).unwrap().live_in@.to_set(), pairs_get(self.blocks@, l).unwrap().live_out@.to_set()),
        )
    }

    /// The interval of each variable over the instructions numbered in
    /// layout order, as `intervals_upto` gives it with the recorded live
    /// sets, one per variable.
    pub fn compute_live_intervals(&self, cfg: &ControlFlowGraph) -> (r: Vec<LiveInterval>)
        requires
            inst_count(cfg.blocks@, cfg.blocks@.len() as int) < usize::MAX,
        ensures
            intervals_are(r@, intervals_upto(self.recorded_sets(), cfg.blocks@, cfg.blocks@.len() as int).0),
    {
        let ghost bs = cfg.blocks@;
        let ghost t = self.recorded_sets();
        let mut ivs: Vec<LiveInterval> = Vec::new();
        let mut pc: usize = 0;
        let mut n: usize = 0;
        proof {
            assert(intervals_are(ivs@, Map::<IrVar, (int, int)>::empty()));
        }
        while n < cfg.blocks.len()
            invariant
                n <= bs.len(),
                bs == cfg.blocks@,
                t == self.recorded_sets(),
                inst_count(bs, bs.len() as int) < usize::MAX,
                pc as int == intervals_upto(t, bs, n as int).1,
                intervals_are(ivs@, intervals_upto(t, bs, n as int).0),
            decreases bs.len() - n,
        {
            proof {
                lemma_intervals_upto_pos(t, bs, n as int);
                lemma_inst_count_mono(bs, n + 1, bs.len() as int);
            }
            let block = &cfg.blocks[n];
            let ghost (m, p) = intervals_upto(t, bs, n as int);
            let entry = find_block(&self.blocks, block.label);
            match entry {
                Some(e) => {
                    touch_vars(&mut ivs, &self.blocks[e].1.live_in, pc, Ghost(m));
                },
                None => {},
            }
            let ghost m1 = if t.dom().contains(block.label) {
                touch(m, t[block.label].0, p)
            } else {
                m
            };
            let mut k: usize = 0;
            while k < block.instructions.len()
                invariant
                    k <= block.instructions@.len(),
                    pc as int == p,
                    p + block.instructions@.len() < usize::MAX,
                    intervals_are(ivs@, touch_insts(m1, block.instructions@, k as int, p)),
                decreases block.instructions@.len() - k,
            {
                let uses = block.instructions[k].use_vars();
                touch_vars(&mut ivs, &uses, pc + k, Ghost(touch_insts(m1, block.instructions@, k as int, p)));
                let defs = block.instructions[k].def_vars();
                touch_vars(
                    &mut ivs,
                    &defs,
                    pc + k,
                    Ghost(touch(touch_insts(m1, block.instructions@, k as int, p), uses@.to_set(), p + k)),
                );
                k = k + 1;
            }
            pc = pc + block.instructions.len();
            match entry {
                Some(e) => {
                    touch_vars(
                        &mut ivs,
                        &self.blocks[e].1.live_out,
                        pc,
                        Ghost(touch_insts(m1, block.instructions@, block.instructions@.len() as int, p)),
                    );
                },
                None => {},
            }
            n = n + 1;
        }
        ivs
    }
}

proof fn lemma_inst_count_mono(bs: Seq<BasicBlock>, a: int, b: int)
    requires
        0 <= a <= b <= bs.len(),
    ensures
        inst_count(bs, a) <= inst_count(bs, b),
    decreases b - a,
{
    if a < b {
        lemma_inst_count_mono(bs, a, b - 1);
    }
}

pub(crate) proof fn lemma_pairs_get_distinct<K, V>(t: Seq<(K, V)>, i: int)
    requires
        0 <= i < t.len(),
        forall|a: int, b: int| 0 <= a < b < t.len() ==> t[a].0 != t[b].0,
    ensures
        pairs_get(t, t[i].0) == Some(t[i].1),
    decreases t.len(),
{
    if i > 0 {
        assert(t[0].0 != t[i].0);
        lemma_pairs_get_distinct(t.drop_first(), i - 1);
    }
}

pub(crate) proof fn lemma_pairs_get_absent<K, V>(t: Seq<(K, V)>, k: K)
    requires
        forall|a: int| 0 <= a < t.len() ==> t[a].0 != k,
    ensures
        pairs_get(t, k) is None,
    decreases t.len(),
{
    if t.len() > 0 {
        lemma_pairs_get_absent(t.drop_first(), k);
    }
}

impl LivenessInfo {
    /// The analysis of `cfg` records exactly the sets `live_sets` gives.
    pub proof fn lemma_describes_records(&self, cfg: ControlFlowGraph)
        requires
            self.describes(cfg),
        ensures
            self.recorded_sets() == live_sets(cfg),
    {
        let t = self.blocks@;
        let st = live_sets(cfg);
        assert forall|l: IrLabel| #[trigger] self.recorded_sets().dom().contains(l) <==> st.dom().contains(l) by {
            if st.dom().contains(l) {
                let i = choose|i: int| 0 <= i < t.len() && t[i].0 == l;
                lemma_pairs_get_distinct(t, i);
            } else {
                lemma_pairs_get_absent(t, l);
            }
        }
        assert forall|l: IrLabel| st.dom().contains(l) implies #[trigger] self.recorded_sets()[l] == st[l] by {
            let i = choose|i: int| 0 <= i < t.len() && t[i].0 == l;
            lemma_pairs_get_distinct(t, i);
            assert(entry_holds(t[i].1, cfg.blocks@, t[i].0, st[t[i].0]));
        }
        assert(self.recorded_sets() =~= st);
    }
}

proof fn lemma_first_index_same(bs1: Seq<BasicBlock>, bs2: Seq<BasicBlock>, l: IrLabel)
    requires
        bs1.len() == bs2.len(),
        forall|i: int| 0 <= i < bs1.len() ==> (#[trigger] bs1[i]).label == bs2[i].label,
    ensures
        first_index(bs1, l) == first_index(bs2, l),
    decreases bs1.len(),
{
    if bs1.len() > 0 {
        assert(bs1[0].label == bs2[0].label);
        let t1 = bs1.drop_first();
        let t2 = bs2.drop_first();
        assert forall|i: int| 0 <= i < t1.len() implies (#[trigger] t1[i]).label == t2[i].label by {
            assert(bs1[i + 1].label == bs2[i + 1].label);
        }
        lemma_first_index_same(t1, t2, l);
    }
}

/// Whether two lists of blocks have the same labels and successors, block
/// by block.
pub open spec fn same_shape(bs1: Seq<BasicBlock>, bs2: Seq<BasicBlock>) -> bool {
    &&& bs1.len() == bs2.len()
    &&& forall|i: int| 0 <= i < bs1.len() ==> (#[trigger] bs1[i]).label == bs2[i].label && bs1[i].successors@ == bs2[i].successors@
}

proof fn lemma_succs_same(bs1: Seq<BasicBlock>, bs2: Seq<BasicBlock>, l: IrLabel)
    requires
        same_shape(bs1, bs2),
    ensures
        succs_of_label(bs1, l) == succs_of_label(bs2, l),
{
    lemma_first_index_same(bs1, bs2, l);
    lemma_first_index(bs1, l);
}

proof fn lemma_dfs_same(bs1: Seq<BasicBlock>, bs2: Seq<BasicBlock>, l: IrLabel, vis: Set<IrLabel>, post: Seq<IrLabel>, fuel: nat)
    requires
        same_shape(bs1, bs2),
    ensures
        dfs_post(bs1, l, vis, post, fuel) == dfs_post(bs2, l, vis, post, fuel),
    decreases fuel, 0nat, 0int,
{
    if !(vis.contains(l) || fuel == 0) {
        lemma_succs_same(bs1, bs2, l);
        let ss = succs_of_label(bs1, l);
        lemma_dfs_list_same(bs1, bs2, ss, ss.len() as int, vis.insert(l), post, (fuel - 1) as nat);
    }
}

proof fn lemma_dfs_list_same(
    bs1: Seq<BasicBlock>,
    bs2: Seq<BasicBlock>,
    ss: Seq<IrLabel>,
    k: int,
    vis: Set<IrLabel>,
    post: Seq<IrLabel>,
    fuel: nat,
)
    requires
        same_shape(bs1, bs2),
    ensures
        dfs_post_list(bs1, ss, k, vis, post, fuel) == dfs_post_list(bs2, ss, k, vis, post, fuel),
    decreases fuel, 1nat, k,
{
    if k > 0 {
        lemma_dfs_same(bs1, bs2, ss[k - 1], vis, post, fuel);
        let (v2, p2) = dfs_post(bs1, ss[k - 1], vis, post, fuel);
        lemma_dfs_list_same(bs1, bs2, ss, k - 1, v2, p2, fuel);
    }
}

proof fn lemma_seeds_same(cfg1: ControlFlowGraph, cfg2: ControlFlowGraph, k: int)
    requires
        same_shape(cfg1.blocks@, cfg2.blocks@),
        cfg1.entry_label == cfg2.entry_label,
    ensures
        dfs_seeds(cfg1.blocks@, walk_seeds(cfg1), k, (cfg1.blocks@.len() + 1) as nat) == dfs_seeds(
            cfg2.blocks@,
            walk_seeds(cfg2),
            k,
            (cfg2.blocks@.len() + 1) as nat,
        ),
    decreases k,
{
    if k > 0 {
        lemma_seeds_same(cfg1, cfg2, k - 1);
        let (v, p) = dfs_seeds(cfg1.blocks@, walk_seeds(cfg1), k - 1, (cfg1.blocks@.len() + 1) as nat);
        assert(walk_seeds(cfg1) =~= walk_seeds(cfg2));
        lemma_dfs_same(cfg1.blocks@, cfg2.blocks@, walk_seeds(cfg1)[k - 1], v, p, (cfg1.blocks@.len() + 1) as nat);
    }
}

proof fn lemma_last_block_same(bs1: Seq<BasicBlock>, bs2: Seq<BasicBlock>, l: IrLabel, n: int)
    requires
        same_shape(bs1, bs2),
        n <= bs1.len(),
    ensures
        last_block_upto(bs1, l, n) == last_block_upto(bs2, l, n),
    decreases n,
{
    if n > 0 {
        assert(bs1[n - 1].label == bs2[n - 1].label);
        lemma_last_block_same(bs1, bs2, l, n - 1);
    }
}

/// The order of visits depends only on the entry, the labels and the
/// successors, so changing only the code of blocks keeps every visited
/// label known.
pub proof fn lemma_same_shape_visits(cfg1: ControlFlowGraph, cfg2: ControlFlowGraph)
    requires
        same_shape(cfg1.blocks@, cfg2.blocks@),
        cfg1.entry_label == cfg2.entry_label,
    ensures
        visit_order(cfg1) == visit_order(cfg2),
        visits_known_labels(cfg1) ==> visits_known_labels(cfg2),
{
    lemma_seeds_same(cfg1, cfg2, walk_seeds(cfg1).len() as int);
    assert(walk_seeds(cfg1).len() == walk_seeds(cfg2).len());
    assert forall|l: IrLabel| #[trigger] last_block(cfg1.blocks@, l) == last_block(cfg2.blocks@, l) by {
        lemma_last_block_same(cfg1.blocks@, cfg2.blocks@, l, cfg1.blocks@.len() as int);
    }
}

} // verus!
