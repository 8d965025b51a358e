//! Dominator analysis: immediate dominators, the dominator tree and the
//! dominance frontiers of a control-flow graph.
use vstd::prelude::*;

use crate::compiler::ir::block::{BasicBlock, ControlFlowGraph};
use crate::compiler::ir::liveness::{last_block, last_block_index, lemma_pairs_get_absent, lemma_pairs_get_distinct};
use crate::compiler::ir::types::IrLabel;

verus! {

/// The value stored for `k` in a list of pairs: the first pair with key `k`.
pub open spec fn pairs_get<K, V>(ps: Seq<(K, V)>, k: K) -> Option<V>
    decreases ps.len(),
{
    if ps.len() == 0 {
        None
    } else if ps[0].0 == k {
        Some(ps[0].1)
    } else {
        pairs_get(ps.drop_first(), k)
    }
}

/// The immediate dominator of each block, the blocks each one immediately
/// dominates, and the dominance frontier of each block.
#[derive(Debug, Clone)]
pub struct DominatorTree {
    pub idom: Vec<(IrLabel, IrLabel)>,
    pub children: Vec<(IrLabel, Vec<IrLabel>)>,
    pub frontiers: Vec<(IrLabel, Vec<IrLabel>)>,
}

/// The most steps a walk up the dominator tree takes before it gives up.
pub open spec fn walk_limit() -> int {
    1000
}

/// Whether walking up from `b` by immediate dominators (having taken `steps`
/// steps) meets `a` before reaching a root, a missing entry or the step
/// limit.
pub open spec fn walk_meets(idom: Seq<(IrLabel, IrLabel)>, a: IrLabel, b: IrLabel, steps: int) -> bool
    decreases walk_limit() + 1 - steps,
{
    if steps > walk_limit() || steps < 0 {
        false
    } else {
        match pairs_get(idom, b) {
            None => false,
            Some(parent) => parent == a || (parent != b && steps + 1 <= walk_limit() && walk_meets(
                idom,
                a,
                parent,
                steps + 1,
            )),
        }
    }
}

/// The value recorded for `k`.
pub fn lookup_label(ps: &Vec<(IrLabel, IrLabel)>, k: IrLabel) -> (r: Option<IrLabel>)
    ensures
        r == pairs_get(ps@, k),
{
    let mut i: usize = 0;
    assert(ps@.skip(0) =~= ps@);
    while i < ps.len()
        invariant
            i <= ps@.len(),
            pairs_get(ps@, k) == pairs_get(ps@.skip(i as int), k),
        decreases ps@.len() - i,
    {
        assert(ps@.skip(i as int).drop_first() =~= ps@.skip(i + 1));
        if ps[i].0 == k {
            return Some(ps[i].1);
        }
        i = i + 1;
    }
    None
}

impl DominatorTree {
    /// Whether block `a` dominates block `b`: `a` is `b`, or it is met walking
    /// up from `b` by immediate dominators (at most 1000 steps).
    pub fn dominates(&self, a: IrLabel, b: IrLabel) -> (r: bool)
        ensures
            r == (a == b || walk_meets(self.idom@, a, b, 0)),
    {
        if a == b {
            return true;
        }
        let ghost b0 = b;
        let mut cur = b;
        let mut steps: usize = 0;
        loop
            invariant
                steps <= 1000,
                a != b0,
                b0 == b,
                walk_meets(self.idom@, a, b0, 0) == walk_meets(self.idom@, a, cur, steps as int),
            decreases 1001 - steps,
        {
            match lookup_label(&self.idom, cur) {
                None => {
                    assert(!walk_meets(self.idom@, a, cur, steps as int));
                    return false;
                },
                Some(parent) => {
                    if parent == a {
                        assert(walk_meets(self.idom@, a, cur, steps as int));
                        return true;
                    }
                    if parent == cur {
                        assert(!walk_meets(self.idom@, a, cur, steps as int));
                        return false;
                    }
                    if steps + 1 > 1000 {
                        assert(!walk_meets(self.idom@, a, cur, steps as int));
                        return false;
                    }
                    assert(walk_meets(self.idom@, a, cur, steps as int) == walk_meets(
                        self.idom@,
                        a,
                        parent,
                        steps + 1,
                    ));
                    cur = parent;
                    steps = steps + 1;
                },
            }
        }
    }
}

/// Whether the pairs `v`, one per key, are the map `m`.
pub open spec fn pairs_hold(v: Seq<(IrLabel, IrLabel)>, m: Map<IrLabel, IrLabel>) -> bool {
    &&& forall|i: int, j: int| 0 <= i < j < v.len() ==> v[i].0 != v[j].0
    &&& forall|i: int| 0 <= i < v.len() ==> m.dom().contains(#[trigger] v[i].0) && m[v[i].0] == v[i].1
    &&& forall|k: IrLabel| m.dom().contains(k) ==> exists|i: int| 0 <= i < v.len() && v[i].0 == k
}

/// Whether the lists `v`, one per key and each without repeats, hold the
/// sets of `m`.
pub open spec fn lists_hold(v: Seq<(IrLabel, Vec<IrLabel>)>, m: Map<IrLabel, Set<IrLabel>>) -> bool {
    &&& forall|i: int, j: int| 0 <= i < j < v.len() ==> v[i].0 != v[j].0
    &&& forall|i: int|
        0 <= i < v.len() ==> m.dom().contains(#[trigger] v[i].0) && v[i].1@.no_duplicates() && v[i].1@.to_set()
            == m[v[i].0]
    &&& forall|k: IrLabel| m.dom().contains(k) ==> exists|i: int| 0 <= i < v.len() && v[i].0 == k
}

/// The position the dominator walk uses for `l`: that of the last block
/// labelled `l`, or 0 when there is none.
pub open spec fn label_pos(bs: Seq<BasicBlock>, l: IrLabel) -> int {
    if last_block(bs, l) >= 0 {
        last_block(bs, l)
    } else {
        0
    }
}

/// Walking up from `b` by immediate dominators while its position is above
/// `bound`, stopping at a root or a label without one (at most `fuel` steps).
pub open spec fn climb(idom: Map<IrLabel, IrLabel>, bs: Seq<BasicBlock>, b: IrLabel, bound: int, fuel: nat) -> IrLabel
    decreases fuel,
{
    if fuel == 0 || label_pos(bs, b) <= bound {
        b
    } else {
        match idom.get(b) {
            Some(p) => if p == b {
                b
            } else {
                climb(idom, bs, p, bound, (fuel - 1) as nat)
            },
            None => b,
        }
    }
}

/// The common dominator of `b1` and `b2` the walks meet at, each round
/// raising the one further down, at most 1000 rounds (`steps` taken).
pub open spec fn intersect_from(idom: Map<IrLabel, IrLabel>, bs: Seq<BasicBlock>, b1: IrLabel, b2: IrLabel, steps: int) -> IrLabel
    decreases 1000 - steps,
{
    if b1 == b2 || steps >= 1000 {
        b1
    } else {
        let f = (bs.len() + 2) as nat;
        let c1 = climb(idom, bs, b1, label_pos(bs, b2), f);
        let c2 = climb(idom, bs, b2, label_pos(bs, c1), f);
        intersect_from(idom, bs, c1, c2, steps + 1)
    }
}

/// The first of `ps` that already has an immediate dominator.
pub open spec fn first_known(ps: Seq<IrLabel>, idom: Map<IrLabel, IrLabel>) -> Option<IrLabel>
    decreases ps.len(),
{
    if ps.len() == 0 {
        None
    } else if idom.dom().contains(ps[0]) {
        Some(ps[0])
    } else {
        first_known(ps.drop_first(), idom)
    }
}

/// Starting from `start`, the meet with each of the first `k` of `ps` that
/// has an immediate dominator and differs from the meet so far.
pub open spec fn meet_upto(idom: Map<IrLabel, IrLabel>, bs: Seq<BasicBlock>, ps: Seq<IrLabel>, start: IrLabel, k: int) -> IrLabel
    decreases k,
{
    if k <= 0 {
        start
    } else {
        let c = meet_upto(idom, bs, ps, start, k - 1);
        let p = ps[k - 1];
        if p != c && idom.dom().contains(p) {
            intersect_from(idom, bs, p, c, 0)
        } else {
            c
        }
    }
}

/// Block `j` brought up to date: unless it is the entry or none of its
/// predecessors has an immediate dominator yet, its immediate dominator
/// becomes the meet of its predecessors that have one. The flag tells
/// whether that changed it.
pub open spec fn dom_visit(bs: Seq<BasicBlock>, entry: IrLabel, idom: Map<IrLabel, IrLabel>, j: int) -> (Map<IrLabel, IrLabel>, bool) {
    let b = bs[j].label;
    let ps = bs[j].predecessors@;
    if b == entry {
        (idom, false)
    } else {
        match first_known(ps, idom) {
            None => (idom, false),
            Some(first) => {
                let n = meet_upto(idom, bs, ps, first, ps.len() as int);
                if idom.get(b) != Some(n) {
                    (idom.insert(b, n), true)
                } else {
                    (idom, false)
                }
            },
        }
    }
}

/// The first `k` blocks brought up to date in turn, and whether any changed.
pub open spec fn dom_round(bs: Seq<BasicBlock>, entry: IrLabel, idom: Map<IrLabel, IrLabel>, k: int) -> (Map<IrLabel, IrLabel>, bool)
    decreases k,
{
    if k <= 0 {
        (idom, false)
    } else {
        let (m, c) = dom_round(bs, entry, idom, k - 1);
        let (m2, c2) = dom_visit(bs, entry, m, k - 1);
        (m2, c || c2)
    }
}

/// At most `n` rounds over the blocks, stopping after one that changes
/// nothing.
pub open spec fn dom_rounds(bs: Seq<BasicBlock>, entry: IrLabel, idom: Map<IrLabel, IrLabel>, n: nat) -> Map<IrLabel, IrLabel>
    decreases n,
{
    if n == 0 {
        idom
    } else {
        let (m, c) = dom_round(bs, entry, idom, bs.len() as int);
        if !c {
            m
        } else {
            dom_rounds(bs, entry, m, (n - 1) as nat)
        }
    }
}

/// The immediate dominators `DominatorTree::build` settles on: the entry is
/// its own, then at most 1000 rounds over the blocks.
pub open spec fn idom_of(cfg: ControlFlowGraph) -> Map<IrLabel, IrLabel> {
    dom_rounds(cfg.blocks@, cfg.entry_label, map![cfg.entry_label => cfg.entry_label], 1000)
}

/// The blocks each label immediately dominates (itself excluded).
pub open spec fn children_of(d: Map<IrLabel, IrLabel>) -> Map<IrLabel, Set<IrLabel>> {
    Map::new(
        |p: IrLabel| exists|n: IrLabel| d.dom().contains(n) && d[n] == p && n != p,
        |p: IrLabel| Set::new(|n: IrLabel| d.dom().contains(n) && d[n] == p && n != p),
    )
}

/// `fr` with `b` added to the frontier of `runner`.
pub open spec fn add_front(fr: Map<IrLabel, Set<IrLabel>>, runner: IrLabel, b: IrLabel) -> Map<IrLabel, Set<IrLabel>> {
    fr.insert(
        runner,
        (if fr.dom().contains(runner) {
            fr[runner]
        } else {
            Set::empty()
        }).insert(b),
    )
}

/// Walking up from `runner` by immediate dominators until `target`, adding
/// `b` to the frontier of each label passed, at most 500 steps (`steps`
/// taken); a root or a label without an immediate dominator ends the walk.
pub open spec fn front_walk(
    idom: Map<IrLabel, IrLabel>,
    fr: Map<IrLabel, Set<IrLabel>>,
    runner: IrLabel,
    target: IrLabel,
    b: IrLabel,
    steps: int,
) -> Map<IrLabel, Set<IrLabel>>
    decreases 500 - steps,
{
    if runner == target || steps >= 500 {
        fr
    } else {
        let fr1 = add_front(fr, runner, b);
        match idom.get(runner) {
            Some(nx) => if nx == runner {
                fr1
            } else {
                front_walk(idom, fr1, nx, target, b, steps + 1)
            },
            None => fr1,
        }
    }
}

/// The walks from the first `k` predecessors `ps` of `b`.
pub open spec fn front_preds(
    idom: Map<IrLabel, IrLabel>,
    fr: Map<IrLabel, Set<IrLabel>>,
    ps: Seq<IrLabel>,
    k: int,
    target: IrLabel,
    b: IrLabel,
) -> Map<IrLabel, Set<IrLabel>>
    decreases k,
{
    if k <= 0 {
        fr
    } else {
        front_walk(idom, front_preds(idom, fr, ps, k - 1, target, b), ps[k - 1], target, b, 0)
    }
}

/// The frontiers after the first `n` blocks: a block with two or more
/// predecessors is added to the frontier of each label on the walks up from
/// its predecessors to its immediate dominator.
pub open spec fn front_blocks(idom: Map<IrLabel, IrLabel>, bs: Seq<BasicBlock>, fr: Map<IrLabel, Set<IrLabel>>, n: int) -> Map<
    IrLabel,
    Set<IrLabel>,
>
    decreases n,
{
    if n <= 0 {
        fr
    } else {
        let prev = front_blocks(idom, bs, fr, n - 1);
        let blk = bs[n - 1];
        let ps = blk.predecessors@;
        if ps.len() >= 2 {
            let target = match idom.get(blk.label) {
                Some(t) => t,
                None => blk.label,
            };
            front_preds(idom, prev, ps, ps.len() as int, target, blk.label)
        } else {
            prev
        }
    }
}

/// An empty frontier for every block label.
pub open spec fn front_init(bs: Seq<BasicBlock>) -> Map<IrLabel, Set<IrLabel>> {
    Map::new(|l: IrLabel| exists|i: int| 0 <= i < bs.len() && bs[i].label == l, |l: IrLabel| Set::empty())
}

/// The dominance frontiers `DominatorTree::build` finds.
pub open spec fn frontiers_of(cfg: ControlFlowGraph) -> Map<IrLabel, Set<IrLabel>> {
    front_blocks(idom_of(cfg), cfg.blocks@, front_init(cfg.blocks@), cfg.blocks@.len() as int)
}

proof fn lemma_pairs_hold_get(v: Seq<(IrLabel, IrLabel)>, m: Map<IrLabel, IrLabel>, k: IrLabel)
    requires
        pairs_hold(v, m),
    ensures
        pairs_get(v, k) == m.get(k),
{
    if m.dom().contains(k) {
        let i = choose|i: int| 0 <= i < v.len() && v[i].0 == k;
        lemma_pairs_get_distinct(v, i);
    } else {
        lemma_pairs_get_absent(v, k);
    }
}

/// The immediate dominator recorded for `k` (see `pairs_hold`).
fn idom_get(v: &Vec<(IrLabel, IrLabel)>, k: IrLabel, Ghost(m): Ghost<Map<IrLabel, IrLabel>>) -> (r: Option<IrLabel>)
    requires
        pairs_hold(v@, m),
    ensures
        r == m.get(k),
{
    proof {
        lemma_pairs_hold_get(v@, m, k);
    }
    lookup_label(v, k)
}

/// Records `val` for `k`.
fn idom_set(v: &mut Vec<(IrLabel, IrLabel)>, k: IrLabel, val: IrLabel, Ghost(m): Ghost<Map<IrLabel, IrLabel>>)
    requires
        pairs_hold(old(v)@, m),
    ensures
        pairs_hold(final(v)@, m.insert(k, val)),
{
    let ghost v0 = v@;
    let mut i: usize = 0;
    while i < v.len()
        invariant
            i <= v@.len(),
            v@ == v0,
            v0 == old(v)@,
            pairs_hold(v0, m),
            forall|q: int| 0 <= q < i ==> v@[q].0 != k,
        decreases v@.len() - i,
    {
        if v[i].0 == k {
            v.set(i, (k, val));
            assert forall|k2: IrLabel| m.insert(k, val).dom().contains(k2) implies exists|q: int| 0 <= q < v@.len() && v@[q].0 == k2 by {
                if k2 != k {
                    assert(m.dom().contains(k2));
                    let q = choose|q: int| 0 <= q < v0.len() && v0[q].0 == k2;
                    assert(v@[q].0 == k2);
                } else {
                    assert(v@[i as int].0 == k2);
                }
            }
            assert forall|q: int| 0 <= q < v@.len() implies m.insert(k, val).dom().contains(#[trigger] v@[q].0) && m.insert(k, val)[v@[q].0] == v@[q].1 by {
                if q != i {
                    assert(v@[q] == v0[q]);
                }
            }
            return;
        }
        i = i + 1;
    }
    v.push((k, val));
    assert forall|k2: IrLabel| m.insert(k, val).dom().contains(k2) implies exists|q: int| 0 <= q < v@.len() && v@[q].0 == k2 by {
        if k2 != k {
            let q = choose|q: int| 0 <= q < v0.len() && v0[q].0 == k2;
            assert(v@[q].0 == k2);
        } else {
            assert(v@[v0.len() as int].0 == k2);
        }
    }
    assert forall|q: int| 0 <= q < v@.len() implies m.insert(k, val).dom().contains(#[trigger] v@[q].0) && m.insert(k, val)[v@[q].0] == v@[q].1 by {
        if q < v0.len() {
            assert(v@[q] == v0[q]);
        }
    }
}

fn label_position(cfg: &ControlFlowGraph, l: IrLabel) -> (r: usize)
    ensures
        r as int == label_pos(cfg.blocks@, l),
{
    match last_block_index(&cfg.blocks, l) {
        Some(i) => i,
        None => 0,
    }
}

fn climb_exec(
    cfg: &ControlFlowGraph,
    idom: &Vec<(IrLabel, IrLabel)>,
    b: IrLabel,
    bound: usize,
    Ghost(m): Ghost<Map<IrLabel, IrLabel>>,
) -> (r: IrLabel)
    requires
        pairs_hold(idom@, m),
        cfg.blocks@.len() + 2 <= usize::MAX,
    ensures
        r == climb(m, cfg.blocks@, b, bound as int, (cfg.blocks@.len() + 2) as nat),
{
    let mut cur = b;
    let mut fuel: usize = cfg.blocks.len() + 2;
    let ghost total = climb(m, cfg.blocks@, b, bound as int, (cfg.blocks@.len() + 2) as nat);
    loop
        invariant
            pairs_hold(idom@, m),
            total == climb(m, cfg.blocks@, b, bound as int, (cfg.blocks@.len() + 2) as nat),
            total == climb(m, cfg.blocks@, cur, bound as int, fuel as nat),
        decreases fuel,
    {
        if fuel == 0 || label_position(cfg, cur) <= bound {
            assert(climb(m, cfg.blocks@, cur, bound as int, fuel as nat) == cur);
            return cur;
        }
        match idom_get(idom, cur, Ghost(m)) {
            Some(p) => {
                if p == cur {
                    assert(climb(m, cfg.blocks@, cur, bound as int, fuel as nat) == cur);
                    return cur;
                }
                cur = p;
                fuel = fuel - 1;
            },
            None => {
                assert(climb(m, cfg.blocks@, cur, bound as int, fuel as nat) == cur);
                return cur;
            },
        }
    }
}

fn intersect(
    cfg: &ControlFlowGraph,
    b1: IrLabel,
    b2: IrLabel,
    idom: &Vec<(IrLabel, IrLabel)>,
    Ghost(m): Ghost<Map<IrLabel, IrLabel>>,
) -> (r: IrLabel)
    requires
        pairs_hold(idom@, m),
        cfg.blocks@.len() + 2 <= usize::MAX,
    ensures
        r == intersect_from(m, cfg.blocks@, b1, b2, 0),
{
    let mut x = b1;
    let mut y = b2;
    let mut steps: usize = 0;
    while x != y && steps < 1000
        invariant
            steps <= 1000,
            pairs_hold(idom@, m),
            cfg.blocks@.len() + 2 <= usize::MAX,
            intersect_from(m, cfg.blocks@, b1, b2, 0) == intersect_from(m, cfg.blocks@, x, y, steps as int),
        decreases 1000 - steps,
    {
        steps = steps + 1;
        let px = label_position(cfg, y);
        x = climb_exec(cfg, idom, x, px, Ghost(m));
        let py = label_position(cfg, x);
        y = climb_exec(cfg, idom, y, py, Ghost(m));
    }
    x
}

/// The first of `ps` that has an immediate dominator.
fn first_known_exec(ps: &Vec<IrLabel>, idom: &Vec<(IrLabel, IrLabel)>, Ghost(m): Ghost<Map<IrLabel, IrLabel>>) -> (r: Option<IrLabel>)
    requires
        pairs_hold(idom@, m),
    ensures
        r == first_known(ps@, m),
{
    let mut i: usize = 0;
    assert(ps@.skip(0) =~= ps@);
    while i < ps.len()
        invariant
            i <= ps@.len(),
            pairs_hold(idom@, m),
            first_known(ps@, m) == first_known(ps@.skip(i as int), m),
        decreases ps@.len() - i,
    {
        assert(ps@.skip(i as int).drop_first() =~= ps@.skip(i + 1));
        if idom_get(idom, ps[i], Ghost(m)).is_some() {
            return Some(ps[i]);
        }
        i = i + 1;
    }
    None
}

/// Block `j` brought up to date (see `dom_visit`).
fn dom_visit_exec(
    cfg: &ControlFlowGraph,
    idom: &mut Vec<(IrLabel, IrLabel)>,
    j: usize,
    Ghost(m): Ghost<Map<IrLabel, IrLabel>>,
) -> (changed: bool)
    requires
        pairs_hold(old(idom)@, m),
        j < cfg.blocks@.len(),
        cfg.blocks@.len() + 2 <= usize::MAX,
    ensures
        pairs_hold(final(idom)@, dom_visit(cfg.blocks@, cfg.entry_label, m, j as int).0),
        changed == dom_visit(cfg.blocks@, cfg.entry_label, m, j as int).1,
{
    let block = &cfg.blocks[j];
    let b = block.label;
    if b == cfg.entry_label {
        return false;
    }
    let ps = &block.predecessors;
    let first = match first_known_exec(ps, idom, Ghost(m)) {
        None => {
            return false;
        },
        Some(f) => f,
    };
    let mut new_idom = first;
    let mut k: usize = 0;
    while k < ps.len()
        invariant
            k <= ps@.len(),
            pairs_hold(idom@, m),
            cfg.blocks@.len() + 2 <= usize::MAX,
            new_idom == meet_upto(m, cfg.blocks@, ps@, first, k as int),
        decreases ps@.len() - k,
    {
        let p = ps[k];
        if p != new_idom && idom_get(idom, p, Ghost(m)).is_some() {
            new_idom = intersect(cfg, p, new_idom, idom, Ghost(m));
        }
        k = k + 1;
    }
    let cur = idom_get(idom, b, Ghost(m));
    let differs = match cur {
        Some(c) => c != new_idom,
        None => true,
    };
    if differs {
        idom_set(idom, b, new_idom, Ghost(m));
        true
    } else {
        false
    }
}

/// Whether the lists `v` have `k` as a key.
fn list_index(v: &Vec<(IrLabel, Vec<IrLabel>)>, k: IrLabel) -> (r: Option<usize>)
    ensures
        r matches Some(i) ==> i < v@.len() && v@[i as int].0 == k,
        r is None ==> forall|i: int| 0 <= i < v@.len() ==> v@[i].0 != k,
{
    let mut i: usize = 0;
    while i < v.len()
        invariant
            i <= v@.len(),
            forall|q: int| 0 <= q < i ==> v@[q].0 != k,
        decreases v@.len() - i,
    {
        if v[i].0 == k {
            return Some(i);
        }
        i = i + 1;
    }
    None
}

fn push_label_unique(v: &mut Vec<IrLabel>, x: IrLabel)
    requires
        old(v)@.no_duplicates(),
    ensures
        final(v)@.no_duplicates(),
        final(v)@.to_set() == old(v)@.to_set().insert(x),
{
    let mut i: usize = 0;
    while i < v.len()
        invariant
            i <= v@.len(),
            v@ == old(v)@,
            v@.no_duplicates(),
            forall|q: int| 0 <= q < i ==> v@[q] != x,
        decreases v@.len() - i,
    {
        if v[i] == x {
            assert(v@.to_set().insert(x) =~= v@.to_set());
            return;
        }
        i = i + 1;
    }
    let ghost v0 = v@;
    v.push(x);
    assert(v@.to_set() =~= v0.to_set().insert(x)) by {
        assert forall|a: IrLabel| v@.to_set().contains(a) <==> v0.to_set().insert(x).contains(a) by {
            if v@.contains(a) {
                let q = choose|q: int| 0 <= q < v@.len() && v@[q] == a;
                if q < v0.len() {
                    assert(v0[q] == a);
                }
            }
            if v0.contains(a) {
                let q = choose|q: int| 0 <= q < v0.len() && v0[q] == a;
                assert(v@[q] == a);
            }
            if a == x {
                assert(v@[v0.len() as int] == x);
            }
        }
    }
}

/// Adds `x` to the set kept under `k`, creating it when missing.
fn list_add(v: &mut Vec<(IrLabel, Vec<IrLabel>)>, k: IrLabel, x: IrLabel, Ghost(m): Ghost<Map<IrLabel, Set<IrLabel>>>)
    requires
        lists_hold(old(v)@, m),
    ensures
        lists_hold(final(v)@, add_front(m, k, x)),
{
    let ghost v0 = v@;
    let ghost m2 = add_front(m, k, x);
    match list_index(v, k) {
        Some(i) => {
            let mut entry = (k, Vec::new());
            v.set_and_swap(i, &mut entry);
            let (_, mut list) = entry;
            assert(list@.to_set() == m[k]);
            push_label_unique(&mut list, x);
            v.set(i, (k, list));
            assert forall|q: int| 0 <= q < v@.len() implies m2.dom().contains(#[trigger] v@[q].0) && v@[q].1@.no_duplicates()
                && v@[q].1@.to_set() == m2[v@[q].0] by {
                if q != i {
                    assert(v@[q] == v0[q]);
                }
            }
            assert forall|k2: IrLabel| m2.dom().contains(k2) implies exists|q: int| 0 <= q < v@.len() && v@[q].0 == k2 by {
                if k2 == k {
                    assert(v@[i as int].0 == k2);
                } else {
                    let q = choose|q: int| 0 <= q < v0.len() && v0[q].0 == k2;
                    assert(v@[q].0 == k2);
                }
            }
            assert forall|a: int, b: int| 0 <= a < b < v@.len() implies v@[a].0 != v@[b].0 by {
                assert(v@[a].0 == v0[a].0 && v@[b].0 == v0[b].0);
            }
        },
        None => {
            let mut list: Vec<IrLabel> = Vec::new();
            list.push(x);
            assert(list@.to_set() =~= Set::<IrLabel>::empty().insert(x)) by {
                assert(list@[0] == x);
            }
            assert(!m.dom().contains(k)) by {
                if m.dom().contains(k) {
                    let q = choose|q: int| 0 <= q < v0.len() && v0[q].0 == k;
                }
            }
            v.push((k, list));
            assert forall|q: int| 0 <= q < v@.len() implies m2.dom().contains(#[trigger] v@[q].0) && v@[q].1@.no_duplicates()
                && v@[q].1@.to_set() == m2[v@[q].0] by {
                if q < v0.len() {
                    assert(v@[q] == v0[q]);
                }
            }
            assert forall|k2: IrLabel| m2.dom().contains(k2) implies exists|q: int| 0 <= q < v@.len() && v@[q].0 == k2 by {
                if k2 == k {
                    assert(v@[v0.len() as int].0 == k2);
                } else {
                    let q = choose|q: int| 0 <= q < v0.len() && v0[q].0 == k2;
                    assert(v@[q].0 == k2);
                }
            }
        },
    }
}

fn front_walk_exec(
    frontiers: &mut Vec<(IrLabel, Vec<IrLabel>)>,
    idom: &Vec<(IrLabel, IrLabel)>,
    start: IrLabel,
    target: IrLabel,
    b: IrLabel,
    Ghost(m): Ghost<Map<IrLabel, IrLabel>>,
    Ghost(fr): Ghost<Map<IrLabel, Set<IrLabel>>>,
)
    requires
        pairs_hold(idom@, m),
        lists_hold(old(frontiers)@, fr),
    ensures
        lists_hold(final(frontiers)@, front_walk(m, fr, start, target, b, 0)),
{
    let ghost goal = front_walk(m, fr, start, target, b, 0);
    let mut runner = start;
    let mut steps: usize = 0;
    let ghost mut cur = fr;
    loop
        invariant
            steps <= 500,
            pairs_hold(idom@, m),
            lists_hold(frontiers@, cur),
            goal == front_walk(m, fr, start, target, b, 0),
            goal == front_walk(m, cur, runner, target, b, steps as int),
        decreases 500 - steps,
    {
        if runner == target || steps >= 500 {
            assert(front_walk(m, cur, runner, target, b, steps as int) == cur);
            return;
        }
        let ghost prev = cur;
        list_add(frontiers, runner, b, Ghost(cur));
        proof {
            cur = add_front(cur, runner, b);
        }
        match idom_get(idom, runner, Ghost(m)) {
            Some(nx) => {
                if nx == runner {
                    assert(front_walk(m, prev, runner, target, b, steps as int) == cur);
                    return;
                }
                assert(front_walk(m, prev, runner, target, b, steps as int) == front_walk(m, cur, nx, target, b, steps + 1));
                runner = nx;
            },
            None => {
                assert(front_walk(m, prev, runner, target, b, steps as int) == cur);
                return;
            },
        }
        steps = steps + 1;
    }
}

/// The sets of children recorded by the first `i` pairs (node, immediate
/// dominator) of `v`.
pub open spec fn kids_upto(v: Seq<(IrLabel, IrLabel)>, i: int) -> Map<IrLabel, Set<IrLabel>>
    decreases i,
{
    if i <= 0 {
        Map::empty()
    } else {
        let m = kids_upto(v, i - 1);
        let (n, p) = v[i - 1];
        if n != p {
            add_front(m, p, n)
        } else {
            m
        }
    }
}

proof fn lemma_kids_upto(v: Seq<(IrLabel, IrLabel)>, i: int)
    requires
        0 <= i <= v.len(),
    ensures
        forall|p: IrLabel|
            #[trigger] kids_upto(v, i).dom().contains(p) <==> exists|q: int| 0 <= q < i && v[q].1 == p && v[q].0 != p,
        forall|p: IrLabel, n: IrLabel|
            kids_upto(v, i).dom().contains(p) ==> (#[trigger] kids_upto(v, i)[p].contains(n) <==> exists|q: int|
                0 <= q < i && v[q].0 == n && v[q].1 == p && n != p),
    decreases i,
{
    if i > 0 {
        lemma_kids_upto(v, i - 1);
        let m = kids_upto(v, i - 1);
        let (n0, p0) = v[i - 1];
        assert forall|p: IrLabel| #[trigger] kids_upto(v, i).dom().contains(p) <==> exists|q: int|
            0 <= q < i && v[q].1 == p && v[q].0 != p by {
            if exists|q: int| 0 <= q < i && v[q].1 == p && v[q].0 != p {
                let q = choose|q: int| 0 <= q < i && v[q].1 == p && v[q].0 != p;
                if q < i - 1 {
                    assert(m.dom().contains(p));
                }
            }
            if m.dom().contains(p) {
                let q = choose|q: int| 0 <= q < i - 1 && v[q].1 == p && v[q].0 != p;
                assert(0 <= q < i && v[q].1 == p && v[q].0 != p);
            }
        }
        assert forall|p: IrLabel, n: IrLabel| kids_upto(v, i).dom().contains(p) implies (#[trigger] kids_upto(
            v,
            i,
        )[p].contains(n) <==> exists|q: int| 0 <= q < i && v[q].0 == n && v[q].1 == p && n != p) by {
            if exists|q: int| 0 <= q < i && v[q].0 == n && v[q].1 == p && n != p {
                let q = choose|q: int| 0 <= q < i && v[q].0 == n && v[q].1 == p && n != p;
                if q < i - 1 {
                    assert(m.dom().contains(p));
                    assert(m[p].contains(n));
                }
            }
            if m.dom().contains(p) && m[p].contains(n) {
                let q = choose|q: int| 0 <= q < i - 1 && v[q].0 == n && v[q].1 == p && n != p;
                assert(0 <= q < i && v[q].0 == n && v[q].1 == p && n != p);
            }
        }
    }
}

impl DominatorTree {
    /// The dominator tree of `cfg`: the immediate dominators of `idom_of`,
    /// the children of each node, and the frontiers of `frontiers_of`.
    pub fn build(cfg: &ControlFlowGraph) -> (r: Self)
        requires
            cfg.blocks@.len() + 2 <= usize::MAX,
        ensures
            pairs_hold(r.idom@, idom_of(*cfg)),
            lists_hold(r.children@, children_of(idom_of(*cfg))),
            lists_hold(r.frontiers@, frontiers_of(*cfg)),
    {
        let ghost bs = cfg.blocks@;
        let entry = cfg.entry_label;
        let mut idom: Vec<(IrLabel, IrLabel)> = Vec::new();
        idom.push((entry, entry));
        let ghost m0 = map![entry => entry];
        assert(pairs_hold(idom@, m0)) by {
            assert forall|k: IrLabel| m0.dom().contains(k) implies exists|i: int| 0 <= i < idom@.len() && idom@[i].0 == k by {
                assert(idom@[0].0 == k);
            }
        }
        let mut changed = true;
        let mut iterations: usize = 0;
        let ghost mut st = m0;
        while changed && iterations < 1000
            invariant
                bs == cfg.blocks@,
                entry == cfg.entry_label,
                m0 == map![entry => entry],
                bs.len() + 2 <= usize::MAX,
                iterations <= 1000,
                pairs_hold(idom@, st),
                idom_of(*cfg) == if changed {
                    dom_rounds(bs, entry, st, (1000 - iterations) as nat)
                } else {
                    st
                },
            decreases 1000 - iterations,
        {
            let ghost before = st;
            changed = false;
            iterations = iterations + 1;
            let mut j: usize = 0;
            while j < cfg.blocks.len()
                invariant
                    j <= bs.len(),
                    bs == cfg.blocks@,
                    entry == cfg.entry_label,
                    bs.len() + 2 <= usize::MAX,
                    pairs_hold(idom@, dom_round(bs, entry, before, j as int).0),
                    changed == dom_round(bs, entry, before, j as int).1,
                decreases bs.len() - j,
            {
                let c = dom_visit_exec(cfg, &mut idom, j, Ghost(dom_round(bs, entry, before, j as int).0));
                if c {
                    changed = true;
                }
                j = j + 1;
            }
            proof {
                st = dom_round(bs, entry, before, bs.len() as int).0;
            }
        }
        let ghost d = idom_of(*cfg);
        let mut children: Vec<(IrLabel, Vec<IrLabel>)> = Vec::new();
        let mut i: usize = 0;
        while i < idom.len()
            invariant
                i <= idom@.len(),
                pairs_hold(idom@, d),
                lists_hold(children@, kids_upto(idom@, i as int)),
            decreases idom@.len() - i,
        {
            let (n, p) = idom[i];
            if n != p {
                list_add(&mut children, p, n, Ghost(kids_upto(idom@, i as int)));
            }
            i = i + 1;
        }
        proof {
            lemma_kids_upto(idom@, idom@.len() as int);
            let k = kids_upto(idom@, idom@.len() as int);
            let c = children_of(d);
            assert forall|p: IrLabel| #[trigger] k.dom().contains(p) <==> c.dom().contains(p) by {
                if k.dom().contains(p) {
                    let q = choose|q: int| 0 <= q < idom@.len() && idom@[q].1 == p && idom@[q].0 != p;
                    assert(d.dom().contains(idom@[q].0));
                }
                if c.dom().contains(p) {
                    let n = choose|n: IrLabel| d.dom().contains(n) && d[n] == p && n != p;
                    let q = choose|q: int| 0 <= q < idom@.len() && idom@[q].0 == n;
                    assert(idom@[q].1 == p);
                }
            }
            assert forall|p: IrLabel| k.dom().contains(p) implies #[trigger] k[p] == c[p] by {
                assert forall|n: IrLabel| k[p].contains(n) <==> c[p].contains(n) by {
                    if k[p].contains(n) {
                        let q = choose|q: int| 0 <= q < idom@.len() && idom@[q].0 == n && idom@[q].1 == p && n != p;
                        assert(d.dom().contains(n));
                    }
                    if c[p].contains(n) {
                        let q = choose|q: int| 0 <= q < idom@.len() && idom@[q].0 == n;
                        assert(idom@[q].1 == p);
                    }
                }
                assert(k[p] =~= c[p]);
            }
            assert(k =~= c);
        }
        let mut frontiers: Vec<(IrLabel, Vec<IrLabel>)> = Vec::new();
        let mut j: usize = 0;
        while j < cfg.blocks.len()
            invariant
                j <= bs.len(),
                bs == cfg.blocks@,
                lists_hold(
                    frontiers@,
                    Map::new(
                        |l: IrLabel| exists|q: int| 0 <= q < j && bs[q].label == l,
                        |l: IrLabel| Set::<IrLabel>::empty(),
                    ),
                ),
            decreases bs.len() - j,
        {
            let l = cfg.blocks[j].label;
            let ghost f0 = frontiers@;
            let ghost mprev = Map::new(
                |l2: IrLabel| exists|q: int| 0 <= q < j && bs[q].label == l2,
                |l2: IrLabel| Set::<IrLabel>::empty(),
            );
            let ghost mnext = Map::new(
                |l2: IrLabel| exists|q: int| 0 <= q < j + 1 && bs[q].label == l2,
                |l2: IrLabel| Set::<IrLabel>::empty(),
            );
            match list_index(&frontiers, l) {
                Some(_) => {
                    assert forall|k2: IrLabel| mnext.dom().contains(k2) implies exists|q: int| 0 <= q < frontiers@.len() && frontiers@[q].0 == k2 by {
                        if k2 != l {
                            let q = choose|q: int| 0 <= q < j + 1 && bs[q].label == k2;
                            assert(mprev.dom().contains(k2));
                        }
                    }
                    assert forall|q: int| 0 <= q < frontiers@.len() implies mnext.dom().contains(#[trigger] frontiers@[q].0)
                        && frontiers@[q].1@.no_duplicates() && frontiers@[q].1@.to_set() == mnext[frontiers@[q].0] by {
                        assert(mprev.dom().contains(frontiers@[q].0));
                        let q2 = choose|q2: int| 0 <= q2 < j && bs[q2].label == frontiers@[q].0;
                    }
                },
                None => {
                    let e: Vec<IrLabel> = Vec::new();
                    assert(e@.to_set() =~= Set::<IrLabel>::empty());
                    frontiers.push((l, e));
                    assert forall|k2: IrLabel| mnext.dom().contains(k2) implies exists|q: int| 0 <= q < frontiers@.len() && frontiers@[q].0 == k2 by {
                        if k2 != l {
                            assert(mprev.dom().contains(k2));
                            let q = choose|q: int| 0 <= q < f0.len() && f0[q].0 == k2;
                            assert(frontiers@[q].0 == k2);
                        } else {
                            assert(frontiers@[f0.len() as int].0 == k2);
                        }
                    }
                    assert forall|q: int| 0 <= q < frontiers@.len() implies mnext.dom().contains(#[trigger] frontiers@[q].0)
                        && frontiers@[q].1@.no_duplicates() && frontiers@[q].1@.to_set() == mnext[frontiers@[q].0] by {
                        if q < f0.len() {
                            assert(frontiers@[q] == f0[q]);
                            assert(mprev.dom().contains(f0[q].0));
                            let q2 = choose|q2: int| 0 <= q2 < j && bs[q2].label == f0[q].0;
                        }
                    }
                },
            }
            j = j + 1;
        }
        proof {
            let a = Map::new(
                |l: IrLabel| exists|q: int| 0 <= q < bs.len() && bs[q].label == l,
                |l: IrLabel| Set::<IrLabel>::empty(),
            );
            assert(a =~= front_init(bs));
        }
        let mut j: usize = 0;
        while j < cfg.blocks.len()
            invariant
                j <= bs.len(),
                bs == cfg.blocks@,
                pairs_hold(idom@, d),
                lists_hold(frontiers@, front_blocks(d, bs, front_init(bs), j as int)),
            decreases bs.len() - j,
        {
            let block = &cfg.blocks[j];
            let ps = &block.predecessors;
            if ps.len() >= 2 {
                let b = block.label;
                let target = match idom_get(&idom, b, Ghost(d)) {
                    Some(t) => t,
                    None => b,
                };
                let ghost base = front_blocks(d, bs, front_init(bs), j as int);
                let mut k: usize = 0;
                while k < ps.len()
                    invariant
                        k <= ps@.len(),
                        pairs_hold(idom@, d),
                        lists_hold(frontiers@, front_preds(d, base, ps@, k as int, target, b)),
                    decreases ps@.len() - k,
                {
                    front_walk_exec(&mut frontiers, &idom, ps[k], target, b, Ghost(d), Ghost(front_preds(d, base, ps@, k as int, target, b)));
                    k = k + 1;
                }
            }
            j = j + 1;
        }
        DominatorTree { idom, children, frontiers }
    }
}

} // verus!
