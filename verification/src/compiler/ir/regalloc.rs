//! Register allocation: each variable of a control-flow graph gets one of
//! the machine's 255 registers by linear scan over live intervals.
use vstd::prelude::*;

use crate::compiler::ir::block::ControlFlowGraph;
use crate::compiler::ir::liveness::{
    contains_var, intervals_are, intervals_upto, inst_count, live_sets, visits_known_labels, LiveInterval, LivenessInfo,
};
use crate::compiler::ir::opt::{captured_in_blocks, captured_vars};
use crate::compiler::ir::types::IrVar;
use crate::text::{decimal, push_decimal, push_str, string_from_chars};
use std::collections::HashMap;

verus! {

/// The register of each variable (keyed by its number), and how many
/// registers the function needs.
#[derive(Debug, Clone)]
pub struct RegisterAllocation {
    pub mapping: HashMap<u32, u8>,
    pub max_registers: u8,
}

/// The register a table keyed by variable number gives `v`.
pub open spec fn reg_lookup(t: Map<u32, u8>, v: IrVar) -> Option<u8> {
    if t.contains_key(v.0) {
        Some(t[v.0])
    } else {
        None
    }
}

/// Whether a table keyed by variable number gives each variable its
/// register in `m`, and no other.
pub open spec fn regs_are(t: Map<u32, u8>, m: Map<IrVar, u8>) -> bool {
    &&& forall|v: IrVar| #[trigger] m.dom().contains(v) ==> t.contains_key(v.0) && m[v] == t[v.0]
    &&& forall|n: u32| #[trigger] t.contains_key(n) ==> m.dom().contains(IrVar(n))
}

impl RegisterAllocation {
    /// The register given to `var`, if any.
    pub fn get(&self, var: IrVar) -> (r: Option<u8>)
        ensures
            r == reg_lookup(self.mapping@, var),
    {
        broadcast use vstd::std_specs::hash::group_hash_axioms;

        match self.mapping.get(&var.0) {
            Some(r) => Some(*r),
            None => None,
        }
    }
}

/// Whether interval `a` comes before `b`: by start, then end, then variable.
pub open spec fn interval_before(a: LiveInterval, b: LiveInterval) -> bool {
    a.start < b.start || (a.start == b.start && (a.end < b.end || (a.end == b.end && a.var.0 < b.var.0)))
}

/// Whether `s` holds the intervals of `m` in increasing order.
pub open spec fn sorted_arrangement(s: Seq<LiveInterval>, m: Map<IrVar, (int, int)>) -> bool {
    &&& intervals_are(s, m)
    &&& forall|i: int, j: int| 0 <= i < j < s.len() ==> interval_before(#[trigger] s[i], #[trigger] s[j])
}

/// The intervals of `m`, with those of the variables in `captured` made to
/// reach to the end (a closure may read them at any time).
pub open spec fn extend_captured(m: Map<IrVar, (int, int)>, captured: Set<IrVar>) -> Map<IrVar, (int, int)> {
    Map::new(
        |v: IrVar| m.dom().contains(v),
        |v: IrVar|
            if captured.contains(v) {
                (m[v].0, usize::MAX as int)
            } else {
                m[v]
            },
    )
}

/// Two increasing arrangements of the same intervals are the same.
pub proof fn lemma_sorted_arrangement_unique(s1: Seq<LiveInterval>, s2: Seq<LiveInterval>, m: Map<IrVar, (int, int)>)
    requires
        sorted_arrangement(s1, m),
        sorted_arrangement(s2, m),
    ensures
        s1 == s2,
{
    assert forall|x: LiveInterval| s1.contains(x) <==> s2.contains(x) by {
        if s1.contains(x) {
            let i = choose|i: int| 0 <= i < s1.len() && s1[i] == x;
            let j = choose|j: int| 0 <= j < s2.len() && s2[j].var == x.var;
            assert(s2[j] == x);
        }
        if s2.contains(x) {
            let j = choose|j: int| 0 <= j < s2.len() && s2[j] == x;
            let i = choose|i: int| 0 <= i < s1.len() && s1[i].var == x.var;
            assert(s1[i] == x);
        }
    }
    lemma_sorted_same_elements(s1, s2);
}

proof fn lemma_sorted_same_elements(s1: Seq<LiveInterval>, s2: Seq<LiveInterval>)
    requires
        forall|i: int, j: int| 0 <= i < j < s1.len() ==> interval_before(#[trigger] s1[i], #[trigger] s1[j]),
        forall|i: int, j: int| 0 <= i < j < s2.len() ==> interval_before(#[trigger] s2[i], #[trigger] s2[j]),
        forall|x: LiveInterval| s1.contains(x) <==> s2.contains(x),
    ensures
        s1 == s2,
    decreases s1.len() + s2.len(),
{
    if s1.len() == 0 {
        if s2.len() > 0 {
            assert(s2.contains(s2[0]));
        }
        assert(s1 =~= s2);
    } else if s2.len() == 0 {
        assert(s1.contains(s1[0]));
    } else {
        assert(s1.contains(s1[0]));
        assert(s2.contains(s2[0]));
        let j = choose|j: int| 0 <= j < s2.len() && s2[j] == s1[0];
        let i = choose|i: int| 0 <= i < s1.len() && s1[i] == s2[0];
        if j > 0 {
            assert(interval_before(s2[0], s2[j]));
            if i > 0 {
                assert(interval_before(s1[0], s1[i]));
            }
        }
        assert(s1[0] == s2[0]);
        let t1 = s1.drop_first();
        let t2 = s2.drop_first();
        assert forall|x: LiveInterval| t1.contains(x) <==> t2.contains(x) by {
            if t1.contains(x) {
                let a = choose|a: int| 0 <= a < t1.len() && t1[a] == x;
                assert(s1[a + 1] == x);
                assert(interval_before(s1[0], s1[a + 1]));
                assert(s2.contains(x));
                let b = choose|b: int| 0 <= b < s2.len() && s2[b] == x;
                assert(b != 0);
                assert(t2[b - 1] == x);
            }
            if t2.contains(x) {
                let a = choose|a: int| 0 <= a < t2.len() && t2[a] == x;
                assert(s2[a + 1] == x);
                assert(interval_before(s2[0], s2[a + 1]));
                assert(s1.contains(x));
                let b = choose|b: int| 0 <= b < s1.len() && s1[b] == x;
                assert(b != 0);
                assert(t1[b - 1] == x);
            }
        }
        assert forall|i: int, j: int| 0 <= i < j < t1.len() implies interval_before(#[trigger] t1[i], #[trigger] t1[j]) by {
            assert(interval_before(s1[i + 1], s1[j + 1]));
        }
        assert forall|i: int, j: int| 0 <= i < j < t2.len() implies interval_before(#[trigger] t2[i], #[trigger] t2[j]) by {
            assert(interval_before(s2[i + 1], s2[j + 1]));
        }
        lemma_sorted_same_elements(t1, t2);
        assert(s1 =~= s2) by {
            assert forall|k: int| 0 <= k < s1.len() implies s1[k] == s2[k] by {
                if k > 0 {
                    assert(s1[k] == t1[k - 1]);
                    assert(s2[k] == t2[k - 1]);
                }
            }
        }
    }
}

/// The state of the linear scan: the register of each variable placed so
/// far, the free registers, the intervals holding a register (end,
/// register), and one more than the highest register used.
pub ghost struct ScanState {
    pub mapping: Map<IrVar, u8>,
    pub free: Set<u8>,
    pub active: Seq<(int, u8)>,
    pub max_reg: int,
}

/// The lowest register of a set.
pub open spec fn lowest(s: Set<u8>) -> u8 {
    choose|r: u8| s.contains(r) && forall|q: u8| s.contains(q) ==> r <= q
}

/// The registers of the held intervals that end before `start`.
pub open spec fn freed_regs(active: Seq<(int, u8)>, start: int) -> Set<u8> {
    Set::new(|r: u8| exists|k: int| 0 <= k < active.len() && active[k].0 < start && active[k].1 == r)
}

/// One step of the scan: a variable with a register keeps it; otherwise the
/// intervals ending before this one starts give back their registers, and
/// the lowest free register goes to the variable, or, with none free, the
/// scan fails on it.
pub open spec fn scan_step(st: ScanState, iv: LiveInterval) -> Result<ScanState, IrVar> {
    if st.mapping.dom().contains(iv.var) {
        Ok(st)
    } else {
        let kept = st.active.filter(|a: (int, u8)| a.0 >= iv.start);
        let free = st.free.union(freed_regs(st.active, iv.start as int));
        if free.is_empty() {
            Err(iv.var)
        } else {
            let r = lowest(free);
            Ok(
                ScanState {
                    mapping: st.mapping.insert(iv.var, r),
                    free: free.remove(r),
                    active: kept.push((iv.end as int, r)),
                    max_reg: if r + 1 > st.max_reg {
                        r + 1
                    } else {
                        st.max_reg
                    },
                },
            )
        }
    }
}

/// The scan over the first `k` of `s`.
pub open spec fn scan(st: ScanState, s: Seq<LiveInterval>, k: int) -> Result<ScanState, IrVar>
    decreases k,
{
    if k <= 0 {
        Ok(st)
    } else {
        match scan(st, s, k - 1) {
            Ok(prev) => scan_step(prev, s[k - 1]),
            Err(v) => Err(v),
        }
    }
}

/// Before the scan: the parameters in registers `0..num_params`, the
/// registers from `num_params` to 254 free.
pub open spec fn scan_start(num_params: u8) -> ScanState {
    ScanState {
        mapping: Map::new(|v: IrVar| v.0 < num_params, |v: IrVar| v.0 as u8),
        free: Set::new(|r: u8| num_params <= r < 255),
        active: Seq::empty(),
        max_reg: num_params as int,
    }
}

/// The intervals `allocate_registers` scans, in increasing order.
pub open spec fn scan_order(cfg: ControlFlowGraph) -> Seq<LiveInterval> {
    let bs = cfg.blocks@;
    let m = extend_captured(
        intervals_upto(live_sets(cfg), bs, bs.len() as int).0,
        captured_in_blocks(bs, bs.len() as int),
    );
    choose|s: Seq<LiveInterval>| sorted_arrangement(s, m)
}

/// The message for a variable left without a register.
pub open spec fn allocation_failure(v: IrVar) -> Seq<char> {
    "register allocation failure: register limit (255) exceeded for variable IrVar("@ + decimal(v.0 as nat) + ")"@
}


fn interval_precedes(a: &LiveInterval, b: &LiveInterval) -> (r: bool)
    ensures
        r == interval_before(*a, *b),
{
    a.start < b.start || (a.start == b.start && (a.end < b.end || (a.end == b.end && a.var.0 < b.var.0)))
}

fn copy_interval(a: &LiveInterval) -> (r: LiveInterval)
    ensures
        r == *a,
{
    LiveInterval { var: a.var, start: a.start, end: a.end }
}

proof fn lemma_insert_sorted(s0: Seq<LiveInterval>, pos: int, x: LiveInterval)
    requires
        0 <= pos <= s0.len(),
        forall|a: int| 0 <= a < pos ==> interval_before(#[trigger] s0[a], x),
        pos < s0.len() ==> interval_before(x, s0[pos]),
        forall|a: int, b: int| 0 <= a < b < s0.len() ==> interval_before(#[trigger] s0[a], #[trigger] s0[b]),
    ensures
        forall|a: int, b: int|
            0 <= a < b < s0.insert(pos, x).len() ==> interval_before(
                #[trigger] s0.insert(pos, x)[a],
                #[trigger] s0.insert(pos, x)[b],
            ),
        s0.insert(pos, x).to_set() == s0.to_set().insert(x),
{
    let s = s0.insert(pos, x);
    assert forall|a: int, b: int| 0 <= a < b < s.len() implies interval_before(#[trigger] s[a], #[trigger] s[b]) by {
        if b < pos {
            assert(s[a] == s0[a] && s[b] == s0[b]);
        } else if b == pos {
            assert(s[a] == s0[a] && s[b] == x);
        } else if a < pos {
            assert(s[a] == s0[a] && s[b] == s0[b - 1]);
            assert(interval_before(x, s0[pos]));
            if b - 1 > pos {
                assert(interval_before(s0[pos], s0[b - 1]));
            }
        } else if a == pos {
            assert(s[a] == x && s[b] == s0[b - 1]);
            if b - 1 > pos {
                assert(interval_before(s0[pos], s0[b - 1]));
            }
        } else {
            assert(s[a] == s0[a - 1] && s[b] == s0[b - 1]);
        }
    }
    assert forall|y: LiveInterval| s.to_set().contains(y) <==> s0.to_set().insert(x).contains(y) by {
        if s.contains(y) {
            let k = choose|k: int| 0 <= k < s.len() && s[k] == y;
            if k < pos {
                assert(s0[k] == y);
            } else if k > pos {
                assert(s0[k - 1] == y);
            }
        }
        if s0.contains(y) {
            let k = choose|k: int| 0 <= k < s0.len() && s0[k] == y;
            if k < pos {
                assert(s[k] == y);
            } else {
                assert(s[k + 1] == y);
            }
        }
        if y == x {
            assert(s[pos] == x);
        }
    }
    assert(s.to_set() =~= s0.to_set().insert(x));
}

proof fn lemma_sorted_intervals_are(s: Seq<LiveInterval>, ivs: Seq<LiveInterval>, m: Map<IrVar, (int, int)>)
    requires
        intervals_are(ivs, m),
        s.to_set() == ivs.to_set(),
        forall|a: int, b: int| 0 <= a < b < s.len() ==> interval_before(#[trigger] s[a], #[trigger] s[b]),
    ensures
        sorted_arrangement(s, m),
{
    assert forall|a: int| 0 <= a < s.len() implies exists|k: int| 0 <= k < ivs.len() && ivs[k] == #[trigger] s[a] by {
        assert(s.to_set().contains(s[a]));
        assert(ivs.to_set().contains(s[a]));
    }
    assert forall|a: int, b: int| 0 <= a < b < s.len() implies s[a].var != s[b].var by {
        let ka = choose|k: int| 0 <= k < ivs.len() && ivs[k] == s[a];
        let kb = choose|k: int| 0 <= k < ivs.len() && ivs[k] == s[b];
        assert(interval_before(s[a], s[b]));
        if ka != kb {
            assert(ivs[ka].var != ivs[kb].var);
        }
    }
    assert forall|a: int| 0 <= a < s.len() implies m.dom().contains(#[trigger] s[a].var) && m[s[a].var] == (
    s[a].start as int, s[a].end as int) by {
        let k = choose|k: int| 0 <= k < ivs.len() && ivs[k] == s[a];
        assert(m.dom().contains(ivs[k].var));
    }
    assert forall|v: IrVar| m.dom().contains(v) implies exists|a: int| 0 <= a < s.len() && s[a].var == v by {
        let k = choose|k: int| 0 <= k < ivs.len() && ivs[k].var == v;
        assert(ivs.to_set().contains(ivs[k]));
        assert(s.to_set().contains(ivs[k]));
        let a = choose|a: int| 0 <= a < s.len() && s[a] == ivs[k];
        assert(s[a].var == v);
    }
}

/// The intervals `ivs` in increasing order.
fn sort_intervals(ivs: &Vec<LiveInterval>, Ghost(m): Ghost<Map<IrVar, (int, int)>>) -> (r: Vec<LiveInterval>)
    requires
        intervals_are(ivs@, m),
    ensures
        sorted_arrangement(r@, m),
{
    let mut sorted: Vec<LiveInterval> = Vec::new();
    let mut i: usize = 0;
    assert(sorted@.to_set() =~= ivs@.take(0).to_set());
    while i < ivs.len()
        invariant
            i <= ivs@.len(),
            intervals_are(ivs@, m),
            forall|a: int, b: int| 0 <= a < b < sorted@.len() ==> interval_before(#[trigger] sorted@[a], #[trigger] sorted@[b]),
            sorted@.to_set() == ivs@.take(i as int).to_set(),
        decreases ivs@.len() - i,
    {
        let x = copy_interval(&ivs[i]);
        let mut pos: usize = 0;
        while pos < sorted.len() && !interval_precedes(&x, &sorted[pos])
            invariant
                pos <= sorted@.len(),
                forall|a: int| 0 <= a < pos ==> !interval_before(x, #[trigger] sorted@[a]),
            decreases sorted@.len() - pos,
        {
            pos = pos + 1;
        }
        let ghost s0 = sorted@;
        proof {
            assert forall|a: int| 0 <= a < pos implies interval_before(#[trigger] s0[a], x) by {
                assert(s0.to_set().contains(s0[a]));
                assert(ivs@.take(i as int).contains(s0[a]));
                let k = choose|k: int| 0 <= k < i && ivs@.take(i as int)[k] == s0[a];
                assert(ivs@[k].var != ivs@[i as int].var);
            }
            lemma_insert_sorted(s0, pos as int, x);
            assert(ivs@.take(i + 1) =~= ivs@.take(i as int).push(x));
            lemma_push_to_set_interval(ivs@.take(i as int), x);
        }
        sorted.insert(pos, x);
        i = i + 1;
    }
    proof {
        assert(ivs@.take(ivs@.len() as int) =~= ivs@);
        lemma_sorted_intervals_are(sorted@, ivs@, m);
    }
    sorted
}

proof fn lemma_push_to_set_interval(s: Seq<LiveInterval>, x: LiveInterval)
    ensures
        s.push(x).to_set() == s.to_set().insert(x),
{
    assert forall|a: LiveInterval| s.push(x).to_set().contains(a) <==> s.to_set().insert(x).contains(a) by {
        if s.push(x).contains(a) {
            let k = choose|k: int| 0 <= k < s.push(x).len() && s.push(x)[k] == a;
            if k < s.len() {
                assert(s[k] == a);
            }
        }
        if s.contains(a) {
            let k = choose|k: int| 0 <= k < s.len() && s[k] == a;
            assert(s.push(x)[k] == a);
        }
        if a == x {
            assert(s.push(x)[s.len() as int] == x);
        }
    }
    assert(s.push(x).to_set() =~= s.to_set().insert(x));
}

/// The held intervals as (end, register) pairs.
pub open spec fn active_view(s: Seq<(usize, u8)>) -> Seq<(int, u8)> {
    Seq::new(s.len(), |k: int| (s[k].0 as int, s[k].1))
}

/// The registers flagged free.
pub open spec fn flagged(flags: Seq<bool>) -> Set<u8> {
    Set::new(|r: u8| r < 255 && r < flags.len() && flags[r as int])
}

/// Whether the scan's working values stand for `st`.
pub open spec fn scan_holds(
    mapping: Map<u32, u8>,
    flags: Seq<bool>,
    active: Seq<(usize, u8)>,
    max_reg: u8,
    st: ScanState,
) -> bool {
    &&& regs_are(mapping, st.mapping)
    &&& flags.len() == 255
    &&& flagged(flags) == st.free
    &&& active_view(active) == st.active
    &&& forall|k: int| 0 <= k < active.len() ==> (#[trigger] active[k]).1 < 255
    &&& max_reg as int == st.max_reg
}

/// The pass of the scan over one interval (see `scan_step`).
fn scan_one(
    mapping: &mut HashMap<u32, u8>,
    flags: &mut Vec<bool>,
    active: &mut Vec<(usize, u8)>,
    max_reg: &mut u8,
    iv: &LiveInterval,
    Ghost(st): Ghost<ScanState>,
) -> (ok: bool)
    requires
        scan_holds(old(mapping)@, old(flags)@, old(active)@, *old(max_reg), st),
    ensures
        ok == (scan_step(st, *iv) is Ok),
        ok ==> scan_holds(final(mapping)@, final(flags)@, final(active)@, *final(max_reg), scan_step(st, *iv)->Ok_0),
{
    broadcast use vstd::std_specs::hash::group_hash_axioms;

    match mapping.get(&iv.var.0) {
        Some(_) => {
            assert(st.mapping.dom().contains(IrVar(iv.var.0)));
            return true;
        },
        None => {},
    }
    let ghost pred = |a: (int, u8)| a.0 >= iv.start;
    let ghost av = active_view(active@);
    let mut kept: Vec<(usize, u8)> = Vec::new();
    let mut k: usize = 0;
    while k < active.len()
        invariant
            k <= active@.len(),
            av == active_view(active@),
            active@ == old(active)@,
            forall|q: int| 0 <= q < active@.len() ==> (#[trigger] active@[q]).1 < 255,
            forall|q: int| 0 <= q < kept@.len() ==> (#[trigger] kept@[q]).1 < 255,
            flags@.len() == 255,
            pred == (|a: (int, u8)| a.0 >= iv.start),
            active_view(kept@) == av.take(k as int).filter(pred),
            flagged(flags@) == st.free.union(freed_regs(av.take(k as int), iv.start as int)),
        decreases active@.len() - k,
    {
        let (end, reg) = active[k];
        let ghost t = av.take(k + 1);
        proof {
            assert(t.drop_last() =~= av.take(k as int));
            assert(t.last() == (end as int, reg));
            reveal_with_fuel(Seq::<(int, u8)>::filter, 1);
        }
        assert(t.filter(pred) == if pred(t.last()) {
            t.drop_last().filter(pred).push(t.last())
        } else {
            t.drop_last().filter(pred)
        });
        if end < iv.start {
            let ghost f0 = flags@;
            flags.set(reg as usize, true);
            assert(flagged(flags@) =~= flagged(f0).insert(reg));
            assert(freed_regs(t, iv.start as int) =~= freed_regs(av.take(k as int), iv.start as int).insert(reg)) by {
                assert(t[k as int] == (end as int, reg));
                assert forall|r: u8| freed_regs(t, iv.start as int).contains(r) implies freed_regs(av.take(k as int), iv.start as int).insert(reg).contains(r) by {
                    let q = choose|q: int| 0 <= q < t.len() && t[q].0 < iv.start && t[q].1 == r;
                    if q < k {
                        assert(av.take(k as int)[q] == t[q]);
                    }
                }
                assert forall|r: u8| freed_regs(av.take(k as int), iv.start as int).contains(r) implies freed_regs(t, iv.start as int).contains(r) by {
                    let q = choose|q: int| 0 <= q < av.take(k as int).len() && av.take(k as int)[q].0 < iv.start && av.take(k as int)[q].1 == r;
                    assert(t[q] == av.take(k as int)[q]);
                }
            }
        } else {
            kept.push((end, reg));
            assert(active_view(kept@) =~= t.filter(pred));
            assert(freed_regs(t, iv.start as int) =~= freed_regs(av.take(k as int), iv.start as int)) by {
                assert forall|r: u8| freed_regs(t, iv.start as int).contains(r) implies freed_regs(av.take(k as int), iv.start as int).contains(r) by {
                    let q = choose|q: int| 0 <= q < t.len() && t[q].0 < iv.start && t[q].1 == r;
                    assert(q != k);
                    assert(av.take(k as int)[q] == t[q]);
                }
                assert forall|r: u8| freed_regs(av.take(k as int), iv.start as int).contains(r) implies freed_regs(t, iv.start as int).contains(r) by {
                    let q = choose|q: int| 0 <= q < av.take(k as int).len() && av.take(k as int)[q].0 < iv.start && av.take(k as int)[q].1 == r;
                    assert(t[q] == av.take(k as int)[q]);
                }
            }
        }
        k = k + 1;
    }
    assert(av.take(av.len() as int) =~= av);
    let ghost free = st.free.union(freed_regs(st.active, iv.start as int));
    assert(flagged(flags@) == free);
    let mut r: usize = 0;
    while r < 255 && !flags[r]
        invariant
            r <= 255,
            flags@.len() == 255,
            forall|q: int| 0 <= q < r ==> !flags@[q],
        decreases 255 - r,
    {
        r = r + 1;
    }
    if r == 255 {
        assert(free =~= Set::<u8>::empty()) by {
            assert forall|q: u8| !free.contains(q) by {
                if free.contains(q) {
                    assert(!flags@[q as int]);
                }
            }
        }
        return false;
    }
    let reg = r as u8;
    assert(free.contains(reg));
    assert(!free.is_empty()) by {
        if free.is_empty() {
            assert(free.contains(reg));
        }
    }
    proof {
        let c = lowest(free);
        assert(free.contains(reg) && forall|q: u8| free.contains(q) ==> reg <= q) by {
            assert forall|q: u8| free.contains(q) implies reg <= q by {
                if q < reg {
                    assert(!flags@[q as int]);
                }
            }
        }
        assert(c <= reg && reg <= c);
    }
    let ghost f0 = flags@;
    flags.set(r, false);
    assert(flagged(flags@) =~= free.remove(reg));
    let ghost m0 = mapping@;
    mapping.insert(iv.var.0, reg);
    let ghost k0 = kept@;
    kept.push((iv.end, reg));
    assert(active_view(kept@) =~= active_view(k0).push((iv.end as int, reg)));
    *active = kept;
    if reg + 1 > *max_reg {
        *max_reg = reg + 1;
    }
    let ghost nst = scan_step(st, *iv)->Ok_0;
    assert forall|v: IrVar| #[trigger] nst.mapping.dom().contains(v) implies mapping@.contains_key(v.0)
        && nst.mapping[v] == mapping@[v.0] by {
        if v != iv.var {
            assert(v.0 != iv.var.0);
        }
    }
    assert forall|n: u32| #[trigger] mapping@.contains_key(n) implies nst.mapping.dom().contains(IrVar(n)) by {
        if n != iv.var.0 {
            assert(m0.contains_key(n));
        }
    }
    true
}

/// The intervals `ivs` with those of the variables in `captured` made to
/// reach to the end.
fn extend_intervals(
    ivs: &Vec<LiveInterval>,
    captured: &Vec<IrVar>,
    Ghost(m): Ghost<Map<IrVar, (int, int)>>,
) -> (r: Vec<LiveInterval>)
    requires
        intervals_are(ivs@, m),
    ensures
        intervals_are(r@, extend_captured(m, captured@.to_set())),
{
    let ghost cset = captured@.to_set();
    let ghost m2 = extend_captured(m, cset);
    let mut ext: Vec<LiveInterval> = Vec::new();
    let mut i: usize = 0;
    while i < ivs.len()
        invariant
            i <= ivs@.len(),
            intervals_are(ivs@, m),
            cset == captured@.to_set(),
            ext@.len() == i,
            forall|k: int| 0 <= k < i ==> (#[trigger] ext@[k]).var == ivs@[k].var && ext@[k].start == ivs@[k].start
                && ext@[k].end == if cset.contains(ivs@[k].var) {
                usize::MAX
            } else {
                ivs@[k].end
            },
        decreases ivs@.len() - i,
    {
        let iv = &ivs[i];
        if contains_var(captured, iv.var) {
            ext.push(LiveInterval { var: iv.var, start: iv.start, end: usize::MAX });
        } else {
            ext.push(copy_interval(iv));
        }
        i = i + 1;
    }
    assert forall|v: IrVar| m2.dom().contains(v) implies exists|k: int| 0 <= k < ext@.len() && ext@[k].var == v by {
        let k = choose|k: int| 0 <= k < ivs@.len() && ivs@[k].var == v;
        assert(ext@[k].var == v);
    }
    assert forall|k: int| 0 <= k < ext@.len() implies m2.dom().contains(#[trigger] ext@[k].var) && m2[ext@[k].var] == (
    ext@[k].start as int, ext@[k].end as int) by {
        assert(m.dom().contains(ivs@[k].var));
    }
    ext
}

/// The message for a variable left without a register.
fn allocation_error(var: IrVar) -> (r: String)
    ensures
        r@ == allocation_failure(var),
{
    let mut msg: Vec<char> = Vec::new();
    push_str(&mut msg, "register allocation failure: register limit (255) exceeded for variable IrVar(");
    push_decimal(&mut msg, var.0 as u64);
    push_str(&mut msg, ")");
    string_from_chars(msg.as_slice())
}

/// The linear scan over `sorted` from `scan_start(num_params)`.
#[verifier::spinoff_prover]
#[verifier::rlimit(40)]
fn run_scan(sorted: &Vec<LiveInterval>, num_params: u8) -> (r: Result<RegisterAllocation, String>)
    ensures
        match scan(scan_start(num_params), sorted@, sorted@.len() as int) {
            Ok(st) => r matches Ok(a) && regs_are(a.mapping@, st.mapping) && a.max_registers as int == st.max_reg,
            Err(v) => r matches Err(msg) && msg@ == allocation_failure(v),
        },
{
    let ghost order = sorted@;
    broadcast use vstd::std_specs::hash::group_hash_axioms;

    let mut mapping: HashMap<u32, u8> = HashMap::new();
    let mut p: u8 = 0;
    while p < num_params
        invariant
            p <= num_params,
            forall|n: u32| #[trigger] mapping@.contains_key(n) <==> n < p,
            forall|n: u32| #[trigger] mapping@.contains_key(n) ==> mapping@[n] == n as u8,
        decreases num_params - p,
    {
        mapping.insert(p as u32, p);
        p = p + 1;
    }
    let mut flags: Vec<bool> = Vec::new();
    let mut q: usize = 0;
    while q < 255
        invariant
            q <= 255,
            flags@.len() == q,
            forall|k: int| 0 <= k < q ==> #[trigger] flags@[k] == (k >= num_params),
        decreases 255 - q,
    {
        flags.push(q >= num_params as usize);
        q = q + 1;
    }
    let mut active: Vec<(usize, u8)> = Vec::new();
    let mut max_reg: u8 = num_params;
    let ghost st0 = scan_start(num_params);
    proof {
        assert(flagged(flags@) =~= st0.free);
        assert(active_view(active@) =~= st0.active);
        assert(regs_are(mapping@, st0.mapping));
    }
    let mut n: usize = 0;
    while n < sorted.len()
        invariant
            n <= sorted@.len(),
            order == sorted@,
            st0 == scan_start(num_params),
            scan(st0, order, n as int) is Ok,
            scan_holds(mapping@, flags@, active@, max_reg, scan(st0, order, n as int)->Ok_0),
        decreases sorted@.len() - n,
    {
        let ghost st = scan(st0, order, n as int)->Ok_0;
        proof {
            lemma_scan_next(st0, order, n as int);
        }
        let ok = scan_one(&mut mapping, &mut flags, &mut active, &mut max_reg, &sorted[n], Ghost(st));
        if !ok {
            proof {
                lemma_scan_stays_failed(st0, order, n as int + 1, order.len() as int);
            }
            return Err(allocation_error(sorted[n].var));
        }
        n = n + 1;
    }
    Ok(RegisterAllocation { mapping, max_registers: max_reg })
}

/// Assigns a register to every variable by linear scan over the live
/// intervals (see `scan`, `scan_start` and `scan_order`): parameters keep
/// registers `0..num_params`, each other variable takes the lowest register
/// freed by an interval that ends before it starts, and the allocation fails
/// on the first variable for which none of the 255 registers is free.
pub fn allocate_registers(cfg: &ControlFlowGraph, num_params: u8) -> (r: Result<RegisterAllocation, String>)
    requires
        cfg.blocks@.len() < usize::MAX,
        visits_known_labels(*cfg),
        inst_count(cfg.blocks@, cfg.blocks@.len() as int) < usize::MAX,
    ensures
        match scan(scan_start(num_params), scan_order(*cfg), scan_order(*cfg).len() as int) {
            Ok(st) => r matches Ok(a) && regs_are(a.mapping@, st.mapping) && a.max_registers as int == st.max_reg,
            Err(v) => r matches Err(msg) && msg@ == allocation_failure(v),
        },
{
    let ghost bs = cfg.blocks@;
    let liveness = LivenessInfo::compute(cfg);
    let ivs = liveness.compute_live_intervals(cfg);
    let ghost m = intervals_upto(live_sets(*cfg), bs, bs.len() as int).0;
    proof {
        liveness.lemma_describes_records(*cfg);
    }
    let captured = captured_vars(cfg);
    let ext = extend_intervals(&ivs, &captured, Ghost(m));
    let ghost m2 = extend_captured(m, captured_in_blocks(bs, bs.len() as int));
    let sorted = sort_intervals(&ext, Ghost(m2));
    proof {
        let c = scan_order(*cfg);
        assert(sorted_arrangement(c, m2));
        lemma_sorted_arrangement_unique(sorted@, c, m2);
    }
    run_scan(&sorted, num_params)
}

proof fn lemma_scan_next(st: ScanState, s: Seq<LiveInterval>, n: int)
    requires
        0 <= n,
        scan(st, s, n) is Ok,
    ensures
        scan(st, s, n + 1) == scan_step(scan(st, s, n)->Ok_0, s[n]),
{
}

proof fn lemma_scan_stays_failed(st: ScanState, s: Seq<LiveInterval>, a: int, b: int)
    requires
        1 <= a <= b,
        scan(st, s, a) is Err,
    ensures
        scan(st, s, b) == scan(st, s, a),
    decreases b - a,
{
    if a < b {
        lemma_scan_stays_failed(st, s, a, b - 1);
    }
}

} // verus!
