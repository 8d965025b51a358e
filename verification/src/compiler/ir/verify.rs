//! Integrity checks of the control-flow graph: the entry block exists,
//! labels are unique, jump targets and edges name existing blocks, edges are
//! recorded at both ends, terminators agree with the edges, and phis come
//! first in their blocks.
use vstd::prelude::*;

use crate::compiler::ir::block::{last_terminator, lemma_last_terminator, BasicBlock, ControlFlowGraph, IrFunction, IrModule};
use crate::compiler::ir::inst::{inst_is_terminator, inst_jump_targets, IrInst};
use crate::compiler::ir::types::IrLabel;
use crate::text::{decimal, push_decimal, push_str, string_from_chars};

verus! {

/// An integrity error.
#[derive(Clone, Debug)]
pub struct VerifyError {
    pub message: String,
}

/// The position of the first block labelled `l`, or -1.
pub open spec fn first_index(bs: Seq<BasicBlock>, l: IrLabel) -> int
    decreases bs.len(),
{
    if bs.len() == 0 {
        -1
    } else if bs[0].label == l {
        0
    } else {
        let r = first_index(bs.drop_first(), l);
        if r < 0 {
            -1
        } else {
            r + 1
        }
    }
}

pub proof fn lemma_first_index(bs: Seq<BasicBlock>, l: IrLabel)
    ensures
        -1 <= first_index(bs, l) < bs.len(),
        first_index(bs, l) >= 0 ==> bs[first_index(bs, l)].label == l,
        forall|j: int| 0 <= j < bs.len() && (j < first_index(bs, l) || first_index(bs, l) < 0) ==> (#[trigger] bs[j]).label
            != l,
    decreases bs.len(),
{
    if bs.len() > 0 && bs[0].label != l {
        lemma_first_index(bs.drop_first(), l);
        assert forall|j: int|
            0 <= j < bs.len() && (j < first_index(bs, l) || first_index(bs, l) < 0) implies (#[trigger] bs[j]).label
            != l by {
            if j > 0 {
                assert(bs[j] == bs.drop_first()[j - 1]);
            }
        }
    }
}

/// Whether some block is labelled `l`.
pub open spec fn has_block(bs: Seq<BasicBlock>, l: IrLabel) -> bool {
    exists|j: int| 0 <= j < bs.len() && (#[trigger] bs[j]).label == l
}

/// Whether every jump target of `b` names a block.
pub open spec fn jumps_ok(bs: Seq<BasicBlock>, b: BasicBlock) -> bool {
    forall|i: int, k: int|
        0 <= i < b.instructions@.len() && 0 <= k < inst_jump_targets(b.instructions@[i]).len() ==> has_block(
            bs,
            #[trigger] inst_jump_targets(#[trigger] b.instructions@[i])[k],
        )
}

/// Whether every successor of `b` names a block that lists `b` among its
/// predecessors.
pub open spec fn successors_ok(bs: Seq<BasicBlock>, b: BasicBlock) -> bool {
    forall|k: int|
        0 <= k < b.successors@.len() ==> has_block(bs, #[trigger] b.successors@[k]) && bs[first_index(
            bs,
            b.successors@[k],
        )].predecessors@.contains(b.label)
}

/// Whether every predecessor of `b` names a block that lists `b` among its
/// successors.
pub open spec fn predecessors_ok(bs: Seq<BasicBlock>, b: BasicBlock) -> bool {
    forall|k: int|
        0 <= k < b.predecessors@.len() ==> has_block(bs, #[trigger] b.predecessors@[k]) && bs[first_index(
            bs,
            b.predecessors@[k],
        )].successors@.contains(b.label)
}

/// Whether the last terminator agrees with the edges: a `Return` leaves no
/// successors, and a `Jump` target is a successor.
pub open spec fn terminator_ok(b: BasicBlock) -> bool {
    let t = last_terminator(b.instructions@);
    t >= 0 ==> match b.instructions@[t] {
        IrInst::Return(_) => b.successors@.len() == 0,
        IrInst::Jump(l) => b.successors@.contains(l),
        _ => true,
    }
}

/// Whether no phi comes after an instruction that is not one.
pub open spec fn phis_first(s: Seq<IrInst>) -> bool {
    forall|i: int, j: int| 0 <= i < j < s.len() && !(#[trigger] s[i] is Phi) ==> !(#[trigger] s[j] is Phi)
}

/// Whether one block passes every check.
pub open spec fn block_ok(bs: Seq<BasicBlock>, b: BasicBlock) -> bool {
    &&& jumps_ok(bs, b)
    &&& successors_ok(bs, b)
    &&& predecessors_ok(bs, b)
    &&& terminator_ok(b)
    &&& phis_first(b.instructions@)
}

/// Whether no two blocks share a label.
pub open spec fn labels_unique(bs: Seq<BasicBlock>) -> bool {
    forall|i: int, j: int| 0 <= i < j < bs.len() ==> #[trigger] bs[i].label != #[trigger] bs[j].label
}

/// Whether a control-flow graph passes every check.
pub open spec fn cfg_ok(cfg: ControlFlowGraph) -> bool {
    &&& has_block(cfg.blocks@, cfg.entry_label)
    &&& labels_unique(cfg.blocks@)
    &&& forall|i: int| 0 <= i < cfg.blocks@.len() ==> block_ok(cfg.blocks@, #[trigger] cfg.blocks@[i])
}

/// A label as the messages write it (its `Debug` form).
pub open spec fn label_text(l: IrLabel) -> Seq<char> {
    "IrLabel("@ + decimal(l.0 as nat) + ")"@
}

/// The texts of a list of messages.
pub open spec fn texts(v: Seq<String>) -> Seq<Seq<char>> {
    v.map_values(|s: String| s@)
}

/// The message for a missing entry block.
pub open spec fn entry_error(cfg: ControlFlowGraph) -> Seq<Seq<char>> {
    if has_block(cfg.blocks@, cfg.entry_label) {
        Seq::empty()
    } else {
        seq!["entry block "@ + label_text(cfg.entry_label) + " not found in CFG"@]
    }
}

/// The messages for the first `n` blocks whose label an earlier block has.
pub open spec fn duplicate_errors(bs: Seq<BasicBlock>, n: int) -> Seq<Seq<char>>
    decreases n,
{
    if n <= 0 {
        Seq::empty()
    } else {
        duplicate_errors(bs, n - 1) + if exists|j: int| 0 <= j < n - 1 && (#[trigger] bs[j]).label == bs[n - 1].label {
            seq!["duplicate block label "@ + label_text(bs[n - 1].label)]
        } else {
            Seq::empty()
        }
    }
}

/// The messages for the first `k` of the jump targets `ts` of block `from`
/// that name no block.
pub open spec fn target_errors(bs: Seq<BasicBlock>, from: IrLabel, ts: Seq<IrLabel>, k: int) -> Seq<Seq<char>>
    decreases k,
{
    if k <= 0 {
        Seq::empty()
    } else {
        target_errors(bs, from, ts, k - 1) + if has_block(bs, ts[k - 1]) {
            Seq::empty()
        } else {
            seq!["block "@ + label_text(from) + " references unknown jump target "@ + label_text(ts[k - 1])]
        }
    }
}

/// The messages for the jump targets of the first `i` instructions of `b`.
pub open spec fn jump_errors(bs: Seq<BasicBlock>, b: BasicBlock, i: int) -> Seq<Seq<char>>
    decreases i,
{
    if i <= 0 {
        Seq::empty()
    } else {
        let ts = inst_jump_targets(b.instructions@[i - 1]);
        jump_errors(bs, b, i - 1) + target_errors(bs, b.label, ts, ts.len() as int)
    }
}

/// The messages for the first `k` successors of `b`.
pub open spec fn successor_errors(bs: Seq<BasicBlock>, b: BasicBlock, k: int) -> Seq<Seq<char>>
    decreases k,
{
    if k <= 0 {
        Seq::empty()
    } else {
        let s = b.successors@[k - 1];
        successor_errors(bs, b, k - 1) + if !has_block(bs, s) {
            seq!["block "@ + label_text(b.label) + " has unknown successor "@ + label_text(s)]
        } else if !bs[first_index(bs, s)].predecessors@.contains(b.label) {
            seq![
                "broken edge reciprocity: "@ + label_text(b.label) + " -> "@ + label_text(s) + ", but "@ + label_text(
                    b.label,
                ) + " not in "@ + label_text(s) + "'s predecessors"@,
            ]
        } else {
            Seq::empty()
        }
    }
}

/// The messages for the first `k` predecessors of `b`.
pub open spec fn predecessor_errors(bs: Seq<BasicBlock>, b: BasicBlock, k: int) -> Seq<Seq<char>>
    decreases k,
{
    if k <= 0 {
        Seq::empty()
    } else {
        let p = b.predecessors@[k - 1];
        predecessor_errors(bs, b, k - 1) + if !has_block(bs, p) {
            seq!["block "@ + label_text(b.label) + " has unknown predecessor "@ + label_text(p)]
        } else if !bs[first_index(bs, p)].successors@.contains(b.label) {
            seq![
                "broken edge reciprocity: "@ + label_text(p) + " in "@ + label_text(b.label)
                    + "'s predecessors, but "@ + label_text(b.label) + " not in "@ + label_text(p)
                    + "'s successors"@,
            ]
        } else {
            Seq::empty()
        }
    }
}

/// The message for a last terminator that disagrees with the edges.
pub open spec fn terminator_errors(b: BasicBlock) -> Seq<Seq<char>> {
    let t = last_terminator(b.instructions@);
    if t < 0 {
        Seq::empty()
    } else {
        match b.instructions@[t] {
            IrInst::Return(_) => if b.successors@.len() > 0 {
                seq!["block "@ + label_text(b.label) + " terminates with Return but has successors"@]
            } else {
                Seq::empty()
            },
            IrInst::Jump(l) => if !b.successors@.contains(l) {
                seq![
                    "block "@ + label_text(b.label) + " terminates with Jump("@ + label_text(l)
                        + ") but target is not in successors"@,
                ]
            } else {
                Seq::empty()
            },
            _ => Seq::empty(),
        }
    }
}

/// The messages for the phis among the first `i` instructions of `b` that
/// come after an instruction that is not one.
pub open spec fn phi_errors(b: BasicBlock, i: int) -> Seq<Seq<char>>
    decreases i,
{
    if i <= 0 {
        Seq::empty()
    } else {
        let s = b.instructions@;
        phi_errors(b, i - 1) + if s[i - 1] is Phi && exists|j: int| 0 <= j < i - 1 && !(#[trigger] s[j] is Phi) {
            seq!["Phi instruction found after non-Phi instruction in block "@ + label_text(b.label)]
        } else {
            Seq::empty()
        }
    }
}

/// Every message for block `b`, in the order of the checks.
pub open spec fn block_errors(bs: Seq<BasicBlock>, b: BasicBlock) -> Seq<Seq<char>> {
    jump_errors(bs, b, b.instructions@.len() as int) + successor_errors(bs, b, b.successors@.len() as int)
        + predecessor_errors(bs, b, b.predecessors@.len() as int) + terminator_errors(b) + phi_errors(
        b,
        b.instructions@.len() as int,
    )
}

/// The messages for the first `n` blocks, block by block.
pub open spec fn blocks_errors(bs: Seq<BasicBlock>, n: int) -> Seq<Seq<char>>
    decreases n,
{
    if n <= 0 {
        Seq::empty()
    } else {
        blocks_errors(bs, n - 1) + block_errors(bs, bs[n - 1])
    }
}

/// Every message the checks of a graph give, in order: the entry block,
/// duplicate labels, then each block's jump targets, successors,
/// predecessors, terminator and phi placement.
pub open spec fn cfg_errors(cfg: ControlFlowGraph) -> Seq<Seq<char>> {
    entry_error(cfg) + duplicate_errors(cfg.blocks@, cfg.blocks@.len() as int) + blocks_errors(
        cfg.blocks@,
        cfg.blocks@.len() as int,
    )
}

/// Appends the `Debug` form of a label, `IrLabel(n)`.
fn push_label(out: &mut Vec<char>, l: IrLabel)
    ensures
        final(out)@ == old(out)@ + label_text(l),
{
    push_str(out, "IrLabel(");
    push_decimal(out, l.0 as u64);
    push_str(out, ")");
}

/// Appends a message to the error list.
fn report(errors: &mut Vec<String>, msg: &Vec<char>)
    ensures
        final(errors)@.len() == old(errors)@.len() + 1,
        texts(final(errors)@) == texts(old(errors)@).push(msg@),
{
    errors.push(string_from_chars(msg.as_slice()));
    assert(texts(errors@) =~= texts(old(errors)@).push(msg@));
}

/// Whether some block is labelled `l`.
fn block_exists(cfg: &ControlFlowGraph, l: IrLabel) -> (r: bool)
    ensures
        r == has_block(cfg.blocks@, l),
        r ==> first_index(cfg.blocks@, l) >= 0,
{
    proof {
        lemma_first_index(cfg.blocks@, l);
    }
    match cfg.block_index(l) {
        Some(i) => {
            proof {
                lemma_first_index(cfg.blocks@, l);
                if first_index(cfg.blocks@, l) < 0 || first_index(cfg.blocks@, l) > i {
                    assert(cfg.blocks@[i as int].label != l);
                }
            }
            true
        },
        None => false,
    }
}

/// The first block labelled `l`, which exists.
fn first_block(cfg: &ControlFlowGraph, l: IrLabel) -> (r: &BasicBlock)
    requires
        has_block(cfg.blocks@, l),
    ensures
        first_index(cfg.blocks@, l) >= 0,
        *r == cfg.blocks@[first_index(cfg.blocks@, l)],
{
    proof {
        lemma_first_index(cfg.blocks@, l);
    }
    match cfg.block_index(l) {
        Some(i) => {
            proof {
                if first_index(cfg.blocks@, l) != i {
                    if first_index(cfg.blocks@, l) < i {
                        assert(cfg.blocks@[first_index(cfg.blocks@, l)].label != l);
                    } else {
                        assert(cfg.blocks@[i as int].label != l);
                    }
                }
            }
            &cfg.blocks[i]
        },
        None => {
            proof {
                let j = choose|j: int| 0 <= j < cfg.blocks@.len() && (#[trigger] cfg.blocks@[j]).label == l;
                assert(cfg.blocks@[j].label != l);
            }
            &cfg.blocks[0]
        },
    }
}

/// Whether `v` holds `l`.
fn labels_contain(v: &Vec<IrLabel>, l: IrLabel) -> (r: bool)
    ensures
        r == v@.contains(l),
{
    let mut i: usize = 0;
    while i < v.len()
        invariant
            i <= v@.len(),
            forall|k: int| 0 <= k < i ==> v@[k] != l,
        decreases v@.len() - i,
    {
        if v[i] == l {
            assert(v@[i as int] == l);
            return true;
        }
        i = i + 1;
    }
    false
}

/// Reports the jump targets of `b` that name no block.
fn check_jumps(cfg: &ControlFlowGraph, b: &BasicBlock, errors: &mut Vec<String>)
    ensures
        final(errors)@.len() >= old(errors)@.len(),
        final(errors)@.len() == old(errors)@.len() <==> jumps_ok(cfg.blocks@, *b),
        texts(final(errors)@) == texts(old(errors)@) + jump_errors(cfg.blocks@, *b, b.instructions@.len() as int),
{
    let ghost start = errors@.len();
    let ghost t0 = texts(errors@);
    let mut i: usize = 0;
    while i < b.instructions.len()
        invariant
            i <= b.instructions@.len(),
            errors@.len() >= start,
            texts(errors@) == t0 + jump_errors(cfg.blocks@, *b, i as int),
            errors@.len() == start <==> forall|i2: int, k: int|
                0 <= i2 < i && 0 <= k < inst_jump_targets(b.instructions@[i2]).len() ==> has_block(
                    cfg.blocks@,
                    #[trigger] inst_jump_targets(#[trigger] b.instructions@[i2])[k],
                ),
        decreases b.instructions@.len() - i,
    {
        let targets = b.instructions[i].jump_targets();
        let mut k: usize = 0;
        let ghost before = errors@.len();
        let ghost t1 = texts(errors@);
        while k < targets.len()
            invariant
                t1 == t0 + jump_errors(cfg.blocks@, *b, i as int),
                texts(errors@) == t1 + target_errors(cfg.blocks@, b.label, targets@, k as int),
                targets@ == inst_jump_targets(b.instructions@[i as int]),
                k <= targets@.len(),
                errors@.len() >= before,
                errors@.len() == before <==> forall|k2: int|
                    0 <= k2 < k ==> has_block(cfg.blocks@, #[trigger] targets@[k2]),
            decreases targets@.len() - k,
        {
            if !block_exists(cfg, targets[k]) {
                let mut msg: Vec<char> = Vec::new();
                push_str(&mut msg, "block ");
                push_label(&mut msg, b.label);
                push_str(&mut msg, " references unknown jump target ");
                push_label(&mut msg, targets[k]);
                report(errors, &msg);
            }
            k = k + 1;
        }
        proof {
            assert(texts(errors@) =~= t0 + jump_errors(cfg.blocks@, *b, i + 1));
            if errors@.len() == start {
                assert forall|i2: int, k2: int|
                    0 <= i2 < i + 1 && 0 <= k2 < inst_jump_targets(b.instructions@[i2]).len() implies has_block(
                    cfg.blocks@,
                    #[trigger] inst_jump_targets(#[trigger] b.instructions@[i2])[k2],
                ) by {
                    if i2 == i {
                        assert(targets@[k2] == inst_jump_targets(b.instructions@[i2])[k2]);
                    }
                }
            } else if before == start {
                let k2 = choose|k2: int| 0 <= k2 < targets@.len() && !has_block(cfg.blocks@, #[trigger] targets@[k2]);
                assert(inst_jump_targets(b.instructions@[i as int])[k2] == targets@[k2]);
            }
        }
        i = i + 1;
    }
}

/// Reports the successors of `b` that name no block, or whose block does not
/// list `b` as a predecessor.
fn check_successors(cfg: &ControlFlowGraph, b: &BasicBlock, errors: &mut Vec<String>)
    ensures
        final(errors)@.len() >= old(errors)@.len(),
        final(errors)@.len() == old(errors)@.len() <==> successors_ok(cfg.blocks@, *b),
        texts(final(errors)@) == texts(old(errors)@) + successor_errors(cfg.blocks@, *b, b.successors@.len() as int),
{
    let ghost start = errors@.len();
    let ghost t0 = texts(errors@);
    let mut k: usize = 0;
    while k < b.successors.len()
        invariant
            k <= b.successors@.len(),
            errors@.len() >= start,
            texts(errors@) == t0 + successor_errors(cfg.blocks@, *b, k as int),
            errors@.len() == start <==> forall|k2: int|
                0 <= k2 < k ==> has_block(cfg.blocks@, #[trigger] b.successors@[k2]) && cfg.blocks@[first_index(
                    cfg.blocks@,
                    b.successors@[k2],
                )].predecessors@.contains(b.label),
        decreases b.successors@.len() - k,
    {
        let succ = b.successors[k];
        if !block_exists(cfg, succ) {
            let mut msg: Vec<char> = Vec::new();
            push_str(&mut msg, "block ");
            push_label(&mut msg, b.label);
            push_str(&mut msg, " has unknown successor ");
            push_label(&mut msg, succ);
            report(errors, &msg);
        } else {
            let sb = first_block(cfg, succ);
            if !labels_contain(&sb.predecessors, b.label) {
                let mut msg: Vec<char> = Vec::new();
                push_str(&mut msg, "broken edge reciprocity: ");
                push_label(&mut msg, b.label);
                push_str(&mut msg, " -> ");
                push_label(&mut msg, succ);
                push_str(&mut msg, ", but ");
                push_label(&mut msg, b.label);
                push_str(&mut msg, " not in ");
                push_label(&mut msg, succ);
                push_str(&mut msg, "'s predecessors");
                report(errors, &msg);
            }
        }
        k = k + 1;
    }
}

/// Reports the predecessors of `b` that name no block, or whose block does
/// not list `b` as a successor.
fn check_predecessors(cfg: &ControlFlowGraph, b: &BasicBlock, errors: &mut Vec<String>)
    ensures
        final(errors)@.len() >= old(errors)@.len(),
        final(errors)@.len() == old(errors)@.len() <==> predecessors_ok(cfg.blocks@, *b),
        texts(final(errors)@) == texts(old(errors)@) + predecessor_errors(cfg.blocks@, *b, b.predecessors@.len() as int),
{
    let ghost start = errors@.len();
    let ghost t0 = texts(errors@);
    let mut k: usize = 0;
    while k < b.predecessors.len()
        invariant
            k <= b.predecessors@.len(),
            errors@.len() >= start,
            texts(errors@) == t0 + predecessor_errors(cfg.blocks@, *b, k as int),
            errors@.len() == start <==> forall|k2: int|
                0 <= k2 < k ==> has_block(cfg.blocks@, #[trigger] b.predecessors@[k2]) && cfg.blocks@[first_index(
                    cfg.blocks@,
                    b.predecessors@[k2],
                )].successors@.contains(b.label),
        decreases b.predecessors@.len() - k,
    {
        let pred = b.predecessors[k];
        if !block_exists(cfg, pred) {
            let mut msg: Vec<char> = Vec::new();
            push_str(&mut msg, "block ");
            push_label(&mut msg, b.label);
            push_str(&mut msg, " has unknown predecessor ");
            push_label(&mut msg, pred);
            report(errors, &msg);
        } else {
            let pb = first_block(cfg, pred);
            if !labels_contain(&pb.successors, b.label) {
                let mut msg: Vec<char> = Vec::new();
                push_str(&mut msg, "broken edge reciprocity: ");
                push_label(&mut msg, pred);
                push_str(&mut msg, " in ");
                push_label(&mut msg, b.label);
                push_str(&mut msg, "'s predecessors, but ");
                push_label(&mut msg, b.label);
                push_str(&mut msg, " not in ");
                push_label(&mut msg, pred);
                push_str(&mut msg, "'s successors");
                report(errors, &msg);
            }
        }
        k = k + 1;
    }
}

/// Reports a last terminator that disagrees with the edges.
fn check_terminator(b: &BasicBlock, errors: &mut Vec<String>)
    ensures
        final(errors)@.len() >= old(errors)@.len(),
        final(errors)@.len() == old(errors)@.len() <==> terminator_ok(*b),
        texts(final(errors)@) == texts(old(errors)@) + terminator_errors(*b),
{
    match b.terminator() {
        Some(IrInst::Return(_)) => {
            if b.successors.len() > 0 {
                let mut msg: Vec<char> = Vec::new();
                push_str(&mut msg, "block ");
                push_label(&mut msg, b.label);
                push_str(&mut msg, " terminates with Return but has successors");
                report(errors, &msg);
            }
        },
        Some(IrInst::Jump(t)) => {
            if !labels_contain(&b.successors, *t) {
                let mut msg: Vec<char> = Vec::new();
                push_str(&mut msg, "block ");
                push_label(&mut msg, b.label);
                push_str(&mut msg, " terminates with Jump(");
                push_label(&mut msg, *t);
                push_str(&mut msg, ") but target is not in successors");
                report(errors, &msg);
            }
        },
        _ => {},
    }
}

/// Reports each phi that comes after an instruction that is not one.
fn check_phis(b: &BasicBlock, errors: &mut Vec<String>)
    ensures
        final(errors)@.len() >= old(errors)@.len(),
        final(errors)@.len() == old(errors)@.len() <==> phis_first(b.instructions@),
        texts(final(errors)@) == texts(old(errors)@) + phi_errors(*b, b.instructions@.len() as int),
{
    let ghost start = errors@.len();
    let ghost t0 = texts(errors@);
    let ghost s = b.instructions@;
    let mut past_phi = false;
    let mut i: usize = 0;
    while i < b.instructions.len()
        invariant
            s == b.instructions@,
            i <= s.len(),
            past_phi == exists|j: int| 0 <= j < i && !(#[trigger] s[j] is Phi),
            errors@.len() >= start,
            errors@.len() == start <==> forall|a: int, c: int| 0 <= a < c < i && !(#[trigger] s[a] is Phi) ==> !(#[trigger] s[c] is Phi),
            texts(errors@) == t0 + phi_errors(*b, i as int),
        decreases s.len() - i,
    {
        let is_phi = match &b.instructions[i] {
            IrInst::Phi { .. } => true,
            _ => false,
        };
        if is_phi {
            if past_phi {
                let mut msg: Vec<char> = Vec::new();
                push_str(&mut msg, "Phi instruction found after non-Phi instruction in block ");
                push_label(&mut msg, b.label);
                report(errors, &msg);
            }
        } else {
            past_phi = true;
            assert(!(s[i as int] is Phi));
        }
        i = i + 1;
    }
}

proof fn lemma_append_assoc(a: Seq<Seq<char>>, b: Seq<Seq<char>>, c: Seq<Seq<char>>)
    ensures
        a + b + c == a + (b + c),
{
    assert(a + b + c =~= a + (b + c));
}

/// The messages of one block's checks, appended one after another, are
/// `block_errors`.
proof fn lemma_block_texts(tb: Seq<Seq<char>>, bs: Seq<BasicBlock>, b: BasicBlock, t: Seq<Seq<char>>)
    requires
        t == tb + jump_errors(bs, b, b.instructions@.len() as int) + successor_errors(
            bs,
            b,
            b.successors@.len() as int,
        ) + predecessor_errors(bs, b, b.predecessors@.len() as int) + terminator_errors(b) + phi_errors(
            b,
            b.instructions@.len() as int,
        ),
    ensures
        t == tb + block_errors(bs, b),
{
    assert(t =~= tb + block_errors(bs, b));
}

/// Checks a control-flow graph: `Ok` exactly when it passes every check of
/// `cfg_ok`; otherwise the list of what failed, which is not empty.
pub fn verify_cfg(cfg: &ControlFlowGraph, num_params: u8) -> (r: Result<(), Vec<String>>)
    ensures
        r is Ok <==> cfg_ok(*cfg),
        r is Ok <==> cfg_errors(*cfg).len() == 0,
        r matches Err(errs) ==> errs@.len() > 0 && texts(errs@) == cfg_errors(*cfg),
{
    let mut errors: Vec<String> = Vec::new();
    if !block_exists(cfg, cfg.entry_label) {
        let mut msg: Vec<char> = Vec::new();
        push_str(&mut msg, "entry block ");
        push_label(&mut msg, cfg.entry_label);
        push_str(&mut msg, " not found in CFG");
        report(&mut errors, &msg);
    }
    let ghost bs = cfg.blocks@;
    let ghost after_entry = errors@.len();
    assert(texts(errors@) =~= entry_error(*cfg));
    let mut seen: Vec<IrLabel> = Vec::new();
    let mut i: usize = 0;
    while i < cfg.blocks.len()
        invariant
            bs == cfg.blocks@,
            i <= bs.len(),
            seen@ == bs.take(i as int).map_values(|b: BasicBlock| b.label),
            texts(errors@) == entry_error(*cfg) + duplicate_errors(bs, i as int),
            errors@.len() >= after_entry,
            after_entry == 0 <==> has_block(bs, cfg.entry_label),
            errors@.len() == after_entry <==> forall|a: int, c: int|
                0 <= a < c < i ==> #[trigger] bs[a].label != #[trigger] bs[c].label,
        decreases bs.len() - i,
    {
        let l = cfg.blocks[i].label;
        if labels_contain(&seen, l) {
            let mut msg: Vec<char> = Vec::new();
            push_str(&mut msg, "duplicate block label ");
            push_label(&mut msg, l);
            report(&mut errors, &msg);
            proof {
                let a = choose|a: int| 0 <= a < seen@.len() && seen@[a] == l;
                assert(bs[a].label == bs[i as int].label);
                assert(texts(errors@) =~= entry_error(*cfg) + duplicate_errors(bs, i + 1));
            }
        } else {
            proof {
                assert forall|a: int| 0 <= a < i implies bs[a].label != l by {
                    assert(seen@[a] == bs[a].label);
                }
                assert(duplicate_errors(bs, i + 1) =~= duplicate_errors(bs, i as int));
            }
        }
        seen.push(l);
        assert(seen@ =~= bs.take(i + 1).map_values(|b: BasicBlock| b.label));
        i = i + 1;
    }
    let ghost after_unique = errors@.len();
    let mut b: usize = 0;
    while b < cfg.blocks.len()
        invariant
            bs == cfg.blocks@,
            b <= bs.len(),
            texts(errors@) == entry_error(*cfg) + duplicate_errors(bs, bs.len() as int) + blocks_errors(bs, b as int),
            errors@.len() >= after_unique,
            after_unique >= after_entry,
            after_entry == 0 <==> has_block(bs, cfg.entry_label),
            after_unique == after_entry <==> labels_unique(bs),
            errors@.len() == after_unique <==> forall|k: int| 0 <= k < b ==> block_ok(bs, #[trigger] bs[k]),
        decreases bs.len() - b,
    {
        let ghost before = errors@.len();
        let ghost tb = texts(errors@);
        let block = &cfg.blocks[b];
        check_jumps(cfg, block, &mut errors);
        let ghost e1 = errors@.len();
        check_successors(cfg, block, &mut errors);
        let ghost e2 = errors@.len();
        check_predecessors(cfg, block, &mut errors);
        let ghost e3 = errors@.len();
        check_terminator(block, &mut errors);
        let ghost e4 = errors@.len();
        check_phis(block, &mut errors);
        assert(errors@.len() == before <==> block_ok(bs, bs[b as int]));
        proof {
            lemma_block_texts(tb, bs, bs[b as int], texts(errors@));
            lemma_append_assoc(
                entry_error(*cfg) + duplicate_errors(bs, bs.len() as int),
                blocks_errors(bs, b as int),
                block_errors(bs, bs[b as int]),
            );
        }
        proof {
            if errors@.len() != after_unique && before == after_unique {
                assert(!block_ok(bs, bs[b as int]));
            }
        }
        b = b + 1;
    }
    let _ = num_params;
    assert(texts(errors@).len() == errors@.len());
    if errors.len() == 0 {
        Ok(())
    } else {
        Err(errors)
    }
}

/// Whether a function's graph (if it has one) and those of all its nested
/// functions pass every check.
pub open spec fn function_ok(f: IrFunction) -> bool
    decreases f,
{
    &&& (f.cfg matches Some(c) ==> cfg_ok(c))
    &&& forall|i: int| 0 <= i < f.protos@.len() ==> function_ok(#[trigger] f.protos@[i])
}

/// The messages of a function's own graph, if it has one.
pub open spec fn own_errors(f: IrFunction) -> Seq<Seq<char>> {
    match f.cfg {
        Some(c) => cfg_errors(c),
        None => Seq::empty(),
    }
}

/// Every message for a function: those of its own graph, then those of each
/// nested function in order.
pub open spec fn function_errors(f: IrFunction) -> Seq<Seq<char>>
    decreases f, 1int, 0int,
{
    own_errors(f) + nested_errors(f, f.protos@.len() as int)
}

/// The messages of the first `n` nested functions of `f`.
pub open spec fn nested_errors(f: IrFunction, n: int) -> Seq<Seq<char>>
    decreases f, 0int, n,
{
    if n <= 0 {
        Seq::empty()
    } else if n - 1 < f.protos@.len() {
        nested_errors(f, n - 1) + function_errors(f.protos@[n - 1])
    } else {
        nested_errors(f, n - 1)
    }
}

/// Checks a function's graph and those of its nested functions: `Ok`
/// exactly when they all pass; otherwise every failure, which is not empty,
/// in the order of `function_errors`.
pub fn verify_function(func: &IrFunction) -> (r: Result<(), Vec<String>>)
    ensures
        r is Ok <==> function_ok(*func),
        r is Ok <==> function_errors(*func).len() == 0,
        r matches Err(errs) ==> errs@.len() > 0 && texts(errs@) == function_errors(*func),
    decreases func,
{
    let mut all_errors: Vec<String> = Vec::new();
    let mut cfg_good = true;
    match &func.cfg {
        Some(cfg) => match verify_cfg(cfg, func.num_params) {
            Ok(()) => {},
            Err(errs) => {
                cfg_good = false;
                append_errors(&mut all_errors, errs);
            },
        },
        None => {},
    }
    assert(texts(all_errors@) =~= own_errors(*func));
    assert(nested_errors(*func, 0) =~= Seq::<Seq<char>>::empty());
    let ghost ps = func.protos@;
    let mut i: usize = 0;
    while i < func.protos.len()
        invariant
            ps == func.protos@,
            i <= ps.len(),
            cfg_good == (func.cfg matches Some(c) ==> cfg_ok(c)),
            !cfg_good ==> all_errors@.len() > 0,
            all_errors@.len() == 0 <==> (cfg_good && forall|k: int| 0 <= k < i ==> function_ok(#[trigger] ps[k])),
            texts(all_errors@) == own_errors(*func) + nested_errors(*func, i as int),
        decreases ps.len() - i,
    {
        assert(decreases_to!(*func => func.protos@[i as int]));
        let ghost before = texts(all_errors@);
        match verify_function(&func.protos[i]) {
            Ok(()) => {},
            Err(errs) => {
                append_errors(&mut all_errors, errs);
            },
        }
        assert(texts(all_errors@) =~= own_errors(*func) + nested_errors(*func, i + 1));
        i = i + 1;
    }
    assert(texts(all_errors@) =~= function_errors(*func));
    assert(texts(all_errors@).len() == all_errors@.len());
    if all_errors.len() == 0 {
        Ok(())
    } else {
        Err(all_errors)
    }
}

/// Moves the errors of `more` to the end of `errors`.
fn append_errors(errors: &mut Vec<String>, more: Vec<String>)
    requires
        more@.len() > 0,
    ensures
        final(errors)@.len() == old(errors)@.len() + more@.len(),
        texts(final(errors)@) == texts(old(errors)@) + texts(more@),
{
    let ghost m0 = more@;
    let mut more = more;
    errors.append(&mut more);
    assert(texts(errors@) =~= texts(old(errors)@) + texts(m0));
}

/// Checks every graph of a module (see `verify_function`).
pub fn verify_module(module: &IrModule) -> (r: Result<(), Vec<String>>)
    ensures
        r is Ok <==> function_ok(module.main),
        r is Ok <==> function_errors(module.main).len() == 0,
        r matches Err(errs) ==> errs@.len() > 0 && texts(errs@) == function_errors(module.main),
{
    verify_function(&module.main)
}

/// What the checks see of a terminator: whether it returns (1), jumps
/// unconditionally (2) or does something else (0), and its jump targets.
pub open spec fn term_shape(i: IrInst) -> (int, Seq<IrLabel>) {
    (
        match i {
            IrInst::Return(_) => 1,
            IrInst::Jump(_) => 2,
            _ => 0,
        },
        inst_jump_targets(i),
    )
}

/// The shapes of the terminators of `s`, in order.
pub open spec fn term_shapes(s: Seq<IrInst>) -> Seq<(int, Seq<IrLabel>)>
    decreases s.len(),
{
    if s.len() == 0 {
        Seq::empty()
    } else if inst_is_terminator(s.last()) {
        term_shapes(s.drop_last()).push(term_shape(s.last()))
    } else {
        term_shapes(s.drop_last())
    }
}

proof fn lemma_term_shapes_last(s: Seq<IrInst>)
    ensures
        (last_terminator(s) >= 0) == (term_shapes(s).len() > 0),
        last_terminator(s) >= 0 ==> term_shape(s[last_terminator(s)]) == term_shapes(s).last(),
    decreases s.len(),
{
    if s.len() > 0 && !inst_is_terminator(s.last()) {
        lemma_term_shapes_last(s.drop_last());
        lemma_last_terminator(s.drop_last());
        if last_terminator(s) >= 0 {
            assert(s[last_terminator(s)] == s.drop_last()[last_terminator(s)]);
        }
    }
}

proof fn lemma_term_shapes_member(s: Seq<IrInst>, i: int)
    requires
        0 <= i < s.len(),
        inst_is_terminator(s[i]),
    ensures
        term_shapes(s).contains(term_shape(s[i])),
    decreases s.len(),
{
    if i == s.len() - 1 {
        assert(term_shapes(s).last() == term_shape(s[i]));
    } else {
        assert(s[i] == s.drop_last()[i]);
        lemma_term_shapes_member(s.drop_last(), i);
        let w = choose|w: int| 0 <= w < term_shapes(s.drop_last()).len() && term_shapes(s.drop_last())[w] == term_shape(s[i]);
        if inst_is_terminator(s.last()) {
            assert(term_shapes(s)[w] == term_shape(s[i]));
        }
    }
}

proof fn lemma_term_shapes_source(s: Seq<IrInst>, j: int)
    requires
        0 <= j < term_shapes(s).len(),
    ensures
        exists|i: int| 0 <= i < s.len() && inst_is_terminator(s[i]) && #[trigger] term_shape(s[i]) == term_shapes(s)[j],
    decreases s.len(),
{
    let d = s.drop_last();
    if inst_is_terminator(s.last()) && j == term_shapes(d).len() {
        assert(term_shape(s[s.len() - 1]) == term_shapes(s)[j]);
    } else {
        lemma_term_shapes_source(d, j);
        let i = choose|i: int| 0 <= i < d.len() && inst_is_terminator(d[i]) && #[trigger] term_shape(d[i]) == term_shapes(d)[j];
        assert(s[i] == d[i]);
    }
}

proof fn lemma_first_index_labels(a: Seq<BasicBlock>, b: Seq<BasicBlock>, l: IrLabel)
    requires
        a.len() == b.len(),
        forall|i: int| 0 <= i < a.len() ==> (#[trigger] a[i]).label == b[i].label,
    ensures
        first_index(a, l) == first_index(b, l),
    decreases a.len(),
{
    if a.len() > 0 {
        assert(a[0].label == b[0].label);
        assert forall|i: int| 0 <= i < a.drop_first().len() implies (#[trigger] a.drop_first()[i]).label
            == b.drop_first()[i].label by {
            assert(a[i + 1].label == b[i + 1].label);
        }
        lemma_first_index_labels(a.drop_first(), b.drop_first(), l);
    }
}

/// The checks still pass after a rewrite that keeps every block's label and
/// edges, the kinds and jump targets of its terminators in order, and its
/// phi nodes first.
pub proof fn lemma_cfg_ok_kept(before: ControlFlowGraph, after: ControlFlowGraph)
    requires
        cfg_ok(before),
        after.entry_label == before.entry_label,
        after.blocks@.len() == before.blocks@.len(),
        forall|i: int|
            0 <= i < before.blocks@.len() ==> (#[trigger] after.blocks@[i]).label == before.blocks@[i].label
                && after.blocks@[i].predecessors@ == before.blocks@[i].predecessors@
                && after.blocks@[i].successors@ == before.blocks@[i].successors@ && term_shapes(
                after.blocks@[i].instructions@,
            ) == term_shapes(before.blocks@[i].instructions@) && phis_first(after.blocks@[i].instructions@),
    ensures
        cfg_ok(after),
{
    let a = after.blocks@;
    let b = before.blocks@;
    assert forall|l: IrLabel| has_block(b, l) implies has_block(a, l) by {
        let j = choose|j: int| 0 <= j < b.len() && (#[trigger] b[j]).label == l;
        assert(a[j].label == l);
    }
    assert(labels_unique(a)) by {
        assert forall|i: int, j: int| 0 <= i < j < a.len() implies #[trigger] a[i].label != #[trigger] a[j].label by {
            assert(a[i].label == b[i].label && a[j].label == b[j].label);
        }
    }
    assert forall|l: IrLabel| #[trigger] first_index(a, l) == first_index(b, l) by {
        lemma_first_index_labels(a, b, l);
    }
    assert forall|i: int| 0 <= i < a.len() implies block_ok(a, #[trigger] a[i]) by {
        let ai = a[i];
        let bi = b[i];
        assert(block_ok(b, b[i]));
        let sa = ai.instructions@;
        let sb = bi.instructions@;
        assert(jumps_ok(a, ai)) by {
            assert forall|q: int, k: int|
                0 <= q < sa.len() && 0 <= k < inst_jump_targets(sa[q]).len() implies has_block(
                a,
                #[trigger] inst_jump_targets(#[trigger] sa[q])[k],
            ) by {
                assert(inst_is_terminator(sa[q]));
                lemma_term_shapes_member(sa, q);
                let w = choose|w: int| 0 <= w < term_shapes(sa).len() && term_shapes(sa)[w] == term_shape(sa[q]);
                lemma_term_shapes_source(sb, w);
                let r = choose|r: int| 0 <= r < sb.len() && inst_is_terminator(sb[r]) && #[trigger] term_shape(sb[r])
                    == term_shapes(sb)[w];
                assert(inst_jump_targets(sb[r]) == inst_jump_targets(sa[q]));
                assert(has_block(b, inst_jump_targets(sb[r])[k]));
            }
        }
        assert(successors_ok(a, ai)) by {
            assert forall|k: int| 0 <= k < ai.successors@.len() implies has_block(a, #[trigger] ai.successors@[k])
                && a[first_index(a, ai.successors@[k])].predecessors@.contains(ai.label) by {
                let l = ai.successors@[k];
                assert(bi.successors@[k] == l);
                lemma_first_index(b, l);
                assert(a[first_index(b, l)].predecessors@ == b[first_index(b, l)].predecessors@);
            }
        }
        assert(predecessors_ok(a, ai)) by {
            assert forall|k: int| 0 <= k < ai.predecessors@.len() implies has_block(a, #[trigger] ai.predecessors@[k])
                && a[first_index(a, ai.predecessors@[k])].successors@.contains(ai.label) by {
                let l = ai.predecessors@[k];
                assert(bi.predecessors@[k] == l);
                lemma_first_index(b, l);
                assert(a[first_index(b, l)].successors@ == b[first_index(b, l)].successors@);
            }
        }
        assert(terminator_ok(ai)) by {
            lemma_term_shapes_last(sa);
            lemma_term_shapes_last(sb);
            lemma_last_terminator(sa);
            lemma_last_terminator(sb);
            let ta = last_terminator(sa);
            let tb = last_terminator(sb);
            assert(terminator_ok(bi));
            assert(ai.successors@ == bi.successors@);
            if ta >= 0 {
                assert(term_shape(sa[ta]) == term_shape(sb[tb]));
                match sa[ta] {
                    IrInst::Return(_) => {
                        assert(sb[tb] is Return);
                        assert(bi.successors@.len() == 0);
                    },
                    IrInst::Jump(l) => {
                        match sb[tb] {
                            IrInst::Jump(l2) => {
                                assert(inst_jump_targets(sb[tb]) == seq![l2]);
                                assert(inst_jump_targets(sa[ta]) == seq![l]);
                                assert(seq![l2][0] == seq![l][0]);
                                assert(bi.successors@.contains(l2));
                            },
                            _ => {
                                assert(false);
                            },
                        }
                    },
                    _ => {},
                }
            }
        }
    }
}

} // verus!
