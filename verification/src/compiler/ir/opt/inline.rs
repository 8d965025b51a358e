//! Inlining of small leaf functions at their call sites in the main
//! function.
use vstd::prelude::*;

use crate::compiler::ir::block::{IrFunction, IrModule};
use crate::compiler::ir::inst::{
    clone_inst, inst_def_var, inst_use_vars, lemma_same_inst_refl, same_inst, IrInst,
};
use crate::compiler::ir::ssa::{var_index, var_put, vars_hold};
use crate::compiler::ir::types::{clone_constant, IrVar};

verus! {

/// The most instructions a function may have to be inlined.
pub const MAX_INLINE_INSTRUCTIONS: usize = 16;

/// Whether an instruction keeps a function from being inlined: a call, a
/// loop or a closure.
pub open spec fn blocks_inlining(i: IrInst) -> bool {
    i is Call || i is ForLoop || i is TForLoop || i is Closure
}

/// Whether a function can be inlined: fixed arity, no nested functions, at
/// most `MAX_INLINE_INSTRUCTIONS` instructions, none of them a call, a loop
/// or a closure.
pub open spec fn inline_candidate(f: IrFunction) -> bool {
    &&& !f.is_vararg
    &&& f.protos@.len() == 0
    &&& f.instructions@.len() <= MAX_INLINE_INSTRUCTIONS
    &&& forall|k: int| 0 <= k < f.instructions@.len() ==> !blocks_inlining(#[trigger] f.instructions@[k])
}

/// Whether `f` can be inlined (see `inline_candidate`).
pub fn is_inline_candidate(f: &IrFunction) -> (r: bool)
    ensures
        r == inline_candidate(*f),
{
    if f.is_vararg || f.protos.len() > 0 {
        return false;
    }
    if f.instructions.len() > MAX_INLINE_INSTRUCTIONS {
        return false;
    }
    let mut k: usize = 0;
    while k < f.instructions.len()
        invariant
            k <= f.instructions@.len(),
            forall|q: int| 0 <= q < k ==> !blocks_inlining(#[trigger] f.instructions@[q]),
        decreases f.instructions@.len() - k,
    {
        match &f.instructions[k] {
            IrInst::Call { .. } | IrInst::ForLoop { .. } | IrInst::TForLoop { .. } | IrInst::Closure { .. } => {
                return false;
            },
            _ => {},
        }
        k = k + 1;
    }
    true
}

/// The prototype the last closure among the first `k` of `s` that writes
/// `v` builds.
pub open spec fn closure_proto(s: Seq<IrInst>, v: IrVar, k: int) -> Option<u16>
    decreases k,
{
    if k <= 0 {
        None
    } else {
        match s[k - 1] {
            IrInst::Closure { dst, proto_idx, .. } => if dst == v {
                Some(proto_idx)
            } else {
                closure_proto(s, v, k - 1)
            },
            _ => closure_proto(s, v, k - 1),
        }
    }
}

/// The largest variable number the first `k` of `s` write (their single
/// result) or read, or 0.
pub open spec fn max_var(s: Seq<IrInst>, k: int) -> int
    decreases k,
{
    if k <= 0 {
        0
    } else {
        let prev = max_var(s, k - 1);
        let with_def = match inst_def_var(s[k - 1]) {
            Some(d) => if d.0 > prev {
                d.0 as int
            } else {
                prev
            },
            None => prev,
        };
        max_in(inst_use_vars(s[k - 1]), with_def)
    }
}

/// The largest of `m` and the numbers of the variables `vs`.
pub open spec fn max_in(vs: Seq<IrVar>, m: int) -> int
    decreases vs.len(),
{
    if vs.len() == 0 {
        m
    } else {
        let prev = max_in(vs.drop_last(), m);
        if vs.last().0 > prev {
            vs.last().0 as int
        } else {
            prev
        }
    }
}

/// A read of `v` during inlining, with renaming `vm` and counter `c`: the
/// variable it is renamed to, or a fresh one (`c + 1`) recorded for it.
pub open spec fn rename_use(vm: Map<IrVar, IrVar>, c: int, v: IrVar) -> (IrVar, Map<IrVar, IrVar>, int) {
    if vm.dom().contains(v) {
        (vm[v], vm, c)
    } else {
        (IrVar((c + 1) as u32), vm.insert(v, IrVar((c + 1) as u32)), c + 1)
    }
}

/// A write of `v` during inlining: always a fresh variable, recorded.
pub open spec fn rename_def(vm: Map<IrVar, IrVar>, c: int, v: IrVar) -> (IrVar, Map<IrVar, IrVar>, int) {
    (IrVar((c + 1) as u32), vm.insert(v, IrVar((c + 1) as u32)), c + 1)
}

/// An instruction of an inlined body renamed: the operands of moves,
/// operators, constant loads and table constructors are renamed (reads
/// first, then the written variable); other instructions are copied as
/// they are.
pub open spec fn rename_inst(i: IrInst, vm: Map<IrVar, IrVar>, c: int) -> (IrInst, Map<IrVar, IrVar>, int) {
    match i {
        IrInst::Move { dst, src } => {
            let (s2, vm1, c1) = rename_use(vm, c, src);
            let (d2, vm2, c2) = rename_def(vm1, c1, dst);
            (IrInst::Move { dst: d2, src: s2 }, vm2, c2)
        },
        IrInst::BinOp { dst, op, lhs, rhs } => {
            let (l2, vm1, c1) = rename_use(vm, c, lhs);
            let (r2, vm2, c2) = rename_use(vm1, c1, rhs);
            let (d2, vm3, c3) = rename_def(vm2, c2, dst);
            (IrInst::BinOp { dst: d2, op, lhs: l2, rhs: r2 }, vm3, c3)
        },
        IrInst::UnOp { dst, op, src } => {
            let (s2, vm1, c1) = rename_use(vm, c, src);
            let (d2, vm2, c2) = rename_def(vm1, c1, dst);
            (IrInst::UnOp { dst: d2, op, src: s2 }, vm2, c2)
        },
        IrInst::LoadConst { dst, val } => {
            let (d2, vm1, c1) = rename_def(vm, c, dst);
            (IrInst::LoadConst { dst: d2, val }, vm1, c1)
        },
        IrInst::LoadNil { dst } => {
            let (d2, vm1, c1) = rename_def(vm, c, dst);
            (IrInst::LoadNil { dst: d2 }, vm1, c1)
        },
        IrInst::NewTable { dst } => {
            let (d2, vm1, c1) = rename_def(vm, c, dst);
            (IrInst::NewTable { dst: d2 }, vm1, c1)
        },
        _ => (i, vm, c),
    }
}

/// The first `k` instructions of an inlined body for a call whose results
/// go to `dsts`: a return becomes a move of its first value (renamed) into
/// the call's first result, or a nil load when it returns nothing (nothing
/// when the call keeps no result); any other instruction is renamed.
pub open spec fn inline_body(body: Seq<IrInst>, k: int, dsts: Seq<IrVar>, vm: Map<IrVar, IrVar>, c: int) -> (
    Seq<IrInst>,
    Map<IrVar, IrVar>,
    int,
)
    decreases k,
{
    if k <= 0 {
        (Seq::empty(), vm, c)
    } else {
        let (out, vm1, c1) = inline_body(body, k - 1, dsts, vm, c);
        match body[k - 1] {
            IrInst::Return(rets) => if dsts.len() > 0 {
                if rets@.len() > 0 {
                    let rv = rets@[0];
                    let src = if vm1.dom().contains(rv) {
                        vm1[rv]
                    } else {
                        rv
                    };
                    (out.push(IrInst::Move { dst: dsts[0], src }), vm1, c1)
                } else {
                    (out.push(IrInst::LoadNil { dst: dsts[0] }), vm1, c1)
                }
            } else {
                (out, vm1, c1)
            },
            _ => {
                let (i2, vm2, c2) = rename_inst(body[k - 1], vm1, c1);
                (out.push(i2), vm2, c2)
            },
        }
    }
}

/// The renaming an inlined call starts from: parameter `i` is argument `i`.
pub open spec fn param_map(args: Seq<IrVar>) -> Map<IrVar, IrVar> {
    Map::new(|v: IrVar| (v.0 as int) < args.len(), |v: IrVar| args[v.0 as int])
}

/// The function a call of `callee` with `nargs` arguments inlines, among
/// `protos`: the one the last closure written to `callee` in `main` builds,
/// when it can be inlined and takes that many parameters.
pub open spec fn inline_target(main: Seq<IrInst>, protos: Seq<IrFunction>, callee: IrVar, nargs: int) -> Option<int> {
    match closure_proto(main, callee, main.len() as int) {
        Some(idx) => if (idx as int) < protos.len() && inline_candidate(protos[idx as int])
            && protos[idx as int].num_params as int == nargs {
            Some(idx as int)
        } else {
            None
        },
        None => None,
    }
}

/// The first `k` instructions of `main` with every call of an inlinable
/// function replaced by its body (see `inline_body`), fresh variables
/// numbered from `c + 1`: the instructions, the last number used, and
/// whether any call was inlined.
pub open spec fn inline_walk(main: Seq<IrInst>, protos: Seq<IrFunction>, k: int, c: int) -> (Seq<IrInst>, int, bool)
    decreases k,
{
    if k <= 0 {
        (Seq::empty(), c, false)
    } else {
        let (out, c1, ch) = inline_walk(main, protos, k - 1, c);
        match main[k - 1] {
            IrInst::Call { dsts, callee, args, .. } => match inline_target(main, protos, callee, args@.len() as int) {
                Some(idx) => {
                    let body = protos[idx].instructions@;
                    let (ins, _, c2) = inline_body(body, body.len() as int, dsts@, param_map(args@), c1);
                    (out + ins, c2, true)
                },
                None => (out.push(main[k - 1]), c1, ch),
            },
            _ => (out.push(main[k - 1]), c1, ch),
        }
    }
}

/// What inlining makes of the main function's instructions `main`.
pub open spec fn inlined(main: Seq<IrInst>, protos: Seq<IrFunction>) -> (Seq<IrInst>, int, bool) {
    inline_walk(main, protos, main.len() as int, max_var(main, main.len() as int))
}

/// Whether `out` holds the instructions `s`, one for one.
pub open spec fn same_seq(out: Seq<IrInst>, s: Seq<IrInst>) -> bool {
    out.len() == s.len() && forall|k: int| 0 <= k < s.len() ==> same_inst(#[trigger] out[k], s[k])
}

proof fn lemma_rename_mono(i: IrInst, vm: Map<IrVar, IrVar>, c: int)
    ensures
        rename_inst(i, vm, c).2 >= c,
{
}

proof fn lemma_body_mono(body: Seq<IrInst>, a: int, b: int, dsts: Seq<IrVar>, vm: Map<IrVar, IrVar>, c: int)
    requires
        0 <= a <= b,
    ensures
        inline_body(body, a, dsts, vm, c).2 <= inline_body(body, b, dsts, vm, c).2,
        inline_body(body, a, dsts, vm, c).2 >= c,
    decreases b,
{
    if b > a {
        lemma_body_mono(body, a, b - 1, dsts, vm, c);
        let (out, vm1, c1) = inline_body(body, b - 1, dsts, vm, c);
        lemma_rename_mono(body[b - 1], vm1, c1);
    }
    if a > 0 {
        lemma_body_mono(body, a - 1, a - 1, dsts, vm, c);
        let (out, vm1, c1) = inline_body(body, a - 1, dsts, vm, c);
        lemma_rename_mono(body[a - 1], vm1, c1);
    }
}

proof fn lemma_walk_mono(main: Seq<IrInst>, protos: Seq<IrFunction>, a: int, b: int, c: int)
    requires
        0 <= a <= b,
    ensures
        inline_walk(main, protos, a, c).1 <= inline_walk(main, protos, b, c).1,
        inline_walk(main, protos, a, c).1 >= c,
    decreases b,
{
    if b > a {
        lemma_walk_mono(main, protos, a, b - 1, c);
        let (out, c1, ch) = inline_walk(main, protos, b - 1, c);
        match main[b - 1] {
            IrInst::Call { dsts, callee, args, .. } => match inline_target(main, protos, callee, args@.len() as int) {
                Some(idx) => {
                    let body = protos[idx].instructions@;
                    lemma_body_mono(body, 0, body.len() as int, dsts@, param_map(args@), c1);
                },
                None => {},
            },
            _ => {},
        }
    }
    if a > 0 {
        lemma_walk_mono(main, protos, a - 1, a - 1, c);
        let (out, c1, ch) = inline_walk(main, protos, a - 1, c);
        match main[a - 1] {
            IrInst::Call { dsts, callee, args, .. } => match inline_target(main, protos, callee, args@.len() as int) {
                Some(idx) => {
                    let body = protos[idx].instructions@;
                    lemma_body_mono(body, 0, body.len() as int, dsts@, param_map(args@), c1);
                },
                None => {},
            },
            _ => {},
        }
    }
}

/// The prototype the last closure of `main` written to `v` builds.
fn closure_proto_exec(main: &Vec<IrInst>, v: IrVar) -> (r: Option<u16>)
    ensures
        r == closure_proto(main@, v, main@.len() as int),
{
    let mut k: usize = main.len();
    while k > 0
        invariant
            k <= main@.len(),
            closure_proto(main@, v, main@.len() as int) == closure_proto(main@, v, k as int),
        decreases k,
    {
        match &main[k - 1] {
            IrInst::Closure { dst, proto_idx, .. } => {
                if *dst == v {
                    return Some(*proto_idx);
                }
            },
            _ => {},
        }
        k = k - 1;
    }
    None
}

/// The largest variable number `main` writes or reads (see `max_var`).
fn max_var_exec(main: &Vec<IrInst>) -> (r: u32)
    ensures
        r as int == max_var(main@, main@.len() as int),
{
    let mut m: u32 = 0;
    let mut k: usize = 0;
    while k < main.len()
        invariant
            k <= main@.len(),
            m as int == max_var(main@, k as int),
        decreases main@.len() - k,
    {
        match main[k].def_var() {
            Some(d) => {
                if d.0 > m {
                    m = d.0;
                }
            },
            None => {},
        }
        let ghost base = m as int;
        let uses = main[k].use_vars();
        let mut q: usize = 0;
        while q < uses.len()
            invariant
                q <= uses@.len(),
                m as int == max_in(uses@.take(q as int), base),
            decreases uses@.len() - q,
        {
            assert(uses@.take(q + 1).drop_last() =~= uses@.take(q as int));
            if uses[q].0 > m {
                m = uses[q].0;
            }
            q = q + 1;
        }
        assert(uses@.take(uses@.len() as int) =~= uses@);
        k = k + 1;
    }
    m
}

/// A read of `v` renamed (see `rename_use`).
fn rename_use_exec(vm: &mut Vec<(IrVar, IrVar)>, c: &mut u32, v: IrVar, Ghost(m): Ghost<Map<IrVar, IrVar>>) -> (r: IrVar)
    requires
        vars_hold(old(vm)@, m),
        rename_use(m, *old(c) as int, v).2 <= u32::MAX,
    ensures
        ({
            let (r2, m2, c2) = rename_use(m, *old(c) as int, v);
            &&& r == r2
            &&& vars_hold(final(vm)@, m2)
            &&& *final(c) as int == c2
        }),
{
    match var_index(vm, v) {
        Some(i) => {
            assert(m.dom().contains(v));
            vm[i].1
        },
        None => {
            assert(!m.dom().contains(v)) by {
                if m.dom().contains(v) {
                    let q = choose|q: int| 0 <= q < vm@.len() && vm@[q].0 == v;
                }
            }
            *c = *c + 1;
            let fresh = IrVar(*c);
            let _ = var_put(vm, v, fresh, Ghost(m));
            fresh
        },
    }
}

/// A write of `v` renamed (see `rename_def`).
fn rename_def_exec(vm: &mut Vec<(IrVar, IrVar)>, c: &mut u32, v: IrVar, Ghost(m): Ghost<Map<IrVar, IrVar>>) -> (r: IrVar)
    requires
        vars_hold(old(vm)@, m),
        *old(c) < u32::MAX,
    ensures
        ({
            let (r2, m2, c2) = rename_def(m, *old(c) as int, v);
            &&& r == r2
            &&& vars_hold(final(vm)@, m2)
            &&& *final(c) as int == c2
        }),
{
    *c = *c + 1;
    let fresh = IrVar(*c);
    let _ = var_put(vm, v, fresh, Ghost(m));
    fresh
}

/// An inlined instruction renamed (see `rename_inst`).
fn rename_inst_exec(i: &IrInst, vm: &mut Vec<(IrVar, IrVar)>, c: &mut u32, Ghost(m): Ghost<Map<IrVar, IrVar>>) -> (r: IrInst)
    requires
        vars_hold(old(vm)@, m),
        rename_inst(*i, m, *old(c) as int).2 <= u32::MAX,
    ensures
        ({
            let (r2, m2, c2) = rename_inst(*i, m, *old(c) as int);
            &&& same_inst(r, r2)
            &&& vars_hold(final(vm)@, m2)
            &&& *final(c) as int == c2
        }),
{
    match i {
        IrInst::Move { dst, src } => {
            let ghost (s2, m1, c1) = rename_use(m, *c as int, *src);
            let s = rename_use_exec(vm, c, *src, Ghost(m));
            let d = rename_def_exec(vm, c, *dst, Ghost(m1));
            IrInst::Move { dst: d, src: s }
        },
        IrInst::BinOp { dst, op, lhs, rhs } => {
            let ghost (l2, m1, c1) = rename_use(m, *c as int, *lhs);
            let l = rename_use_exec(vm, c, *lhs, Ghost(m));
            let ghost (r2, m2, c2) = rename_use(m1, c1, *rhs);
            let r = rename_use_exec(vm, c, *rhs, Ghost(m1));
            let d = rename_def_exec(vm, c, *dst, Ghost(m2));
            IrInst::BinOp { dst: d, op: *op, lhs: l, rhs: r }
        },
        IrInst::UnOp { dst, op, src } => {
            let ghost (s2, m1, c1) = rename_use(m, *c as int, *src);
            let s = rename_use_exec(vm, c, *src, Ghost(m));
            let d = rename_def_exec(vm, c, *dst, Ghost(m1));
            IrInst::UnOp { dst: d, op: *op, src: s }
        },
        IrInst::LoadConst { dst, val } => {
            let d = rename_def_exec(vm, c, *dst, Ghost(m));
            IrInst::LoadConst { dst: d, val: clone_constant(val) }
        },
        IrInst::LoadNil { dst } => {
            let d = rename_def_exec(vm, c, *dst, Ghost(m));
            IrInst::LoadNil { dst: d }
        },
        IrInst::NewTable { dst } => {
            let d = rename_def_exec(vm, c, *dst, Ghost(m));
            IrInst::NewTable { dst: d }
        },
        _ => clone_inst(i),
    }
}

/// The renaming that sends parameter `i` to argument `i`.
fn param_pairs(args: &Vec<IrVar>) -> (r: Vec<(IrVar, IrVar)>)
    requires
        args@.len() <= u8::MAX,
    ensures
        vars_hold(r@, param_map(args@)),
{
    let mut vm: Vec<(IrVar, IrVar)> = Vec::new();
    let mut i: usize = 0;
    assert(vars_hold(vm@, Map::new(|v: IrVar| (v.0 as int) < 0, |v: IrVar| args@[v.0 as int])));
    while i < args.len()
        invariant
            i <= args@.len(),
            args@.len() <= u8::MAX,
            vars_hold(vm@, Map::new(|v: IrVar| (v.0 as int) < i, |v: IrVar| args@[v.0 as int])),
        decreases args@.len() - i,
    {
        let ghost m = Map::new(|v: IrVar| (v.0 as int) < i, |v: IrVar| args@[v.0 as int]);
        let _ = var_put(&mut vm, IrVar(i as u32), args[i], Ghost(m));
        assert(m.insert(IrVar(i as u32), args@[i as int]) =~= Map::new(
            |v: IrVar| (v.0 as int) < i + 1,
            |v: IrVar| args@[v.0 as int],
        ));
        i = i + 1;
    }
    assert(Map::new(|v: IrVar| (v.0 as int) < args@.len(), |v: IrVar| args@[v.0 as int]) =~= param_map(args@));
    vm
}

/// Appends the inlined body for a call with results `dsts` and arguments
/// `args` (see `inline_body`).
fn inline_body_exec(body: &Vec<IrInst>, dsts: &Vec<IrVar>, args: &Vec<IrVar>, c: &mut u32, out: &mut Vec<IrInst>)
    requires
        args@.len() <= u8::MAX,
        inline_body(body@, body@.len() as int, dsts@, param_map(args@), *old(c) as int).2 <= u32::MAX,
    ensures
        ({
            let (ins, _, c2) = inline_body(body@, body@.len() as int, dsts@, param_map(args@), *old(c) as int);
            &&& final(out)@.len() == old(out)@.len() + ins.len()
            &&& final(out)@.take(old(out)@.len() as int) == old(out)@
            &&& same_seq(final(out)@.skip(old(out)@.len() as int), ins)
            &&& *final(c) as int == c2
        }),
{
    let ghost o0 = out@;
    let ghost c0 = *c as int;
    let ghost pm = param_map(args@);
    let ghost total = inline_body(body@, body@.len() as int, dsts@, pm, c0).2;
    let mut vm = param_pairs(args);
    let mut k: usize = 0;
    while k < body.len()
        invariant
            k <= body@.len(),
            total == inline_body(body@, body@.len() as int, dsts@, pm, c0).2,
            total <= u32::MAX,
            ({
                let (ins, m, ck) = inline_body(body@, k as int, dsts@, pm, c0);
                &&& vars_hold(vm@, m)
                &&& *c as int == ck
                &&& out@.len() == o0.len() + ins.len()
                &&& out@.take(o0.len() as int) == o0
                &&& same_seq(out@.skip(o0.len() as int), ins)
            }),
        decreases body@.len() - k,
    {
        let ghost (ins, m, ck) = inline_body(body@, k as int, dsts@, pm, c0);
        let ghost ob = out@;
        proof {
            lemma_body_mono(body@, k + 1, body@.len() as int, dsts@, pm, c0);
        }
        match &body[k] {
            IrInst::Return(rets) => {
                if dsts.len() > 0 {
                    if rets.len() > 0 {
                        let rv = rets[0];
                        let src = match var_index(&vm, rv) {
                            Some(i) => {
                                assert(m.dom().contains(rv));
                                vm[i].1
                            },
                            None => {
                                assert(!m.dom().contains(rv)) by {
                                    if m.dom().contains(rv) {
                                        let q = choose|q: int| 0 <= q < vm@.len() && vm@[q].0 == rv;
                                    }
                                }
                                rv
                            },
                        };
                        out.push(IrInst::Move { dst: dsts[0], src });
                    } else {
                        out.push(IrInst::LoadNil { dst: dsts[0] });
                    }
                }
            },
            _ => {
                let ri = rename_inst_exec(&body[k], &mut vm, c, Ghost(m));
                out.push(ri);
            },
        }
        proof {
            let (ins2, m2, ck2) = inline_body(body@, k + 1, dsts@, pm, c0);
            assert(out@.take(o0.len() as int) =~= o0) by {
                assert(out@.take(o0.len() as int) =~= ob.take(o0.len() as int));
            }
            assert forall|q: int| 0 <= q < ins2.len() implies same_inst(#[trigger] out@.skip(o0.len() as int)[q], ins2[q]) by {
                if q < ins.len() {
                    assert(out@.skip(o0.len() as int)[q] == ob.skip(o0.len() as int)[q]);
                    assert(ins2[q] == ins[q]);
                } else {
                    lemma_same_inst_refl(ins2[q]);
                }
            }
        }
        k = k + 1;
    }
}

/// Inlines every call of a small leaf function in the main function (see
/// `inlined`): the call is replaced by the function's body with its
/// parameters renamed to the call's arguments, its other variables to fresh
/// ones numbered after every variable of the main function, and its returns
/// turned into moves into the call's first result. The result tells whether
/// any call was inlined.
pub fn inline_functions(module: &mut IrModule) -> (changed: bool)
    requires
        inlined(old(module).main.instructions@, old(module).main.protos@).1 <= u32::MAX,
    ensures
        same_seq(final(module).main.instructions@, inlined(old(module).main.instructions@, old(module).main.protos@).0),
        changed == inlined(old(module).main.instructions@, old(module).main.protos@).2,
        final(module).main.name == old(module).main.name,
        final(module).main.params == old(module).main.params,
        final(module).main.num_params == old(module).main.num_params,
        final(module).main.is_vararg == old(module).main.is_vararg,
        final(module).main.protos == old(module).main.protos,
        final(module).main.upvalues == old(module).main.upvalues,
        final(module).main.upvalue_vars == old(module).main.upvalue_vars,
        final(module).main.cfg == old(module).main.cfg,
{
    let ghost main0 = module.main.instructions@;
    let ghost protos = module.main.protos@;
    let n = module.main.instructions.len();
    let mut c = max_var_exec(&module.main.instructions);
    let ghost c0 = c as int;
    let ghost total = inline_walk(main0, protos, main0.len() as int, c0).1;
    let mut targets: Vec<Option<usize>> = Vec::new();
    let mut k: usize = 0;
    while k < n
        invariant
            k <= n,
            n == main0.len(),
            main0 == module.main.instructions@,
            protos == module.main.protos@,
            targets@.len() == k,
            forall|q: int|
                0 <= q < k ==> #[trigger] targets@[q] == match main0[q] {
                    IrInst::Call { callee, args, .. } => match inline_target(main0, protos, callee, args@.len() as int) {
                        Some(idx) => Some(idx as usize),
                        None => None,
                    },
                    _ => None,
                },
        decreases n - k,
    {
        let t = match &module.main.instructions[k] {
            IrInst::Call { callee, args, .. } => match closure_proto_exec(&module.main.instructions, *callee) {
                Some(idx) => {
                    let i = idx as usize;
                    if i < module.main.protos.len() && is_inline_candidate(&module.main.protos[i])
                        && module.main.protos[i].num_params as usize == args.len() {
                        Some(i)
                    } else {
                        None
                    }
                },
                None => None,
            },
            _ => None,
        };
        targets.push(t);
        k = k + 1;
    }
    let mut rest: Vec<IrInst> = Vec::new();
    std::mem::swap(&mut rest, &mut module.main.instructions);
    let mut out: Vec<IrInst> = Vec::new();
    let mut changed = false;
    let mut k: usize = 0;
    while k < n
        invariant
            k <= n,
            n == main0.len(),
            rest@ == main0.skip(k as int),
            protos == module.main.protos@,
            targets@.len() == n,
            forall|q: int|
                0 <= q < n ==> #[trigger] targets@[q] == match main0[q] {
                    IrInst::Call { callee, args, .. } => match inline_target(main0, protos, callee, args@.len() as int) {
                        Some(idx) => Some(idx as usize),
                        None => None,
                    },
                    _ => None,
                },
            total == inline_walk(main0, protos, main0.len() as int, c0).1,
            total <= u32::MAX,
            ({
                let (o, ck, ch) = inline_walk(main0, protos, k as int, c0);
                &&& same_seq(out@, o)
                &&& c as int == ck
                &&& changed == ch
            }),
            module.main.name == old(module).main.name,
            module.main.params == old(module).main.params,
            module.main.num_params == old(module).main.num_params,
            module.main.is_vararg == old(module).main.is_vararg,
            module.main.protos == old(module).main.protos,
            module.main.upvalues == old(module).main.upvalues,
            module.main.upvalue_vars == old(module).main.upvalue_vars,
            module.main.cfg == old(module).main.cfg,
        decreases n - k,
    {
        let inst = rest.remove(0);
        assert(inst == main0[k as int]);
        assert(rest@ =~= main0.skip(k + 1));
        let ghost (o, ck, ch) = inline_walk(main0, protos, k as int, c0);
        let ghost ob = out@;
        proof {
            lemma_walk_mono(main0, protos, k + 1, main0.len() as int, c0);
        }
        match targets[k] {
            Some(idx) => {
                match inst {
                    IrInst::Call { dsts, callee, args, retc } => {
                        let ghost body = protos[idx as int].instructions@;
                        proof {
                            assert(inline_target(main0, protos, callee, args@.len() as int) == Some(idx as int));
                        }
                        inline_body_exec(&module.main.protos[idx].instructions, &dsts, &args, &mut c, &mut out);
                        changed = true;
                        proof {
                            let (ins, _, c2) = inline_body(body, body.len() as int, dsts@, param_map(args@), ck);
                            let o2 = o + ins;
                            assert forall|q: int| 0 <= q < o2.len() implies same_inst(#[trigger] out@[q], o2[q]) by {
                                if q < o.len() {
                                    assert(out@[q] == out@.take(ob.len() as int)[q]);
                                } else {
                                    assert(out@[q] == out@.skip(ob.len() as int)[q - ob.len()]);
                                }
                            }
                        }
                    },
                    _ => {
                        out.push(inst);
                    },
                }
            },
            None => {
                let ghost i0 = inst;
                out.push(inst);
                proof {
                    lemma_same_inst_refl(i0);
                    let o2 = o.push(i0);
                    assert forall|q: int| 0 <= q < o2.len() implies same_inst(#[trigger] out@[q], o2[q]) by {
                        if q < o.len() {
                            assert(out@[q] == ob[q]);
                        }
                    }
                }
            },
        }
        k = k + 1;
    }
    module.main.instructions = out;
    changed
}

} // verus!
