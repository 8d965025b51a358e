//! Runs of values produced by calls or `...` and where they go.
use vstd::prelude::*;

use crate::compiler::ir::types::{clone_constant, IrBinaryOp, IrConstant, IrLabel, IrUnaryOp, IrVar};

verus! {

/// Where a run of values goes once it has been produced.
#[derive(Debug, PartialEq)]
pub enum SpreadSink {
    /// Passed as the trailing arguments of another call.
    Call { dsts: Vec<IrVar>, callee: IrVar, fixed_args: Vec<IrVar>, retc: u8 },
    /// Appended to a table constructor's array part.
    List { table: IrVar },
    /// Returned from the enclosing function.
    Return,
}

/// What produces a run of values: a call keeping all its results, or `...`.
#[derive(Debug, PartialEq)]
pub enum SpreadSource {
    Call {
        callee: IrVar,
        args: Vec<IrVar>,
        /// A producer for this call's own trailing arguments, as in
        /// `f(g(h()))`.
        trailing: Option<Box<SpreadSource>>,
    },
    Vararg,
}

/// The variables read while producing the run, in order.
pub open spec fn spread_uses(s: SpreadSource) -> Seq<IrVar>
    decreases s,
{
    match s {
        SpreadSource::Call { callee, args, trailing } => seq![callee] + args@ + match trailing {
            Some(inner) => spread_uses(*inner),
            None => Seq::empty(),
        },
        SpreadSource::Vararg => Seq::empty(),
    }
}

/// `a + b`, held at 255.
pub open spec fn sat_u8(a: u8, b: u8) -> u8 {
    if a + b > 255 {
        255u8
    } else {
        (a + b) as u8
    }
}

/// The number of consecutive registers the run needs, held at 255 (each
/// argument count taken modulo 256).
pub open spec fn spread_slots(s: SpreadSource) -> u8
    decreases s,
{
    match s {
        SpreadSource::Call { args, trailing, .. } => {
            let nested = match trailing {
                Some(inner) => spread_slots(*inner),
                None => 0u8,
            };
            sat_u8(sat_u8(1u8, args@.len() as u8), nested)
        },
        SpreadSource::Vararg => 1u8,
    }
}

/// The exact number of consecutive registers the run occupies.
pub open spec fn spread_width(s: SpreadSource) -> int
    decreases s,
{
    match s {
        SpreadSource::Call { args, trailing, .. } => 1 + args@.len() + match trailing {
            Some(inner) => spread_width(*inner),
            None => 0,
        },
        SpreadSource::Vararg => 1,
    }
}

impl SpreadSource {
    /// The variables read while producing the run.
    pub fn use_vars(&self) -> (r: Vec<IrVar>)
        ensures
            r@ == spread_uses(*self),
        decreases self,
    {
        match self {
            SpreadSource::Call { callee, args, trailing } => {
                let mut uses: Vec<IrVar> = Vec::new();
                uses.push(*callee);
                let mut i: usize = 0;
                while i < args.len()
                    invariant
                        i <= args@.len(),
                        uses@ == seq![*callee] + args@.take(i as int),
                    decreases args@.len() - i,
                {
                    uses.push(args[i]);
                    assert(args@.take(i + 1) == args@.take(i as int).push(args@[i as int]));
                    i = i + 1;
                }
                assert(args@.take(args@.len() as int) == args@);
                match trailing {
                    Some(inner) => {
                        let more = inner.use_vars();
                        let mut j: usize = 0;
                        let ghost base = uses@;
                        while j < more.len()
                            invariant
                                j <= more@.len(),
                                uses@ == base + more@.take(j as int),
                            decreases more@.len() - j,
                        {
                            uses.push(more[j]);
                            assert(more@.take(j + 1) == more@.take(j as int).push(more@[j as int]));
                            j = j + 1;
                        }
                        assert(more@.take(more@.len() as int) == more@);
                    },
                    None => {
                        assert(uses@ == seq![*callee] + args@ + Seq::<IrVar>::empty());
                    },
                }
                uses
            },
            SpreadSource::Vararg => Vec::new(),
        }
    }

    /// How many consecutive registers laying this producer out needs.
    pub fn slots(&self) -> (r: u8)
        ensures
            r == spread_slots(*self),
        decreases self,
    {
        match self {
            SpreadSource::Call { args, trailing, .. } => {
                let nested = match trailing {
                    Some(t) => t.slots(),
                    None => 0,
                };
                let n = #[verifier::truncate] (args.len() as u8);
                1u8.saturating_add(n).saturating_add(nested)
            },
            SpreadSource::Vararg => 1,
        }
    }
}

/// Appends the variables `vs` to `out`.
pub fn push_vars(out: &mut Vec<IrVar>, vs: &Vec<IrVar>)
    ensures
        final(out)@ == old(out)@ + vs@,
{
    let mut i: usize = 0;
    while i < vs.len()
        invariant
            i <= vs@.len(),
            out@ == old(out)@ + vs@.take(i as int),
        decreases vs@.len() - i,
    {
        out.push(vs[i]);
        assert(vs@.take(i + 1) == vs@.take(i as int).push(vs@[i as int]));
        i = i + 1;
    }
    assert(vs@.take(vs@.len() as int) == vs@);
}

/// A copy of a list of variables.
pub fn copy_vars(vs: &Vec<IrVar>) -> (r: Vec<IrVar>)
    ensures
        r@ == vs@,
{
    let mut r: Vec<IrVar> = Vec::new();
    push_vars(&mut r, vs);
    assert(r@ =~= vs@);
    r
}

/// Whether two producers are the same, field by field.
pub open spec fn same_source(a: SpreadSource, b: SpreadSource) -> bool
    decreases a,
{
    match (a, b) {
        (
            SpreadSource::Call { callee: c1, args: a1, trailing: t1 },
            SpreadSource::Call { callee: c2, args: a2, trailing: t2 },
        ) => c1 == c2 && a1@ == a2@ && match (t1, t2) {
            (Some(i1), Some(i2)) => same_source(*i1, *i2),
            (None, None) => true,
            _ => false,
        },
        (SpreadSource::Vararg, SpreadSource::Vararg) => true,
        _ => false,
    }
}

/// Whether two sinks are the same, field by field.
pub open spec fn same_sink(a: SpreadSink, b: SpreadSink) -> bool {
    match (a, b) {
        (
            SpreadSink::Call { dsts: d1, callee: c1, fixed_args: f1, retc: r1 },
            SpreadSink::Call { dsts: d2, callee: c2, fixed_args: f2, retc: r2 },
        ) => d1@ == d2@ && c1 == c2 && f1@ == f2@ && r1 == r2,
        (SpreadSink::List { table: t1 }, SpreadSink::List { table: t2 }) => t1 == t2,
        (SpreadSink::Return, SpreadSink::Return) => true,
        _ => false,
    }
}

/// A copy of a producer.
pub fn clone_source(s: &SpreadSource) -> (r: SpreadSource)
    ensures
        same_source(r, *s),
    decreases s,
{
    match s {
        SpreadSource::Call { callee, args, trailing } => {
            let t = match trailing {
                Some(inner) => Some(Box::new(clone_source(inner))),
                None => None,
            };
            SpreadSource::Call { callee: *callee, args: copy_vars(args), trailing: t }
        },
        SpreadSource::Vararg => SpreadSource::Vararg,
    }
}

/// A copy of a sink.
pub fn clone_sink(s: &SpreadSink) -> (r: SpreadSink)
    ensures
        same_sink(r, *s),
{
    match s {
        SpreadSink::Call { dsts, callee, fixed_args, retc } => SpreadSink::Call {
            dsts: copy_vars(dsts),
            callee: *callee,
            fixed_args: copy_vars(fixed_args),
            retc: *retc,
        },
        SpreadSink::List { table } => SpreadSink::List { table: *table },
        SpreadSink::Return => SpreadSink::Return,
    }
}

/// An instruction of the three-address IR.
#[derive(Debug, PartialEq)]
pub enum IrInst {
    LoadConst { dst: IrVar, val: IrConstant },
    LoadNil { dst: IrVar },
    Move { dst: IrVar, src: IrVar },
    BinOp { dst: IrVar, op: IrBinaryOp, lhs: IrVar, rhs: IrVar },
    UnOp { dst: IrVar, op: IrUnaryOp, src: IrVar },
    NewTable { dst: IrVar },
    GetTable { dst: IrVar, table: IrVar, key: IrVar },
    GetImport { dst: IrVar, module: String, field: String },
    SetTable { table: IrVar, key: IrVar, val: IrVar },
    AppendArray { table: IrVar, src: IrVar },
    GetGlobal { dst: IrVar, name: String },
    SetGlobal { name: String, src: IrVar },
    GetUpval { dst: IrVar, index: u8 },
    SetUpval { index: u8, src: IrVar },
    /// A call; `dsts` receive its results, one variable per result.
    Call { dsts: Vec<IrVar>, callee: IrVar, args: Vec<IrVar>, retc: u8 },
    Return(Vec<IrVar>),
    /// A closure over nested prototype `proto_idx`; `captures` gives, for each
    /// of its upvalues, the parent variable captured (or `None` when it comes
    /// from the parent's own upvalues).
    Closure { dst: IrVar, proto_idx: u16, captures: Vec<Option<IrVar>> },
    Vararg { dst: IrVar, count: u8 },
    ForPrep { base: IrVar, limit: IrVar, step: IrVar, loop_var: IrVar, jump: IrLabel },
    ForLoop { base: IrVar, jump: IrLabel },
    TForCall { base: IrVar, state: IrVar, ctrl: IrVar, vars: Vec<IrVar> },
    TForLoop { base: IrVar, jump: IrLabel },
    Jump(IrLabel),
    JumpIfFalse { cond: IrVar, target: IrLabel },
    /// Every value from `source` handed straight to `sink`.
    Spread { source: SpreadSource, sink: SpreadSink },
    Label(IrLabel),
    /// An SSA phi: the incoming variable chosen by predecessor block.
    Phi { dst: IrVar, incoming: Vec<(IrLabel, IrVar)> },
}

/// Whether two instructions are the same, field by field.
pub open spec fn same_inst(a: IrInst, b: IrInst) -> bool {
    match (a, b) {
        (IrInst::LoadConst { dst: d1, val: v1 }, IrInst::LoadConst { dst: d2, val: v2 }) => d1 == d2 && v1
            == v2,
        (IrInst::LoadNil { dst: d1 }, IrInst::LoadNil { dst: d2 }) => d1 == d2,
        (IrInst::Move { dst: d1, src: s1 }, IrInst::Move { dst: d2, src: s2 }) => d1 == d2 && s1 == s2,
        (
            IrInst::BinOp { dst: d1, op: o1, lhs: l1, rhs: r1 },
            IrInst::BinOp { dst: d2, op: o2, lhs: l2, rhs: r2 },
        ) => d1 == d2 && o1 == o2 && l1 == l2 && r1 == r2,
        (IrInst::UnOp { dst: d1, op: o1, src: s1 }, IrInst::UnOp { dst: d2, op: o2, src: s2 }) => d1 == d2
            && o1 == o2 && s1 == s2,
        (IrInst::NewTable { dst: d1 }, IrInst::NewTable { dst: d2 }) => d1 == d2,
        (
            IrInst::GetTable { dst: d1, table: t1, key: k1 },
            IrInst::GetTable { dst: d2, table: t2, key: k2 },
        ) => d1 == d2 && t1 == t2 && k1 == k2,
        (
            IrInst::GetImport { dst: d1, module: m1, field: f1 },
            IrInst::GetImport { dst: d2, module: m2, field: f2 },
        ) => d1 == d2 && m1 == m2 && f1 == f2,
        (
            IrInst::SetTable { table: t1, key: k1, val: v1 },
            IrInst::SetTable { table: t2, key: k2, val: v2 },
        ) => t1 == t2 && k1 == k2 && v1 == v2,
        (IrInst::AppendArray { table: t1, src: s1 }, IrInst::AppendArray { table: t2, src: s2 }) => t1
            == t2 && s1 == s2,
        (IrInst::GetGlobal { dst: d1, name: n1 }, IrInst::GetGlobal { dst: d2, name: n2 }) => d1 == d2
            && n1 == n2,
        (IrInst::SetGlobal { name: n1, src: s1 }, IrInst::SetGlobal { name: n2, src: s2 }) => n1 == n2
            && s1 == s2,
        (IrInst::GetUpval { dst: d1, index: i1 }, IrInst::GetUpval { dst: d2, index: i2 }) => d1 == d2
            && i1 == i2,
        (IrInst::SetUpval { index: i1, src: s1 }, IrInst::SetUpval { index: i2, src: s2 }) => i1 == i2
            && s1 == s2,
        (
            IrInst::Call { dsts: d1, callee: c1, args: a1, retc: r1 },
            IrInst::Call { dsts: d2, callee: c2, args: a2, retc: r2 },
        ) => d1@ == d2@ && c1 == c2 && a1@ == a2@ && r1 == r2,
        (IrInst::Return(v1), IrInst::Return(v2)) => v1@ == v2@,
        (
            IrInst::Closure { dst: d1, proto_idx: p1, captures: c1 },
            IrInst::Closure { dst: d2, proto_idx: p2, captures: c2 },
        ) => d1 == d2 && p1 == p2 && c1@ == c2@,
        (IrInst::Vararg { dst: d1, count: c1 }, IrInst::Vararg { dst: d2, count: c2 }) => d1 == d2 && c1
            == c2,
        (
            IrInst::ForPrep { base: b1, limit: l1, step: s1, loop_var: v1, jump: j1 },
            IrInst::ForPrep { base: b2, limit: l2, step: s2, loop_var: v2, jump: j2 },
        ) => b1 == b2 && l1 == l2 && s1 == s2 && v1 == v2 && j1 == j2,
        (IrInst::ForLoop { base: b1, jump: j1 }, IrInst::ForLoop { base: b2, jump: j2 }) => b1 == b2 && j1
            == j2,
        (
            IrInst::TForCall { base: b1, state: s1, ctrl: c1, vars: v1 },
            IrInst::TForCall { base: b2, state: s2, ctrl: c2, vars: v2 },
        ) => b1 == b2 && s1 == s2 && c1 == c2 && v1@ == v2@,
        (IrInst::TForLoop { base: b1, jump: j1 }, IrInst::TForLoop { base: b2, jump: j2 }) => b1 == b2
            && j1 == j2,
        (IrInst::Jump(l1), IrInst::Jump(l2)) => l1 == l2,
        (IrInst::JumpIfFalse { cond: c1, target: t1 }, IrInst::JumpIfFalse { cond: c2, target: t2 }) => c1
            == c2 && t1 == t2,
        (IrInst::Spread { source: s1, sink: k1 }, IrInst::Spread { source: s2, sink: k2 }) => same_source(
            s1,
            s2,
        ) && same_sink(k1, k2),
        (IrInst::Label(l1), IrInst::Label(l2)) => l1 == l2,
        (IrInst::Phi { dst: d1, incoming: i1 }, IrInst::Phi { dst: d2, incoming: i2 }) => d1 == d2 && i1@
            == i2@,
        _ => false,
    }
}

/// The single value an instruction produces, if any (a call's first result).
pub open spec fn inst_def_var(i: IrInst) -> Option<IrVar> {
    match i {
        IrInst::LoadConst { dst, .. } => Some(dst),
        IrInst::LoadNil { dst } => Some(dst),
        IrInst::Move { dst, .. } => Some(dst),
        IrInst::BinOp { dst, .. } => Some(dst),
        IrInst::UnOp { dst, .. } => Some(dst),
        IrInst::NewTable { dst } => Some(dst),
        IrInst::GetTable { dst, .. } => Some(dst),
        IrInst::GetImport { dst, .. } => Some(dst),
        IrInst::GetGlobal { dst, .. } => Some(dst),
        IrInst::GetUpval { dst, .. } => Some(dst),
        IrInst::Closure { dst, .. } => Some(dst),
        IrInst::Vararg { dst, .. } => Some(dst),
        IrInst::Phi { dst, .. } => Some(dst),
        IrInst::Call { dsts, .. } => if dsts@.len() > 0 {
            Some(dsts@[0])
        } else {
            None
        },
        _ => None,
    }
}

/// Every variable an instruction writes: a `for` loop also writes its
/// control and loop variables, a call all its result variables.
pub open spec fn inst_def_vars(i: IrInst) -> Seq<IrVar> {
    match i {
        IrInst::ForPrep { base, limit, step, loop_var, .. } => seq![base, limit, step, loop_var],
        IrInst::ForLoop { base, .. } => seq![base],
        IrInst::TForLoop { base, .. } => seq![base],
        IrInst::TForCall { base, state, ctrl, vars } => seq![base, state, ctrl] + vars@,
        IrInst::Call { dsts, .. } => dsts@,
        IrInst::Spread { sink: SpreadSink::Call { dsts, .. }, .. } => dsts@,
        _ => match inst_def_var(i) {
            Some(v) => seq![v],
            None => Seq::empty(),
        },
    }
}

/// The captured variables, leaving out the upvalues of the parent.
pub open spec fn flatten_captures(s: Seq<Option<IrVar>>) -> Seq<IrVar>
    decreases s.len(),
{
    if s.len() == 0 {
        Seq::empty()
    } else {
        flatten_captures(s.drop_last()) + match s.last() {
            Some(v) => seq![v],
            None => Seq::empty(),
        }
    }
}

/// The incoming variables of a phi, in order.
pub open spec fn phi_uses(s: Seq<(IrLabel, IrVar)>) -> Seq<IrVar>
    decreases s.len(),
{
    if s.len() == 0 {
        Seq::empty()
    } else {
        phi_uses(s.drop_last()).push(s.last().1)
    }
}

/// Every variable an instruction reads, in order.
pub open spec fn inst_use_vars(i: IrInst) -> Seq<IrVar> {
    match i {
        IrInst::Move { src, .. } => seq![src],
        IrInst::UnOp { src, .. } => seq![src],
        IrInst::AppendArray { table, src } => seq![table, src],
        IrInst::BinOp { lhs, rhs, .. } => seq![lhs, rhs],
        IrInst::GetTable { table, key, .. } => seq![table, key],
        IrInst::SetTable { table, key, val } => seq![table, key, val],
        IrInst::SetGlobal { src, .. } => seq![src],
        IrInst::SetUpval { src, .. } => seq![src],
        IrInst::Call { callee, args, .. } => seq![callee] + args@,
        IrInst::Return(vars) => vars@,
        IrInst::JumpIfFalse { cond, .. } => seq![cond],
        IrInst::ForPrep { base, limit, step, .. } => seq![base, limit, step],
        IrInst::ForLoop { base, .. } => seq![base],
        IrInst::TForLoop { base, .. } => seq![base],
        IrInst::TForCall { base, state, ctrl, .. } => seq![base, state, ctrl],
        IrInst::Closure { captures, .. } => flatten_captures(captures@),
        IrInst::Spread { source, sink } => spread_uses(source) + match sink {
            SpreadSink::Call { callee, fixed_args, .. } => seq![callee] + fixed_args@,
            SpreadSink::List { table } => seq![table],
            SpreadSink::Return => Seq::empty(),
        },
        IrInst::Phi { incoming, .. } => phi_uses(incoming@),
        _ => Seq::empty(),
    }
}

/// Whether an instruction ends a basic block.
pub open spec fn inst_is_terminator(i: IrInst) -> bool {
    match i {
        IrInst::Return(_) => true,
        IrInst::Spread { sink: SpreadSink::Return, .. } => true,
        IrInst::Jump(_) => true,
        IrInst::JumpIfFalse { .. } => true,
        IrInst::ForPrep { .. } => true,
        IrInst::ForLoop { .. } => true,
        IrInst::TForLoop { .. } => true,
        _ => false,
    }
}

/// The labels an instruction may jump to.
pub open spec fn inst_jump_targets(i: IrInst) -> Seq<IrLabel> {
    match i {
        IrInst::Jump(l) => seq![l],
        IrInst::JumpIfFalse { target, .. } => seq![target],
        IrInst::ForPrep { jump, .. } => seq![jump],
        IrInst::ForLoop { jump, .. } => seq![jump],
        IrInst::TForLoop { jump, .. } => seq![jump],
        _ => Seq::empty(),
    }
}

proof fn lemma_same_source_uses(a: SpreadSource, b: SpreadSource)
    requires
        same_source(a, b),
    ensures
        spread_uses(a) == spread_uses(b),
    decreases a,
{
    match (a, b) {
        (SpreadSource::Call { trailing: Some(i1), .. }, SpreadSource::Call { trailing: Some(i2), .. }) => {
            lemma_same_source_uses(*i1, *i2);
        },
        _ => {},
    }
}

/// Every producer is the same as itself.
pub proof fn lemma_same_source_refl(s: SpreadSource)
    ensures
        same_source(s, s),
    decreases s,
{
    match s {
        SpreadSource::Call { trailing, .. } => {
            match trailing {
                Some(inner) => lemma_same_source_refl(*inner),
                None => {},
            }
        },
        SpreadSource::Vararg => {},
    }
}

/// Every instruction is the same as itself.
pub proof fn lemma_same_inst_refl(i: IrInst)
    ensures
        same_inst(i, i),
{
    match i {
        IrInst::Spread { source, .. } => lemma_same_source_refl(source),
        _ => {},
    }
}

/// Instructions that are the same field by field read, write and jump alike.
pub proof fn lemma_same_inst_alike(a: IrInst, b: IrInst)
    requires
        same_inst(a, b),
    ensures
        inst_def_var(a) == inst_def_var(b),
        inst_def_vars(a) == inst_def_vars(b),
        inst_use_vars(a) == inst_use_vars(b),
        inst_is_terminator(a) == inst_is_terminator(b),
        inst_jump_targets(a) == inst_jump_targets(b),
{
    match (a, b) {
        (IrInst::Spread { source: s1, .. }, IrInst::Spread { source: s2, .. }) => {
            lemma_same_source_uses(s1, s2);
        },
        _ => {},
    }
}

/// A copy of an instruction.
pub fn clone_inst(i: &IrInst) -> (r: IrInst)
    ensures
        same_inst(r, *i),
{
    match i {
        IrInst::LoadConst { dst, val } => IrInst::LoadConst { dst: *dst, val: clone_constant(val) },
        IrInst::LoadNil { dst } => IrInst::LoadNil { dst: *dst },
        IrInst::Move { dst, src } => IrInst::Move { dst: *dst, src: *src },
        IrInst::BinOp { dst, op, lhs, rhs } => IrInst::BinOp { dst: *dst, op: *op, lhs: *lhs, rhs: *rhs },
        IrInst::UnOp { dst, op, src } => IrInst::UnOp { dst: *dst, op: *op, src: *src },
        IrInst::NewTable { dst } => IrInst::NewTable { dst: *dst },
        IrInst::GetTable { dst, table, key } => IrInst::GetTable { dst: *dst, table: *table, key: *key },
        IrInst::GetImport { dst, module, field } => IrInst::GetImport {
            dst: *dst,
            module: module.clone(),
            field: field.clone(),
        },
        IrInst::SetTable { table, key, val } => IrInst::SetTable { table: *table, key: *key, val: *val },
        IrInst::AppendArray { table, src } => IrInst::AppendArray { table: *table, src: *src },
        IrInst::GetGlobal { dst, name } => IrInst::GetGlobal { dst: *dst, name: name.clone() },
        IrInst::SetGlobal { name, src } => IrInst::SetGlobal { name: name.clone(), src: *src },
        IrInst::GetUpval { dst, index } => IrInst::GetUpval { dst: *dst, index: *index },
        IrInst::SetUpval { index, src } => IrInst::SetUpval { index: *index, src: *src },
        IrInst::Call { dsts, callee, args, retc } => IrInst::Call {
            dsts: copy_vars(dsts),
            callee: *callee,
            args: copy_vars(args),
            retc: *retc,
        },
        IrInst::Return(vars) => IrInst::Return(copy_vars(vars)),
        IrInst::Closure { dst, proto_idx, captures } => {
            let mut c: Vec<Option<IrVar>> = Vec::new();
            let mut k: usize = 0;
            while k < captures.len()
                invariant
                    k <= captures@.len(),
                    c@ == captures@.take(k as int),
                decreases captures@.len() - k,
            {
                c.push(captures[k]);
                assert(captures@.take(k + 1) == captures@.take(k as int).push(captures@[k as int]));
                k = k + 1;
            }
            assert(captures@.take(captures@.len() as int) == captures@);
            IrInst::Closure { dst: *dst, proto_idx: *proto_idx, captures: c }
        },
        IrInst::Vararg { dst, count } => IrInst::Vararg { dst: *dst, count: *count },
        IrInst::ForPrep { base, limit, step, loop_var, jump } => IrInst::ForPrep {
            base: *base,
            limit: *limit,
            step: *step,
            loop_var: *loop_var,
            jump: *jump,
        },
        IrInst::ForLoop { base, jump } => IrInst::ForLoop { base: *base, jump: *jump },
        IrInst::TForCall { base, state, ctrl, vars } => IrInst::TForCall {
            base: *base,
            state: *state,
            ctrl: *ctrl,
            vars: copy_vars(vars),
        },
        IrInst::TForLoop { base, jump } => IrInst::TForLoop { base: *base, jump: *jump },
        IrInst::Jump(l) => IrInst::Jump(*l),
        IrInst::JumpIfFalse { cond, target } => IrInst::JumpIfFalse { cond: *cond, target: *target },
        IrInst::Spread { source, sink } => IrInst::Spread {
            source: clone_source(source),
            sink: clone_sink(sink),
        },
        IrInst::Label(l) => IrInst::Label(*l),
        IrInst::Phi { dst, incoming } => {
            let mut c: Vec<(IrLabel, IrVar)> = Vec::new();
            let mut k: usize = 0;
            while k < incoming.len()
                invariant
                    k <= incoming@.len(),
                    c@ == incoming@.take(k as int),
                decreases incoming@.len() - k,
            {
                c.push(incoming[k]);
                assert(incoming@.take(k + 1) == incoming@.take(k as int).push(incoming@[k as int]));
                k = k + 1;
            }
            assert(incoming@.take(incoming@.len() as int) == incoming@);
            IrInst::Phi { dst: *dst, incoming: c }
        },
    }
}

impl IrInst {
    /// The single value this instruction produces, if any.
    pub fn def_var(&self) -> (r: Option<IrVar>)
        ensures
            r == inst_def_var(*self),
    {
        match self {
            IrInst::LoadConst { dst, .. } | IrInst::LoadNil { dst } | IrInst::Move { dst, .. }
            | IrInst::BinOp { dst, .. } | IrInst::UnOp { dst, .. } | IrInst::NewTable { dst }
            | IrInst::GetTable { dst, .. } | IrInst::GetImport { dst, .. } | IrInst::GetGlobal {
                dst,
                ..
            } | IrInst::GetUpval { dst, .. } | IrInst::Closure { dst, .. } | IrInst::Vararg {
                dst,
                ..
            } | IrInst::Phi { dst, .. } => Some(*dst),
            IrInst::Call { dsts, .. } => {
                if dsts.len() > 0 {
                    Some(dsts[0])
                } else {
                    None
                }
            },
            _ => None,
        }
    }

    /// Every variable this instruction writes.
    pub fn def_vars(&self) -> (r: Vec<IrVar>)
        ensures
            r@ == inst_def_vars(*self),
    {
        match self {
            IrInst::ForPrep { base, limit, step, loop_var, .. } => {
                let r = vec![*base, *limit, *step, *loop_var];
                assert(r@ == seq![*base, *limit, *step, *loop_var]);
                r
            },
            IrInst::ForLoop { base, .. } | IrInst::TForLoop { base, .. } => {
                let r = vec![*base];
                assert(r@ == seq![*base]);
                r
            },
            IrInst::TForCall { base, state, ctrl, vars } => {
                let mut r = vec![*base, *state, *ctrl];
                assert(r@ == seq![*base, *state, *ctrl]);
                push_vars(&mut r, vars);
                r
            },
            IrInst::Call { dsts, .. } => copy_vars(dsts),
            IrInst::Spread { sink: SpreadSink::Call { dsts, .. }, .. } => copy_vars(dsts),
            _ => {
                let mut r: Vec<IrVar> = Vec::new();
                match self.def_var() {
                    Some(v) => {
                        r.push(v);
                        assert(r@ == seq![v]);
                    },
                    None => {
                        assert(r@ == Seq::<IrVar>::empty());
                    },
                }
                r
            },
        }
    }

    /// Every variable this instruction reads, in order.
    pub fn use_vars(&self) -> (r: Vec<IrVar>)
        ensures
            r@ == inst_use_vars(*self),
    {
        let mut r: Vec<IrVar> = Vec::new();
        match self {
            IrInst::Move { src, .. } | IrInst::UnOp { src, .. } | IrInst::SetGlobal { src, .. }
            | IrInst::SetUpval { src, .. } => {
                r.push(*src);
            },
            IrInst::AppendArray { table, src } => {
                r.push(*table);
                r.push(*src);
            },
            IrInst::BinOp { lhs, rhs, .. } => {
                r.push(*lhs);
                r.push(*rhs);
            },
            IrInst::GetTable { table, key, .. } => {
                r.push(*table);
                r.push(*key);
            },
            IrInst::SetTable { table, key, val } => {
                r.push(*table);
                r.push(*key);
                r.push(*val);
            },
            IrInst::Call { callee, args, .. } => {
                r.push(*callee);
                push_vars(&mut r, args);
            },
            IrInst::Return(vars) => {
                push_vars(&mut r, vars);
            },
            IrInst::JumpIfFalse { cond, .. } => {
                r.push(*cond);
            },
            IrInst::ForPrep { base, limit, step, .. } => {
                r.push(*base);
                r.push(*limit);
                r.push(*step);
            },
            IrInst::ForLoop { base, .. } | IrInst::TForLoop { base, .. } => {
                r.push(*base);
            },
            IrInst::TForCall { base, state, ctrl, .. } => {
                r.push(*base);
                r.push(*state);
                r.push(*ctrl);
            },
            IrInst::Closure { captures, .. } => {
                let mut k: usize = 0;
                while k < captures.len()
                    invariant
                        k <= captures@.len(),
                        r@ == flatten_captures(captures@.take(k as int)),
                    decreases captures@.len() - k,
                {
                    assert(captures@.take(k + 1).drop_last() == captures@.take(k as int));
                    assert(captures@.take(k + 1).last() == captures@[k as int]);
                    match captures[k] {
                        Some(v) => {
                            r.push(v);
                        },
                        None => {},
                    }
                    assert(r@ == flatten_captures(captures@.take(k + 1)));
                    k = k + 1;
                }
                assert(captures@.take(captures@.len() as int) == captures@);
            },
            IrInst::Spread { source, sink } => {
                let su = source.use_vars();
                push_vars(&mut r, &su);
                match sink {
                    SpreadSink::Call { callee, fixed_args, .. } => {
                        r.push(*callee);
                        push_vars(&mut r, fixed_args);
                    },
                    SpreadSink::List { table } => {
                        r.push(*table);
                    },
                    SpreadSink::Return => {},
                }
            },
            IrInst::Phi { incoming, .. } => {
                let mut k: usize = 0;
                while k < incoming.len()
                    invariant
                        k <= incoming@.len(),
                        r@ == phi_uses(incoming@.take(k as int)),
                    decreases incoming@.len() - k,
                {
                    assert(incoming@.take(k + 1).drop_last() == incoming@.take(k as int));
                    r.push(incoming[k].1);
                    k = k + 1;
                }
                assert(incoming@.take(incoming@.len() as int) == incoming@);
            },
            _ => {},
        }
        assert(r@ =~= inst_use_vars(*self));
        r
    }

    /// Whether this instruction ends a basic block.
    pub fn is_terminator(&self) -> (r: bool)
        ensures
            r == inst_is_terminator(*self),
    {
        match self {
            IrInst::Return(_) | IrInst::Jump(_) | IrInst::JumpIfFalse { .. } | IrInst::ForPrep { .. }
            | IrInst::ForLoop { .. } | IrInst::TForLoop { .. } => true,
            IrInst::Spread { sink: SpreadSink::Return, .. } => true,
            _ => false,
        }
    }

    /// The labels this instruction may jump to.
    pub fn jump_targets(&self) -> (r: Vec<IrLabel>)
        ensures
            r@ == inst_jump_targets(*self),
    {
        let mut r: Vec<IrLabel> = Vec::new();
        match self {
            IrInst::Jump(l) => {
                r.push(*l);
            },
            IrInst::JumpIfFalse { target, .. } => {
                r.push(*target);
            },
            IrInst::ForPrep { jump, .. } | IrInst::ForLoop { jump, .. } | IrInst::TForLoop { jump, .. } => {
                r.push(*jump);
            },
            _ => {},
        }
        assert(r@ =~= inst_jump_targets(*self));
        r
    }
}

} // verus!
