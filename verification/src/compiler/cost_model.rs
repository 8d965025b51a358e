//! Estimated execution costs of instructions, prototypes and statement trees,
//! used to decide whether a function is worth inlining.
use vstd::prelude::*;

use crate::bytecode::{Instruction, Proto};
use crate::compiler::ir::block::IrFunction;
use crate::compiler::ir::inst::IrInst;
use crate::parser::{Expr, Stmt};

verus! {

/// The weight of each kind of work.
#[derive(Clone, Copy, Debug, PartialEq, Eq, Structural)]
pub struct CostModel {
    pub const_load_cost: u32,
    pub register_move_cost: u32,
    pub arithmetic_cost: u32,
    pub bitwise_cost: u32,
    pub table_access_cost: u32,
    pub branch_cost: u32,
    pub call_cost: u32,
    pub closure_alloc_cost: u32,
}

impl Default for CostModel {
    fn default() -> (r: Self)
        ensures
            r == (CostModel {
                const_load_cost: 1,
                register_move_cost: 1,
                arithmetic_cost: 2,
                bitwise_cost: 2,
                table_access_cost: 4,
                branch_cost: 3,
                call_cost: 8,
                closure_alloc_cost: 12,
            }),
    {
        CostModel {
            const_load_cost: 1,
            register_move_cost: 1,
            arithmetic_cost: 2,
            bitwise_cost: 2,
            table_access_cost: 4,
            branch_cost: 3,
            call_cost: 8,
            closure_alloc_cost: 12,
        }
    }
}

/// `a + b`, held at `u32::MAX`.
pub open spec fn sat(a: int, b: int) -> int {
    if a + b > u32::MAX {
        u32::MAX as int
    } else {
        a + b
    }
}

/// The cost of one instruction under model `m`.
pub open spec fn inst_cost(m: CostModel, inst: Instruction) -> u32 {
    match inst {
        Instruction::LoadNil { .. } | Instruction::LoadBool { .. } | Instruction::LoadInt { .. }
        | Instruction::LoadK { .. } => m.const_load_cost,
        Instruction::Move { .. } => m.register_move_cost,
        Instruction::Add { .. } | Instruction::Sub { .. } | Instruction::Mul { .. }
        | Instruction::Div { .. } | Instruction::IDiv { .. } | Instruction::Mod { .. }
        | Instruction::Pow { .. } | Instruction::Unm { .. } => m.arithmetic_cost,
        Instruction::BitAnd { .. } | Instruction::BitOr { .. } | Instruction::BitXor { .. }
        | Instruction::Shl { .. } | Instruction::Shr { .. } | Instruction::LShl { .. }
        | Instruction::LShr { .. } | Instruction::BitNot { .. } => m.bitwise_cost,
        Instruction::NewTable { .. } => m.closure_alloc_cost,
        Instruction::GetTable { .. } | Instruction::SetTable { .. } | Instruction::GetTableK { .. }
        | Instruction::SetTableK { .. } | Instruction::AppendArray { .. }
        | Instruction::SetList { .. } => m.table_access_cost,
        Instruction::Eq { .. } | Instruction::Ne { .. } | Instruction::Lt { .. }
        | Instruction::Le { .. } | Instruction::Gt { .. } | Instruction::Ge { .. }
        | Instruction::Test { .. } | Instruction::Jump { .. } | Instruction::ForPrep { .. }
        | Instruction::ForLoop { .. } | Instruction::TForCall { .. }
        | Instruction::TForLoop { .. } => m.branch_cost,
        Instruction::Call { .. } => m.call_cost,
        Instruction::Return { .. } => m.branch_cost,
        Instruction::Closure { .. } => m.closure_alloc_cost,
        Instruction::Vararg { .. } => m.register_move_cost,
        Instruction::GetGlobal { .. } | Instruction::SetGlobal { .. } => m.table_access_cost,
        Instruction::GetImport { .. } => m.table_access_cost,
        Instruction::GetUpval { .. } | Instruction::SetUpval { .. } => m.register_move_cost,
        Instruction::Concat { .. } | Instruction::Not { .. } | Instruction::Len { .. }
        | Instruction::Coalesce { .. } => m.arithmetic_cost,
    }
}

/// The held sum of the costs of the first `k` instructions, starting from
/// `acc`.
pub open spec fn insts_cost(m: CostModel, insts: Seq<Instruction>, k: int) -> int
    decreases k,
{
    if k <= 0 {
        0
    } else {
        sat(insts_cost(m, insts, k - 1), inst_cost(m, insts[k - 1]) as int)
    }
}

/// The cost of a prototype: its instructions, then its nested prototypes,
/// added with the total held at `u32::MAX`.
pub open spec fn proto_cost_spec(m: CostModel, p: Proto) -> int
    decreases p,
{
    protos_cost(m, p.protos@, p.protos@.len() as int, insts_cost(
        m,
        p.instructions@,
        p.instructions@.len() as int,
    ))
}

pub open spec fn protos_cost(m: CostModel, ps: Seq<Proto>, k: int, base: int) -> int
    decreases ps, k,
{
    if k <= 0 || k > ps.len() {
        base
    } else {
        sat(protos_cost(m, ps, k - 1, base), proto_cost_spec(m, ps[k - 1]))
    }
}

proof fn lemma_insts_cost_bound(m: CostModel, insts: Seq<Instruction>, k: int)
    ensures
        0 <= insts_cost(m, insts, k) <= u32::MAX,
    decreases k,
{
    if k > 0 {
        lemma_insts_cost_bound(m, insts, k - 1);
    }
}

proof fn lemma_proto_cost_bound(m: CostModel, p: Proto)
    ensures
        0 <= proto_cost_spec(m, p) <= u32::MAX,
    decreases p, p.protos@.len() + 1,
{
    lemma_nested_cost_bound(m, p, p.protos@.len() as int);
}

proof fn lemma_nested_cost_bound(m: CostModel, p: Proto, k: int)
    requires
        0 <= k <= p.protos@.len(),
    ensures
        0 <= protos_cost(
            m,
            p.protos@,
            k,
            insts_cost(m, p.instructions@, p.instructions@.len() as int),
        ) <= u32::MAX,
    decreases p, k,
{
    lemma_insts_cost_bound(m, p.instructions@, p.instructions@.len() as int);
    if k > 0 {
        lemma_nested_cost_bound(m, p, k - 1);
        assert(decreases_to!(p => p.protos@[k - 1]));
        lemma_proto_cost_bound(m, p.protos@[k - 1]);
    }
}

/// `x` held at `u32::MAX`.
pub open spec fn capped(x: int) -> int {
    if x > u32::MAX {
        u32::MAX as int
    } else {
        x
    }
}

/// The plain sum of the costs of the first `k` instructions.
pub open spec fn raw_insts_cost(m: CostModel, insts: Seq<Instruction>, k: int) -> int
    decreases k,
{
    if k <= 0 {
        0
    } else {
        raw_insts_cost(m, insts, k - 1) + inst_cost(m, insts[k - 1]) as int
    }
}

/// The plain sum of the costs of a prototype's instructions and of every
/// prototype nested in it, at any depth.
pub open spec fn raw_proto_cost(m: CostModel, p: Proto) -> int
    decreases p,
{
    raw_protos_cost(m, p.protos@, p.protos@.len() as int, raw_insts_cost(
        m,
        p.instructions@,
        p.instructions@.len() as int,
    ))
}

/// `base` plus the plain costs of the first `k` prototypes of `ps`.
pub open spec fn raw_protos_cost(m: CostModel, ps: Seq<Proto>, k: int, base: int) -> int
    decreases ps, k,
{
    if k <= 0 || k > ps.len() {
        base
    } else {
        raw_protos_cost(m, ps, k - 1, base) + raw_proto_cost(m, ps[k - 1])
    }
}

proof fn lemma_insts_capped(m: CostModel, insts: Seq<Instruction>, k: int)
    ensures
        raw_insts_cost(m, insts, k) >= 0,
        insts_cost(m, insts, k) == capped(raw_insts_cost(m, insts, k)),
    decreases k,
{
    if k > 0 {
        lemma_insts_capped(m, insts, k - 1);
    }
}

proof fn lemma_nested_capped(m: CostModel, p: Proto, k: int)
    requires
        0 <= k <= p.protos@.len(),
    ensures
        raw_protos_cost(m, p.protos@, k, raw_insts_cost(m, p.instructions@, p.instructions@.len() as int))
            >= 0,
        protos_cost(m, p.protos@, k, insts_cost(m, p.instructions@, p.instructions@.len() as int))
            == capped(
            raw_protos_cost(m, p.protos@, k, raw_insts_cost(m, p.instructions@, p.instructions@.len() as int)),
        ),
    decreases p, k,
{
    lemma_insts_capped(m, p.instructions@, p.instructions@.len() as int);
    if k > 0 {
        lemma_nested_capped(m, p, k - 1);
        assert(decreases_to!(p => p.protos@[k - 1]));
        lemma_proto_cost_capped(m, p.protos@[k - 1]);
    }
}

/// A prototype's cost (what `CostModel::proto_cost` returns) is the plain
/// sum of the costs of all its instructions and those of every prototype
/// nested in it, held at `u32::MAX`: adding with saturation at each step
/// loses nothing below the limit.
pub proof fn lemma_proto_cost_capped(m: CostModel, p: Proto)
    ensures
        raw_proto_cost(m, p) >= 0,
        proto_cost_spec(m, p) == capped(raw_proto_cost(m, p)),
    decreases p, p.protos@.len() + 1,
{
    lemma_nested_capped(m, p, p.protos@.len() as int);
}

/// The threshold under which a leaf function is worth inlining.
pub open spec fn inline_profitable(m: CostModel, p: Proto) -> bool {
    &&& p.protos@.len() == 0
    &&& !p.is_vararg
    &&& p.max_registers <= 8
    &&& proto_cost_spec(m, p) <= 40
}

/// The cost of an expression; the sums over lists of expressions are held at
/// `u32::MAX`.
pub open spec fn expr_cost_spec(m: CostModel, e: Expr) -> int
    decreases e,
{
    match e {
        Expr::Literal(_) | Expr::Variable(_) | Expr::Vararg | Expr::Str(_) => m.const_load_cost as int,
        Expr::Binary { left, right, .. } => expr_cost_spec(m, *left) + expr_cost_spec(m, *right)
            + m.arithmetic_cost,
        Expr::Unary { expr, .. } => expr_cost_spec(m, *expr) + m.arithmetic_cost,
        Expr::Call { callee, args } => exprs_cost(
            m,
            args@,
            args@.len() as int,
            expr_cost_spec(m, *callee) + m.call_cost,
        ),
        Expr::MethodCall { object, args, .. } => exprs_cost(
            m,
            args@,
            args@.len() as int,
            expr_cost_spec(m, *object) + m.call_cost + m.table_access_cost,
        ),
        Expr::Member { object, .. } => expr_cost_spec(m, *object) + m.table_access_cost,
        Expr::Index { object, index } => expr_cost_spec(m, *object) + expr_cost_spec(m, *index)
            + m.table_access_cost,
        Expr::Table(entries) => entries_cost(
            m,
            entries@,
            entries@.len() as int,
            m.closure_alloc_cost as int,
        ),
        Expr::Function { body, .. } => stmts_cost(
            m,
            body@,
            body@.len() as int,
            m.closure_alloc_cost as int,
        ),
        Expr::Interp(_) => 3,
    }
}

/// `base` plus the costs of the first `k` expressions, held at `u32::MAX`.
pub open spec fn exprs_cost(m: CostModel, es: Seq<Expr>, k: int, base: int) -> int
    decreases es, k,
{
    if k <= 0 || k > es.len() {
        base
    } else {
        sat(exprs_cost(m, es, k - 1, base), expr_cost_spec(m, es[k - 1]))
    }
}

pub open spec fn entries_cost(
    m: CostModel,
    es: Seq<crate::parser::TableEntry>,
    k: int,
    base: int,
) -> int
    decreases es, k,
{
    if k <= 0 || k > es.len() {
        base
    } else {
        sat(entries_cost(m, es, k - 1, base), expr_cost_spec(m, es[k - 1].value))
    }
}

/// `base` plus the costs of the first `k` statements, held at `u32::MAX`.
pub open spec fn stmts_cost(m: CostModel, ss: Seq<Stmt>, k: int, base: int) -> int
    decreases ss, k,
{
    if k <= 0 || k > ss.len() {
        base
    } else {
        sat(stmts_cost(m, ss, k - 1, base), stmt_cost_spec(m, ss[k - 1]))
    }
}

pub open spec fn branches_cost(
    m: CostModel,
    bs: Seq<(Expr, Vec<Stmt>)>,
    k: int,
    base: int,
) -> int
    decreases bs, k,
{
    if k <= 0 || k > bs.len() {
        base
    } else {
        let before = branches_cost(m, bs, k - 1, base);
        let with_cond = sat(before, expr_cost_spec(m, bs[k - 1].0) + m.branch_cost);
        stmts_cost(m, bs[k - 1].1@, bs[k - 1].1@.len() as int, with_cond)
    }
}

/// The cost of a statement.
pub open spec fn stmt_cost_spec(m: CostModel, s: Stmt) -> int
    decreases s,
{
    match s {
        Stmt::Local { initializer, .. } => match initializer {
            Some(e) => expr_cost_spec(m, e) + 1,
            None => 1,
        },
        Stmt::Assign { value, .. } => expr_cost_spec(m, value) + 1,
        Stmt::AssignMany { targets, values } => ((targets@.len() + values@.len()) as u32 as int) * 2,
        Stmt::Increment { .. } => 2,
        Stmt::Expr(e) => expr_cost_spec(m, e),
        Stmt::If { condition, then_branch, else_if_branches, else_branch } => {
            let c0 = expr_cost_spec(m, condition) + m.branch_cost;
            let c1 = stmts_cost(m, then_branch@, then_branch@.len() as int, c0);
            let c2 = branches_cost(m, else_if_branches@, else_if_branches@.len() as int, c1);
            match else_branch {
                Some(eb) => stmts_cost(m, eb@, eb@.len() as int, c2),
                None => c2,
            }
        },
        Stmt::While { condition, body } => stmts_cost(
            m,
            body@,
            body@.len() as int,
            expr_cost_spec(m, condition) + m.branch_cost * 2,
        ) * 3,
        Stmt::Repeat { body, condition } => stmts_cost(
            m,
            body@,
            body@.len() as int,
            expr_cost_spec(m, condition) + m.branch_cost,
        ) * 3,
        Stmt::NumericFor { body, .. } => stmts_cost(
            m,
            body@,
            body@.len() as int,
            m.branch_cost * 2,
        ) * 4,
        Stmt::For { body, .. } => stmts_cost(m, body@, body@.len() as int, m.branch_cost * 2) * 4,
        Stmt::Function { body, .. } => stmts_cost(
            m,
            body@,
            body@.len() as int,
            m.closure_alloc_cost as int,
        ),
        Stmt::Return(values) => exprs_cost(m, values@, values@.len() as int, m.branch_cost as int),
        Stmt::Break | Stmt::Continue => m.branch_cost as int,
        Stmt::LocalMany { initializers, .. } => exprs_cost(
            m,
            initializers@,
            initializers@.len() as int,
            2,
        ),
    }
}

/// Whether no addition or multiplication in the cost of `e` goes past
/// `u32::MAX` (the cost of every subtree fits).
pub open spec fn expr_ok(m: CostModel, e: Expr) -> bool
    decreases e,
{
    &&& expr_cost_spec(m, e) <= u32::MAX
    &&& match e {
        Expr::Binary { left, right, .. } => expr_ok(m, *left) && expr_ok(m, *right),
        Expr::Unary { expr, .. } => expr_ok(m, *expr),
        Expr::Call { callee, args } => {
            &&& expr_ok(m, *callee)
            &&& exprs_ok(m, args@, args@.len() as int)
            &&& expr_cost_spec(m, *callee) + m.call_cost <= u32::MAX
        },
        Expr::MethodCall { object, args, .. } => {
            &&& expr_ok(m, *object)
            &&& exprs_ok(m, args@, args@.len() as int)
            &&& expr_cost_spec(m, *object) + m.call_cost + m.table_access_cost <= u32::MAX
        },
        Expr::Member { object, .. } => expr_ok(m, *object),
        Expr::Index { object, index } => expr_ok(m, *object) && expr_ok(m, *index),
        Expr::Table(entries) => entries_ok(m, entries@, entries@.len() as int),
        Expr::Function { body, .. } => stmts_ok(m, body@, body@.len() as int),
        _ => true,
    }
}

pub open spec fn exprs_ok(m: CostModel, es: Seq<Expr>, k: int) -> bool
    decreases es, k,
{
    if k <= 0 || k > es.len() {
        true
    } else {
        exprs_ok(m, es, k - 1) && expr_ok(m, es[k - 1])
    }
}

pub open spec fn entries_ok(m: CostModel, es: Seq<crate::parser::TableEntry>, k: int) -> bool
    decreases es, k,
{
    if k <= 0 || k > es.len() {
        true
    } else {
        entries_ok(m, es, k - 1) && expr_ok(m, es[k - 1].value)
    }
}

pub open spec fn stmts_ok(m: CostModel, ss: Seq<Stmt>, k: int) -> bool
    decreases ss, k,
{
    if k <= 0 || k > ss.len() {
        true
    } else {
        stmts_ok(m, ss, k - 1) && stmt_ok(m, ss[k - 1])
    }
}

pub open spec fn branches_ok(m: CostModel, bs: Seq<(Expr, Vec<Stmt>)>, k: int) -> bool
    decreases bs, k,
{
    if k <= 0 || k > bs.len() {
        true
    } else {
        &&& branches_ok(m, bs, k - 1)
        &&& expr_ok(m, bs[k - 1].0)
        &&& expr_cost_spec(m, bs[k - 1].0) + m.branch_cost <= u32::MAX
        &&& stmts_ok(m, bs[k - 1].1@, bs[k - 1].1@.len() as int)
    }
}

/// Whether no addition or multiplication in the cost of `s` goes past
/// `u32::MAX`.
pub open spec fn stmt_ok(m: CostModel, s: Stmt) -> bool
    decreases s,
{
    &&& stmt_cost_spec(m, s) <= u32::MAX
    &&& match s {
        Stmt::Local { initializer, .. } => match initializer {
            Some(e) => expr_ok(m, e),
            None => true,
        },
        Stmt::Assign { value, .. } => expr_ok(m, value),
        Stmt::Expr(e) => expr_ok(m, e),
        Stmt::If { condition, then_branch, else_if_branches, else_branch } => {
            &&& expr_ok(m, condition)
            &&& expr_cost_spec(m, condition) + m.branch_cost <= u32::MAX
            &&& stmts_ok(m, then_branch@, then_branch@.len() as int)
            &&& branches_ok(m, else_if_branches@, else_if_branches@.len() as int)
            &&& match else_branch {
                Some(eb) => stmts_ok(m, eb@, eb@.len() as int),
                None => true,
            }
        },
        Stmt::While { condition, body } => {
            &&& expr_ok(m, condition)
            &&& expr_cost_spec(m, condition) + m.branch_cost * 2 <= u32::MAX
            &&& stmts_ok(m, body@, body@.len() as int)
        },
        Stmt::Repeat { body, condition } => {
            &&& expr_ok(m, condition)
            &&& expr_cost_spec(m, condition) + m.branch_cost <= u32::MAX
            &&& stmts_ok(m, body@, body@.len() as int)
        },
        Stmt::NumericFor { body, .. } => m.branch_cost * 2 <= u32::MAX && stmts_ok(
            m,
            body@,
            body@.len() as int,
        ),
        Stmt::For { body, .. } => m.branch_cost * 2 <= u32::MAX && stmts_ok(
            m,
            body@,
            body@.len() as int,
        ),
        Stmt::Function { body, .. } => stmts_ok(m, body@, body@.len() as int),
        Stmt::Return(values) => exprs_ok(m, values@, values@.len() as int),
        Stmt::LocalMany { initializers, .. } => exprs_ok(
            m,
            initializers@,
            initializers@.len() as int,
        ),
        _ => true,
    }
}

proof fn lemma_expr_nonneg(m: CostModel, e: Expr)
    ensures
        expr_cost_spec(m, e) >= 0,
    decreases e, 1nat,
{
    match e {
        Expr::Binary { left, right, .. } => {
            lemma_expr_nonneg(m, *left);
            lemma_expr_nonneg(m, *right);
        },
        Expr::Unary { expr, .. } => {
            lemma_expr_nonneg(m, *expr);
        },
        Expr::Call { callee, args } => {
            lemma_expr_nonneg(m, *callee);
            lemma_exprs_nonneg0(m, args@, args@.len() as int, expr_cost_spec(m, *callee) + m.call_cost);
        },
        Expr::MethodCall { object, args, .. } => {
            lemma_expr_nonneg(m, *object);
            lemma_exprs_nonneg0(
                m,
                args@,
                args@.len() as int,
                expr_cost_spec(m, *object) + m.call_cost + m.table_access_cost,
            );
        },
        Expr::Member { object, .. } => {
            lemma_expr_nonneg(m, *object);
        },
        Expr::Index { object, index } => {
            lemma_expr_nonneg(m, *object);
            lemma_expr_nonneg(m, *index);
        },
        Expr::Table(entries) => {
            lemma_entries_nonneg0(m, entries@, entries@.len() as int, m.closure_alloc_cost as int);
        },
        Expr::Function { body, .. } => {
            lemma_stmts_nonneg0(m, body@, body@.len() as int, m.closure_alloc_cost as int);
        },
        _ => {},
    }
}

proof fn lemma_exprs_nonneg0(m: CostModel, es: Seq<Expr>, k: int, base: int)
    requires
        base >= 0,
    ensures
        exprs_cost(m, es, k, base) >= 0,
    decreases es, k,
{
    if k > 0 && k <= es.len() {
        lemma_exprs_nonneg0(m, es, k - 1, base);
        lemma_expr_nonneg(m, es[k - 1]);
    }
}

proof fn lemma_entries_nonneg0(m: CostModel, es: Seq<crate::parser::TableEntry>, k: int, base: int)
    requires
        base >= 0,
    ensures
        entries_cost(m, es, k, base) >= 0,
    decreases es, k,
{
    if k > 0 && k <= es.len() {
        lemma_entries_nonneg0(m, es, k - 1, base);
        lemma_expr_nonneg(m, es[k - 1].value);
    }
}

proof fn lemma_stmts_nonneg0(m: CostModel, ss: Seq<Stmt>, k: int, base: int)
    requires
        base >= 0,
    ensures
        stmts_cost(m, ss, k, base) >= 0,
    decreases ss, k,
{
    if k > 0 && k <= ss.len() {
        lemma_stmts_nonneg0(m, ss, k - 1, base);
        lemma_stmt_nonneg(m, ss[k - 1]);
    }
}

proof fn lemma_branches_nonneg0(m: CostModel, bs: Seq<(Expr, Vec<Stmt>)>, k: int, base: int)
    requires
        base >= 0,
    ensures
        branches_cost(m, bs, k, base) >= 0,
    decreases bs, k,
{
    if k > 0 && k <= bs.len() {
        lemma_branches_nonneg0(m, bs, k - 1, base);
        lemma_expr_nonneg(m, bs[k - 1].0);
        let before = branches_cost(m, bs, k - 1, base);
        let with_cond = sat(before, expr_cost_spec(m, bs[k - 1].0) + m.branch_cost);
        lemma_stmts_nonneg0(m, bs[k - 1].1@, bs[k - 1].1@.len() as int, with_cond);
    }
}

proof fn lemma_exprs_bounds(m: CostModel, es: Seq<Expr>, k: int, base: int)
    requires
        0 <= base <= u32::MAX,
    ensures
        base <= exprs_cost(m, es, k, base) <= u32::MAX,
    decreases es, k,
{
    if k > 0 && k <= es.len() {
        lemma_exprs_bounds(m, es, k - 1, base);
        lemma_expr_nonneg(m, es[k - 1]);
    }
}

proof fn lemma_entries_bounds(m: CostModel, es: Seq<crate::parser::TableEntry>, k: int, base: int)
    requires
        0 <= base <= u32::MAX,
    ensures
        base <= entries_cost(m, es, k, base) <= u32::MAX,
    decreases es, k,
{
    if k > 0 && k <= es.len() {
        lemma_entries_bounds(m, es, k - 1, base);
        lemma_expr_nonneg(m, es[k - 1].value);
    }
}

proof fn lemma_stmts_bounds(m: CostModel, ss: Seq<Stmt>, k: int, base: int)
    requires
        0 <= base <= u32::MAX,
    ensures
        base <= stmts_cost(m, ss, k, base) <= u32::MAX,
    decreases ss, k,
{
    if k > 0 && k <= ss.len() {
        lemma_stmts_bounds(m, ss, k - 1, base);
        lemma_stmt_nonneg(m, ss[k - 1]);
    }
}

proof fn lemma_stmt_nonneg(m: CostModel, s: Stmt)
    ensures
        stmt_cost_spec(m, s) >= 0,
    decreases s, 1nat,
{
    match s {
        Stmt::Local { initializer, .. } => match initializer {
            Some(e) => lemma_expr_nonneg(m, e),
            None => {},
        },
        Stmt::Assign { value, .. } => lemma_expr_nonneg(m, value),
        Stmt::Expr(e) => lemma_expr_nonneg(m, e),
        Stmt::If { condition, then_branch, else_if_branches, else_branch } => {
            lemma_expr_nonneg(m, condition);
            let c0 = expr_cost_spec(m, condition) + m.branch_cost;
            lemma_stmts_nonneg0(m, then_branch@, then_branch@.len() as int, c0);
            let c1 = stmts_cost(m, then_branch@, then_branch@.len() as int, c0);
            lemma_branches_nonneg0(m, else_if_branches@, else_if_branches@.len() as int, c1);
            let c2 = branches_cost(m, else_if_branches@, else_if_branches@.len() as int, c1);
            match else_branch {
                Some(eb) => lemma_stmts_nonneg0(m, eb@, eb@.len() as int, c2),
                None => {},
            }
        },
        Stmt::While { condition, body } => {
            lemma_expr_nonneg(m, condition);
            lemma_stmts_nonneg0(
                m,
                body@,
                body@.len() as int,
                expr_cost_spec(m, condition) + m.branch_cost * 2,
            );
        },
        Stmt::Repeat { body, condition } => {
            lemma_expr_nonneg(m, condition);
            lemma_stmts_nonneg0(
                m,
                body@,
                body@.len() as int,
                expr_cost_spec(m, condition) + m.branch_cost,
            );
        },
        Stmt::NumericFor { body, .. } => {
            lemma_stmts_nonneg0(m, body@, body@.len() as int, m.branch_cost * 2);
        },
        Stmt::For { body, .. } => {
            lemma_stmts_nonneg0(m, body@, body@.len() as int, m.branch_cost * 2);
        },
        Stmt::Function { body, .. } => {
            lemma_stmts_nonneg0(m, body@, body@.len() as int, m.closure_alloc_cost as int);
        },
        Stmt::Return(values) => {
            lemma_exprs_nonneg0(m, values@, values@.len() as int, m.branch_cost as int);
        },
        Stmt::LocalMany { initializers, .. } => {
            lemma_exprs_nonneg0(m, initializers@, initializers@.len() as int, 2);
        },
        _ => {},
    }
}

/// The cost of one IR instruction under model `m`: moves, arithmetic,
/// constant loads, table allocation and table or global access have their
/// weight; anything else costs 2.
pub open spec fn ir_cost(m: CostModel, inst: IrInst) -> u32 {
    match inst {
        IrInst::Move { .. } => m.register_move_cost,
        IrInst::BinOp { .. } | IrInst::UnOp { .. } => m.arithmetic_cost,
        IrInst::LoadConst { .. } | IrInst::LoadNil { .. } => m.const_load_cost,
        IrInst::NewTable { .. } => m.closure_alloc_cost,
        IrInst::GetTable { .. } | IrInst::SetTable { .. } | IrInst::GetImport { .. } => m.table_access_cost,
        IrInst::GetGlobal { .. } | IrInst::SetGlobal { .. } => m.table_access_cost,
        _ => 2,
    }
}

/// The summed cost of the first `k` IR instructions, held at `u32::MAX`
/// after each step.
pub open spec fn ir_insts_cost(m: CostModel, insts: Seq<IrInst>, k: int) -> int
    decreases k,
{
    if k <= 0 {
        0
    } else {
        sat(ir_insts_cost(m, insts, k - 1), ir_cost(m, insts[k - 1]) as int)
    }
}

/// Whether an IR function is a small leaf worth inlining: no varargs, no
/// nested functions, at most 30 instructions and cost at most 40.
pub open spec fn ir_inline_profitable(m: CostModel, f: IrFunction) -> bool {
    &&& !f.is_vararg
    &&& f.protos@.len() == 0
    &&& f.instructions@.len() <= 30
    &&& ir_insts_cost(m, f.instructions@, f.instructions@.len() as int) <= 40
}

proof fn lemma_ir_insts_cost_bound(m: CostModel, insts: Seq<IrInst>, k: int)
    ensures
        0 <= ir_insts_cost(m, insts, k) <= u32::MAX,
    decreases k,
{
    if k > 0 {
        lemma_ir_insts_cost_bound(m, insts, k - 1);
    }
}

impl CostModel {
    /// The estimated cost of one IR instruction.
    pub fn ir_inst_cost(&self, inst: &IrInst) -> (r: u32)
        ensures
            r == ir_cost(*self, *inst),
    {
        match inst {
            IrInst::Move { .. } => self.register_move_cost,
            IrInst::BinOp { .. } | IrInst::UnOp { .. } => self.arithmetic_cost,
            IrInst::LoadConst { .. } | IrInst::LoadNil { .. } => self.const_load_cost,
            IrInst::NewTable { .. } => self.closure_alloc_cost,
            IrInst::GetTable { .. } | IrInst::SetTable { .. } | IrInst::GetImport { .. } => {
                self.table_access_cost
            },
            IrInst::GetGlobal { .. } | IrInst::SetGlobal { .. } => self.table_access_cost,
            _ => 2,
        }
    }

    /// The estimated cost of an IR function's instruction list, held at
    /// `u32::MAX`.
    pub fn ir_function_cost(&self, func: &IrFunction) -> (r: u32)
        ensures
            r == ir_insts_cost(*self, func.instructions@, func.instructions@.len() as int),
    {
        let mut total: u32 = 0;
        let mut i: usize = 0;
        while i < func.instructions.len()
            invariant
                i <= func.instructions@.len(),
                total == ir_insts_cost(*self, func.instructions@, i as int),
            decreases func.instructions@.len() - i,
        {
            proof {
                lemma_ir_insts_cost_bound(*self, func.instructions@, i as int);
            }
            total = total.saturating_add(self.ir_inst_cost(&func.instructions[i]));
            i = i + 1;
        }
        total
    }

    /// Whether an IR function is small and profitable to inline (see
    /// `ir_inline_profitable`).
    pub fn should_inline_ir(&self, func: &IrFunction) -> (r: bool)
        ensures
            r == ir_inline_profitable(*self, *func),
    {
        if func.is_vararg || func.protos.len() != 0 {
            return false;
        }
        if func.instructions.len() > 30 {
            return false;
        }
        self.ir_function_cost(func) <= 40
    }

    /// The estimated cost of one instruction.
    pub fn instruction_cost(&self, inst: &Instruction) -> (r: u32)
        ensures
            r == inst_cost(*self, *inst),
    {
        match inst {
            Instruction::LoadNil { .. } | Instruction::LoadBool { .. }
            | Instruction::LoadInt { .. } | Instruction::LoadK { .. } => self.const_load_cost,
            Instruction::Move { .. } => self.register_move_cost,
            Instruction::Add { .. } | Instruction::Sub { .. } | Instruction::Mul { .. }
            | Instruction::Div { .. } | Instruction::IDiv { .. } | Instruction::Mod { .. }
            | Instruction::Pow { .. } | Instruction::Unm { .. } => self.arithmetic_cost,
            Instruction::BitAnd { .. } | Instruction::BitOr { .. } | Instruction::BitXor { .. }
            | Instruction::Shl { .. } | Instruction::Shr { .. } | Instruction::LShl { .. }
            | Instruction::LShr { .. } | Instruction::BitNot { .. } => self.bitwise_cost,
            Instruction::NewTable { .. } => self.closure_alloc_cost,
            Instruction::GetTable { .. } | Instruction::SetTable { .. }
            | Instruction::GetTableK { .. } | Instruction::SetTableK { .. }
            | Instruction::AppendArray { .. } | Instruction::SetList { .. } => self.table_access_cost,
            Instruction::Eq { .. } | Instruction::Ne { .. } | Instruction::Lt { .. }
            | Instruction::Le { .. } | Instruction::Gt { .. } | Instruction::Ge { .. }
            | Instruction::Test { .. } | Instruction::Jump { .. } | Instruction::ForPrep { .. }
            | Instruction::ForLoop { .. } | Instruction::TForCall { .. }
            | Instruction::TForLoop { .. } => self.branch_cost,
            Instruction::Call { .. } => self.call_cost,
            Instruction::Return { .. } => self.branch_cost,
            Instruction::Closure { .. } => self.closure_alloc_cost,
            Instruction::Vararg { .. } => self.register_move_cost,
            Instruction::GetGlobal { .. } | Instruction::SetGlobal { .. } => self.table_access_cost,
            Instruction::GetImport { .. } => self.table_access_cost,
            Instruction::GetUpval { .. } | Instruction::SetUpval { .. } => self.register_move_cost,
            Instruction::Concat { .. } | Instruction::Not { .. } | Instruction::Len { .. }
            | Instruction::Coalesce { .. } => self.arithmetic_cost,
        }
    }

    /// The estimated cost of a prototype and the prototypes nested in it,
    /// held at `u32::MAX`.
    pub fn proto_cost(&self, proto: &Proto) -> (r: u32)
        ensures
            r == proto_cost_spec(*self, *proto),
        decreases proto,
    {
        let mut total: u32 = 0;
        let mut i: usize = 0;
        while i < proto.instructions.len()
            invariant
                i <= proto.instructions@.len(),
                total == insts_cost(*self, proto.instructions@, i as int),
            decreases proto.instructions@.len() - i,
        {
            total = total.saturating_add(self.instruction_cost(&proto.instructions[i]));
            i = i + 1;
        }
        let ghost base = total as int;
        let mut j: usize = 0;
        while j < proto.protos.len()
            invariant
                j <= proto.protos@.len(),
                base == insts_cost(*self, proto.instructions@, proto.instructions@.len() as int),
                total == protos_cost(*self, proto.protos@, j as int, base),
            decreases proto.protos@.len() - j,
        {
            proof {
                assert(decreases_to!(proto => proto.protos@[j as int]));
            }
            let sub = self.proto_cost(&proto.protos[j]);
            total = total.saturating_add(sub);
            j = j + 1;
        }
        total
    }

    /// Whether a function is a small leaf worth inlining: no nested
    /// functions, no varargs, at most 8 registers and cost at most 40.
    pub fn should_inline(&self, proto: &Proto) -> (r: bool)
        ensures
            r == inline_profitable(*self, *proto),
    {
        if proto.protos.len() != 0 || proto.is_vararg {
            return false;
        }
        if proto.max_registers > 8 {
            return false;
        }
        self.proto_cost(proto) <= 40
    }

    /// The cost of a statement list, held at `u32::MAX`.
    pub fn program_cost(&self, stmts: &[Stmt]) -> (r: u32)
        requires
            stmts_ok(*self, stmts@, stmts@.len() as int),
        ensures
            r == stmts_cost(*self, stmts@, stmts@.len() as int, 0),
    {
        let mut total: u32 = 0;
        let mut i: usize = 0;
        while i < stmts.len()
            invariant
                i <= stmts@.len(),
                stmts_ok(*self, stmts@, stmts@.len() as int),
                total == stmts_cost(*self, stmts@, i as int, 0),
            decreases stmts@.len() - i,
        {
            proof {
                lemma_stmts_ok_prefix(*self, stmts@, stmts@.len() as int, i + 1);
            }
            total = total.saturating_add(self.stmt_cost(&stmts[i]));
            i = i + 1;
        }
        total
    }

    fn stmts_sum(&self, stmts: &Vec<Stmt>, base: u32) -> (r: u32)
        requires
            stmts_ok(*self, stmts@, stmts@.len() as int),
        ensures
            r == stmts_cost(*self, stmts@, stmts@.len() as int, base as int),
        decreases stmts, 0nat,
    {
        let mut total: u32 = base;
        let mut i: usize = 0;
        while i < stmts.len()
            invariant
                i <= stmts@.len(),
                stmts_ok(*self, stmts@, stmts@.len() as int),
                total == stmts_cost(*self, stmts@, i as int, base as int),
            decreases stmts@.len() - i,
        {
            proof {
                lemma_stmts_ok_prefix(*self, stmts@, stmts@.len() as int, i + 1);
                assert(decreases_to!(stmts => stmts@[i as int]));
            }
            total = total.saturating_add(self.stmt_cost(&stmts[i]));
            i = i + 1;
        }
        total
    }

    fn exprs_sum(&self, es: &Vec<Expr>, base: u32) -> (r: u32)
        requires
            exprs_ok(*self, es@, es@.len() as int),
        ensures
            r == exprs_cost(*self, es@, es@.len() as int, base as int),
        decreases es, 0nat,
    {
        let mut total: u32 = base;
        let mut i: usize = 0;
        while i < es.len()
            invariant
                i <= es@.len(),
                exprs_ok(*self, es@, es@.len() as int),
                total == exprs_cost(*self, es@, i as int, base as int),
            decreases es@.len() - i,
        {
            proof {
                lemma_exprs_ok_prefix(*self, es@, es@.len() as int, i + 1);
                assert(decreases_to!(es => es@[i as int]));
            }
            total = total.saturating_add(self.expr_cost(&es[i]));
            i = i + 1;
        }
        total
    }

    fn branches_sum(&self, bs: &Vec<(Expr, Vec<Stmt>)>, base: u32) -> (r: u32)
        requires
            branches_ok(*self, bs@, bs@.len() as int),
        ensures
            r == branches_cost(*self, bs@, bs@.len() as int, base as int),
        decreases bs, 0nat,
    {
        let mut cost = base;
        let mut k: usize = 0;
        while k < bs.len()
            invariant
                k <= bs@.len(),
                branches_ok(*self, bs@, bs@.len() as int),
                cost == branches_cost(*self, bs@, k as int, base as int),
            decreases bs@.len() - k,
        {
            proof {
                lemma_branches_ok_prefix(*self, bs@, bs@.len() as int, k + 1);
                assert(decreases_to!(bs => bs@[k as int]));
                lemma_expr_nonneg(*self, bs@[k as int].0);
            }
            let branch = &bs[k];
            let c = self.expr_cost(&branch.0) + self.branch_cost;
            cost = cost.saturating_add(c);
            cost = self.stmts_sum(&branch.1, cost);
            k = k + 1;
        }
        cost
    }

    fn entries_sum(&self, es: &Vec<crate::parser::TableEntry>, base: u32) -> (r: u32)
        requires
            entries_ok(*self, es@, es@.len() as int),
        ensures
            r == entries_cost(*self, es@, es@.len() as int, base as int),
        decreases es, 0nat,
    {
        let mut cost = base;
        let mut i: usize = 0;
        while i < es.len()
            invariant
                i <= es@.len(),
                entries_ok(*self, es@, es@.len() as int),
                cost == entries_cost(*self, es@, i as int, base as int),
            decreases es@.len() - i,
        {
            proof {
                lemma_entries_ok_prefix(*self, es@, es@.len() as int, i + 1);
                assert(decreases_to!(es => es@[i as int]));
            }
            cost = cost.saturating_add(self.expr_cost(&es[i].value));
            i = i + 1;
        }
        cost
    }

    /// The rough complexity of a statement tree.
    pub fn stmt_cost(&self, stmt: &Stmt) -> (r: u32)
        requires
            stmt_ok(*self, *stmt),
        ensures
            r == stmt_cost_spec(*self, *stmt),
        decreases stmt, 1nat,
    {
        proof {
            lemma_stmt_nonneg(*self, *stmt);
        }
        match stmt {
            Stmt::Local { initializer, .. } => match initializer {
                Some(e) => {
                    proof {
                        lemma_expr_nonneg(*self, *e);
                    }
                    self.expr_cost(e) + 1
                },
                None => 1,
            },
            Stmt::Assign { value, .. } => {
                proof {
                    lemma_expr_nonneg(*self, *value);
                }
                self.expr_cost(value) + 1
            },
            Stmt::AssignMany { targets, values } => {
                let n = #[verifier::truncate] ((targets.len() as u128 + values.len() as u128) as u32);
                n * 2
            },
            Stmt::Increment { .. } => 2,
            Stmt::Expr(e) => self.expr_cost(e),
            Stmt::If { condition, then_branch, else_if_branches, else_branch } => {
                proof {
                    lemma_expr_nonneg(*self, *condition);
                }
                let c0 = self.expr_cost(condition) + self.branch_cost;
                proof {
                    lemma_stmts_bounds(*self, then_branch@, then_branch@.len() as int, c0 as int);
                }
                let c1 = self.stmts_sum(then_branch, c0);
                let cost = self.branches_sum(else_if_branches, c1);
                match else_branch {
                    Some(eb) => self.stmts_sum(eb, cost),
                    None => cost,
                }
            },
            Stmt::While { condition, body } => {
                proof {
                    lemma_expr_nonneg(*self, *condition);
                    lemma_stmts_bounds(
                        *self,
                        body@,
                        body@.len() as int,
                        expr_cost_spec(*self, *condition) + self.branch_cost * 2,
                    );
                }
                let c = self.expr_cost(condition) + self.branch_cost * 2;
                self.stmts_sum(body, c) * 3
            },
            Stmt::Repeat { body, condition } => {
                proof {
                    lemma_expr_nonneg(*self, *condition);
                    lemma_stmts_bounds(
                        *self,
                        body@,
                        body@.len() as int,
                        expr_cost_spec(*self, *condition) + self.branch_cost,
                    );
                }
                let c = self.expr_cost(condition) + self.branch_cost;
                self.stmts_sum(body, c) * 3
            },
            Stmt::NumericFor { body, .. } | Stmt::For { body, .. } => {
                proof {
                    lemma_stmts_bounds(*self, body@, body@.len() as int, self.branch_cost * 2);
                }
                let c = self.branch_cost * 2;
                self.stmts_sum(body, c) * 4
            },
            Stmt::Function { body, .. } => self.stmts_sum(body, self.closure_alloc_cost),
            Stmt::Return(values) => self.exprs_sum(values, self.branch_cost),
            Stmt::Break | Stmt::Continue => self.branch_cost,
            Stmt::LocalMany { initializers, .. } => self.exprs_sum(initializers, 2),
        }
    }

    /// The rough complexity of an expression tree.
    pub fn expr_cost(&self, expr: &Expr) -> (r: u32)
        requires
            expr_ok(*self, *expr),
        ensures
            r == expr_cost_spec(*self, *expr),
        decreases expr, 1nat,
    {
        proof {
            lemma_expr_nonneg(*self, *expr);
        }
        match expr {
            Expr::Literal(_) | Expr::Variable(_) | Expr::Vararg | Expr::Str(_) => self.const_load_cost,
            Expr::Binary { left, right, .. } => {
                proof {
                    lemma_expr_nonneg(*self, **left);
                    lemma_expr_nonneg(*self, **right);
                }
                self.expr_cost(left) + self.expr_cost(right) + self.arithmetic_cost
            },
            Expr::Unary { expr, .. } => self.expr_cost(expr) + self.arithmetic_cost,
            Expr::Call { callee, args } => {
                proof {
                    lemma_expr_nonneg(*self, **callee);
                    lemma_exprs_bounds(
                        *self,
                        args@,
                        args@.len() as int,
                        expr_cost_spec(*self, **callee) + self.call_cost,
                    );
                }
                let c = self.expr_cost(callee) + self.call_cost;
                self.exprs_sum(args, c)
            },
            Expr::MethodCall { object, args, .. } => {
                proof {
                    lemma_expr_nonneg(*self, **object);
                    lemma_exprs_bounds(
                        *self,
                        args@,
                        args@.len() as int,
                        expr_cost_spec(*self, **object) + self.call_cost + self.table_access_cost,
                    );
                }
                let c = self.expr_cost(object) + self.call_cost + self.table_access_cost;
                self.exprs_sum(args, c)
            },
            Expr::Member { object, .. } => self.expr_cost(object) + self.table_access_cost,
            Expr::Index { object, index } => {
                proof {
                    lemma_expr_nonneg(*self, **object);
                    lemma_expr_nonneg(*self, **index);
                }
                self.expr_cost(object) + self.expr_cost(index) + self.table_access_cost
            },
            Expr::Table(entries) => {
                proof {
                    lemma_entries_bounds(*self, entries@, entries@.len() as int, self.closure_alloc_cost as int);
                }
                self.entries_sum(entries, self.closure_alloc_cost)
            },
            Expr::Function { body, .. } => self.stmts_sum(body, self.closure_alloc_cost),
            Expr::Interp(_) => 3,
        }
    }
}

proof fn lemma_exprs_ok_prefix(m: CostModel, es: Seq<Expr>, k: int, j: int)
    requires
        exprs_ok(m, es, k),
        0 < j <= k <= es.len(),
    ensures
        exprs_ok(m, es, j),
        expr_ok(m, es[j - 1]),
    decreases k,
{
    if j < k {
        lemma_exprs_ok_prefix(m, es, k - 1, j);
    }
}

proof fn lemma_entries_ok_prefix(m: CostModel, es: Seq<crate::parser::TableEntry>, k: int, j: int)
    requires
        entries_ok(m, es, k),
        0 < j <= k <= es.len(),
    ensures
        entries_ok(m, es, j),
        expr_ok(m, es[j - 1].value),
    decreases k,
{
    if j < k {
        lemma_entries_ok_prefix(m, es, k - 1, j);
    }
}

proof fn lemma_stmts_ok_prefix(m: CostModel, ss: Seq<Stmt>, k: int, j: int)
    requires
        stmts_ok(m, ss, k),
        0 < j <= k <= ss.len(),
    ensures
        stmts_ok(m, ss, j),
        stmt_ok(m, ss[j - 1]),
    decreases k,
{
    if j < k {
        lemma_stmts_ok_prefix(m, ss, k - 1, j);
    }
}

proof fn lemma_branches_ok_prefix(m: CostModel, bs: Seq<(Expr, Vec<Stmt>)>, k: int, j: int)
    requires
        branches_ok(m, bs, k),
        0 < j <= k <= bs.len(),
    ensures
        branches_ok(m, bs, j),
        expr_ok(m, bs[j - 1].0),
        stmts_ok(m, bs[j - 1].1@, bs[j - 1].1@.len() as int),
    decreases k,
{
    if j < k {
        lemma_branches_ok_prefix(m, bs, k - 1, j);
    }
}

} // verus!
