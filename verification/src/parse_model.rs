//! The statement tree as mathematical values: each node of `parser`'s tree
//! with its strings taken as character sequences and its lists as `Seq`s.
use vstd::prelude::*;

use crate::parser::{Expr, Param, Stmt, TableEntry};

verus! {

/// An expression as a value.
pub enum ExprV {
    Literal(Seq<char>),
    Str(Seq<char>),
    Interp(Seq<char>),
    Variable(Seq<char>),
    Vararg,
    Member { object: Box<ExprV>, field: Seq<char> },
    Index { object: Box<ExprV>, index: Box<ExprV> },
    Call { callee: Box<ExprV>, args: Seq<ExprV> },
    MethodCall { object: Box<ExprV>, method: Seq<char>, args: Seq<ExprV> },
    Function { params: Seq<ParamV>, body: Seq<StmtV> },
    Unary { op: Seq<char>, expr: Box<ExprV> },
    Binary { left: Box<ExprV>, op: Seq<char>, right: Box<ExprV> },
    Table(Seq<EntryV>),
}

/// A table entry as a value.
pub struct EntryV {
    pub key: Option<Seq<char>>,
    pub value: ExprV,
}

/// A parameter as a value.
pub struct ParamV {
    pub name: Seq<char>,
    pub type_annotation: Option<Seq<char>>,
    pub variadic: bool,
}

/// A statement as a value.
pub enum StmtV {
    Local { name: Seq<char>, is_const: bool, type_annotation: Option<Seq<char>>, initializer: Option<ExprV> },
    LocalMany { names: Seq<Seq<char>>, is_const: bool, initializers: Seq<ExprV> },
    Assign { target: ExprV, value: ExprV, is_const: bool },
    AssignMany { targets: Seq<ExprV>, values: Seq<ExprV> },
    Increment { target: ExprV, amount: i8 },
    Function {
        name: Option<Seq<char>>,
        is_const: bool,
        params: Seq<ParamV>,
        return_type: Option<Seq<char>>,
        body: Seq<StmtV>,
    },
    If {
        condition: ExprV,
        then_branch: Seq<StmtV>,
        else_if_branches: Seq<(ExprV, Seq<StmtV>)>,
        else_branch: Option<Seq<StmtV>>,
    },
    For { vars: Seq<Seq<char>>, source: ExprV, body: Seq<StmtV> },
    NumericFor { var: Seq<char>, start: ExprV, end: ExprV, step: Option<ExprV>, body: Seq<StmtV> },
    While { condition: ExprV, body: Seq<StmtV> },
    Repeat { body: Seq<StmtV>, condition: ExprV },
    Return(Seq<ExprV>),
    Break,
    Continue,
    Expr(ExprV),
}

/// The text of an optional string.
pub open spec fn opt_text(o: Option<String>) -> Option<Seq<char>> {
    match o {
        Some(s) => Some(s@),
        None => None,
    }
}

/// The texts of a list of strings.
pub open spec fn strings_view(v: Seq<String>) -> Seq<Seq<char>> {
    v.map_values(|s: String| s@)
}

/// A parameter as a value.
pub open spec fn param_view(p: Param) -> ParamV {
    ParamV { name: p.name@, type_annotation: opt_text(p.type_annotation), variadic: p.variadic }
}

/// Parameters as values.
pub open spec fn params_view(v: Seq<Param>) -> Seq<ParamV> {
    v.map_values(|p: Param| param_view(p))
}

/// An expression as a value.
pub open spec fn expr_view(e: Expr) -> ExprV
    decreases e,
{
    match e {
        Expr::Literal(s) => ExprV::Literal(s@),
        Expr::Str(s) => ExprV::Str(s@),
        Expr::Interp(s) => ExprV::Interp(s@),
        Expr::Variable(s) => ExprV::Variable(s@),
        Expr::Vararg => ExprV::Vararg,
        Expr::Member { object, field } => ExprV::Member { object: Box::new(expr_view(*object)), field: field@ },
        Expr::Index { object, index } => ExprV::Index {
            object: Box::new(expr_view(*object)),
            index: Box::new(expr_view(*index)),
        },
        Expr::Call { callee, args } => ExprV::Call { callee: Box::new(expr_view(*callee)), args: exprs_view(args@) },
        Expr::MethodCall { object, method, args } => ExprV::MethodCall {
            object: Box::new(expr_view(*object)),
            method: method@,
            args: exprs_view(args@),
        },
        Expr::Function { params, body } => ExprV::Function { params: params_view(params@), body: stmts_view(body@) },
        Expr::Unary { op, expr } => ExprV::Unary { op: op@, expr: Box::new(expr_view(*expr)) },
        Expr::Binary { left, op, right } => ExprV::Binary {
            left: Box::new(expr_view(*left)),
            op: op@,
            right: Box::new(expr_view(*right)),
        },
        Expr::Table(entries) => ExprV::Table(entries_view(entries@)),
    }
}

/// Expressions as values.
pub open spec fn exprs_view(s: Seq<Expr>) -> Seq<ExprV>
    decreases s,
{
    if s.len() == 0 {
        Seq::empty()
    } else {
        exprs_view(s.subrange(0, s.len() - 1)).push(expr_view(s[s.len() - 1]))
    }
}

/// Table entries as values.
pub open spec fn entries_view(s: Seq<TableEntry>) -> Seq<EntryV>
    decreases s,
{
    if s.len() == 0 {
        Seq::empty()
    } else {
        entries_view(s.subrange(0, s.len() - 1)).push(
            EntryV { key: opt_text(s[s.len() - 1].key), value: expr_view(s[s.len() - 1].value) },
        )
    }
}

/// An optional expression as a value.
pub open spec fn opt_expr_view(o: Option<Expr>) -> Option<ExprV>
    decreases o,
{
    match o {
        Some(e) => Some(expr_view(e)),
        None => None,
    }
}

/// A statement as a value.
pub open spec fn stmt_view(s: Stmt) -> StmtV
    decreases s,
{
    match s {
        Stmt::Local { name, is_const, type_annotation, initializer } => StmtV::Local {
            name: name@,
            is_const,
            type_annotation: opt_text(type_annotation),
            initializer: opt_expr_view(initializer),
        },
        Stmt::LocalMany { names, is_const, initializers } => StmtV::LocalMany {
            names: strings_view(names@),
            is_const,
            initializers: exprs_view(initializers@),
        },
        Stmt::Assign { target, value, is_const } => StmtV::Assign {
            target: expr_view(target),
            value: expr_view(value),
            is_const,
        },
        Stmt::AssignMany { targets, values } => StmtV::AssignMany {
            targets: exprs_view(targets@),
            values: exprs_view(values@),
        },
        Stmt::Increment { target, amount } => StmtV::Increment { target: expr_view(target), amount },
        Stmt::Function { name, is_const, params, return_type, body } => StmtV::Function {
            name: opt_text(name),
            is_const,
            params: params_view(params@),
            return_type: opt_text(return_type),
            body: stmts_view(body@),
        },
        Stmt::If { condition, then_branch, else_if_branches, else_branch } => StmtV::If {
            condition: expr_view(condition),
            then_branch: stmts_view(then_branch@),
            else_if_branches: branches_view(else_if_branches@),
            else_branch: match else_branch {
                Some(b) => Some(stmts_view(b@)),
                None => None,
            },
        },
        Stmt::For { vars, source, body } => StmtV::For {
            vars: strings_view(vars@),
            source: expr_view(source),
            body: stmts_view(body@),
        },
        Stmt::NumericFor { var, start, end, step, body } => StmtV::NumericFor {
            var: var@,
            start: expr_view(start),
            end: expr_view(end),
            step: opt_expr_view(step),
            body: stmts_view(body@),
        },
        Stmt::While { condition, body } => StmtV::While { condition: expr_view(condition), body: stmts_view(body@) },
        Stmt::Repeat { body, condition } => StmtV::Repeat { body: stmts_view(body@), condition: expr_view(condition) },
        Stmt::Return(values) => StmtV::Return(exprs_view(values@)),
        Stmt::Break => StmtV::Break,
        Stmt::Continue => StmtV::Continue,
        Stmt::Expr(e) => StmtV::Expr(expr_view(e)),
    }
}

/// Statements as values.
pub open spec fn stmts_view(s: Seq<Stmt>) -> Seq<StmtV>
    decreases s,
{
    if s.len() == 0 {
        Seq::empty()
    } else {
        stmts_view(s.subrange(0, s.len() - 1)).push(stmt_view(s[s.len() - 1]))
    }
}

/// `elseif` branches as values.
pub open spec fn branches_view(s: Seq<(Expr, Vec<Stmt>)>) -> Seq<(ExprV, Seq<StmtV>)>
    decreases s,
{
    if s.len() == 0 {
        Seq::empty()
    } else {
        branches_view(s.subrange(0, s.len() - 1)).push(
            (expr_view(s[s.len() - 1].0), stmts_view(s[s.len() - 1].1@)),
        )
    }
}

/// Appending to a list of statements appends its value.
pub proof fn lemma_stmts_view_push(v: Seq<Stmt>, x: Stmt)
    ensures
        stmts_view(v.push(x)) == stmts_view(v).push(stmt_view(x)),
{
    assert(v.push(x).subrange(0, v.len() as int) =~= v);
}

/// Appending to a list of expressions appends its value.
pub proof fn lemma_exprs_view_push(v: Seq<Expr>, x: Expr)
    ensures
        exprs_view(v.push(x)) == exprs_view(v).push(expr_view(x)),
{
    assert(v.push(x).subrange(0, v.len() as int) =~= v);
}

/// Appending to a list of table entries appends its value.
pub proof fn lemma_entries_view_push(v: Seq<TableEntry>, x: TableEntry)
    ensures
        entries_view(v.push(x)) == entries_view(v).push(EntryV { key: opt_text(x.key), value: expr_view(x.value) }),
{
    assert(v.push(x).subrange(0, v.len() as int) =~= v);
}

/// Appending to a list of branches appends its value.
pub proof fn lemma_branches_view_push(v: Seq<(Expr, Vec<Stmt>)>, x: (Expr, Vec<Stmt>))
    ensures
        branches_view(v.push(x)) == branches_view(v).push((expr_view(x.0), stmts_view(x.1@))),
{
    assert(v.push(x).subrange(0, v.len() as int) =~= v);
}

/// A one-element list of expressions.
pub proof fn lemma_exprs_view_one(x: Expr)
    ensures
        exprs_view(seq![x]) == seq![expr_view(x)],
{
    lemma_exprs_view_push(Seq::empty(), x);
    assert(Seq::<Expr>::empty().push(x) =~= seq![x]);
    assert(exprs_view(Seq::<Expr>::empty()) =~= Seq::<ExprV>::empty());
    assert(Seq::<ExprV>::empty().push(expr_view(x)) =~= seq![expr_view(x)]);
}

} // verus!
