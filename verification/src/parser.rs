//! Recursive-descent parser from tokens to the statement tree.
//!
//! Where the grammar is not met the parser stops with an error message; it
//! never reads past the end-of-file token.
use vstd::prelude::*;

use crate::grammar::{
    ann_loop, args_loop, binding_g, block_loop, call_args_g, comma_exprs, do_block, dotted, elseif_loop,
    entries_loop, expr_g, expr_stmt_rest, for_g, function_g, if_g, if_tail, member_chain, method_call_at, sep_names,
    skip_binding_kws, inside, is_any_kw, is_kw, is_sym, keyed_at, param_list, param_loop, postfix_g,
    prec_g, prec_loop, prefix_g, program_loop, repeat_g, skip_attrs, skip_semis, skip_to_close, stmt_g,
    table_g, type_ann, while_g,
};
use crate::lexer::{lex, tokenize_chars, tokens_ok, toks_view, Tok, TokKind};
use crate::parse_model::{
    lemma_branches_view_push, lemma_entries_view_push, lemma_exprs_view_one, lemma_exprs_view_push,
    lemma_stmts_view_push, opt_text, EntryV, ExprV, ParamV, StmtV,
    branches_view, entries_view, expr_view, exprs_view, opt_expr_view, param_view, params_view, stmt_view, stmts_view,
    strings_view,
};
use crate::text::{chars_eq_str, chars_of, copy_chars, string_from_chars, string_push};

verus! {

#[derive(Debug, PartialEq, Eq)]
pub enum Expr {
    Literal(String),
    Str(String),
    Interp(String),
    Variable(String),
    Vararg,
    Member { object: Box<Expr>, field: String },
    Index { object: Box<Expr>, index: Box<Expr> },
    Call { callee: Box<Expr>, args: Vec<Expr> },
    MethodCall { object: Box<Expr>, method: String, args: Vec<Expr> },
    Function { params: Vec<Param>, body: Vec<Stmt> },
    Unary { op: String, expr: Box<Expr> },
    Binary { left: Box<Expr>, op: String, right: Box<Expr> },
    Table(Vec<TableEntry>),
}

#[derive(Debug, PartialEq, Eq)]
pub struct TableEntry {
    pub key: Option<String>,
    pub value: Expr,
}

#[derive(Debug, PartialEq, Eq)]
pub enum Stmt {
    Local { name: String, is_const: bool, type_annotation: Option<String>, initializer: Option<Expr> },
    LocalMany { names: Vec<String>, is_const: bool, initializers: Vec<Expr> },
    Assign { target: Expr, value: Expr, is_const: bool },
    AssignMany { targets: Vec<Expr>, values: Vec<Expr> },
    Increment { target: Expr, amount: i8 },
    Function {
        name: Option<String>,
        is_const: bool,
        params: Vec<Param>,
        return_type: Option<String>,
        body: Vec<Stmt>,
    },
    If {
        condition: Expr,
        then_branch: Vec<Stmt>,
        else_if_branches: Vec<(Expr, Vec<Stmt>)>,
        else_branch: Option<Vec<Stmt>>,
    },
    For { vars: Vec<String>, source: Expr, body: Vec<Stmt> },
    NumericFor { var: String, start: Expr, end: Expr, step: Option<Expr>, body: Vec<Stmt> },
    While { condition: Expr, body: Vec<Stmt> },
    Repeat { body: Vec<Stmt>, condition: Expr },
    Return(Vec<Expr>),
    Break,
    Continue,
    Expr(Expr),
}

#[derive(Debug, PartialEq, Eq)]
pub struct Param {
    pub name: String,
    pub type_annotation: Option<String>,
    pub variadic: bool,
}

/// A parser over the tokens of one source text.
#[derive(Debug)]
pub struct Parser {
    tokens: Vec<Tok>,
    pos: usize,
}

/// The binding strength of a binary operator, weakest first.
pub open spec fn binop_prec(kind: TokKind, v: Seq<char>) -> Option<u8> {
    if kind != TokKind::Symbol && kind != TokKind::Keyword {
        None
    } else if v == "or"@ {
        Some(1u8)
    } else if v == "and"@ {
        Some(2u8)
    } else if v == "=="@ || v == "!="@ || v == "<"@ || v == "<="@ || v == ">"@ || v == ">="@ {
        Some(3u8)
    } else if v == "|"@ {
        Some(4u8)
    } else if v == "~"@ {
        Some(5u8)
    } else if v == "&"@ {
        Some(6u8)
    } else if v == "<<"@ || v == ">>"@ {
        Some(7u8)
    } else if v == ".."@ {
        Some(8u8)
    } else if v == "+"@ || v == "-"@ {
        Some(9u8)
    } else if v == "*"@ || v == "/"@ || v == "//"@ || v == "%"@ {
        Some(10u8)
    } else if v == "^"@ {
        Some(11u8)
    } else if v == "??"@ {
        Some(12u8)
    } else {
        None
    }
}

/// The compound assignment operators `op=`.
pub open spec fn is_compound_assign(v: Seq<char>) -> bool {
    ||| v == "+="@
    ||| v == "-="@
    ||| v == "*="@
    ||| v == "/="@
    ||| v == "//="@
    ||| v == "%="@
    ||| v == "^="@
    ||| v == "..="@
    ||| v == "<<="@
    ||| v == ">>="@
    ||| v == "&="@
    ||| v == "|="@
    ||| v == "??="@
}

/// A deep copy of an optional string.
pub(crate) fn clone_opt_string(s: &Option<String>) -> (r: Option<String>)
    ensures
        r == *s,
{
    match s {
        Some(v) => Some(v.clone()),
        None => None,
    }
}

/// A deep copy of an expression.
pub fn clone_expr(e: &Expr) -> (r: Expr)
    ensures
        expr_view(r) == expr_view(*e),
    decreases e,
{
    match e {
        Expr::Literal(s) => Expr::Literal(s.clone()),
        Expr::Str(s) => Expr::Str(s.clone()),
        Expr::Interp(s) => Expr::Interp(s.clone()),
        Expr::Variable(s) => Expr::Variable(s.clone()),
        Expr::Vararg => Expr::Vararg,
        Expr::Member { object, field } => Expr::Member {
            object: Box::new(clone_expr(object)),
            field: field.clone(),
        },
        Expr::Index { object, index } => Expr::Index {
            object: Box::new(clone_expr(object)),
            index: Box::new(clone_expr(index)),
        },
        Expr::Call { callee, args } => Expr::Call {
            callee: Box::new(clone_expr(callee)),
            args: clone_exprs(args),
        },
        Expr::MethodCall { object, method, args } => Expr::MethodCall {
            object: Box::new(clone_expr(object)),
            method: method.clone(),
            args: clone_exprs(args),
        },
        Expr::Function { params, body } => Expr::Function {
            params: clone_params(params),
            body: clone_stmts(body),
        },
        Expr::Unary { op, expr } => Expr::Unary { op: op.clone(), expr: Box::new(clone_expr(expr)) },
        Expr::Binary { left, op, right } => Expr::Binary {
            left: Box::new(clone_expr(left)),
            op: op.clone(),
            right: Box::new(clone_expr(right)),
        },
        Expr::Table(entries) => Expr::Table(clone_entries(entries)),
    }
}

/// A deep copy of a list of expressions.
pub fn clone_exprs(v: &Vec<Expr>) -> (r: Vec<Expr>)
    ensures
        r@.len() == v@.len(),
        exprs_view(r@) == exprs_view(v@),
    decreases v,
{
    let mut r: Vec<Expr> = Vec::new();
    let mut i: usize = 0;
    while i < v.len()
        invariant
            i <= v@.len(),
            r@.len() == i,
            exprs_view(r@) == exprs_view(v@.subrange(0, i as int)),
        decreases v@.len() - i,
    {
        proof {
            assert(decreases_to!(v => v@[i as int]));
        }
        let ghost r0 = r@;
        r.push(clone_expr(&v[i]));
        assert(r@.subrange(0, r0.len() as int) =~= r0);
        assert(v@.subrange(0, i + 1).subrange(0, i as int) =~= v@.subrange(0, i as int));
        i = i + 1;
    }
    assert(v@.subrange(0, v@.len() as int) =~= v@);
    r
}

pub(crate) fn clone_params(v: &Vec<Param>) -> (r: Vec<Param>)
    ensures
        r@.len() == v@.len(),
        params_view(r@) == params_view(v@),
{
    let mut r: Vec<Param> = Vec::new();
    let mut i: usize = 0;
    while i < v.len()
        invariant
            i <= v@.len(),
            r@.len() == i,
            forall|k: int| 0 <= k < i ==> param_view(#[trigger] r@[k]) == param_view(v@[k]),
        decreases v@.len() - i,
    {
        let p = &v[i];
        let name = p.name.clone();
        assert(name@ == p.name@);
        r.push(Param { name, type_annotation: clone_opt_string(&p.type_annotation), variadic: p.variadic });
        i = i + 1;
    }
    assert(params_view(r@) =~= params_view(v@));
    r
}

fn clone_entries(v: &Vec<TableEntry>) -> (r: Vec<TableEntry>)
    ensures
        r@.len() == v@.len(),
        entries_view(r@) == entries_view(v@),
    decreases v,
{
    let mut r: Vec<TableEntry> = Vec::new();
    let mut i: usize = 0;
    while i < v.len()
        invariant
            i <= v@.len(),
            r@.len() == i,
            entries_view(r@) == entries_view(v@.subrange(0, i as int)),
        decreases v@.len() - i,
    {
        proof {
            assert(decreases_to!(v => v@[i as int]));
        }
        let e = &v[i];
        let ghost r0 = r@;
        r.push(TableEntry { key: clone_opt_string(&e.key), value: clone_expr(&e.value) });
        assert(r@.subrange(0, r0.len() as int) =~= r0);
        assert(v@.subrange(0, i + 1).subrange(0, i as int) =~= v@.subrange(0, i as int));
        i = i + 1;
    }
    assert(v@.subrange(0, v@.len() as int) =~= v@);
    r
}

fn clone_opt_expr(e: &Option<Expr>) -> (r: Option<Expr>)
    ensures
        opt_expr_view(r) == opt_expr_view(*e),
    decreases e,
{
    match e {
        Some(x) => Some(clone_expr(x)),
        None => None,
    }
}

pub(crate) fn clone_strings(v: &Vec<String>) -> (r: Vec<String>)
    ensures
        r@ == v@,
        strings_view(r@) == strings_view(v@),
{
    let mut r: Vec<String> = Vec::new();
    let mut i: usize = 0;
    while i < v.len()
        invariant
            i <= v@.len(),
            r@ == v@.take(i as int),
        decreases v@.len() - i,
    {
        r.push(v[i].clone());
        assert(v@.take(i + 1) == v@.take(i as int).push(v@[i as int]));
        i = i + 1;
    }
    assert(v@.take(v@.len() as int) == v@);
    r
}

/// A deep copy of a statement.
pub fn clone_stmt(s: &Stmt) -> (r: Stmt)
    ensures
        stmt_view(r) == stmt_view(*s),
    decreases s,
{
    match s {
        Stmt::Local { name, is_const, type_annotation, initializer } => Stmt::Local {
            name: name.clone(),
            is_const: *is_const,
            type_annotation: clone_opt_string(type_annotation),
            initializer: clone_opt_expr(initializer),
        },
        Stmt::LocalMany { names, is_const, initializers } => Stmt::LocalMany {
            names: clone_strings(names),
            is_const: *is_const,
            initializers: clone_exprs(initializers),
        },
        Stmt::Assign { target, value, is_const } => Stmt::Assign {
            target: clone_expr(target),
            value: clone_expr(value),
            is_const: *is_const,
        },
        Stmt::AssignMany { targets, values } => Stmt::AssignMany {
            targets: clone_exprs(targets),
            values: clone_exprs(values),
        },
        Stmt::Increment { target, amount } => Stmt::Increment { target: clone_expr(target), amount: *amount },
        Stmt::Function { name, is_const, params, return_type, body } => Stmt::Function {
            name: clone_opt_string(name),
            is_const: *is_const,
            params: clone_params(params),
            return_type: clone_opt_string(return_type),
            body: clone_stmts(body),
        },
        Stmt::If { condition, then_branch, else_if_branches, else_branch } => Stmt::If {
            condition: clone_expr(condition),
            then_branch: clone_stmts(then_branch),
            else_if_branches: clone_branches(else_if_branches),
            else_branch: match else_branch {
                Some(b) => Some(clone_stmts(b)),
                None => None,
            },
        },
        Stmt::For { vars, source, body } => Stmt::For {
            vars: clone_strings(vars),
            source: clone_expr(source),
            body: clone_stmts(body),
        },
        Stmt::NumericFor { var, start, end, step, body } => Stmt::NumericFor {
            var: var.clone(),
            start: clone_expr(start),
            end: clone_expr(end),
            step: clone_opt_expr(step),
            body: clone_stmts(body),
        },
        Stmt::While { condition, body } => Stmt::While { condition: clone_expr(condition), body: clone_stmts(body) },
        Stmt::Repeat { body, condition } => Stmt::Repeat { body: clone_stmts(body), condition: clone_expr(condition) },
        Stmt::Return(values) => Stmt::Return(clone_exprs(values)),
        Stmt::Break => Stmt::Break,
        Stmt::Continue => Stmt::Continue,
        Stmt::Expr(e) => Stmt::Expr(clone_expr(e)),
    }
}

/// A deep copy of a list of statements.
pub fn clone_stmts(v: &Vec<Stmt>) -> (r: Vec<Stmt>)
    ensures
        r@.len() == v@.len(),
        stmts_view(r@) == stmts_view(v@),
    decreases v,
{
    let mut r: Vec<Stmt> = Vec::new();
    let mut i: usize = 0;
    while i < v.len()
        invariant
            i <= v@.len(),
            r@.len() == i,
            stmts_view(r@) == stmts_view(v@.subrange(0, i as int)),
        decreases v@.len() - i,
    {
        proof {
            assert(decreases_to!(v => v@[i as int]));
        }
        let ghost r0 = r@;
        r.push(clone_stmt(&v[i]));
        assert(r@.subrange(0, r0.len() as int) =~= r0);
        assert(v@.subrange(0, i + 1).subrange(0, i as int) =~= v@.subrange(0, i as int));
        i = i + 1;
    }
    assert(v@.subrange(0, v@.len() as int) =~= v@);
    r
}

fn clone_branches(v: &Vec<(Expr, Vec<Stmt>)>) -> (r: Vec<(Expr, Vec<Stmt>)>)
    ensures
        r@.len() == v@.len(),
        branches_view(r@) == branches_view(v@),
    decreases v,
{
    let mut r: Vec<(Expr, Vec<Stmt>)> = Vec::new();
    let mut i: usize = 0;
    while i < v.len()
        invariant
            i <= v@.len(),
            r@.len() == i,
            branches_view(r@) == branches_view(v@.subrange(0, i as int)),
        decreases v@.len() - i,
    {
        proof {
            assert(decreases_to!(v => v@[i as int]));
        }
        let b = &v[i];
        let ghost r0 = r@;
        r.push((clone_expr(&b.0), clone_stmts(&b.1)));
        assert(r@.subrange(0, r0.len() as int) =~= r0);
        assert(v@.subrange(0, i + 1).subrange(0, i as int) =~= v@.subrange(0, i as int));
        i = i + 1;
    }
    assert(v@.subrange(0, v@.len() as int) =~= v@);
    r
}

/// An error message made of a fixed text and a token text.
fn message(prefix: &str, detail: &[char]) -> (r: String)
    ensures
        r@ == prefix@ + detail@,
{
    let mut s = String::from_str(prefix);
    let d = string_from_chars(detail);
    s.append(d.as_str());
    s
}

/// Whether an expression result is what the grammar gives: `Ok` exactly
/// where `g` is `Some`, with that tree and end position.
pub open spec fn expr_result(r: Result<Expr, String>, g: Option<(ExprV, int)>, at: int) -> bool {
    &&& r is Ok <==> g is Some
    &&& r matches Ok(e) ==> g == Some((expr_view(e), at))
}

/// Whether a statement result is what the grammar gives.
pub open spec fn stmt_result(r: Result<Stmt, String>, g: Option<(StmtV, int)>, at: int) -> bool {
    &&& r is Ok <==> g is Some
    &&& r matches Ok(x) ==> g == Some((stmt_view(x), at))
}

/// Whether a statement-list result is what the grammar gives.
pub open spec fn stmts_result(r: Result<Vec<Stmt>, String>, g: Option<(Seq<StmtV>, int)>, at: int) -> bool {
    &&& r is Ok <==> g is Some
    &&& r matches Ok(x) ==> g == Some((stmts_view(x@), at))
}

/// Whether an expression-list result is what the grammar gives.
pub open spec fn exprs_result(r: Result<Vec<Expr>, String>, g: Option<(Seq<ExprV>, int)>, at: int) -> bool {
    &&& r is Ok <==> g is Some
    &&& r matches Ok(x) ==> g == Some((exprs_view(x@), at))
}

/// Whether a parameter-list result is what the grammar gives.
pub open spec fn params_result(r: Result<Vec<Param>, String>, g: Option<(Seq<ParamV>, int)>, at: int) -> bool {
    &&& r is Ok <==> g is Some
    &&& r matches Ok(x) ==> g == Some((params_view(x@), at))
}

/// The texts of a list of words.
pub open spec fn words_view(words: Seq<&str>) -> Seq<Seq<char>> {
    words.map_values(|w: &str| w@)
}

impl Parser {
    /// The parser's invariant: a token list that ends with the only
    /// end-of-file token, and a position within it.
    pub closed spec fn wf(&self) -> bool {
        &&& self.tokens@.len() >= 1
        &&& self.tokens@.len() <= usize::MAX
        &&& self.tokens@.last().kind == TokKind::Eof
        &&& forall|i: int|
            0 <= i < self.tokens@.len() - 1 ==> (#[trigger] self.tokens@[i]).kind != TokKind::Eof
        &&& self.pos < self.tokens@.len()
    }

    /// The tokens the parser reads.
    pub closed spec fn toks(&self) -> Seq<Tok> {
        self.tokens@
    }

    /// The index of the next token.
    pub closed spec fn at(&self) -> int {
        self.pos as int
    }

    /// The next token.
    pub closed spec fn cur(&self) -> Tok {
        self.tokens@[self.pos as int]
    }

    /// A parser over the tokens of `source`, positioned at the first token.
    pub fn new(source: &str) -> (r: Self)
        requires
            source@.len() < usize::MAX,
        ensures
            r.wf(),
            r.at() == 0,
            tokens_ok(source@, r.toks()),
            toks_view(r.toks()) == lex(source@),
    {
        let src = chars_of(source);
        let (tokens, _docs) = tokenize_chars(&src);
        let r = Parser { tokens, pos: 0 };
        assert forall|i: int| 0 <= i < r.tokens@.len() - 1 implies (
        #[trigger] r.tokens@[i]).kind != TokKind::Eof by {
            let n = r.tokens@.len() - 1;
            assert(r.tokens@[i].start < r.tokens@[n].start);
        }
        r
    }

    fn peek(&self) -> (t: &Tok)
        requires
            self.wf(),
        ensures
            *t == self.cur(),
    {
        &self.tokens[self.pos]
    }

    fn is_eof(&self) -> (r: bool)
        requires
            self.wf(),
        ensures
            r == (self.cur().kind == TokKind::Eof),
    {
        self.peek().kind == TokKind::Eof
    }

    fn check_keyword(&self, value: &str) -> (r: bool)
        requires
            self.wf(),
        ensures
            r == (self.cur().kind == TokKind::Keyword && self.cur().value@ == value@),
    {
        let t = self.peek();
        t.kind == TokKind::Keyword && chars_eq_str(t.value.as_slice(), value)
    }

    fn check_symbol(&self, value: &str) -> (r: bool)
        requires
            self.wf(),
        ensures
            r == (self.cur().kind == TokKind::Symbol && self.cur().value@ == value@),
    {
        let t = self.peek();
        t.kind == TokKind::Symbol && chars_eq_str(t.value.as_slice(), value)
    }

    /// Moves past the next token, which is not the end of file.
    fn bump(&mut self)
        requires
            old(self).wf(),
            old(self).cur().kind != TokKind::Eof,
        ensures
            final(self).wf(),
            final(self).toks() == old(self).toks(),
            final(self).at() == old(self).at() + 1,
    {
        self.pos = self.pos + 1;
    }

    fn match_symbol(&mut self, value: &str) -> (r: bool)
        requires
            old(self).wf(),
        ensures
            final(self).wf(),
            final(self).toks() == old(self).toks(),
            r == (old(self).cur().kind == TokKind::Symbol && old(self).cur().value@ == value@),
            final(self).at() == old(self).at() + if r {
                1int
            } else {
                0int
            },
    {
        if self.check_symbol(value) {
            self.bump();
            true
        } else {
            false
        }
    }

    fn match_keyword(&mut self, value: &str) -> (r: bool)
        requires
            old(self).wf(),
        ensures
            final(self).wf(),
            final(self).toks() == old(self).toks(),
            r == (old(self).cur().kind == TokKind::Keyword && old(self).cur().value@ == value@),
            final(self).at() == old(self).at() + if r {
                1int
            } else {
                0int
            },
    {
        if self.check_keyword(value) {
            self.bump();
            true
        } else {
            false
        }
    }

    fn expect_symbol(&mut self, value: &str) -> (r: Result<(), String>)
        requires
            old(self).wf(),
        ensures
            final(self).wf(),
            final(self).toks() == old(self).toks(),
            final(self).at() >= old(self).at(),
            r is Ok == (old(self).cur().kind == TokKind::Symbol && old(self).cur().value@
                == value@),
            r is Ok ==> final(self).at() == old(self).at() + 1,
    {
        if self.match_symbol(value) {
            Ok(())
        } else {
            let v = chars_of(value);
            Err(message("expected symbol ", v.as_slice()))
        }
    }

    fn expect_keyword(&mut self, value: &str) -> (r: Result<(), String>)
        requires
            old(self).wf(),
        ensures
            final(self).wf(),
            final(self).toks() == old(self).toks(),
            final(self).at() >= old(self).at(),
            r is Ok == (old(self).cur().kind == TokKind::Keyword && old(self).cur().value@
                == value@),
            r is Ok ==> final(self).at() == old(self).at() + 1,
    {
        if self.match_keyword(value) {
            Ok(())
        } else {
            let v = chars_of(value);
            Err(message("expected keyword ", v.as_slice()))
        }
    }

    fn expect_name(&mut self) -> (r: Result<String, String>)
        requires
            old(self).wf(),
        ensures
            final(self).wf(),
            final(self).toks() == old(self).toks(),
            final(self).at() >= old(self).at(),
            r is Ok == (old(self).cur().kind == TokKind::Name),
            r matches Ok(n) ==> n@ == old(self).cur().value@ && final(self).at() == old(
                self,
            ).at() + 1,
    {
        if self.peek().kind == TokKind::Name {
            let n = string_from_chars(self.peek().value.as_slice());
            self.bump();
            Ok(n)
        } else {
            let v = copy_chars(self.peek().value.as_slice(), 0, self.peek().value.len());
            Err(message("expected name, got ", v.as_slice()))
        }
    }

    /// The next token's text and binding strength when it is a binary operator.
    fn peek_binary_op(&self) -> (r: Option<(String, u8)>)
        requires
            self.wf(),
        ensures
            r is Some == binop_prec(self.cur().kind, self.cur().value@) is Some,
            r matches Some((op, prec)) ==> op@ == self.cur().value@ && Some(prec) == binop_prec(
                self.cur().kind,
                self.cur().value@,
            ),
    {
        let t = self.peek();
        if t.kind != TokKind::Symbol && t.kind != TokKind::Keyword {
            return None;
        }
        let v = t.value.as_slice();
        let prec: u8 = if chars_eq_str(v, "or") {
            1
        } else if chars_eq_str(v, "and") {
            2
        } else if chars_eq_str(v, "==") || chars_eq_str(v, "!=") || chars_eq_str(v, "<")
            || chars_eq_str(v, "<=") || chars_eq_str(v, ">") || chars_eq_str(v, ">=") {
            3
        } else if chars_eq_str(v, "|") {
            4
        } else if chars_eq_str(v, "~") {
            5
        } else if chars_eq_str(v, "&") {
            6
        } else if chars_eq_str(v, "<<") || chars_eq_str(v, ">>") {
            7
        } else if chars_eq_str(v, "..") {
            8
        } else if chars_eq_str(v, "+") || chars_eq_str(v, "-") {
            9
        } else if chars_eq_str(v, "*") || chars_eq_str(v, "/") || chars_eq_str(v, "//")
            || chars_eq_str(v, "%") {
            10
        } else if chars_eq_str(v, "^") {
            11
        } else if chars_eq_str(v, "??") {
            12
        } else {
            return None;
        };
        Some((string_from_chars(v), prec))
    }

    /// Consumes an `op=` token and returns the operator `op` it applies.
    fn match_compound_assignment(&mut self) -> (r: Option<String>)
        requires
            old(self).wf(),
        ensures
            final(self).wf(),
            final(self).toks() == old(self).toks(),
            r is Some == (old(self).cur().kind == TokKind::Symbol && is_compound_assign(
                old(self).cur().value@,
            )),
            r matches Some(op) ==> op@ == old(self).cur().value@.drop_last(),
            final(self).at() == old(self).at() + if r is Some {
                1int
            } else {
                0int
            },
    {
        let t = self.peek();
        if t.kind != TokKind::Symbol {
            return None;
        }
        let v = t.value.as_slice();
        if chars_eq_str(v, "+=") || chars_eq_str(v, "-=") || chars_eq_str(v, "*=")
            || chars_eq_str(v, "/=") || chars_eq_str(v, "//=") || chars_eq_str(v, "%=")
            || chars_eq_str(v, "^=") || chars_eq_str(v, "..=") || chars_eq_str(v, "<<=")
            || chars_eq_str(v, ">>=") || chars_eq_str(v, "&=") || chars_eq_str(v, "|=")
            || chars_eq_str(v, "??=") {
            proof {
                reveal_strlit("+=");
                reveal_strlit("-=");
                reveal_strlit("*=");
                reveal_strlit("/=");
                reveal_strlit("//=");
                reveal_strlit("%=");
                reveal_strlit("^=");
                reveal_strlit("..=");
                reveal_strlit("<<=");
                reveal_strlit(">>=");
                reveal_strlit("&=");
                reveal_strlit("|=");
                reveal_strlit("??=");
            }
            let op = copy_chars(v, 0, v.len() - 1);
            let s = string_from_chars(op.as_slice());
            self.bump();
            Some(s)
        } else {
            None
        }
    }

    /// Whether `object:name(` starts here: a method call rather than a type
    /// annotation.
    fn check_method_call(&self) -> (r: bool)
        requires
            self.wf(),
        ensures
            r == (self.cur().kind == TokKind::Symbol && self.cur().value@ == ":"@ && self.at() + 2
                < self.toks().len() && self.toks()[self.at() + 1].kind == TokKind::Name
                && self.toks()[self.at() + 2].kind == TokKind::Symbol && self.toks()[self.at()
                + 2].value@ == "("@),
    {
        if !self.check_symbol(":") {
            return false;
        }
        if self.pos + 2 >= self.tokens.len() {
            return false;
        }
        self.tokens[self.pos + 1].kind == TokKind::Name && self.tokens[self.pos + 2].kind
            == TokKind::Symbol && chars_eq_str(self.tokens[self.pos + 2].value.as_slice(), "(")
    }

    fn consume_semicolon_if_any(&mut self)
        requires
            old(self).wf(),
        ensures
            final(self).wf(),
            final(self).toks() == old(self).toks(),
            final(self).at() >= old(self).at(),
            !(final(self).cur().kind == TokKind::Symbol && final(self).cur().value@ == ";"@),
            final(self).at() == skip_semis(old(self).toks(), old(self).at()),
    {
        while self.match_symbol(";")
            invariant
                self.wf(),
                self.toks() == old(self).toks(),
                self.at() >= old(self).at(),
                skip_semis(self.toks(), self.at()) == skip_semis(old(self).toks(), old(self).at()),
            decreases self.toks().len() - self.at(),
        {
        }
    }

    /// Skips attribute groups in square brackets after an expression
    /// statement.
    fn consume_bracket_attributes(&mut self)
        requires
            old(self).wf(),
        ensures
            final(self).wf(),
            final(self).toks() == old(self).toks(),
            final(self).at() >= old(self).at(),
            final(self).at() == skip_attrs(old(self).toks(), old(self).at()),
    {
        loop
            invariant
                self.wf(),
                self.toks() == old(self).toks(),
                self.at() >= old(self).at(),
                skip_attrs(self.toks(), self.at()) == skip_attrs(old(self).toks(), old(self).at()),
            ensures
                self.wf(),
                self.toks() == old(self).toks(),
                self.at() >= old(self).at(),
                self.at() == skip_attrs(old(self).toks(), old(self).at()),
            decreases self.toks().len() - self.at(),
        {
            let ghost p0 = self.at();
            if !self.match_symbol("[") {
                break;
            }
            while !self.is_eof() && !self.check_symbol("]")
                invariant
                    self.wf(),
                    self.toks() == old(self).toks(),
                    self.at() > p0 >= old(self).at(),
                    skip_to_close(self.toks(), self.at()) == skip_to_close(self.toks(), p0 + 1),
                decreases self.toks().len() - self.at(),
            {
                self.bump();
            }
            self.match_symbol("]");
        }
    }

    /// Reads a type annotation: the tokens up to the end of the line, a
    /// separator or a statement keyword outside brackets, joined by spaces.
    fn read_type_annotation(&mut self) -> (r: String)
        requires
            old(self).wf(),
        ensures
            final(self).wf(),
            final(self).toks() == old(self).toks(),
            final(self).at() >= old(self).at(),
            (r@, final(self).at()) == type_ann(old(self).toks(), old(self).at()),
    {
        let start = self.pos;
        let mut out: Vec<char> = Vec::new();
        let mut braces: usize = 0;
        let mut brackets: usize = 0;
        let mut parens: usize = 0;
        let mut last_line: Option<usize> = None;
        while !self.is_eof()
            invariant
                self.wf(),
                self.toks() == old(self).toks(),
                start == old(self).at() <= self.at(),
                braces + brackets + parens <= self.at() - start,
                ann_loop(self.toks(), self.at(), braces as int, brackets as int, parens as int, last_line, out@)
                    == type_ann(old(self).toks(), old(self).at()),
            ensures
                self.wf(),
                self.toks() == old(self).toks(),
                start == old(self).at() <= self.at(),
                (out@, self.at()) == type_ann(old(self).toks(), old(self).at()),
            decreases self.toks().len() - self.at(),
        {
            let kind = self.peek().kind;
            let line = self.peek().line;
            let closed = braces == 0 && brackets == 0 && parens == 0;
            if closed {
                if let Some(l) = last_line {
                    if l != line {
                        break;
                    }
                }
            }
            if kind == TokKind::Symbol && closed && (self.check_symbol("=") || self.check_symbol(
                ",",
            ) || self.check_symbol(")") || self.check_symbol(";")) {
                break;
            }
            if kind == TokKind::Keyword && closed && (self.check_keyword("end")
                || self.check_keyword("do") || self.check_keyword("then") || self.check_keyword(
                "else",
            ) || self.check_keyword("elseif") || self.check_keyword("until")
                || self.check_keyword("return") || self.check_keyword("local")
                || self.check_keyword("const") || self.check_keyword("global")
                || self.check_keyword("if") || self.check_keyword("for") || self.check_keyword(
                "while",
            ) || self.check_keyword("repeat")) {
                break;
            }
            last_line = Some(line);
            if kind == TokKind::Symbol {
                if self.check_symbol("{") {
                    braces = braces + 1;
                } else if self.check_symbol("}") && braces > 0 {
                    braces = braces - 1;
                } else if self.check_symbol("[") {
                    brackets = brackets + 1;
                } else if self.check_symbol("]") && brackets > 0 {
                    brackets = brackets - 1;
                } else if self.check_symbol("(") {
                    parens = parens + 1;
                } else if self.check_symbol(")") && parens > 0 {
                    parens = parens - 1;
                }
            }
            if out.len() > 0 {
                out.push(' ');
            }
            let ghost sep = out@;
            let v = &self.peek().value;
            let mut k: usize = 0;
            while k < v.len()
                invariant
                    k <= v@.len(),
                    out@ == sep + v@.take(k as int),
                decreases v@.len() - k,
            {
                out.push(v[k]);
                k = k + 1;
                assert(out@ =~= sep + v@.take(k as int));
            }
            assert(v@.take(v@.len() as int) =~= v@);
            self.bump();
        }
        string_from_chars(out.as_slice())
    }

    /// Parses statements up to the end of input or a block-closing keyword.
    pub fn parse_program(&mut self) -> (r: Result<Vec<Stmt>, String>)
        requires
            old(self).wf(),
        ensures
            final(self).wf(),
            final(self).toks() == old(self).toks(),
            final(self).at() >= old(self).at(),
            r is Ok ==> {
                ||| final(self).cur().kind == TokKind::Eof
                ||| (final(self).cur().kind == TokKind::Keyword && (final(self).cur().value@
                    == "end"@ || final(self).cur().value@ == "else"@ || final(self).cur().value@
                    == "elseif"@ || final(self).cur().value@ == "until"@))
            },
            stmts_result(r, program_loop(old(self).toks(), old(self).at(), Seq::empty()), final(self).at()),
    {
        let ghost ts = self.toks();
        let ghost total = program_loop(ts, self.at(), Seq::empty());
        let mut program: Vec<Stmt> = Vec::new();
        assert(stmts_view(program@) =~= Seq::<StmtV>::empty());
        loop
            invariant_except_break
                total == program_loop(ts, self.at(), stmts_view(program@)),
            invariant
                self.wf(),
                self.toks() == old(self).toks(),
                ts == old(self).toks(),
                self.at() >= old(self).at(),
                total == program_loop(ts, old(self).at(), Seq::empty()),
            ensures
                total == Some((stmts_view(program@), self.at())),
                self.wf(),
                self.toks() == old(self).toks(),
                self.at() >= old(self).at(),
                self.cur().kind == TokKind::Eof || (self.cur().kind == TokKind::Keyword && (
                self.cur().value@ == "end"@ || self.cur().value@ == "else"@ || self.cur().value@
                    == "elseif"@ || self.cur().value@ == "until"@)),
            decreases self.toks().len() - self.at(),
        {
            if self.is_eof() {
                break;
            }
            if self.check_keyword("end") || self.check_keyword("else") || self.check_keyword(
                "elseif",
            ) || self.check_keyword("until") {
                break;
            }
            if self.match_symbol(";") {
                continue;
            }
            let s = self.parse_statement()?;
            proof {
                lemma_stmts_view_push(program@, s);
            }
            program.push(s);
            self.consume_semicolon_if_any();
        }
        Ok(program)
    }

    #[verifier::rlimit(60)]
    fn parse_statement(&mut self) -> (r: Result<Stmt, String>)
        requires
            old(self).wf(),
        ensures
            final(self).wf(),
            final(self).toks() == old(self).toks(),
            final(self).at() >= old(self).at(),
            r is Ok ==> final(self).at() > old(self).at(),
            stmt_result(r, stmt_g(old(self).toks(), old(self).at()), final(self).at()),
        decreases old(self).toks().len() - old(self).at(), 8nat,
    {
        if self.check_keyword("local") || self.check_keyword("const") || self.check_keyword(
            "global",
        ) {
            return self.parse_binding();
        }
        if self.check_keyword("function") {
            return self.parse_function(false);
        }
        if self.check_keyword("if") {
            return self.parse_if();
        }
        if self.check_keyword("for") {
            return self.parse_for();
        }
        if self.check_keyword("while") {
            return self.parse_while();
        }
        if self.check_keyword("repeat") {
            return self.parse_repeat();
        }
        if self.check_keyword("return") {
            self.bump();
            if !self.is_eof() && !self.check_keyword("end") && !self.check_keyword("else")
                && !self.check_keyword("elseif") && !self.check_keyword("until") {
                let first = self.parse_expr()?;
                let mut values: Vec<Expr> = Vec::new();
                proof {
                    lemma_exprs_view_push(values@, first);
                    assert(exprs_view(values@) =~= Seq::<ExprV>::empty());
                    assert(values@.push(first) =~= seq![first]);
                }
                values.push(first);
                let values = self.parse_comma_exprs(values)?;
                return Ok(Stmt::Return(values));
            }
            let values: Vec<Expr> = Vec::new();
            assert(exprs_view(values@) =~= Seq::<ExprV>::empty());
            return Ok(Stmt::Return(values));
        }
        if self.check_keyword("break") {
            self.bump();
            return Ok(Stmt::Break);
        }
        if self.check_keyword("continue") {
            self.bump();
            return Ok(Stmt::Continue);
        }
        let expr = self.parse_expr()?;
        self.finish_expr_statement(expr)
    }

    /// Expressions each led by `,`, appended to `acc`.
    fn parse_comma_exprs(&mut self, acc: Vec<Expr>) -> (r: Result<Vec<Expr>, String>)
        requires
            old(self).wf(),
        ensures
            final(self).wf(),
            final(self).toks() == old(self).toks(),
            final(self).at() >= old(self).at(),
            exprs_result(r, comma_exprs(old(self).toks(), old(self).at(), exprs_view(acc@)), final(self).at()),
        decreases old(self).toks().len() - old(self).at(), 4nat,
    {
        if self.match_symbol(",") {
            let e = self.parse_expr()?;
            let mut acc = acc;
            proof {
                lemma_exprs_view_push(acc@, e);
            }
            acc.push(e);
            self.parse_comma_exprs(acc)
        } else {
            Ok(acc)
        }
    }

    /// The rest of a statement that begins with the expression `expr`: an
    /// increment, an assignment (plain, multiple or compound) or the
    /// expression alone with any attribute groups after it.
    #[verifier::rlimit(60)]
    fn finish_expr_statement(&mut self, expr: Expr) -> (r: Result<Stmt, String>)
        requires
            old(self).wf(),
        ensures
            final(self).wf(),
            final(self).toks() == old(self).toks(),
            final(self).at() >= old(self).at(),
            stmt_result(r, expr_stmt_rest(old(self).toks(), expr_view(expr), old(self).at()), final(self).at()),
        decreases old(self).toks().len() - old(self).at(), 7nat,
    {
        let ghost ts = self.toks();
        let ghost q = self.at();
        if self.match_symbol("++") {
            return Ok(Stmt::Increment { target: expr, amount: 1 });
        }
        if self.match_symbol("--") {
            return Ok(Stmt::Increment { target: expr, amount: -1 });
        }
        if self.match_symbol("=") {
            let value = self.parse_expr()?;
            return Ok(Stmt::Assign { target: expr, value, is_const: false });
        }
        if self.check_symbol(",") {
            let mut targets: Vec<Expr> = Vec::new();
            proof {
                lemma_exprs_view_one(expr);
                assert(targets@.push(expr) =~= seq![expr]);
            }
            targets.push(expr);
            let targets = self.parse_comma_exprs(targets)?;
            self.expect_symbol("=")?;
            let first = self.parse_expr()?;
            let mut values: Vec<Expr> = Vec::new();
            proof {
                lemma_exprs_view_one(first);
                assert(values@.push(first) =~= seq![first]);
            }
            values.push(first);
            let values = self.parse_comma_exprs(values)?;
            return Ok(Stmt::AssignMany { targets, values });
        }
        if let Some(op) = self.match_compound_assignment() {
            let right = self.parse_expr()?;
            let target = clone_expr(&expr);
            return Ok(
                Stmt::Assign {
                    target,
                    value: Expr::Binary { left: Box::new(expr), op, right: Box::new(right) },
                    is_const: false,
                },
            );
        }
        self.consume_bracket_attributes();
        Ok(Stmt::Expr(expr))
    }

    #[verifier::rlimit(60)]
    fn parse_binding(&mut self) -> (r: Result<Stmt, String>)
        requires
            old(self).wf(),
        ensures
            final(self).wf(),
            final(self).toks() == old(self).toks(),
            final(self).at() >= old(self).at(),
            r is Ok ==> final(self).at() > old(self).at(),
            stmt_result(r, binding_g(old(self).toks(), old(self).at()), final(self).at()),
        decreases old(self).toks().len() - old(self).at(), 7nat,
    {
        let ghost ts = self.toks();
        let mut is_const = false;
        while self.check_keyword("local") || self.check_keyword("const") || self.check_keyword(
            "global",
        )
            invariant
                self.wf(),
                self.toks() == old(self).toks(),
                ts == old(self).toks(),
                self.at() >= old(self).at(),
                skip_binding_kws(ts, self.at(), is_const) == skip_binding_kws(ts, old(self).at(), false),
            decreases self.toks().len() - self.at(),
        {
            if self.check_keyword("const") {
                is_const = true;
            }
            self.bump();
        }
        if self.check_keyword("function") {
            return self.parse_function(is_const);
        }
        let first = self.expect_name()?;
        let ghost q0 = self.at();
        let no_names: Vec<String> = Vec::new();
        assert(strings_view(no_names@) =~= Seq::<Seq<char>>::empty());
        let segments = self.parse_sep_names(".", no_names)?;
        if segments.len() > 0 {
            self.expect_symbol("=")?;
            let mut target = Expr::Variable(first);
            let ghost fv = ExprV::Variable(ts[q0 - 1].value@);
            let ghost segs = strings_view(segments@);
            let mut i: usize = 0;
            while i < segments.len()
                invariant
                    i <= segments@.len(),
                    segs == strings_view(segments@),
                    expr_view(target) == member_chain(fv, segs.take(i as int)),
                decreases segments@.len() - i,
            {
                let field = segments[i].clone();
                target = Expr::Member { object: Box::new(target), field };
                assert(segs.take(i + 1).drop_last() =~= segs.take(i as int));
                i = i + 1;
            }
            assert(segs.take(segs.len() as int) =~= segs);
            let value = self.parse_expr()?;
            return Ok(Stmt::Assign { target, value, is_const });
        }
        if self.check_symbol(",") {
            let mut names: Vec<String> = Vec::new();
            let ghost fname = first@;
            names.push(first);
            assert(strings_view(names@) =~= seq![fname]);
            let names = self.parse_sep_names(",", names)?;
            self.expect_symbol("=")?;
            let e = self.parse_expr()?;
            let mut initializers: Vec<Expr> = Vec::new();
            proof {
                lemma_exprs_view_one(e);
                assert(initializers@.push(e) =~= seq![e]);
            }
            initializers.push(e);
            let initializers = self.parse_comma_exprs(initializers)?;
            return Ok(Stmt::LocalMany { names, is_const, initializers });
        }
        let type_annotation = if self.match_symbol(":") {
            Some(self.read_type_annotation())
        } else {
            None
        };
        let initializer = if self.match_symbol("=") {
            Some(self.parse_expr()?)
        } else {
            None
        };
        Ok(Stmt::Local { name: first, is_const, type_annotation, initializer })
    }

    /// Names each led by `sep`, appended to `acc`.
    fn parse_sep_names(&mut self, sep: &str, acc: Vec<String>) -> (r: Result<Vec<String>, String>)
        requires
            old(self).wf(),
        ensures
            final(self).wf(),
            final(self).toks() == old(self).toks(),
            final(self).at() >= old(self).at(),
            r is Ok <==> sep_names(old(self).toks(), old(self).at(), sep@, strings_view(acc@)) is Some,
            r matches Ok(v) ==> sep_names(old(self).toks(), old(self).at(), sep@, strings_view(acc@)) == Some(
                (strings_view(v@), final(self).at()),
            ),
        decreases old(self).toks().len() - old(self).at(),
    {
        if self.match_symbol(sep) {
            let n = self.expect_name()?;
            let mut acc = acc;
            let ghost a0 = acc@;
            acc.push(n);
            assert(strings_view(acc@) =~= strings_view(a0).push(n@));
            self.parse_sep_names(sep, acc)
        } else {
            Ok(acc)
        }
    }

    #[verifier::rlimit(60)]
    fn parse_function(&mut self, is_const: bool) -> (r: Result<Stmt, String>)
        requires
            old(self).wf(),
        ensures
            final(self).wf(),
            final(self).toks() == old(self).toks(),
            final(self).at() >= old(self).at(),
            r is Ok ==> final(self).at() > old(self).at(),
            stmt_result(r, function_g(old(self).toks(), old(self).at(), is_const), final(self).at()),
        decreases old(self).toks().len() - old(self).at(), 6nat,
    {
        let ghost ts = self.toks();
        self.expect_keyword("function")?;
        let name = if self.peek().kind == TokKind::Name {
            let first = self.expect_name()?;
            let no_names: Vec<String> = Vec::new();
            assert(strings_view(no_names@) =~= Seq::<Seq<char>>::empty());
            let segments = self.parse_sep_names(".", no_names)?;
            let ghost segs = strings_view(segments@);
            let mut full = chars_of(first.as_str());
            let mut i: usize = 0;
            while i < segments.len()
                invariant
                    i <= segments@.len(),
                    segs == strings_view(segments@),
                    full@ == dotted(first@, segs.take(i as int)),
                decreases segments@.len() - i,
            {
                let seg_chars = chars_of(segments[i].as_str());
                let ghost before = full@;
                full.push('.');
                let mut k: usize = 0;
                while k < seg_chars.len()
                    invariant
                        k <= seg_chars@.len(),
                        full@ == before.push('.') + seg_chars@.take(k as int),
                    decreases seg_chars@.len() - k,
                {
                    full.push(seg_chars[k]);
                    k = k + 1;
                    assert(full@ =~= before.push('.') + seg_chars@.take(k as int));
                }
                assert(seg_chars@.take(seg_chars@.len() as int) =~= seg_chars@);
                assert(segs.take(i + 1).drop_last() =~= segs.take(i as int));
                i = i + 1;
            }
            assert(segs.take(segs.len() as int) =~= segs);
            Some(string_from_chars(full.as_slice()))
        } else {
            None
        };
        let ghost q = self.at();
        let params = if self.match_symbol("(") {
            self.parse_param_list()?
        } else {
            let e: Vec<Param> = Vec::new();
            assert(params_view(e@) =~= Seq::<ParamV>::empty());
            e
        };
        let return_type = if self.match_symbol(":") {
            Some(self.read_type_annotation())
        } else {
            None
        };
        let body = self.parse_block_until("end")?;
        self.expect_keyword("end")?;
        Ok(Stmt::Function { name, is_const, params, return_type, body })
    }

    #[verifier::rlimit(60)]
    fn parse_if(&mut self) -> (r: Result<Stmt, String>)
        requires
            old(self).wf(),
        ensures
            final(self).wf(),
            final(self).toks() == old(self).toks(),
            final(self).at() >= old(self).at(),
            r is Ok ==> final(self).at() > old(self).at(),
            stmt_result(r, if_g(old(self).toks(), old(self).at()), final(self).at()),
        decreases old(self).toks().len() - old(self).at(), 6nat,
    {
        let ghost ts = self.toks();
        let ghost p0 = self.at();
        self.expect_keyword("if")?;
        let condition = self.parse_expr()?;
        self.expect_keyword("then")?;
        let words = ["else", "elseif", "end"];
        assert(words_view(words@) =~= seq!["else"@, "elseif"@, "end"@]);
        let then_branch = self.parse_block_until_any(&words)?;
        let ghost q2 = self.at();
        let ghost total = if_tail(ts, p0, q2, expr_view(condition), stmts_view(then_branch@));
        let mut else_if_branches: Vec<(Expr, Vec<Stmt>)> = Vec::new();
        assert(branches_view(else_if_branches@) =~= Seq::<(ExprV, Seq<StmtV>)>::empty());
        let mut else_branch: Option<Vec<Stmt>> = None;
        while self.check_keyword("elseif")
            invariant
                self.wf(),
                self.toks() == old(self).toks(),
                ts == old(self).toks(),
                p0 == old(self).at(),
                self.at() > old(self).at(),
                q2 > p0,
                self.at() >= q2,
                if_g(ts, p0) == total,
                total == if_tail(ts, p0, q2, expr_view(condition), stmts_view(then_branch@)),
                elseif_loop(ts, q2, Seq::empty()) == elseif_loop(ts, self.at(), branches_view(else_if_branches@)),
            decreases self.toks().len() - self.at(),
        {
            self.expect_keyword("elseif")?;
            let next_condition = self.parse_expr()?;
            self.expect_keyword("then")?;
            let words = ["else", "elseif", "end"];
            assert(words_view(words@) =~= seq!["else"@, "elseif"@, "end"@]);
            let next_branch = self.parse_block_until_any(&words)?;
            proof {
                lemma_branches_view_push(else_if_branches@, (next_condition, next_branch));
            }
            else_if_branches.push((next_condition, next_branch));
        }
        let ghost q3 = self.at();
        assert(elseif_loop(ts, q2, Seq::empty()) == Some((branches_view(else_if_branches@), q3)));
        if self.check_keyword("else") {
            self.expect_keyword("else")?;
            else_branch = Some(self.parse_block_until("end")?);
        }
        self.expect_keyword("end")?;
        Ok(Stmt::If { condition, then_branch, else_if_branches, else_branch })
    }

    #[verifier::rlimit(60)]
    fn parse_for(&mut self) -> (r: Result<Stmt, String>)
        requires
            old(self).wf(),
        ensures
            final(self).wf(),
            final(self).toks() == old(self).toks(),
            final(self).at() >= old(self).at(),
            r is Ok ==> final(self).at() > old(self).at(),
            stmt_result(r, for_g(old(self).toks(), old(self).at()), final(self).at()),
        decreases old(self).toks().len() - old(self).at(), 6nat,
    {
        let ghost ts = self.toks();
        self.expect_keyword("for")?;
        let first_name = self.expect_name()?;
        if self.match_symbol("=") {
            let start = self.parse_expr()?;
            self.expect_symbol(",")?;
            let end = self.parse_expr()?;
            let step = if self.match_symbol(",") {
                Some(self.parse_expr()?)
            } else {
                None
            };
            let ghost q3 = self.at();
            let body = self.parse_do_block()?;
            return Ok(Stmt::NumericFor { var: first_name, start, end, step, body });
        }
        let mut vars: Vec<String> = Vec::new();
        let ghost n1 = first_name@;
        vars.push(first_name);
        if self.match_symbol(",") {
            let second = self.expect_name()?;
            let ghost n2 = second@;
            vars.push(second);
            assert(strings_view(vars@) =~= seq![n1, n2]);
        } else {
            assert(strings_view(vars@) =~= seq![n1]);
        }
        self.expect_keyword("in")?;
        let source = self.parse_expr()?;
        let body = self.parse_do_block()?;
        Ok(Stmt::For { vars, source, body })
    }

    /// `do` statements `end`.
    fn parse_do_block(&mut self) -> (r: Result<Vec<Stmt>, String>)
        requires
            old(self).wf(),
        ensures
            final(self).wf(),
            final(self).toks() == old(self).toks(),
            final(self).at() >= old(self).at(),
            r is Ok ==> final(self).at() > old(self).at(),
            stmts_result(r, do_block(old(self).toks(), old(self).at()), final(self).at()),
        decreases old(self).toks().len() - old(self).at(), 11nat,
    {
        self.expect_keyword("do")?;
        let body = self.parse_block_until("end")?;
        self.expect_keyword("end")?;
        Ok(body)
    }

    fn parse_while(&mut self) -> (r: Result<Stmt, String>)
        requires
            old(self).wf(),
        ensures
            final(self).wf(),
            final(self).toks() == old(self).toks(),
            final(self).at() >= old(self).at(),
            r is Ok ==> final(self).at() > old(self).at(),
            stmt_result(r, while_g(old(self).toks(), old(self).at()), final(self).at()),
        decreases old(self).toks().len() - old(self).at(), 6nat,
    {
        self.expect_keyword("while")?;
        let condition = self.parse_expr()?;
        let body = self.parse_do_block()?;
        Ok(Stmt::While { condition, body })
    }

    fn parse_repeat(&mut self) -> (r: Result<Stmt, String>)
        requires
            old(self).wf(),
        ensures
            final(self).wf(),
            final(self).toks() == old(self).toks(),
            final(self).at() >= old(self).at(),
            r is Ok ==> final(self).at() > old(self).at(),
            stmt_result(r, repeat_g(old(self).toks(), old(self).at()), final(self).at()),
        decreases old(self).toks().len() - old(self).at(), 6nat,
    {
        self.expect_keyword("repeat")?;
        let body = self.parse_block_until("until")?;
        self.expect_keyword("until")?;
        let condition = self.parse_expr()?;
        Ok(Stmt::Repeat { body, condition })
    }

    /// Parses a parameter list after its opening parenthesis, through the
    /// closing one.
    fn parse_param_list(&mut self) -> (r: Result<Vec<Param>, String>)
        requires
            old(self).wf(),
        ensures
            final(self).wf(),
            final(self).toks() == old(self).toks(),
            final(self).at() >= old(self).at(),
            r is Ok ==> final(self).at() > old(self).at(),
            params_result(r, param_list(old(self).toks(), old(self).at()), final(self).at()),
    {
        let ghost ts = self.toks();
        let mut params: Vec<Param> = Vec::new();
        assert(params_view(params@) =~= Seq::<ParamV>::empty());
        if self.check_symbol(")") {
            self.expect_symbol(")")?;
            return Ok(params);
        }
        let ghost total = param_loop(ts, self.at(), Seq::empty());
        loop
            invariant_except_break
                total == param_loop(ts, self.at(), params_view(params@)),
            invariant
                self.wf(),
                self.toks() == old(self).toks(),
                ts == old(self).toks(),
                self.at() >= old(self).at(),
                total == param_list(ts, old(self).at()),
            ensures
                self.wf(),
                self.toks() == old(self).toks(),
                self.at() > old(self).at(),
                total == Some((params_view(params@), self.at())),
            decreases self.toks().len() - self.at(),
        {
            let ghost pv = params_view(params@);
            if self.match_symbol("...") {
                let type_annotation = if self.match_symbol(":") {
                    Some(self.read_type_annotation())
                } else {
                    None
                };
                let dots = String::from_str("...");
                proof {
                    reveal_strlit("...");
                }
                params.push(Param { name: dots, type_annotation, variadic: true });
                assert(params_view(params@) =~= pv.push(
                    ParamV { name: "..."@, type_annotation: opt_text(type_annotation), variadic: true },
                ));
                self.expect_symbol(")")?;
                break;
            }
            let name = self.expect_name()?;
            let type_annotation = if self.match_symbol(":") {
                Some(self.read_type_annotation())
            } else {
                None
            };
            let ghost pn = ParamV { name: name@, type_annotation: opt_text(type_annotation), variadic: false };
            params.push(Param { name, type_annotation, variadic: false });
            assert(params_view(params@) =~= pv.push(pn));
            if self.match_symbol(",") {
                continue;
            }
            self.expect_symbol(")")?;
            break;
        }
        Ok(params)
    }

    fn parse_block_until(&mut self, end_kw: &str) -> (r: Result<Vec<Stmt>, String>)
        requires
            old(self).wf(),
        ensures
            final(self).wf(),
            final(self).toks() == old(self).toks(),
            final(self).at() >= old(self).at(),
            stmts_result(r, block_loop(old(self).toks(), old(self).at(), seq![end_kw@], Seq::empty()), final(self).at()),
        decreases old(self).toks().len() - old(self).at(), 10nat,
    {
        let words = [end_kw];
        assert(words_view(words@) =~= seq![end_kw@]);
        self.parse_block_until_any(&words)
    }

    fn check_any_keyword(&self, words: &[&str]) -> (r: bool)
        requires
            self.wf(),
        ensures
            r == exists|i: int|
                0 <= i < words@.len() && self.cur().kind == TokKind::Keyword && self.cur().value@
                    == (#[trigger] words@[i])@,
    {
        let mut i: usize = 0;
        while i < words.len()
            invariant
                self.wf(),
                i <= words@.len(),
                forall|k: int|
                    0 <= k < i ==> !(self.cur().kind == TokKind::Keyword && self.cur().value@
                        == (#[trigger] words@[k])@),
            decreases words@.len() - i,
        {
            if self.check_keyword(words[i]) {
                return true;
            }
            i = i + 1;
        }
        false
    }

    fn parse_block_until_any(&mut self, end_words: &[&str]) -> (r: Result<Vec<Stmt>, String>)
        requires
            old(self).wf(),
        ensures
            final(self).wf(),
            final(self).toks() == old(self).toks(),
            final(self).at() >= old(self).at(),
            stmts_result(r, block_loop(old(self).toks(), old(self).at(), words_view(end_words@), Seq::empty()), final(self).at()),
        decreases old(self).toks().len() - old(self).at(), 9nat,
    {
        let ghost ts = self.toks();
        let ghost ws = words_view(end_words@);
        let ghost total = block_loop(ts, self.at(), ws, Seq::empty());
        let mut block: Vec<Stmt> = Vec::new();
        assert(stmts_view(block@) =~= Seq::<StmtV>::empty());
        while !self.is_eof()
            invariant
                self.wf(),
                self.toks() == old(self).toks(),
                ts == old(self).toks(),
                ws == words_view(end_words@),
                self.at() >= old(self).at(),
                total == block_loop(ts, old(self).at(), ws, Seq::empty()),
                total == block_loop(ts, self.at(), ws, stmts_view(block@)),
            ensures
                self.wf(),
                self.toks() == old(self).toks(),
                self.at() >= old(self).at(),
                total == Some((stmts_view(block@), self.at())),
            decreases self.toks().len() - self.at(),
        {
            if self.match_symbol(";") {
                continue;
            }
            if self.check_any_keyword(end_words) {
                proof {
                    let i = choose|i: int|
                        0 <= i < end_words@.len() && self.cur().kind == TokKind::Keyword && self.cur().value@
                            == (#[trigger] end_words@[i])@;
                    assert(is_kw(ts[self.at()], ws[i]));
                }
                break;
            }
            proof {
                assert forall|i: int| 0 <= i < ws.len() implies !is_kw(ts[self.at()], #[trigger] ws[i]) by {
                    assert(ws[i] == end_words@[i]@);
                }
            }
            let s = self.parse_statement()?;
            proof {
                lemma_stmts_view_push(block@, s);
            }
            block.push(s);
        }
        Ok(block)
    }

    fn parse_expr(&mut self) -> (r: Result<Expr, String>)
        requires
            old(self).wf(),
        ensures
            final(self).wf(),
            final(self).toks() == old(self).toks(),
            final(self).at() >= old(self).at(),
            r is Ok ==> final(self).at() > old(self).at(),
            expr_result(r, expr_g(old(self).toks(), old(self).at()), final(self).at()),
        decreases old(self).toks().len() - old(self).at(), 4nat,
    {
        self.parse_precedence(0)
    }

    /// Parses operands joined by binary operators that bind at least as
    /// tightly as `min_prec`; operators of equal strength group to the left.
    fn parse_precedence(&mut self, min_prec: u8) -> (r: Result<Expr, String>)
        requires
            old(self).wf(),
        ensures
            final(self).wf(),
            final(self).toks() == old(self).toks(),
            final(self).at() >= old(self).at(),
            r is Ok ==> final(self).at() > old(self).at(),
            expr_result(r, prec_g(old(self).toks(), old(self).at(), min_prec as int), final(self).at()),
        decreases old(self).toks().len() - old(self).at(), 3nat,
    {
        let ghost ts = self.toks();
        let ghost total = prec_g(ts, self.at(), min_prec as int);
        let mut left = self.parse_prefix()?;
        loop
            invariant
                self.wf(),
                self.toks() == old(self).toks(),
                ts == old(self).toks(),
                self.at() > old(self).at(),
                total == prec_g(ts, old(self).at(), min_prec as int),
                total == prec_loop(ts, self.at(), min_prec as int, expr_view(left)),
            ensures
                self.wf(),
                self.toks() == old(self).toks(),
                self.at() > old(self).at(),
                total == Some((expr_view(left), self.at())),
            decreases self.toks().len() - self.at(),
        {
            if self.is_eof() {
                break;
            }
            let Some((op, prec)) = self.peek_binary_op() else {
                break;
            };
            if prec < min_prec {
                break;
            }
            let ghost q = self.at();
            self.bump();
            let right = self.parse_precedence(prec + 1)?;
            left = Expr::Binary { left: Box::new(left), op, right: Box::new(right) };
        }
        Ok(left)
    }

    #[verifier::rlimit(60)]
    fn parse_prefix(&mut self) -> (r: Result<Expr, String>)
        requires
            old(self).wf(),
        ensures
            final(self).wf(),
            final(self).toks() == old(self).toks(),
            final(self).at() >= old(self).at(),
            r is Ok ==> final(self).at() > old(self).at(),
            expr_result(r, prefix_g(old(self).toks(), old(self).at()), final(self).at()),
        decreases old(self).toks().len() - old(self).at(), 2nat,
    {
        if self.check_keyword("function") {
            self.expect_keyword("function")?;
            self.expect_symbol("(")?;
            let params = self.parse_param_list()?;
            if self.match_symbol(":") {
                self.read_type_annotation();
            }
            let body = self.parse_block_until("end")?;
            self.expect_keyword("end")?;
            return Ok(Expr::Function { params, body });
        }
        if self.check_symbol("(") {
            self.expect_symbol("(")?;
            let expr = self.parse_expr()?;
            self.expect_symbol(")")?;
            return self.parse_postfix(expr);
        }
        if self.check_symbol("{") {
            return self.parse_table();
        }
        if self.check_keyword("not") || self.check_symbol("-") || self.check_symbol("#") {
            let op = string_from_chars(self.peek().value.as_slice());
            self.bump();
            let inner = self.parse_prefix()?;
            return Ok(Expr::Unary { op, expr: Box::new(inner) });
        }
        if self.match_symbol("...") {
            return Ok(Expr::Vararg);
        }
        let kind = self.peek().kind;
        let value = string_from_chars(self.peek().value.as_slice());
        match kind {
            TokKind::Name | TokKind::Keyword => {
                let v = self.peek().value.as_slice();
                let literal = chars_eq_str(v, "true") || chars_eq_str(v, "false") || chars_eq_str(
                    v,
                    "nil",
                );
                self.bump();
                let expr = if literal {
                    Expr::Literal(value)
                } else {
                    Expr::Variable(value)
                };
                self.parse_postfix(expr)
            },
            TokKind::Str => {
                self.bump();
                Ok(Expr::Str(value))
            },
            TokKind::Interp => {
                self.bump();
                Ok(Expr::Interp(value))
            },
            TokKind::Number => {
                self.bump();
                Ok(Expr::Literal(value))
            },
            _ => {
                let v = copy_chars(self.peek().value.as_slice(), 0, self.peek().value.len());
                Err(message("unexpected token in expression: ", v.as_slice()))
            },
        }
    }

    /// Applies any chain of `.field`, `(args)`, `:method(args)` and `[index]`
    /// suffixes to an already parsed expression.
    #[verifier::rlimit(60)]
    fn parse_postfix(&mut self, expr: Expr) -> (r: Result<Expr, String>)
        requires
            old(self).wf(),
        ensures
            final(self).wf(),
            final(self).toks() == old(self).toks(),
            final(self).at() >= old(self).at(),
            expr_result(r, postfix_g(old(self).toks(), old(self).at(), expr_view(expr)), final(self).at()),
        decreases old(self).toks().len() - old(self).at(), 1nat,
    {
        let ghost ts = self.toks();
        let ghost total = postfix_g(ts, self.at(), expr_view(expr));
        let mut cur = expr;
        loop
            invariant
                self.wf(),
                self.toks() == old(self).toks(),
                ts == old(self).toks(),
                self.at() >= old(self).at(),
                total == postfix_g(ts, self.at(), expr_view(cur)),
                total == postfix_g(ts, old(self).at(), expr_view(expr)),
            ensures
                self.wf(),
                self.toks() == old(self).toks(),
                self.at() >= old(self).at(),
                total == Some((expr_view(cur), self.at())),
            decreases self.toks().len() - self.at(),
        {
            let ghost p0 = self.at();
            if self.match_symbol(".") {
                let field = self.expect_name()?;
                cur = Expr::Member { object: Box::new(cur), field };
            } else if self.match_symbol("(") {
                let args = self.parse_call_args()?;
                cur = Expr::Call { callee: Box::new(cur), args };
            } else if self.check_method_call() {
                self.bump();
                let method = self.expect_name()?;
                self.expect_symbol("(")?;
                let args = self.parse_call_args()?;
                cur = Expr::MethodCall { object: Box::new(cur), method, args };
            } else if self.match_symbol("[") {
                if self.peek().kind == TokKind::Name && chars_eq_str(
                    self.peek().value.as_slice(),
                    "cite",
                ) {
                    while !self.is_eof() && !self.check_symbol("]")
                        invariant
                            self.wf(),
                            self.toks() == old(self).toks(),
                            self.at() > p0 >= old(self).at(),
                            skip_to_close(ts, self.at()) == skip_to_close(ts, p0 + 1),
                            ts == self.toks(),
                        decreases self.toks().len() - self.at(),
                    {
                        self.bump();
                    }
                    self.expect_symbol("]")?;
                    continue;
                }
                let field = self.parse_expr()?;
                self.expect_symbol("]")?;
                cur = Expr::Index { object: Box::new(cur), index: Box::new(field) };
            } else {
                break;
            }
        }
        Ok(cur)
    }

    #[verifier::rlimit(60)]
    fn parse_table(&mut self) -> (r: Result<Expr, String>)
        requires
            old(self).wf(),
        ensures
            final(self).wf(),
            final(self).toks() == old(self).toks(),
            final(self).at() >= old(self).at(),
            r is Ok ==> final(self).at() > old(self).at(),
            expr_result(r, table_g(old(self).toks(), old(self).at()), final(self).at()),
        decreases old(self).toks().len() - old(self).at(), 0nat,
    {
        let ghost ts = self.toks();
        let ghost p0 = self.at();
        self.expect_symbol("{")?;
        let ghost total = entries_loop(ts, p0 + 1, Seq::empty());
        let mut entries: Vec<TableEntry> = Vec::new();
        assert(entries_view(entries@) =~= Seq::<EntryV>::empty());
        if !self.check_symbol("}") {
            loop
                invariant_except_break
                    total == entries_loop(ts, self.at(), entries_view(entries@)),
                invariant
                    self.wf(),
                    self.toks() == old(self).toks(),
                    ts == old(self).toks(),
                    p0 == old(self).at(),
                    self.at() > old(self).at(),
                    total == entries_loop(ts, p0 + 1, Seq::empty()),
                    table_g(ts, p0) == match total {
                        Some((es, q)) => Some((ExprV::Table(es), q)),
                        None => None,
                    },
                ensures
                    self.wf(),
                    self.toks() == old(self).toks(),
                    self.at() > old(self).at(),
                    !is_sym(ts[self.at()], ","@),
                    total == if is_sym(ts[self.at()], "}"@) {
                        Some((entries_view(entries@), self.at() + 1))
                    } else {
                        None
                    },
                decreases self.toks().len() - self.at(),
            {
                let ghost e0 = entries@;
                let keyed = self.peek().kind == TokKind::Name && self.pos + 1 < self.tokens.len()
                    && self.tokens[self.pos + 1].kind == TokKind::Symbol && chars_eq_str(
                    self.tokens[self.pos + 1].value.as_slice(),
                    "=",
                );
                if keyed {
                    let key = self.expect_name()?;
                    self.expect_symbol("=")?;
                    let value = self.parse_expr()?;
                    proof {
                        lemma_entries_view_push(e0, TableEntry { key: Some(key), value });
                    }
                    entries.push(TableEntry { key: Some(key), value });
                } else {
                    let value = self.parse_expr()?;
                    proof {
                        lemma_entries_view_push(e0, TableEntry { key: None, value });
                    }
                    entries.push(TableEntry { key: None, value });
                }
                if !self.match_symbol(",") {
                    break;
                }
            }
        }
        self.expect_symbol("}")?;
        Ok(Expr::Table(entries))
    }

    /// Parses call arguments after the opening `(` through the closing `)`.
    fn parse_call_args(&mut self) -> (r: Result<Vec<Expr>, String>)
        requires
            old(self).wf(),
        ensures
            final(self).wf(),
            final(self).toks() == old(self).toks(),
            final(self).at() >= old(self).at(),
            r is Ok ==> final(self).at() > old(self).at(),
            exprs_result(r, call_args_g(old(self).toks(), old(self).at()), final(self).at()),
        decreases old(self).toks().len() - old(self).at(), 5nat,
    {
        let ghost ts = self.toks();
        let ghost total = args_loop(ts, self.at(), Seq::empty());
        let mut args: Vec<Expr> = Vec::new();
        assert(exprs_view(args@) =~= Seq::<ExprV>::empty());
        if !self.check_symbol(")") {
            loop
                invariant_except_break
                    total == args_loop(ts, self.at(), exprs_view(args@)),
                invariant
                    self.wf(),
                    self.toks() == old(self).toks(),
                    ts == old(self).toks(),
                    self.at() >= old(self).at(),
                    total == args_loop(ts, old(self).at(), Seq::empty()),
                    total == call_args_g(ts, old(self).at()),
                ensures
                    self.wf(),
                    self.toks() == old(self).toks(),
                    self.at() > old(self).at(),
                    !is_sym(ts[self.at()], ","@),
                    total == if is_sym(ts[self.at()], ")"@) {
                        Some((exprs_view(args@), self.at() + 1))
                    } else {
                        None
                    },
                decreases self.toks().len() - self.at(),
            {
                let a = self.parse_expr()?;
                proof {
                    lemma_exprs_view_push(args@, a);
                }
                args.push(a);
                if !self.match_symbol(",") {
                    break;
                }
            }
        }
        self.expect_symbol(")")?;
        Ok(args)
    }
}

/// The binding strengths of the binary operators, weakest first: `or`,
/// `and`, the comparisons `==` `!=` `<` `<=` `>` `>=` (one level), `|`,
/// `~`, `&`, the shifts `<<` `>>`, `..`, `+` `-`, `*` `/` `//` `%`, `^`,
/// `??`; `=` and `not` are no binary operators.
pub proof fn lemma_operator_strengths(k: TokKind)
    requires
        k == TokKind::Symbol || k == TokKind::Keyword,
    ensures
        binop_prec(k, "or"@) is Some,
        binop_prec(k, "and"@) is Some,
        binop_prec(k, "=="@) is Some,
        binop_prec(k, "!="@) is Some,
        binop_prec(k, "<"@) is Some,
        binop_prec(k, "<="@) is Some,
        binop_prec(k, ">"@) is Some,
        binop_prec(k, ">="@) is Some,
        binop_prec(k, "|"@) is Some,
        binop_prec(k, "~"@) is Some,
        binop_prec(k, "&"@) is Some,
        binop_prec(k, "<<"@) is Some,
        binop_prec(k, ">>"@) is Some,
        binop_prec(k, ".."@) is Some,
        binop_prec(k, "+"@) is Some,
        binop_prec(k, "-"@) is Some,
        binop_prec(k, "*"@) is Some,
        binop_prec(k, "/"@) is Some,
        binop_prec(k, "//"@) is Some,
        binop_prec(k, "%"@) is Some,
        binop_prec(k, "^"@) is Some,
        binop_prec(k, "??"@) is Some,
        binop_prec(k, "!="@).unwrap() == binop_prec(k, "=="@).unwrap(),
        binop_prec(k, "<"@).unwrap() == binop_prec(k, "=="@).unwrap(),
        binop_prec(k, "<="@).unwrap() == binop_prec(k, "=="@).unwrap(),
        binop_prec(k, ">"@).unwrap() == binop_prec(k, "=="@).unwrap(),
        binop_prec(k, ">="@).unwrap() == binop_prec(k, "=="@).unwrap(),
        binop_prec(k, ">>"@).unwrap() == binop_prec(k, "<<"@).unwrap(),
        binop_prec(k, "-"@).unwrap() == binop_prec(k, "+"@).unwrap(),
        binop_prec(k, "/"@).unwrap() == binop_prec(k, "*"@).unwrap(),
        binop_prec(k, "//"@).unwrap() == binop_prec(k, "*"@).unwrap(),
        binop_prec(k, "%"@).unwrap() == binop_prec(k, "*"@).unwrap(),
        binop_prec(k, "or"@).unwrap() < binop_prec(k, "and"@).unwrap(),
        binop_prec(k, "and"@).unwrap() < binop_prec(k, "=="@).unwrap(),
        binop_prec(k, "=="@).unwrap() < binop_prec(k, "|"@).unwrap(),
        binop_prec(k, "|"@).unwrap() < binop_prec(k, "~"@).unwrap(),
        binop_prec(k, "~"@).unwrap() < binop_prec(k, "&"@).unwrap(),
        binop_prec(k, "&"@).unwrap() < binop_prec(k, "<<"@).unwrap(),
        binop_prec(k, "<<"@).unwrap() < binop_prec(k, ".."@).unwrap(),
        binop_prec(k, ".."@).unwrap() < binop_prec(k, "+"@).unwrap(),
        binop_prec(k, "+"@).unwrap() < binop_prec(k, "*"@).unwrap(),
        binop_prec(k, "*"@).unwrap() < binop_prec(k, "^"@).unwrap(),
        binop_prec(k, "^"@).unwrap() < binop_prec(k, "??"@).unwrap(),
        binop_prec(k, "="@) is None,
        binop_prec(k, "not"@) is None,
{
    reveal_strlit("or");
    reveal_strlit("and");
    reveal_strlit("==");
    reveal_strlit("!=");
    reveal_strlit("<");
    reveal_strlit("<=");
    reveal_strlit(">");
    reveal_strlit(">=");
    reveal_strlit("|");
    reveal_strlit("~");
    reveal_strlit("&");
    reveal_strlit("<<");
    reveal_strlit(">>");
    reveal_strlit("..");
    reveal_strlit("+");
    reveal_strlit("-");
    reveal_strlit("*");
    reveal_strlit("/");
    reveal_strlit("//");
    reveal_strlit("%");
    reveal_strlit("^");
    reveal_strlit("??");
    reveal_strlit("=");
    reveal_strlit("not");
    assert("or"@.len() == 2 && "or"@[0] == 'o' && "or"@[1] == 'r');
    assert("and"@.len() == 3 && "and"@[0] == 'a' && "and"@[1] == 'n' && "and"@[2] == 'd');
    assert("=="@.len() == 2 && "=="@[0] == '=' && "=="@[1] == '=');
    assert("!="@.len() == 2 && "!="@[0] == '!' && "!="@[1] == '=');
    assert("<"@.len() == 1 && "<"@[0] == '<');
    assert("<="@.len() == 2 && "<="@[0] == '<' && "<="@[1] == '=');
    assert(">"@.len() == 1 && ">"@[0] == '>');
    assert(">="@.len() == 2 && ">="@[0] == '>' && ">="@[1] == '=');
    assert("|"@.len() == 1 && "|"@[0] == '|');
    assert("~"@.len() == 1 && "~"@[0] == '~');
    assert("&"@.len() == 1 && "&"@[0] == '&');
    assert("<<"@.len() == 2 && "<<"@[0] == '<' && "<<"@[1] == '<');
    assert(">>"@.len() == 2 && ">>"@[0] == '>' && ">>"@[1] == '>');
    assert(".."@.len() == 2 && ".."@[0] == '.' && ".."@[1] == '.');
    assert("+"@.len() == 1 && "+"@[0] == '+');
    assert("-"@.len() == 1 && "-"@[0] == '-');
    assert("*"@.len() == 1 && "*"@[0] == '*');
    assert("/"@.len() == 1 && "/"@[0] == '/');
    assert("//"@.len() == 2 && "//"@[0] == '/' && "//"@[1] == '/');
    assert("%"@.len() == 1 && "%"@[0] == '%');
    assert("^"@.len() == 1 && "^"@[0] == '^');
    assert("??"@.len() == 2 && "??"@[0] == '?' && "??"@[1] == '?');
    assert("="@.len() == 1 && "="@[0] == '=');
    assert("not"@.len() == 3 && "not"@[0] == 'n' && "not"@[1] == 'o' && "not"@[2] == 't');
}

proof fn lemma_binop_spellings()
    ensures
        "or"@.len() == 2 && "or"@[0] == 'o' && "or"@[1] == 'r',
        "and"@.len() == 3 && "and"@[0] == 'a' && "and"@[1] == 'n' && "and"@[2] == 'd',
        "=="@.len() == 2 && "=="@[0] == '=' && "=="@[1] == '=',
        "!="@.len() == 2 && "!="@[0] == '!' && "!="@[1] == '=',
        "<"@.len() == 1 && "<"@[0] == '<',
        "<="@.len() == 2 && "<="@[0] == '<' && "<="@[1] == '=',
        ">"@.len() == 1 && ">"@[0] == '>',
        ">="@.len() == 2 && ">="@[0] == '>' && ">="@[1] == '=',
        "|"@.len() == 1 && "|"@[0] == '|',
        "~"@.len() == 1 && "~"@[0] == '~',
        "&"@.len() == 1 && "&"@[0] == '&',
        "<<"@.len() == 2 && "<<"@[0] == '<' && "<<"@[1] == '<',
        ">>"@.len() == 2 && ">>"@[0] == '>' && ">>"@[1] == '>',
        ".."@.len() == 2 && ".."@[0] == '.' && ".."@[1] == '.',
        "+"@.len() == 1 && "+"@[0] == '+',
        "-"@.len() == 1 && "-"@[0] == '-',
        "*"@.len() == 1 && "*"@[0] == '*',
        "/"@.len() == 1 && "/"@[0] == '/',
        "//"@.len() == 2 && "//"@[0] == '/' && "//"@[1] == '/',
        "%"@.len() == 1 && "%"@[0] == '%',
        "^"@.len() == 1 && "^"@[0] == '^',
        "??"@.len() == 2 && "??"@[0] == '?' && "??"@[1] == '?',
        "."@.len() == 1 && "."@[0] == '.',
        "("@.len() == 1 && "("@[0] == '(',
        "["@.len() == 1 && "["@[0] == '[',
        ":"@.len() == 1 && ":"@[0] == ':',
        "true"@.len() == 4 && "true"@[0] == 't' && "true"@[1] == 'r' && "true"@[2] == 'u' && "true"@[3] == 'e',
        "false"@.len() == 5 && "false"@[0] == 'f' && "false"@[1] == 'a' && "false"@[2] == 'l' && "false"@[3] == 's' && "false"@[4] == 'e',
        "nil"@.len() == 3 && "nil"@[0] == 'n' && "nil"@[1] == 'i' && "nil"@[2] == 'l',
{
    reveal_strlit("or");
    reveal_strlit("and");
    reveal_strlit("==");
    reveal_strlit("!=");
    reveal_strlit("<");
    reveal_strlit("<=");
    reveal_strlit(">");
    reveal_strlit(">=");
    reveal_strlit("|");
    reveal_strlit("~");
    reveal_strlit("&");
    reveal_strlit("<<");
    reveal_strlit(">>");
    reveal_strlit("..");
    reveal_strlit("+");
    reveal_strlit("-");
    reveal_strlit("*");
    reveal_strlit("/");
    reveal_strlit("//");
    reveal_strlit("%");
    reveal_strlit("^");
    reveal_strlit("??");
    reveal_strlit(".");
    reveal_strlit("(");
    reveal_strlit("[");
    reveal_strlit(":");
    reveal_strlit("true");
    reveal_strlit("false");
    reveal_strlit("nil");
}

/// No binary operator is one of the symbols that continue an operand
/// (`.`, `(`, `[`, `:`).
proof fn lemma_binop_ends_operand(k: TokKind, v: Seq<char>)
    requires
        binop_prec(k, v) is Some,
    ensures
        v != "."@,
        v != "("@,
        v != "["@,
        v != ":"@,
{
    lemma_binop_spellings();
}

/// Whether `t` is a plain name (not `true`, `false` or `nil`).
pub open spec fn plain_name(t: Tok) -> bool {
    t.kind == TokKind::Name && t.value@ != "true"@ && t.value@ != "false"@ && t.value@ != "nil"@
}

proof fn lemma_name_operand(ts: Seq<Tok>, p: int, min: int)
    requires
        0 <= p,
        p + 1 < ts.len(),
        plain_name(ts[p]),
        binop_prec(ts[p + 1].kind, ts[p + 1].value@) is Some || ts[p + 1].kind == TokKind::Eof,
    ensures
        prefix_g(ts, p) == Some((ExprV::Variable(ts[p].value@), p + 1)),
        prec_g(ts, p, min) == prec_loop(ts, p + 1, min, ExprV::Variable(ts[p].value@)),
{
    if binop_prec(ts[p + 1].kind, ts[p + 1].value@) is Some {
        lemma_binop_ends_operand(ts[p + 1].kind, ts[p + 1].value@);
    }
    assert(!method_call_at(ts, p + 1));
    assert(postfix_g(ts, p + 1, ExprV::Variable(ts[p].value@)) == Some((ExprV::Variable(ts[p].value@), p + 1)));
}

/// Two binary operators between three names group by their binding
/// strengths: `a op1 b op2 c` is `(a op1 b) op2 c` where `op1` binds at
/// least as tightly as `op2`, and `a op1 (b op2 c)` where `op2` binds more
/// tightly; so `a or b and c` is `a or (b and c)` and `a - b - c` is
/// `(a - b) - c`.
pub proof fn lemma_binary_grouping(ts: Seq<Tok>)
    requires
        ts.len() == 6,
        plain_name(ts[0]),
        plain_name(ts[2]),
        plain_name(ts[4]),
        binop_prec(ts[1].kind, ts[1].value@) is Some,
        binop_prec(ts[3].kind, ts[3].value@) is Some,
        ts[5].kind == TokKind::Eof,
    ensures
        ({
            let a = ExprV::Variable(ts[0].value@);
            let b = ExprV::Variable(ts[2].value@);
            let c = ExprV::Variable(ts[4].value@);
            let op1 = ts[1].value@;
            let op2 = ts[3].value@;
            expr_g(ts, 0) == Some((
                if binop_prec(ts[1].kind, op1).unwrap() >= binop_prec(ts[3].kind, op2).unwrap() {
                    ExprV::Binary {
                        left: Box::new(ExprV::Binary { left: Box::new(a), op: op1, right: Box::new(b) }),
                        op: op2,
                        right: Box::new(c),
                    }
                } else {
                    ExprV::Binary {
                        left: Box::new(a),
                        op: op1,
                        right: Box::new(ExprV::Binary { left: Box::new(b), op: op2, right: Box::new(c) }),
                    }
                },
                5int,
            ))
        }),
{
    let a = ExprV::Variable(ts[0].value@);
    let b = ExprV::Variable(ts[2].value@);
    let c = ExprV::Variable(ts[4].value@);
    let op1 = ts[1].value@;
    let op2 = ts[3].value@;
    let p1 = binop_prec(ts[1].kind, op1).unwrap() as int;
    let p2 = binop_prec(ts[3].kind, op2).unwrap() as int;
    lemma_name_operand(ts, 0, 0);
    lemma_name_operand(ts, 2, p1 + 1);
    lemma_name_operand(ts, 4, p2 + 1);
    assert(prec_loop(ts, 5, p2 + 1, c) == Some((c, 5int)));
    assert(prec_g(ts, 4, p2 + 1) == Some((c, 5int)));
    let ab = ExprV::Binary { left: Box::new(a), op: op1, right: Box::new(b) };
    let bc = ExprV::Binary { left: Box::new(b), op: op2, right: Box::new(c) };
    if p1 >= p2 {
        assert(prec_loop(ts, 3, p1 + 1, b) == Some((b, 3int)));
        assert(prec_g(ts, 2, p1 + 1) == Some((b, 3int)));
        let abc = ExprV::Binary { left: Box::new(ab), op: op2, right: Box::new(c) };
        assert(prec_loop(ts, 5, 0, abc) == Some((abc, 5int)));
        assert(prec_loop(ts, 3, 0, ab) == Some((abc, 5int)));
        assert(prec_loop(ts, 1, 0, a) == Some((abc, 5int)));
    } else {
        assert(prec_loop(ts, 5, p1 + 1, bc) == Some((bc, 5int)));
        assert(prec_loop(ts, 3, p1 + 1, b) == Some((bc, 5int)));
        assert(prec_g(ts, 2, p1 + 1) == Some((bc, 5int)));
        let abc = ExprV::Binary { left: Box::new(a), op: op1, right: Box::new(bc) };
        assert(prec_loop(ts, 5, 0, abc) == Some((abc, 5int)));
        assert(prec_loop(ts, 1, 0, a) == Some((abc, 5int)));
    }
}


} // verus!
