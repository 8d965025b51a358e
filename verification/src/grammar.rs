//! The grammar the parser reads, as spec functions over the token list.
//!
//! Each production takes the tokens and a position and gives the tree it
//! reads there with the position after it, or `None` where the tokens do not
//! fit. A production that goes on from the position another one reached
//! checks that this position lies past its own start; the parser always
//! moves forward, so these checks never fail on what it meets.
use vstd::prelude::*;

use crate::lexer::{Tok, TokKind};
use crate::parse_model::{EntryV, ExprV, ParamV, StmtV};
use crate::parser::{binop_prec, is_compound_assign};

verus! {

/// Whether `t` is the keyword `w`.
pub open spec fn is_kw(t: Tok, w: Seq<char>) -> bool {
    t.kind == TokKind::Keyword && t.value@ == w
}

/// Whether `t` is the symbol `w`.
pub open spec fn is_sym(t: Tok, w: Seq<char>) -> bool {
    t.kind == TokKind::Symbol && t.value@ == w
}

/// Whether position `p` holds a token.
pub open spec fn inside(ts: Seq<Tok>, p: int) -> bool {
    0 <= p < ts.len()
}

/// Whether `t` is one of the keywords `words`.
pub open spec fn is_any_kw(t: Tok, words: Seq<Seq<char>>) -> bool {
    exists|i: int| 0 <= i < words.len() && is_kw(t, #[trigger] words[i])
}

/// The keywords that close a block.
pub open spec fn is_block_end(t: Tok) -> bool {
    is_kw(t, "end"@) || is_kw(t, "else"@) || is_kw(t, "elseif"@) || is_kw(t, "until"@)
}

/// The position after any run of `;` at `p`.
pub open spec fn skip_semis(ts: Seq<Tok>, p: int) -> int
    decreases ts.len() - p,
{
    if inside(ts, p) && is_sym(ts[p], ";"@) {
        skip_semis(ts, p + 1)
    } else {
        p
    }
}

/// The first position from `p` on that holds the end of file or `]`.
pub open spec fn skip_to_close(ts: Seq<Tok>, p: int) -> int
    decreases ts.len() - p,
{
    if inside(ts, p) && ts[p].kind != TokKind::Eof && !is_sym(ts[p], "]"@) {
        skip_to_close(ts, p + 1)
    } else {
        p
    }
}

/// The position after any attribute groups `[ ... ]` at `p` (a group the
/// end of file cuts short ends there).
pub open spec fn skip_attrs(ts: Seq<Tok>, p: int) -> int
    decreases ts.len() - p,
{
    if inside(ts, p) && is_sym(ts[p], "["@) {
        let k = skip_to_close(ts, p + 1);
        let k2 = if inside(ts, k) && is_sym(ts[k], "]"@) {
            k + 1
        } else {
            k
        };
        if k2 <= p || k2 > ts.len() {
            p
        } else {
            skip_attrs(ts, k2)
        }
    } else {
        p
    }
}

/// The keywords that end a type annotation outside brackets.
pub open spec fn ends_annotation_kw(v: Seq<char>) -> bool {
    ||| v == "end"@
    ||| v == "do"@
    ||| v == "then"@
    ||| v == "else"@
    ||| v == "elseif"@
    ||| v == "until"@
    ||| v == "return"@
    ||| v == "local"@
    ||| v == "const"@
    ||| v == "global"@
    ||| v == "if"@
    ||| v == "for"@
    ||| v == "while"@
    ||| v == "repeat"@
}

/// A type annotation from `p` on, given the open `{`, `[` and `(` so far,
/// the line of the last token taken and the text so far: tokens are taken
/// until the end of file or, with no bracket open, a new line, one of
/// `= , ) ;` or a keyword of `ends_annotation_kw`; their texts are joined by
/// single spaces.
pub open spec fn ann_loop(
    ts: Seq<Tok>,
    p: int,
    braces: int,
    brackets: int,
    parens: int,
    last: Option<usize>,
    out: Seq<char>,
) -> (Seq<char>, int)
    decreases ts.len() - p,
{
    if !inside(ts, p) || ts[p].kind == TokKind::Eof {
        (out, p)
    } else {
        let t = ts[p];
        let closed = braces == 0 && brackets == 0 && parens == 0;
        if closed && last is Some && last->0 != t.line {
            (out, p)
        } else if t.kind == TokKind::Symbol && closed && (t.value@ == "="@ || t.value@ == ","@ || t.value@
            == ")"@ || t.value@ == ";"@) {
            (out, p)
        } else if t.kind == TokKind::Keyword && closed && ends_annotation_kw(t.value@) {
            (out, p)
        } else {
            let sym = t.kind == TokKind::Symbol;
            let v = t.value@;
            let b2 = if sym && v == "{"@ {
                braces + 1
            } else if sym && v == "}"@ && braces > 0 {
                braces - 1
            } else {
                braces
            };
            let k2 = if sym && v != "{"@ && !(v == "}"@ && braces > 0) && v == "["@ {
                brackets + 1
            } else if sym && v != "{"@ && !(v == "}"@ && braces > 0) && v == "]"@ && brackets > 0 {
                brackets - 1
            } else {
                brackets
            };
            let p2 = if sym && v != "{"@ && !(v == "}"@ && braces > 0) && v != "["@ && !(v == "]"@
                && brackets > 0) && v == "("@ {
                parens + 1
            } else if sym && v != "{"@ && !(v == "}"@ && braces > 0) && v != "["@ && !(v == "]"@
                && brackets > 0) && v == ")"@ && parens > 0 {
                parens - 1
            } else {
                parens
            };
            let sep = if out.len() > 0 {
                out.push(' ')
            } else {
                out
            };
            ann_loop(ts, p + 1, b2, k2, p2, Some(t.line), sep + v)
        }
    }
}

/// The type annotation read at `p` and the position after it.
pub open spec fn type_ann(ts: Seq<Tok>, p: int) -> (Seq<char>, int) {
    ann_loop(ts, p, 0, 0, 0, None, Seq::empty())
}

/// The keywords `local`, `const`, `global` at `p` skipped: the position
/// after them and whether `const` was among them.
pub open spec fn skip_binding_kws(ts: Seq<Tok>, p: int, is_const: bool) -> (int, bool)
    decreases ts.len() - p,
{
    if inside(ts, p) && (is_kw(ts[p], "local"@) || is_kw(ts[p], "const"@) || is_kw(ts[p], "global"@)) {
        skip_binding_kws(ts, p + 1, is_const || is_kw(ts[p], "const"@))
    } else {
        (p, is_const)
    }
}

/// Names each led by `sep` from `p` on, appended to `acc`; `None` where a
/// separator is not followed by a name.
pub open spec fn sep_names(ts: Seq<Tok>, p: int, sep: Seq<char>, acc: Seq<Seq<char>>) -> Option<
    (Seq<Seq<char>>, int),
>
    decreases ts.len() - p,
{
    if inside(ts, p) && is_sym(ts[p], sep) {
        if inside(ts, p + 1) && ts[p + 1].kind == TokKind::Name {
            sep_names(ts, p + 2, sep, acc.push(ts[p + 1].value@))
        } else {
            None
        }
    } else {
        Some((acc, p))
    }
}

/// `base.s1.s2...` for the fields `segs`.
pub open spec fn member_chain(base: ExprV, segs: Seq<Seq<char>>) -> ExprV
    decreases segs.len(),
{
    if segs.len() == 0 {
        base
    } else {
        ExprV::Member { object: Box::new(member_chain(base, segs.drop_last())), field: segs.last() }
    }
}

/// `first.s1.s2...` as one name.
pub open spec fn dotted(first: Seq<char>, segs: Seq<Seq<char>>) -> Seq<char>
    decreases segs.len(),
{
    if segs.len() == 0 {
        first
    } else {
        dotted(first, segs.drop_last()).push('.') + segs.last()
    }
}

/// The parameters from `p` on, after `acc`, through the closing `)`.
pub open spec fn param_loop(ts: Seq<Tok>, p: int, acc: Seq<ParamV>) -> Option<(Seq<ParamV>, int)>
    decreases ts.len() - p,
{
    if !inside(ts, p) {
        None
    } else if is_sym(ts[p], "..."@) {
        let (ann, q) = if inside(ts, p + 1) && is_sym(ts[p + 1], ":"@) {
            let (a, q) = type_ann(ts, p + 2);
            (Some(a), q)
        } else {
            (None, p + 1)
        };
        if inside(ts, q) && is_sym(ts[q], ")"@) {
            Some((acc.push(ParamV { name: "..."@, type_annotation: ann, variadic: true }), q + 1))
        } else {
            None
        }
    } else if ts[p].kind == TokKind::Name {
        let name = ts[p].value@;
        let (ann, q) = if inside(ts, p + 1) && is_sym(ts[p + 1], ":"@) {
            let (a, q) = type_ann(ts, p + 2);
            (Some(a), q)
        } else {
            (None, p + 1)
        };
        let acc2 = acc.push(ParamV { name, type_annotation: ann, variadic: false });
        if q <= p || !inside(ts, q) {
            None
        } else if is_sym(ts[q], ","@) {
            param_loop(ts, q + 1, acc2)
        } else if is_sym(ts[q], ")"@) {
            Some((acc2, q + 1))
        } else {
            None
        }
    } else {
        None
    }
}

/// A parameter list after its `(`, through the closing `)`.
pub open spec fn param_list(ts: Seq<Tok>, p: int) -> Option<(Seq<ParamV>, int)> {
    if inside(ts, p) && is_sym(ts[p], ")"@) {
        Some((Seq::empty(), p + 1))
    } else {
        param_loop(ts, p, Seq::empty())
    }
}

/// Statements from `p` on, after `acc`, up to the end of file or one of the
/// keywords `words` (not taken); `;` between them is skipped.
pub open spec fn block_loop(ts: Seq<Tok>, p: int, words: Seq<Seq<char>>, acc: Seq<StmtV>) -> Option<
    (Seq<StmtV>, int),
>
    decreases ts.len() - p, 9int, 0int,
{
    if !inside(ts, p) {
        None
    } else if ts[p].kind == TokKind::Eof {
        Some((acc, p))
    } else if is_sym(ts[p], ";"@) {
        block_loop(ts, p + 1, words, acc)
    } else if is_any_kw(ts[p], words) {
        Some((acc, p))
    } else {
        match stmt_g(ts, p) {
            Some((s, q)) => if q <= p || !inside(ts, q) {
                None
            } else {
                block_loop(ts, q, words, acc.push(s))
            },
            None => None,
        }
    }
}

/// The statements of a whole program from `p` on, after `acc`: up to the
/// end of file or a block-closing keyword; runs of `;` are skipped.
pub open spec fn program_loop(ts: Seq<Tok>, p: int, acc: Seq<StmtV>) -> Option<(Seq<StmtV>, int)>
    decreases ts.len() - p, 9int, 0int,
{
    if !inside(ts, p) {
        None
    } else if ts[p].kind == TokKind::Eof || is_block_end(ts[p]) {
        Some((acc, p))
    } else if is_sym(ts[p], ";"@) {
        program_loop(ts, p + 1, acc)
    } else {
        match stmt_g(ts, p) {
            Some((s, q)) => {
                let q2 = skip_semis(ts, q);
                if q <= p || q2 < q || !inside(ts, q2) {
                    None
                } else {
                    program_loop(ts, q2, acc.push(s))
                }
            },
            None => None,
        }
    }
}

/// Expressions each led by `,` from `p` on, appended to `acc`.
pub open spec fn comma_exprs(ts: Seq<Tok>, p: int, acc: Seq<ExprV>) -> Option<(Seq<ExprV>, int)>
    decreases ts.len() - p, 4int, 1int,
{
    if inside(ts, p) && is_sym(ts[p], ","@) {
        match expr_g(ts, p + 1) {
            Some((e, q)) => if q <= p || !inside(ts, q) {
                None
            } else {
                comma_exprs(ts, q, acc.push(e))
            },
            None => None,
        }
    } else {
        Some((acc, p))
    }
}

/// One statement at `p`.
pub open spec fn stmt_g(ts: Seq<Tok>, p: int) -> Option<(StmtV, int)>
    decreases ts.len() - p, 8int, 0int,
{
    if !inside(ts, p) {
        None
    } else {
        let t = ts[p];
        if is_kw(t, "local"@) || is_kw(t, "const"@) || is_kw(t, "global"@) {
            binding_g(ts, p)
        } else if is_kw(t, "function"@) {
            function_g(ts, p, false)
        } else if is_kw(t, "if"@) {
            if_g(ts, p)
        } else if is_kw(t, "for"@) {
            for_g(ts, p)
        } else if is_kw(t, "while"@) {
            while_g(ts, p)
        } else if is_kw(t, "repeat"@) {
            repeat_g(ts, p)
        } else if is_kw(t, "return"@) {
            if !inside(ts, p + 1) {
                None
            } else if ts[p + 1].kind == TokKind::Eof || is_block_end(ts[p + 1]) {
                Some((StmtV::Return(Seq::empty()), p + 1))
            } else {
                match expr_g(ts, p + 1) {
                    Some((e, q)) => if q <= p || !inside(ts, q) {
                        None
                    } else {
                        match comma_exprs(ts, q, seq![e]) {
                            Some((vs, q2)) => Some((StmtV::Return(vs), q2)),
                            None => None,
                        }
                    },
                    None => None,
                }
            }
        } else if is_kw(t, "break"@) {
            Some((StmtV::Break, p + 1))
        } else if is_kw(t, "continue"@) {
            Some((StmtV::Continue, p + 1))
        } else {
            match expr_g(ts, p) {
                Some((e, q)) => if q <= p || !inside(ts, q) {
                    None
                } else {
                    expr_stmt_rest(ts, e, q)
                },
                None => None,
            }
        }
    }
}

/// What follows the expression `e` that begins a statement, from `q` on.
pub open spec fn expr_stmt_rest(ts: Seq<Tok>, e: ExprV, q: int) -> Option<(StmtV, int)>
    decreases ts.len() - q, 7int, 1int,
{
    if !inside(ts, q) {
        None
    } else if is_sym(ts[q], "++"@) {
        Some((StmtV::Increment { target: e, amount: 1i8 }, q + 1))
    } else if is_sym(ts[q], "--"@) {
        Some((StmtV::Increment { target: e, amount: -1i8 }, q + 1))
    } else if is_sym(ts[q], "="@) {
        match expr_g(ts, q + 1) {
            Some((v, q2)) => Some((StmtV::Assign { target: e, value: v, is_const: false }, q2)),
            None => None,
        }
    } else if is_sym(ts[q], ","@) {
        match comma_exprs(ts, q, seq![e]) {
            Some((targets, q2)) => if q2 < q || !inside(ts, q2) || !is_sym(ts[q2], "="@) {
                None
            } else {
                match expr_g(ts, q2 + 1) {
                    Some((v, q3)) => if q3 <= q2 || !inside(ts, q3) {
                        None
                    } else {
                        match comma_exprs(ts, q3, seq![v]) {
                            Some((values, q4)) => Some((StmtV::AssignMany { targets, values }, q4)),
                            None => None,
                        }
                    },
                    None => None,
                }
            },
            None => None,
        }
    } else if ts[q].kind == TokKind::Symbol && is_compound_assign(ts[q].value@) {
        match expr_g(ts, q + 1) {
            Some((rhs, q2)) => Some(
                (
                    StmtV::Assign {
                        target: e,
                        value: ExprV::Binary {
                            left: Box::new(e),
                            op: ts[q].value@.drop_last(),
                            right: Box::new(rhs),
                        },
                        is_const: false,
                    },
                    q2,
                ),
            ),
            None => None,
        }
    } else {
        Some((StmtV::Expr(e), skip_attrs(ts, q)))
    }
}

/// A `local` / `const` / `global` binding at `p`.
pub open spec fn binding_g(ts: Seq<Tok>, p: int) -> Option<(StmtV, int)>
    decreases ts.len() - p, 7int, 0int,
{
    let (p1, is_const) = skip_binding_kws(ts, p, false);
    if p1 < p || !inside(ts, p1) {
        None
    } else if is_kw(ts[p1], "function"@) {
        function_g(ts, p1, is_const)
    } else if ts[p1].kind != TokKind::Name {
        None
    } else {
        let first = ts[p1].value@;
        match sep_names(ts, p1 + 1, "."@, Seq::empty()) {
            None => None,
            Some((segs, q)) => if q <= p1 || !inside(ts, q) {
                None
            } else if segs.len() > 0 {
                if !is_sym(ts[q], "="@) {
                    None
                } else {
                    match expr_g(ts, q + 1) {
                        Some((v, q2)) => Some(
                            (
                                StmtV::Assign {
                                    target: member_chain(ExprV::Variable(first), segs),
                                    value: v,
                                    is_const,
                                },
                                q2,
                            ),
                        ),
                        None => None,
                    }
                }
            } else if is_sym(ts[q], ","@) {
                match sep_names(ts, q, ","@, seq![first]) {
                    None => None,
                    Some((names, q2)) => if q2 < q || !inside(ts, q2) || !is_sym(ts[q2], "="@) {
                        None
                    } else {
                        match expr_g(ts, q2 + 1) {
                            Some((e, q3)) => if q3 <= q2 || !inside(ts, q3) {
                                None
                            } else {
                                match comma_exprs(ts, q3, seq![e]) {
                                    Some((inits, q4)) => Some(
                                        (StmtV::LocalMany { names, is_const, initializers: inits }, q4),
                                    ),
                                    None => None,
                                }
                            },
                            None => None,
                        }
                    },
                }
            } else {
                let (ann, q2) = if is_sym(ts[q], ":"@) {
                    let (a, q2) = type_ann(ts, q + 1);
                    (Some(a), q2)
                } else {
                    (None, q)
                };
                if q2 < q || !inside(ts, q2) {
                    None
                } else if is_sym(ts[q2], "="@) {
                    match expr_g(ts, q2 + 1) {
                        Some((e, q3)) => Some(
                            (
                                StmtV::Local {
                                    name: first,
                                    is_const,
                                    type_annotation: ann,
                                    initializer: Some(e),
                                },
                                q3,
                            ),
                        ),
                        None => None,
                    }
                } else {
                    Some((StmtV::Local { name: first, is_const, type_annotation: ann, initializer: None }, q2))
                }
            },
        }
    }
}

/// The body of a function from `p` on: optional `(params)`, optional
/// `: type`, then statements through `end`.
pub open spec fn function_rest(ts: Seq<Tok>, p: int) -> Option<(Seq<ParamV>, Option<Seq<char>>, Seq<StmtV>, int)>
    decreases ts.len() - p, 10int, 0int,
{
    if !inside(ts, p) {
        None
    } else {
        let ps = if is_sym(ts[p], "("@) {
            param_list(ts, p + 1)
        } else {
            Some((Seq::empty(), p))
        };
        match ps {
            None => None,
            Some((params, q)) => if q < p || !inside(ts, q) {
                None
            } else {
                let (ret, q2) = if is_sym(ts[q], ":"@) {
                    let (a, q2) = type_ann(ts, q + 1);
                    (Some(a), q2)
                } else {
                    (None, q)
                };
                if q2 < q || !inside(ts, q2) {
                    None
                } else {
                    match block_loop(ts, q2, seq!["end"@], Seq::empty()) {
                        Some((body, q3)) => if q3 < q2 || !inside(ts, q3) || !is_kw(ts[q3], "end"@) {
                            None
                        } else {
                            Some((params, ret, body, q3 + 1))
                        },
                        None => None,
                    }
                }
            },
        }
    }
}

/// A function statement at `p`.
pub open spec fn function_g(ts: Seq<Tok>, p: int, is_const: bool) -> Option<(StmtV, int)>
    decreases ts.len() - p, 6int, 2int,
{
    if !inside(ts, p) || !is_kw(ts[p], "function"@) || !inside(ts, p + 1) {
        None
    } else {
        let named = ts[p + 1].kind == TokKind::Name;
        let nm = if named {
            match sep_names(ts, p + 2, "."@, Seq::empty()) {
                Some((segs, q)) => Some((Some(dotted(ts[p + 1].value@, segs)), q)),
                None => None,
            }
        } else {
            Some((None, p + 1))
        };
        match nm {
            None => None,
            Some((name, q)) => if q <= p || !inside(ts, q) {
                None
            } else {
                match function_rest(ts, q) {
                    Some((params, ret, body, q2)) => Some(
                        (StmtV::Function { name, is_const, params, return_type: ret, body }, q2),
                    ),
                    None => None,
                }
            },
        }
    }
}

/// The `elseif` branches from `p` on, after `acc`.
pub open spec fn elseif_loop(ts: Seq<Tok>, p: int, acc: Seq<(ExprV, Seq<StmtV>)>) -> Option<
    (Seq<(ExprV, Seq<StmtV>)>, int),
>
    decreases ts.len() - p, 6int, 0int,
{
    if inside(ts, p) && is_kw(ts[p], "elseif"@) {
        match expr_g(ts, p + 1) {
            Some((c, q)) => if q <= p || !inside(ts, q) || !is_kw(ts[q], "then"@) {
                None
            } else {
                match block_loop(ts, q + 1, seq!["else"@, "elseif"@, "end"@], Seq::empty()) {
                    Some((b, q2)) => if q2 <= p || !inside(ts, q2) {
                        None
                    } else {
                        elseif_loop(ts, q2, acc.push((c, b)))
                    },
                    None => None,
                }
            },
            None => None,
        }
    } else {
        Some((acc, p))
    }
}

/// The rest of an `if` statement begun at `p`, after its condition `c` and
/// first branch `tb`, from `q` (past `p`) on: `elseif` branches, an
/// optional `else` branch, and `end`.
pub open spec fn if_tail(ts: Seq<Tok>, p: int, q: int, c: ExprV, tb: Seq<StmtV>) -> Option<(StmtV, int)>
    decreases ts.len() - p, 6int, 1int,
{
    if q <= p || !inside(ts, q) {
        None
    } else {
        match elseif_loop(ts, q, Seq::empty()) {
            None => None,
            Some((eifs, q3)) => if q3 < q || !inside(ts, q3) {
                None
            } else if is_kw(ts[q3], "else"@) {
                match block_loop(ts, q3 + 1, seq!["end"@], Seq::empty()) {
                    Some((eb, q4)) => if q4 <= q3 || !inside(ts, q4) || !is_kw(ts[q4], "end"@) {
                        None
                    } else {
                        Some(
                            (
                                StmtV::If {
                                    condition: c,
                                    then_branch: tb,
                                    else_if_branches: eifs,
                                    else_branch: Some(eb),
                                },
                                q4 + 1,
                            ),
                        )
                    },
                    None => None,
                }
            } else if is_kw(ts[q3], "end"@) {
                Some(
                    (
                        StmtV::If { condition: c, then_branch: tb, else_if_branches: eifs, else_branch: None },
                        q3 + 1,
                    ),
                )
            } else {
                None
            },
        }
    }
}

/// An `if` statement at `p`.
pub open spec fn if_g(ts: Seq<Tok>, p: int) -> Option<(StmtV, int)>
    decreases ts.len() - p, 6int, 2int,
{
    if !inside(ts, p) || !is_kw(ts[p], "if"@) {
        None
    } else {
        match expr_g(ts, p + 1) {
            None => None,
            Some((c, q)) => if q <= p || !inside(ts, q) || !is_kw(ts[q], "then"@) {
                None
            } else {
                match block_loop(ts, q + 1, seq!["else"@, "elseif"@, "end"@], Seq::empty()) {
                    None => None,
                    Some((tb, q2)) => if_tail(ts, p, q2, c, tb),
                }
            },
        }
    }
}

/// `do` statements `end` at `p`: the statements and the position after `end`.
pub open spec fn do_block(ts: Seq<Tok>, p: int) -> Option<(Seq<StmtV>, int)>
    decreases ts.len() - p, 6int, 1int,
{
    if !inside(ts, p) || !is_kw(ts[p], "do"@) {
        None
    } else {
        match block_loop(ts, p + 1, seq!["end"@], Seq::empty()) {
            Some((body, q)) => if q <= p || !inside(ts, q) || !is_kw(ts[q], "end"@) {
                None
            } else {
                Some((body, q + 1))
            },
            None => None,
        }
    }
}

/// A `for` statement at `p`, numeric or over an iterator.
pub open spec fn for_g(ts: Seq<Tok>, p: int) -> Option<(StmtV, int)>
    decreases ts.len() - p, 6int, 2int,
{
    if !inside(ts, p) || !is_kw(ts[p], "for"@) || !inside(ts, p + 2) || ts[p + 1].kind != TokKind::Name {
        None
    } else {
        let n1 = ts[p + 1].value@;
        if is_sym(ts[p + 2], "="@) {
            match expr_g(ts, p + 3) {
                None => None,
                Some((start, q)) => if q <= p || !inside(ts, q) || !is_sym(ts[q], ","@) {
                    None
                } else {
                    match expr_g(ts, q + 1) {
                        None => None,
                        Some((end, q2)) => if q2 <= q || !inside(ts, q2) {
                            None
                        } else {
                            let st = if is_sym(ts[q2], ","@) {
                                match expr_g(ts, q2 + 1) {
                                    Some((s, q3)) => Some((Some(s), q3)),
                                    None => None,
                                }
                            } else {
                                Some((None, q2))
                            };
                            match st {
                                None => None,
                                Some((step, q3)) => if q3 < q2 || !inside(ts, q3) {
                                    None
                                } else {
                                    match do_block(ts, q3) {
                                        Some((body, q4)) => Some(
                                            (StmtV::NumericFor { var: n1, start, end, step, body }, q4),
                                        ),
                                        None => None,
                                    }
                                },
                            }
                        },
                    }
                },
            }
        } else {
            let (vars, q) = if is_sym(ts[p + 2], ","@) {
                if inside(ts, p + 3) && ts[p + 3].kind == TokKind::Name {
                    (Some(seq![n1, ts[p + 3].value@]), p + 4)
                } else {
                    (None, p + 3)
                }
            } else {
                (Some(seq![n1]), p + 2)
            };
            if vars is None || !inside(ts, q) || !is_kw(ts[q], "in"@) {
                None
            } else {
                match expr_g(ts, q + 1) {
                    Some((source, q2)) => if q2 <= q || !inside(ts, q2) {
                        None
                    } else {
                        match do_block(ts, q2) {
                            Some((body, q3)) => Some((StmtV::For { vars: vars->0, source, body }, q3)),
                            None => None,
                        }
                    },
                    None => None,
                }
            }
        }
    }
}

/// A `while` loop at `p`.
pub open spec fn while_g(ts: Seq<Tok>, p: int) -> Option<(StmtV, int)>
    decreases ts.len() - p, 6int, 2int,
{
    if !inside(ts, p) || !is_kw(ts[p], "while"@) {
        None
    } else {
        match expr_g(ts, p + 1) {
            Some((c, q)) => if q <= p || !inside(ts, q) {
                None
            } else {
                match do_block(ts, q) {
                    Some((body, q2)) => Some((StmtV::While { condition: c, body }, q2)),
                    None => None,
                }
            },
            None => None,
        }
    }
}

/// A `repeat` loop at `p`.
pub open spec fn repeat_g(ts: Seq<Tok>, p: int) -> Option<(StmtV, int)>
    decreases ts.len() - p, 6int, 2int,
{
    if !inside(ts, p) || !is_kw(ts[p], "repeat"@) {
        None
    } else {
        match block_loop(ts, p + 1, seq!["until"@], Seq::empty()) {
            Some((body, q)) => if q <= p || !inside(ts, q) || !is_kw(ts[q], "until"@) {
                None
            } else {
                match expr_g(ts, q + 1) {
                    Some((c, q2)) => Some((StmtV::Repeat { body, condition: c }, q2)),
                    None => None,
                }
            },
            None => None,
        }
    }
}

/// Call arguments from `p` on, after `acc`, through the closing `)`.
pub open spec fn args_loop(ts: Seq<Tok>, p: int, acc: Seq<ExprV>) -> Option<(Seq<ExprV>, int)>
    decreases ts.len() - p, 5int, 0int,
{
    match expr_g(ts, p) {
        None => None,
        Some((a, q)) => if q <= p || !inside(ts, q) {
            None
        } else if is_sym(ts[q], ","@) {
            args_loop(ts, q + 1, acc.push(a))
        } else if is_sym(ts[q], ")"@) {
            Some((acc.push(a), q + 1))
        } else {
            None
        },
    }
}

/// Call arguments after the `(`, through the closing `)`.
pub open spec fn call_args_g(ts: Seq<Tok>, p: int) -> Option<(Seq<ExprV>, int)>
    decreases ts.len() - p, 5int, 1int,
{
    if inside(ts, p) && is_sym(ts[p], ")"@) {
        Some((Seq::empty(), p + 1))
    } else {
        args_loop(ts, p, Seq::empty())
    }
}

/// An expression at `p`.
pub open spec fn expr_g(ts: Seq<Tok>, p: int) -> Option<(ExprV, int)>
    decreases ts.len() - p, 4int, 0int,
{
    prec_g(ts, p, 0)
}

/// Operands from `p` on joined by binary operators binding at least as
/// tightly as `min`, equal ones grouping to the left.
pub open spec fn prec_g(ts: Seq<Tok>, p: int, min: int) -> Option<(ExprV, int)>
    decreases ts.len() - p, 3int, 1int,
{
    match prefix_g(ts, p) {
        None => None,
        Some((left, q)) => if q <= p || !inside(ts, q) {
            None
        } else {
            prec_loop(ts, q, min, left)
        },
    }
}

/// Binary operators and their right operands from `p` on, applied to `left`.
pub open spec fn prec_loop(ts: Seq<Tok>, p: int, min: int, left: ExprV) -> Option<(ExprV, int)>
    decreases ts.len() - p, 3int, 0int,
{
    if !inside(ts, p) {
        None
    } else if ts[p].kind == TokKind::Eof {
        Some((left, p))
    } else {
        match binop_prec(ts[p].kind, ts[p].value@) {
            Some(pr) => if pr < min {
                Some((left, p))
            } else {
                match prec_g(ts, p + 1, pr + 1) {
                    Some((right, q)) => if q <= p || !inside(ts, q) {
                        None
                    } else {
                        prec_loop(
                            ts,
                            q,
                            min,
                            ExprV::Binary { left: Box::new(left), op: ts[p].value@, right: Box::new(right) },
                        )
                    },
                    None => None,
                }
            },
            None => Some((left, p)),
        }
    }
}

/// Whether `object:name(` starts at `p`.
pub open spec fn method_call_at(ts: Seq<Tok>, p: int) -> bool {
    &&& inside(ts, p)
    &&& is_sym(ts[p], ":"@)
    &&& p + 2 < ts.len()
    &&& ts[p + 1].kind == TokKind::Name
    &&& is_sym(ts[p + 2], "("@)
}

/// A prefix expression at `p`: a function, a parenthesised expression, a
/// table, a unary operation, `...`, a name or literal with its suffixes.
pub open spec fn prefix_g(ts: Seq<Tok>, p: int) -> Option<(ExprV, int)>
    decreases ts.len() - p, 2int, 0int,
{
    if !inside(ts, p) {
        None
    } else {
        let t = ts[p];
        if is_kw(t, "function"@) {
            if !inside(ts, p + 1) || !is_sym(ts[p + 1], "("@) {
                None
            } else {
                match param_list(ts, p + 2) {
                    None => None,
                    Some((params, q)) => if q <= p || !inside(ts, q) {
                        None
                    } else {
                        let q2 = if is_sym(ts[q], ":"@) {
                            type_ann(ts, q + 1).1
                        } else {
                            q
                        };
                        if q2 < q || !inside(ts, q2) {
                            None
                        } else {
                            match block_loop(ts, q2, seq!["end"@], Seq::empty()) {
                                Some((body, q3)) => if q3 < q2 || !inside(ts, q3) || !is_kw(ts[q3], "end"@) {
                                    None
                                } else {
                                    Some((ExprV::Function { params, body }, q3 + 1))
                                },
                                None => None,
                            }
                        }
                    },
                }
            }
        } else if is_sym(t, "("@) {
            match expr_g(ts, p + 1) {
                Some((e, q)) => if q <= p || !inside(ts, q) || !is_sym(ts[q], ")"@) {
                    None
                } else {
                    postfix_g(ts, q + 1, e)
                },
                None => None,
            }
        } else if is_sym(t, "{"@) {
            table_g(ts, p)
        } else if is_kw(t, "not"@) || is_sym(t, "-"@) || is_sym(t, "#"@) {
            match prefix_g(ts, p + 1) {
                Some((inner, q)) => Some((ExprV::Unary { op: t.value@, expr: Box::new(inner) }, q)),
                None => None,
            }
        } else if is_sym(t, "..."@) {
            Some((ExprV::Vararg, p + 1))
        } else if t.kind == TokKind::Name || t.kind == TokKind::Keyword {
            let v = t.value@;
            let e = if v == "true"@ || v == "false"@ || v == "nil"@ {
                ExprV::Literal(v)
            } else {
                ExprV::Variable(v)
            };
            postfix_g(ts, p + 1, e)
        } else if t.kind == TokKind::Str {
            Some((ExprV::Str(t.value@), p + 1))
        } else if t.kind == TokKind::Interp {
            Some((ExprV::Interp(t.value@), p + 1))
        } else if t.kind == TokKind::Number {
            Some((ExprV::Literal(t.value@), p + 1))
        } else {
            None
        }
    }
}

/// The suffixes `.field`, `(args)`, `:method(args)`, `[index]` (and
/// `[cite ...]` notes, skipped) from `p` on, applied to `e`.
pub open spec fn postfix_g(ts: Seq<Tok>, p: int, e: ExprV) -> Option<(ExprV, int)>
    decreases ts.len() - p, 1int, 0int,
{
    if !inside(ts, p) {
        None
    } else if is_sym(ts[p], "."@) {
        if inside(ts, p + 1) && ts[p + 1].kind == TokKind::Name {
            postfix_g(ts, p + 2, ExprV::Member { object: Box::new(e), field: ts[p + 1].value@ })
        } else {
            None
        }
    } else if is_sym(ts[p], "("@) {
        match call_args_g(ts, p + 1) {
            Some((args, q)) => if q <= p || !inside(ts, q) {
                None
            } else {
                postfix_g(ts, q, ExprV::Call { callee: Box::new(e), args })
            },
            None => None,
        }
    } else if method_call_at(ts, p) {
        match call_args_g(ts, p + 3) {
            Some((args, q)) => if q <= p || !inside(ts, q) {
                None
            } else {
                postfix_g(
                    ts,
                    q,
                    ExprV::MethodCall { object: Box::new(e), method: ts[p + 1].value@, args },
                )
            },
            None => None,
        }
    } else if is_sym(ts[p], "["@) {
        if inside(ts, p + 1) && ts[p + 1].kind == TokKind::Name && ts[p + 1].value@ == "cite"@ {
            let k = skip_to_close(ts, p + 1);
            if k <= p || !inside(ts, k) || !is_sym(ts[k], "]"@) {
                None
            } else {
                postfix_g(ts, k + 1, e)
            }
        } else {
            match expr_g(ts, p + 1) {
                Some((ix, q)) => if q <= p || !inside(ts, q) || !is_sym(ts[q], "]"@) {
                    None
                } else {
                    postfix_g(ts, q + 1, ExprV::Index { object: Box::new(e), index: Box::new(ix) })
                },
                None => None,
            }
        }
    } else {
        Some((e, p))
    }
}

/// Whether a keyed entry `name =` starts at `p`.
pub open spec fn keyed_at(ts: Seq<Tok>, p: int) -> bool {
    inside(ts, p) && ts[p].kind == TokKind::Name && p + 1 < ts.len() && is_sym(ts[p + 1], "="@)
}

/// Table entries from `p` on, after `acc`, through the closing `}`.
pub open spec fn entries_loop(ts: Seq<Tok>, p: int, acc: Seq<EntryV>) -> Option<(Seq<EntryV>, int)>
    decreases ts.len() - p, 5int, 0int,
{
    let (key, vp) = if keyed_at(ts, p) {
        (Some(ts[p].value@), p + 2)
    } else {
        (None, p)
    };
    match expr_g(ts, vp) {
        None => None,
        Some((v, q)) => if q <= p || !inside(ts, q) {
            None
        } else {
            let acc2 = acc.push(EntryV { key, value: v });
            if is_sym(ts[q], ","@) {
                entries_loop(ts, q + 1, acc2)
            } else if is_sym(ts[q], "}"@) {
                Some((acc2, q + 1))
            } else {
                None
            }
        },
    }
}

/// A table constructor at `p`.
pub open spec fn table_g(ts: Seq<Tok>, p: int) -> Option<(ExprV, int)>
    decreases ts.len() - p, 0int, 0int,
{
    if !inside(ts, p) || !is_sym(ts[p], "{"@) || !inside(ts, p + 1) {
        None
    } else if is_sym(ts[p + 1], "}"@) {
        Some((ExprV::Table(Seq::empty()), p + 2))
    } else {
        match entries_loop(ts, p + 1, Seq::empty()) {
            Some((es, q)) => Some((ExprV::Table(es), q)),
            None => None,
        }
    }
}

} // verus!
