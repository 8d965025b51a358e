//! Standard codes of errors and warnings.
use vstd::prelude::*;

verus! {

#[derive(Clone, Copy, Debug, PartialEq, Eq, Hash, Structural)]
pub enum ErrorCode {
    // Semantic errors
    E0001,
    E0002,
    E0003,
    E0004,
    E0005,
    // Syntax and parsing errors
    E0050,
    E0051,
    E0052,
    // Compilation and bytecode errors
    E0100,
    E0101,
    E0102,
    E0103,
    // Runtime errors
    E0200,
    E0201,
    // Warnings
    W0001,
    W0002,
    W0003,
    W0004,
    W0005,
}

/// The text of a code, such as `E0001`.
pub open spec fn code_text(c: ErrorCode) -> Seq<char> {
    match c {
        ErrorCode::E0001 => "E0001"@,
        ErrorCode::E0002 => "E0002"@,
        ErrorCode::E0003 => "E0003"@,
        ErrorCode::E0004 => "E0004"@,
        ErrorCode::E0005 => "E0005"@,
        ErrorCode::E0050 => "E0050"@,
        ErrorCode::E0051 => "E0051"@,
        ErrorCode::E0052 => "E0052"@,
        ErrorCode::E0100 => "E0100"@,
        ErrorCode::E0101 => "E0101"@,
        ErrorCode::E0102 => "E0102"@,
        ErrorCode::E0103 => "E0103"@,
        ErrorCode::E0200 => "E0200"@,
        ErrorCode::E0201 => "E0201"@,
        ErrorCode::W0001 => "W0001"@,
        ErrorCode::W0002 => "W0002"@,
        ErrorCode::W0003 => "W0003"@,
        ErrorCode::W0004 => "W0004"@,
        ErrorCode::W0005 => "W0005"@,
    }
}

/// Distinct codes have distinct texts: a code's text names it alone.
pub proof fn lemma_code_text_distinct(c1: ErrorCode, c2: ErrorCode)
    requires
        c1 != c2,
    ensures
        code_text(c1) != code_text(c2),
{
    reveal_strlit("E0001");
    reveal_strlit("E0002");
    reveal_strlit("E0003");
    reveal_strlit("E0004");
    reveal_strlit("E0005");
    reveal_strlit("E0050");
    reveal_strlit("E0051");
    reveal_strlit("E0052");
    reveal_strlit("E0100");
    reveal_strlit("E0101");
    reveal_strlit("E0102");
    reveal_strlit("E0103");
    reveal_strlit("E0200");
    reveal_strlit("E0201");
    reveal_strlit("W0001");
    reveal_strlit("W0002");
    reveal_strlit("W0003");
    reveal_strlit("W0004");
    reveal_strlit("W0005");
    let t1 = code_text(c1);
    let t2 = code_text(c2);
    assert(t1.len() == 5 && t2.len() == 5);
    assert(t1[0] != t2[0] || t1[2] != t2[2] || t1[3] != t2[3] || t1[4] != t2[4]);
}

/// The one-line description of a code.
pub open spec fn code_description(c: ErrorCode) -> Seq<char> {
    match c {
        ErrorCode::E0001 => "variable used before declaration"@,
        ErrorCode::E0002 => "cannot reassign to const variable"@,
        ErrorCode::E0003 => "type mismatch"@,
        ErrorCode::E0004 => "wrong number of arguments"@,
        ErrorCode::E0005 => "duplicate declaration in scope"@,
        ErrorCode::E0050 => "syntax error"@,
        ErrorCode::E0051 => "unexpected token"@,
        ErrorCode::E0052 => "unclosed token"@,
        ErrorCode::E0100 => "register limit exceeded"@,
        ErrorCode::E0101 => "constant pool limit exceeded"@,
        ErrorCode::E0102 => "jump offset overflow"@,
        ErrorCode::E0103 => "bytecode verification failed"@,
        ErrorCode::E0200 => "runtime error"@,
        ErrorCode::E0201 => "assertion failed"@,
        ErrorCode::W0001 => "unused variable"@,
        ErrorCode::W0002 => "unused parameter"@,
        ErrorCode::W0003 => "variable shadows outer declaration"@,
        ErrorCode::W0004 => "unreachable code"@,
        ErrorCode::W0005 => "redundant operation"@,
    }
}

impl ErrorCode {
    /// The text of this code, such as `E0001`.
    pub fn as_str(&self) -> (r: &'static str)
        ensures
            r@ == code_text(*self),
    {
        match self {
            ErrorCode::E0001 => "E0001",
            ErrorCode::E0002 => "E0002",
            ErrorCode::E0003 => "E0003",
            ErrorCode::E0004 => "E0004",
            ErrorCode::E0005 => "E0005",
            ErrorCode::E0050 => "E0050",
            ErrorCode::E0051 => "E0051",
            ErrorCode::E0052 => "E0052",
            ErrorCode::E0100 => "E0100",
            ErrorCode::E0101 => "E0101",
            ErrorCode::E0102 => "E0102",
            ErrorCode::E0103 => "E0103",
            ErrorCode::E0200 => "E0200",
            ErrorCode::E0201 => "E0201",
            ErrorCode::W0001 => "W0001",
            ErrorCode::W0002 => "W0002",
            ErrorCode::W0003 => "W0003",
            ErrorCode::W0004 => "W0004",
            ErrorCode::W0005 => "W0005",
        }
    }

    /// The one-line description of this code.
    pub fn description(&self) -> (r: &'static str)
        ensures
            r@ == code_description(*self),
    {
        match self {
            ErrorCode::E0001 => "variable used before declaration",
            ErrorCode::E0002 => "cannot reassign to const variable",
            ErrorCode::E0003 => "type mismatch",
            ErrorCode::E0004 => "wrong number of arguments",
            ErrorCode::E0005 => "duplicate declaration in scope",
            ErrorCode::E0050 => "syntax error",
            ErrorCode::E0051 => "unexpected token",
            ErrorCode::E0052 => "unclosed token",
            ErrorCode::E0100 => "register limit exceeded",
            ErrorCode::E0101 => "constant pool limit exceeded",
            ErrorCode::E0102 => "jump offset overflow",
            ErrorCode::E0103 => "bytecode verification failed",
            ErrorCode::E0200 => "runtime error",
            ErrorCode::E0201 => "assertion failed",
            ErrorCode::W0001 => "unused variable",
            ErrorCode::W0002 => "unused parameter",
            ErrorCode::W0003 => "variable shadows outer declaration",
            ErrorCode::W0004 => "unreachable code",
            ErrorCode::W0005 => "redundant operation",
        }
    }
}

} // verus!
