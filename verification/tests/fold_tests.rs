use neyuki::compiler::builtins_folding::{fold_builtin_call, fold_builtin_call_scoped};
use neyuki::compiler::constant_fold::{fold_expr, fold_program, fold_stmt};
use neyuki::parser::{Expr, Parser, Stmt};

fn folded(src: &str) -> Vec<Stmt> {
    let mut parser = Parser::new(src);
    fold_program(parser.parse_program().unwrap())
}

fn lit(s: &str) -> Expr {
    Expr::Literal(s.to_string())
}

fn init(stmt: &Stmt) -> Option<&Expr> {
    match stmt {
        Stmt::Local { initializer, .. } => initializer.as_ref(),
        _ => None,
    }
}

#[test]
fn test_fold_arithmetic() {
    let optimized = folded("local x = 10 + 20 * 3");
    assert_eq!(init(&optimized[0]), Some(&lit("70")));
}

#[test]
fn test_fold_does_not_fold_shadowed_math() {
    let optimized = folded("local math = {}\nlocal a = math.abs(-42)");
    assert!(matches!(init(&optimized[1]), Some(Expr::Call { .. })));
}

#[test]
fn integer_division_and_modulo_round_down() {
    let optimized = folded("local a = -7 // 2\nlocal b = -7 % 2\nlocal c = 7 // 0");
    assert_eq!(init(&optimized[0]), Some(&lit("-4")));
    assert_eq!(init(&optimized[1]), Some(&lit("1")));
    assert!(matches!(init(&optimized[2]), Some(Expr::Binary { .. })));
}

#[test]
fn comparisons_concatenation_and_logic_fold() {
    let optimized = folded(
        "local a = 2 < 3\nlocal b = \"ab\" < \"b\"\nlocal c = \"n\" .. 1\nlocal d = nil or 5\nlocal e = false and f()\nlocal g = not nil\nlocal h = 1 == \"1\"",
    );
    assert_eq!(init(&optimized[0]), Some(&lit("true")));
    assert_eq!(init(&optimized[1]), Some(&lit("true")));
    assert_eq!(init(&optimized[2]), Some(&Expr::Str("n1".to_string())));
    assert_eq!(init(&optimized[3]), Some(&lit("5")));
    assert_eq!(init(&optimized[4]), Some(&lit("false")));
    assert_eq!(init(&optimized[5]), Some(&lit("true")));
    assert_eq!(init(&optimized[6]), Some(&lit("false")));
}

#[test]
fn floats_are_left_alone() {
    let optimized = folded("local a = 1.5 + 2");
    assert!(matches!(init(&optimized[0]), Some(Expr::Binary { .. })));
}

#[test]
fn dead_while_goes_and_true_if_drops_other_branches() {
    let optimized = folded("while false do x() end\nif 1 then a() elseif b then c() else d() end");
    assert_eq!(optimized.len(), 1);
    match &optimized[0] {
        Stmt::If { else_if_branches, else_branch, .. } => {
            assert!(else_if_branches.is_empty());
            assert!(else_branch.is_none());
        }
        _ => panic!("expected an if"),
    }
}

#[test]
fn single_expression_and_statement_fold() {
    assert_eq!(fold_expr(Expr::Unary { op: "-".to_string(), expr: Box::new(lit("5")) }), lit("-5"));
    let mut parser = Parser::new("while nil do end");
    let s = parser.parse_program().unwrap().pop().unwrap();
    assert_eq!(fold_stmt(s), None);
}

fn member(m: &str, f: &str) -> Expr {
    Expr::Member { object: Box::new(Expr::Variable(m.to_string())), field: f.to_string() }
}

#[test]
fn test_fold_builtin_math_and_bit() {
    let optimized = folded("local a = math.abs(-42)\nlocal b = bit.band(255, 15)");
    assert_eq!(init(&optimized[0]), Some(&lit("42")));
    assert_eq!(init(&optimized[1]), Some(&lit("15")));
}

#[test]
fn test_bit_and_string_folding() {
    let res = fold_builtin_call(&member("bit", "band"), &vec![lit("15"), lit("7")]);
    assert_eq!(res, Some(lit("7")));
    let res = fold_builtin_call(&member("string", "len"), &vec![Expr::Str("hello world".to_string())]);
    assert_eq!(res, Some(lit("11")));
}

#[test]
fn builtin_folds_respect_shadowing_and_shifts() {
    let shadowed = vec!["bit".to_string()];
    assert_eq!(fold_builtin_call_scoped(&member("bit", "band"), &vec![lit("15"), lit("7")], &shadowed), None);
    assert_eq!(fold_builtin_call(&member("bit", "lshift"), &vec![lit("1"), lit("4")]), Some(lit("16")));
    assert_eq!(fold_builtin_call(&member("bit", "rshift"), &vec![lit("-16"), lit("2")]), Some(lit("-4")));
    assert_eq!(fold_builtin_call(&member("bit", "lshift"), &vec![lit("1"), lit("65")]), Some(lit("0")));
    assert_eq!(fold_builtin_call(&member("bit", "bnot"), &vec![lit("0")]), Some(lit("4294967295")));
    assert_eq!(fold_builtin_call(&Expr::Variable("int".to_string()), &vec![Expr::Str("12".to_string())]), Some(lit("12")));
    assert_eq!(fold_builtin_call(&member("string", "upper"), &vec![Expr::Str("ab".to_string())]), Some(Expr::Str("AB".to_string())));
}

#[test]
fn constant_builtins_and_float_results() {
    let optimized = folded(
        "local t = type(1)\nlocal u = tostring(true)\nlocal r = string.reverse(\"abc\")\nlocal f = math.floor(3)\nlocal math = {}\nlocal g = math.abs(-1)",
    );
    assert_eq!(init(&optimized[0]), Some(&Expr::Str("number".to_string())));
    assert_eq!(init(&optimized[1]), Some(&Expr::Str("true".to_string())));
    assert_eq!(init(&optimized[2]), Some(&Expr::Str("cba".to_string())));
    assert!(matches!(init(&optimized[3]), Some(Expr::Call { .. })));
    assert!(matches!(init(&optimized[5]), Some(Expr::Call { .. })));
}

#[test]
fn test_math_folding() {
    let res = fold_builtin_call(&member("math", "abs"), &vec![lit("-42")]);
    assert_eq!(res, Some(lit("42")));
}

#[test]
fn float_literals_have_a_type() {
    let optimized = folded(
        "local a = type(1.5)\nlocal b = typeof(1.5)\nlocal c = typeof(1)\nlocal d = type(-2.5e3)\nlocal e = -2.5e3\nlocal f = math.abs(-0.5)",
    );
    assert_eq!(init(&optimized[0]), Some(&Expr::Str("number".to_string())));
    assert_eq!(init(&optimized[1]), Some(&Expr::Str("float".to_string())));
    assert_eq!(init(&optimized[2]), Some(&Expr::Str("bigint".to_string())));
    assert_eq!(init(&optimized[3]), Some(&Expr::Str("number".to_string())));
    assert_eq!(init(&optimized[4]), Some(&lit("-2.5e3")));
    assert_eq!(init(&optimized[5]), Some(&lit("0.5")));
}

#[test]
fn float_comparisons_and_text_stay() {
    let optimized = folded(
        "local a = 1.5 == 1.5e0\nlocal b = 1.5 == nil\nlocal c = tostring(1.5)\nlocal d = not 0.5\nlocal e = 1.0 < 2",
    );
    assert!(matches!(init(&optimized[0]), Some(Expr::Binary { .. })));
    assert_eq!(init(&optimized[1]), Some(&lit("false")));
    assert!(matches!(init(&optimized[2]), Some(Expr::Call { .. })));
    assert_eq!(init(&optimized[3]), Some(&lit("false")));
    assert!(matches!(init(&optimized[4]), Some(Expr::Binary { .. })));
}

#[test]
fn integer_power_and_bitwise_operators_fold() {
    let optimized = folded(
        "local a = 2 ^ 10\nlocal b = 12 & 10\nlocal c = 12 | 3\nlocal d = 5 ~ 3\nlocal e = 1 << 4\nlocal f = -16 >> 2\nlocal g = 1 << -1\nlocal h = #\"h\u{e9}llo\"\nlocal i = 2 ^ -1\nlocal j = 2 ^ 100",
    );
    assert_eq!(init(&optimized[0]), Some(&lit("1024")));
    assert_eq!(init(&optimized[1]), Some(&lit("8")));
    assert_eq!(init(&optimized[2]), Some(&lit("15")));
    assert_eq!(init(&optimized[3]), Some(&lit("6")));
    assert_eq!(init(&optimized[4]), Some(&lit("16")));
    assert_eq!(init(&optimized[5]), Some(&lit("-4")));
    assert_eq!(init(&optimized[6]), Some(&lit("0")));
    assert_eq!(init(&optimized[7]), Some(&lit("6")));
    assert!(matches!(init(&optimized[8]), Some(Expr::Binary { .. })));
    assert_eq!(init(&optimized[9]), Some(&lit("1267650600228229401496703205376")));
}

#[test]
fn constant_shifts_of_bit_libraries() {
    let optimized = folded(
        "local a = bit.lshift(1, 65)\nlocal b = bit32.rshift(256, 4)\nlocal c = bit.lshift(1, 5000)\nlocal d = bit32.lshift(3, 2)",
    );
    assert_eq!(init(&optimized[0]), Some(&lit("36893488147419103232")));
    assert_eq!(init(&optimized[1]), Some(&lit("16")));
    assert!(matches!(init(&optimized[2]), Some(Expr::Call { .. })));
    assert_eq!(init(&optimized[3]), Some(&lit("12")));
}

#[test]
fn hexadecimal_literals_are_integers() {
    let optimized = folded("local a = 0x10 + 1\nlocal b = 0XfF * 1\nlocal c = typeof(0x10)");
    assert_eq!(init(&optimized[0]), Some(&lit("17")));
    assert_eq!(init(&optimized[1]), Some(&lit("255")));
    assert_eq!(init(&optimized[2]), Some(&Expr::Str("bigint".to_string())));
}

#[test]
fn absolute_value_of_a_float_literal() {
    assert_eq!(fold_builtin_call(&member("math", "abs"), &vec![lit("-1.5")]), Some(lit("1.5")));
    assert_eq!(fold_builtin_call(&member("math", "floor"), &vec![lit("1.5")]), None);
}

#[test]
fn bitwise_operators_on_negative_integers() {
    let optimized = folded("local a = -8 & 12\nlocal b = -1 ~ 5\nlocal c = -8 | 3\nlocal d = bit.band(-1, 255, 15)");
    assert_eq!(init(&optimized[0]), Some(&lit("8")));
    assert_eq!(init(&optimized[1]), Some(&lit("-6")));
    assert_eq!(init(&optimized[2]), Some(&lit("-5")));
    assert_eq!(init(&optimized[3]), Some(&lit("15")));
}

#[test]
fn test_fold_bitwise() {
    let optimized = folded("local x = (1 << 4) | (16 >> 2)");
    assert_eq!(init(&optimized[0]), Some(&lit("20")));
}

#[test]
fn test_fold_equality_int_float_and_float_modulo() {
    let optimized = folded("local eq = 1 == 1.0\nlocal ne = 1.50 != 1.5\nlocal same = 1.5 == 1.50\nlocal open = 2 == 1.5");
    assert_eq!(init(&optimized[0]), Some(&lit("true")));
    assert_eq!(init(&optimized[1]), Some(&lit("false")));
    assert_eq!(init(&optimized[2]), Some(&lit("true")));
    assert!(matches!(init(&optimized[3]), Some(Expr::Binary { .. })));
}
