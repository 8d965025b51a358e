use neyuki::parser::{Expr, Param, Parser, Stmt};

#[test]
fn parses_local_assignment_and_call() {
    let mut parser = Parser::new("local msg = \"hello\"\nprint(msg)");
    let program = parser.parse_program().unwrap();

    assert_eq!(
        program,
        vec![
            Stmt::Local {
                name: "msg".to_string(),
                is_const: false,
                type_annotation: None,
                initializer: Some(Expr::Str("hello".to_string())),
            },
            Stmt::Expr(Expr::Call {
                callee: Box::new(Expr::Variable("print".to_string())),
                args: vec![Expr::Variable("msg".to_string())],
            }),
        ]
    );
}

#[test]
fn parses_typed_local_and_function_bindings() {
    let mut parser = Parser::new(
        "local small: int = 2\nconst function divide(a: int, b: int): int\n    return a // b\nend",
    );
    let program = parser.parse_program().unwrap();

    assert_eq!(
        program[0],
        Stmt::Local {
            name: "small".to_string(),
            is_const: false,
            type_annotation: Some("int".to_string()),
            initializer: Some(Expr::Literal("2".to_string())),
        }
    );

    assert!(matches!(program[1], Stmt::Function { .. }));
}

#[test]
fn parses_dotted_const_binding_as_assignment() {
    let mut parser = Parser::new("const math.e = 1");
    let program = parser.parse_program().unwrap();

    assert_eq!(
        program,
        vec![Stmt::Assign {
            target: Expr::Member {
                object: Box::new(Expr::Variable("math".to_string())),
                field: "e".to_string(),
            },
            value: Expr::Literal("1".to_string()),
            is_const: true,
        }]
    );
}

#[test]
fn parses_immediately_invoked_function_expression() {
    let mut parser = Parser::new("local value = (function() return 1 end)()");
    let program = parser.parse_program().unwrap();

    assert!(matches!(
        program.first(),
        Some(Stmt::Local {
            initializer: Some(Expr::Call { .. }),
            ..
        })
    ));
}

#[test]
fn parses_compound_and_multiple_assignment() {
    let mut parser = Parser::new("n += 2
a, b = b, a");
    let program = parser.parse_program().unwrap();

    assert_eq!(
        program[0],
        Stmt::Assign {
            target: Expr::Variable("n".to_string()),
            value: Expr::Binary {
                left: Box::new(Expr::Variable("n".to_string())),
                op: "+".to_string(),
                right: Box::new(Expr::Literal("2".to_string())),
            },
            is_const: false,
        }
    );
    assert_eq!(
        program[1],
        Stmt::AssignMany {
            targets: vec![
                Expr::Variable("a".to_string()),
                Expr::Variable("b".to_string())
            ],
            values: vec![
                Expr::Variable("b".to_string()),
                Expr::Variable("a".to_string())
            ],
        }
    );
}

#[test]
fn parses_dotted_typed_function_bindings() {
    let mut parser = Parser::new(
        "function math.random(min: number, max: number): number\n    return 1\nend",
    );
    let program = parser.parse_program().unwrap();

    assert_eq!(
        program[0],
        Stmt::Function {
            name: Some("math.random".to_string()),
            is_const: false,
            params: vec![
                Param {
                    name: "min".to_string(),
                    type_annotation: Some("number".to_string()),
                    variadic: false
                },
                Param {
                    name: "max".to_string(),
                    type_annotation: Some("number".to_string()),
                    variadic: false
                },
            ],
            return_type: Some("number".to_string()),
            body: vec![Stmt::Return(vec![Expr::Literal("1".to_string())])],
        }
    );
}

#[test]
fn parses_typed_variadic_parameter_and_increment() {
    let mut parser = Parser::new(
        "function collect(first: number, ...: number): number\n    local total = first\n    total++\n    total--\n    return total\nend",
    );
    let program = parser.parse_program().unwrap();

    let Stmt::Function { params, body, .. } = &program[0] else {
        panic!("expected function");
    };
    assert_eq!(
        params[1],
        Param {
            name: "...".to_string(),
            type_annotation: Some("number".to_string()),
            variadic: true
        }
    );
    assert!(matches!(body[1], Stmt::Increment { amount: 1, .. }));
    assert!(matches!(body[2], Stmt::Increment { amount: -1, .. }));
}

#[test]
fn parses_numeric_for_loop() {
    let mut parser = Parser::new("for i = 1, 10, 2 do\n    print(i)\nend");
    let program = parser.parse_program().unwrap();

    assert!(matches!(
        &program[0],
        Stmt::NumericFor {
            var,
            step: Some(_),
            body,
            ..
        } if var == "i" && body.len() == 1
    ));
}

#[test]
fn parses_anonymous_function_expression() {
    let mut parser = Parser::new("table.sort(numbers, function(a, b) return a < b end)");
    let program = parser.parse_program().unwrap();

    assert!(matches!(
        &program[0],
        Stmt::Expr(Expr::Call { args, .. })
            if matches!(args.get(1), Some(Expr::Function { params, body })
                if params.len() == 2 && body.len() == 1)
    ));
}

#[test]
fn binary_operators_group_by_strength() {
    let mut parser = Parser::new("return 1 + 2 * 3");
    let program = parser.parse_program().unwrap();
    assert_eq!(
        program[0],
        Stmt::Return(vec![Expr::Binary {
            left: Box::new(Expr::Literal("1".to_string())),
            op: "+".to_string(),
            right: Box::new(Expr::Binary {
                left: Box::new(Expr::Literal("2".to_string())),
                op: "*".to_string(),
                right: Box::new(Expr::Literal("3".to_string())),
            }),
        }])
    );
}

#[test]
fn malformed_input_is_an_error() {
    let mut parser = Parser::new("local = 3");
    assert!(parser.parse_program().is_err());
    let mut parser = Parser::new("if x then");
    assert!(parser.parse_program().is_err());
}

#[test]
fn program_stops_at_block_end() {
    let mut parser = Parser::new("x = 1 end y = 2");
    let program = parser.parse_program().unwrap();
    assert_eq!(program.len(), 1);
}
