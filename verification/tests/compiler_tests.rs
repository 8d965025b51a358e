use neyuki::compiler::ir::block::IrFunction;
use neyuki::compiler::ir::inst::IrInst;
use neyuki::compiler::ir::types::{IrLabel, IrVar};
use neyuki::bytecode::{Instruction, Proto};
use neyuki::compiler::cost_model::CostModel;
use neyuki::compiler::table_shape::{analyze_expr_shapes, TableShape, TableShapeKind};
use neyuki::parser::{Expr, TableEntry};

#[test]
fn test_table_shape_pure_array() {
    let entries = vec![
        TableEntry { key: None, value: Expr::Literal("1".to_string()) },
        TableEntry { key: None, value: Expr::Literal("2".to_string()) },
        TableEntry { key: None, value: Expr::Literal("3".to_string()) },
    ];
    let shape = TableShape::analyze(&entries);
    assert_eq!(shape.kind, TableShapeKind::PureArray(3));
    assert_eq!(shape.array_capacity, 3);
    assert_eq!(shape.hash_capacity, 0);
    assert!(shape.qualifies_for_setlist());
}

#[test]
fn test_table_shape_record() {
    let entries = vec![
        TableEntry { key: Some("name".to_string()), value: Expr::Str("Neyuki".to_string()) },
        TableEntry { key: Some("version".to_string()), value: Expr::Literal("1".to_string()) },
    ];
    let shape = TableShape::analyze(&entries);
    assert_eq!(
        shape.kind,
        TableShapeKind::Record(vec!["name".to_string(), "version".to_string()])
    );
    assert_eq!(shape.array_capacity, 0);
    assert_eq!(shape.hash_capacity, 2);
    assert!(!shape.qualifies_for_setlist());
}

#[test]
fn test_table_shape_duplicate_keys() {
    let entries = vec![
        TableEntry { key: Some("a".to_string()), value: Expr::Literal("1".to_string()) },
        TableEntry { key: Some("a".to_string()), value: Expr::Literal("2".to_string()) },
    ];
    let shape = TableShape::analyze(&entries);
    assert!(shape.has_duplicate_keys);
    assert_eq!(shape.hash_capacity, 1);
}

#[test]
fn test_instruction_cost_model() {
    let model = CostModel::default();
    let load_cost = model.instruction_cost(&Instruction::LoadInt { dst: 0, val: 10 });
    let add_cost = model.instruction_cost(&Instruction::Add { dst: 0, a: 1, b: 2 });
    let call_cost = model.instruction_cost(&Instruction::Call {
        callee: 0,
        argc: 1,
        retc: 1,
    });

    assert_eq!(load_cost, 1);
    assert_eq!(add_cost, 2);
    assert_eq!(call_cost, 8);
}

#[test]
fn test_inline_heuristics() {
    let model = CostModel::default();
    let mut small_proto = Proto::new(Some("add_one".to_string()), 1, false);
    small_proto.max_registers = 2;
    small_proto
        .instructions
        .push(Instruction::LoadInt { dst: 1, val: 1 });
    small_proto
        .instructions
        .push(Instruction::Add { dst: 0, a: 0, b: 1 });
    small_proto
        .instructions
        .push(Instruction::Return { base: 0, count: 1 });

    assert!(model.should_inline(&small_proto));

    // Heavy proto with closure and table creation should not inline
    let mut heavy_proto = Proto::new(Some("heavy".to_string()), 0, false);
    heavy_proto.max_registers = 16;
    for _ in 0..30 {
        heavy_proto
            .instructions
            .push(Instruction::NewTable { dst: 0 });
    }
    assert!(!model.should_inline(&heavy_proto));
}

#[test]
fn ir_costs_weigh_each_instruction() {
    let model = CostModel::default();
    let mut f = IrFunction::new(None, 0, false);
    f.instructions.push(IrInst::Move { dst: IrVar(0), src: IrVar(1) });
    f.instructions.push(IrInst::NewTable { dst: IrVar(2) });
    f.instructions.push(IrInst::Jump(IrLabel(0)));
    assert_eq!(model.ir_inst_cost(&f.instructions[1]), 12);
    assert_eq!(model.ir_function_cost(&f), 1 + 12 + 2);
    assert!(model.should_inline_ir(&f));
    f.is_vararg = true;
    assert!(!model.should_inline_ir(&f));
}

#[test]
fn table_shapes_come_in_preorder() {
    let inner = Expr::Table(vec![TableEntry { key: Some("a".to_string()), value: Expr::Literal("1".to_string()) }]);
    let outer = Expr::Table(vec![
        TableEntry { key: None, value: inner },
        TableEntry { key: None, value: Expr::Literal("2".to_string()) },
    ]);
    let call = Expr::Call { callee: Box::new(Expr::Variable("f".to_string())), args: vec![outer, Expr::Table(vec![])] };
    let mut out: Vec<TableShape> = Vec::new();
    analyze_expr_shapes(&call, &mut out);
    assert_eq!(out.len(), 3);
    assert_eq!(out[0].kind, TableShapeKind::PureArray(2));
    assert_eq!(out[1].kind, TableShapeKind::Record(vec!["a".to_string()]));
    assert_eq!(out[2].kind, TableShapeKind::Empty);
}

#[test]
fn nested_prototype_costs_add_up_and_saturate() {
    let model = CostModel::default();
    let mut inner = Proto::new(None, 0, false);
    inner.instructions.push(Instruction::Call { callee: 0, argc: 0, retc: 0 });
    let mut outer = Proto::new(None, 0, false);
    outer.instructions.push(Instruction::LoadInt { dst: 0, val: 1 });
    outer.protos.push(inner);
    assert_eq!(model.proto_cost(&outer), 1 + 8);

    let mut heavy = CostModel::default();
    heavy.call_cost = u32::MAX;
    assert_eq!(heavy.proto_cost(&outer), u32::MAX);
}
