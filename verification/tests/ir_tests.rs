use neyuki::compiler::ir::builder::parse_int_from_str;
use neyuki::compiler::ir::block::{BasicBlock, ControlFlowGraph, IrFunction, IrModule};
use neyuki::compiler::ir::cfg_builder::build_cfg;
use neyuki::compiler::ir::dom::DominatorTree;
use neyuki::compiler::ir::inst::{IrInst, SpreadSink, SpreadSource};
use neyuki::compiler::ir::opt::const_fold::constant_propagation;
use neyuki::compiler::ir::opt::cse::{
    common_subexpression_elimination, common_subexpression_elimination_cfg, cse_slice,
};
use neyuki::compiler::ir::liveness::{LiveInterval, LivenessInfo};
use neyuki::compiler::ir::opt::captured_vars;
use neyuki::compiler::ir::opt::inline::{inline_functions, is_inline_candidate};
use neyuki::compiler::ir::opt::loop_invariant::{find_natural_loops, is_hoistable, loop_invariant_code_motion};
use neyuki::compiler::ir::opt::dce::{dead_code_elimination, dead_code_elimination_cfg, is_pure_instruction};
use neyuki::compiler::ir::regalloc::allocate_registers;
use neyuki::compiler::ir::ssa::{construct_ssa, destruct_ssa, ssa_constant_propagation};
use neyuki::compiler::ir::tree_order::children_acyclic;
use num_bigint::BigInt;
use neyuki::compiler::ir::opt::simplify_cfg::{
    eliminate_empty_jump_blocks, merge_single_edge_blocks, remove_unreachable_blocks, simplify_cfg,
};
use neyuki::compiler::ir::types::{IrBinaryOp, IrConstant, IrLabel, IrUnaryOp, IrVar};
use neyuki::compiler::ir::verify::{verify_cfg, verify_function, verify_module};

#[test]
fn test_verify_empty_module() {
    let module = IrModule::new(IrFunction::new(Some("main".to_string()), 0, false));
    assert!(verify_module(&module).is_ok());
}

#[test]
fn test_verify_module_detects_unknown_jump() {
    let mut func = IrFunction::new(Some("main".to_string()), 0, false);
    let mut cfg = ControlFlowGraph::new(IrLabel(0));
    let mut b0 = BasicBlock::new(IrLabel(0));
    b0.instructions.push(IrInst::Jump(IrLabel(999)));
    cfg.blocks.push(b0);
    func.cfg = Some(cfg);
    let module = IrModule::new(func);
    let res = verify_module(&module);
    assert!(res.is_err());
    let errs = res.unwrap_err();
    assert!(
        errs.iter()
            .any(|e| e.contains("references unknown jump target"))
    );
}

fn edge(from: usize, to: usize, cfg: &mut ControlFlowGraph) {
    cfg.blocks[from].successors.push(IrLabel(to));
    cfg.blocks[to].predecessors.push(IrLabel(from));
}

fn two_blocks() -> ControlFlowGraph {
    let mut cfg = ControlFlowGraph::new(IrLabel(0));
    let mut b0 = BasicBlock::new(IrLabel(0));
    b0.instructions.push(IrInst::LoadNil { dst: IrVar(0) });
    b0.instructions.push(IrInst::Jump(IrLabel(1)));
    let mut b1 = BasicBlock::new(IrLabel(1));
    b1.instructions.push(IrInst::Return(vec![IrVar(0)]));
    cfg.blocks.push(b0);
    cfg.blocks.push(b1);
    edge(0, 1, &mut cfg);
    cfg
}

#[test]
fn a_consistent_graph_verifies() {
    assert_eq!(verify_cfg(&two_blocks(), 0), Ok(()));
}

#[test]
fn missing_entry_and_duplicate_labels_are_reported() {
    let mut cfg = two_blocks();
    cfg.entry_label = IrLabel(7);
    let errs = verify_cfg(&cfg, 0).unwrap_err();
    assert!(errs.contains(&"entry block IrLabel(7) not found in CFG".to_string()));
    let mut cfg = two_blocks();
    cfg.blocks.push(BasicBlock::new(IrLabel(1)));
    let errs = verify_cfg(&cfg, 0).unwrap_err();
    assert_eq!(errs, vec!["duplicate block label IrLabel(1)".to_string()]);
}

#[test]
fn one_sided_edges_are_reported() {
    let mut cfg = two_blocks();
    cfg.blocks[1].predecessors.clear();
    let errs = verify_cfg(&cfg, 0).unwrap_err();
    assert_eq!(
        errs,
        vec![
            "broken edge reciprocity: IrLabel(0) -> IrLabel(1), but IrLabel(0) not in IrLabel(1)'s predecessors"
                .to_string()
        ]
    );
    let mut cfg = two_blocks();
    cfg.blocks[1].predecessors.push(IrLabel(5));
    let errs = verify_cfg(&cfg, 0).unwrap_err();
    assert_eq!(errs, vec!["block IrLabel(1) has unknown predecessor IrLabel(5)".to_string()]);
}

#[test]
fn terminators_must_agree_with_edges() {
    let mut cfg = two_blocks();
    cfg.blocks[1].successors.push(IrLabel(0));
    cfg.blocks[0].predecessors.push(IrLabel(1));
    let errs = verify_cfg(&cfg, 0).unwrap_err();
    assert_eq!(errs, vec!["block IrLabel(1) terminates with Return but has successors".to_string()]);
    let mut cfg = two_blocks();
    cfg.blocks[0].instructions[1] = IrInst::Jump(IrLabel(0));
    let errs = verify_cfg(&cfg, 0).unwrap_err();
    assert_eq!(
        errs,
        vec!["block IrLabel(0) terminates with Jump(IrLabel(0)) but target is not in successors".to_string()]
    );
}

#[test]
fn phis_must_come_first() {
    let mut cfg = two_blocks();
    cfg.blocks[1].instructions.insert(
        0,
        IrInst::Phi { dst: IrVar(3), incoming: vec![(IrLabel(0), IrVar(0))] },
    );
    assert_eq!(verify_cfg(&cfg, 0), Ok(()));
    cfg.blocks[1].instructions.push(IrInst::Phi { dst: IrVar(4), incoming: vec![] });
    let errs = verify_cfg(&cfg, 0).unwrap_err();
    assert_eq!(
        errs,
        vec!["Phi instruction found after non-Phi instruction in block IrLabel(1)".to_string()]
    );
}

#[test]
fn nested_functions_are_checked_too() {
    let mut inner = IrFunction::new(None, 0, false);
    let mut cfg = ControlFlowGraph::new(IrLabel(3));
    cfg.blocks.push(BasicBlock::new(IrLabel(4)));
    inner.cfg = Some(cfg);
    let mut outer = IrFunction::new(Some("main".to_string()), 0, false);
    outer.cfg = Some(two_blocks());
    outer.protos.push(inner);
    let errs = verify_function(&outer).unwrap_err();
    assert_eq!(errs, vec!["entry block IrLabel(3) not found in CFG".to_string()]);
}

#[test]
fn instruction_reads_writes_and_targets() {
    let call = IrInst::Call { dsts: vec![IrVar(5), IrVar(6)], callee: IrVar(1), args: vec![IrVar(2), IrVar(3)], retc: 2 };
    assert_eq!(call.def_var(), Some(IrVar(5)));
    assert_eq!(call.def_vars(), vec![IrVar(5), IrVar(6)]);
    assert_eq!(call.use_vars(), vec![IrVar(1), IrVar(2), IrVar(3)]);
    assert!(!call.is_terminator());
    let for_prep = IrInst::ForPrep { base: IrVar(0), limit: IrVar(1), step: IrVar(2), loop_var: IrVar(3), jump: IrLabel(9) };
    assert_eq!(for_prep.def_vars(), vec![IrVar(0), IrVar(1), IrVar(2), IrVar(3)]);
    assert_eq!(for_prep.use_vars(), vec![IrVar(0), IrVar(1), IrVar(2)]);
    assert_eq!(for_prep.jump_targets(), vec![IrLabel(9)]);
    assert!(for_prep.is_terminator());
    let closure = IrInst::Closure { dst: IrVar(7), proto_idx: 0, captures: vec![Some(IrVar(1)), None, Some(IrVar(2))] };
    assert_eq!(closure.use_vars(), vec![IrVar(1), IrVar(2)]);
    let spread = IrInst::Spread {
        source: SpreadSource::Call { callee: IrVar(1), args: vec![IrVar(2)], trailing: Some(Box::new(SpreadSource::Vararg)) },
        sink: SpreadSink::Return,
    };
    assert!(spread.is_terminator());
    assert_eq!(spread.use_vars(), vec![IrVar(1), IrVar(2)]);
    let phi = IrInst::Phi { dst: IrVar(8), incoming: vec![(IrLabel(1), IrVar(4)), (IrLabel(2), IrVar(5))] };
    assert_eq!(phi.use_vars(), vec![IrVar(4), IrVar(5)]);
    let add = IrInst::BinOp { dst: IrVar(2), op: IrBinaryOp::Add, lhs: IrVar(0), rhs: IrVar(1) };
    assert_eq!(add.use_vars(), vec![IrVar(0), IrVar(1)]);
    assert!(add.jump_targets().is_empty());
}

#[test]
fn flattening_blocks_restores_labels() {
    let mut cfg = two_blocks();
    cfg.blocks[0].instructions.insert(0, IrInst::Label(IrLabel(0)));
    cfg.blocks[0].instructions.insert(1, IrInst::LoadConst { dst: IrVar(9), val: IrConstant::Float(1.5f64.to_bits()) });
    let flat = cfg.to_flat_instructions();
    assert_eq!(
        flat,
        vec![
            IrInst::Label(IrLabel(0)),
            IrInst::LoadConst { dst: IrVar(9), val: IrConstant::Float(1.5f64.to_bits()) },
            IrInst::LoadNil { dst: IrVar(0) },
            IrInst::Jump(IrLabel(1)),
            IrInst::Label(IrLabel(1)),
            IrInst::Return(vec![IrVar(0)]),
        ]
    );
    assert_eq!(cfg.blocks[1].terminator(), Some(&IrInst::Return(vec![IrVar(0)])));
    assert_eq!(cfg.block_index(IrLabel(1)), Some(1));
    assert!(cfg.find_block(IrLabel(2)).is_none());
    assert_eq!(cfg.entry_block().map(|b| b.label), Some(IrLabel(0)));
}

#[test]
fn build_cfg_splits_at_labels_and_jumps() {
    let insts = vec![
        IrInst::LoadNil { dst: IrVar(0) },
        IrInst::JumpIfFalse { cond: IrVar(0), target: IrLabel(5) },
        IrInst::LoadNil { dst: IrVar(1) },
        IrInst::Label(IrLabel(5)),
        IrInst::Return(vec![IrVar(1)]),
    ];
    let cfg = build_cfg(&insts);
    assert_eq!(cfg.entry_label, IrLabel(900001));
    assert_eq!(cfg.blocks.len(), 3);
    let b0 = &cfg.blocks[0];
    assert_eq!(b0.label, IrLabel(900001));
    assert_eq!(
        b0.instructions,
        vec![
            IrInst::LoadNil { dst: IrVar(0) },
            IrInst::JumpIfFalse { cond: IrVar(0), target: IrLabel(5) },
            IrInst::Jump(IrLabel(900002)),
        ]
    );
    assert_eq!(b0.successors, vec![IrLabel(5), IrLabel(900002)]);
    assert!(b0.predecessors.is_empty());
    let b1 = &cfg.blocks[1];
    assert_eq!(b1.label, IrLabel(900002));
    assert_eq!(b1.instructions, vec![IrInst::LoadNil { dst: IrVar(1) }, IrInst::Jump(IrLabel(5))]);
    assert_eq!(b1.successors, vec![IrLabel(5)]);
    assert_eq!(b1.predecessors, vec![IrLabel(900001)]);
    let b2 = &cfg.blocks[2];
    assert_eq!(b2.label, IrLabel(5));
    assert_eq!(b2.instructions, vec![IrInst::Return(vec![IrVar(1)])]);
    assert!(b2.successors.is_empty());
    assert_eq!(b2.predecessors, vec![IrLabel(900001), IrLabel(900002)]);
    assert_eq!(verify_cfg(&cfg, 0), Ok(()));
}

#[test]
fn build_cfg_takes_fresh_labels_above_existing_ones() {
    let insts = vec![
        IrInst::Jump(IrLabel(2_000_000)),
        IrInst::LoadNil { dst: IrVar(0) },
        IrInst::Label(IrLabel(2_000_000)),
        IrInst::Return(vec![]),
    ];
    let cfg = build_cfg(&insts);
    let labels: Vec<IrLabel> = cfg.blocks.iter().map(|b| b.label).collect();
    assert_eq!(labels, vec![IrLabel(2_000_001), IrLabel(2_000_002), IrLabel(2_000_000)]);
    // The unreachable middle block still falls through to the label.
    assert_eq!(cfg.blocks[1].successors, vec![IrLabel(2_000_000)]);
    assert_eq!(cfg.blocks[2].predecessors, vec![IrLabel(2_000_001), IrLabel(2_000_002)]);
}

#[test]
fn build_cfg_of_nothing_is_one_empty_block() {
    let cfg = build_cfg(&[]);
    assert_eq!(cfg.entry_label, IrLabel(0));
    assert_eq!(cfg.blocks, vec![BasicBlock::new(IrLabel(0))]);
}

#[test]
fn dce_drops_unused_values_and_dead_code() {
    let mut func = IrFunction::new(Some("main".to_string()), 0, false);
    func.instructions = vec![
        IrInst::LoadConst { dst: IrVar(0), val: IrConstant::Bool(true) },
        IrInst::LoadNil { dst: IrVar(1) },
        IrInst::Return(vec![IrVar(1)]),
        IrInst::LoadNil { dst: IrVar(2) },
        IrInst::Label(IrLabel(1)),
        IrInst::BinOp { dst: IrVar(3), op: IrBinaryOp::Add, lhs: IrVar(1), rhs: IrVar(1) },
        IrInst::Call { dsts: vec![], callee: IrVar(1), args: vec![], retc: 0 },
    ];
    let mut module = IrModule::new(func);
    dead_code_elimination(&mut module);
    assert_eq!(
        module.main.instructions,
        vec![
            IrInst::LoadNil { dst: IrVar(1) },
            IrInst::Return(vec![IrVar(1)]),
            IrInst::Label(IrLabel(1)),
            IrInst::Call { dsts: vec![], callee: IrVar(1), args: vec![], retc: 0 },
        ]
    );
    assert_eq!(module.main.name, Some("main".to_string()));
}

#[test]
fn purity_of_instructions() {
    assert!(is_pure_instruction(&IrInst::Move { dst: IrVar(0), src: IrVar(1) }));
    assert!(is_pure_instruction(&IrInst::NewTable { dst: IrVar(0) }));
    assert!(!is_pure_instruction(&IrInst::SetGlobal { name: "g".to_string(), src: IrVar(1) }));
    assert!(!is_pure_instruction(&IrInst::Call { dsts: vec![], callee: IrVar(1), args: vec![], retc: 0 }));
}

#[test]
fn unreachable_blocks_are_removed() {
    let mut cfg = ControlFlowGraph::new(IrLabel(0));
    for l in 0..4 {
        cfg.blocks.push(BasicBlock::new(IrLabel(l)));
    }
    // 0 -> 1 -> 3, and 2 -> 1 with 2 unreachable.
    cfg.blocks[0].successors.push(IrLabel(1));
    cfg.blocks[1].successors.push(IrLabel(3));
    cfg.blocks[2].successors.push(IrLabel(1));
    cfg.blocks[1].predecessors = vec![IrLabel(0), IrLabel(2)];
    cfg.blocks[3].predecessors = vec![IrLabel(1)];
    assert!(remove_unreachable_blocks(&mut cfg));
    let labels: Vec<IrLabel> = cfg.blocks.iter().map(|b| b.label).collect();
    assert_eq!(labels, vec![IrLabel(0), IrLabel(1), IrLabel(3)]);
    assert_eq!(cfg.blocks[1].predecessors, vec![IrLabel(0)]);
    assert_eq!(cfg.blocks[2].predecessors, vec![IrLabel(1)]);
    assert!(!remove_unreachable_blocks(&mut cfg));
}

fn big_const(v: i64) -> IrConstant {
    IrConstant::Int(BigInt::from(v))
}

#[test]
fn constants_are_folded_through_chains() {
    let mut func = IrFunction::new(None, 0, false);
    func.instructions = vec![
        IrInst::LoadConst { dst: IrVar(0), val: big_const(2) },
        IrInst::LoadConst { dst: IrVar(1), val: big_const(40) },
        IrInst::BinOp { dst: IrVar(2), op: IrBinaryOp::Add, lhs: IrVar(0), rhs: IrVar(1) },
        IrInst::BinOp { dst: IrVar(3), op: IrBinaryOp::Mul, lhs: IrVar(2), rhs: IrVar(2) },
        IrInst::BinOp { dst: IrVar(4), op: IrBinaryOp::Sub, lhs: IrVar(0), rhs: IrVar(3) },
        IrInst::BinOp { dst: IrVar(5), op: IrBinaryOp::Lt, lhs: IrVar(4), rhs: IrVar(0) },
        IrInst::BinOp { dst: IrVar(6), op: IrBinaryOp::Div, lhs: IrVar(1), rhs: IrVar(0) },
        IrInst::BinOp { dst: IrVar(7), op: IrBinaryOp::Add, lhs: IrVar(6), rhs: IrVar(0) },
    ];
    let mut module = IrModule::new(func);
    constant_propagation(&mut module);
    assert_eq!(
        module.main.instructions,
        vec![
            IrInst::LoadConst { dst: IrVar(0), val: big_const(2) },
            IrInst::LoadConst { dst: IrVar(1), val: big_const(40) },
            IrInst::LoadConst { dst: IrVar(2), val: big_const(42) },
            IrInst::LoadConst { dst: IrVar(3), val: big_const(1764) },
            IrInst::LoadConst { dst: IrVar(4), val: big_const(-1762) },
            IrInst::LoadConst { dst: IrVar(5), val: IrConstant::Bool(true) },
            IrInst::BinOp { dst: IrVar(6), op: IrBinaryOp::Div, lhs: IrVar(1), rhs: IrVar(0) },
            IrInst::BinOp { dst: IrVar(7), op: IrBinaryOp::Add, lhs: IrVar(6), rhs: IrVar(0) },
        ]
    );
}

#[test]
fn big_integers_and_strings_fold_exactly() {
    let big: BigInt = "123456789012345678901234567890".parse().unwrap();
    let mut func = IrFunction::new(None, 0, false);
    func.instructions = vec![
        IrInst::LoadConst { dst: IrVar(0), val: IrConstant::Int(big.clone()) },
        IrInst::BinOp { dst: IrVar(1), op: IrBinaryOp::Mul, lhs: IrVar(0), rhs: IrVar(0) },
        IrInst::BinOp { dst: IrVar(2), op: IrBinaryOp::Eq, lhs: IrVar(0), rhs: IrVar(1) },
        IrInst::LoadConst { dst: IrVar(3), val: IrConstant::String("ne".to_string()) },
        IrInst::LoadConst { dst: IrVar(4), val: IrConstant::String("yuki".to_string()) },
        IrInst::BinOp { dst: IrVar(5), op: IrBinaryOp::Concat, lhs: IrVar(3), rhs: IrVar(4) },
        IrInst::BinOp { dst: IrVar(6), op: IrBinaryOp::Add, lhs: IrVar(3), rhs: IrVar(4) },
    ];
    let mut module = IrModule::new(func);
    constant_propagation(&mut module);
    let ins = &module.main.instructions;
    assert_eq!(ins[1], IrInst::LoadConst { dst: IrVar(1), val: IrConstant::Int(&big * &big) });
    assert_eq!(ins[2], IrInst::LoadConst { dst: IrVar(2), val: IrConstant::Bool(false) });
    assert_eq!(ins[5], IrInst::LoadConst { dst: IrVar(5), val: IrConstant::String("neyuki".to_string()) });
    assert_eq!(ins[6], IrInst::BinOp { dst: IrVar(6), op: IrBinaryOp::Add, lhs: IrVar(3), rhs: IrVar(4) });
}

#[test]
fn empty_jump_block_is_bypassed() {
    // 0 jumps to 1, which only jumps to 2.
    let mut cfg = ControlFlowGraph::new(IrLabel(0));
    for l in 0..3 {
        cfg.blocks.push(BasicBlock::new(IrLabel(l)));
    }
    cfg.blocks[0].instructions.push(IrInst::Jump(IrLabel(1)));
    cfg.blocks[1].instructions.push(IrInst::Jump(IrLabel(2)));
    cfg.blocks[2].instructions.push(IrInst::Return(vec![]));
    edge(0, 1, &mut cfg);
    edge(1, 2, &mut cfg);
    assert!(eliminate_empty_jump_blocks(&mut cfg));
    let labels: Vec<IrLabel> = cfg.blocks.iter().map(|b| b.label).collect();
    assert_eq!(labels, vec![IrLabel(0), IrLabel(2)]);
    assert_eq!(cfg.blocks[0].instructions, vec![IrInst::Jump(IrLabel(2))]);
    assert_eq!(cfg.blocks[0].successors, vec![IrLabel(2)]);
    assert_eq!(cfg.blocks[1].predecessors, vec![IrLabel(0)]);
    assert!(!eliminate_empty_jump_blocks(&mut cfg));
}

#[test]
fn entry_jump_block_is_kept() {
    let mut cfg = ControlFlowGraph::new(IrLabel(0));
    cfg.blocks.push(BasicBlock::new(IrLabel(0)));
    cfg.blocks.push(BasicBlock::new(IrLabel(1)));
    cfg.blocks[0].instructions.push(IrInst::Jump(IrLabel(1)));
    cfg.blocks[1].instructions.push(IrInst::Return(vec![]));
    edge(0, 1, &mut cfg);
    assert!(!eliminate_empty_jump_blocks(&mut cfg));
    assert_eq!(cfg.blocks.len(), 2);
}

#[test]
fn single_edge_blocks_are_merged() {
    let mut cfg = two_blocks();
    assert!(merge_single_edge_blocks(&mut cfg));
    assert_eq!(cfg.blocks.len(), 1);
    assert_eq!(
        cfg.blocks[0].instructions,
        vec![IrInst::LoadNil { dst: IrVar(0) }, IrInst::Return(vec![IrVar(0)])]
    );
    assert!(cfg.blocks[0].successors.is_empty());
    assert!(!merge_single_edge_blocks(&mut cfg));
}

#[test]
fn merge_renames_predecessors_of_the_absorbed_block() {
    // 0 -> 1 -> 2; merging 1 into 0 makes 0 the predecessor of 2.
    let mut cfg = ControlFlowGraph::new(IrLabel(0));
    for l in 0..3 {
        cfg.blocks.push(BasicBlock::new(IrLabel(l)));
    }
    cfg.blocks[0].instructions.push(IrInst::Jump(IrLabel(1)));
    cfg.blocks[1].instructions.push(IrInst::LoadNil { dst: IrVar(3) });
    cfg.blocks[1].instructions.push(IrInst::Jump(IrLabel(2)));
    cfg.blocks[2].instructions.push(IrInst::Return(vec![]));
    edge(0, 1, &mut cfg);
    edge(1, 2, &mut cfg);
    assert!(merge_single_edge_blocks(&mut cfg));
    let labels: Vec<IrLabel> = cfg.blocks.iter().map(|b| b.label).collect();
    assert_eq!(labels, vec![IrLabel(0), IrLabel(2)]);
    assert_eq!(
        cfg.blocks[0].instructions,
        vec![IrInst::LoadNil { dst: IrVar(3) }, IrInst::Jump(IrLabel(2))]
    );
    assert_eq!(cfg.blocks[1].predecessors, vec![IrLabel(0)]);
}

#[test]
fn simplify_cfg_collapses_a_chain() {
    // 0 -> 1 -> 2 plus an unreachable block 3 jumping to 2.
    let mut cfg = ControlFlowGraph::new(IrLabel(0));
    for l in 0..4 {
        cfg.blocks.push(BasicBlock::new(IrLabel(l)));
    }
    cfg.blocks[0].instructions.push(IrInst::LoadNil { dst: IrVar(0) });
    cfg.blocks[0].instructions.push(IrInst::Jump(IrLabel(1)));
    cfg.blocks[1].instructions.push(IrInst::Jump(IrLabel(2)));
    cfg.blocks[2].instructions.push(IrInst::Return(vec![IrVar(0)]));
    cfg.blocks[3].instructions.push(IrInst::Jump(IrLabel(2)));
    edge(0, 1, &mut cfg);
    edge(1, 2, &mut cfg);
    edge(3, 2, &mut cfg);
    assert!(simplify_cfg(&mut cfg));
    assert_eq!(cfg.blocks.len(), 1);
    assert_eq!(cfg.blocks[0].label, IrLabel(0));
    assert_eq!(
        cfg.blocks[0].instructions,
        vec![IrInst::LoadNil { dst: IrVar(0) }, IrInst::Return(vec![IrVar(0)])]
    );
    assert!(!simplify_cfg(&mut cfg));
}

#[test]
fn repeated_commutative_computation_becomes_a_move() {
    let mut insts = vec![
        IrInst::BinOp { dst: IrVar(2), op: IrBinaryOp::Add, lhs: IrVar(0), rhs: IrVar(1) },
        IrInst::BinOp { dst: IrVar(3), op: IrBinaryOp::Add, lhs: IrVar(1), rhs: IrVar(0) },
        IrInst::BinOp { dst: IrVar(4), op: IrBinaryOp::Sub, lhs: IrVar(1), rhs: IrVar(0) },
    ];
    assert!(cse_slice(&mut insts));
    assert_eq!(insts[1], IrInst::Move { dst: IrVar(3), src: IrVar(2) });
    assert_eq!(
        insts[2],
        IrInst::BinOp { dst: IrVar(4), op: IrBinaryOp::Sub, lhs: IrVar(1), rhs: IrVar(0) }
    );
}

#[test]
fn writing_an_operand_forgets_the_computation() {
    let mut insts = vec![
        IrInst::UnOp { dst: IrVar(2), op: IrUnaryOp::Neg, src: IrVar(0) },
        IrInst::LoadNil { dst: IrVar(0) },
        IrInst::UnOp { dst: IrVar(3), op: IrUnaryOp::Neg, src: IrVar(0) },
    ];
    assert!(!cse_slice(&mut insts));
    assert_eq!(insts[2], IrInst::UnOp { dst: IrVar(3), op: IrUnaryOp::Neg, src: IrVar(0) });
}

#[test]
fn cse_runs_on_every_block_and_on_a_module() {
    let mut cfg = ControlFlowGraph::new(IrLabel(0));
    let mut b0 = BasicBlock::new(IrLabel(0));
    b0.instructions.push(IrInst::UnOp { dst: IrVar(1), op: IrUnaryOp::Not, src: IrVar(0) });
    b0.instructions.push(IrInst::UnOp { dst: IrVar(2), op: IrUnaryOp::Not, src: IrVar(0) });
    cfg.blocks.push(b0);
    assert!(common_subexpression_elimination_cfg(&mut cfg));
    assert_eq!(cfg.blocks[0].instructions[1], IrInst::Move { dst: IrVar(2), src: IrVar(1) });
    assert!(!common_subexpression_elimination_cfg(&mut cfg));

    let mut main = IrFunction::new(None, 0, false);
    main.instructions.push(IrInst::BinOp { dst: IrVar(2), op: IrBinaryOp::Mul, lhs: IrVar(0), rhs: IrVar(1) });
    main.instructions.push(IrInst::BinOp { dst: IrVar(3), op: IrBinaryOp::Mul, lhs: IrVar(0), rhs: IrVar(1) });
    let mut module = IrModule::new(main);
    common_subexpression_elimination(&mut module);
    assert_eq!(module.main.instructions[1], IrInst::Move { dst: IrVar(3), src: IrVar(2) });
}

fn load_then_return() -> ControlFlowGraph {
    // 0: v0 = nil; jump 1    1: return v0
    let mut cfg = ControlFlowGraph::new(IrLabel(0));
    let mut b0 = BasicBlock::new(IrLabel(0));
    b0.instructions.push(IrInst::LoadNil { dst: IrVar(0) });
    b0.instructions.push(IrInst::Jump(IrLabel(1)));
    let mut b1 = BasicBlock::new(IrLabel(1));
    b1.instructions.push(IrInst::Return(vec![IrVar(0)]));
    cfg.blocks.push(b0);
    cfg.blocks.push(b1);
    edge(0, 1, &mut cfg);
    cfg
}

#[test]
fn liveness_flows_backward_across_blocks() {
    let cfg = load_then_return();
    let info = LivenessInfo::compute(&cfg);
    assert!(info.is_live_in(IrLabel(1), IrVar(0)));
    assert!(info.is_live_out(IrLabel(0), IrVar(0)));
    assert!(!info.is_live_in(IrLabel(0), IrVar(0)));
    assert!(!info.is_live_out(IrLabel(1), IrVar(0)));
}

#[test]
fn live_intervals_span_the_blocks() {
    let cfg = load_then_return();
    let info = LivenessInfo::compute(&cfg);
    let ivs = info.compute_live_intervals(&cfg);
    assert_eq!(ivs.len(), 1);
    assert_eq!(ivs[0], LiveInterval { var: IrVar(0), start: 0, end: 2 });
}

#[test]
fn overlapping_variables_get_distinct_registers() {
    let mut cfg = ControlFlowGraph::new(IrLabel(0));
    let mut b0 = BasicBlock::new(IrLabel(0));
    b0.instructions.push(IrInst::LoadNil { dst: IrVar(1) });
    b0.instructions.push(IrInst::LoadNil { dst: IrVar(2) });
    b0.instructions.push(IrInst::BinOp { dst: IrVar(3), op: IrBinaryOp::Add, lhs: IrVar(1), rhs: IrVar(2) });
    b0.instructions.push(IrInst::Return(vec![IrVar(3)]));
    cfg.blocks.push(b0);
    let alloc = allocate_registers(&cfg, 0).unwrap();
    assert_eq!(alloc.get(IrVar(1)), Some(0));
    assert_eq!(alloc.get(IrVar(2)), Some(1));
    assert_eq!(alloc.get(IrVar(3)), Some(2));
    assert_eq!(alloc.max_registers, 3);
}

#[test]
fn a_freed_register_is_reused() {
    // v1 dies at the move into v2, whose interval starts after v1's ends.
    let mut cfg = ControlFlowGraph::new(IrLabel(0));
    let mut b0 = BasicBlock::new(IrLabel(0));
    b0.instructions.push(IrInst::LoadNil { dst: IrVar(1) });
    b0.instructions.push(IrInst::Move { dst: IrVar(2), src: IrVar(1) });
    b0.instructions.push(IrInst::LoadNil { dst: IrVar(3) });
    b0.instructions.push(IrInst::Return(vec![IrVar(2), IrVar(3)]));
    cfg.blocks.push(b0);
    let alloc = allocate_registers(&cfg, 1).unwrap();
    assert_eq!(alloc.get(IrVar(0)), Some(0));
    assert_eq!(alloc.get(IrVar(1)), Some(1));
    assert_eq!(alloc.get(IrVar(2)), Some(2));
    assert_eq!(alloc.get(IrVar(3)), Some(1));
    assert_eq!(alloc.max_registers, 3);
}

#[test]
fn too_many_live_variables_fail_allocation() {
    let mut cfg = ControlFlowGraph::new(IrLabel(0));
    let mut b0 = BasicBlock::new(IrLabel(0));
    let mut all = Vec::new();
    for v in 0..256u32 {
        b0.instructions.push(IrInst::LoadNil { dst: IrVar(v) });
        all.push(IrVar(v));
    }
    b0.instructions.push(IrInst::Return(all));
    cfg.blocks.push(b0);
    let err = allocate_registers(&cfg, 0).unwrap_err();
    assert_eq!(
        err,
        "register allocation failure: register limit (255) exceeded for variable IrVar(255)"
    );
}

#[test]
fn dead_pure_instructions_are_swept() {
    let mut cfg = ControlFlowGraph::new(IrLabel(0));
    let mut b0 = BasicBlock::new(IrLabel(0));
    b0.instructions.push(IrInst::LoadNil { dst: IrVar(0) });
    b0.instructions.push(IrInst::LoadNil { dst: IrVar(1) });
    b0.instructions.push(IrInst::Return(vec![IrVar(1)]));
    cfg.blocks.push(b0);
    assert!(dead_code_elimination_cfg(&mut cfg));
    assert_eq!(
        cfg.blocks[0].instructions,
        vec![IrInst::LoadNil { dst: IrVar(1) }, IrInst::Return(vec![IrVar(1)])]
    );
    assert!(!dead_code_elimination_cfg(&mut cfg));
}

#[test]
fn values_live_into_a_successor_are_kept() {
    let mut cfg = load_then_return();
    assert!(!dead_code_elimination_cfg(&mut cfg));
    assert_eq!(cfg.blocks[0].instructions.len(), 2);
}

#[test]
fn captured_variables_are_found() {
    let mut cfg = ControlFlowGraph::new(IrLabel(0));
    let mut b0 = BasicBlock::new(IrLabel(0));
    b0.instructions.push(IrInst::Closure { dst: IrVar(5), proto_idx: 0, captures: vec![Some(IrVar(2)), None] });
    cfg.blocks.push(b0);
    assert_eq!(captured_vars(&cfg), vec![IrVar(2)]);
}

fn diamond() -> ControlFlowGraph {
    let mut cfg = ControlFlowGraph::new(IrLabel(0));
    for l in 0..4 {
        cfg.blocks.push(BasicBlock::new(IrLabel(l)));
    }
    edge(0, 1, &mut cfg);
    edge(0, 2, &mut cfg);
    edge(1, 3, &mut cfg);
    edge(2, 3, &mut cfg);
    cfg
}

#[test]
fn dominators_of_a_diamond() {
    let cfg = diamond();
    let dom = DominatorTree::build(&cfg);
    assert_eq!(
        dom.idom,
        vec![(IrLabel(0), IrLabel(0)), (IrLabel(1), IrLabel(0)), (IrLabel(2), IrLabel(0)), (IrLabel(3), IrLabel(0))]
    );
    assert_eq!(dom.children, vec![(IrLabel(0), vec![IrLabel(1), IrLabel(2), IrLabel(3)])]);
    assert_eq!(
        dom.frontiers,
        vec![
            (IrLabel(0), vec![]),
            (IrLabel(1), vec![IrLabel(3)]),
            (IrLabel(2), vec![IrLabel(3)]),
            (IrLabel(3), vec![]),
        ]
    );
    assert!(dom.dominates(IrLabel(0), IrLabel(3)));
    assert!(dom.dominates(IrLabel(3), IrLabel(3)));
    assert!(!dom.dominates(IrLabel(1), IrLabel(3)));
}

#[test]
fn dominators_of_a_chain() {
    let mut cfg = ControlFlowGraph::new(IrLabel(0));
    for l in 0..3 {
        cfg.blocks.push(BasicBlock::new(IrLabel(l)));
    }
    edge(0, 1, &mut cfg);
    edge(1, 2, &mut cfg);
    let dom = DominatorTree::build(&cfg);
    assert!(dom.dominates(IrLabel(1), IrLabel(2)));
    assert!(dom.dominates(IrLabel(0), IrLabel(2)));
    assert!(!dom.dominates(IrLabel(2), IrLabel(1)));
}

fn simple_loop() -> ControlFlowGraph {
    // 0 -> 1 (header) -> 2 -> back to 1; 1 -> 3 exits.
    let mut cfg = ControlFlowGraph::new(IrLabel(0));
    for l in 0..4 {
        cfg.blocks.push(BasicBlock::new(IrLabel(l)));
    }
    cfg.blocks[0].instructions.push(IrInst::LoadNil { dst: IrVar(9) });
    cfg.blocks[0].instructions.push(IrInst::Jump(IrLabel(1)));
    cfg.blocks[1].instructions.push(IrInst::JumpIfFalse { cond: IrVar(9), target: IrLabel(3) });
    cfg.blocks[2].instructions.push(IrInst::LoadConst { dst: IrVar(5), val: IrConstant::Bool(true) });
    cfg.blocks[2].instructions.push(IrInst::Move { dst: IrVar(6), src: IrVar(5) });
    cfg.blocks[2].instructions.push(IrInst::Jump(IrLabel(1)));
    cfg.blocks[3].instructions.push(IrInst::Return(vec![IrVar(6)]));
    edge(0, 1, &mut cfg);
    edge(1, 2, &mut cfg);
    edge(1, 3, &mut cfg);
    edge(2, 1, &mut cfg);
    cfg
}

#[test]
fn natural_loop_of_a_back_edge() {
    let cfg = simple_loop();
    let dom = DominatorTree::build(&cfg);
    let loops = find_natural_loops(&cfg, &dom);
    assert_eq!(loops.len(), 1);
    assert_eq!(loops[0].header, IrLabel(1));
    assert_eq!(loops[0].back_edge_source, IrLabel(2));
    let mut body = loops[0].body.clone();
    body.sort_by_key(|l| l.0);
    assert_eq!(body, vec![IrLabel(1), IrLabel(2)]);
}

#[test]
fn invariant_loads_are_hoisted_to_the_preheader() {
    let mut cfg = simple_loop();
    let dom = DominatorTree::build(&cfg);
    assert!(loop_invariant_code_motion(&mut cfg, &dom));
    assert_eq!(
        cfg.blocks[0].instructions,
        vec![
            IrInst::LoadNil { dst: IrVar(9) },
            IrInst::LoadConst { dst: IrVar(5), val: IrConstant::Bool(true) },
            IrInst::Move { dst: IrVar(6), src: IrVar(5) },
            IrInst::Jump(IrLabel(1)),
        ]
    );
    assert_eq!(cfg.blocks[2].instructions, vec![IrInst::Jump(IrLabel(1))]);
}

#[test]
fn a_variable_written_twice_stays_in_the_loop() {
    let mut cfg = simple_loop();
    cfg.blocks[3].instructions.insert(0, IrInst::LoadNil { dst: IrVar(5) });
    let dom = DominatorTree::build(&cfg);
    assert!(!loop_invariant_code_motion(&mut cfg, &dom));
    assert_eq!(cfg.blocks[2].instructions.len(), 3);
    assert!(is_hoistable(&IrInst::Move { dst: IrVar(1), src: IrVar(2) }));
    assert!(!is_hoistable(&IrInst::NewTable { dst: IrVar(1) }));
}

#[test]
fn phi_nodes_become_copies_in_predecessors() {
    let mut cfg = ControlFlowGraph::new(IrLabel(0));
    for l in 0..3 {
        cfg.blocks.push(BasicBlock::new(IrLabel(l)));
    }
    cfg.blocks[0].instructions.push(IrInst::Jump(IrLabel(2)));
    cfg.blocks[1].instructions.push(IrInst::Jump(IrLabel(2)));
    cfg.blocks[2].instructions.push(IrInst::Phi {
        dst: IrVar(3),
        incoming: vec![(IrLabel(0), IrVar(1)), (IrLabel(1), IrVar(2))],
    });
    cfg.blocks[2].instructions.push(IrInst::Return(vec![IrVar(3)]));
    destruct_ssa(&mut cfg);
    assert_eq!(
        cfg.blocks[0].instructions,
        vec![IrInst::Move { dst: IrVar(3), src: IrVar(1) }, IrInst::Jump(IrLabel(2))]
    );
    assert_eq!(
        cfg.blocks[1].instructions,
        vec![IrInst::Move { dst: IrVar(3), src: IrVar(2) }, IrInst::Jump(IrLabel(2))]
    );
    assert_eq!(cfg.blocks[2].instructions, vec![IrInst::Return(vec![IrVar(3)])]);
}

#[test]
fn known_integers_are_folded_in_ssa() {
    let mut cfg = ControlFlowGraph::new(IrLabel(0));
    let mut b0 = BasicBlock::new(IrLabel(0));
    b0.instructions.push(IrInst::LoadConst { dst: IrVar(1), val: big_const(2) });
    b0.instructions.push(IrInst::LoadConst { dst: IrVar(2), val: big_const(3) });
    b0.instructions.push(IrInst::BinOp { dst: IrVar(3), op: IrBinaryOp::Add, lhs: IrVar(1), rhs: IrVar(2) });
    b0.instructions.push(IrInst::BinOp { dst: IrVar(4), op: IrBinaryOp::Lt, lhs: IrVar(1), rhs: IrVar(2) });
    b0.instructions.push(IrInst::Return(vec![IrVar(3)]));
    cfg.blocks.push(b0);
    assert!(ssa_constant_propagation(&mut cfg));
    assert_eq!(cfg.blocks[0].instructions[2], IrInst::LoadConst { dst: IrVar(3), val: big_const(5) });
    assert_eq!(cfg.blocks[0].instructions[3], IrInst::LoadConst { dst: IrVar(4), val: IrConstant::Bool(true) });
}

#[test]
fn agreeing_phi_inputs_fold() {
    let mut cfg = ControlFlowGraph::new(IrLabel(0));
    let mut b0 = BasicBlock::new(IrLabel(0));
    b0.instructions.push(IrInst::LoadConst { dst: IrVar(1), val: IrConstant::Bool(true) });
    b0.instructions.push(IrInst::Move { dst: IrVar(2), src: IrVar(1) });
    b0.instructions.push(IrInst::Phi { dst: IrVar(3), incoming: vec![(IrLabel(0), IrVar(1)), (IrLabel(1), IrVar(2))] });
    b0.instructions.push(IrInst::Phi { dst: IrVar(4), incoming: vec![(IrLabel(0), IrVar(7)), (IrLabel(1), IrVar(7))] });
    cfg.blocks.push(b0);
    assert!(ssa_constant_propagation(&mut cfg));
    assert_eq!(cfg.blocks[0].instructions[2], IrInst::LoadConst { dst: IrVar(3), val: IrConstant::Bool(true) });
    assert_eq!(cfg.blocks[0].instructions[3], IrInst::Move { dst: IrVar(4), src: IrVar(7) });
}

#[test]
fn a_nan_constant_never_agrees() {
    let nan = f64::NAN.to_bits();
    let mut cfg = ControlFlowGraph::new(IrLabel(0));
    let mut b0 = BasicBlock::new(IrLabel(0));
    b0.instructions.push(IrInst::LoadConst { dst: IrVar(1), val: IrConstant::Float(nan) });
    b0.instructions.push(IrInst::LoadConst { dst: IrVar(2), val: IrConstant::Float(nan) });
    b0.instructions.push(IrInst::Phi { dst: IrVar(3), incoming: vec![(IrLabel(0), IrVar(1)), (IrLabel(1), IrVar(2))] });
    cfg.blocks.push(b0);
    ssa_constant_propagation(&mut cfg);
    assert!(matches!(cfg.blocks[0].instructions[2], IrInst::Phi { .. }));
}

fn add_one_leaf() -> IrFunction {
    let mut leaf = IrFunction::new(Some("add_one".to_string()), 1, false);
    leaf.instructions.push(IrInst::LoadConst { dst: IrVar(1), val: big_const(1) });
    leaf.instructions.push(IrInst::BinOp { dst: IrVar(2), op: IrBinaryOp::Add, lhs: IrVar(0), rhs: IrVar(1) });
    leaf.instructions.push(IrInst::Return(vec![IrVar(2)]));
    leaf
}

fn call_of_proto_zero(nargs: u32) -> IrModule {
    let mut main = IrFunction::new(Some("main".to_string()), 0, false);
    main.instructions.push(IrInst::Closure { dst: IrVar(1), proto_idx: 0, captures: vec![] });
    main.instructions.push(IrInst::Call {
        dsts: vec![IrVar(2)],
        callee: IrVar(1),
        args: (0..nargs).map(|_| IrVar(0)).collect(),
        retc: 1,
    });
    main.instructions.push(IrInst::Return(vec![IrVar(2)]));
    main.protos.push(add_one_leaf());
    IrModule::new(main)
}

#[test]
fn small_leaf_call_is_inlined_with_fresh_variables() {
    let mut module = call_of_proto_zero(1);
    assert!(inline_functions(&mut module));
    assert_eq!(
        module.main.instructions,
        vec![
            IrInst::Closure { dst: IrVar(1), proto_idx: 0, captures: vec![] },
            IrInst::LoadConst { dst: IrVar(3), val: big_const(1) },
            IrInst::BinOp { dst: IrVar(4), op: IrBinaryOp::Add, lhs: IrVar(0), rhs: IrVar(3) },
            IrInst::Move { dst: IrVar(2), src: IrVar(4) },
            IrInst::Return(vec![IrVar(2)]),
        ]
    );
    assert_eq!(module.main.protos.len(), 1);
}

#[test]
fn call_with_wrong_arity_is_not_inlined() {
    let mut module = call_of_proto_zero(2);
    assert!(!inline_functions(&mut module));
    assert_eq!(module.main.instructions, call_of_proto_zero(2).main.instructions);
}

#[test]
fn functions_with_calls_or_loops_are_not_candidates() {
    assert!(is_inline_candidate(&add_one_leaf()));
    let mut caller = add_one_leaf();
    caller.instructions.insert(0, IrInst::Call { dsts: vec![], callee: IrVar(0), args: vec![], retc: 0 });
    assert!(!is_inline_candidate(&caller));
    let mut vararg = add_one_leaf();
    vararg.is_vararg = true;
    assert!(!is_inline_candidate(&vararg));
    let mut long = IrFunction::new(None, 0, false);
    for i in 0..17 {
        long.instructions.push(IrInst::LoadNil { dst: IrVar(i) });
    }
    assert!(!is_inline_candidate(&long));
    long.instructions.pop();
    assert!(is_inline_candidate(&long));
}

fn assigned_in_both_branches() -> ControlFlowGraph {
    let mut cfg = diamond();
    cfg.blocks[0].instructions.push(IrInst::LoadConst { dst: IrVar(1), val: big_const(1) });
    cfg.blocks[0].instructions.push(IrInst::JumpIfFalse { cond: IrVar(1), target: IrLabel(2) });
    cfg.blocks[1].instructions.push(IrInst::LoadConst { dst: IrVar(1), val: big_const(2) });
    cfg.blocks[1].instructions.push(IrInst::Jump(IrLabel(3)));
    cfg.blocks[2].instructions.push(IrInst::LoadConst { dst: IrVar(1), val: big_const(3) });
    cfg.blocks[2].instructions.push(IrInst::Jump(IrLabel(3)));
    cfg.blocks[3].instructions.push(IrInst::Return(vec![IrVar(1)]));
    cfg
}

#[test]
fn ssa_construction_places_a_phi_at_the_join() {
    let mut cfg = assigned_in_both_branches();
    assert!(verify_cfg(&cfg, 0).is_ok());
    let dom = DominatorTree::build(&cfg);
    construct_ssa(&mut cfg, &dom);
    assert!(verify_cfg(&cfg, 0).is_ok());
    assert_eq!(
        cfg.blocks[0].instructions,
        vec![
            IrInst::LoadConst { dst: IrVar(2), val: big_const(1) },
            IrInst::JumpIfFalse { cond: IrVar(2), target: IrLabel(2) },
        ]
    );
    assert_eq!(
        cfg.blocks[1].instructions,
        vec![IrInst::LoadConst { dst: IrVar(3), val: big_const(2) }, IrInst::Jump(IrLabel(3))]
    );
    assert_eq!(
        cfg.blocks[2].instructions,
        vec![IrInst::LoadConst { dst: IrVar(4), val: big_const(3) }, IrInst::Jump(IrLabel(3))]
    );
    assert_eq!(
        cfg.blocks[3].instructions,
        vec![
            IrInst::Phi { dst: IrVar(5), incoming: vec![(IrLabel(1), IrVar(3)), (IrLabel(2), IrVar(4))] },
            IrInst::Return(vec![IrVar(5)]),
        ]
    );
}

#[test]
fn ssa_construction_then_destruction_verifies() {
    let mut cfg = assigned_in_both_branches();
    let dom = DominatorTree::build(&cfg);
    construct_ssa(&mut cfg, &dom);
    destruct_ssa(&mut cfg);
    assert!(verify_cfg(&cfg, 0).is_ok());
    assert_eq!(
        cfg.blocks[1].instructions,
        vec![
            IrInst::LoadConst { dst: IrVar(3), val: big_const(2) },
            IrInst::Move { dst: IrVar(5), src: IrVar(3) },
            IrInst::Jump(IrLabel(3)),
        ]
    );
}

#[test]
fn straight_line_code_gets_fresh_variables_and_no_phi() {
    let mut cfg = ControlFlowGraph::new(IrLabel(0));
    let mut b0 = BasicBlock::new(IrLabel(0));
    b0.instructions.push(IrInst::LoadConst { dst: IrVar(1), val: big_const(4) });
    b0.instructions.push(IrInst::BinOp { dst: IrVar(1), op: IrBinaryOp::Add, lhs: IrVar(1), rhs: IrVar(1) });
    b0.instructions.push(IrInst::Return(vec![IrVar(1), IrVar(7)]));
    cfg.blocks.push(b0);
    let dom = DominatorTree::build(&cfg);
    construct_ssa(&mut cfg, &dom);
    assert_eq!(
        cfg.blocks[0].instructions,
        vec![
            IrInst::LoadConst { dst: IrVar(8), val: big_const(4) },
            IrInst::BinOp { dst: IrVar(9), op: IrBinaryOp::Add, lhs: IrVar(8), rhs: IrVar(8) },
            IrInst::Return(vec![IrVar(9), IrVar(7)]),
        ]
    );
}

#[test]
fn function_errors_come_own_graph_first_then_nested_in_order() {
    let mut main = IrFunction::new(Some("main".to_string()), 0, false);
    let mut own = two_blocks();
    own.entry_label = IrLabel(9);
    main.cfg = Some(own);
    for k in [3usize, 4usize] {
        let mut inner = IrFunction::new(None, 0, false);
        let mut g = two_blocks();
        g.entry_label = IrLabel(k);
        inner.cfg = Some(g);
        main.protos.push(inner);
    }
    let errs = verify_function(&main).unwrap_err();
    assert_eq!(
        errs,
        vec![
            "entry block IrLabel(9) not found in CFG".to_string(),
            "entry block IrLabel(3) not found in CFG".to_string(),
            "entry block IrLabel(4) not found in CFG".to_string(),
        ]
    );
}

#[test]
fn decimal_literals_read_into_big_integers() {
    assert_eq!(parse_int_from_str("123"), Some(BigInt::from(123)));
    assert_eq!(parse_int_from_str("-45"), Some(BigInt::from(-45)));
    assert_eq!(parse_int_from_str("+7"), Some(BigInt::from(7)));
    assert_eq!(parse_int_from_str("1_000"), Some(BigInt::from(1000)));
    assert_eq!(parse_int_from_str(""), None);
    assert_eq!(parse_int_from_str("_1"), None);
    assert_eq!(parse_int_from_str("-+1"), None);
    assert_eq!(parse_int_from_str("12a"), None);
}

#[test]
fn terminator_and_block_can_be_changed_in_place() {
    let mut b = BasicBlock::new(IrLabel(3));
    b.instructions.push(IrInst::LoadNil { dst: IrVar(0) });
    b.instructions.push(IrInst::Jump(IrLabel(0)));
    if let Some(t) = b.terminator_mut() {
        *t = IrInst::Jump(IrLabel(5));
    }
    assert_eq!(b.instructions[1], IrInst::Jump(IrLabel(5)));
    let mut cfg = two_blocks();
    if let Some(blk) = cfg.find_block_mut(IrLabel(1)) {
        blk.instructions.clear();
    }
    assert!(cfg.blocks[1].instructions.is_empty());
    assert!(cfg.find_block_mut(IrLabel(9)).is_none());
}

#[test]
fn dominator_children_are_checked_for_cycles() {
    let cfg = assigned_in_both_branches();
    let dom = DominatorTree::build(&cfg);
    assert!(children_acyclic(&dom.children));
    let cyclic = vec![(IrLabel(0), vec![IrLabel(1)]), (IrLabel(1), vec![IrLabel(0)])];
    assert!(!children_acyclic(&cyclic));
    let chain = vec![(IrLabel(0), vec![IrLabel(1), IrLabel(7)]), (IrLabel(1), vec![IrLabel(2)]), (IrLabel(1), vec![IrLabel(0)])];
    assert!(children_acyclic(&chain));
    let looped = vec![(IrLabel(3), vec![IrLabel(3)])];
    assert!(!children_acyclic(&looped));
}
