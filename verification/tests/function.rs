use openvaf::entities::{Block, FuncRef, Inst, Value};
use openvaf::function::{DataFlowGraph, Function, FunctionSignature, SourceLoc};
use openvaf::instructions::{InstructionData, Opcode, PhiNode};

#[test]
fn source_locations() {
    let mut s = SourceLoc::new(5);
    assert_eq!(s.bits(), 5);
    assert!(!s.is_default());
    s.inv();
    assert_eq!(s.bits(), -5);
    assert!(SourceLoc::default_loc().is_default());
    assert_eq!(SourceLoc::default_loc().bits(), 0);
}

#[test]
fn data_flow_graph() {
    let mut dfg = DataFlowGraph::new();
    dfg.insts.push(InstructionData::Branch { cond: Value(3), then_dst: Block(1), else_dst: Block(2), loop_entry: false });
    dfg.insts.push(InstructionData::Call { func_ref: FuncRef(0), args: vec![] });
    dfg.insts.push(InstructionData::Unary { opcode: Opcode::Sqrt, arg: Value(1) });
    dfg.signatures.push(FunctionSignature { name: "f".to_string(), params: 0, returns: 1, has_side_effects: true });
    assert_eq!(dfg.num_insts(), 3);
    assert!(dfg.inst_is_valid(Inst(2)));
    assert!(!dfg.inst_is_valid(Inst(3)));
    assert_eq!(dfg.branch_cond(Inst(0)), Some(Value(3)));
    assert_eq!(dfg.branch_cond(Inst(2)), None);
    assert_eq!(dfg.func_ref(Inst(1)), Some(FuncRef(0)));
    assert_eq!(dfg.call_signature(Inst(1)).map(|s| s.returns), Some(1));
    assert!(dfg.has_side_effects(Inst(1), false));
    assert!(dfg.has_side_effects(Inst(0), true));
    assert!(!dfg.has_side_effects(Inst(0), false));
    assert!(!dfg.has_side_effects(Inst(2), true));
    dfg.clear();
    assert_eq!(dfg.num_insts(), 0);
}

#[test]
fn functions() {
    let mut f = Function::new().with_name("g".to_string());
    assert_eq!(f.name, "g");
    let r = f.import_function(FunctionSignature { name: "h".to_string(), params: 2, returns: 0, has_side_effects: false });
    assert_eq!(r, FuncRef(0));
    f.clear();
    assert_eq!(f.name, "g");
    assert_eq!(f.dfg.num_insts(), 0);
}

/// b0: i0 i1 (jump b1); b1: i2 (phi [b0 -> v7]), i3 (phi [b0 -> v8, b5 -> v9]), i4 (jump b0)
fn with_phis() -> Function {
    let mut f = Function::new();
    let b0 = f.layout.append_new_block();
    let b1 = f.layout.append_new_block();
    f.dfg.insts.push(InstructionData::Unary { opcode: Opcode::Sqrt, arg: Value(1) });
    f.dfg.insts.push(InstructionData::Jump { destination: b1 });
    f.dfg.insts.push(InstructionData::PhiNode(PhiNode { blocks: vec![(b0, 0)], args: vec![Value(7)] }));
    f.dfg.insts.push(InstructionData::PhiNode(PhiNode {
        blocks: vec![(b0, 0), (Block(5), 1)],
        args: vec![Value(8), Value(9)],
    }));
    f.dfg.insts.push(InstructionData::Jump { destination: b0 });
    f.layout.append_inst_to_block(Inst(0), b0);
    f.layout.append_inst_to_block(Inst(1), b0);
    f.layout.append_inst_to_block(Inst(2), b1);
    f.layout.append_inst_to_block(Inst(3), b1);
    f.layout.append_inst_to_block(Inst(4), b1);
    f
}

fn phi_blocks(f: &Function, i: usize) -> Vec<(Block, u32)> {
    f.dfg.insts[i].unwrap_phi().blocks.clone()
}

#[test]
fn update_phi_edges() {
    let mut f = with_phis();
    f.update_phi_edges(Block(1), Block(0), Block(3));
    assert_eq!(phi_blocks(&f, 2), vec![(Block(3), 0)]);
    assert_eq!(phi_blocks(&f, 3), vec![(Block(3), 0), (Block(5), 1)]);
}

#[test]
fn split_block_updates_phis() {
    let mut f = with_phis();
    let b2 = f.layout.make_block();
    f.split_block(b2, Inst(1));
    assert_eq!(f.layout.blocks(), vec![Block(0), b2, Block(1)]);
    assert_eq!(f.layout.block_insts(Block(0)), vec![Inst(0)]);
    assert_eq!(f.layout.block_insts(b2), vec![Inst(1)]);
    assert_eq!(phi_blocks(&f, 2), vec![(b2, 0)]);
    assert_eq!(phi_blocks(&f, 3), vec![(b2, 0), (Block(5), 1)]);
}

#[test]
fn instruction_operands() {
    let mut dfg = DataFlowGraph::new();
    dfg.insts.push(InstructionData::Binary { opcode: Opcode::Fadd, args: [Value(3), Value(6)] });
    dfg.insts.push(InstructionData::Jump { destination: Block(0) });
    assert_eq!(dfg.instr_args(Inst(0)), vec![Value(3), Value(6)]);
    assert!(dfg.instr_args(Inst(1)).is_empty());
}
