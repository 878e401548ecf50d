use openvaf::entities::{Block, FuncRef, Value};
use openvaf::instructions::{InstructionData, InstructionFormat, Opcode, OpcodeConstraints, PhiNode};

#[test]
fn opcode_properties() {
    assert!(Opcode::Br.is_branch());
    assert!(Opcode::Jmp.is_branch());
    assert!(!Opcode::Call.is_branch());
    assert!(Opcode::Call.is_call());
    assert!(!Opcode::Iadd.is_call());
    assert!(Opcode::Fadd.is_commutative());
    assert!(Opcode::SEq.is_commutative());
    assert!(!Opcode::Isub.is_commutative());
    assert!(!Opcode::Fdiv.is_commutative());
    assert_eq!(Opcode::Fadd.format(), InstructionFormat::Binary);
    assert_eq!(Opcode::Sqrt.format(), InstructionFormat::Unary);
    assert_eq!(Opcode::Br.format(), InstructionFormat::Branch);
    assert_eq!(Opcode::Jmp.format(), InstructionFormat::Jump);
    assert_eq!(Opcode::Call.format(), InstructionFormat::Call);
    assert_eq!(Opcode::Phi.format(), InstructionFormat::PhiNode);
}

#[test]
fn opcode_names() {
    assert_eq!(Opcode::Fadd.name(), "fadd");
    assert_eq!(Opcode::SEq.name(), "seq");
    assert_eq!(Opcode::Phi.name(), "phi");
    assert_eq!(Opcode::Br.name(), "br");
}

#[test]
fn constraints() {
    let c = OpcodeConstraints::new(5, 3);
    assert_eq!(c.num_fixed_value_arguments(), 5);
    assert_eq!(c.num_fixed_results(), 3);
    let b = Opcode::Fadd.constraints();
    assert_eq!(b.num_fixed_value_arguments(), 2);
    assert_eq!(b.num_fixed_results(), 1);
    let j = Opcode::Jmp.constraints();
    assert_eq!(j.num_fixed_value_arguments(), 0);
    assert_eq!(j.num_fixed_results(), 0);
    let p = Opcode::Phi.constraints();
    assert_eq!(p.num_fixed_results(), 1);
}

fn phi() -> PhiNode {
    PhiNode { blocks: vec![(Block(1), 0), (Block(4), 1)], args: vec![Value(10), Value(11)] }
}

#[test]
fn phi_edges() {
    let p = phi();
    assert_eq!(p.edges(), vec![(Block(1), Value(10)), (Block(4), Value(11))]);
    assert_eq!(p.edge_val_of(Block(4)), Some(Value(11)));
    assert_eq!(p.edge_val_of(Block(2)), None);
    assert!(p.eq(&phi()));
    let q = PhiNode { blocks: vec![(Block(1), 1), (Block(4), 0)], args: vec![Value(11), Value(10)] };
    assert!(p.eq(&q));
    let r = PhiNode { blocks: vec![(Block(1), 0)], args: vec![Value(10)] };
    assert!(!p.eq(&r));
}

#[test]
fn phi_pred_replaced() {
    let p = phi();
    let r = p.with_pred_replaced(Block(1), Block(7));
    assert_eq!(r.blocks, vec![(Block(4), 1), (Block(7), 0)]);
    assert_eq!(r.args, p.args);
    let r = p.with_pred_replaced(Block(4), Block(0));
    assert_eq!(r.blocks, vec![(Block(0), 1), (Block(1), 0)]);
    // an existing edge from the new predecessor is replaced
    let r = p.with_pred_replaced(Block(1), Block(4));
    assert_eq!(r.blocks, vec![(Block(4), 0)]);
}

#[test]
fn instruction_data() {
    let add = InstructionData::Binary { opcode: Opcode::Fadd, args: [Value(1), Value(2)] };
    assert_eq!(add.opcode(), Opcode::Fadd);
    assert_eq!(add.arguments(), vec![Value(1), Value(2)]);
    assert!(!add.is_terminator());
    assert!(!add.is_phi());
    let br = InstructionData::Branch { cond: Value(3), then_dst: Block(1), else_dst: Block(2), loop_entry: false };
    assert!(br.is_terminator());
    assert_eq!(br.opcode(), Opcode::Br);
    assert_eq!(br.arguments(), vec![Value(3)]);
    let call = InstructionData::Call { func_ref: FuncRef(0), args: vec![Value(4), Value(5)] };
    assert_eq!(call.opcode(), Opcode::Call);
    assert_eq!(call.arguments(), vec![Value(4), Value(5)]);
    let ph = InstructionData::PhiNode(phi());
    assert!(ph.is_phi());
    assert_eq!(ph.opcode(), Opcode::Phi);
    assert_eq!(ph.arguments(), vec![Value(10), Value(11)]);
    assert!(ph.as_phi().is_some());
    assert!(add.as_phi().is_none());
    assert!(ph.unwrap_phi().eq(&phi()));
}

#[test]
fn instruction_equality() {
    let a = InstructionData::Binary { opcode: Opcode::Fadd, args: [Value(1), Value(2)] };
    let b = InstructionData::Binary { opcode: Opcode::Fadd, args: [Value(1), Value(2)] };
    let c = InstructionData::Binary { opcode: Opcode::Fmul, args: [Value(1), Value(2)] };
    assert!(a.eq(&b));
    assert!(!a.eq(&c));
    let j1 = InstructionData::Jump { destination: Block(3) };
    let j2 = InstructionData::Jump { destination: Block(4) };
    assert!(!j1.eq(&j2));
    assert!(!a.eq(&j1));
    let p1 = InstructionData::PhiNode(phi());
    let p2 = InstructionData::PhiNode(PhiNode { blocks: vec![(Block(1), 1), (Block(4), 0)], args: vec![Value(11), Value(10)] });
    assert!(p1.eq(&p2));
}
