use openvaf::derivatives::{Derivative, DerivativeInfo, DerivativeIntern, ResolvedDerivative};
use openvaf::entities::{Inst, Unknown, Value};

fn intern() -> DerivativeIntern {
    DerivativeIntern::new(vec![Value(10), Value(20)])
}

#[test]
fn first_orders() {
    let d = intern();
    assert_eq!(d.num_unknowns(), 2);
    assert_eq!(d.num_derivatives(), 2);
    assert_eq!(d.to_derivative(Unknown(1)), Derivative(1));
    assert_eq!(d.previous_order(Derivative(0)), None);
    assert_eq!(d.get_unknown(Derivative(1)), Unknown(1));
    assert_eq!(Derivative(1).assert_first_order(), Unknown(1));
}

#[test]
fn raise_order_chain() {
    let mut d = intern();
    let second = d.raise_order(Derivative(0), Unknown(1));
    assert_eq!(second, Derivative(2));
    assert_eq!(d.num_derivatives(), 3);
    assert_eq!(d.unknowns(second), vec![Unknown(0), Unknown(1)]);
    assert_eq!(d.unknowns_rev(second), vec![Unknown(1), Unknown(0)]);
    assert_eq!(d.get_base_derivative(second), Derivative(0));
    assert_eq!(d.previous_order(second), Some(Derivative(1)));
    // interning the same chain again finds it
    assert_eq!(d.raise_order(Derivative(0), Unknown(1)), second);
    assert_eq!(d.num_derivatives(), 3);
    let third = d.raise_order(second, Unknown(0));
    assert_eq!(d.unknowns(third), vec![Unknown(0), Unknown(1), Unknown(0)]);
}

#[test]
fn raise_order_with_flag() {
    let mut d = intern();
    assert_eq!(d.raise_order_with(Derivative(1), Unknown(0), |_| true), Some((Derivative(2), true)));
    assert_eq!(d.raise_order_with(Derivative(1), Unknown(0), |_| true), Some((Derivative(2), false)));
    assert_eq!(d.raise_order_with(Derivative(1), Unknown(1), |_| false), None);
    assert_eq!(d.num_derivatives(), 3);
}

#[test]
fn intern_and_ensure_unknown() {
    let mut d = intern();
    let info = DerivativeInfo { prev_order: Some(Derivative(0)), base: Unknown(0) };
    assert_eq!(d.intern(info), (Derivative(2), true));
    assert_eq!(d.intern(info), (Derivative(2), false));
    assert_eq!(d.ensure_unknown(Value(20)), Unknown(1));
    assert_eq!(d.num_derivatives(), 3);
    assert_eq!(d.ensure_unknown(Value(30)), Unknown(2));
    assert_eq!(d.num_unknowns(), 3);
    assert_eq!(d.to_derivative(Unknown(2)), Derivative(3));
}

#[test]
fn resolved_derivative_instructions() {
    let r = ResolvedDerivative::root_instr(Inst(5));
    assert_eq!(r.instructions(), vec![Inst(5)]);
    let r = ResolvedDerivative { instrs: Inst(7)..Inst(9), cache_instrs: Inst(3)..Inst(5) };
    assert_eq!(r.instructions(), vec![Inst(3), Inst(4), Inst(7), Inst(8)]);
}

#[test]
fn zero_derivative_opcodes() {
    let mut dfg = openvaf::function::DataFlowGraph::new();
    dfg.insts.push(openvaf::instructions::InstructionData::Unary { opcode: openvaf::instructions::Opcode::Sqrt, arg: Value(1) });
    dfg.insts.push(openvaf::instructions::InstructionData::Binary { opcode: openvaf::instructions::Opcode::Iadd, args: [Value(4), Value(5)] });
    dfg.insts.push(openvaf::instructions::InstructionData::Jump { destination: openvaf::entities::Block(0) });
    dfg.insts.push(openvaf::instructions::InstructionData::Binary { opcode: openvaf::instructions::Opcode::Fmul, args: [Value(3), Value(6)] });
    assert!(!openvaf::derivatives::zero_derivative(&dfg, Inst(0)));
    assert!(openvaf::derivatives::zero_derivative(&dfg, Inst(1)));
    assert!(openvaf::derivatives::zero_derivative(&dfg, Inst(2)));
    assert!(!openvaf::derivatives::zero_derivative(&dfg, Inst(3)));
}

#[test]
fn raise_order_twice_reuses_the_derivative() {
    let mut d = intern();
    let first = d.raise_order(Derivative(0), Unknown(1));
    let n = d.num_derivatives();
    let again = d.raise_order(Derivative(0), Unknown(1));
    assert_eq!(first, again);
    assert_eq!(d.num_derivatives(), n);
    assert_eq!(d.unknowns(first), vec![Unknown(0), Unknown(1)]);
    assert_eq!(d.get_unknown(first), Unknown(0));
    assert!(d.previous_order(first).is_some());
}
