use openvaf::entities::{Block, Inst, Value};
use openvaf::function::DataFlowGraph;
use openvaf::instructions::{InstructionData, Opcode, PhiNode};
use openvaf::simplify::{simplify_phi, simplify_unary_op};
use openvaf::values::ValueDataType;

/// inst0: v16 = exp v5; inst1: v17 = fmul v16, v16; inst2: v18 = pow v16, 2.0;
/// inst3: v19 = pow 10.0, v16; inst4: v20 = floor v16; inst5: v21 = ifcast v4.
fn graph() -> DataFlowGraph {
    let mut dfg = DataFlowGraph::new();
    let insts = vec![
        InstructionData::Unary { opcode: Opcode::Exp, arg: Value(5) },
        InstructionData::Binary { opcode: Opcode::Fmul, args: [Value(16), Value(16)] },
        InstructionData::Binary { opcode: Opcode::Pow, args: [Value(16), Value(11)] },
        InstructionData::Binary { opcode: Opcode::Pow, args: [Value(13), Value(16)] },
        InstructionData::Unary { opcode: Opcode::Floor, arg: Value(16) },
        InstructionData::Unary { opcode: Opcode::IFcast, arg: Value(4) },
    ];
    for (i, data) in insts.into_iter().enumerate() {
        dfg.insts.push(data);
        dfg.values.make(ValueDataType::Inst { inst: Inst(i as u32), idx: 0 }, None);
    }
    dfg
}

#[test]
fn inverse_operations_cancel() {
    let dfg = graph();
    assert_eq!(simplify_unary_op(&dfg, &vec![], Opcode::Ln, Value(16), None, None), Some(Value(5)));
    assert_eq!(simplify_unary_op(&dfg, &vec![], Opcode::Exp, Value(16), None, None), None);
    assert_eq!(simplify_unary_op(&dfg, &vec![], Opcode::Sin, Value(5), None, None), None);
}

#[test]
fn square_roots_and_logarithms() {
    let dfg = graph();
    assert_eq!(simplify_unary_op(&dfg, &vec![], Opcode::Sqrt, Value(17), None, None), Some(Value(16)));
    assert_eq!(simplify_unary_op(&dfg, &vec![], Opcode::Sqrt, Value(18), None, None), Some(Value(16)));
    assert_eq!(simplify_unary_op(&dfg, &vec![], Opcode::Sqrt, Value(19), None, None), None);
    assert_eq!(simplify_unary_op(&dfg, &vec![], Opcode::Log, Value(19), None, None), Some(Value(16)));
    assert_eq!(simplify_unary_op(&dfg, &vec![], Opcode::Log, Value(18), None, None), None);
}

#[test]
fn rounding_is_idempotent() {
    let dfg = graph();
    assert_eq!(simplify_unary_op(&dfg, &vec![], Opcode::Floor, Value(20), None, None), Some(Value(20)));
    assert_eq!(simplify_unary_op(&dfg, &vec![], Opcode::Ceil, Value(21), None, None), Some(Value(21)));
    assert_eq!(simplify_unary_op(&dfg, &vec![], Opcode::Floor, Value(16), None, None), None);
}

#[test]
fn lossy_casts_folding_and_negation() {
    let dfg = graph();
    assert_eq!(simplify_unary_op(&dfg, &vec![], Opcode::IFcast, Value(21), None, None), None);
    assert_eq!(simplify_unary_op(&dfg, &vec![], Opcode::OptBarrier, Value(16), None, None), None);
    assert_eq!(simplify_unary_op(&dfg, &vec![], Opcode::Ln, Value(16), Some(Value(3)), None), Some(Value(3)));
    assert_eq!(simplify_unary_op(&dfg, &vec![], Opcode::Fneg, Value(16), None, Some(Value(7))), Some(Value(7)));
}

#[test]
fn operands_are_read_through_the_mapping() {
    let dfg = graph();
    // v5 stands for v9, and v16 for v13 (10.0)
    let mut map: Vec<Value> = (0..22).map(Value).collect();
    map[5] = Value(9);
    map[16] = Value(13);
    assert_eq!(simplify_unary_op(&dfg, &map, Opcode::Ln, Value(16), None, None), Some(Value(9)));
    // pow(v16, 2.0) and pow(10.0, v16): after mapping v16 is 10.0
    assert_eq!(simplify_unary_op(&dfg, &map, Opcode::Sqrt, Value(18), None, None), Some(Value(13)));
    assert_eq!(simplify_unary_op(&dfg, &map, Opcode::Log, Value(18), None, None), Some(Value(11)));
    assert_eq!(simplify_unary_op(&dfg, &map, Opcode::Sqrt, Value(17), None, None), Some(Value(13)));
}

#[test]
fn phi_of_agreeing_values() {
    let dfg = graph();
    let same = PhiNode { blocks: vec![(Block(0), 0), (Block(2), 1)], args: vec![Value(7), Value(7)] };
    assert_eq!(simplify_phi(&dfg, &vec![], &same), Some(Value(7)));
    let differ = PhiNode { blocks: vec![(Block(0), 0), (Block(2), 1)], args: vec![Value(7), Value(8)] };
    assert_eq!(simplify_phi(&dfg, &vec![], &differ), None);
    // v8 stands for v7 under the mapping
    let mut map: Vec<Value> = (0..22).map(Value).collect();
    map[8] = Value(7);
    assert_eq!(simplify_phi(&dfg, &map, &differ), Some(Value(7)));
    let empty = PhiNode { blocks: vec![], args: vec![] };
    assert_eq!(simplify_phi(&dfg, &map, &empty), None);
}
