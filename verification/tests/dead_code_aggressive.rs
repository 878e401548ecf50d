use openvaf::cfg::ControlFlowGraph;
use openvaf::dead_code_aggressive::{aggressive_dead_code_elimination, remove_dead_code, AggressiveDeadCode};
use openvaf::dominators::DominatorTree;
use openvaf::entities::{Block, Inst, Param, Value};
use openvaf::function::Function;
use openvaf::instructions::{InstructionData, Opcode, PhiNode};
use openvaf::values::ValueDataType;

/// b0 branches to b1 and b2, which both jump to b3. b1 computes `r = sqrt(p)` and b3 holds
/// the phi `[b1: r, b2: 1.0]`.
fn diamond_with_phi() -> (Function, Vec<Block>) {
    let mut func = Function::new();
    let blocks: Vec<Block> = (0..4).map(|_| func.layout.append_new_block()).collect();
    let p = func.dfg.values.make_param(Param(0));
    let r = func.dfg.values.make(ValueDataType::Inst { inst: Inst(1), idx: 0 }, None);
    let insts = vec![
        (InstructionData::Branch { cond: Value(2), then_dst: blocks[1], else_dst: blocks[2], loop_entry: false }, 0),
        (InstructionData::Unary { opcode: Opcode::Sqrt, arg: p }, 1),
        (InstructionData::Jump { destination: blocks[3] }, 1),
        (InstructionData::Jump { destination: blocks[3] }, 2),
        (InstructionData::PhiNode(PhiNode { blocks: vec![(blocks[1], 0), (blocks[2], 1)], args: vec![r, Value(6)] }), 3),
    ];
    for (i, (data, b)) in insts.into_iter().enumerate() {
        func.dfg.insts.push(data);
        func.layout.append_inst_to_block(Inst(i as u32), blocks[b]);
    }
    (func, blocks)
}

fn analysis_inputs(func: &Function, exit: Block) -> (ControlFlowGraph, Vec<Vec<bool>>) {
    let mut cfg = ControlFlowGraph::new();
    cfg.compute(func);
    let mut dom = DominatorTree::new();
    dom.compute(func, &cfg, Some(exit), true, true, true);
    let mut pdf = Vec::new();
    dom.compute_postdom_frontiers(&cfg, &mut pdf);
    (cfg, pdf)
}

#[test]
fn live_phi_keeps_its_operands_and_deciding_branch() {
    let (func, b) = diamond_with_phi();
    let (cfg, pdf) = analysis_inputs(&func, b[3]);
    let mut adce = AggressiveDeadCode::new(&func, &cfg, &pdf);
    assert!(adce.mark_inst_live(Inst(4)));
    assert!(!adce.mark_inst_live(Inst(4)));
    let (insts, blocks) = adce.solve();
    assert_eq!(insts, vec![true, true, true, true, true]);
    assert_eq!(blocks, vec![true, true, true, true]);
}

#[test]
fn live_instruction_in_one_arm() {
    let (func, b) = diamond_with_phi();
    let (cfg, pdf) = analysis_inputs(&func, b[3]);
    let mut adce = AggressiveDeadCode::new(&func, &cfg, &pdf);
    adce.mark_inst_live(Inst(1));
    let (insts, blocks) = adce.solve();
    assert_eq!(insts, vec![true, true, true, true, false]);
    assert_eq!(blocks, vec![true, true, true, false]);
}

#[test]
fn nothing_marked_leaves_only_the_entry() {
    let (func, b) = diamond_with_phi();
    let (cfg, pdf) = analysis_inputs(&func, b[3]);
    let adce = AggressiveDeadCode::new(&func, &cfg, &pdf);
    let (insts, blocks) = adce.solve();
    assert_eq!(insts, vec![false; 5]);
    assert_eq!(blocks, vec![true, false, false, false]);
}

/// A counting loop whose result is unused: only the marked barrier in the entry block stays
/// live, and the loop is dead.
#[test]
fn tests_cmu() {
    let mut func = Function::new();
    let entry = func.layout.append_new_block();
    let head = func.layout.append_new_block();
    let body = func.layout.append_new_block();
    let exit = func.layout.append_new_block();
    let hundred = func.dfg.values.iconst(100);
    let counter = func.dfg.values.make(ValueDataType::Inst { inst: Inst(2), idx: 0 }, None);
    let cond = func.dfg.values.make(ValueDataType::Inst { inst: Inst(3), idx: 0 }, None);
    let next = func.dfg.values.make(ValueDataType::Inst { inst: Inst(5), idx: 0 }, None);
    let insts = vec![
        (InstructionData::Unary { opcode: Opcode::OptBarrier, arg: Value(5) }, entry),
        (InstructionData::Jump { destination: head }, entry),
        (InstructionData::PhiNode(PhiNode { blocks: vec![(entry, 1), (body, 0)], args: vec![next, Value(4)] }), head),
        (InstructionData::Binary { opcode: Opcode::Ilt, args: [counter, hundred] }, head),
        (InstructionData::Branch { cond, then_dst: body, else_dst: exit, loop_entry: false }, head),
        (InstructionData::Binary { opcode: Opcode::Iadd, args: [counter, Value(5)] }, body),
        (InstructionData::Jump { destination: head }, body),
    ];
    for (i, (data, b)) in insts.into_iter().enumerate() {
        func.dfg.insts.push(data);
        func.layout.append_inst_to_block(Inst(i as u32), b);
    }
    let (cfg, pdf) = analysis_inputs(&func, exit);
    let mut adce = AggressiveDeadCode::new(&func, &cfg, &pdf);
    adce.mark_inst_live(Inst(0));
    let (insts, blocks) = adce.solve();
    assert_eq!(insts, vec![true, false, false, false, false, false, false]);
    assert_eq!(blocks, vec![true, false, false, false]);
}

#[test]
fn removal_of_a_dead_loop() {
    let mut func = Function::new();
    let entry = func.layout.append_new_block();
    let head = func.layout.append_new_block();
    let body = func.layout.append_new_block();
    let exit = func.layout.append_new_block();
    let hundred = func.dfg.values.iconst(100);
    let counter = func.dfg.values.make(ValueDataType::Inst { inst: Inst(2), idx: 0 }, None);
    let cond = func.dfg.values.make(ValueDataType::Inst { inst: Inst(3), idx: 0 }, None);
    let next = func.dfg.values.make(ValueDataType::Inst { inst: Inst(5), idx: 0 }, None);
    let insts = vec![
        (InstructionData::Unary { opcode: Opcode::OptBarrier, arg: Value(5) }, entry),
        (InstructionData::Jump { destination: head }, entry),
        (InstructionData::PhiNode(PhiNode { blocks: vec![(entry, 1), (body, 0)], args: vec![next, Value(4)] }), head),
        (InstructionData::Binary { opcode: Opcode::Ilt, args: [counter, hundred] }, head),
        (InstructionData::Branch { cond, then_dst: body, else_dst: exit, loop_entry: false }, head),
        (InstructionData::Binary { opcode: Opcode::Iadd, args: [counter, Value(5)] }, body),
        (InstructionData::Jump { destination: head }, body),
    ];
    for (i, (data, b)) in insts.into_iter().enumerate() {
        func.dfg.insts.push(data);
        func.layout.append_inst_to_block(Inst(i as u32), b);
    }
    let (mut cfg, pdf) = analysis_inputs(&func, exit);
    let (live_insts, live_blocks) = {
        let mut adce = AggressiveDeadCode::new(&func, &cfg, &pdf);
        adce.mark_inst_live(Inst(0));
        adce.solve()
    };
    remove_dead_code(&mut func, &mut cfg, &live_insts, &live_blocks);
    assert_eq!(func.layout.block_insts(entry), vec![Inst(0), Inst(1)]);
    assert_eq!(func.layout.block_insts(head), vec![Inst(4)]);
    assert_eq!(func.layout.block_insts(body), vec![Inst(6)]);
    assert_eq!(func.layout.block_insts(exit), vec![]);
    assert!(matches!(func.dfg.insts[4], InstructionData::Jump { destination } if destination == exit));
    assert!(matches!(func.dfg.insts[6], InstructionData::Jump { destination } if destination == head));
    assert_eq!(cfg.succ_iter(head), vec![exit]);
    assert_eq!(cfg.succ_iter(body), vec![head]);
}

fn dead_loop() -> (Function, Vec<Block>, Vec<Value>) {
    let mut func = Function::new();
    let entry = func.layout.append_new_block();
    let head = func.layout.append_new_block();
    let body = func.layout.append_new_block();
    let exit = func.layout.append_new_block();
    let hundred = func.dfg.values.iconst(100);
    let counter = func.dfg.values.make(ValueDataType::Inst { inst: Inst(2), idx: 0 }, None);
    let cond = func.dfg.values.make(ValueDataType::Inst { inst: Inst(3), idx: 0 }, None);
    let next = func.dfg.values.make(ValueDataType::Inst { inst: Inst(5), idx: 0 }, None);
    let kept = func.dfg.values.make(ValueDataType::Inst { inst: Inst(0), idx: 0 }, None);
    let insts = vec![
        (InstructionData::Unary { opcode: Opcode::OptBarrier, arg: Value(5) }, entry),
        (InstructionData::Jump { destination: head }, entry),
        (InstructionData::PhiNode(PhiNode { blocks: vec![(entry, 1), (body, 0)], args: vec![next, Value(4)] }), head),
        (InstructionData::Binary { opcode: Opcode::Ilt, args: [counter, hundred] }, head),
        (InstructionData::Branch { cond, then_dst: body, else_dst: exit, loop_entry: false }, head),
        (InstructionData::Binary { opcode: Opcode::Iadd, args: [counter, Value(5)] }, body),
        (InstructionData::Jump { destination: head }, body),
    ];
    for (i, (data, b)) in insts.into_iter().enumerate() {
        func.dfg.insts.push(data);
        func.layout.append_inst_to_block(Inst(i as u32), b);
    }
    (func, vec![entry, head, body, exit], vec![kept, counter])
}

#[test]
fn whole_pass_keeps_a_wanted_result_and_drops_the_dead_loop() {
    let (mut func, blocks, vals) = dead_loop();
    let (entry, head, body, exit) = (blocks[0], blocks[1], blocks[2], blocks[3]);
    let (mut cfg, pdf) = analysis_inputs(&func, exit);
    let mut live_values = vec![false; func.dfg.num_values()];
    live_values[vals[0].0 as usize] = true;
    aggressive_dead_code_elimination(&mut func, &mut cfg, &pdf, &live_values);
    assert_eq!(func.layout.block_insts(entry), vec![Inst(0), Inst(1)]);
    assert_eq!(func.layout.block_insts(head), vec![Inst(4)]);
    assert_eq!(func.layout.block_insts(body), vec![Inst(6)]);
    assert_eq!(func.layout.block_insts(exit), vec![]);
    assert!(matches!(func.dfg.insts[4], InstructionData::Jump { destination } if destination == exit));
    assert_eq!(cfg.succ_iter(head), vec![exit]);
}

#[test]
fn whole_pass_with_a_wanted_loop_value_keeps_the_loop() {
    let (mut func, blocks, vals) = dead_loop();
    let (entry, head, body, exit) = (blocks[0], blocks[1], blocks[2], blocks[3]);
    let (mut cfg, pdf) = analysis_inputs(&func, exit);
    let mut live_values = vec![false; func.dfg.num_values()];
    live_values[vals[1].0 as usize] = true;
    aggressive_dead_code_elimination(&mut func, &mut cfg, &pdf, &live_values);
    assert_eq!(func.layout.block_insts(entry), vec![Inst(1)]);
    assert_eq!(func.layout.block_insts(head), vec![Inst(2), Inst(3), Inst(4)]);
    assert_eq!(func.layout.block_insts(body), vec![Inst(5), Inst(6)]);
    assert!(matches!(func.dfg.insts[4], InstructionData::Branch { .. }));
    assert_eq!(cfg.succ_iter(head).len(), 2);
}
