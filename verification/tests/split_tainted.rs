use openvaf::cfg::ControlFlowGraph;
use openvaf::dominators::DominatorTree;
use openvaf::entities::{Block, Inst, Param, Value};
use openvaf::function::Function;
use openvaf::instructions::{InstructionData, Opcode, PhiNode};
use openvaf::split_tainted::{propagate_direct_taint, propagate_taint};
use openvaf::values::ValueDataType;

/// b0 computes `c = p < q` and branches on it to b1 and b2, which both jump to b3.
/// b1 computes `r = sqrt(q)`; b3 holds `x = phi [b1: r, b2: q]`, `y = -x` and `z = sqrt(q)`.
fn diamond_with_trees() -> (Function, ControlFlowGraph, DominatorTree, Vec<Vec<bool>>, Value, Value, Value) {
    let mut func = Function::new();
    let blocks: Vec<Block> = (0..4).map(|_| func.layout.append_new_block()).collect();
    let p = func.dfg.values.make_param(Param(0));
    let q = func.dfg.values.make_param(Param(1));
    let c = func.dfg.values.make(ValueDataType::Inst { inst: Inst(0), idx: 0 }, None);
    let r = func.dfg.values.make(ValueDataType::Inst { inst: Inst(2), idx: 0 }, None);
    let x = func.dfg.values.make(ValueDataType::Inst { inst: Inst(5), idx: 0 }, None);
    func.dfg.values.make(ValueDataType::Inst { inst: Inst(6), idx: 0 }, None);
    func.dfg.values.make(ValueDataType::Inst { inst: Inst(7), idx: 0 }, None);
    let insts = vec![
        (InstructionData::Binary { opcode: Opcode::Flt, args: [p, q] }, 0),
        (InstructionData::Branch { cond: c, then_dst: blocks[1], else_dst: blocks[2], loop_entry: false }, 0),
        (InstructionData::Unary { opcode: Opcode::Sqrt, arg: q }, 1),
        (InstructionData::Jump { destination: blocks[3] }, 1),
        (InstructionData::Jump { destination: blocks[3] }, 2),
        (InstructionData::PhiNode(PhiNode { blocks: vec![(blocks[1], 0), (blocks[2], 1)], args: vec![r, q] }), 3),
        (InstructionData::Unary { opcode: Opcode::Fneg, arg: x }, 3),
        (InstructionData::Unary { opcode: Opcode::Sqrt, arg: q }, 3),
    ];
    for (i, (data, b)) in insts.into_iter().enumerate() {
        func.dfg.insts.push(data);
        func.layout.append_inst_to_block(Inst(i as u32), blocks[b]);
    }
    func.dfg.make_use(p, Inst(0), 0);
    func.dfg.make_use(q, Inst(0), 1);
    func.dfg.make_use(c, Inst(1), 0);
    func.dfg.make_use(q, Inst(2), 0);
    func.dfg.make_use(r, Inst(5), 0);
    func.dfg.make_use(q, Inst(5), 1);
    func.dfg.make_use(x, Inst(6), 0);
    func.dfg.make_use(q, Inst(7), 0);
    let mut cfg = ControlFlowGraph::new();
    cfg.compute(&func);
    let mut dom = DominatorTree::new();
    dom.compute(&func, &cfg, Some(blocks[3]), true, true, true);
    let mut df = Vec::new();
    dom.compute_dom_frontiers(&cfg, &mut df);
    (func, cfg, dom, df, p, q, r)
}

fn diamond() -> (Function, Vec<Vec<bool>>, Value, Value) {
    let (func, _, _, df, p, q, _) = diamond_with_trees();
    (func, df, p, q)
}

#[test]
fn taint_follows_uses_and_merging_phis_but_not_the_arms() {
    let (func, df, p, _) = diamond();
    let mut tainted = Vec::new();
    propagate_direct_taint(&func, &df, &vec![p], &mut tainted);
    assert_eq!(tainted, vec![true, true, false, false, false, true, true, false]);
}

#[test]
fn a_source_used_everywhere_taints_all_its_users() {
    let (func, df, _, q) = diamond();
    let mut tainted = Vec::new();
    propagate_direct_taint(&func, &df, &vec![q], &mut tainted);
    assert_eq!(tainted, vec![true, true, true, false, false, true, true, true]);
}

#[test]
fn marks_given_before_stay_and_are_not_followed() {
    let (func, df, _, _) = diamond();
    let mut tainted = vec![false, false, true];
    propagate_direct_taint(&func, &df, &vec![], &mut tainted);
    assert_eq!(tainted, vec![false, false, true, false, false, false, false, false]);
}

#[test]
fn region_taint_covers_both_arms_of_a_tainted_branch() {
    let (func, cfg, dom, _, p, _, _) = diamond_with_trees();
    let mut tainted = Vec::new();
    propagate_taint(&func, &cfg, &dom, &vec![p], &mut tainted);
    assert_eq!(tainted, vec![true, true, true, true, true, true, true, false]);
}

#[test]
fn region_taint_without_a_tainted_branch_follows_uses_only() {
    let (func, cfg, dom, _, _, _, r) = diamond_with_trees();
    let mut tainted = Vec::new();
    propagate_taint(&func, &cfg, &dom, &vec![r], &mut tainted);
    assert_eq!(tainted, vec![false, false, false, false, false, true, true, false]);
}
