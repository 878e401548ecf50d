use openvaf::cfg::{ControlFlowGraph, Successors};
use openvaf::entities::{Block, Inst, Value};
use openvaf::function::Function;
use openvaf::instructions::InstructionData;

#[test]
fn successors() {
    let mut s = Successors::empty();
    assert!(s.is_empty());
    assert!(s.insert(Block(3)));
    assert!(!s.insert(Block(3)));
    assert!(s.insert(Block(1)));
    assert!(s.contains(Block(1)));
    assert!(!s.contains(Block(2)));
    assert_eq!(s.iter(), vec![Block(3), Block(1)]);
    assert_eq!(s.as_array(), [Some(Block(3)), Some(Block(1))]);
    assert_eq!(s.as_pair(), Some((Block(3), Block(1))));
    assert_eq!(s.pop(), Some(Block(1)));
    assert_eq!(s.as_pair(), None);
    s.clear();
    assert_eq!(s.pop(), None);
}

#[test]
fn edges() {
    let mut cfg = ControlFlowGraph::new();
    cfg.ensure_block(Block(3));
    cfg.add_edge(Block(0), Block(1));
    cfg.add_edge(Block(0), Block(2));
    cfg.add_edge(Block(1), Block(3));
    cfg.add_edge(Block(2), Block(3));
    cfg.add_edge(Block(3), Block(3));
    assert_eq!(cfg.succ_iter(Block(0)), vec![Block(1), Block(2)]);
    assert_eq!(cfg.pred_iter(Block(3)), vec![Block(1), Block(2), Block(3)]);
    assert!(cfg.is_predecessor(Block(1), Block(3)));
    assert!(!cfg.is_predecessor(Block(0), Block(3)));
    assert_eq!(cfg.single_successor_of(Block(1)), Some(Block(3)));
    assert_eq!(cfg.single_successor_of(Block(0)), None);
    assert_eq!(cfg.single_predecessor_of(Block(1)), Some(Block(0)));
    assert_eq!(cfg.single_predecessor_of(Block(3)), None);
    assert!(cfg.self_loop(Block(3)) == false);
    assert!(!cfg.is_valid());
}

#[test]
fn replace_block() {
    let mut cfg = ControlFlowGraph::new();
    let mut func = Function::new();
    for _ in 0..4 {
        func.layout.append_new_block();
    }
    cfg.compute(&func);
    cfg.add_edge(Block(0), Block(1));
    cfg.add_edge(Block(0), Block(2));
    cfg.add_edge(Block(1), Block(3));
    cfg.add_edge(Block(2), Block(3));
    cfg.replace(Block(1), Block(2));
    assert_eq!(cfg.succ_iter(Block(0)), vec![Block(2)]);
    assert!(cfg.succ_iter(Block(1)).is_empty());
    assert!(cfg.pred_iter(Block(1)).is_empty());
    assert_eq!(cfg.pred_iter(Block(2)), vec![Block(0)]);
    assert_eq!(cfg.pred_iter(Block(3)), vec![Block(2)]);
}

#[test]
fn compute_from_function() {
    let mut func = Function::new();
    let b0 = func.layout.append_new_block();
    let b1 = func.layout.append_new_block();
    let b2 = func.layout.append_new_block();
    func.dfg.insts.push(InstructionData::Branch { cond: Value(0), then_dst: b1, else_dst: b2, loop_entry: false });
    func.layout.append_inst_to_block(Inst(0), b0);
    func.dfg.insts.push(InstructionData::Jump { destination: b1 });
    func.layout.append_inst_to_block(Inst(1), b1);
    let mut cfg = ControlFlowGraph::new();
    cfg.compute(&func);
    assert!(cfg.is_valid());
    assert_eq!(cfg.succ_iter(b0), vec![b2, b1]);
    assert_eq!(cfg.pred_iter(b1), vec![b0, b1]);
    assert!(cfg.self_loop(b1) == false);
    assert_eq!(cfg.single_predecessor_of(b2), Some(b0));
    // make b1 jump to b2 instead and recompute only b1
    func.dfg.insts[1] = InstructionData::Jump { destination: b2 };
    cfg.recompute_block(&func, b1);
    assert_eq!(cfg.succ_iter(b1), vec![b2]);
    assert_eq!(cfg.pred_iter(b2), vec![b0, b1]);
    assert_eq!(cfg.pred_iter(b1), vec![b0]);
    cfg.clear();
    assert!(!cfg.is_valid());
}

#[test]
fn with_function_and_reverse_predecessors() {
    let mut func = Function::new();
    let b0 = func.layout.append_new_block();
    let b1 = func.layout.append_new_block();
    let b2 = func.layout.append_new_block();
    func.dfg.insts.push(InstructionData::Branch { cond: Value(0), then_dst: b1, else_dst: b2, loop_entry: false });
    func.layout.append_inst_to_block(Inst(0), b0);
    func.dfg.insts.push(InstructionData::Jump { destination: b2 });
    func.layout.append_inst_to_block(Inst(1), b1);
    let cfg = ControlFlowGraph::with_function(&func);
    assert!(cfg.is_valid());
    assert_eq!(cfg.pred_iter(b2), vec![b0, b1]);
    assert_eq!(cfg.pred_rev_iter(b2), vec![b1, b0]);
    assert!(cfg.pred_rev_iter(b0).is_empty());
}

#[test]
fn self_loops() {
    let mut cfg = ControlFlowGraph::new();
    cfg.ensure_block(Block(2));
    cfg.add_edge(Block(1), Block(1));
    cfg.add_edge(Block(0), Block(2));
    cfg.add_edge(Block(2), Block(2));
    assert!(!cfg.self_loop(Block(0)));
    assert!(cfg.self_loop(Block(1)));
    assert!(!cfg.self_loop(Block(2)));
}
