use openvaf::cfg::ControlFlowGraph;
use openvaf::dominators::DominatorTree;
use openvaf::entities::{Block, Inst, Value};
use openvaf::function::Function;
use openvaf::instructions::InstructionData;

/// b0 branches to b1 and b2, which both jump to b3.
fn diamond() -> (Function, Vec<Block>) {
    let mut func = Function::new();
    let blocks: Vec<Block> = (0..4).map(|_| func.layout.append_new_block()).collect();
    let terms = vec![
        InstructionData::Branch { cond: Value(0), then_dst: blocks[1], else_dst: blocks[2], loop_entry: false },
        InstructionData::Jump { destination: blocks[3] },
        InstructionData::Jump { destination: blocks[3] },
    ];
    for (i, t) in terms.into_iter().enumerate() {
        func.dfg.insts.push(t);
        func.layout.append_inst_to_block(Inst(i as u32), blocks[i]);
    }
    (func, blocks)
}

/// b0 jumps to b1, b1 branches back to itself or on to b2.
fn simple_loop() -> (Function, Vec<Block>) {
    let mut func = Function::new();
    let blocks: Vec<Block> = (0..3).map(|_| func.layout.append_new_block()).collect();
    func.dfg.insts.push(InstructionData::Jump { destination: blocks[1] });
    func.layout.append_inst_to_block(Inst(0), blocks[0]);
    func.dfg.insts.push(InstructionData::Branch {
        cond: Value(1),
        then_dst: blocks[1],
        else_dst: blocks[2],
        loop_entry: true,
    });
    func.layout.append_inst_to_block(Inst(1), blocks[1]);
    (func, blocks)
}

fn trees(func: &Function, exit: Block) -> (ControlFlowGraph, DominatorTree) {
    let mut cfg = ControlFlowGraph::new();
    cfg.compute(func);
    let mut dom = DominatorTree::new();
    dom.compute(func, &cfg, Some(exit), true, true, true);
    (cfg, dom)
}

#[test]
fn diamond_postorder() {
    let (func, b) = diamond();
    let (_, dom) = trees(&func, b[3]);
    assert_eq!(dom.cfg_postorder(), &[b[3], b[1], b[2], b[0]]);
}

#[test]
fn diamond_idoms() {
    let (func, b) = diamond();
    let (_, dom) = trees(&func, b[3]);
    assert_eq!(dom.idom(b[0]), None);
    assert_eq!(dom.idom(b[1]), Some(b[0]));
    assert_eq!(dom.idom(b[2]), Some(b[0]));
    assert_eq!(dom.idom(b[3]), Some(b[0]));
}

#[test]
fn diamond_ipdoms() {
    let (func, b) = diamond();
    let (_, dom) = trees(&func, b[3]);
    assert_eq!(dom.ipdom(b[3]), None);
    assert_eq!(dom.ipdom(b[0]), Some(b[3]));
    assert_eq!(dom.ipdom(b[1]), Some(b[3]));
    assert_eq!(dom.ipdom(b[2]), Some(b[3]));
}

#[test]
fn diamond_dominates() {
    let (func, b) = diamond();
    let (_, dom) = trees(&func, b[3]);
    for &x in &b {
        assert!(dom.dominates(x, b[0]));
        assert!(dom.dominates(x, x));
        assert!(dom.post_dominates(x, b[3]));
    }
    assert!(!dom.dominates(b[3], b[1]));
    assert!(!dom.dominates(b[1], b[2]));
    assert!(!dom.dominates(b[0], b[3]));
    assert!(!dom.post_dominates(b[3], b[0]));
    assert!(!dom.post_dominates(b[0], b[1]));
}

#[test]
fn diamond_frontiers() {
    let (func, b) = diamond();
    let (cfg, dom) = trees(&func, b[3]);
    let mut df = Vec::new();
    dom.compute_dom_frontiers(&cfg, &mut df);
    for x in 0..4 {
        for y in 0..4 {
            let expected = (x == 1 || x == 2) && y == 3;
            assert_eq!(df[x][y], expected, "df[{x}][{y}]");
        }
    }
    let mut pdf = Vec::new();
    dom.compute_postdom_frontiers(&cfg, &mut pdf);
    for x in 0..4 {
        for y in 0..4 {
            let expected = (x == 1 || x == 2) && y == 0;
            assert_eq!(pdf[x][y], expected, "pdf[{x}][{y}]");
        }
    }
}

#[test]
fn loop_dominators() {
    let (func, b) = simple_loop();
    let (cfg, dom) = trees(&func, b[2]);
    assert_eq!(dom.cfg_postorder(), &[b[2], b[1], b[0]]);
    assert_eq!(dom.idom(b[1]), Some(b[0]));
    assert_eq!(dom.idom(b[2]), Some(b[1]));
    assert!(dom.dominates(b[2], b[1]));
    assert_eq!(dom.ipdom(b[0]), Some(b[1]));
    assert_eq!(dom.ipdom(b[1]), Some(b[2]));
    let mut df = Vec::new();
    dom.compute_dom_frontiers(&cfg, &mut df);
    // b1 is a join of b0 and itself: the back edge puts b1 into its own frontier
    assert!(df[1][1]);
    assert!(!df[0][1]);
    assert!(!df[2][1]);
}

#[test]
fn unreachable_block() {
    let (mut func, b) = diamond();
    let extra = func.layout.append_new_block();
    let (_, dom) = trees(&func, b[3]);
    assert_eq!(dom.idom(extra), None);
    assert!(!dom.dominates(extra, b[0]));
    assert!(dom.dominates(extra, extra));
    assert!(!dom.cfg_postorder().contains(&extra));
}

#[test]
fn only_postorder() {
    let (func, b) = diamond();
    let mut cfg = ControlFlowGraph::new();
    cfg.compute(&func);
    let mut dom = DominatorTree::new();
    dom.compute(&func, &cfg, None, false, false, true);
    assert_eq!(dom.cfg_postorder(), &[b[3], b[1], b[2], b[0]]);
    assert_eq!(dom.idom(b[1]), None);
    dom.clear();
    assert!(dom.cfg_postorder().is_empty());
}

/// An irreducible loop: b0 enters both b1 (directly) and b2 (through b4); b1 and b2 branch
/// to each other, b3 returns to b1 and b4 leads to b2. Only b1 dominates b3.
#[test]
fn irreducible_loop_idoms() {
    let mut func = Function::new();
    let b: Vec<Block> = (0..5).map(|_| func.layout.append_new_block()).collect();
    let terms = vec![
        InstructionData::Branch { cond: Value(0), then_dst: b[4], else_dst: b[1], loop_entry: false },
        InstructionData::Branch { cond: Value(0), then_dst: b[3], else_dst: b[2], loop_entry: false },
        InstructionData::Branch { cond: Value(0), then_dst: b[4], else_dst: b[1], loop_entry: false },
        InstructionData::Jump { destination: b[1] },
        InstructionData::Jump { destination: b[2] },
    ];
    for (i, t) in terms.into_iter().enumerate() {
        func.dfg.insts.push(t);
        func.layout.append_inst_to_block(Inst(i as u32), b[i]);
    }
    let mut cfg = ControlFlowGraph::new();
    cfg.compute(&func);
    let mut dom = DominatorTree::new();
    dom.compute(&func, &cfg, None, true, false, false);
    assert_eq!(dom.idom(b[0]), None);
    assert_eq!(dom.idom(b[1]), Some(b[0]));
    assert_eq!(dom.idom(b[2]), Some(b[0]));
    assert_eq!(dom.idom(b[3]), Some(b[1]));
    assert_eq!(dom.idom(b[4]), Some(b[0]));
    assert!(dom.dominates(b[3], b[1]));
    assert!(!dom.dominates(b[2], b[1]));
    assert!(!dom.dominates(b[4], b[2]));
}

/// On the irreducible loop, `b` is in the dominance frontier of `x` exactly when `b` has
/// two predecessors and `x` dominates one of them without strictly dominating `b`.
#[test]
fn frontiers_match_the_textbook_definition() {
    let mut func = Function::new();
    let b: Vec<Block> = (0..5).map(|_| func.layout.append_new_block()).collect();
    let terms = vec![
        InstructionData::Branch { cond: Value(0), then_dst: b[4], else_dst: b[1], loop_entry: false },
        InstructionData::Branch { cond: Value(0), then_dst: b[3], else_dst: b[2], loop_entry: false },
        InstructionData::Branch { cond: Value(0), then_dst: b[4], else_dst: b[1], loop_entry: false },
        InstructionData::Jump { destination: b[1] },
        InstructionData::Jump { destination: b[2] },
    ];
    for (i, t) in terms.into_iter().enumerate() {
        func.dfg.insts.push(t);
        func.layout.append_inst_to_block(Inst(i as u32), b[i]);
    }
    let mut cfg = ControlFlowGraph::new();
    cfg.compute(&func);
    let mut dom = DominatorTree::new();
    dom.compute(&func, &cfg, None, true, false, false);
    let mut df = Vec::new();
    dom.compute_dom_frontiers(&cfg, &mut df);
    let mut members = 0;
    for x in 0..5 {
        for y in 0..5 {
            let preds = cfg.pred_iter(b[y]);
            let strictly = x != y && dom.dominates(b[y], b[x]);
            let expected = preds.len() >= 2 && preds.iter().any(|p| dom.dominates(*p, b[x])) && !strictly;
            assert_eq!(df[x][y], expected, "df[{x}][{y}]");
            members += expected as usize;
        }
    }
    assert!(members > 0);
}
