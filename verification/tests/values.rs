use openvaf::entities::{Block, Inst, Param, Tag, Use, Value};
use openvaf::function::DataFlowGraph;
use openvaf::instructions::{InstructionData, Opcode, PhiNode};
use openvaf::values::{Const, DfgValues, Ieee64, UseCursor, ValueDef};

#[test]
fn predefined_values() {
    let vals = DfgValues::new();
    assert_eq!(vals.num(), 16);
    assert_eq!(vals.def(Value(0)), ValueDef::Invalid);
    assert_eq!(vals.def(Value(1)), ValueDef::Const(Const::Bool(false)));
    assert_eq!(vals.def(Value(2)), ValueDef::Const(Const::Bool(true)));
    assert_eq!(vals.def(Value(3)), ValueDef::Const(Const::Float(Ieee64(0))));
    assert_eq!(vals.def(Value(4)), ValueDef::Const(Const::Int(0)));
    assert_eq!(vals.def(Value(5)), ValueDef::Const(Const::Int(1)));
    assert_eq!(vals.def(Value(6)), ValueDef::Const(Const::Float(Ieee64(1.0f64.to_bits()))));
    assert_eq!(vals.def(Value(8)), ValueDef::Const(Const::Float(Ieee64((-std::f64::consts::LN_2).to_bits()))));
    assert_eq!(vals.def(Value(10)), ValueDef::Const(Const::Float(Ieee64(std::f64::consts::LOG10_E.to_bits()))));
    assert_eq!(vals.def(Value(12)), ValueDef::Const(Const::Int(-1)));
    assert_eq!(vals.def(Value(15)), ValueDef::Const(Const::Float(Ieee64(f64::INFINITY.to_bits()))));
    assert!(vals.is_valid(Value(15)));
    assert!(!vals.is_valid(Value(16)));
    assert!(vals.is_dead(Value(4)));
}

#[test]
fn constants_are_interned() {
    let mut vals = DfgValues::new();
    assert_eq!(vals.iconst(0), Value(4));
    assert_eq!(vals.iconst(-1), Value(12));
    let seven = vals.iconst(7);
    assert_eq!(seven, Value(16));
    assert_eq!(vals.iconst(7), seven);
    assert_eq!(vals.num(), 17);
    assert_eq!(vals.fconst(Ieee64(2.0f64.to_bits())), Value(11));
    // negative zero is the predefined positive zero
    assert_eq!(vals.fconst(Ieee64((-0.0f64).to_bits())), Value(3));
    let half = vals.fconst(Ieee64(0.5f64.to_bits()));
    assert_eq!(half, Value(17));
    assert_eq!(vals.make_const(Const::Float(Ieee64(0.5f64.to_bits()))), half);
    let s = vals.sconst(3);
    assert_eq!(vals.sconst(3), s);
    assert_eq!(vals.def(s), ValueDef::Const(Const::Str(3)));
    assert_eq!(vals.make_const(Const::Bool(true)), Value(2));
    assert_eq!(vals.make_const(Const::Bool(false)), Value(1));
    assert_eq!(vals.make_const(Const::Int(7)), seven);
    assert_eq!(vals.num(), 19);
}

#[test]
fn constants_at_a_value() {
    let mut vals = DfgValues::new();
    let v = vals.make_invalid();
    vals.iconst_at(42, v);
    assert_eq!(vals.def(v), ValueDef::Const(Const::Int(42)));
    assert_eq!(vals.iconst(42), v);
    let w = vals.make_invalid();
    vals.fconst_at(Ieee64(5), w);
    assert_eq!(vals.fconst(Ieee64(5)), w);
    let x = vals.make_invalid();
    vals.sconst_at(9, x);
    assert_eq!(vals.sconst(9), x);
    assert_eq!(vals.def(x), ValueDef::Const(Const::Str(9)));
}

#[test]
fn params_aliases_and_tags() {
    let mut vals = DfgValues::new();
    let p = vals.make_param(Param(3));
    assert_eq!(vals.def(p), ValueDef::Param(Param(3)));
    let a = vals.make_alias(p);
    let b = vals.make_alias(a);
    assert_eq!(vals.def(b), ValueDef::Invalid);
    assert_eq!(vals.def_allow_alias(b), ValueDef::Param(Param(3)));
    let c = vals.make_invalid();
    vals.make_param_at(Param(1), c);
    assert_eq!(vals.def(c), ValueDef::Param(Param(1)));
    vals.make_alias_at(Value(5), c);
    assert_eq!(vals.def_allow_alias(c), ValueDef::Const(Const::Int(1)));
    assert_eq!(vals.get_tag(p), None);
    vals.set_tag(p, Some(Tag(4)));
    assert_eq!(vals.get_tag(p), Some(Tag(4)));
}

#[test]
fn use_lists() {
    let mut vals = DfgValues::new();
    let v = vals.make_param(Param(0));
    let u0 = vals.make_use(v, Inst(0), 0);
    let u1 = vals.make_use(v, Inst(1), 1);
    let u2 = vals.make_use(v, Inst(2), 0);
    assert_eq!((u0, u1, u2), (Use(0), Use(1), Use(2)));
    assert_eq!(vals.uses(v), vec![u2, u1, u0]);
    assert_eq!(vals.use_to_user(u1), Inst(1));
    assert!(!vals.is_dead(v));
    vals.detach_use(u1, v);
    assert!(vals.is_use_detached(u1));
    assert_eq!(vals.uses(v), vec![u2, u0]);
    // detaching twice changes nothing
    vals.detach_use(u1, v);
    assert_eq!(vals.uses(v), vec![u2, u0]);
    vals.detach_use(u2, v);
    assert_eq!(vals.uses(v), vec![u0]);
    vals.detach_use(u0, v);
    assert!(vals.uses(v).is_empty());
    assert!(vals.is_dead(v));
    vals.attach_use(u1, v);
    vals.attach_use(u0, v);
    assert_eq!(vals.uses(v), vec![u0, u1]);
    assert!(!vals.is_use_detached(u0));
    vals.clear();
    assert_eq!(vals.num(), 0);
}

#[test]
fn replace_uses_rewrites_operands() {
    let mut dfg = DataFlowGraph::new();
    let a = dfg.values.make_param(Param(0));
    let b = dfg.values.make_param(Param(1));
    dfg.values.set_tag(a, Some(Tag(7)));
    dfg.insts.push(InstructionData::Unary { opcode: Opcode::Sqrt, arg: a });
    dfg.insts.push(InstructionData::Binary { opcode: Opcode::Fadd, args: [a, b] });
    let ua = dfg.values.make_use(a, Inst(0), 0);
    let ub = dfg.values.make_use(a, Inst(1), 0);
    let uc = dfg.values.make_use(b, Inst(1), 1);
    assert_eq!(dfg.use_to_value(ub), a);
    dfg.replace_uses(a, b);
    assert_eq!(dfg.insts[0].arguments(), vec![b]);
    assert_eq!(dfg.insts[1].arguments(), vec![b, b]);
    assert_eq!(dfg.values.uses(b), vec![ub, ua, uc]);
    assert!(dfg.values.uses(a).is_empty());
    assert_eq!(dfg.values.get_tag(b), Some(Tag(7)));
    assert_eq!(dfg.use_to_value(ua), b);
    dfg.detach_use(ua);
    assert_eq!(dfg.values.uses(b), vec![ub, uc]);
    assert!(dfg.values.is_use_detached(ua));
}

#[test]
fn resolve_alias_follows_the_chain() {
    let mut dfg = DataFlowGraph::new();
    let p = dfg.values.make_param(Param(2));
    let a = dfg.values.make_alias(p);
    let b = dfg.values.make_alias(a);
    assert_eq!(dfg.resolve_alias(b), p);
    assert_eq!(dfg.resolve_alias(p), p);
}

#[test]
fn set_argument_changes_one_operand() {
    let mut d = InstructionData::Call { func_ref: openvaf::entities::FuncRef(0), args: vec![Value(1), Value(2)] };
    d.set_argument(1, Value(9));
    assert_eq!(d.arguments(), vec![Value(1), Value(9)]);
    let mut br = InstructionData::Branch { cond: Value(1), then_dst: Block(0), else_dst: Block(1), loop_entry: false };
    br.set_argument(0, Value(2));
    assert_eq!(br.arguments(), vec![Value(2)]);
}

#[test]
fn strip_alias_moves_uses_to_chain_ends() {
    let mut dfg = DataFlowGraph::new();
    let p = dfg.values.make_param(Param(0));
    let a = dfg.values.make_alias(p);
    let b = dfg.values.make_alias(a);
    dfg.insts.push(InstructionData::Unary { opcode: Opcode::Sqrt, arg: b });
    dfg.insts.push(InstructionData::Binary { opcode: Opcode::Fadd, args: [a, p] });
    let ub = dfg.values.make_use(b, Inst(0), 0);
    let ua = dfg.values.make_use(a, Inst(1), 0);
    let up = dfg.values.make_use(p, Inst(1), 1);
    dfg.strip_alias();
    assert_eq!(dfg.insts[0].arguments(), vec![p]);
    assert_eq!(dfg.insts[1].arguments(), vec![p, p]);
    assert!(dfg.values.uses(a).is_empty());
    assert!(dfg.values.uses(b).is_empty());
    assert_eq!(dfg.values.uses(p), vec![ub, ua, up]);
    assert_eq!(dfg.resolve_alias(b), p);
    assert_eq!(dfg.values.def_allow_alias(b), ValueDef::Param(Param(0)));
}

#[test]
fn strip_alias_after_leaves_older_values() {
    let mut dfg = DataFlowGraph::new();
    let p = dfg.values.make_param(Param(0));
    let a = dfg.values.make_alias(p);
    dfg.insts.push(InstructionData::Unary { opcode: Opcode::Sqrt, arg: a });
    let ua = dfg.values.make_use(a, Inst(0), 0);
    let n = dfg.values.num();
    dfg.strip_alias_after(n);
    assert_eq!(dfg.insts[0].arguments(), vec![a]);
    assert_eq!(dfg.values.uses(a), vec![ua]);
    dfg.strip_alias_after(n - 1);
    assert_eq!(dfg.insts[0].arguments(), vec![p]);
    assert_eq!(dfg.values.uses(p), vec![ua]);
}

#[test]
fn data_flow_graph_values() {
    let mut dfg = DataFlowGraph::new();
    assert_eq!(dfg.num_values(), 16);
    assert!(dfg.value_valid(Value(15)));
    assert!(!dfg.value_valid(Value(16)));
    assert_eq!(dfg.value_def(Value(5)), ValueDef::Const(Const::Int(1)));
    let p = dfg.make_param(Param(4));
    assert_eq!(dfg.value_def(p), ValueDef::Param(Param(4)));
    let inv = dfg.make_invalid_value();
    assert_eq!(dfg.value_def(inv), ValueDef::Invalid);
    let c = dfg.iconst(12);
    assert_eq!(dfg.iconst(12), c);
    assert_eq!(dfg.fconst(Ieee64(0)), Value(3));
    let s = dfg.sconst(1);
    assert_eq!(dfg.value_def(s), ValueDef::Const(Const::Str(1)));
    dfg.set_tag(p, Some(Tag(2)));
    assert_eq!(dfg.get_tag(p), Some(Tag(2)));
    dfg.insts.push(InstructionData::Unary { opcode: Opcode::Sqrt, arg: p });
    assert!(dfg.value_dead(p));
    let u = dfg.make_use(p, Inst(0), 0);
    assert!(!dfg.value_dead(p));
    assert_eq!(dfg.uses(p), vec![u]);
    assert_eq!(dfg.use_to_user(u), Inst(0));
    dfg.detach_use(u);
    assert!(dfg.value_dead(p));
    dfg.attach_use(u, p);
    assert_eq!(dfg.uses(p), vec![u]);
    dfg.clear();
    assert_eq!(dfg.num_insts(), 0);
    assert_eq!(dfg.num_values(), 0);
}

#[test]
fn use_cursor_walks_from_both_ends() {
    let mut vals = DfgValues::new();
    let v = vals.make_param(Param(0));
    let u0 = vals.make_use(v, Inst(0), 0);
    let u1 = vals.make_use(v, Inst(1), 0);
    let u2 = vals.make_use(v, Inst(2), 0);
    let mut c = vals.uses_cursor(v);
    assert_eq!(c.advance(&vals), Some(u2));
    assert_eq!(c.advance_back(&vals), Some(u0));
    assert_eq!(c.advance(&vals), Some(u1));
    assert_eq!(c.advance(&vals), None);
    assert_eq!(c.advance_back(&vals), None);
    let mut d = vals.uses_cursor(v);
    assert_eq!(d.advance_back(&vals), Some(u0));
    assert_eq!(d.advance_back(&vals), Some(u1));
    assert_eq!(d.advance_back(&vals), Some(u2));
    assert_eq!(d.advance(&vals), None);
    assert_eq!(UseCursor::default(), d);
}

#[test]
fn phi_edges_of_the_graph() {
    let mut dfg = DataFlowGraph::new();
    let phi = PhiNode { blocks: vec![(Block(1), 0), (Block(3), 1)], args: vec![Value(4), Value(5)] };
    assert_eq!(dfg.phi_edges(&phi), vec![(Block(1), Value(4)), (Block(3), Value(5))]);
    assert_eq!(dfg.phi_edge_val(&phi, Block(3)), Some(Value(5)));
    assert_eq!(dfg.phi_edge_val(&phi, Block(2)), None);
    assert!(dfg.phi_eq(&phi, &PhiNode { blocks: vec![(Block(1), 1), (Block(3), 0)], args: vec![Value(5), Value(4)] }));
    dfg.insts.push(InstructionData::PhiNode(phi));
    assert_eq!(dfg.try_remove_phi_edge(Inst(0), Block(2)), None);
    assert_eq!(dfg.try_remove_phi_edge(Inst(0), Block(1)), Some(Value(4)));
    let phi = match &dfg.insts[0] {
        InstructionData::PhiNode(p) => p.clone(),
        _ => panic!("not a phi"),
    };
    assert_eq!(phi.blocks, vec![(Block(3), 1)]);
    assert_eq!(phi.args, vec![Value(0), Value(5)]);
    assert_eq!(dfg.phi_edges(&phi), vec![(Block(3), Value(5))]);
}

#[test]
fn set_use_value_moves_one_operand() {
    let mut dfg = DataFlowGraph::new();
    let a = dfg.make_param(Param(0));
    let b = dfg.make_param(Param(1));
    dfg.insts.push(InstructionData::Binary { opcode: Opcode::Fadd, args: [a, a] });
    let u0 = dfg.make_use(a, Inst(0), 0);
    let u1 = dfg.make_use(a, Inst(0), 1);
    assert_eq!(dfg.uses(a), vec![u1, u0]);
    dfg.set_use_value(u1, b);
    assert_eq!(dfg.insts[0].arguments(), vec![a, b]);
    assert_eq!(dfg.uses(a), vec![u0]);
    assert_eq!(dfg.uses(b), vec![u1]);
    assert_eq!(dfg.use_to_value(u1), b);
}

#[test]
fn new_graph_interns_both_zeros_as_the_zero_value() {
    let mut dfg = DataFlowGraph::new();
    assert_eq!(dfg.fconst(Ieee64((-0.0f64).to_bits())), Value(3));
    assert_eq!(dfg.fconst(Ieee64(0.0f64.to_bits())), Value(3));
    assert_eq!(dfg.num_values(), 16);
}

#[test]
fn iconst_again_returns_the_same_value() {
    let mut dfg = DataFlowGraph::new();
    let a = dfg.iconst(42);
    let n = dfg.num_values();
    assert_eq!(dfg.iconst(42), a);
    assert_eq!(dfg.num_values(), n);
    assert_eq!(dfg.value_def(a), ValueDef::Const(Const::Int(42)));
    assert_ne!(dfg.iconst(43), a);
}

#[test]
fn resolve_alias_is_idempotent() {
    let mut dfg = DataFlowGraph::new();
    let p = dfg.make_param(Param(0));
    let a = dfg.values.make_alias(p);
    let r = dfg.resolve_alias(a);
    assert_eq!(r, p);
    assert_eq!(dfg.resolve_alias(r), r);
    assert_eq!(dfg.value_def(r), dfg.values.def_allow_alias(a));
}

/// Removing a phi edge by instruction detaches the use of the removed incoming value.
#[test]
fn remove_phi_edge_at_detaches_its_use() {
    let mut dfg = DataFlowGraph::new();
    let (b0, b1) = (Block(0), Block(1));
    dfg.insts.push(InstructionData::PhiNode(PhiNode { blocks: vec![(b0, 0), (b1, 1)], args: vec![Value(3), Value(5)] }));
    dfg.make_use(Value(3), Inst(0), 0);
    dfg.make_use(Value(5), Inst(0), 1);
    assert_eq!(dfg.values.uses(Value(3)).len(), 1);
    assert_eq!(dfg.values.uses(Value(5)).len(), 1);
    assert_eq!(dfg.try_remove_phi_edge_at(Inst(0), b0), Some(Value(3)));
    assert_eq!(dfg.values.uses(Value(3)).len(), 0);
    assert_eq!(dfg.values.uses(Value(5)).len(), 1);
    let edges = match &dfg.insts[0] {
        InstructionData::PhiNode(p) => dfg.phi_edges(p),
        _ => panic!("not a phi"),
    };
    assert_eq!(edges, vec![(b1, Value(5))]);
    assert_eq!(dfg.try_remove_phi_edge_at(Inst(0), b0), None);
}

#[test]
fn phi() {
    let mut dfg = DataFlowGraph::new();
    let f_zero = Value(3);
    let v3 = dfg.fconst(Ieee64(2f64.to_bits()));
    let v4 = dfg.fconst(Ieee64(4f64.to_bits()));
    let b0 = Block(0);
    let b1 = Block(1);

    dfg.insts.push(InstructionData::PhiNode(PhiNode { blocks: vec![], args: vec![] }));
    let inst = Inst(0);
    let edges = |dfg: &DataFlowGraph| match &dfg.insts[0] {
        InstructionData::PhiNode(p) => dfg.phi_edges(p),
        _ => panic!("not a phi"),
    };
    assert_eq!(edges(&dfg).len(), 0);

    dfg.insert_phi_edge(inst, b0, f_zero);
    dfg.insert_phi_edge(inst, b1, v3);
    assert_eq!(dfg.uses(f_zero).len(), 1);
    assert_eq!(dfg.uses(v3).len(), 1);
    assert_eq!(edges(&dfg), vec![(b0, f_zero), (b1, v3)]);

    dfg.insert_phi_edge(inst, b1, v4);
    assert_eq!(dfg.uses(f_zero).len(), 1);
    assert_eq!(dfg.uses(v4).len(), 1);
    assert_eq!(dfg.uses(v3).len(), 0);
    assert_eq!(edges(&dfg), vec![(b0, f_zero), (b1, v4)]);
    let val_b0 = match &dfg.insts[0] {
        InstructionData::PhiNode(p) => dfg.phi_edge_val(p, b0),
        _ => panic!("not a phi"),
    };
    assert_eq!(val_b0, Some(f_zero));
    assert_eq!(dfg.try_remove_phi_edge(inst, b0), Some(f_zero));

    assert_eq!(dfg.uses(f_zero).len(), 0);
    assert_eq!(dfg.uses(v3).len(), 0);
    assert_eq!(dfg.uses(v4).len(), 1);
    assert_eq!(edges(&dfg), vec![(b1, v4)]);
}

#[test]
fn insert_phi_edge_reuses_the_operand_use() {
    let mut dfg = DataFlowGraph::new();
    dfg.insts.push(InstructionData::PhiNode(PhiNode { blocks: vec![], args: vec![] }));
    dfg.insert_phi_edge(Inst(0), Block(2), Value(4));
    let first = dfg.uses(Value(4));
    assert_eq!(first.len(), 1);
    dfg.insert_phi_edge(Inst(0), Block(2), Value(5));
    assert_eq!(dfg.uses(Value(4)), vec![]);
    assert_eq!(dfg.uses(Value(5)), first);
}

#[test]
fn detach_and_attach_operand() {
    let mut dfg = DataFlowGraph::new();
    dfg.insts.push(InstructionData::PhiNode(PhiNode { blocks: vec![], args: vec![] }));
    dfg.insert_phi_edge(Inst(0), Block(1), Value(4));
    dfg.insert_phi_edge(Inst(0), Block(2), Value(4));
    let both = dfg.uses(Value(4));
    assert_eq!(both.len(), 2);
    // the use of operand 1 was made last, so it heads the list
    dfg.detach_operand(Inst(0), 0);
    assert_eq!(dfg.uses(Value(4)), vec![both[0]]);
    dfg.attach_operand(Inst(0), 0);
    assert_eq!(dfg.uses(Value(4)), vec![both[1], both[0]]);
}

#[test]
fn set_operand_value_moves_the_operand_use() {
    let mut dfg = DataFlowGraph::new();
    dfg.insts.push(InstructionData::PhiNode(PhiNode { blocks: vec![], args: vec![] }));
    dfg.insert_phi_edge(Inst(0), Block(1), Value(4));
    let u = dfg.uses(Value(4));
    dfg.set_operand_value(Value(6), Inst(0), 0);
    assert_eq!(dfg.uses(Value(4)), vec![]);
    assert_eq!(dfg.uses(Value(6)), u);
    let edges = match &dfg.insts[0] {
        InstructionData::PhiNode(p) => dfg.phi_edges(p),
        _ => panic!("not a phi"),
    };
    assert_eq!(edges, vec![(Block(1), Value(6))]);
}
