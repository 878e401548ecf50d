use openvaf::entities::{AnyEntity, Block, FuncRef, Inst, Value};

#[test]
fn block_numbers() {
    assert_eq!(Block::with_number(7), Some(Block(7)));
    assert_eq!(Block::with_number(u32::MAX), None);
}

#[test]
fn value_numbers() {
    assert_eq!(Value::with_number(3), Some(Value(3)));
    assert_eq!(Value::with_number(u32::MAX / 2), None);
    assert_eq!(Value::with_number(u32::MAX / 2 - 1), Some(Value(u32::MAX / 2 - 1)));
    assert_eq!(Value::with_number_(5), Value(5));
}

#[test]
fn func_ref_numbers() {
    assert_eq!(FuncRef::with_number(0), Some(FuncRef(0)));
    assert_eq!(FuncRef::with_number(u32::MAX), None);
}

#[test]
fn any_entity() {
    assert_eq!(AnyEntity::from_block(Block(1)), AnyEntity::Block(Block(1)));
    assert_eq!(AnyEntity::from_inst(Inst(2)), AnyEntity::Inst(Inst(2)));
    assert_eq!(AnyEntity::from_value(Value(3)), AnyEntity::Value(Value(3)));
    assert_eq!(AnyEntity::from_func_ref(FuncRef(4)), AnyEntity::FuncRef(FuncRef(4)));
}
