//! Entity references of the MIR.
//!
//! Instructions reference other entities of a function (blocks, values, instructions,
//! external functions) by compact `u32` indices into the tables of that function rather
//! than by Rust references. Each entity kind has its own index type.
use vstd::prelude::*;

verus! {

/// A basic block of a MIR function. The numbering is stable but says nothing
/// about the layout order.
#[derive(Copy, Clone, PartialEq, Eq, Structural, Debug, Hash, PartialOrd, Ord)]
pub struct Block(pub u32);

/// An SSA value.
#[derive(Copy, Clone, PartialEq, Eq, Structural, Debug, Hash, PartialOrd, Ord)]
pub struct Value(pub u32);

/// One use of a value as an operand of an instruction.
#[derive(Copy, Clone, PartialEq, Eq, Structural, Debug, Hash, PartialOrd, Ord)]
pub struct Use(pub u32);

/// A parameter of a function.
#[derive(Copy, Clone, PartialEq, Eq, Structural, Debug, Hash, PartialOrd, Ord)]
pub struct Param(pub u32);

/// A tag attached to a value (the place it was written to).
#[derive(Copy, Clone, PartialEq, Eq, Structural, Debug, Hash, PartialOrd, Ord)]
pub struct Tag(pub u32);

/// An instruction of a function.
#[derive(Copy, Clone, PartialEq, Eq, Structural, Debug, Hash, PartialOrd, Ord)]
pub struct Inst(pub u32);

/// A reference to an external function that can be called directly.
#[derive(Copy, Clone, PartialEq, Eq, Structural, Debug, Hash, PartialOrd, Ord)]
pub struct FuncRef(pub u32);

/// A symbolic derivative unknown.
#[derive(Copy, Clone, PartialEq, Eq, Structural, Debug, Hash)]
pub struct Unknown(pub u32);

/// Any of the entities above, as used by the MIR writer.
#[derive(Copy, Clone, PartialEq, Eq, Structural, Debug, Hash)]
pub enum AnyEntity {
    /// The whole function.
    Function,
    /// A basic block.
    Block(Block),
    /// An instruction.
    Inst(Inst),
    /// An SSA value.
    Value(Value),
    /// An external function.
    FuncRef(FuncRef),
}

impl Block {
    /// Create a block reference from its number (the `blockNN` notation).
    /// The number `u32::MAX` is reserved and yields `None`.
    pub fn with_number(n: u32) -> (r: Option<Self>)
        ensures
            r == (if n < u32::MAX { Some(Block(n)) } else { None::<Block> }),
    {
        if n < u32::MAX {
            Some(Block(n))
        } else {
            None
        }
    }
}

/// The largest value number plus one that the `vNN` notation accepts.
pub open spec fn value_number_limit() -> int {
    (u32::MAX / 2) as int
}

impl Value {
    /// Create a value from its number (the `vNN` notation).
    /// Only numbers below `u32::MAX / 2` are accepted.
    pub fn with_number(n: u32) -> (r: Option<Self>)
        ensures
            r == (if n < value_number_limit() { Some(Value(n)) } else { None::<Value> }),
    {
        if n < u32::MAX / 2 {
            Some(Value(n))
        } else {
            None
        }
    }

    /// Create a value from its number; the number must be below `u32::MAX / 2`.
    pub fn with_number_(n: u32) -> (r: Self)
        requires
            n < value_number_limit(),
        ensures
            r == Value(n),
    {
        Value(n)
    }
}

impl FuncRef {
    /// Create an external function reference from its number.
    /// The number `u32::MAX` is reserved and yields `None`.
    pub fn with_number(n: u32) -> (r: Option<Self>)
        ensures
            r == (if n < u32::MAX { Some(FuncRef(n)) } else { None::<FuncRef> }),
    {
        if n < u32::MAX {
            Some(FuncRef(n))
        } else {
            None
        }
    }
}

impl AnyEntity {
    /// The entity for a block.
    pub fn from_block(b: Block) -> (r: Self)
        ensures
            r == AnyEntity::Block(b),
    {
        AnyEntity::Block(b)
    }

    /// The entity for an instruction.
    pub fn from_inst(i: Inst) -> (r: Self)
        ensures
            r == AnyEntity::Inst(i),
    {
        AnyEntity::Inst(i)
    }

    /// The entity for a value.
    pub fn from_value(v: Value) -> (r: Self)
        ensures
            r == AnyEntity::Value(v),
    {
        AnyEntity::Value(v)
    }

    /// The entity for an external function.
    pub fn from_func_ref(f: FuncRef) -> (r: Self)
        ensures
            r == AnyEntity::FuncRef(f),
    {
        AnyEntity::FuncRef(f)
    }
}

} // verus!
