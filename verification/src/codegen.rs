//! Data of the LLVM code generator that does not depend on LLVM itself.
use vstd::prelude::*;

use crate::llvm;

verus! {

/// A memory location inside an aggregate: the base pointer, the aggregate's type, the
/// element's type, and one index per level of indirection.
#[derive(Clone)]
pub struct MemLoc<'ll> {
    pub base_ptr: &'ll llvm::Value,
    pub ty: &'ll llvm::Type,
    pub elem_ty: &'ll llvm::Type,
    pub indices: Vec<&'ll llvm::Value>,
}

/// How much floating point arithmetic may be reassociated and approximated.
#[derive(Clone, Copy, Debug, PartialEq, Eq, Structural)]
pub enum FastMathMode {
    Full,
    Partial,
    Disabled,
}

} // verus!
