//! Verified core of the OpenVAF middle-end.
use vstd::prelude::*;

pub mod entities;
pub mod instructions;
pub mod layout;
pub mod function;
pub mod cfg;
pub mod validation;
pub mod fmt_parser;
pub mod llvm;
pub mod derivatives;
pub mod opt;
pub mod builder;
pub mod codegen;
pub mod dominators;
pub mod domtree;
pub mod values;
pub mod dead_code_aggressive;
pub mod simplify;
pub mod node_validation;
pub mod limit_check;
pub mod overload;
pub mod builtin_validation;
pub mod types;
pub mod cursor;
pub mod split_tainted;

verus! {
}
