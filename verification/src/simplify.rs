//! Peephole simplification of unary instructions: an instruction whose result is already
//! available elsewhere (its operand, or the operand of an inverse instruction) is replaced
//! by that value.
use vstd::prelude::*;

use crate::entities::{Block, Value};
use crate::function::DataFlowGraph;
use crate::instructions::{InstructionData, Opcode, PhiNode, spec_format, InstructionFormat};
use crate::values::{spec_def, ValueDef};

verus! {

/// The number of the predefined value 2.0.
pub const F_TWO: u32 = 11;

/// The number of the predefined value 10.0.
pub const F_TEN: u32 = 13;

/// The instruction that defines `val`, if `val` is an instruction result.
pub open spec fn defining_inst(dfg: &DataFlowGraph, val: Value) -> Option<InstructionData> {
    match spec_def(dfg.values@.types[val.0 as int]) {
        ValueDef::Result(inst, _) => Some(dfg.insts@[inst.0 as int]),
        _ => None,
    }
}

/// The value that `v` stands for under the value mapping `map`: its entry, or `v` itself
/// past the end of the table.
pub open spec fn mapped(map: Seq<Value>, v: Value) -> Value {
    if v.0 < map.len() {
        map[v.0 as int]
    } else {
        v
    }
}

/// The mapped operand of `val` if `val` is the result of a unary instruction with opcode
/// `op`.
pub open spec fn unary_operand(dfg: &DataFlowGraph, map: Seq<Value>, val: Value, op: Opcode) -> Option<Value> {
    match defining_inst(dfg, val) {
        Some(InstructionData::Unary { opcode, arg }) => if opcode == op {
            Some(mapped(map, arg))
        } else {
            None
        },
        _ => None,
    }
}

/// The mapped operands of `val` if `val` is the result of a binary instruction with opcode
/// `op`.
pub open spec fn binary_operands(dfg: &DataFlowGraph, map: Seq<Value>, val: Value, op: Opcode) -> Option<(Value, Value)> {
    match defining_inst(dfg, val) {
        Some(InstructionData::Binary { opcode, args }) => if opcode == op {
            Some((mapped(map, args[0]), mapped(map, args[1])))
        } else {
            None
        },
        _ => None,
    }
}

/// The opcode of the unary instruction that defines `val`, if any.
pub open spec fn unary_opcode(dfg: &DataFlowGraph, val: Value) -> Option<Opcode> {
    match defining_inst(dfg, val) {
        Some(InstructionData::Unary { opcode, .. }) => Some(opcode),
        _ => None,
    }
}

/// The operation that undoes `op`: applying `op` to its result gives back its operand.
/// The casts count only where the cast back is lossless.
pub open spec fn inverse_op(op: Opcode) -> Option<Opcode> {
    match op {
        Opcode::Inot => Some(Opcode::Inot),
        Opcode::Bnot => Some(Opcode::Bnot),
        Opcode::FIcast => Some(Opcode::IFcast),
        Opcode::IBcast => Some(Opcode::BIcast),
        Opcode::FBcast => Some(Opcode::BFcast),
        Opcode::Exp => Some(Opcode::Ln),
        Opcode::Ln => Some(Opcode::Exp),
        Opcode::Sin => Some(Opcode::Asin),
        Opcode::Cos => Some(Opcode::Acos),
        Opcode::Tan => Some(Opcode::Atan),
        Opcode::Asin => Some(Opcode::Sin),
        Opcode::Acos => Some(Opcode::Cos),
        Opcode::Atan => Some(Opcode::Tan),
        Opcode::Sinh => Some(Opcode::Asinh),
        Opcode::Cosh => Some(Opcode::Acosh),
        Opcode::Tanh => Some(Opcode::Atanh),
        Opcode::Asinh => Some(Opcode::Sinh),
        Opcode::Acosh => Some(Opcode::Cosh),
        Opcode::Atanh => Some(Opcode::Tanh),
        _ => None,
    }
}

/// What `op` applied to `val` simplifies to, when no constant folding applies; operands
/// of defining instructions are read through the value mapping `map`, and `negated` is
/// what the subtraction `0 - val` simplifies to, for the negations.
/// - `-val` is `0 - val`;
/// - `f(g(u))` is `u` when `f` undoes `g` (see [`inverse_op`]);
/// - `sqrt(x * x)` and `sqrt(pow(x, 2))` are `x`, `log(pow(10, y))` is `y`;
/// - `floor` and `ceil` of a value that is already integral (a cast from an integer or a
///   boolean, or a `floor` or `ceil`) are that value;
/// - the lossy casts, the optimisation barrier and `clog2` do not simplify.
pub open spec fn spec_simplify_unary(dfg: &DataFlowGraph, map: Seq<Value>, op: Opcode, val: Value, negated: Option<Value>) -> Option<Value> {
    match op {
        Opcode::Fneg | Opcode::Ineg => negated,
        Opcode::IFcast | Opcode::BIcast | Opcode::BFcast | Opcode::OptBarrier | Opcode::Clog2 => None,
        Opcode::Sqrt => match binary_operands(dfg, map, val, Opcode::Fmul) {
            Some((x, y)) if x == y => Some(x),
            _ => match binary_operands(dfg, map, val, Opcode::Pow) {
                Some((x, y)) if y == Value(F_TWO) => Some(x),
                _ => None,
            },
        },
        Opcode::Log => match binary_operands(dfg, map, val, Opcode::Pow) {
            Some((x, y)) if x == Value(F_TEN) => Some(y),
            _ => None,
        },
        Opcode::Floor | Opcode::Ceil => match unary_opcode(dfg, val) {
            Some(Opcode::IFcast) | Some(Opcode::BFcast) | Some(Opcode::Ceil) | Some(Opcode::Floor) => Some(val),
            _ => None,
        },
        _ => match inverse_op(op) {
            Some(inv) => unary_operand(dfg, map, val, inv),
            None => None,
        },
    }
}

/// The instruction that defines `val`, looked up.
fn defining_inst_of(dfg: &DataFlowGraph, val: Value) -> (r: Option<&InstructionData>)
    requires
        dfg.values.wf(),
        val.0 < dfg.values@.types.len(),
        spec_def(dfg.values@.types[val.0 as int]) matches ValueDef::Result(i, _) ==> i.0 < dfg.insts@.len(),
    ensures
        r is Some <==> defining_inst(dfg, val) is Some,
        r matches Some(d) ==> defining_inst(dfg, val) == Some(*d),
{
    match dfg.value_def(val) {
        ValueDef::Result(inst, _) => Some(&dfg.insts[inst.0 as usize]),
        _ => None,
    }
}

/// The value that `v` stands for under the value mapping `map`.
fn map_val(map: &Vec<Value>, v: Value) -> (r: Value)
    ensures
        r == mapped(map@, v),
{
    if (v.0 as usize) < map.len() {
        map[v.0 as usize]
    } else {
        v
    }
}

/// The mapped operand of `val` if `val` is the result of a unary instruction with opcode
/// `op`.
fn as_unary(dfg: &DataFlowGraph, map: &Vec<Value>, val: Value, op: Opcode) -> (r: Option<Value>)
    requires
        dfg.values.wf(),
        val.0 < dfg.values@.types.len(),
        spec_def(dfg.values@.types[val.0 as int]) matches ValueDef::Result(i, _) ==> i.0 < dfg.insts@.len(),
    ensures
        r == unary_operand(dfg, map@, val, op),
{
    match defining_inst_of(dfg, val) {
        Some(InstructionData::Unary { opcode, arg }) => if *opcode == op {
            Some(map_val(map, *arg))
        } else {
            None
        },
        _ => None,
    }
}

/// The mapped operands of `val` if `val` is the result of a binary instruction with opcode
/// `op`.
fn as_binary(dfg: &DataFlowGraph, map: &Vec<Value>, val: Value, op: Opcode) -> (r: Option<(Value, Value)>)
    requires
        dfg.values.wf(),
        val.0 < dfg.values@.types.len(),
        spec_def(dfg.values@.types[val.0 as int]) matches ValueDef::Result(i, _) ==> i.0 < dfg.insts@.len(),
    ensures
        r == binary_operands(dfg, map@, val, op),
{
    match defining_inst_of(dfg, val) {
        Some(InstructionData::Binary { opcode, args }) => if *opcode == op {
            Some((map_val(map, args[0]), map_val(map, args[1])))
        } else {
            None
        },
        _ => None,
    }
}

/// The opcode of the unary instruction that defines `val`, if any.
fn as_any_unary(dfg: &DataFlowGraph, val: Value) -> (r: Option<Opcode>)
    requires
        dfg.values.wf(),
        val.0 < dfg.values@.types.len(),
        spec_def(dfg.values@.types[val.0 as int]) matches ValueDef::Result(i, _) ==> i.0 < dfg.insts@.len(),
    ensures
        r == unary_opcode(dfg, val),
{
    match defining_inst_of(dfg, val) {
        Some(InstructionData::Unary { opcode, .. }) => Some(*opcode),
        _ => None,
    }
}

/// Simplify the unary instruction `op val`. `map` is the value mapping through which the
/// operands of defining instructions are read (a value past its end stands for itself).
/// `folded` is its value folded to a constant, if `val` is a constant that folds; it is
/// taken first. `negated` is what the subtraction `0 - val` simplifies to, which the
/// negations take. Otherwise the result is what [`spec_simplify_unary`] says.
pub fn simplify_unary_op(
    dfg: &DataFlowGraph,
    map: &Vec<Value>,
    op: Opcode,
    val: Value,
    folded: Option<Value>,
    negated: Option<Value>,
) -> (r: Option<Value>)
    requires
        dfg.values.wf(),
        val.0 < dfg.values@.types.len(),
        spec_def(dfg.values@.types[val.0 as int]) matches ValueDef::Result(i, _) ==> i.0 < dfg.insts@.len(),
        spec_format(op) == InstructionFormat::Unary,
    ensures
        folded is Some ==> r == folded,
        folded is None ==> r == spec_simplify_unary(dfg, map@, op, val, negated),
{
    if folded.is_some() {
        return folded;
    }
    match op {
        Opcode::Fneg | Opcode::Ineg => negated,
        Opcode::IFcast | Opcode::BIcast | Opcode::BFcast | Opcode::OptBarrier | Opcode::Clog2 => None,
        Opcode::Sqrt => {
            if let Some((x, y)) = as_binary(dfg, map, val, Opcode::Fmul) {
                if x.0 == y.0 {
                    return Some(x);
                }
            }
            if let Some((x, y)) = as_binary(dfg, map, val, Opcode::Pow) {
                if y.0 == F_TWO {
                    return Some(x);
                }
            }
            None
        },
        Opcode::Log => {
            if let Some((x, y)) = as_binary(dfg, map, val, Opcode::Pow) {
                if x.0 == F_TEN {
                    return Some(y);
                }
            }
            None
        },
        Opcode::Floor | Opcode::Ceil => {
            match as_any_unary(dfg, val) {
                Some(Opcode::IFcast) | Some(Opcode::BFcast) | Some(Opcode::Ceil) | Some(Opcode::Floor) => Some(val),
                _ => None,
            }
        },
        _ => {
            let inv = match op {
                Opcode::Inot => Opcode::Inot,
                Opcode::Bnot => Opcode::Bnot,
                Opcode::FIcast => Opcode::IFcast,
                Opcode::IBcast => Opcode::BIcast,
                Opcode::FBcast => Opcode::BFcast,
                Opcode::Exp => Opcode::Ln,
                Opcode::Ln => Opcode::Exp,
                Opcode::Sin => Opcode::Asin,
                Opcode::Cos => Opcode::Acos,
                Opcode::Tan => Opcode::Atan,
                Opcode::Asin => Opcode::Sin,
                Opcode::Acos => Opcode::Cos,
                Opcode::Atan => Opcode::Tan,
                Opcode::Sinh => Opcode::Asinh,
                Opcode::Cosh => Opcode::Acosh,
                Opcode::Tanh => Opcode::Atanh,
                Opcode::Asinh => Opcode::Sinh,
                Opcode::Acosh => Opcode::Cosh,
                _ => Opcode::Tanh,
            };
            as_unary(dfg, map, val, inv)
        },
    }
}

/// A phi simplifies to the value all its incoming values stand for under `map`, when they
/// agree and there is at least one.
pub open spec fn spec_simplify_phi(map: Seq<Value>, edges: Seq<(Block, Value)>) -> Option<Value> {
    if edges.len() > 0 && forall|i: int| 0 <= i < edges.len() ==> mapped(map, #[trigger] edges[i].1) == mapped(map, edges[0].1) {
        Some(mapped(map, edges[0].1))
    } else {
        None
    }
}

/// Simplify the phi `phi`: the value its incoming values all stand for under `map`, if they
/// agree (see [`spec_simplify_phi`]).
pub fn simplify_phi(dfg: &DataFlowGraph, map: &Vec<Value>, phi: &PhiNode) -> (r: Option<Value>)
    requires
        phi.wf(),
    ensures
        r == spec_simplify_phi(map@, phi.spec_edges()),
{
    let edges = dfg.phi_edges(phi);
    if edges.len() == 0 {
        return None;
    }
    let first = map_val(map, edges[0].1);
    let mut i: usize = 1;
    while i < edges.len()
        invariant
            edges@ == phi.spec_edges(),
            edges@.len() > 0,
            1 <= i <= edges@.len(),
            first == mapped(map@, edges@[0].1),
            forall|j: int| 0 <= j < i ==> mapped(map@, #[trigger] edges@[j].1) == first,
        decreases edges@.len() - i,
    {
        if map_val(map, edges[i].1) != first {
            return None;
        }
        i += 1;
    }
    Some(first)
}


/// The inverse operations pair up: where the operation that undoes `op` can itself be
/// undone, it is undone by `op` (the lossy casts back are the only ones that cannot), and no
/// two operations share an inverse.
pub proof fn lemma_inverse_pairs(op: Opcode, op2: Opcode)
    ensures
        inverse_op(op) matches Some(inv) ==> (inverse_op(inv) is Some ==> inverse_op(inv) == Some(op)),
        inverse_op(op) is Some && inverse_op(op) == inverse_op(op2) ==> op == op2,
{
}

/// A trigonometric or hyperbolic function undoes exactly its arc function, and the arc
/// function undoes the function: `f(g(u))` simplifies to `u` only when `g` is the inverse of
/// `f`. Here for the cosine: `cos(g(u))` simplifies only when `g` is `acos`, and then to `u`.
pub proof fn lemma_cos_undoes_only_acos(dfg: &DataFlowGraph, map: Seq<Value>, val: Value, negated: Option<Value>)
    ensures
        spec_simplify_unary(dfg, map, Opcode::Cos, val, negated) is Some ==> unary_opcode(dfg, val) == Some(Opcode::Acos),
        spec_simplify_unary(dfg, map, Opcode::Cos, val, negated) == unary_operand(dfg, map, val, Opcode::Acos),
        spec_simplify_unary(dfg, map, Opcode::Acos, val, negated) == unary_operand(dfg, map, val, Opcode::Cos),
{
}

/// `f(g(u))` simplifies to the operand of `g` exactly when `g` is the operation that undoes
/// `f`, for every function with an inverse (all but the negations and the roots, logarithms
/// and roundings, which have rules of their own).
pub proof fn lemma_inverse_simplifies(dfg: &DataFlowGraph, map: Seq<Value>, op: Opcode, g: Opcode, val: Value, negated: Option<Value>)
    requires
        !(op is Fneg || op is Ineg || op is Sqrt || op is Log || op is Floor || op is Ceil),
        inverse_op(op) == Some(g),
    ensures
        spec_simplify_unary(dfg, map, op, val, negated) == unary_operand(dfg, map, val, g),
        spec_simplify_unary(dfg, map, op, val, negated) is Some ==> unary_opcode(dfg, val) == Some(g),
{
}

/// The simplification of a unary operation other than a negation never makes up a value:
/// it is the operand itself (a rounding of a value that is already integral) or, read
/// through the value mapping, an operand of the instruction that defines the operand.
pub proof fn lemma_simplify_unary_sources(dfg: &DataFlowGraph, map: Seq<Value>, op: Opcode, val: Value, negated: Option<Value>)
    requires
        !(op is Fneg || op is Ineg),
    ensures
        spec_simplify_unary(dfg, map, op, val, negated) matches Some(r) ==> r == val || (defining_inst(dfg, val) matches Some(
            data,
        ) && exists|k: int| 0 <= k < data.spec_arguments().len() && r == mapped(map, #[trigger] data.spec_arguments()[k])),
{
    if let Some(r) = spec_simplify_unary(dfg, map, op, val, negated) {
        if r != val {
            let data = defining_inst(dfg, val).unwrap();
            match data {
                InstructionData::Unary { arg, .. } => {
                    assert(data.spec_arguments()[0] == arg);
                },
                InstructionData::Binary { args, .. } => {
                    assert(data.spec_arguments()[0] == args[0]);
                    assert(data.spec_arguments()[1] == args[1]);
                },
                _ => {},
            }
        }
    }
}

/// The trigonometric and hyperbolic functions and their arc functions undo each other,
/// and so do the exponential and the natural logarithm.
pub proof fn lemma_inverse_families()
    ensures
        inverse_op(Opcode::Sin) == Some(Opcode::Asin) && inverse_op(Opcode::Asin) == Some(Opcode::Sin),
        inverse_op(Opcode::Cos) == Some(Opcode::Acos) && inverse_op(Opcode::Acos) == Some(Opcode::Cos),
        inverse_op(Opcode::Tan) == Some(Opcode::Atan) && inverse_op(Opcode::Atan) == Some(Opcode::Tan),
        inverse_op(Opcode::Sinh) == Some(Opcode::Asinh) && inverse_op(Opcode::Asinh) == Some(Opcode::Sinh),
        inverse_op(Opcode::Cosh) == Some(Opcode::Acosh) && inverse_op(Opcode::Acosh) == Some(Opcode::Cosh),
        inverse_op(Opcode::Tanh) == Some(Opcode::Atanh) && inverse_op(Opcode::Atanh) == Some(Opcode::Tanh),
        inverse_op(Opcode::Exp) == Some(Opcode::Ln) && inverse_op(Opcode::Ln) == Some(Opcode::Exp),
{
}
} // verus!
