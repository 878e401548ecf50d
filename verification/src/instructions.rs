//! Opcodes, instruction formats and the in-memory representation of MIR instructions.
use vstd::prelude::*;

use crate::entities::{Block, FuncRef, Value};

verus! {

/// The operation performed by an instruction.
#[derive(Copy, Clone, PartialEq, Eq, Structural, Debug, Hash)]
pub enum Opcode {
    Inot,
    Bnot,
    Fneg,
    Ineg,
    FIcast,
    IFcast,
    BIcast,
    IBcast,
    FBcast,
    BFcast,
    OptBarrier,
    Sqrt,
    Exp,
    Ln,
    Log,
    Clog2,
    Floor,
    Ceil,
    Sin,
    Cos,
    Tan,
    Hypot,
    Asin,
    Acos,
    Atan,
    Atan2,
    Sinh,
    Cosh,
    Tanh,
    Asinh,
    Acosh,
    Atanh,
    Iadd,
    Isub,
    Imul,
    Idiv,
    Irem,
    Ishl,
    Ishr,
    Ixor,
    Iand,
    Ior,
    Fadd,
    Fsub,
    Fmul,
    Fdiv,
    Frem,
    Pow,
    Ilt,
    Igt,
    Flt,
    Fgt,
    Ile,
    Ige,
    Fle,
    Fge,
    Ieq,
    Feq,
    SEq,
    Beq,
    Ine,
    Fne,
    Sne,
    Bne,
    Br,
    Jmp,
    Call,
    Phi,
}

/// The shape of the operands of an instruction.
#[derive(Copy, Clone, PartialEq, Eq, Structural, Debug, Hash)]
pub enum InstructionFormat {
    Unary,
    Binary,
    Branch,
    Jump,
    Call,
    PhiNode,
}

/// The format that every instruction with opcode `op` has.
pub open spec fn spec_format(op: Opcode) -> InstructionFormat {
    match op {
        Opcode::Hypot | Opcode::Atan2 | Opcode::Iadd | Opcode::Isub | Opcode::Imul | Opcode::Idiv
        | Opcode::Irem | Opcode::Ishl | Opcode::Ishr | Opcode::Ixor | Opcode::Iand | Opcode::Ior
        | Opcode::Fadd | Opcode::Fsub | Opcode::Fmul | Opcode::Fdiv | Opcode::Frem | Opcode::Pow
        | Opcode::Ilt | Opcode::Igt | Opcode::Flt | Opcode::Fgt | Opcode::Ile | Opcode::Ige
        | Opcode::Fle | Opcode::Fge | Opcode::Ieq | Opcode::Feq | Opcode::SEq | Opcode::Beq
        | Opcode::Ine | Opcode::Fne | Opcode::Sne | Opcode::Bne => InstructionFormat::Binary,
        Opcode::Br => InstructionFormat::Branch,
        Opcode::Jmp => InstructionFormat::Jump,
        Opcode::Call => InstructionFormat::Call,
        Opcode::Phi => InstructionFormat::PhiNode,
        _ => InstructionFormat::Unary,
    }
}

/// The number of fixed value arguments an instruction of the given format takes.
pub open spec fn format_arg_count(f: InstructionFormat) -> nat {
    match f {
        InstructionFormat::Unary => 1,
        InstructionFormat::Binary => 2,
        InstructionFormat::Branch => 1,
        _ => 0,
    }
}

/// The number of fixed results an instruction of the given format produces.
pub open spec fn format_result_count(f: InstructionFormat) -> nat {
    match f {
        InstructionFormat::Unary | InstructionFormat::Binary | InstructionFormat::PhiNode => 1,
        _ => 0,
    }
}

/// Operations whose two operands can be swapped without changing the result.
pub open spec fn spec_is_commutative(op: Opcode) -> bool {
    match op {
        Opcode::Fmul | Opcode::Fadd | Opcode::Iand | Opcode::Ixor | Opcode::Ior | Opcode::Iadd
        | Opcode::Imul | Opcode::Ieq | Opcode::Feq | Opcode::Beq | Opcode::SEq | Opcode::Ine
        | Opcode::Fne | Opcode::Bne | Opcode::Sne => true,
        _ => false,
    }
}

/// Value count constraints of an opcode, packed into one byte:
/// bits 0-2 hold the number of fixed results, bits 3-5 the number of fixed value arguments.
#[derive(Copy, Clone)]
pub struct OpcodeConstraints {
    flags: u8,
}

impl OpcodeConstraints {
    /// The packed flags.
    pub closed spec fn flags(self) -> u8 {
        self.flags
    }

    /// The number of fixed results these constraints encode.
    pub open spec fn spec_num_fixed_results(self) -> nat {
        (self.flags() & 7u8) as nat
    }

    /// The number of fixed value arguments these constraints encode.
    pub open spec fn spec_num_fixed_value_arguments(self) -> nat {
        ((self.flags() >> 3u8) & 7u8) as nat
    }

    /// Pack an argument count and a result count; both must be below 8.
    pub fn new(arg_cnt: u8, ret_cnt: u8) -> (r: OpcodeConstraints)
        requires
            arg_cnt < 8,
            ret_cnt < 8,
        ensures
            r.flags() == (arg_cnt << 3u8) | ret_cnt,
            r.spec_num_fixed_results() == ret_cnt,
            r.spec_num_fixed_value_arguments() == arg_cnt,
    {
        let flags: u8 = (arg_cnt << 3u8) | ret_cnt;
        assert(flags & 7u8 == ret_cnt && (flags >> 3u8) & 7u8 == arg_cnt) by (bit_vector)
            requires
                arg_cnt < 8,
                ret_cnt < 8,
                flags == (arg_cnt << 3u8) | ret_cnt,
        ;
        OpcodeConstraints { flags }
    }

    /// The number of fixed results produced by an opcode with these constraints
    /// (not counting the variable results of calls).
    pub fn num_fixed_results(self) -> (r: usize)
        ensures
            r == self.spec_num_fixed_results(),
    {
        (self.flags & 7u8) as usize
    }

    /// The minimum number of value operands of an opcode with these constraints
    /// (not counting the variable arguments of calls).
    pub fn num_fixed_value_arguments(self) -> (r: usize)
        ensures
            r == self.spec_num_fixed_value_arguments(),
    {
        ((self.flags >> 3u8) & 7u8) as usize
    }
}

impl Opcode {
    /// Is this a control flow transfer (jump or conditional branch)?
    pub fn is_branch(self) -> (r: bool)
        ensures
            r == (self == Opcode::Jmp || self == Opcode::Br),
    {
        match self {
            Opcode::Jmp | Opcode::Br => true,
            _ => false,
        }
    }

    /// Is this a call of an external function?
    pub fn is_call(self) -> (r: bool)
        ensures
            r == (self == Opcode::Call),
    {
        match self {
            Opcode::Call => true,
            _ => false,
        }
    }

    /// Can the two operands of this operation be swapped?
    pub fn is_commutative(self) -> (r: bool)
        ensures
            r == spec_is_commutative(self),
    {
        match self {
            Opcode::Fmul | Opcode::Fadd | Opcode::Iand | Opcode::Ixor | Opcode::Ior
            | Opcode::Iadd | Opcode::Imul | Opcode::Ieq | Opcode::Feq | Opcode::Beq
            | Opcode::SEq | Opcode::Ine | Opcode::Fne | Opcode::Bne | Opcode::Sne => true,
            _ => false,
        }
    }

    /// The instruction format of this opcode.
    pub fn format(self) -> (r: InstructionFormat)
        ensures
            r == spec_format(self),
    {
        match self {
            Opcode::Hypot | Opcode::Atan2 | Opcode::Iadd | Opcode::Isub | Opcode::Imul
            | Opcode::Idiv | Opcode::Irem | Opcode::Ishl | Opcode::Ishr | Opcode::Ixor
            | Opcode::Iand | Opcode::Ior | Opcode::Fadd | Opcode::Fsub | Opcode::Fmul
            | Opcode::Fdiv | Opcode::Frem | Opcode::Pow | Opcode::Ilt | Opcode::Igt
            | Opcode::Flt | Opcode::Fgt | Opcode::Ile | Opcode::Ige | Opcode::Fle
            | Opcode::Fge | Opcode::Ieq | Opcode::Feq | Opcode::SEq | Opcode::Beq
            | Opcode::Ine | Opcode::Fne | Opcode::Sne | Opcode::Bne => InstructionFormat::Binary,
            Opcode::Br => InstructionFormat::Branch,
            Opcode::Jmp => InstructionFormat::Jump,
            Opcode::Call => InstructionFormat::Call,
            Opcode::Phi => InstructionFormat::PhiNode,
            _ => InstructionFormat::Unary,
        }
    }

    /// The value count constraints of this opcode.
    pub fn constraints(self) -> (r: OpcodeConstraints)
        ensures
            r.spec_num_fixed_value_arguments() == format_arg_count(spec_format(self)),
            r.spec_num_fixed_results() == format_result_count(spec_format(self)),
    {
        match self.format() {
            InstructionFormat::Unary => OpcodeConstraints::new(1, 1),
            InstructionFormat::Binary => OpcodeConstraints::new(2, 1),
            InstructionFormat::Branch => OpcodeConstraints::new(1, 0),
            InstructionFormat::Jump => OpcodeConstraints::new(0, 0),
            InstructionFormat::Call => OpcodeConstraints::new(0, 0),
            InstructionFormat::PhiNode => OpcodeConstraints::new(0, 1),
        }
    }
}

} // verus!

verus! {

/// The textual name of an opcode in the MIR text format.
pub open spec fn spec_name(op: Opcode) -> &'static str {
    match op {
        Opcode::Inot => "inot",
        Opcode::Bnot => "bnot",
        Opcode::Fneg => "fneg",
        Opcode::Ineg => "ineg",
        Opcode::FIcast => "ficast",
        Opcode::IFcast => "ifcast",
        Opcode::BIcast => "bicast",
        Opcode::IBcast => "ibcast",
        Opcode::FBcast => "fbcast",
        Opcode::BFcast => "bfcast",
        Opcode::OptBarrier => "optbarrier",
        Opcode::Sqrt => "sqrt",
        Opcode::Exp => "exp",
        Opcode::Ln => "ln",
        Opcode::Log => "log",
        Opcode::Clog2 => "clog2",
        Opcode::Floor => "floor",
        Opcode::Ceil => "ceil",
        Opcode::Sin => "sin",
        Opcode::Cos => "cos",
        Opcode::Tan => "tan",
        Opcode::Hypot => "hypot",
        Opcode::Asin => "asin",
        Opcode::Acos => "acos",
        Opcode::Atan => "atan",
        Opcode::Atan2 => "atan2",
        Opcode::Sinh => "sinh",
        Opcode::Cosh => "cosh",
        Opcode::Tanh => "tanh",
        Opcode::Asinh => "asinh",
        Opcode::Acosh => "acosh",
        Opcode::Atanh => "atanh",
        Opcode::Iadd => "iadd",
        Opcode::Isub => "isub",
        Opcode::Imul => "imul",
        Opcode::Idiv => "idiv",
        Opcode::Irem => "irem",
        Opcode::Ishl => "ishl",
        Opcode::Ishr => "ishr",
        Opcode::Ixor => "ixor",
        Opcode::Iand => "iand",
        Opcode::Ior => "ior",
        Opcode::Fadd => "fadd",
        Opcode::Fsub => "fsub",
        Opcode::Fmul => "fmul",
        Opcode::Fdiv => "fdiv",
        Opcode::Frem => "frem",
        Opcode::Pow => "pow",
        Opcode::Ilt => "ilt",
        Opcode::Igt => "igt",
        Opcode::Flt => "flt",
        Opcode::Fgt => "fgt",
        Opcode::Ile => "ile",
        Opcode::Ige => "ige",
        Opcode::Fle => "fle",
        Opcode::Fge => "fge",
        Opcode::Ieq => "ieq",
        Opcode::Feq => "feq",
        Opcode::SEq => "seq",
        Opcode::Beq => "beq",
        Opcode::Ine => "ine",
        Opcode::Fne => "fne",
        Opcode::Sne => "sne",
        Opcode::Bne => "bne",
        Opcode::Br => "br",
        Opcode::Jmp => "jmp",
        Opcode::Call => "call",
        Opcode::Phi => "phi",
    }
}

impl Opcode {
    /// The textual name of this opcode.
    pub fn name(self) -> (r: &'static str)
        ensures
            r == spec_name(self),
    {
        match self {
            Opcode::Inot => "inot",
            Opcode::Bnot => "bnot",
            Opcode::Fneg => "fneg",
            Opcode::Ineg => "ineg",
            Opcode::FIcast => "ficast",
            Opcode::IFcast => "ifcast",
            Opcode::BIcast => "bicast",
            Opcode::IBcast => "ibcast",
            Opcode::FBcast => "fbcast",
            Opcode::BFcast => "bfcast",
            Opcode::OptBarrier => "optbarrier",
            Opcode::Sqrt => "sqrt",
            Opcode::Exp => "exp",
            Opcode::Ln => "ln",
            Opcode::Log => "log",
            Opcode::Clog2 => "clog2",
            Opcode::Floor => "floor",
            Opcode::Ceil => "ceil",
            Opcode::Sin => "sin",
            Opcode::Cos => "cos",
            Opcode::Tan => "tan",
            Opcode::Hypot => "hypot",
            Opcode::Asin => "asin",
            Opcode::Acos => "acos",
            Opcode::Atan => "atan",
            Opcode::Atan2 => "atan2",
            Opcode::Sinh => "sinh",
            Opcode::Cosh => "cosh",
            Opcode::Tanh => "tanh",
            Opcode::Asinh => "asinh",
            Opcode::Acosh => "acosh",
            Opcode::Atanh => "atanh",
            Opcode::Iadd => "iadd",
            Opcode::Isub => "isub",
            Opcode::Imul => "imul",
            Opcode::Idiv => "idiv",
            Opcode::Irem => "irem",
            Opcode::Ishl => "ishl",
            Opcode::Ishr => "ishr",
            Opcode::Ixor => "ixor",
            Opcode::Iand => "iand",
            Opcode::Ior => "ior",
            Opcode::Fadd => "fadd",
            Opcode::Fsub => "fsub",
            Opcode::Fmul => "fmul",
            Opcode::Fdiv => "fdiv",
            Opcode::Frem => "frem",
            Opcode::Pow => "pow",
            Opcode::Ilt => "ilt",
            Opcode::Igt => "igt",
            Opcode::Flt => "flt",
            Opcode::Fgt => "fgt",
            Opcode::Ile => "ile",
            Opcode::Ige => "ige",
            Opcode::Fle => "fle",
            Opcode::Fge => "fge",
            Opcode::Ieq => "ieq",
            Opcode::Feq => "feq",
            Opcode::SEq => "seq",
            Opcode::Beq => "beq",
            Opcode::Ine => "ine",
            Opcode::Fne => "fne",
            Opcode::Sne => "sne",
            Opcode::Bne => "bne",
            Opcode::Br => "br",
            Opcode::Jmp => "jmp",
            Opcode::Call => "call",
            Opcode::Phi => "phi",
        }
    }
}

/// A phi node: for every predecessor block the position of its incoming value in `args`.
/// `blocks` is kept sorted by block number, so every predecessor occurs once.
#[derive(Clone, Debug)]
pub struct PhiNode {
    pub blocks: Vec<(Block, u32)>,
    pub args: Vec<Value>,
}

/// The instruction data of one MIR instruction.
#[derive(Clone, Debug)]
pub enum InstructionData {
    Unary { opcode: Opcode, arg: Value },
    Binary { opcode: Opcode, args: [Value; 2] },
    Branch { cond: Value, then_dst: Block, else_dst: Block, loop_entry: bool },
    Jump { destination: Block },
    Call { func_ref: FuncRef, args: Vec<Value> },
    PhiNode(PhiNode),
}

impl PhiNode {
    /// `blocks` is strictly sorted by block number and every position points into `args`.
    pub open spec fn wf(&self) -> bool {
        &&& forall|i: int, j: int|
            0 <= i < j < self.blocks@.len() ==> (#[trigger] self.blocks@[i]).0.0
                < (#[trigger] self.blocks@[j]).0.0
        &&& forall|i: int|
            0 <= i < self.blocks@.len() ==> (#[trigger] self.blocks@[i]).1 < self.args@.len()
    }

    /// The incoming edges `(predecessor, value)` ordered by predecessor.
    pub open spec fn spec_edges(&self) -> Seq<(Block, Value)> {
        self.blocks@.map_values(|e: (Block, u32)| (e.0, self.args@[e.1 as int]))
    }

    /// Return all phi edges `(predecessor, value)` in block order.
    pub fn edges(&self) -> (r: Vec<(Block, Value)>)
        requires
            self.wf(),
        ensures
            r@ == self.spec_edges(),
    {
        let mut r: Vec<(Block, Value)> = Vec::new();
        let mut i: usize = 0;
        while i < self.blocks.len()
            invariant
                self.wf(),
                i <= self.blocks@.len(),
                r@ == self.spec_edges().take(i as int),
            decreases self.blocks@.len() - i,
        {
            let (b, pos) = self.blocks[i];
            r.push((b, self.args[pos as usize]));
            proof {
                assert(self.spec_edges().take(i + 1) =~= self.spec_edges().take(i as int).push(
                    (b, self.args@[pos as int]),
                ));
            }
            i += 1;
        }
        proof {
            assert(self.spec_edges().take(i as int) =~= self.spec_edges());
        }
        r
    }

    /// The incoming value of predecessor `block`, if the phi has an edge from it.
    pub fn edge_val_of(&self, block: Block) -> (r: Option<Value>)
        requires
            self.wf(),
        ensures
            r matches Some(v) ==> self.spec_edges().contains((block, v)),
            r is None ==> forall|i: int|
                0 <= i < self.spec_edges().len() ==> (#[trigger] self.spec_edges()[i]).0 != block,
    {
        let mut i: usize = 0;
        while i < self.blocks.len()
            invariant
                self.wf(),
                i <= self.blocks@.len(),
                forall|k: int| 0 <= k < i ==> (#[trigger] self.blocks@[k]).0 != block,
            decreases self.blocks@.len() - i,
        {
            let (b, pos) = self.blocks[i];
            if b.0 == block.0 {
                proof {
                    assert(self.spec_edges()[i as int] == (block, self.args@[pos as int]));
                }
                return Some(self.args[pos as usize]);
            }
            i += 1;
        }
        None
    }

    /// The phi has an edge from `b`.
    pub open spec fn has_pred(&self, b: Block) -> bool {
        exists|i: int| 0 <= i < self.blocks@.len() && (#[trigger] self.blocks@[i]).0 == b
    }

    /// The position of the incoming value of predecessor `b` (which the phi must have).
    pub open spec fn pos_of(&self, b: Block) -> u32 {
        self.blocks@[choose|i: int| 0 <= i < self.blocks@.len() && (#[trigger] self.blocks@[i]).0 == b].1
    }

    /// The same phi with predecessor `old_pred` replaced by `new_pred`, which takes over
    /// its incoming value (and replaces an edge from `new_pred`, if there was one).
    pub fn with_pred_replaced(&self, old_pred: Block, new_pred: Block) -> (r: PhiNode)
        requires
            self.wf(),
            self.has_pred(old_pred),
        ensures
            r.wf(),
            r.args@ == self.args@,
            forall|e: (Block, u32)| #[trigger] r.blocks@.contains(e) <==> ((self.blocks@.contains(e) && e.0 != old_pred
                && e.0 != new_pred) || e == (new_pred, self.pos_of(old_pred))),
    {
        let ghost bs = self.blocks@;
        let ghost k0 = choose|i: int| 0 <= i < bs.len() && (#[trigger] bs[i]).0 == old_pred;
        let mut pos: u32 = 0;
        let mut i: usize = 0;
        while i < self.blocks.len()
            invariant
                self.wf(),
                bs == self.blocks@,
                0 <= k0 < bs.len(),
                bs[k0].0 == old_pred,
                i <= bs.len(),
                i > k0 ==> pos == bs[k0].1,
            decreases bs.len() - i,
        {
            if self.blocks[i].0.0 == old_pred.0 {
                proof {
                    if i as int != k0 {
                        assert(bs[i as int].0 != bs[k0].0) by {
                            if (i as int) < k0 {
                                assert(bs[i as int].0.0 < bs[k0].0.0);
                            } else {
                                assert(bs[k0].0.0 < bs[i as int].0.0);
                            }
                        }
                    }
                }
                pos = self.blocks[i].1;
            }
            i += 1;
        }
        let ghost p = pos;
        proof {
            assert(self.pos_of(old_pred) == p);
            assert(p < self.args@.len());
        }
        let mut out: Vec<(Block, u32)> = Vec::new();
        let mut inserted = false;
        let mut i: usize = 0;
        while i < self.blocks.len()
            invariant
                self.wf(),
                bs == self.blocks@,
                p == pos,
                p < self.args@.len(),
                i <= bs.len(),
                forall|a: int, b: int| 0 <= a < b < out@.len() ==> (#[trigger] out@[a]).0.0 < (#[trigger] out@[b]).0.0,
                forall|a: int| 0 <= a < out@.len() ==> (#[trigger] out@[a]).1 < self.args@.len(),
                i < bs.len() && out@.len() > 0 ==> out@.last().0.0 < bs[i as int].0.0,
                !inserted ==> forall|a: int| 0 <= a < out@.len() ==> (#[trigger] out@[a]).0.0 < new_pred.0,
                inserted && i < bs.len() ==> new_pred.0 < bs[i as int].0.0,
                forall|e: (Block, u32)| #[trigger] out@.contains(e) <==> ((exists|k: int| 0 <= k < i && bs[k] == e) && e.0 != old_pred && e.0 != new_pred) || (inserted && e == (new_pred, p)),
            decreases bs.len() - i,
        {
            let e = self.blocks[i];
            let ghost before = out@;
            if e.0.0 == old_pred.0 || e.0.0 == new_pred.0 {
                proof {
                    assert forall|x: (Block, u32)| #[trigger] out@.contains(x) <==> ((exists|k: int| 0 <= k < i + 1 && bs[k] == x) && x.0 != old_pred && x.0 != new_pred) || (inserted && x == (new_pred, p)) by {
                        if exists|k: int| 0 <= k < i + 1 && bs[k] == x {
                            let k = choose|k: int| 0 <= k < i + 1 && bs[k] == x;
                            if k < i {
                                assert(exists|k2: int| 0 <= k2 < i && bs[k2] == x);
                            }
                        }
                        if exists|k: int| 0 <= k < i && bs[k] == x {
                            let k = choose|k: int| 0 <= k < i && bs[k] == x;
                            assert(0 <= k < i + 1 && bs[k] == x);
                        }
                    }
                    if i + 1 < bs.len() && out@.len() > 0 {
                        assert(bs[i as int].0.0 < bs[i + 1].0.0);
                    }
                    if inserted && i + 1 < bs.len() {
                        assert(bs[i as int].0.0 < bs[i + 1].0.0);
                    }
                }
            } else {
                if !inserted && e.0.0 > new_pred.0 {
                    out.push((new_pred, pos));
                    inserted = true;
                }
                let ghost mid = out@;
                out.push(e);
                proof {
                    assert forall|x: (Block, u32)| #[trigger] out@.contains(x) <==> ((exists|k: int| 0 <= k < i + 1 && bs[k] == x) && x.0 != old_pred && x.0 != new_pred) || (inserted && x == (new_pred, p)) by {
                        if out@.contains(x) {
                            let q = out@.index_of(x);
                            if q == out@.len() - 1 {
                                assert(x == e);
                                assert(bs[i as int] == x);
                            } else {
                                assert(mid[q] == x);
                                if mid.len() > before.len() && q == mid.len() - 1 {
                                    assert(x == (new_pred, p));
                                } else {
                                    assert(before[q] == x);
                                    assert(before.contains(x));
                                    if exists|k: int| 0 <= k < i && bs[k] == x {
                                        let k = choose|k: int| 0 <= k < i && bs[k] == x;
                                        assert(0 <= k < i + 1 && bs[k] == x);
                                    }
                                }
                            }
                        }
                        if (exists|k: int| 0 <= k < i + 1 && bs[k] == x) && x.0 != old_pred && x.0 != new_pred {
                            let k = choose|k: int| 0 <= k < i + 1 && bs[k] == x;
                            if k == i {
                                assert(out@[out@.len() - 1] == x);
                            } else {
                                assert(exists|k2: int| 0 <= k2 < i && bs[k2] == x);
                                assert(before.contains(x));
                                let q = before.index_of(x);
                                assert(out@[q] == x);
                            }
                        }
                        if inserted && x == (new_pred, p) {
                            if before.contains(x) {
                                let q = before.index_of(x);
                                assert(out@[q] == x);
                            } else {
                                assert(mid[mid.len() - 1] == x);
                                assert(out@[mid.len() - 1] == x);
                            }
                        }
                    }
                    if i + 1 < bs.len() {
                        assert(bs[i as int].0.0 < bs[i + 1].0.0);
                    }
                }
            }
            i += 1;
        }
        if !inserted {
            let ghost before = out@;
            out.push((new_pred, pos));
            proof {
                assert forall|x: (Block, u32)| #[trigger] out@.contains(x) <==> ((exists|k: int| 0 <= k < i && bs[k] == x) && x.0 != old_pred && x.0 != new_pred) || x == (new_pred, p) by {
                    if out@.contains(x) {
                        let q = out@.index_of(x);
                        if q < before.len() {
                            assert(before[q] == x);
                        }
                    }
                    if before.contains(x) {
                        let q = before.index_of(x);
                        assert(out@[q] == x);
                    }
                    if x == (new_pred, p) {
                        assert(out@[before.len() as int] == x);
                    }
                }
            }
        }
        let r = PhiNode { blocks: out, args: self.args.clone() };
        proof {
            assert forall|e: (Block, u32)| #[trigger] r.blocks@.contains(e) <==> ((self.blocks@.contains(e) && e.0 != old_pred
                && e.0 != new_pred) || e == (new_pred, self.pos_of(old_pred))) by {
                if self.blocks@.contains(e) {
                    let k = self.blocks@.index_of(e);
                    assert(0 <= k < i && bs[k] == e);
                }
                if exists|k: int| 0 <= k < i && bs[k] == e {
                    let k = choose|k: int| 0 <= k < i && bs[k] == e;
                    assert(self.blocks@.contains(e));
                }
            }
        }
        r
    }

    /// Two phi nodes are equal when they have the same edges.
    pub fn eq(&self, other: &PhiNode) -> (r: bool)
        requires
            self.wf(),
            other.wf(),
        ensures
            r == (self.spec_edges() == other.spec_edges()),
    {
        let l = self.edges();
        let r = other.edges();
        if l.len() != r.len() {
            proof {
                assert(self.spec_edges().len() != other.spec_edges().len());
            }
            return false;
        }
        let mut i: usize = 0;
        while i < l.len()
            invariant
                l@ == self.spec_edges(),
                r@ == other.spec_edges(),
                l@.len() == r@.len(),
                i <= l@.len(),
                forall|k: int| 0 <= k < i ==> l@[k] == r@[k],
            decreases l@.len() - i,
        {
            if l[i].0.0 != r[i].0.0 || l[i].1.0 != r[i].1.0 {
                proof {
                    assert(l@[i as int] != r@[i as int]);
                    assert(self.spec_edges()[i as int] != other.spec_edges()[i as int]);
                }
                return false;
            }
            i += 1;
        }
        proof {
            assert(l@ =~= r@);
        }
        true
    }
}

} // verus!

verus! {

impl InstructionData {
    /// The opcode of an instruction.
    pub open spec fn spec_opcode(&self) -> Opcode {
        match self {
            InstructionData::Unary { opcode, .. } => *opcode,
            InstructionData::Binary { opcode, .. } => *opcode,
            InstructionData::Branch { .. } => Opcode::Br,
            InstructionData::Jump { .. } => Opcode::Jmp,
            InstructionData::Call { .. } => Opcode::Call,
            InstructionData::PhiNode(_) => Opcode::Phi,
        }
    }

    /// The value operands of an instruction, in operand order.
    pub open spec fn spec_arguments(&self) -> Seq<Value> {
        match self {
            InstructionData::Unary { arg, .. } => seq![*arg],
            InstructionData::Binary { args, .. } => seq![args[0], args[1]],
            InstructionData::Branch { cond, .. } => seq![*cond],
            InstructionData::Jump { .. } => Seq::empty(),
            InstructionData::Call { args, .. } => args@,
            InstructionData::PhiNode(node) => node.args@,
        }
    }

    /// Phi nodes of this instruction are well formed.
    pub open spec fn wf(&self) -> bool {
        match self {
            InstructionData::PhiNode(node) => node.wf(),
            _ => true,
        }
    }

    /// Two instructions compute the same thing: same variant, same opcode and the same
    /// operands; phi nodes are compared by their edges.
    pub open spec fn spec_eq(&self, other: &InstructionData) -> bool {
        match (self, other) {
            (
                InstructionData::Unary { opcode: lo, arg: la },
                InstructionData::Unary { opcode: ro, arg: ra },
            ) => lo == ro && la == ra,
            (
                InstructionData::Binary { opcode: lo, args: la },
                InstructionData::Binary { opcode: ro, args: ra },
            ) => lo == ro && la[0] == ra[0] && la[1] == ra[1],
            (
                InstructionData::Branch {
                    cond: lc,
                    then_dst: lt,
                    else_dst: le,
                    loop_entry: ll,
                },
                InstructionData::Branch {
                    cond: rc,
                    then_dst: rt,
                    else_dst: re,
                    loop_entry: rl,
                },
            ) => lc == rc && lt == rt && le == re && ll == rl,
            (
                InstructionData::Jump { destination: l },
                InstructionData::Jump { destination: r },
            ) => l == r,
            (
                InstructionData::Call { func_ref: lf, args: la },
                InstructionData::Call { func_ref: rf, args: ra },
            ) => lf == rf && la@ == ra@,
            (InstructionData::PhiNode(l), InstructionData::PhiNode(r)) => l.spec_edges()
                == r.spec_edges(),
            _ => false,
        }
    }

    /// Is this instruction a block terminator (branch or jump)?
    pub fn is_terminator(&self) -> (r: bool)
        ensures
            r == (self is Branch || self is Jump),
    {
        match self {
            InstructionData::Branch { .. } | InstructionData::Jump { .. } => true,
            _ => false,
        }
    }

    /// Is this instruction a phi node?
    pub fn is_phi(&self) -> (r: bool)
        ensures
            r == (self is PhiNode),
    {
        match self {
            InstructionData::PhiNode(_) => true,
            _ => false,
        }
    }

    /// Get the opcode of this instruction.
    pub fn opcode(&self) -> (r: Opcode)
        ensures
            r == self.spec_opcode(),
    {
        match self {
            InstructionData::Unary { opcode, .. } => *opcode,
            InstructionData::Binary { opcode, .. } => *opcode,
            InstructionData::Branch { .. } => Opcode::Br,
            InstructionData::Jump { .. } => Opcode::Jmp,
            InstructionData::Call { .. } => Opcode::Call,
            InstructionData::PhiNode(_) => Opcode::Phi,
        }
    }

    /// `self` and `other` differ at most in the values of their operands.
    pub open spec fn same_but_arguments(&self, other: &InstructionData) -> bool {
        match (self, other) {
            (InstructionData::Unary { opcode: a, .. }, InstructionData::Unary { opcode: b, .. }) => a == b,
            (InstructionData::Binary { opcode: a, .. }, InstructionData::Binary { opcode: b, .. }) => a == b,
            (
                InstructionData::Branch { then_dst: lt, else_dst: le, loop_entry: ll, .. },
                InstructionData::Branch { then_dst: rt, else_dst: re, loop_entry: rl, .. },
            ) => lt == rt && le == re && ll == rl,
            (InstructionData::Jump { destination: a }, InstructionData::Jump { destination: b }) => a == b,
            (
                InstructionData::Call { func_ref: a, args: x },
                InstructionData::Call { func_ref: b, args: y },
            ) => a == b && x@.len() == y@.len(),
            (InstructionData::PhiNode(n), InstructionData::PhiNode(m)) => n.blocks@ == m.blocks@
                && n.args@.len() == m.args@.len(),
            _ => false,
        }
    }

    /// Set operand `idx` to `val`.
    pub fn set_argument(&mut self, idx: usize, val: Value)
        requires
            idx < old(self).spec_arguments().len(),
        ensures
            final(self).spec_arguments() == old(self).spec_arguments().update(idx as int, val),
            final(self).same_but_arguments(&*old(self)),
            old(self).wf() ==> final(self).wf(),
    {
        match self {
            InstructionData::Unary { arg, .. } => {
                *arg = val;
            },
            InstructionData::Binary { args, .. } => {
                if idx == 0 {
                    args[0] = val;
                } else {
                    args[1] = val;
                }
            },
            InstructionData::Branch { cond, .. } => {
                *cond = val;
            },
            InstructionData::Jump { .. } => {},
            InstructionData::Call { args, .. } => {
                args.set(idx, val);
            },
            InstructionData::PhiNode(node) => {
                node.args.set(idx, val);
            },
        }
        proof {
            assert(final(self).spec_arguments() =~= old(self).spec_arguments().update(idx as int, val));
        }
    }

    /// Get the value arguments of this instruction.
    pub fn arguments(&self) -> (r: Vec<Value>)
        ensures
            r@ == self.spec_arguments(),
    {
        match self {
            InstructionData::Unary { arg, .. } => vec![*arg],
            InstructionData::Binary { args, .. } => vec![args[0], args[1]],
            InstructionData::Branch { cond, .. } => vec![*cond],
            InstructionData::Jump { .. } => Vec::new(),
            InstructionData::Call { args, .. } => args.clone(),
            InstructionData::PhiNode(node) => node.args.clone(),
        }
    }

    /// Structural comparison of two instructions (phi nodes by their edges).
    pub fn eq(&self, other: &InstructionData) -> (r: bool)
        requires
            self.wf(),
            other.wf(),
        ensures
            r == self.spec_eq(other),
    {
        match (self, other) {
            (
                InstructionData::Unary { opcode: lo, arg: la },
                InstructionData::Unary { opcode: ro, arg: ra },
            ) => *lo == *ro && la.0 == ra.0,
            (
                InstructionData::Binary { opcode: lo, args: la },
                InstructionData::Binary { opcode: ro, args: ra },
            ) => *lo == *ro && la[0].0 == ra[0].0 && la[1].0 == ra[1].0,
            (
                InstructionData::Branch {
                    cond: lc,
                    then_dst: lt,
                    else_dst: le,
                    loop_entry: ll,
                },
                InstructionData::Branch {
                    cond: rc,
                    then_dst: rt,
                    else_dst: re,
                    loop_entry: rl,
                },
            ) => lc.0 == rc.0 && lt.0 == rt.0 && le.0 == re.0 && *ll == *rl,
            (
                InstructionData::Jump { destination: l },
                InstructionData::Jump { destination: r },
            ) => l.0 == r.0,
            (
                InstructionData::Call { func_ref: lf, args: la },
                InstructionData::Call { func_ref: rf, args: ra },
            ) => {
                if lf.0 != rf.0 || la.len() != ra.len() {
                    proof {
                        if la@.len() != ra@.len() {
                            assert(la@ != ra@);
                        } else {
                            assert(*lf != *rf);
                        }
                        assert(!self.spec_eq(other));
                    }
                    return false;
                }
                let mut i: usize = 0;
                while i < la.len()
                    invariant
                        *self == (InstructionData::Call { func_ref: *lf, args: *la }),
                        *other == (InstructionData::Call { func_ref: *rf, args: *ra }),
                        la@.len() == ra@.len(),
                        i <= la@.len(),
                        forall|k: int| 0 <= k < i ==> la@[k] == ra@[k],
                    decreases la@.len() - i,
                {
                    if la[i].0 != ra[i].0 {
                        proof {
                            assert(la@[i as int] != ra@[i as int]);
                        }
                        return false;
                    }
                    i += 1;
                }
                proof {
                    assert(la@ =~= ra@);
                }
                true
            },
            (InstructionData::PhiNode(l), InstructionData::PhiNode(r)) => l.eq(r),
            _ => false,
        }
    }

    /// The phi node of this instruction, if it is one.
    pub fn as_phi(&self) -> (r: Option<&PhiNode>)
        ensures
            r matches Some(n) ==> *self == InstructionData::PhiNode(*n),
            r is None <==> !(self is PhiNode),
    {
        match self {
            InstructionData::PhiNode(node) => Some(node),
            _ => None,
        }
    }

    /// The phi node of this instruction, which must be a phi.
    pub fn unwrap_phi(&self) -> (r: &PhiNode)
        requires
            self is PhiNode,
        ensures
            *self == InstructionData::PhiNode(*r),
    {
        match self {
            InstructionData::PhiNode(node) => node,
            _ => {
                vstd::pervasive::unreached()
            },
        }
    }
}

} // verus!
