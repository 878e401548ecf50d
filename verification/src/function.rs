//! A MIR function: its data flow graph (instruction table and call signatures), its layout
//! and the source location of each instruction.
use vstd::prelude::*;

use crate::entities::{Block, FuncRef, Inst, Tag, Use, Value};
use crate::instructions::{InstructionData, PhiNode};
use crate::layout::{opt_last, Layout, LayoutView};
use crate::values::{ints_agree, DfgValues};

verus! {

/// An opaque 32-bit source location. The default (zero) stands for "no location".
#[derive(Copy, Clone, Debug, PartialEq, Eq, Structural)]
pub struct SourceLoc(i32);

impl SourceLoc {
    /// The bits of a source location.
    pub closed spec fn spec_bits(self) -> i32 {
        self.0
    }

    /// Create a source location with the given bits.
    pub fn new(bits: i32) -> (r: Self)
        ensures
            r.spec_bits() == bits,
    {
        SourceLoc(bits)
    }

    /// The default source location, which stands for "unknown".
    pub fn default_loc() -> (r: Self)
        ensures
            r.spec_bits() == 0,
    {
        SourceLoc(0)
    }

    /// Is this the default source location?
    pub fn is_default(self) -> (r: bool)
        ensures
            r == (self.spec_bits() == 0),
    {
        self.0 == 0
    }

    /// Read the bits of this source location.
    pub fn bits(self) -> (r: i32)
        ensures
            r == self.spec_bits(),
    {
        self.0
    }

    /// Negate the bits. `i32::MIN` has no negation.
    pub fn inv(&mut self)
        requires
            old(self).spec_bits() != i32::MIN,
        ensures
            final(self).spec_bits() == -old(self).spec_bits(),
    {
        self.0 = -self.0;
    }
}

/// The signature of an external function that a MIR function may call.
#[derive(Clone, Debug)]
pub struct FunctionSignature {
    pub name: String,
    pub params: u16,
    pub returns: u16,
    pub has_side_effects: bool,
}

/// The instructions of a function, the signatures of the functions it calls, and its values
/// with their uses.
pub struct DataFlowGraph {
    pub insts: Vec<InstructionData>,
    pub signatures: Vec<FunctionSignature>,
    pub values: DfgValues,
}

/// A MIR function.
pub struct Function {
    pub name: String,
    pub dfg: DataFlowGraph,
    pub layout: Layout,
    pub srclocs: Vec<SourceLoc>,
}

impl DataFlowGraph {
    /// An empty data flow graph: no instructions or signatures, only the predefined values.
    pub fn new() -> (r: Self)
        ensures
            r.insts@.len() == 0,
            r.signatures@.len() == 0,
            r.values.wf(),
            r.values@.types == DfgValues::predefined(),
            r.values@.users.len() == 0,
            r.values@.tags == Seq::new(16, |i: int| None::<Tag>),
            r.values@.lists == Seq::new(16, |i: int| Seq::<Use>::empty()),
            r.values@.consts.ints == DfgValues::predefined_ints(),
            r.values@.consts.reals == DfgValues::predefined_reals(),
            r.values@.consts.strs == Map::<u32, Value>::empty(),
            ints_agree(r.values@),
    {
        DataFlowGraph { insts: Vec::new(), signatures: Vec::new(), values: DfgValues::new() }
    }

    /// Remove all instructions, signatures, values and uses.
    pub fn clear(&mut self)
        ensures
            final(self).insts@.len() == 0,
            final(self).signatures@.len() == 0,
            final(self).values.wf(),
            final(self).values@.types.len() == 0,
            final(self).values@.users.len() == 0,
    {
        self.insts.clear();
        self.signatures.clear();
        self.values.clear();
    }

    /// The number of instructions created, whether they are in the layout or not.
    pub fn num_insts(&self) -> (r: usize)
        ensures
            r == self.insts@.len(),
    {
        self.insts.len()
    }

    /// Is `inst` an instruction of this graph?
    pub fn inst_is_valid(&self, inst: Inst) -> (r: bool)
        ensures
            r == (inst.0 < self.insts@.len()),
    {
        (inst.0 as usize) < self.insts.len()
    }

    /// The operands of `inst`.
    pub fn instr_args(&self, inst: Inst) -> (r: Vec<Value>)
        requires
            inst.0 < self.insts@.len(),
        ensures
            r@ == self.insts@[inst.0 as int].spec_arguments(),
    {
        self.insts[inst.0 as usize].arguments()
    }

    /// The condition of a branch instruction, `None` for other instructions.
    pub fn branch_cond(&self, inst: Inst) -> (r: Option<Value>)
        requires
            inst.0 < self.insts@.len(),
        ensures
            r == (match self.insts@[inst.0 as int] {
                InstructionData::Branch { cond, .. } => Some(cond),
                _ => None::<Value>,
            }),
    {
        match &self.insts[inst.0 as usize] {
            InstructionData::Branch { cond, .. } => Some(*cond),
            _ => None,
        }
    }

    /// The function called by a call instruction, `None` for other instructions.
    pub fn func_ref(&self, inst: Inst) -> (r: Option<FuncRef>)
        requires
            inst.0 < self.insts@.len(),
        ensures
            r == (match self.insts@[inst.0 as int] {
                InstructionData::Call { func_ref, .. } => Some(func_ref),
                _ => None::<FuncRef>,
            }),
    {
        match &self.insts[inst.0 as usize] {
            InstructionData::Call { func_ref, .. } => Some(*func_ref),
            _ => None,
        }
    }

    /// The signature of the function called by a call instruction.
    pub fn call_signature(&self, inst: Inst) -> (r: Option<&FunctionSignature>)
        requires
            inst.0 < self.insts@.len(),
            self.insts@[inst.0 as int] matches InstructionData::Call { func_ref, .. } ==> func_ref.0
                < self.signatures@.len(),
        ensures
            r == (match self.insts@[inst.0 as int] {
                InstructionData::Call { func_ref, .. } => Some(&self.signatures@[func_ref.0 as int]),
                _ => None::<&FunctionSignature>,
            }),
    {
        match self.func_ref(inst) {
            Some(f) => Some(&self.signatures[f.0 as usize]),
            None => None,
        }
    }

    /// Does executing `inst` have an effect besides its results? Branches count as such
    /// when `keep_branches` is set; calls when their callee has side effects.
    pub fn has_side_effects(&self, inst: Inst, keep_branches: bool) -> (r: bool)
        requires
            inst.0 < self.insts@.len(),
            self.insts@[inst.0 as int] matches InstructionData::Call { func_ref, .. } ==> func_ref.0
                < self.signatures@.len(),
        ensures
            r == (match self.insts@[inst.0 as int] {
                InstructionData::Branch { .. } | InstructionData::Jump { .. } => keep_branches,
                InstructionData::Call { func_ref, .. } => self.signatures@[func_ref.0 as int].has_side_effects,
                _ => false,
            }),
    {
        match &self.insts[inst.0 as usize] {
            InstructionData::Branch { .. } | InstructionData::Jump { .. } => keep_branches,
            InstructionData::Call { func_ref, .. } => self.signatures[func_ref.0 as usize].has_side_effects,
            _ => false,
        }
    }
}

impl Function {
    /// An empty function with an empty name.
    pub fn new() -> (r: Self)
        ensures
            r.layout.wf(),
            r.layout@.order.len() == 0,
            r.layout@.insts.len() == 0,
            r.dfg.insts@.len() == 0,
            r.dfg.signatures@.len() == 0,
            r.dfg.values.wf(),
            r.dfg.values@.types == DfgValues::predefined(),
            r.dfg.values@.users.len() == 0,
            r.dfg.values@.tags == Seq::new(16, |i: int| None::<Tag>),
            r.dfg.values@.lists == Seq::new(16, |i: int| Seq::<Use>::empty()),
            r.dfg.values@.consts.ints == DfgValues::predefined_ints(),
            r.dfg.values@.consts.reals == DfgValues::predefined_reals(),
            r.dfg.values@.consts.strs == Map::<u32, Value>::empty(),
            ints_agree(r.dfg.values@),
            r.srclocs@.len() == 0,
            r.name@.len() == 0,
    {
        Function { name: String::new(), dfg: DataFlowGraph::new(), layout: Layout::new(), srclocs: Vec::new() }
    }

    /// The same function under another name.
    pub fn with_name(self, name: String) -> (r: Self)
        ensures
            r.name == name,
            r.dfg == self.dfg,
            r.layout == self.layout,
            r.srclocs == self.srclocs,
    {
        Function { name, ..self }
    }

    /// Remove all instructions, values, blocks and source locations.
    pub fn clear(&mut self)
        ensures
            final(self).layout.wf(),
            final(self).layout@.order.len() == 0,
            final(self).layout@.insts.len() == 0,
            final(self).dfg.insts@.len() == 0,
            final(self).dfg.signatures@.len() == 0,
            final(self).dfg.values.wf(),
            final(self).dfg.values@.types.len() == 0,
            final(self).dfg.values@.users.len() == 0,
            final(self).srclocs@.len() == 0,
            final(self).name == old(self).name,
    {
        self.dfg.clear();
        self.layout.clear();
        self.srclocs.clear();
    }

    /// Declare the signature of an external function; the returned reference can be called.
    pub fn import_function(&mut self, signature: FunctionSignature) -> (r: FuncRef)
        requires
            old(self).dfg.signatures@.len() < u32::MAX,
        ensures
            r.0 == old(self).dfg.signatures@.len(),
            final(self).dfg.signatures@ == old(self).dfg.signatures@.push(signature),
            final(self).dfg.insts == old(self).dfg.insts,
            final(self).layout == old(self).layout,
            final(self).srclocs == old(self).srclocs,
            final(self).name == old(self).name,
    {
        let r = FuncRef(self.dfg.signatures.len() as u32);
        self.dfg.signatures.push(signature);
        r
    }
}

/// The number of phi instructions at the start of the instruction list `s`.
pub open spec fn phi_run(insts: Seq<InstructionData>, s: Seq<Inst>) -> nat
    decreases s.len(),
{
    if s.len() == 0 {
        0
    } else if 0 <= s[0].0 < insts.len() && insts[s[0].0 as int] is PhiNode {
        1 + phi_run(insts, s.drop_first())
    } else {
        0
    }
}

/// `r` is the phi `n` with predecessor `old_pred` replaced by `new_pred`.
pub open spec fn pred_replaced(n: PhiNode, r: PhiNode, old_pred: Block, new_pred: Block) -> bool {
    &&& r.wf()
    &&& r.args@ == n.args@
    &&& forall|e: (Block, u32)| #[trigger] r.blocks@.contains(e) <==> ((n.blocks@.contains(e) && e.0 != old_pred
        && e.0 != new_pred) || e == (new_pred, n.pos_of(old_pred)))
}

/// `d` is a well formed phi with an edge from `old_pred`.
pub open spec fn phi_has_pred(d: InstructionData, old_pred: Block) -> bool {
    match d {
        InstructionData::PhiNode(n) => n.wf() && n.has_pred(old_pred),
        _ => false,
    }
}

/// `b` is the phi `a` with predecessor `old_pred` replaced by `new_pred`.
pub open spec fn phi_replaced(a: InstructionData, b: InstructionData, old_pred: Block, new_pred: Block) -> bool {
    match (a, b) {
        (InstructionData::PhiNode(n), InstructionData::PhiNode(r)) => pred_replaced(n, r, old_pred, new_pred),
        _ => false,
    }
}

/// The leading phis of the instruction list `s` are well formed and have an edge from
/// `old_pred`, and `s` lists distinct instructions of the table.
pub open spec fn phis_have_pred(insts: Seq<InstructionData>, s: Seq<Inst>, old_pred: Block) -> bool {
    &&& s.no_duplicates()
    &&& forall|j: int| 0 <= j < s.len() ==> (#[trigger] s[j]).0 < insts.len()
    &&& forall|j: int|
        0 <= j < phi_run(insts, s) ==> phi_has_pred(#[trigger] insts[s[j].0 as int], old_pred)
}

/// `after` is `before` with the leading phis of `s` updated from `old_pred` to `new_pred`.
pub open spec fn phis_updated(
    before: Seq<InstructionData>,
    after: Seq<InstructionData>,
    s: Seq<Inst>,
    old_pred: Block,
    new_pred: Block,
) -> bool {
    &&& after.len() == before.len()
    &&& forall|k: int|
        0 <= k < before.len() ==> if exists|j: int| 0 <= j < phi_run(before, s) && s[j].0 == k {
            phi_replaced(before[k], #[trigger] after[k], old_pred, new_pred)
        } else {
            after[k] == before[k]
        }
}

proof fn lemma_phi_run_bound(insts: Seq<InstructionData>, s: Seq<Inst>)
    ensures
        phi_run(insts, s) <= s.len(),
        forall|j: int| 0 <= j < phi_run(insts, s) ==> 0 <= (#[trigger] s[j]).0 < insts.len() && insts[s[j].0 as int] is PhiNode,
        phi_run(insts, s) < s.len() ==> !(0 <= s[phi_run(insts, s) as int].0 < insts.len() && insts[s[phi_run(insts, s) as int].0 as int] is PhiNode),
    decreases s.len(),
{
    if s.len() > 0 && 0 <= s[0].0 < insts.len() && insts[s[0].0 as int] is PhiNode {
        let t = s.drop_first();
        lemma_phi_run_bound(insts, t);
        assert forall|j: int| 0 <= j < phi_run(insts, s) implies 0 <= (#[trigger] s[j]).0 < insts.len() && insts[s[j].0 as int] is PhiNode by {
            if j > 0 {
                assert(s[j] == t[j - 1]);
            }
        }
        if phi_run(insts, s) < s.len() {
            assert(s[phi_run(insts, s) as int] == t[phi_run(insts, t) as int]);
        }
    }
}

/// The leading phis of the list stay phis when only phis of the table are replaced by phis.
proof fn lemma_phi_run_stable(a: Seq<InstructionData>, b: Seq<InstructionData>, s: Seq<Inst>)
    requires
        a.len() == b.len(),
        forall|k: int| 0 <= k < a.len() ==> ((#[trigger] a[k]) is PhiNode <==> b[k] is PhiNode),
    ensures
        phi_run(a, s) == phi_run(b, s),
    decreases s.len(),
{
    if s.len() > 0 {
        lemma_phi_run_stable(a, b, s.drop_first());
        if 0 <= s[0].0 < a.len() {
            assert(a[s[0].0 as int] is PhiNode <==> b[s[0].0 as int] is PhiNode);
        }
    }
}

impl Function {
    /// In every phi at the start of block `bb`, make predecessor `old_pred` into `new_pred`.
    /// Each of these phis must have an edge from `old_pred`.
    pub fn update_phi_edges(&mut self, bb: Block, old_pred: Block, new_pred: Block)
        requires
            old(self).layout.wf(),
            old(self).layout@.has_block(bb),
            phis_have_pred(old(self).dfg.insts@, old(self).layout@.block_insts(bb), old_pred),
        ensures
            phis_updated(old(self).dfg.insts@, final(self).dfg.insts@, old(self).layout@.block_insts(bb), old_pred, new_pred),
            final(self).dfg.signatures == old(self).dfg.signatures,
            final(self).dfg.values == old(self).dfg.values,
            final(self).layout == old(self).layout,
            final(self).srclocs == old(self).srclocs,
            final(self).name == old(self).name,
    {
        let ghost orig = self.dfg.insts@;
        let insts = self.layout.block_insts(bb);
        let ghost s = insts@;
        proof {
            lemma_phi_run_bound(orig, s);
        }
        // the number of phis at the start of the block
        let mut m: usize = 0;
        while m < insts.len() && self.dfg.insts[insts[m].0 as usize].is_phi()
            invariant
                orig == self.dfg.insts@,
                s == insts@,
                phis_have_pred(orig, s, old_pred),
                m <= phi_run(orig, s),
                phi_run(orig, s) <= s.len(),
                forall|j: int| 0 <= j < phi_run(orig, s) ==> 0 <= (#[trigger] s[j]).0 < orig.len() && orig[s[j].0 as int] is PhiNode,
                phi_run(orig, s) < s.len() ==> !(0 <= s[phi_run(orig, s) as int].0 < orig.len() && orig[s[phi_run(orig, s) as int].0 as int] is PhiNode),
            decreases s.len() - m,
        {
            m += 1;
        }
        let mut j: usize = 0;
        while j < m
            invariant
                m == phi_run(orig, s),
                s == insts@,
                m <= s.len(),
                j <= m,
                phis_have_pred(orig, s, old_pred),
                self.dfg.insts@.len() == orig.len(),
                forall|k: int|
                    0 <= k < orig.len() ==> if exists|q: int| 0 <= q < j && s[q].0 == k {
                        phi_replaced(orig[k], #[trigger] self.dfg.insts@[k], old_pred, new_pred)
                    } else {
                        self.dfg.insts@[k] == orig[k]
                    },
                self.dfg.signatures == old(self).dfg.signatures,
                self.dfg.values == old(self).dfg.values,
                self.layout == old(self).layout,
                self.srclocs == old(self).srclocs,
                self.name == old(self).name,
            decreases m - j,
        {
            let k = insts[j].0 as usize;
            proof {
                assert(s[j as int].0 < orig.len());
                assert(!(exists|q: int| 0 <= q < j && s[q].0 == k)) by {
                    if exists|q: int| 0 <= q < j && s[q].0 == k {
                        let q = choose|q: int| 0 <= q < j && s[q].0 == k;
                        assert(s[q] == s[j as int]);
                    }
                }
                assert(self.dfg.insts@[k as int] == orig[k as int]);
            }
            let node = self.dfg.insts[k].unwrap_phi().with_pred_replaced(old_pred, new_pred);
            self.dfg.insts.set(k, InstructionData::PhiNode(node));
            proof {
                assert forall|x: int|
                    0 <= x < orig.len() implies if exists|q: int| 0 <= q < j + 1 && s[q].0 == x {
                        phi_replaced(orig[x], #[trigger] self.dfg.insts@[x], old_pred, new_pred)
                    } else {
                        self.dfg.insts@[x] == orig[x]
                    } by {
                    if x == k {
                        assert(0 <= j < j + 1 && s[j as int].0 == x);
                    } else {
                        if exists|q: int| 0 <= q < j + 1 && s[q].0 == x {
                            let q = choose|q: int| 0 <= q < j + 1 && s[q].0 == x;
                            assert(q != j);
                            assert(exists|q2: int| 0 <= q2 < j && s[q2].0 == x);
                        }
                        if exists|q: int| 0 <= q < j && s[q].0 == x {
                            let q = choose|q: int| 0 <= q < j && s[q].0 == x;
                            assert(0 <= q < j + 1 && s[q].0 == x);
                        }
                    }
                }
            }
            j += 1;
        }
    }
}

/// The layout after splitting the block of `before` at `before`, the tail going to `new_block`.
pub open spec fn split_layout(l: LayoutView, new_block: Block, before: Inst) -> LayoutView {
    let ob = l.block_of(before).unwrap();
    let s = l.block_insts(ob);
    let j = s.index_of(before);
    LayoutView {
        order: l.order.insert(l.order.index_of(ob) + 1, new_block),
        insts: l.insts.update(ob.0 as int, s.take(j)).update(new_block.0 as int, s.skip(j)),
        inst_slots: l.inst_slots,
    }
}

/// Splitting may redirect the phi edges of the jump targets of the terminator (in the
/// split layout `l2`) from `ob` to the new block: the phis there have an edge from `ob`,
/// and a branch to one block twice finds no phi there.
pub open spec fn split_phis_ok(insts: Seq<InstructionData>, l2: LayoutView, new_block: Block, ob: Block) -> bool {
    match opt_last(l2.block_insts(new_block)) {
        Some(t) => 0 <= t.0 < insts.len() && match insts[t.0 as int] {
            InstructionData::Jump { destination } => l2.has_block(destination) && phis_have_pred(
                insts,
                l2.block_insts(destination),
                ob,
            ),
            InstructionData::Branch { then_dst, else_dst, .. } => {
                &&& l2.has_block(then_dst)
                &&& l2.has_block(else_dst)
                &&& phis_have_pred(insts, l2.block_insts(then_dst), ob)
                &&& phis_have_pred(insts, l2.block_insts(else_dst), ob)
                &&& then_dst == else_dst ==> phi_run(insts, l2.block_insts(then_dst)) == 0
            },
            _ => true,
        },
        None => true,
    }
}

/// The instruction table after splitting: the phis of the terminator's jump targets
/// (in the split layout `l2`) redirected from `ob` to the new block.
pub open spec fn split_insts(
    before: Seq<InstructionData>,
    after: Seq<InstructionData>,
    l2: LayoutView,
    new_block: Block,
    ob: Block,
) -> bool {
    match opt_last(l2.block_insts(new_block)) {
        Some(t) => match before[t.0 as int] {
            InstructionData::Jump { destination } => phis_updated(before, after, l2.block_insts(destination), ob, new_block),
            InstructionData::Branch { then_dst, else_dst, .. } => exists|mid: Seq<InstructionData>|
                phis_updated(before, mid, l2.block_insts(then_dst), ob, new_block) && phis_updated(
                    mid,
                    after,
                    l2.block_insts(else_dst),
                    ob,
                    new_block,
                ),
            _ => after == before,
        },
        None => after == before,
    }
}

impl Function {
    /// Split the block of `before` in two: the old block keeps the instructions before
    /// `before`, and `new_block` (not yet in the layout) is placed after it and takes
    /// `before` and the rest. The phis of the blocks the moved terminator jumps to now
    /// name `new_block` as their predecessor.
    pub fn split_block(&mut self, new_block: Block, before: Inst)
        requires
            old(self).layout.wf(),
            old(self).layout@.inst_inserted(before),
            old(self).layout@.has_block(new_block),
            !old(self).layout@.is_inserted(new_block),
            split_phis_ok(
                old(self).dfg.insts@,
                split_layout(old(self).layout@, new_block, before),
                new_block,
                old(self).layout@.block_of(before).unwrap(),
            ),
        ensures
            final(self).layout.wf(),
            final(self).layout@ == split_layout(old(self).layout@, new_block, before),
            split_insts(
                old(self).dfg.insts@,
                final(self).dfg.insts@,
                final(self).layout@,
                new_block,
                old(self).layout@.block_of(before).unwrap(),
            ),
            final(self).dfg.signatures == old(self).dfg.signatures,
            final(self).dfg.values == old(self).dfg.values,
            final(self).srclocs == old(self).srclocs,
            final(self).name == old(self).name,
    {
        let ghost orig = self.dfg.insts@;
        let old_block = self.layout.inst_block(before).unwrap();
        self.layout.split_block(new_block, before);
        let ghost l2 = self.layout@;
        proof {
            self.layout.lemma_valid();
        }
        if let Some(term) = self.layout.block_terminator(new_block) {
            match &self.dfg.insts[term.0 as usize] {
                InstructionData::Jump { destination } => {
                    let d = *destination;
                    self.update_phi_edges(d, old_block, new_block);
                },
                InstructionData::Branch { then_dst, else_dst, .. } => {
                    let t = *then_dst;
                    let e = *else_dst;
                    self.update_phi_edges(t, old_block, new_block);
                    let ghost mid = self.dfg.insts@;
                    proof {
                        let st = l2.block_insts(t);
                        let se = l2.block_insts(e);
                        assert forall|k: int| 0 <= k < orig.len() implies ((#[trigger] orig[k]) is PhiNode <==> mid[k] is PhiNode) by {
                            if exists|j: int| 0 <= j < phi_run(orig, st) && st[j].0 == k {
                                lemma_phi_run_bound(orig, st);
                            }
                        }
                        lemma_phi_run_stable(orig, mid, se);
                        if t != e {
                            assert forall|j: int| 0 <= j < phi_run(mid, se) implies phi_has_pred(#[trigger] mid[se[j].0 as int], old_block) by {
                                lemma_phi_run_bound(orig, se);
                                assert(phi_has_pred(orig[se[j].0 as int], old_block));
                                if exists|q: int| 0 <= q < phi_run(orig, st) && st[q].0 == se[j].0 {
                                    let q = choose|q: int| 0 <= q < phi_run(orig, st) && st[q].0 == se[j].0;
                                    lemma_phi_run_bound(orig, st);
                                    assert(st[q] == se[j]);
                                    assert(l2.insts[t.0 as int].contains(se[j]));
                                    assert(l2.insts[e.0 as int].contains(se[j]));
                                }
                            }
                        }
                    }
                    self.update_phi_edges(e, old_block, new_block);
                },
                _ => {},
            }
        }
    }
}

} // verus!
