//! The liveness analysis of aggressive dead code elimination, which takes control flow into
//! account: an instruction is dead until it is shown to be live. An instruction is live when
//! it is marked so; the instructions that define the operands of a live instruction are
//! live; a block is live when it holds a live instruction, and then its jump is live; the
//! branches that decide whether a live block (or a predecessor of a block with a live phi)
//! executes are live: those found through the post-dominance frontiers.
use vstd::prelude::*;

use crate::cfg::{is_pred, terminators_valid, ControlFlowGraph};
use crate::entities::{Block, Inst, Value};
use crate::function::Function;
use crate::instructions::InstructionData;
use crate::layout::opt_last;
use crate::values::{spec_def, ValueDef};

verus! {

/// The instruction that defines `a`, if `a` is an instruction result.
pub open spec fn def_inst(f: &Function, a: Value) -> Option<Inst> {
    match spec_def(f.dfg.values@.types[a.0 as int]) {
        ValueDef::Result(d, _) => Some(d),
        _ => None,
    }
}

/// The last instruction of block `b`.
pub open spec fn last_of(f: &Function, b: int) -> Option<Inst> {
    opt_last(f.layout@.insts[b])
}

/// The last instruction of block `b` is a branch.
pub open spec fn ends_in_branch(f: &Function, b: int) -> bool {
    last_of(f, b) matches Some(t) && f.dfg.insts@[t.0 as int] is Branch
}

/// The last instruction of block `b` is a jump.
pub open spec fn ends_in_jump(f: &Function, b: int) -> bool {
    last_of(f, b) matches Some(t) && f.dfg.insts@[t.0 as int] is Jump
}

/// The number of `false` entries.
pub open spec fn count_false(s: Seq<bool>) -> nat
    decreases s.len(),
{
    if s.len() == 0 {
        0
    } else {
        count_false(s.drop_last()) + if s.last() { 0nat } else { 1nat }
    }
}

/// Setting a `false` entry to `true` removes one `false` entry.
pub proof fn lemma_count_false_set(s: Seq<bool>, i: int)
    requires
        0 <= i < s.len(),
        !s[i],
    ensures
        count_false(s.update(i, true)) + 1 == count_false(s),
    decreases s.len(),
{
    if i < s.len() - 1 {
        lemma_count_false_set(s.drop_last(), i);
        assert(s.update(i, true).drop_last() =~= s.drop_last().update(i, true));
    } else {
        assert(s.update(i, true).drop_last() =~= s.drop_last());
    }
}

/// A function, its control flow graph and its post-dominance frontiers fit together: the
/// tables agree in size, every placed instruction has an entry in the instruction table,
/// the operands of a placed instruction are values of the function whose defining
/// instructions are placed, and the branches at the end of blocks lead to blocks of the
/// function.
pub open spec fn analysis_ready(f: &Function, cfg: &ControlFlowGraph, pdf: Seq<Vec<bool>>) -> bool {
    let n = f.layout@.num_blocks();
    &&& f.layout.wf()
    &&& cfg.wf()
    &&& f.dfg.values.wf()
    &&& cfg@.len() == n
    &&& n < u32::MAX
    &&& f.dfg.insts@.len() < u32::MAX
    &&& pdf.len() == n
    &&& forall|b: int| 0 <= b < n ==> (#[trigger] pdf[b])@.len() == n
    &&& forall|b: int, j: int|
        0 <= b < n && 0 <= j < f.layout@.insts[b].len() ==> (#[trigger] f.layout@.insts[b][j]).0 < f.dfg.insts@.len()
    &&& forall|i: Inst|
        #[trigger] f.layout@.block_of(i) is Some ==> forall|j: int|
            0 <= j < f.dfg.insts@[i.0 as int].spec_arguments().len() ==> (#[trigger] f.dfg.insts@[i.0 as int].spec_arguments()[j]).0
                < f.dfg.values@.types.len() && (def_inst(f, f.dfg.insts@[i.0 as int].spec_arguments()[j]) matches Some(d)
                ==> f.layout@.block_of(d) is Some)
    &&& forall|b: int|
        0 <= b < n ==> (#[trigger] last_of(f, b) matches Some(t) && f.dfg.insts@[t.0 as int] matches InstructionData::Branch {
            then_dst,
            else_dst,
            ..
        } ==> then_dst.0 < n && else_dst.0 < n)
}

/// Every branch that decides whether block `b` executes (by the post-dominance frontier of
/// `b`) is live.
pub open spec fn deciders_live(f: &Function, pdf: Seq<Vec<bool>>, live: Seq<bool>, b: int) -> bool {
    forall|d: int| 0 <= d < pdf[b]@.len() && #[trigger] pdf[b]@[d] && ends_in_branch(f, d) ==> live[last_of(f, d).unwrap().0 as int]
}

/// The liveness marks are closed under the rules of the analysis, except the rules for the
/// block `entry` marked live at the start.
pub open spec fn liveness_closed(
    f: &Function,
    cfg: &ControlFlowGraph,
    pdf: Seq<Vec<bool>>,
    entry: Block,
    live_insts: Seq<bool>,
    live_blocks: Seq<bool>,
) -> bool {
    &&& forall|i: int|
        0 <= i < live_insts.len() && #[trigger] live_insts[i] ==> (f.layout@.block_of(Inst(i as u32)) matches Some(b)
            && live_blocks[b.0 as int])
    &&& forall|i: int, j: int|
        0 <= i < live_insts.len() && live_insts[i] && 0 <= j < f.dfg.insts@[i].spec_arguments().len() ==> (def_inst(
            f,
            #[trigger] f.dfg.insts@[i].spec_arguments()[j],
        ) matches Some(d) ==> live_insts[d.0 as int])
    &&& forall|i: int, p: Block|
        0 <= i < live_insts.len() && live_insts[i] && f.dfg.insts@[i] is PhiNode && #[trigger] is_pred(
            cfg@,
            p,
            f.layout@.block_of(Inst(i as u32)).unwrap(),
        ) ==> deciders_live(f, pdf, live_insts, p.0 as int)
    &&& forall|b: int|
        0 <= b < live_blocks.len() && #[trigger] live_blocks[b] && b != entry.0 ==> deciders_live(f, pdf, live_insts, b) && (
        ends_in_jump(f, b) ==> live_insts[last_of(f, b).unwrap().0 as int])
}

/// A live branch that ends a block makes both its destinations live.
pub open spec fn branch_targets_live(f: &Function, live_insts: Seq<bool>, live_blocks: Seq<bool>) -> bool {
    forall|b: int|
        0 <= b < f.layout@.num_blocks() ==> (#[trigger] last_of(f, b) matches Some(t)
            && f.dfg.insts@[t.0 as int] matches InstructionData::Branch { then_dst, else_dst, .. } ==> (live_insts[t.0 as int]
            ==> live_blocks[then_dst.0 as int] && live_blocks[else_dst.0 as int]))
}

/// No value of `f` is the result of a branch.
pub open spec fn no_branch_results(f: &Function) -> bool {
    forall|v: Value| #[trigger] def_inst(f, v) matches Some(d) ==> !(f.dfg.insts@[d.0 as int] is Branch)
}

/// A marking of the instructions and blocks of `f` that is closed under every rule of the
/// analysis: those of `liveness_closed`, and that a live branch makes its destinations live.
pub open spec fn closed_marking(
    f: &Function,
    cfg: &ControlFlowGraph,
    pdf: Seq<Vec<bool>>,
    entry: Block,
    live_insts: Seq<bool>,
    live_blocks: Seq<bool>,
) -> bool {
    &&& live_insts.len() == f.dfg.insts@.len()
    &&& live_blocks.len() == f.layout@.num_blocks()
    &&& liveness_closed(f, cfg, pdf, entry, live_insts, live_blocks)
    &&& branch_targets_live(f, live_insts, live_blocks)
}

/// The state of the analysis: the live instructions and blocks, the blocks whose phis have
/// live predecessors, the blocks whose deciding branches must be live, and the work lists of
/// instructions and blocks whose consequences are still to be drawn.
pub struct AggressiveDeadCode<'a> {
    live_insts: Vec<bool>,
    live_blocks: Vec<bool>,
    live_predecessors: Vec<bool>,
    live_control_flow: Vec<bool>,
    inst_work_list: Vec<Inst>,
    bb_work_list: Vec<Block>,
    func: &'a Function,
    cfg: &'a ControlFlowGraph,
    pdf: &'a Vec<Vec<bool>>,
    entry: Ghost<Block>,
    pending_inst: Ghost<Option<Inst>>,
    pending_block: Ghost<Option<Block>>,
}

impl<'a> AggressiveDeadCode<'a> {
    /// The function analysed.
    pub closed spec fn spec_func(&self) -> &'a Function {
        self.func
    }

    /// Its control flow graph.
    pub closed spec fn spec_cfg(&self) -> &'a ControlFlowGraph {
        self.cfg
    }

    /// Its post-dominance frontiers.
    pub closed spec fn spec_pdf(&self) -> Seq<Vec<bool>> {
        self.pdf@
    }

    /// The block marked live at the start.
    pub closed spec fn spec_entry(&self) -> Block {
        self.entry@
    }

    /// The instructions marked live.
    pub closed spec fn spec_live_insts(&self) -> Seq<bool> {
        self.live_insts@
    }

    /// The blocks marked live.
    pub closed spec fn spec_live_blocks(&self) -> Seq<bool> {
        self.live_blocks@
    }

    /// The sum that every step of the analysis decreases.
    pub closed spec fn measure(&self) -> nat {
        2 * count_false(self.live_insts@) + 2 * count_false(self.live_control_flow@) + self.inst_work_list@.len()
            + self.bb_work_list@.len()
    }

    /// The marks are closed under the rules, but for the instructions and blocks on the
    /// work lists and the given exceptions.
    spec fn inv_core(&self, fresh: Option<Inst>, fresh_phi: Option<Inst>) -> bool {
        let f = self.func;
        let n = f.layout@.num_blocks();
        let m = f.dfg.insts@.len();
        &&& analysis_ready(f, self.cfg, self.pdf@)
        &&& self.live_insts@.len() == m
        &&& self.live_blocks@.len() == n
        &&& self.live_predecessors@.len() == n
        &&& self.live_control_flow@.len() == n
        &&& self.entry@.0 < n
        &&& self.live_blocks@[self.entry@.0 as int]
        &&& forall|i: int|
            0 <= i < m && #[trigger] self.live_insts@[i] ==> (f.layout@.block_of(Inst(i as u32)) matches Some(b)
                && (self.live_blocks@[b.0 as int] || fresh == Some(Inst(i as u32))))
        &&& forall|i: int, j: int|
            0 <= i < m && self.live_insts@[i] && !self.inst_work_list@.contains(Inst(i as u32)) && self.pending_inst@ != Some(
                Inst(i as u32),
            ) && 0 <= j < f.dfg.insts@[i].spec_arguments().len() ==> (def_inst(
                f,
                #[trigger] f.dfg.insts@[i].spec_arguments()[j],
            ) matches Some(d) ==> self.live_insts@[d.0 as int])
        &&& forall|i: int|
            0 <= i < m && #[trigger] self.live_insts@[i] && f.dfg.insts@[i] is PhiNode && fresh_phi != Some(Inst(i as u32))
                ==> self.live_predecessors@[f.layout@.block_of(Inst(i as u32)).unwrap().0 as int]
        &&& forall|b: int, p: Block|
            0 <= b < n && #[trigger] self.live_predecessors@[b] && #[trigger] is_pred(self.cfg@, p, Block(b as u32))
                ==> self.live_control_flow@[p.0 as int]
        &&& forall|b: int|
            0 <= b < n && #[trigger] self.live_blocks@[b] && b != self.entry@.0 ==> self.live_control_flow@[b] && (
            ends_in_jump(f, b) ==> self.live_insts@[last_of(f, b).unwrap().0 as int])
        &&& forall|b: int|
            0 <= b < n && #[trigger] self.live_control_flow@[b] && !self.bb_work_list@.contains(Block(b as u32))
                && self.pending_block@ != Some(Block(b as u32)) ==> deciders_live(f, self.pdf@, self.live_insts@, b)
        &&& forall|k: int|
            0 <= k < self.inst_work_list@.len() ==> (#[trigger] self.inst_work_list@[k]).0 < m
                && self.live_insts@[self.inst_work_list@[k].0 as int]
        &&& forall|k: int|
            0 <= k < self.bb_work_list@.len() ==> (#[trigger] self.bb_work_list@[k]).0 < n
                && self.live_control_flow@[self.bb_work_list@[k].0 as int]
    }

    /// Each block whose deciding branches are wanted is a live block other than the entry or
    /// a predecessor of a block with live phis, and each block with live phis holds a live phi.
    spec fn justified(&self) -> bool {
        let n = self.func.layout@.num_blocks();
        let m = self.func.dfg.insts@.len();
        &&& forall|b: int|
            0 <= b < n && #[trigger] self.live_control_flow@[b] ==> (self.live_blocks@[b] && b != self.entry@.0) || exists|
                c: int,
            |
                0 <= c < n && #[trigger] self.live_predecessors@[c] && is_pred(self.cfg@, Block(b as u32), Block(c as u32))
        &&& forall|c: int|
            0 <= c < n && #[trigger] self.live_predecessors@[c] ==> exists|i: int|
                0 <= i < m && #[trigger] self.live_insts@[i] && self.func.dfg.insts@[i] is PhiNode
                    && self.func.layout@.block_of(Inst(i as u32)) == Some(Block(c as u32))
    }

    /// The marks are closed under the rules, but for the work lists and the instruction and
    /// block whose consequences are being drawn.
    pub closed spec fn inv(&self) -> bool {
        &&& self.inv_core(None, None)
        &&& self.justified()
    }

    /// Every marking closed under the rules that holds the marks of `s0` holds the marks of
    /// `self`.
    spec fn below(&self, s0: &Self) -> bool {
        forall|l: Seq<bool>, bl: Seq<bool>|
            #[trigger] closed_marking(s0.func, s0.cfg, s0.pdf@, s0.entry@, l, bl) && s0.marks_within(l, bl)
                ==> self.marks_within(l, bl)
    }

    /// The marks lie within the given marking.
    pub closed spec fn marks_within(&self, live_insts: Seq<bool>, live_blocks: Seq<bool>) -> bool {
        &&& forall|i: int| 0 <= i < self.live_insts@.len() && #[trigger] self.live_insts@[i] ==> live_insts[i]
        &&& forall|b: int| 0 <= b < self.live_blocks@.len() && #[trigger] self.live_blocks@[b] ==> live_blocks[b]
    }

    /// The instruction and block whose consequences are being drawn.
    pub closed spec fn spec_pending(&self) -> (Option<Inst>, Option<Block>) {
        (self.pending_inst@, self.pending_block@)
    }

    /// No consequences are being drawn.
    pub closed spec fn settled(&self) -> bool {
        &&& self.pending_inst@ is None
        &&& self.pending_block@ is None
    }

    /// Marks only grow; the function and its graphs stay.
    pub closed spec fn grows(&self, old: &Self) -> bool {
        &&& self.func == old.func
        &&& self.cfg == old.cfg
        &&& self.pdf == old.pdf
        &&& self.entry == old.entry
        &&& self.live_insts@.len() == old.live_insts@.len()
        &&& self.live_blocks@.len() == old.live_blocks@.len()
        &&& self.live_predecessors@.len() == old.live_predecessors@.len()
        &&& self.live_control_flow@.len() == old.live_control_flow@.len()
        &&& forall|i: int| 0 <= i < old.live_insts@.len() && #[trigger] old.live_insts@[i] ==> self.live_insts@[i]
        &&& forall|b: int| 0 <= b < old.live_blocks@.len() && #[trigger] old.live_blocks@[b] ==> self.live_blocks@[b]
        &&& forall|b: int|
            0 <= b < old.live_predecessors@.len() && #[trigger] old.live_predecessors@[b] ==> self.live_predecessors@[b]
        &&& forall|b: int|
            0 <= b < old.live_control_flow@.len() && #[trigger] old.live_control_flow@[b] ==> self.live_control_flow@[b]
    }

    /// The analysis of `func` with no instruction marked live and the entry block marked live.
    pub fn new(func: &'a Function, cfg: &'a ControlFlowGraph, pdf: &'a Vec<Vec<bool>>) -> (r: Self)
        requires
            analysis_ready(func, cfg, pdf@),
            func.layout@.order.len() > 0,
        ensures
            r.inv(),
            r.settled(),
            r.spec_func() == func,
            r.spec_cfg() == cfg,
            r.spec_pdf() == pdf@,
            r.spec_entry() == func.layout@.order[0],
            r.spec_live_insts() == Seq::new(func.dfg.insts@.len(), |i: int| false),
            r.spec_live_blocks() == Seq::new(func.layout@.num_blocks(), |b: int| b == func.layout@.order[0].0),
    {
        let n = func.layout.num_blocks();
        let m = func.dfg.num_insts();
        let entry = func.layout.entry_block().unwrap();
        proof {
            func.layout.lemma_valid();
        }
        let mut live_blocks = vec_of(false, n);
        live_blocks.set(entry.0 as usize, true);
        let r = AggressiveDeadCode {
            live_insts: vec_of(false, m),
            live_blocks,
            live_predecessors: vec_of(false, n),
            live_control_flow: vec_of(false, n),
            inst_work_list: Vec::new(),
            bb_work_list: Vec::new(),
            func,
            cfg,
            pdf,
            entry: Ghost(entry),
            pending_inst: Ghost(None),
            pending_block: Ghost(None),
        };
        proof {
            assert(r.live_blocks@ =~= Seq::new(func.layout@.num_blocks(), |b: int| b == func.layout@.order[0].0));
            assert(r.live_insts@ =~= Seq::new(func.dfg.insts@.len(), |i: int| false));
            assert forall|b: int| 0 <= b < n && #[trigger] r.live_blocks@[b] && b != r.entry@.0 implies false by {}
        }
        r
    }

    /// Mark block `bb` live; a block newly live needs its deciding branches, and its jump is
    /// live.
    fn mark_bb_live(&mut self, bb: Block, Ghost(fresh): Ghost<Option<Inst>>)
        requires
            old(self).inv_core(fresh, fresh),
            old(self).justified(),
            bb.0 < old(self).func.layout@.num_blocks(),
            fresh matches Some(i) ==> old(self).func.layout@.block_of(i) == Some(bb),
        ensures
            final(self).inv_core(None, fresh),
            final(self).justified(),
            forall|l: Seq<bool>, bl: Seq<bool>|
                #[trigger] closed_marking(old(self).func, old(self).cfg, old(self).pdf@, old(self).entry@, l, bl)
                    && old(self).marks_within(l, bl) && bl[bb.0 as int] ==> final(self).marks_within(l, bl),
            final(self).grows(&*old(self)),
            final(self).spec_pending() == old(self).spec_pending(),
            final(self).live_blocks@[bb.0 as int],
            final(self).measure() <= old(self).measure(),
            final(self).inst_work_list@ == old(self).inst_work_list@,
            forall|i: int|
                0 <= i < old(self).live_insts@.len() && #[trigger] final(self).live_insts@[i] && !old(self).live_insts@[i]
                    ==> old(self).func.dfg.insts@[i] is Jump,
    {
        let b = bb.0 as usize;
        if !self.live_blocks[b] {
            self.live_blocks.set(b, true);
            if !self.live_control_flow[b] {
                proof {
                    lemma_count_false_set(self.live_control_flow@, b as int);
                }
                self.live_control_flow.set(b, true);
                self.bb_work_list.push(bb);
            }
            let last = self.func.layout.last_inst(bb);
            if let Some(term) = last {
                if matches!(self.func.dfg.insts[term.0 as usize], InstructionData::Jump { .. }) {
                    proof {
                        self.func.layout.lemma_valid();
                        lemma_last_in_block(self.func, b as int);
                    }
                    if !self.live_insts[term.0 as usize] {
                        proof {
                            lemma_count_false_set(self.live_insts@, term.0 as int);
                        }
                        self.live_insts.set(term.0 as usize, true);
                    }
                }
            }
        }
        proof {
            let n = self.func.layout@.num_blocks();
            lemma_mark_block_justified(&*old(self), &*self, b as int);
            assert forall|l: Seq<bool>, bl: Seq<bool>|
                #[trigger] closed_marking(old(self).func, old(self).cfg, old(self).pdf@, old(self).entry@, l, bl)
                    && old(self).marks_within(l, bl) && bl[b as int] implies self.marks_within(l, bl) by {
                if !old(self).live_blocks@[b as int] {
                    assert(b != self.entry@.0);
                    if ends_in_jump(self.func, b as int) {
                        assert(l[last_of(self.func, b as int).unwrap().0 as int]);
                    }
                }
                assert forall|i: int| 0 <= i < self.live_insts@.len() && #[trigger] self.live_insts@[i] implies l[i] by {
                    if !old(self).live_insts@[i] {
                        assert(i == last_of(self.func, b as int).unwrap().0);
                    }
                }
                assert forall|c: int| 0 <= c < self.live_blocks@.len() && #[trigger] self.live_blocks@[c] implies bl[c] by {
                    if c != b {
                        assert(old(self).live_blocks@[c]);
                    }
                }
            }
            assert forall|c: int|
                0 <= c < n && #[trigger] self.live_control_flow@[c] && !self.bb_work_list@.contains(Block(c as u32))
                    && self.pending_block@ != Some(Block(c as u32)) implies deciders_live(self.func, self.pdf@, self.live_insts@, c) by {
                if c != b {
                    assert(old(self).live_control_flow@[c]);
                    if old(self).bb_work_list@.contains(Block(c as u32)) {
                        let k = choose|k: int| 0 <= k < old(self).bb_work_list@.len() && old(self).bb_work_list@[k] == Block(c as u32);
                        assert(self.bb_work_list@[k] == Block(c as u32));
                    }
                    lemma_deciders_grow(self.func, self.pdf@, old(self).live_insts@, self.live_insts@, c);
                } else if old(self).live_control_flow@[c] {
                    if old(self).bb_work_list@.contains(Block(c as u32)) {
                        let k = choose|k: int| 0 <= k < old(self).bb_work_list@.len() && old(self).bb_work_list@[k] == Block(c as u32);
                        assert(self.bb_work_list@[k] == Block(c as u32));
                    }
                    lemma_deciders_grow(self.func, self.pdf@, old(self).live_insts@, self.live_insts@, c);
                } else {
                    assert(self.bb_work_list@.last() == Block(c as u32));
                }
            }
        }
    }
}

impl<'a> AggressiveDeadCode<'a> {
    /// Mark `inst` live; an instruction newly live goes on the work list, its block is live,
    /// and a live phi needs the deciding branches of the predecessors of its block. Returns
    /// whether `inst` was newly marked.
    pub fn mark_inst_live(&mut self, inst: Inst) -> (r: bool)
        requires
            old(self).inv(),
            old(self).spec_func().layout@.block_of(inst) is Some,
        ensures
            final(self).inv(),
            final(self).grows(&*old(self)),
            final(self).spec_pending() == old(self).spec_pending(),
            r == !old(self).spec_live_insts()[inst.0 as int],
            final(self).spec_live_insts()[inst.0 as int],
            final(self).measure() <= old(self).measure(),
            forall|l: Seq<bool>, bl: Seq<bool>|
                #[trigger] closed_marking(old(self).spec_func(), old(self).spec_cfg(), old(self).spec_pdf(), old(self).spec_entry(), l, bl)
                    && old(self).marks_within(l, bl) && l[inst.0 as int] ==> final(self).marks_within(l, bl),
            forall|i: int|
                0 <= i < old(self).spec_live_insts().len() && #[trigger] final(self).spec_live_insts()[i] && !old(self).spec_live_insts()[i]
                    ==> i == inst.0 || old(self).spec_func().dfg.insts@[i] is Jump,
    {
        proof {
            lemma_placed_in_range(self.func, inst);
        }
        let i = inst.0 as usize;
        if self.live_insts[i] {
            return false;
        }
        proof {
            lemma_count_false_set(self.live_insts@, i as int);
        }
        self.live_insts.set(i, true);
        self.inst_work_list.push(inst);
        let bb = self.func.layout.inst_block(inst).unwrap();
        proof {
            let n = self.func.layout@.num_blocks();
            assert(bb.0 < n);
            assert forall|c: int|
                0 <= c < n && #[trigger] self.live_control_flow@[c] && !self.bb_work_list@.contains(Block(c as u32))
                    && self.pending_block@ != Some(Block(c as u32)) implies deciders_live(self.func, self.pdf@, self.live_insts@, c) by {
                lemma_deciders_grow(self.func, self.pdf@, old(self).live_insts@, self.live_insts@, c);
            }
            assert forall|q: int, j: int|
                0 <= q < self.live_insts@.len() && self.live_insts@[q] && !self.inst_work_list@.contains(Inst(q as u32))
                    && self.pending_inst@ != Some(Inst(q as u32)) && 0 <= j < self.func.dfg.insts@[q].spec_arguments().len()
                    implies (def_inst(self.func, #[trigger] self.func.dfg.insts@[q].spec_arguments()[j]) matches Some(d)
                    ==> self.live_insts@[d.0 as int]) by {
                if q != i {
                    if old(self).inst_work_list@.contains(Inst(q as u32)) {
                        let k = choose|k: int| 0 <= k < old(self).inst_work_list@.len() && old(self).inst_work_list@[k] == Inst(q as u32);
                        assert(self.inst_work_list@[k] == Inst(q as u32));
                    }
                } else {
                    assert(self.inst_work_list@.last() == Inst(q as u32));
                }
            }
        }
        let ghost s_mid = *self;
        proof {
            assert(s_mid.grows(&*old(self)));
            lemma_mark_block_justified(&*old(self), &s_mid, bb.0 as int);
        }
        self.mark_bb_live(bb, Ghost(Some(inst)));
        let ghost s_bb = *self;
        proof {
            assert(s_mid.live_insts@[i as int]);
            lemma_grows_trans(&*old(self), &s_mid, &*self);
            assert forall|l: Seq<bool>, bl: Seq<bool>|
                #[trigger] closed_marking(old(self).func, old(self).cfg, old(self).pdf@, old(self).entry@, l, bl)
                    && old(self).marks_within(l, bl) && l[inst.0 as int] implies s_bb.marks_within(l, bl) by {
                assert forall|q: int| 0 <= q < s_mid.live_insts@.len() && #[trigger] s_mid.live_insts@[q] implies l[q] by {
                    if q != i {
                        assert(old(self).live_insts@[q]);
                    }
                }
                assert(Inst(inst.0 as int as u32) == inst);
                assert(l[inst.0 as int]);
                assert(s_mid.marks_within(l, bl));
                assert(bl[bb.0 as int]);
            }
        }
        let is_phi = match &self.func.dfg.insts[i] {
            InstructionData::PhiNode(_) => true,
            _ => false,
        };
        if is_phi && !self.live_predecessors[bb.0 as usize] {
            let ghost s0 = *self;
            self.live_predecessors.set(bb.0 as usize, true);
            let preds = self.cfg.pred_iter(bb);
            proof {
                assert forall|q: int| 0 <= q < preds@.len() implies (#[trigger] preds@[q]).0 < s0.live_control_flow@.len() by {
                    assert(preds@.contains(preds@[q]));
                }
            }
            let mut k: usize = 0;
            while k < preds.len()
                invariant
                    0 <= k <= preds@.len(),
                    forall|p: Block| #[trigger] preds@.contains(p) <==> is_pred(self.cfg@, p, bb),
                    self.func == s0.func,
                    self.cfg == s0.cfg,
                    self.pdf == s0.pdf,
                    self.entry == s0.entry,
                    self.pending_inst == s0.pending_inst,
                    self.pending_block == s0.pending_block,
                    self.live_insts == s0.live_insts,
                    self.live_blocks == s0.live_blocks,
                    self.inst_work_list == s0.inst_work_list,
                    self.live_predecessors@ == s0.live_predecessors@.update(bb.0 as int, true),
                    s0.inv_core(None, Some(inst)),
                    s0.grows(&*old(self)),
                    bb.0 < s0.live_predecessors@.len(),
                    self.live_control_flow@.len() == s0.live_control_flow@.len(),
                    forall|c: int| 0 <= c < s0.live_control_flow@.len() && #[trigger] s0.live_control_flow@[c] ==> self.live_control_flow@[c],
                    forall|q: int| 0 <= q < preds@.len() ==> (#[trigger] preds@[q]).0 < s0.live_control_flow@.len(),
                    forall|q: int| 0 <= q < k ==> self.live_control_flow@[(#[trigger] preds@[q]).0 as int],
                    forall|c: int|
                        0 <= c < s0.live_control_flow@.len() && #[trigger] self.live_control_flow@[c] && !s0.live_control_flow@[c]
                            ==> self.bb_work_list@.contains(Block(c as u32)) && is_pred(self.cfg@, Block(c as u32), bb),
                    forall|q: int| 0 <= q < s0.bb_work_list@.len() ==> self.bb_work_list@[q] == #[trigger] s0.bb_work_list@[q],
                    s0.bb_work_list@.len() <= self.bb_work_list@.len(),
                    forall|q: int|
                        0 <= q < self.bb_work_list@.len() ==> (#[trigger] self.bb_work_list@[q]).0 < s0.live_control_flow@.len()
                            && self.live_control_flow@[self.bb_work_list@[q].0 as int],
                    2 * count_false(self.live_control_flow@) + self.bb_work_list@.len() <= 2 * count_false(
                        s0.live_control_flow@,
                    ) + s0.bb_work_list@.len(),
                decreases preds@.len() - k,
            {
                let p = preds[k];
                proof {
                    assert(preds@.contains(p));
                }
                if !self.live_control_flow[p.0 as usize] {
                    proof {
                        lemma_count_false_set(self.live_control_flow@, p.0 as int);
                    }
                    self.live_control_flow.set(p.0 as usize, true);
                    let ghost wl = self.bb_work_list@;
                    self.bb_work_list.push(p);
                    proof {
                        assert(self.bb_work_list@.last() == p);
                        assert(Block(p.0 as int as u32) == p);
                        assert forall|c: int|
                            0 <= c < s0.live_control_flow@.len() && #[trigger] self.live_control_flow@[c] && !s0.live_control_flow@[c]
                                implies self.bb_work_list@.contains(Block(c as u32)) && is_pred(self.cfg@, Block(c as u32), bb) by {
                            if c == p.0 {
                                assert(self.bb_work_list@[wl.len() as int] == Block(c as u32));
                            } else {
                                assert(wl.contains(Block(c as u32)));
                                let q = choose|q: int| 0 <= q < wl.len() && wl[q] == Block(c as u32);
                                assert(self.bb_work_list@[q] == Block(c as u32));
                            }
                        }
                    }
                }
                k += 1;
            }
            proof {
                let n = self.func.layout@.num_blocks();
                assert forall|b: int, p: Block|
                    0 <= b < n && #[trigger] self.live_predecessors@[b] && #[trigger] is_pred(self.cfg@, p, Block(b as u32))
                        implies self.live_control_flow@[p.0 as int] by {
                    if b == bb.0 {
                        assert(Block(b as u32) == bb);
                        assert(preds@.contains(p));
                        let q = choose|q: int| 0 <= q < preds@.len() && preds@[q] == p;
                    } else {
                        assert(s0.live_predecessors@[b]);
                    }
                }
                assert forall|q: int|
                    0 <= q < self.live_insts@.len() && #[trigger] self.live_insts@[q] && self.func.dfg.insts@[q] is PhiNode
                        && None::<Inst> != Some(Inst(q as u32)) implies self.live_predecessors@[self.func.layout@.block_of(Inst(q as u32)).unwrap().0 as int] by {
                    if q == i {
                        assert(Inst(q as u32) == inst);
                    }
                }
                assert forall|c: int|
                    0 <= c < n && #[trigger] self.live_control_flow@[c] && !self.bb_work_list@.contains(Block(c as u32))
                        && self.pending_block@ != Some(Block(c as u32)) implies deciders_live(self.func, self.pdf@, self.live_insts@, c) by {
                    assert(s0.live_control_flow@[c]);
                    if s0.bb_work_list@.contains(Block(c as u32)) {
                        let q = choose|q: int| 0 <= q < s0.bb_work_list@.len() && s0.bb_work_list@[q] == Block(c as u32);
                        assert(self.bb_work_list@[q] == Block(c as u32));
                    }
                }
                assert(Inst(inst.0 as int as u32) == inst);
                lemma_phi_justified(&s0, &*self, inst.0 as int, bb.0 as int);
            }
        } else {
            proof {
                assert forall|q: int|
                    0 <= q < self.live_insts@.len() && #[trigger] self.live_insts@[q] && self.func.dfg.insts@[q] is PhiNode
                        && None::<Inst> != Some(Inst(q as u32)) implies self.live_predecessors@[self.func.layout@.block_of(Inst(q as u32)).unwrap().0 as int] by {
                    if q == i {
                        assert(Inst(q as u32) == inst);
                    }
                }
            }
        }
        true
    }

    /// Mark the branch that ends block `bb` live, if it ends in one; a branch newly live
    /// makes both its destinations live.
    fn mark_term_live(&mut self, bb: Block)
        requires
            old(self).inv(),
            bb.0 < old(self).func.layout@.num_blocks(),
        ensures
            final(self).inv(),
            final(self).grows(&*old(self)),
            final(self).spec_pending() == old(self).spec_pending(),
            final(self).measure() <= old(self).measure(),
            ends_in_branch(old(self).func, bb.0 as int) ==> final(self).live_insts@[last_of(old(self).func, bb.0 as int).unwrap().0 as int],
            forall|l: Seq<bool>, bl: Seq<bool>|
                #[trigger] closed_marking(old(self).func, old(self).cfg, old(self).pdf@, old(self).entry@, l, bl)
                    && old(self).marks_within(l, bl) && (ends_in_branch(old(self).func, bb.0 as int) ==> l[last_of(
                    old(self).func,
                    bb.0 as int,
                ).unwrap().0 as int]) ==> final(self).marks_within(l, bl),
            branch_targets_live(old(self).func, old(self).live_insts@, old(self).live_blocks@) ==> branch_targets_live(
                old(self).func,
                final(self).live_insts@,
                final(self).live_blocks@,
            ),
    {
        let last = self.func.layout.last_inst(bb);
        if let Some(term) = last {
            proof {
                self.func.layout.lemma_valid();
                lemma_last_in_block(self.func, bb.0 as int);
            }
            let (then_dst, else_dst) = match &self.func.dfg.insts[term.0 as usize] {
                InstructionData::Branch { then_dst, else_dst, .. } => (*then_dst, *else_dst),
                _ => {
                    return;
                },
            };
            let ghost s1 = *self;
            let newly = self.mark_inst_live(term);
            let ghost s2 = *self;
            proof {
                assert forall|l: Seq<bool>, bl: Seq<bool>|
                    #[trigger] closed_marking(s1.func, s1.cfg, s1.pdf@, s1.entry@, l, bl) && s1.marks_within(l, bl)
                        && (ends_in_branch(s1.func, bb.0 as int) ==> l[last_of(s1.func, bb.0 as int).unwrap().0 as int])
                        implies s2.marks_within(l, bl) by {
                    assert(ends_in_branch(s1.func, bb.0 as int));
                    assert(closed_marking(s1.spec_func(), s1.spec_cfg(), s1.spec_pdf(), s1.spec_entry(), l, bl));
                }
            }
            if newly {
                self.mark_bb_live(then_dst, Ghost(None::<Inst>));
                let ghost s3 = *self;
                self.mark_bb_live(else_dst, Ghost(None::<Inst>));
                proof {
                    assert forall|l: Seq<bool>, bl: Seq<bool>|
                        #[trigger] closed_marking(s1.func, s1.cfg, s1.pdf@, s1.entry@, l, bl) && s1.marks_within(l, bl)
                            && (ends_in_branch(s1.func, bb.0 as int) ==> l[last_of(s1.func, bb.0 as int).unwrap().0 as int])
                            implies self.marks_within(l, bl) by {
                        assert(ends_in_branch(s1.func, bb.0 as int));
                        assert(s2.marks_within(l, bl));
                        assert(last_of(s1.func, bb.0 as int) == Some(term));
                        assert(bl[then_dst.0 as int] && bl[else_dst.0 as int]);
                        assert(closed_marking(s2.func, s2.cfg, s2.pdf@, s2.entry@, l, bl));
                        assert(s3.marks_within(l, bl));
                        assert(closed_marking(s3.func, s3.cfg, s3.pdf@, s3.entry@, l, bl));
                    }
                }
            }
        }
    }
}

impl<'a> AggressiveDeadCode<'a> {
    /// Draw all consequences of the marks: the live instructions and the live blocks, closed
    /// under the rules of the analysis, and nothing more: they lie within every marking that
    /// holds the marks made so far and is closed under the rules.
    #[verifier::rlimit(60)]
    pub fn solve(self) -> (r: (Vec<bool>, Vec<bool>))
        requires
            self.inv(),
            self.settled(),
        ensures
            r.0@.len() == self.spec_live_insts().len(),
            r.1@.len() == self.spec_live_blocks().len(),
            forall|i: int| 0 <= i < r.0@.len() && #[trigger] self.spec_live_insts()[i] ==> r.0@[i],
            forall|b: int| 0 <= b < r.1@.len() && #[trigger] self.spec_live_blocks()[b] ==> r.1@[b],
            liveness_closed(self.spec_func(), self.spec_cfg(), self.spec_pdf(), self.spec_entry(), r.0@, r.1@),
            forall|l: Seq<bool>, bl: Seq<bool>|
                #[trigger] closed_marking(self.spec_func(), self.spec_cfg(), self.spec_pdf(), self.spec_entry(), l, bl)
                    && (forall|i: int| 0 <= i < l.len() && #[trigger] self.spec_live_insts()[i] ==> l[i])
                    && (forall|b: int| 0 <= b < bl.len() && #[trigger] self.spec_live_blocks()[b] ==> bl[b])
                    ==> (forall|i: int| 0 <= i < l.len() && #[trigger] r.0@[i] ==> l[i])
                    && (forall|b: int| 0 <= b < bl.len() && #[trigger] r.1@[b] ==> bl[b]),
            no_branch_results(self.spec_func()) && branch_targets_live(self.spec_func(), self.spec_live_insts(), self.spec_live_blocks())
                ==> branch_targets_live(self.spec_func(), r.0@, r.1@),
    {
        let ghost s0 = self;
        let ghost targets = no_branch_results(self.func) && branch_targets_live(self.func, self.live_insts@, self.live_blocks@);
        let mut st = self;
        loop
            invariant
                st.inv(),
                st.settled(),
                st.grows(&s0),
                st.below(&s0),
                targets == (no_branch_results(s0.func) && branch_targets_live(s0.func, s0.live_insts@, s0.live_blocks@)),
                targets ==> branch_targets_live(st.func, st.live_insts@, st.live_blocks@),
            ensures
                st.inv(),
                st.settled(),
                st.grows(&s0),
                st.below(&s0),
                targets ==> branch_targets_live(st.func, st.live_insts@, st.live_blocks@),
                st.inst_work_list@.len() == 0,
                st.bb_work_list@.len() == 0,
            decreases st.measure(),
        {
            let ghost m0 = st.measure();
            while st.inst_work_list.len() > 0
                invariant
                    st.inv(),
                    st.settled(),
                    st.grows(&s0),
                    st.below(&s0),
                    st.measure() <= m0,
                    targets == (no_branch_results(s0.func) && branch_targets_live(s0.func, s0.live_insts@, s0.live_blocks@)),
                    targets ==> branch_targets_live(st.func, st.live_insts@, st.live_blocks@),
                decreases st.measure(),
            {
                let ghost before = st.measure();
                let ghost wl0 = st.inst_work_list@;
                let ghost pre = st;
                let inst = st.inst_work_list.pop().unwrap();
                st.pending_inst = Ghost(Some(inst));
                proof {
                    lemma_justified_frame(&pre, &st, &s0);
                    assert(wl0.last() == inst);
                    assert forall|q: Inst| wl0.contains(q) && q != inst implies #[trigger] st.inst_work_list@.contains(q) by {
                        let k = choose|k: int| 0 <= k < wl0.len() && wl0[k] == q;
                        assert(st.inst_work_list@[k] == q);
                    }
                    assert forall|k: int| 0 <= k < st.inst_work_list@.len() implies st.inst_work_list@[k] == #[trigger] wl0[k] by {}
                    lemma_placed_in_range(st.func, inst);
                    assert(st.live_insts@[inst.0 as int]);
                    assert(Inst(inst.0 as int as u32) == inst);
                }
                let args = st.func.dfg.insts[inst.0 as usize].arguments();
                let mut k: usize = 0;
                while k < args.len()
                    invariant
                        st.inv(),
                        st.pending_inst@ == Some(inst),
                        st.pending_block@ is None,
                        st.grows(&s0),
                        st.below(&s0),
                        st.measure() < before,
                        inst.0 < st.live_insts@.len(),
                        st.live_insts@[inst.0 as int],
                        st.func.layout@.block_of(inst) is Some,
                        args@ == st.func.dfg.insts@[inst.0 as int].spec_arguments(),
                        k <= args@.len(),
                        targets == (no_branch_results(s0.func) && branch_targets_live(s0.func, s0.live_insts@, s0.live_blocks@)),
                        targets ==> branch_targets_live(st.func, st.live_insts@, st.live_blocks@),
                        forall|j: int| 0 <= j < k ==> (def_inst(st.func, #[trigger] args@[j]) matches Some(d) ==> st.live_insts@[d.0 as int]),
                    decreases args@.len() - k,
                {
                    let a = args[k];
                    let ghost s1 = st;
                    proof {
                        assert(a == st.func.dfg.insts@[inst.0 as int].spec_arguments()[k as int]);
                    }
                    match st.func.dfg.value_def(a) {
                        ValueDef::Result(def, _) => {
                            st.mark_inst_live(def);
                            proof {
                                if targets {
                                    assert(def_inst(st.func, a) == Some(def));
                                    assert forall|b: int|
                                        0 <= b < st.func.layout@.num_blocks() implies (#[trigger] last_of(st.func, b) matches Some(t)
                                            && st.func.dfg.insts@[t.0 as int] matches InstructionData::Branch { then_dst, else_dst, .. } ==> (
                                        st.live_insts@[t.0 as int] ==> st.live_blocks@[then_dst.0 as int] && st.live_blocks@[else_dst.0 as int])) by {
                                        if let Some(t) = last_of(st.func, b) {
                                            if st.func.dfg.insts@[t.0 as int] is Branch {
                                                assert(st.func.layout@.insts[b][st.func.layout@.insts[b].len() - 1] == t);
                                                assert(t.0 < st.live_insts@.len());
                                                assert(s1.live_insts@[t.0 as int] || !st.live_insts@[t.0 as int]);
                                            }
                                        }
                                    }
                                }
                                lemma_grows_trans(&s0, &s1, &st);
                                lemma_below_operand(&s0, &s1, &st, inst.0 as int, k as int, def);
                                assert forall|j: int| 0 <= j < k implies (def_inst(st.func, #[trigger] args@[j]) matches Some(d)
                                    ==> st.live_insts@[d.0 as int]) by {
                                    match def_inst(st.func, args@[j]) {
                                        Some(d) => {
                                            assert(s1.live_insts@[d.0 as int]);
                                        },
                                        None => {},
                                    }
                                }
                            }
                        },
                        _ => {},
                    }
                    k += 1;
                }
                let ghost pre = st;
                st.pending_inst = Ghost(None);
                proof {
                    lemma_justified_frame(&pre, &st, &s0);
                    let m = st.live_insts@.len();
                    assert forall|q: int, j: int|
                        0 <= q < m && st.live_insts@[q] && !st.inst_work_list@.contains(Inst(q as u32)) && st.pending_inst@
                            != Some(Inst(q as u32)) && 0 <= j < st.func.dfg.insts@[q].spec_arguments().len() implies (def_inst(
                        st.func,
                        #[trigger] st.func.dfg.insts@[q].spec_arguments()[j],
                    ) matches Some(d) ==> st.live_insts@[d.0 as int]) by {
                        if q == inst.0 {
                            assert(Inst(q as u32) == inst);
                            assert(args@[j] == st.func.dfg.insts@[q].spec_arguments()[j]);
                        }
                    }
                }
            }
            let ghost m1 = st.measure();
            let ghost mut popped = false;
            while st.bb_work_list.len() > 0
                invariant
                    st.inv(),
                    st.settled(),
                    st.grows(&s0),
                    st.below(&s0),
                    st.measure() <= m1,
                    popped ==> st.measure() < m1,
                    !popped ==> st.inst_work_list@.len() == 0,
                    targets == (no_branch_results(s0.func) && branch_targets_live(s0.func, s0.live_insts@, s0.live_blocks@)),
                    targets ==> branch_targets_live(st.func, st.live_insts@, st.live_blocks@),
                decreases st.measure(),
            {
                let ghost before = st.measure();
                let ghost bl0 = st.bb_work_list@;
                let ghost pre = st;
                let bb = st.bb_work_list.pop().unwrap();
                st.pending_block = Ghost(Some(bb));
                proof {
                    lemma_justified_frame(&pre, &st, &s0);
                    assert(bl0.last() == bb);
                    assert forall|q: Block| bl0.contains(q) && q != bb implies #[trigger] st.bb_work_list@.contains(q) by {
                        let k = choose|k: int| 0 <= k < bl0.len() && bl0[k] == q;
                        assert(st.bb_work_list@[k] == q);
                    }
                    assert forall|k: int| 0 <= k < st.bb_work_list@.len() implies st.bb_work_list@[k] == #[trigger] bl0[k] by {}
                    popped = true;
                    assert(Block(bb.0 as int as u32) == bb);
                }
                let n = st.pdf.len();
                let mut d: usize = 0;
                while d < n
                    invariant
                        st.inv(),
                        st.pending_inst@ is None,
                        st.pending_block@ == Some(bb),
                        st.grows(&s0),
                        st.below(&s0),
                        st.measure() < before,
                        n == st.pdf@.len(),
                        bb.0 < n,
                        st.live_control_flow@[bb.0 as int],
                        d <= n,
                        targets == (no_branch_results(s0.func) && branch_targets_live(s0.func, s0.live_insts@, s0.live_blocks@)),
                        targets ==> branch_targets_live(st.func, st.live_insts@, st.live_blocks@),
                        forall|e: int| 0 <= e < d && #[trigger] st.pdf@[bb.0 as int]@[e] && ends_in_branch(st.func, e)
                            ==> st.live_insts@[last_of(st.func, e).unwrap().0 as int],
                    decreases n - d,
                {
                    if st.pdf[bb.0 as usize][d] {
                        let ghost s1 = st;
                        st.mark_term_live(Block(d as u32));
                        proof {
                            lemma_grows_trans(&s0, &s1, &st);
                            assert(Block(d as u32).0 as int == d as int);
                            lemma_below_decider(&s0, &s1, &st, bb.0 as int, d as int);
                            assert forall|e: int| 0 <= e < d + 1 && #[trigger] st.pdf@[bb.0 as int]@[e] && ends_in_branch(st.func, e)
                                implies st.live_insts@[last_of(st.func, e).unwrap().0 as int] by {
                                if e < d {
                                    assert(s1.live_insts@[last_of(st.func, e).unwrap().0 as int]);
                                }
                            }
                        }
                    }
                    d += 1;
                }
                let ghost pre = st;
                st.pending_block = Ghost(None);
                proof {
                    lemma_justified_frame(&pre, &st, &s0);
                }
            }
            if st.inst_work_list.len() == 0 {
                break;
            }
        }
        proof {
            let f = st.func;
            assert forall|i: int, p: Block|
                0 <= i < st.live_insts@.len() && st.live_insts@[i] && f.dfg.insts@[i] is PhiNode && #[trigger] is_pred(
                    st.cfg@,
                    p,
                    f.layout@.block_of(Inst(i as u32)).unwrap(),
                ) implies deciders_live(f, st.pdf@, st.live_insts@, p.0 as int) by {
                let b = f.layout@.block_of(Inst(i as u32)).unwrap();
                assert(st.live_predecessors@[b.0 as int]);
                assert(Block(b.0 as int as u32) == b);
                assert(is_pred(st.cfg@, p, Block(b.0 as int as u32)));
                assert(st.live_control_flow@[p.0 as int]);
                assert(Block(p.0 as int as u32) == p);
            }
            assert forall|l: Seq<bool>, bl: Seq<bool>|
                #[trigger] closed_marking(s0.spec_func(), s0.spec_cfg(), s0.spec_pdf(), s0.spec_entry(), l, bl)
                    && (forall|i: int| 0 <= i < l.len() && #[trigger] s0.spec_live_insts()[i] ==> l[i])
                    && (forall|b: int| 0 <= b < bl.len() && #[trigger] s0.spec_live_blocks()[b] ==> bl[b])
                    implies (forall|i: int| 0 <= i < l.len() && #[trigger] st.live_insts@[i] ==> l[i])
                    && (forall|b: int| 0 <= b < bl.len() && #[trigger] st.live_blocks@[b] ==> bl[b]) by {
                assert(closed_marking(s0.func, s0.cfg, s0.pdf@, s0.entry@, l, bl));
                assert forall|i: int| 0 <= i < s0.live_insts@.len() && #[trigger] s0.live_insts@[i] implies l[i] by {
                    assert(s0.spec_live_insts()[i]);
                }
                assert forall|b: int| 0 <= b < s0.live_blocks@.len() && #[trigger] s0.live_blocks@[b] implies bl[b] by {
                    assert(s0.spec_live_blocks()[b]);
                }
                assert(s0.marks_within(l, bl));
                assert(st.marks_within(l, bl));
            }
        }
        (st.live_insts, st.live_blocks)
    }
}

/// Marking block `b` live, with its deciding branches wanted when it was not live before,
/// and more instructions live, keeps every mark justified.
proof fn lemma_mark_block_justified<'a>(a: &AggressiveDeadCode<'a>, c: &AggressiveDeadCode<'a>, b: int)
    requires
        a.justified(),
        c.grows(a),
        0 <= b < a.live_blocks@.len(),
        a.live_blocks@.len() == a.func.layout@.num_blocks(),
        a.live_control_flow@.len() == a.live_blocks@.len(),
        a.live_predecessors@.len() == a.live_blocks@.len(),
        a.live_insts@.len() == a.func.dfg.insts@.len(),
        a.live_blocks@[a.entry@.0 as int],
        a.entry@.0 < a.live_blocks@.len(),
        c.live_predecessors@ == a.live_predecessors@,
        forall|d: int| 0 <= d < a.live_control_flow@.len() && #[trigger] c.live_control_flow@[d] && !a.live_control_flow@[d]
            ==> d == b && !a.live_blocks@[b] && c.live_blocks@[b],
    ensures
        c.justified(),
{
    let n = c.func.layout@.num_blocks();
    let m = c.func.dfg.insts@.len();
    assert forall|d: int|
        0 <= d < n && #[trigger] c.live_control_flow@[d] implies (c.live_blocks@[d] && d != c.entry@.0) || exists|e: int|
            0 <= e < n && #[trigger] c.live_predecessors@[e] && is_pred(c.cfg@, Block(d as u32), Block(e as u32)) by {
        if a.live_control_flow@[d] {
            if a.live_blocks@[d] && d != a.entry@.0 {
                assert(c.live_blocks@[d]);
            } else {
                let e = choose|e: int| 0 <= e < n && #[trigger] a.live_predecessors@[e] && is_pred(a.cfg@, Block(d as u32), Block(e as u32));
                assert(c.live_predecessors@[e]);
            }
        }
    }
    assert forall|e: int| 0 <= e < n && #[trigger] c.live_predecessors@[e] implies exists|i: int|
        0 <= i < m && #[trigger] c.live_insts@[i] && c.func.dfg.insts@[i] is PhiNode
            && c.func.layout@.block_of(Inst(i as u32)) == Some(Block(e as u32)) by {
        let i = choose|i: int| 0 <= i < m && #[trigger] a.live_insts@[i] && a.func.dfg.insts@[i] is PhiNode
            && a.func.layout@.block_of(Inst(i as u32)) == Some(Block(e as u32));
        assert(c.live_insts@[i]);
    }
}

/// Marking that block `c` has live phis, with the live phi `i` in it, and wanting the
/// deciding branches of predecessors of `c`, keeps every mark justified.
proof fn lemma_phi_justified<'a>(a: &AggressiveDeadCode<'a>, s: &AggressiveDeadCode<'a>, i: int, c: int)
    requires
        a.justified(),
        s.func == a.func,
        s.cfg == a.cfg,
        s.entry == a.entry,
        s.live_insts == a.live_insts,
        s.live_blocks == a.live_blocks,
        0 <= c < a.live_predecessors@.len(),
        a.live_blocks@.len() == a.func.layout@.num_blocks(),
        a.live_control_flow@.len() == a.live_blocks@.len(),
        a.live_predecessors@.len() == a.live_blocks@.len(),
        a.live_insts@.len() == a.func.dfg.insts@.len(),
        s.live_control_flow@.len() == a.live_control_flow@.len(),
        s.live_predecessors@ == a.live_predecessors@.update(c, true),
        0 <= i < a.live_insts@.len(),
        a.live_insts@[i],
        a.func.dfg.insts@[i] is PhiNode,
        a.func.layout@.block_of(Inst(i as u32)) == Some(Block(c as u32)),
        forall|d: int| 0 <= d < a.live_control_flow@.len() && #[trigger] a.live_control_flow@[d] ==> s.live_control_flow@[d],
        forall|d: int|
            0 <= d < a.live_control_flow@.len() && #[trigger] s.live_control_flow@[d] && !a.live_control_flow@[d]
                ==> is_pred(s.cfg@, Block(d as u32), Block(c as u32)),
    ensures
        s.justified(),
{
    let n = s.func.layout@.num_blocks();
    let m = s.func.dfg.insts@.len();
    assert forall|d: int|
        0 <= d < n && #[trigger] s.live_control_flow@[d] implies (s.live_blocks@[d] && d != s.entry@.0) || exists|e: int|
            0 <= e < n && #[trigger] s.live_predecessors@[e] && is_pred(s.cfg@, Block(d as u32), Block(e as u32)) by {
        if a.live_control_flow@[d] {
            if !(a.live_blocks@[d] && d != a.entry@.0) {
                let e = choose|e: int| 0 <= e < n && #[trigger] a.live_predecessors@[e] && is_pred(a.cfg@, Block(d as u32), Block(e as u32));
                assert(s.live_predecessors@[e]);
            }
        } else {
            assert(s.live_predecessors@[c]);
        }
    }
    assert forall|e: int| 0 <= e < n && #[trigger] s.live_predecessors@[e] implies exists|k: int|
        0 <= k < m && #[trigger] s.live_insts@[k] && s.func.dfg.insts@[k] is PhiNode
            && s.func.layout@.block_of(Inst(k as u32)) == Some(Block(e as u32)) by {
        if e != c {
            assert(a.live_predecessors@[e]);
        } else {
            assert(s.live_insts@[i]);
        }
    }
}

/// Whether the marks are justified depends on the marks alone.
proof fn lemma_justified_frame<'a>(a: &AggressiveDeadCode<'a>, s: &AggressiveDeadCode<'a>, s0: &AggressiveDeadCode<'a>)
    requires
        a.justified(),
        s.func == a.func,
        s.cfg == a.cfg,
        s.entry == a.entry,
        s.live_insts == a.live_insts,
        s.live_blocks == a.live_blocks,
        s.live_control_flow == a.live_control_flow,
        s.live_predecessors == a.live_predecessors,
    ensures
        s.justified(),
        a.below(s0) ==> s.below(s0),
{
    if a.below(s0) {
        assert forall|l: Seq<bool>, bl: Seq<bool>|
            #[trigger] closed_marking(s0.func, s0.cfg, s0.pdf@, s0.entry@, l, bl) && s0.marks_within(l, bl)
                implies s.marks_within(l, bl) by {
            assert(a.marks_within(l, bl));
        }
    }
}

/// In a closed marking that holds the marks, the deciding branches of every block whose
/// deciders are wanted are live.
proof fn lemma_wanted_deciders<'a>(s: &AggressiveDeadCode<'a>, l: Seq<bool>, bl: Seq<bool>, b: int)
    requires
        s.inv(),
        closed_marking(s.func, s.cfg, s.pdf@, s.entry@, l, bl),
        s.marks_within(l, bl),
        0 <= b < s.live_control_flow@.len(),
        s.live_control_flow@[b],
    ensures
        deciders_live(s.func, s.pdf@, l, b),
{
    let f = s.func;
    let n = f.layout@.num_blocks();
    let m = f.dfg.insts@.len();
    if s.live_blocks@[b] && b != s.entry@.0 {
        assert(bl[b]);
    } else {
        let c = choose|c: int| 0 <= c < n && #[trigger] s.live_predecessors@[c] && is_pred(s.cfg@, Block(b as u32), Block(c as u32));
        let i = choose|i: int| 0 <= i < m && #[trigger] s.live_insts@[i] && f.dfg.insts@[i] is PhiNode
            && f.layout@.block_of(Inst(i as u32)) == Some(Block(c as u32));
        assert(l[i]);
        assert(is_pred(s.cfg@, Block(b as u32), f.layout@.block_of(Inst(i as u32)).unwrap()));
        assert(Block(b as u32).0 as int == b);
    }
}

/// Marking the instruction that defines an operand of a live instruction keeps the marks
/// within every closed marking that holds the marks of `s0`.
proof fn lemma_below_operand<'a>(
    s0: &AggressiveDeadCode<'a>,
    s1: &AggressiveDeadCode<'a>,
    s2: &AggressiveDeadCode<'a>,
    i: int,
    j: int,
    d: Inst,
)
    requires
        s1.below(s0),
        s1.func == s0.func,
        s1.cfg == s0.cfg,
        s1.pdf == s0.pdf,
        s1.entry == s0.entry,
        s1.live_insts@.len() == s1.func.dfg.insts@.len(),
        0 <= i < s1.live_insts@.len(),
        s1.live_insts@[i],
        0 <= j < s1.func.dfg.insts@[i].spec_arguments().len(),
        def_inst(s1.func, s1.func.dfg.insts@[i].spec_arguments()[j]) == Some(d),
        forall|l: Seq<bool>, bl: Seq<bool>|
            #[trigger] closed_marking(s1.spec_func(), s1.spec_cfg(), s1.spec_pdf(), s1.spec_entry(), l, bl)
                && s1.marks_within(l, bl) && l[d.0 as int] ==> s2.marks_within(l, bl),
    ensures
        s2.below(s0),
{
    assert forall|l: Seq<bool>, bl: Seq<bool>|
        #[trigger] closed_marking(s0.func, s0.cfg, s0.pdf@, s0.entry@, l, bl) && s0.marks_within(l, bl)
            implies s2.marks_within(l, bl) by {
        assert(s1.marks_within(l, bl));
        assert(l[i]);
        assert(l[d.0 as int]);
        assert(closed_marking(s1.spec_func(), s1.spec_cfg(), s1.spec_pdf(), s1.spec_entry(), l, bl));
    }
}

/// Marking the deciding branch at the end of block `e`, which lies in the post-dominance
/// frontier of a block whose deciders are wanted, keeps the marks within every closed
/// marking that holds the marks of `s0`.
proof fn lemma_below_decider<'a>(
    s0: &AggressiveDeadCode<'a>,
    s1: &AggressiveDeadCode<'a>,
    s2: &AggressiveDeadCode<'a>,
    b: int,
    e: int,
)
    requires
        s1.below(s0),
        s1.inv(),
        s1.func == s0.func,
        s1.cfg == s0.cfg,
        s1.pdf == s0.pdf,
        s1.entry == s0.entry,
        0 <= b < s1.live_control_flow@.len(),
        s1.live_control_flow@[b],
        0 <= e < s1.pdf@[b]@.len(),
        s1.pdf@[b]@[e],
        forall|l: Seq<bool>, bl: Seq<bool>|
            #[trigger] closed_marking(s1.func, s1.cfg, s1.pdf@, s1.entry@, l, bl) && s1.marks_within(l, bl) && (
            ends_in_branch(s1.func, e) ==> l[last_of(s1.func, e).unwrap().0 as int]) ==> s2.marks_within(l, bl),
    ensures
        s2.below(s0),
{
    assert forall|l: Seq<bool>, bl: Seq<bool>|
        #[trigger] closed_marking(s0.func, s0.cfg, s0.pdf@, s0.entry@, l, bl) && s0.marks_within(l, bl)
            implies s2.marks_within(l, bl) by {
        assert(s1.marks_within(l, bl));
        lemma_wanted_deciders(s1, l, bl, b);
        if ends_in_branch(s1.func, e) {
            assert(l[last_of(s1.func, e).unwrap().0 as int]);
        }
    }
}

/// Growing is transitive.
proof fn lemma_grows_trans<'a>(a: &AggressiveDeadCode<'a>, b: &AggressiveDeadCode<'a>, c: &AggressiveDeadCode<'a>)
    requires
        b.grows(a),
        c.grows(b),
    ensures
        c.grows(a),
{
    assert forall|i: int| 0 <= i < a.live_insts@.len() && #[trigger] a.live_insts@[i] implies c.live_insts@[i] by {
        assert(b.live_insts@[i]);
    }
    assert forall|i: int| 0 <= i < a.live_blocks@.len() && #[trigger] a.live_blocks@[i] implies c.live_blocks@[i] by {
        assert(b.live_blocks@[i]);
    }
    assert forall|i: int| 0 <= i < a.live_predecessors@.len() && #[trigger] a.live_predecessors@[i] implies c.live_predecessors@[i] by {
        assert(b.live_predecessors@[i]);
    }
    assert forall|i: int| 0 <= i < a.live_control_flow@.len() && #[trigger] a.live_control_flow@[i] implies c.live_control_flow@[i] by {
        assert(b.live_control_flow@[i]);
    }
}

/// A placed instruction has an entry in the instruction table.
proof fn lemma_placed_in_range(f: &Function, i: Inst)
    requires
        f.layout@.block_of(i) is Some,
        forall|b: int, j: int|
            0 <= b < f.layout@.num_blocks() && 0 <= j < f.layout@.insts[b].len() ==> (#[trigger] f.layout@.insts[b][j]).0 < f.dfg.insts@.len(),
    ensures
        i.0 < f.dfg.insts@.len(),
{
    let b = choose|b: int| 0 <= b < f.layout@.insts.len() && #[trigger] f.layout@.insts[b].contains(i);
    let j = choose|j: int| 0 <= j < f.layout@.insts[b].len() && f.layout@.insts[b][j] == i;
}

/// The deciding branches of a block stay live when more is marked live.
proof fn lemma_deciders_grow(f: &Function, pdf: Seq<Vec<bool>>, l1: Seq<bool>, l2: Seq<bool>, b: int)
    requires
        deciders_live(f, pdf, l1, b),
        l1.len() == l2.len(),
        forall|i: int| 0 <= i < l1.len() && #[trigger] l1[i] ==> l2[i],
        forall|d: int| 0 <= d < pdf[b]@.len() && #[trigger] pdf[b]@[d] && ends_in_branch(f, d) ==> last_of(f, d).unwrap().0 < l1.len(),
    ensures
        deciders_live(f, pdf, l2, b),
{
    assert forall|d: int| 0 <= d < pdf[b]@.len() && #[trigger] pdf[b]@[d] && ends_in_branch(f, d) implies l2[last_of(f, d).unwrap().0 as int] by {
        assert(l1[last_of(f, d).unwrap().0 as int]);
    }
}

/// A vector of `n` copies of `x`.
fn vec_of(x: bool, n: usize) -> (r: Vec<bool>)
    ensures
        r@ == Seq::new(n as nat, |i: int| x),
{
    let mut r: Vec<bool> = Vec::new();
    let mut i: usize = 0;
    while i < n
        invariant
            i <= n,
            r@ == Seq::new(i as nat, |k: int| x),
        decreases n - i,
    {
        r.push(x);
        i += 1;
        proof {
            assert(r@ =~= Seq::new(i as nat, |k: int| x));
        }
    }
    r
}

/// The last instruction of block `b` lies in block `b`.
proof fn lemma_last_in_block(f: &Function, b: int)
    requires
        f.layout@.valid(),
        0 <= b < f.layout@.num_blocks(),
        f.layout@.insts[b].len() > 0,
    ensures
        f.layout@.block_of(last_of(f, b).unwrap()) == Some(Block(b as u32)),
{
    let s = f.layout@.insts[b];
    let t = s[s.len() - 1];
    assert(s.contains(t));
    assert(f.layout@.inst_inserted(t));
    let c = choose|c: int| 0 <= c < f.layout@.insts.len() && #[trigger] f.layout@.insts[c].contains(t);
    assert(c == b);
}

/// Instruction `i` calls a function with side effects.
pub open spec fn calls_with_side_effects(f: &Function, i: int) -> bool {
    match f.dfg.insts@[i] {
        InstructionData::Call { func_ref, .. } => f.dfg.signatures@[func_ref.0 as int].has_side_effects,
        _ => false,
    }
}

/// Instruction `i` is a root of the analysis: it is placed, and it has side effects (a call
/// of a function with side effects) or one of its results is wanted (`results_live`).
pub open spec fn dce_root(f: &Function, results_live: Seq<bool>, i: int) -> bool {
    &&& f.layout@.block_of(Inst(i as u32)) is Some
    &&& (results_live[i] || calls_with_side_effects(f, i))
}

impl<'a> AggressiveDeadCode<'a> {
    /// Mark the roots live: every placed instruction that has side effects or a result that
    /// is wanted (`results_live[i]` for instruction `i`).
    pub fn mark_roots(&mut self, results_live: &Vec<bool>)
        requires
            old(self).inv(),
            old(self).settled(),
            results_live@.len() == old(self).spec_func().dfg.insts@.len(),
            forall|i: int|
                0 <= i < old(self).spec_func().dfg.insts@.len() ==> (#[trigger] old(self).spec_func().dfg.insts@[i] matches InstructionData::Call {
                    func_ref,
                    ..
                } ==> func_ref.0 < old(self).spec_func().dfg.signatures@.len()),
        ensures
            final(self).inv(),
            final(self).settled(),
            final(self).grows(&*old(self)),
            forall|i: int|
                0 <= i < results_live@.len() && #[trigger] dce_root(old(self).spec_func(), results_live@, i)
                    ==> final(self).spec_live_insts()[i],
            forall|l: Seq<bool>, bl: Seq<bool>|
                #[trigger] closed_marking(old(self).spec_func(), old(self).spec_cfg(), old(self).spec_pdf(), old(self).spec_entry(), l, bl)
                    && old(self).marks_within(l, bl) && (forall|i: int|
                    0 <= i < results_live@.len() && #[trigger] dce_root(old(self).spec_func(), results_live@, i) ==> l[i])
                    ==> final(self).marks_within(l, bl),
            forall|i: int|
                0 <= i < results_live@.len() && #[trigger] final(self).spec_live_insts()[i] && !old(self).spec_live_insts()[i]
                    ==> dce_root(old(self).spec_func(), results_live@, i) || old(self).spec_func().dfg.insts@[i] is Jump,
    {
        let m = self.func.dfg.insts.len();
        let mut k: usize = 0;
        while k < m
            invariant
                self.inv(),
                self.settled(),
                self.grows(&*old(self)),
                m == self.func.dfg.insts@.len(),
                m < u32::MAX,
                k <= m,
                results_live@.len() == m,
                forall|i: int|
                    0 <= i < m ==> (#[trigger] self.func.dfg.insts@[i] matches InstructionData::Call { func_ref, .. } ==> func_ref.0
                        < self.func.dfg.signatures@.len()),
                forall|i: int| 0 <= i < k && #[trigger] dce_root(self.func, results_live@, i) ==> self.live_insts@[i],
                forall|i: int|
                    0 <= i < m && #[trigger] self.live_insts@[i] && !old(self).live_insts@[i] ==> dce_root(self.func, results_live@, i)
                        || self.func.dfg.insts@[i] is Jump,
                forall|l: Seq<bool>, bl: Seq<bool>|
                    #[trigger] closed_marking(old(self).func, old(self).cfg, old(self).pdf@, old(self).entry@, l, bl)
                        && old(self).marks_within(l, bl) && (forall|i: int|
                        0 <= i < results_live@.len() && #[trigger] dce_root(old(self).func, results_live@, i) ==> l[i])
                        ==> self.marks_within(l, bl),
            decreases m - k,
        {
            let inst = Inst(k as u32);
            let ghost s0 = *self;
            proof {
                assert(inst.0 as int == k);
            }
            if self.func.layout.inst_block(inst).is_some() && (results_live[k] || self.func.dfg.has_side_effects(inst, false)) {
                proof {
                    assert(dce_root(self.func, results_live@, k as int));
                }
                self.mark_inst_live(inst);
                proof {
                    assert forall|l: Seq<bool>, bl: Seq<bool>|
                        #[trigger] closed_marking(old(self).func, old(self).cfg, old(self).pdf@, old(self).entry@, l, bl)
                            && old(self).marks_within(l, bl) && (forall|i: int|
                            0 <= i < results_live@.len() && #[trigger] dce_root(old(self).func, results_live@, i) ==> l[i])
                            implies self.marks_within(l, bl) by {
                        assert(s0.marks_within(l, bl));
                        assert(dce_root(old(self).func, results_live@, k as int));
                        assert(closed_marking(s0.spec_func(), s0.spec_cfg(), s0.spec_pdf(), s0.spec_entry(), l, bl));
                    }
                    lemma_grows_trans(&*old(self), &s0, &*self);
                }
            } else {
                proof {
                    assert(!dce_root(self.func, results_live@, k as int));
                }
            }
            k += 1;
        }
    }
}


/// The instructions with a result that `live_values` wants: `live_values[v]` for one of
/// their results `v`.
pub open spec fn wanted_results(f: &Function, live_values: Seq<bool>) -> Seq<bool> {
    Seq::new(
        f.dfg.insts@.len(),
        |i: int|
            exists|v: int|
                0 <= v < f.dfg.values@.types.len() && live_values[v] && #[trigger] def_inst(f, Value(v as u32)) == Some(
                    Inst(i as u32),
                ),
    )
}

/// The instructions with a result that `live_values` wants (see [`wanted_results`]).
fn wanted_results_of(f: &Function, live_values: &Vec<bool>) -> (r: Vec<bool>)
    requires
        f.dfg.values.wf(),
        f.dfg.insts@.len() < u32::MAX,
        live_values@.len() == f.dfg.values@.types.len(),
    ensures
        r@ == wanted_results(f, live_values@),
{
    let m = f.dfg.num_insts();
    let nv = f.dfg.num_values();
    let mut r: Vec<bool> = Vec::new();
    while r.len() < m
        invariant
            r@.len() <= m,
            forall|i: int| 0 <= i < r@.len() ==> !#[trigger] r@[i],
        decreases m - r@.len(),
    {
        r.push(false);
    }
    let mut v: usize = 0;
    while v < nv
        invariant
            f.dfg.values.wf(),
            m == f.dfg.insts@.len(),
            m < u32::MAX,
            nv == f.dfg.values@.types.len(),
            live_values@.len() == nv,
            v <= nv,
            r@.len() == m,
            forall|i: int|
                0 <= i < m ==> #[trigger] r@[i] == exists|v2: int|
                    0 <= v2 < v && live_values@[v2] && #[trigger] def_inst(f, Value(v2 as u32)) == Some(Inst(i as u32)),
        decreases nv - v,
    {
        if live_values[v] {
            match f.dfg.value_def(Value(v as u32)) {
                ValueDef::Result(d, _) => {
                    if (d.0 as usize) < m {
                        let ghost r0 = r@;
                        r.set(d.0 as usize, true);
                        proof {
                            assert(def_inst(f, Value(v as u32)) == Some(d));
                            assert forall|i: int|
                                0 <= i < m implies #[trigger] r@[i] == exists|v2: int|
                                    0 <= v2 < v + 1 && live_values@[v2] && #[trigger] def_inst(f, Value(v2 as u32)) == Some(
                                        Inst(i as u32),
                                    ) by {
                                if i == d.0 {
                                    assert(Inst(i as u32) == d);
                                    assert(def_inst(f, Value(v as int as u32)) == Some(Inst(i as u32)));
                                } else {
                                    assert(Inst(i as u32) != d);
                                    assert(r@[i] == r0[i]);
                                }
                            }
                        }
                    } else {
                        proof {
                            assert forall|i: int|
                                0 <= i < m implies #[trigger] r@[i] == exists|v2: int|
                                    0 <= v2 < v + 1 && live_values@[v2] && #[trigger] def_inst(f, Value(v2 as u32)) == Some(
                                        Inst(i as u32),
                                    ) by {
                                assert(def_inst(f, Value(v as int as u32)) == Some(d));
                                assert(Inst(i as u32) != d);
                            }
                        }
                    }
                },
                _ => {
                    proof {
                        assert(def_inst(f, Value(v as int as u32)) is None);
                    }
                },
            }
        }
        v += 1;
    }
    proof {
        assert(r@ =~= wanted_results(f, live_values@));
    }
    r
}

/// The least marking of `f` closed under the rules of the analysis that holds the entry
/// block and the roots: `l` and `bl` hold them, are closed under the rules but perhaps that
/// of branch destinations, and lie within every marking closed under all rules that holds
/// them.
pub open spec fn least_live(
    f: &Function,
    cfg: &ControlFlowGraph,
    pdf: Seq<Vec<bool>>,
    entry: Block,
    results_live: Seq<bool>,
    l: Seq<bool>,
    bl: Seq<bool>,
) -> bool {
    &&& l.len() == f.dfg.insts@.len()
    &&& bl.len() == f.layout@.num_blocks()
    &&& liveness_closed(f, cfg, pdf, entry, l, bl)
    &&& bl[entry.0 as int]
    &&& forall|i: int| 0 <= i < l.len() && #[trigger] dce_root(f, results_live, i) ==> l[i]
    &&& forall|l2: Seq<bool>, bl2: Seq<bool>|
        #[trigger] closed_marking(f, cfg, pdf, entry, l2, bl2) && bl2[entry.0 as int] && (forall|i: int|
            0 <= i < l2.len() && #[trigger] dce_root(f, results_live, i) ==> l2[i]) ==> (forall|i: int|
            0 <= i < l.len() && #[trigger] l[i] ==> l2[i]) && (forall|b: int| 0 <= b < bl.len() && #[trigger] bl[b] ==> bl2[b])
}

/// Aggressive dead code elimination: mark the roots live (placed instructions with side
/// effects, and those with a result `v` that is wanted, `live_values[v]`), draw the
/// consequences, and take out what stays dead (see [`least_live`] and [`dce_removal`]).
/// When no value is the result of a branch, the live marking is closed under every rule, so
/// it is the least closed marking.
pub fn aggressive_dead_code_elimination(
    func: &mut Function,
    cfg: &mut ControlFlowGraph,
    pdf: &Vec<Vec<bool>>,
    live_values: &Vec<bool>,
)
    requires
        analysis_ready(&*old(func), &*old(cfg), pdf@),
        old(func).layout@.order.len() > 0,
        old(cfg).spec_valid(),
        jumps_valid(&*old(func)),
        live_values@.len() == old(func).dfg.values@.types.len(),
        forall|i: int|
            0 <= i < old(func).dfg.insts@.len() ==> (#[trigger] old(func).dfg.insts@[i] matches InstructionData::Call {
                func_ref,
                ..
            } ==> func_ref.0 < old(func).dfg.signatures@.len()),
    ensures
        final(func).layout.wf(),
        final(cfg).wf(),
        final(cfg).spec_valid(),
        exists|l: Seq<bool>, bl: Seq<bool>|
            {
                &&& #[trigger] least_live(
                    &*old(func),
                    &*old(cfg),
                    pdf@,
                    old(func).layout@.order[0],
                    wanted_results(&*old(func), live_values@),
                    l,
                    bl,
                )
                &&& no_branch_results(&*old(func)) ==> branch_targets_live(&*old(func), l, bl)
                &&& dce_removal(*old(func), *old(cfg), *final(func), *final(cfg), l, bl)
            },
{
    let ghost f0 = *func;
    let ghost c0 = *cfg;
    let results_live = wanted_results_of(&*func, live_values);
    proof {
        if no_branch_results(&f0) {
            assert forall|i: int|
                0 <= i < results_live@.len() && #[trigger] dce_root(&f0, results_live@, i) implies !(f0.dfg.insts@[i] is Branch) by {
                if results_live@[i] {
                    let v = choose|v: int|
                        0 <= v < f0.dfg.values@.types.len() && live_values@[v] && #[trigger] def_inst(&f0, Value(v as u32)) == Some(
                            Inst(i as u32),
                        );
                    assert(def_inst(&f0, Value(v as u32)) matches Some(d) ==> !(f0.dfg.insts@[d.0 as int] is Branch));
                }
            }
        }
    }
    let (live_insts, live_blocks) = {
        let mut adce = AggressiveDeadCode::new(&*func, &*cfg, pdf);
        let ghost s0 = adce;
        adce.mark_roots(&results_live);
        let ghost s1 = adce;
        proof {
            let f = s0.func;
            if no_branch_results(f) && (forall|i: int|
                0 <= i < results_live@.len() && #[trigger] dce_root(f, results_live@, i) ==> !(f.dfg.insts@[i] is Branch)) {
                assert forall|b: int|
                    0 <= b < f.layout@.num_blocks() implies (#[trigger] last_of(f, b) matches Some(t)
                        && f.dfg.insts@[t.0 as int] matches InstructionData::Branch { then_dst, else_dst, .. } ==> (
                    s1.live_insts@[t.0 as int] ==> s1.live_blocks@[then_dst.0 as int] && s1.live_blocks@[else_dst.0 as int])) by {
                    if let Some(t) = last_of(f, b) {
                        if f.dfg.insts@[t.0 as int] is Branch && s1.live_insts@[t.0 as int] {
                            assert(f.layout@.insts[b][f.layout@.insts[b].len() - 1] == t);
                            let ti = t.0 as int;
                            assert(0 <= ti < f.dfg.insts@.len());
                            assert(s0.spec_live_insts()[ti] == false);
                            assert(s1.spec_live_insts()[ti]);
                            assert(dce_root(f, results_live@, ti) || f.dfg.insts@[ti] is Jump);
                            assert(!dce_root(f, results_live@, ti));
                            assert(false);
                        }
                    }
                }
            }
        }
        let r = adce.solve();
        proof {
            let f = s0.func;
            let entry = s0.entry@;
            assert forall|l2: Seq<bool>, bl2: Seq<bool>|
                #[trigger] closed_marking(f, s0.cfg, s0.pdf@, entry, l2, bl2) && bl2[entry.0 as int] && (forall|i: int|
                    0 <= i < l2.len() && #[trigger] dce_root(f, results_live@, i) ==> l2[i]) implies (forall|i: int|
                    0 <= i < r.0@.len() && #[trigger] r.0@[i] ==> l2[i]) && (forall|b: int|
                    0 <= b < r.1@.len() && #[trigger] r.1@[b] ==> bl2[b]) by {
                assert(s0.marks_within(l2, bl2));
                assert(closed_marking(s0.spec_func(), s0.spec_cfg(), s0.spec_pdf(), s0.spec_entry(), l2, bl2));
                assert(s1.marks_within(l2, bl2));
                assert(closed_marking(s1.spec_func(), s1.spec_cfg(), s1.spec_pdf(), s1.spec_entry(), l2, bl2));
                assert forall|i: int| 0 <= i < l2.len() && #[trigger] s1.spec_live_insts()[i] implies l2[i] by {}
                assert forall|b: int| 0 <= b < bl2.len() && #[trigger] s1.spec_live_blocks()[b] implies bl2[b] by {}
            }
            assert(s1.live_blocks@[entry.0 as int]);
            assert(least_live(&f0, &c0, pdf@, f0.layout@.order[0], results_live@, r.0@, r.1@));
        }
        r
    };
    remove_dead_code(func, cfg, &live_insts, &live_blocks);
}

/// Filtering by predicates that agree on the elements gives the same sequence.
proof fn lemma_filter_agree(s: Seq<Inst>, p: spec_fn(Inst) -> bool, q: spec_fn(Inst) -> bool)
    requires
        forall|k: int| 0 <= k < s.len() ==> p(#[trigger] s[k]) == q(s[k]),
    ensures
        s.filter(p) == s.filter(q),
    decreases s.len(),
{
    reveal(Seq::filter);
    if s.len() > 0 {
        assert forall|k: int| 0 <= k < s.drop_last().len() implies p(#[trigger] s.drop_last()[k]) == q(s.drop_last()[k]) by {
            assert(s.drop_last()[k] == s[k]);
        }
        lemma_filter_agree(s.drop_last(), p, q);
        assert(p(s[s.len() - 1]) == q(s[s.len() - 1]));
    }
}

/// Filtering by a predicate that holds of every element gives the sequence back.
proof fn lemma_filter_all(s: Seq<Inst>, p: spec_fn(Inst) -> bool)
    requires
        forall|k: int| 0 <= k < s.len() ==> p(#[trigger] s[k]),
    ensures
        s.filter(p) == s,
    decreases s.len(),
{
    reveal(Seq::filter);
    if s.len() > 0 {
        assert forall|k: int| 0 <= k < s.drop_last().len() implies p(#[trigger] s.drop_last()[k]) by {
            assert(s.drop_last()[k] == s[k]);
        }
        lemma_filter_all(s.drop_last(), p);
        assert(p(s[s.len() - 1]));
        assert(s.drop_last().push(s.last()) =~= s);
    }
}

/// Filtering keeps a sequence free of duplicates.
proof fn lemma_filter_no_dup(s: Seq<Inst>, p: spec_fn(Inst) -> bool)
    requires
        s.no_duplicates(),
    ensures
        s.filter(p).no_duplicates(),
    decreases s.len(),
{
    reveal(Seq::filter);
    if s.len() > 0 {
        let d = s.drop_last();
        let l = s.last();
        assert(d.no_duplicates()) by {
            assert forall|a: int, b: int| 0 <= a < b < d.len() implies d[a] != d[b] by {
                assert(d[a] == s[a] && d[b] == s[b]);
            }
        }
        lemma_filter_no_dup(d, p);
        let sub = d.filter(p);
        if p(l) {
            assert(!sub.contains(l)) by {
                if sub.contains(l) {
                    d.lemma_filter_contains_rev(p, l);
                    let k = d.index_of(l);
                    assert(s[k] == s[s.len() - 1]);
                }
            }
            assert forall|a: int, b: int| 0 <= a < b < sub.push(l).len() implies sub.push(l)[a] != sub.push(l)[b] by {
                if b == sub.len() {
                    assert(sub[a] == sub.push(l)[a]);
                }
            }
        }
    }
}

/// Taking an element that the filter keeps out of the filtered sequence is filtering it out
/// as well.
proof fn lemma_filter_remove(s: Seq<Inst>, p: spec_fn(Inst) -> bool, x: Inst)
    requires
        s.no_duplicates(),
        s.contains(x),
        p(x),
    ensures
        s.filter(p).contains(x),
        s.filter(p).remove(s.filter(p).index_of(x)) == s.filter(|i: Inst| p(i) && i != x),
    decreases s.len(),
{
    reveal(Seq::filter);
    let q = |i: Inst| p(i) && i != x;
    let d = s.drop_last();
    let l = s.last();
    assert(d.no_duplicates()) by {
        assert forall|a: int, b: int| 0 <= a < b < d.len() implies d[a] != d[b] by {
            assert(d[a] == s[a] && d[b] == s[b]);
        }
    }
    let sub = d.filter(p);
    if l == x {
        assert(!d.contains(x)) by {
            if d.contains(x) {
                let k = d.index_of(x);
                assert(s[k] == s[s.len() - 1]);
            }
        }
        assert(!sub.contains(x)) by {
            if sub.contains(x) {
                d.lemma_filter_contains_rev(p, x);
            }
        }
        assert(s.filter(p) == sub.push(x));
        assert(sub.push(x)[sub.len() as int] == x);
        assert(sub.push(x).index_of(x) == sub.len()) by {
            let k = sub.push(x).index_of(x);
            if k < sub.len() {
                assert(sub[k] == x);
            }
        }
        assert(sub.push(x).remove(sub.len() as int) =~= sub);
        assert(s.filter(q) == d.filter(q));
        assert forall|k: int| 0 <= k < d.len() implies p(#[trigger] d[k]) == q(d[k]) by {
            if d[k] == x {
                assert(d.contains(x));
            }
        }
        lemma_filter_agree(d, p, q);
    } else {
        assert(d.contains(x)) by {
            let k = s.index_of(x);
            assert(k != s.len() - 1);
            assert(d[k] == x);
        }
        lemma_filter_remove(d, p, x);
        lemma_filter_no_dup(s, p);
        let i = sub.index_of(x);
        if p(l) {
            assert(s.filter(p) == sub.push(l));
            assert(sub.push(l).index_of(x) == i) by {
                assert(sub.push(l)[i] == x);
                let k = sub.push(l).index_of(x);
            }
            assert(sub.push(l).contains(x)) by {
                assert(sub.push(l)[i] == x);
            }
            assert(sub.push(l).remove(i) =~= sub.remove(i).push(l));
            assert(s.filter(q) == d.filter(q).push(l));
        } else {
            assert(s.filter(p) == sub);
            assert(s.filter(q) == d.filter(q));
        }
    }
}

/// Instruction `i` is taken out of the layout by the removal step: it is dead and no
/// terminator.
pub open spec fn dce_removes(insts: Seq<InstructionData>, live: Seq<bool>, i: Inst) -> bool {
    !live[i.0 as int] && !(insts[i.0 as int] is Branch || insts[i.0 as int] is Jump)
}

/// Every branch and jump placed in `f` leads to blocks of `f`.
pub open spec fn jumps_valid(f: &Function) -> bool {
    forall|b: int, j: int|
        0 <= b < f.layout@.num_blocks() && 0 <= j < f.layout@.insts[b].len() ==> match f.dfg.insts@[(
        #[trigger] f.layout@.insts[b][j]).0 as int] {
            InstructionData::Jump { destination } => destination.0 < f.layout@.num_blocks(),
            InstructionData::Branch { then_dst, else_dst, .. } => then_dst.0 < f.layout@.num_blocks() && else_dst.0
                < f.layout@.num_blocks(),
            _ => true,
        }
}

/// Block `b` is dead and, in the block contents `blocks`, ends in an instruction that is a
/// branch in `insts`: the removal step turns it into a jump.
pub open spec fn dce_rewrites(blocks: Seq<Seq<Inst>>, insts: Seq<InstructionData>, live_blocks: Seq<bool>, b: int) -> bool {
    &&& !live_blocks[b]
    &&& opt_last(blocks[b]) matches Some(t) && insts[t.0 as int] is Branch
}

/// The number of the last instruction of block `b`.
pub open spec fn last_index(blocks: Seq<Seq<Inst>>, b: int) -> int {
    blocks[b].last().0 as int
}

/// The `else` destination of a branch.
pub open spec fn else_of(d: InstructionData) -> Block {
    match d {
        InstructionData::Branch { else_dst, .. } => else_dst,
        _ => Block(0),
    }
}

/// Instruction `i` is the last of a block that the removal step rewrites.
pub open spec fn dce_rewritten_inst(blocks: Seq<Seq<Inst>>, insts: Seq<InstructionData>, live_blocks: Seq<bool>, hi: int, i: int) -> bool {
    exists|b: int| 0 <= b < hi && #[trigger] dce_rewrites(blocks, insts, live_blocks, b) && opt_last(blocks[b]) == Some(Inst(i as u32))
}

/// `f1` and `c1` are the function `f0` and its graph `c0` after the removal step with the
/// live instructions `live` and live blocks `lb` (see [`remove_dead_code`]).
pub open spec fn dce_removal(f0: Function, c0: ControlFlowGraph, f1: Function, c1: ControlFlowGraph, live: Seq<bool>, lb: Seq<bool>) -> bool {
    &&& f1.layout@.order == f0.layout@.order
    &&& f1.layout@.insts.len() == f0.layout@.insts.len()
    &&& forall|b: int|
        0 <= b < f0.layout@.num_blocks() ==> #[trigger] f1.layout@.insts[b] == f0.layout@.insts[b].filter(
            |i: Inst| !dce_removes(f0.dfg.insts@, live, i),
        )
    &&& f1.dfg.insts@.len() == f0.dfg.insts@.len()
    &&& forall|i: int|
        0 <= i < f0.dfg.insts@.len() ==> #[trigger] f1.dfg.insts@[i] == (if dce_rewritten_inst(
            f1.layout@.insts,
            f0.dfg.insts@,
            lb,
            f0.layout@.num_blocks() as int,
            i,
        ) {
            InstructionData::Jump { destination: else_of(f0.dfg.insts@[i]) }
        } else {
            f0.dfg.insts@[i]
        })
    &&& c1@.len() == c0@.len()
    &&& forall|b: int|
        0 <= b < c0@.len() ==> #[trigger] c1@[b] == (if dce_rewrites(f1.layout@.insts, f0.dfg.insts@, lb, b) {
            seq![else_of(f0.dfg.insts@[last_index(f1.layout@.insts, b)])]
        } else {
            c0@[b]
        })
    &&& f1.dfg.values == f0.dfg.values
    &&& f1.dfg.signatures == f0.dfg.signatures
}

/// Take out of the layout what the analysis left dead (see [`AggressiveDeadCode::solve`]):
/// every dead instruction but the terminators; then a dead block ending in a branch ends in
/// a jump to the branch's `else` destination instead, and its edges are recomputed.
#[verifier::rlimit(60)]
pub fn remove_dead_code(func: &mut Function, cfg: &mut ControlFlowGraph, live_insts: &Vec<bool>, live_blocks: &Vec<bool>)
    requires
        old(func).layout.wf(),
        old(cfg).wf(),
        old(cfg).spec_valid(),
        old(cfg)@.len() == old(func).layout@.num_blocks(),
        live_insts@.len() == old(func).dfg.insts@.len(),
        live_blocks@.len() == old(func).layout@.num_blocks(),
        forall|b: int, j: int|
            0 <= b < old(func).layout@.num_blocks() && 0 <= j < old(func).layout@.insts[b].len() ==> (
            #[trigger] old(func).layout@.insts[b][j]).0 < old(func).dfg.insts@.len(),
        jumps_valid(&*old(func)),
        old(func).dfg.insts@.len() < u32::MAX,
    ensures
        final(func).layout.wf(),
        dce_removal(*old(func), *old(cfg), *final(func), *final(cfg), live_insts@, live_blocks@),
        final(cfg).wf(),
        final(cfg).spec_valid(),
{
    proof {
        func.layout.lemma_valid();
    }
    let ghost l0 = func.layout@;
    let ghost insts0 = func.dfg.insts@;
    let ghost live = live_insts@;
    let n = func.layout.num_blocks();
    let m = func.dfg.insts.len();
    proof {
        assert forall|b: int| 0 <= b < n implies #[trigger] func.layout@.insts[b] == l0.insts[b].filter(
            |i: Inst| !(i.0 < 0 && dce_removes(insts0, live, i)),
        ) by {
            lemma_filter_all(l0.insts[b], |i: Inst| !(i.0 < 0 && dce_removes(insts0, live, i)));
        }
    }
    let mut k: usize = 0;
    while k < m
        invariant
            func.layout.wf(),
            l0.valid(),
            l0 == old(func).layout@,
            insts0 == old(func).dfg.insts@,
            live == live_insts@,
            live.len() == m,
            m < u32::MAX,
            func.dfg == old(func).dfg,
            m == insts0.len(),
            n == l0.num_blocks(),
            k <= m,
            func.layout@.order == l0.order,
            func.layout@.insts.len() == l0.insts.len(),
            forall|b: int|
                0 <= b < n ==> #[trigger] func.layout@.insts[b] == l0.insts[b].filter(
                    |i: Inst| !(i.0 < k && dce_removes(insts0, live, i)),
                ),
        decreases m - k,
    {
        let inst = Inst(k as u32);
        let ghost cur = func.layout@;
        let ghost pk = |i: Inst| !(i.0 < k && dce_removes(insts0, live, i));
        let ghost pk1 = |i: Inst| !(i.0 < k + 1 && dce_removes(insts0, live, i));
        proof {
            assert(inst.0 as int == k);
        }
        if !live_insts[k] && !func.dfg.insts[k].is_terminator() && func.layout.inst_block(inst).is_some() {
            proof {
                assert(dce_removes(insts0, live, inst));
                let bb = choose|c: int| 0 <= c < cur.insts.len() && #[trigger] cur.insts[c].contains(inst);
                assert(cur.insts[bb] == l0.insts[bb].filter(pk));
                l0.insts[bb].lemma_filter_contains_rev(pk, inst);
                lemma_filter_remove(l0.insts[bb], pk, inst);
            }
            func.layout.remove_inst(inst);
            proof {
                let bb = choose|c: int| 0 <= c < cur.insts.len() && #[trigger] cur.insts[c].contains(inst);
                assert(cur.block_of(inst) == Some(Block(bb as u32)));
                assert forall|b: int|
                    0 <= b < n implies #[trigger] func.layout@.insts[b] == l0.insts[b].filter(pk1) by {
                    if b == bb {
                        let q = |i: Inst| pk(i) && i != inst;
                        assert forall|j: int| 0 <= j < l0.insts[b].len() implies q(#[trigger] l0.insts[b][j]) == pk1(
                            l0.insts[b][j],
                        ) by {
                            let e = l0.insts[b][j];
                            if e.0 == k {
                                assert(e == inst);
                            }
                        }
                        lemma_filter_agree(l0.insts[b], q, pk1);
                    } else {
                        assert(func.layout@.insts[b] == cur.insts[b]);
                        assert forall|j: int| 0 <= j < l0.insts[b].len() implies pk(#[trigger] l0.insts[b][j]) == pk1(
                            l0.insts[b][j],
                        ) by {
                            let e = l0.insts[b][j];
                            if e.0 == k {
                                assert(e == inst);
                                assert(l0.insts[b].contains(inst));
                                l0.insts[bb].lemma_filter_contains_rev(pk, inst);
                            }
                        }
                        lemma_filter_agree(l0.insts[b], pk, pk1);
                    }
                }
            }
        } else {
            proof {
                assert forall|b: int|
                    0 <= b < n implies #[trigger] func.layout@.insts[b] == l0.insts[b].filter(pk1) by {
                    assert forall|j: int| 0 <= j < l0.insts[b].len() implies pk(#[trigger] l0.insts[b][j]) == pk1(
                        l0.insts[b][j],
                    ) by {
                        let e = l0.insts[b][j];
                        if e.0 == k && dce_removes(insts0, live, e) {
                            assert(e == inst);
                            l0.insts[b].lemma_filter_contains(pk, j);
                            assert(cur.insts[b].contains(inst));
                            assert(cur.inst_inserted(inst));
                        }
                    }
                    lemma_filter_agree(l0.insts[b], pk, pk1);
                }
            }
        }
        k += 1;
    }
    let ghost l1 = func.layout@;
    proof {
        assert forall|b: int| 0 <= b < n implies #[trigger] l1.insts[b] == l0.insts[b].filter(
            |i: Inst| !dce_removes(insts0, live, i),
        ) by {
            let pm = |i: Inst| !(i.0 < m && dce_removes(insts0, live, i));
            assert forall|j: int| 0 <= j < l0.insts[b].len() implies pm(#[trigger] l0.insts[b][j]) == !dce_removes(
                insts0,
                live,
                l0.insts[b][j],
            ) by {}
            lemma_filter_agree(l0.insts[b], pm, |i: Inst| !dce_removes(insts0, live, i));
        }
    }
    proof {
        func.layout.lemma_valid();
        assert forall|c: int, j: int| 0 <= c < n && 0 <= j < l1.insts[c].len() implies l0.insts[c].contains(
            #[trigger] l1.insts[c][j],
        ) by {
            assert(l1.insts[c].contains(l1.insts[c][j]));
            l0.insts[c].lemma_filter_contains_rev(|i: Inst| !dce_removes(insts0, live, i), l1.insts[c][j]);
        }
    }
    let ghost lb = live_blocks@;
    let mut b: usize = 0;
    while b < n
        invariant
            func.layout.wf(),
            func.layout@ == l1,
            l1.valid(),
            n == l1.num_blocks(),
            n == l0.num_blocks(),
            lb == live_blocks@,
            lb.len() == n,
            insts0 == old(func).dfg.insts@,
            forall|c: int, j: int| 0 <= c < n && 0 <= j < l1.insts[c].len() ==> l0.insts[c].contains(#[trigger] l1.insts[c][j]),
            forall|c: int, j: int| 0 <= c < n && 0 <= j < l0.insts[c].len() ==> (#[trigger] l0.insts[c][j]).0 < insts0.len(),
            forall|c: int, j: int|
                0 <= c < n && 0 <= j < l0.insts[c].len() ==> match insts0[(#[trigger] l0.insts[c][j]).0 as int] {
                    InstructionData::Jump { destination } => destination.0 < n,
                    InstructionData::Branch { then_dst, else_dst, .. } => then_dst.0 < n && else_dst.0 < n,
                    _ => true,
                },
            func.dfg.insts@.len() == insts0.len(),
            insts0.len() < u32::MAX,
            forall|i: int|
                0 <= i < insts0.len() ==> #[trigger] func.dfg.insts@[i] == (if dce_rewritten_inst(l1.insts, insts0, lb, b as int, i) {
                    InstructionData::Jump { destination: else_of(insts0[i]) }
                } else {
                    insts0[i]
                }),
            func.dfg.values == old(func).dfg.values,
            func.dfg.signatures == old(func).dfg.signatures,
            cfg.wf(),
            cfg.spec_valid(),
            cfg@.len() == n,
            forall|c: int|
                0 <= c < n ==> #[trigger] cfg@[c] == (if c < b && dce_rewrites(l1.insts, insts0, lb, c) {
                    seq![else_of(insts0[last_index(l1.insts, c)])]
                } else {
                    old(cfg)@[c]
                }),
            b <= n,
        decreases n - b,
    {
        let blk = Block(b as u32);
        let ghost before = func.dfg.insts@;
        let ghost cfg0 = cfg@;
        proof {
            assert(blk.0 as int == b);
            assert forall|c: int| 0 <= c < n && (#[trigger] l1.insts[c]).len() > 0 implies {
                let t = l1.insts[c].last();
                &&& t.0 < func.dfg.insts@.len()
                &&& match func.dfg.insts@[t.0 as int] {
                    InstructionData::Jump { destination } => destination.0 < func.layout@.num_blocks(),
                    InstructionData::Branch { then_dst, else_dst, .. } => then_dst.0 < func.layout@.num_blocks() && else_dst.0
                        < func.layout@.num_blocks(),
                    _ => true,
                }
            } by {
                let t = l1.insts[c].last();
                assert(l1.insts[c][l1.insts[c].len() - 1] == t);
                assert(l0.insts[c].contains(t));
                let j = l0.insts[c].index_of(t);
                assert(l0.insts[c][j] == t);
            }
            assert(terminators_valid(func));
        }
        if !live_blocks[b] {
            match func.layout.last_inst(blk) {
                Some(term) => {
                    proof {
                        let s = l1.insts[b as int];
                        assert(s[s.len() - 1] == term);
                        assert(l0.insts[b as int].contains(term));
                        let j = l0.insts[b as int].index_of(term);
                        assert(l0.insts[b as int][j] == term);
                        if dce_rewritten_inst(l1.insts, insts0, lb, b as int, term.0 as int) {
                            let c = choose|c: int|
                                0 <= c < b && #[trigger] dce_rewrites(l1.insts, insts0, lb, c) && opt_last(l1.insts[c]) == Some(
                                    Inst(term.0 as int as u32),
                                );
                            assert(l1.insts[c][l1.insts[c].len() - 1] == term);
                            assert(l1.insts[c].contains(term));
                            assert(s.contains(term));
                        }
                        assert(func.dfg.insts@[term.0 as int] == insts0[term.0 as int]);
                    }
                    let is_branch_else = match &func.dfg.insts[term.0 as usize] {
                        InstructionData::Branch { else_dst, .. } => Some(*else_dst),
                        _ => None,
                    };
                    if let Some(else_dst) = is_branch_else {
                        func.dfg.insts.set(term.0 as usize, InstructionData::Jump { destination: else_dst });
                        proof {
                            assert forall|c: int| 0 <= c < n && (#[trigger] l1.insts[c]).len() > 0 implies {
                                let t = l1.insts[c].last();
                                &&& t.0 < func.dfg.insts@.len()
                                &&& match func.dfg.insts@[t.0 as int] {
                                    InstructionData::Jump { destination } => destination.0 < func.layout@.num_blocks(),
                                    InstructionData::Branch { then_dst, else_dst, .. } => then_dst.0 < func.layout@.num_blocks()
                                        && else_dst.0 < func.layout@.num_blocks(),
                                    _ => true,
                                }
                            } by {
                                let t = l1.insts[c].last();
                                assert(l1.insts[c][l1.insts[c].len() - 1] == t);
                                assert(l0.insts[c].contains(t));
                                let j = l0.insts[c].index_of(t);
                                assert(l0.insts[c][j] == t);
                            }
                            assert(terminators_valid(func));
                        }
                        cfg.recompute_block(func, blk);
                    }
                },
                None => {},
            }
        }
        proof {
            assert forall|i: int|
                0 <= i < insts0.len() implies #[trigger] func.dfg.insts@[i] == (if dce_rewritten_inst(
                    l1.insts,
                    insts0,
                    lb,
                    b + 1,
                    i,
                ) {
                    InstructionData::Jump { destination: else_of(insts0[i]) }
                } else {
                    insts0[i]
                }) by {
                if dce_rewritten_inst(l1.insts, insts0, lb, b + 1, i) && !dce_rewritten_inst(l1.insts, insts0, lb, b as int, i) {
                    let c = choose|c: int|
                        0 <= c < b + 1 && #[trigger] dce_rewrites(l1.insts, insts0, lb, c) && opt_last(l1.insts[c]) == Some(
                            Inst(i as u32),
                        );
                    assert(c == b);
                    assert(Inst(i as u32).0 as int == i);
                }
                if dce_rewritten_inst(l1.insts, insts0, lb, b as int, i) {
                    let c = choose|c: int|
                        0 <= c < b && #[trigger] dce_rewrites(l1.insts, insts0, lb, c) && opt_last(l1.insts[c]) == Some(
                            Inst(i as u32),
                        );
                    assert(dce_rewrites(l1.insts, insts0, lb, c));
                }
                if !dce_rewritten_inst(l1.insts, insts0, lb, b + 1, i) && dce_rewrites(l1.insts, insts0, lb, b as int)
                    && opt_last(l1.insts[b as int]) == Some(Inst(i as u32)) {
                    assert(dce_rewrites(l1.insts, insts0, lb, b as int));
                }
            }
        }
        b += 1;
    }
}


/// A placed call of a function with side effects is a root whatever results are wanted:
/// the least live marking holds it, and the removal that follows keeps it in its block.
pub proof fn lemma_side_effect_calls_survive(
    f0: Function,
    c0: ControlFlowGraph,
    pdf: Seq<Vec<bool>>,
    entry: Block,
    results_live: Seq<bool>,
    f1: Function,
    c1: ControlFlowGraph,
    l: Seq<bool>,
    bl: Seq<bool>,
    b: int,
    i: int,
)
    requires
        least_live(&f0, &c0, pdf, entry, results_live, l, bl),
        f0.dfg.insts@.len() < u32::MAX,
        0 <= b < f0.layout@.num_blocks(),
        0 <= i < f0.dfg.insts@.len(),
        f0.layout@.insts[b].contains(Inst(i as u32)),
        f0.dfg.insts@[i] matches InstructionData::Call { func_ref, .. } && f0.dfg.signatures@[func_ref.0 as int].has_side_effects,
    ensures
        l[i],
        dce_removal(f0, c0, f1, c1, l, bl) ==> f1.layout@.insts[b].contains(Inst(i as u32)),
{
    assert(f0.layout@.inst_inserted(Inst(i as u32)));
    assert(Inst(i as u32).0 == i);
    assert(dce_root(&f0, results_live, i));
    assert(l[i]);
    if dce_removal(f0, c0, f1, c1, l, bl) {
        let s = f0.layout@.insts[b];
        let k = choose|k: int| 0 <= k < s.len() && s[k] == Inst(i as u32);
        let p = |x: Inst| !dce_removes(f0.dfg.insts@, l, x);
        assert(p(s[k]));
        s.lemma_filter_contains(p, k);
        assert(f1.layout@.insts[b] == s.filter(p));
    }
}

/// What the least live marking holds: the entry block; the block of every live
/// instruction; the instructions that define the operands of a live instruction; the jump
/// that ends a live block; and the branch that ends a block in the post-dominance frontier
/// of a live block, which decides whether that block runs.
pub proof fn lemma_least_live_rules(
    f: &Function,
    cfg: &ControlFlowGraph,
    pdf: Seq<Vec<bool>>,
    entry: Block,
    results_live: Seq<bool>,
    l: Seq<bool>,
    bl: Seq<bool>,
    i: int,
    j: int,
    b: int,
    d: int,
)
    requires
        least_live(f, cfg, pdf, entry, results_live, l, bl),
    ensures
        bl[entry.0 as int],
        0 <= i < l.len() && l[i] ==> (f.layout@.block_of(Inst(i as u32)) matches Some(c) && bl[c.0 as int]),
        0 <= i < l.len() && l[i] && 0 <= j < f.dfg.insts@[i].spec_arguments().len() ==> (spec_def(
            f.dfg.values@.types[f.dfg.insts@[i].spec_arguments()[j].0 as int],
        ) matches ValueDef::Result(op_def, _) ==> l[op_def.0 as int]),
        0 <= b < bl.len() && bl[b] && b != entry.0 ==> (opt_last(f.layout@.insts[b]) matches Some(t) ==> (f.dfg.insts@[t.0 as int] is Jump
            ==> l[t.0 as int])),
        0 <= b < bl.len() && bl[b] && b != entry.0 && 0 <= d < pdf[b]@.len() && pdf[b]@[d] ==> (opt_last(f.layout@.insts[d]) matches Some(t)
            ==> (f.dfg.insts@[t.0 as int] is Branch ==> l[t.0 as int])),
{
    if 0 <= i < l.len() && l[i] && 0 <= j < f.dfg.insts@[i].spec_arguments().len() {
        let a = f.dfg.insts@[i].spec_arguments()[j];
        assert(def_inst(f, a) == (match spec_def(f.dfg.values@.types[a.0 as int]) {
            ValueDef::Result(x, _) => Some(x),
            _ => None,
        }));
    }
    if 0 <= b < bl.len() && bl[b] && b != entry.0 {
        assert(deciders_live(f, pdf, l, b));
        if 0 <= d < pdf[b]@.len() && pdf[b]@[d] && ends_in_branch(f, d) {
            assert(l[last_of(f, d).unwrap().0 as int]);
        }
    }
}
} // verus!
