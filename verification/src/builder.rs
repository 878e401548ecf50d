//! Building MIR functions: places that the front end assigns to, and the single
//! variable that is added to a finished function.
use vstd::prelude::*;

use crate::cfg::ControlFlowGraph;
use crate::entities::{Block, Inst, Value};

verus! {

/// An opaque reference to a place: a variable or a (possibly mutable) memory location.
#[derive(Copy, Clone, PartialEq, Eq, Structural, Debug)]
pub struct Place(pub u32);

/// A builder that can finish the current block by returning from the function.
pub trait RetBuilder {
    /// Jump to the exit block; the jump instruction.
    fn ret(self) -> Inst;
}

/// Adds one (possibly mutable) variable to a finished function: its definitions at the
/// start of blocks are recorded here.
pub struct SSAVariableBuilder<'a> {
    cfg: &'a ControlFlowGraph,
    defs: Vec<Option<Value>>,
}

impl<'a> View for SSAVariableBuilder<'a> {
    type V = Map<Block, Value>;

    /// The value the variable is defined to at the start of each block that has one.
    closed spec fn view(&self) -> Map<Block, Value> {
        Map::new(
            |b: Block| 0 <= b.0 < self.defs@.len() && self.defs@[b.0 as int] is Some,
            |b: Block| self.defs@[b.0 as int].unwrap(),
        )
    }
}

impl<'a> SSAVariableBuilder<'a> {
    /// A builder for a function with the given control flow graph; no definitions yet.
    pub fn new(cfg: &'a ControlFlowGraph) -> (r: Self)
        ensures
            r@ == Map::<Block, Value>::empty(),
    {
        let r = SSAVariableBuilder { cfg, defs: Vec::new() };
        proof {
            assert(r@ =~= Map::<Block, Value>::empty());
        }
        r
    }

    /// Start over with a fresh variable: all definitions are dropped.
    pub fn new_var(&mut self)
        ensures
            final(self)@ == Map::<Block, Value>::empty(),
    {
        self.defs.clear();
        proof {
            assert(final(self)@ =~= Map::<Block, Value>::empty());
        }
    }

    /// Define the value of the variable at the start of block `bb`.
    pub fn def_var(&mut self, val: Value, bb: Block)
        ensures
            final(self)@ == old(self)@.insert(bb, val),
    {
        let ghost old_defs = self.defs@;
        let i = bb.0 as usize;
        while self.defs.len() <= i
            invariant
                self.defs@.len() >= old_defs.len(),
                forall|k: int| 0 <= k < old_defs.len() ==> self.defs@[k] == old_defs[k],
                forall|k: int| old_defs.len() <= k < self.defs@.len() ==> self.defs@[k] is None,
            decreases i + 1 - self.defs@.len(),
        {
            self.defs.push(None);
        }
        self.defs.set(i, Some(val));
        proof {
            assert forall|b: Block| #[trigger] final(self)@.contains_key(b) == old(self)@.insert(bb, val).contains_key(b) by {
                if b != bb && 0 <= b.0 < self.defs@.len() && b.0 >= old_defs.len() {
                    assert(self.defs@[b.0 as int] is None);
                }
            }
            assert(final(self)@ =~= old(self)@.insert(bb, val));
        }
    }
}

} // verus!
