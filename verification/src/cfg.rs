//! The control flow graph: for every block its predecessors and (at most two) successors.
use vstd::prelude::*;

use crate::entities::Block;
use crate::function::Function;
use crate::instructions::InstructionData;

verus! {

/// The successors of a block: at most two distinct blocks.
#[derive(Copy, Clone, Debug)]
pub struct Successors(Option<Block>, Option<Block>);

/// The sequence holding the block of an option, if any.
pub open spec fn opt_seq(o: Option<Block>) -> Seq<Block> {
    match o {
        Some(b) => seq![b],
        None => Seq::empty(),
    }
}

/// Membership in a sequence of one or two blocks.
proof fn lemma_small_contains(s: Seq<Block>, x: Block)
    requires
        1 <= s.len() <= 2,
    ensures
        s.len() == 1 ==> (s.contains(x) <==> x == s[0]),
        s.len() == 2 ==> (s.contains(x) <==> (x == s[0] || x == s[1])),
{
    if s.contains(x) {
        let i = s.index_of(x);
        assert(i == 0 || i == 1);
    }
    if x == s[0] {
        assert(s.contains(x));
    }
    if s.len() == 2 && x == s[1] {
        assert(s[1] == x);
        assert(s.contains(x));
    }
}

impl View for Successors {
    type V = Seq<Block>;

    /// The successors in iteration order.
    closed spec fn view(&self) -> Seq<Block> {
        opt_seq(self.0) + opt_seq(self.1)
    }
}

impl Successors {
    /// The second slot is only used when the first one is, and the two differ.
    pub closed spec fn wf(self) -> bool {
        &&& self.0 is None ==> self.1 is None
        &&& (self.0 is Some && self.1 is Some) ==> self.0 != self.1
    }

    /// Facts about the view of a well formed value.
    pub proof fn lemma_view(self)
        requires
            self.wf(),
        ensures
            self@.len() <= 2,
            self@.no_duplicates(),
    {
    }

    /// No successors.
    pub fn empty() -> (r: Self)
        ensures
            r.wf(),
            r@ == Seq::<Block>::empty(),
    {
        let r = Successors(None, None);
        proof {
            assert(r@ =~= Seq::<Block>::empty());
        }
        r
    }

    /// Are there no successors?
    pub fn is_empty(self) -> (r: bool)
        requires
            self.wf(),
        ensures
            r == (self@.len() == 0),
    {
        self.0.is_none()
    }

    /// Is `block` a successor?
    pub fn contains(self, block: Block) -> (r: bool)
        ensures
            r == self@.contains(block),
    {
        let a = match self.0 {
            Some(x) => x.0 == block.0,
            None => false,
        };
        let b = match self.1 {
            Some(x) => x.0 == block.0,
            None => false,
        };
        proof {
            if self@.contains(block) {
                let i = self@.index_of(block);
                if self.0 is Some {
                    assert(i == 0 || i == 1);
                }
            }
            if a {
                assert(self@[0] == block);
            }
            if b {
                assert(self@[self@.len() - 1] == block);
            }
        }
        a || b
    }

    /// The successors in order.
    pub fn iter(self) -> (r: Vec<Block>)
        ensures
            r@ == self@,
    {
        let mut r: Vec<Block> = Vec::new();
        if let Some(a) = self.0 {
            r.push(a);
        }
        if let Some(b) = self.1 {
            r.push(b);
        }
        proof {
            assert(r@ =~= self@);
        }
        r
    }

    /// The raw slots.
    pub fn as_array(self) -> (r: [Option<Block>; 2])
        ensures
            self@ == opt_seq(r[0]) + opt_seq(r[1]),
            self.wf() ==> (r[0] is None ==> r[1] is None),
    {
        [self.0, self.1]
    }

    /// Both successors, if there are two.
    pub fn as_pair(self) -> (r: Option<(Block, Block)>)
        requires
            self.wf(),
        ensures
            r == (if self@.len() == 2 { Some((self@[0], self@[1])) } else { None::<(Block, Block)> }),
    {
        match (self.0, self.1) {
            (Some(a), Some(b)) => Some((a, b)),
            _ => None,
        }
    }

    /// Remove all successors.
    pub fn clear(&mut self)
        ensures
            final(self).wf(),
            final(self)@ == Seq::<Block>::empty(),
    {
        self.0 = None;
        self.1 = None;
        proof {
            assert(final(self)@ =~= Seq::<Block>::empty());
        }
    }

    /// Remove and return the last successor.
    pub fn pop(&mut self) -> (r: Option<Block>)
        ensures
            r == (if old(self)@.len() == 0 { None::<Block> } else { Some(old(self)@.last()) }),
            final(self)@ == (if old(self)@.len() == 0 { old(self)@ } else { old(self)@.drop_last() }),
            old(self).wf() ==> final(self).wf(),
    {
        match self.1 {
            Some(b) => {
                self.1 = None;
                proof {
                    assert(final(self)@ =~= old(self)@.drop_last());
                }
                Some(b)
            },
            None => {
                let r = self.0;
                self.0 = None;
                proof {
                    assert(final(self)@ =~= (if old(self)@.len() == 0 { old(self)@ } else { old(self)@.drop_last() }));
                }
                r
            },
        }
    }

    /// Add `block` as a successor. Returns whether the successors changed.
    /// There must be room for it unless it is already a successor.
    pub fn insert(&mut self, block: Block) -> (r: bool)
        requires
            old(self).wf(),
            old(self)@.len() < 2 || old(self)@.contains(block),
        ensures
            final(self).wf(),
            r == !old(self)@.contains(block),
            final(self)@ == (if old(self)@.contains(block) { old(self)@ } else { old(self)@.push(block) }),
    {
        match self.0 {
            None => {
                self.0 = Some(block);
                proof {
                    assert(final(self)@ =~= old(self)@.push(block));
                }
                true
            },
            Some(a) => {
                if a.0 == block.0 {
                    proof {
                        assert(old(self)@[0] == block);
                    }
                    return false;
                }
                match self.1 {
                    None => {
                        self.1 = Some(block);
                        proof {
                            assert(!old(self)@.contains(block)) by {
                                assert(old(self)@ =~= seq![a]);
                            }
                            assert(final(self)@ =~= old(self)@.push(block));
                        }
                        true
                    },
                    Some(b) => {
                        proof {
                            assert(old(self)@ =~= seq![a, b]);
                            assert(b == block);
                            assert(old(self)@[1] == block);
                        }
                        false
                    },
                }
            },
        }
    }
}

} // verus!

verus! {

/// The blocks of `s` are strictly increasing by number (a sorted set).
pub open spec fn sorted_blocks(s: Seq<Block>) -> bool {
    forall|i: int, j: int| 0 <= i < j < s.len() ==> (#[trigger] s[i]).0 < (#[trigger] s[j]).0
}

/// Is `a` a predecessor of `b` in the graph given by successor lists?
pub open spec fn is_pred(succs: Seq<Seq<Block>>, a: Block, b: Block) -> bool {
    a.0 < succs.len() && succs[a.0 as int].contains(b)
}

/// Insert `b` into a sorted set of blocks; returns whether it was new.
fn sorted_insert(v: &mut Vec<Block>, b: Block) -> (r: bool)
    requires
        sorted_blocks(old(v)@),
    ensures
        sorted_blocks(final(v)@),
        r == !old(v)@.contains(b),
        forall|x: Block| #[trigger] final(v)@.contains(x) <==> (old(v)@.contains(x) || x == b),
{
    let mut k: usize = 0;
    while k < v.len() && v[k].0 < b.0
        invariant
            k <= v@.len(),
            v@ == old(v)@,
            sorted_blocks(v@),
            forall|i: int| 0 <= i < k ==> (#[trigger] v@[i]).0 < b.0,
        decreases v@.len() - k,
    {
        k += 1;
    }
    if k < v.len() && v[k].0 == b.0 {
        proof {
            assert(v@[k as int] == b);
        }
        return false;
    }
    proof {
        assert(!old(v)@.contains(b)) by {
            if old(v)@.contains(b) {
                let i = old(v)@.index_of(b);
                if i < k {
                } else if i > k {
                    assert(v@[k as int].0 < v@[i].0);
                }
            }
        }
    }
    v.insert(k, b);
    proof {
        let nv = v@;
        assert forall|i: int, j: int| 0 <= i < j < nv.len() implies (#[trigger] nv[i]).0 < (#[trigger] nv[j]).0 by {
            if i < k {
                if j < k {
                    assert(nv[j] == old(v)@[j]);
                } else if j > k {
                    assert(nv[j] == old(v)@[j - 1]);
                    if j - 1 > k {
                        assert(old(v)@[k as int].0 < old(v)@[j - 1].0);
                    }
                    assert(old(v)@[i].0 < b.0);
                }
            } else if i == k {
                assert(nv[j] == old(v)@[j - 1]);
                if j - 1 > k {
                    assert(old(v)@[k as int].0 < old(v)@[j - 1].0);
                }
            } else {
                assert(nv[i] == old(v)@[i - 1]);
                assert(nv[j] == old(v)@[j - 1]);
            }
        }
        assert forall|x: Block| #[trigger] nv.contains(x) <==> (old(v)@.contains(x) || x == b) by {
            if nv.contains(x) {
                let i = nv.index_of(x);
                if i < k {
                    assert(old(v)@[i] == x);
                } else if i > k {
                    assert(old(v)@[i - 1] == x);
                }
            }
            if old(v)@.contains(x) {
                let i = old(v)@.index_of(x);
                if i < k {
                    assert(nv[i] == x);
                } else {
                    assert(nv[i + 1] == x);
                }
            }
            if x == b {
                assert(nv[k as int] == b);
            }
        }
    }
    true
}

/// Remove `b` from a sorted set of blocks.
fn sorted_remove(v: &mut Vec<Block>, b: Block)
    requires
        sorted_blocks(old(v)@),
    ensures
        sorted_blocks(final(v)@),
        forall|x: Block| #[trigger] final(v)@.contains(x) <==> (old(v)@.contains(x) && x != b),
{
    let mut k: usize = 0;
    while k < v.len()
        invariant
            k <= v@.len(),
            v@ == old(v)@,
            sorted_blocks(old(v)@),
            forall|i: int| 0 <= i < k ==> (#[trigger] v@[i]) != b,
        decreases v@.len() - k,
    {
        if v[k].0 == b.0 {
            v.remove(k);
            proof {
                let nv = v@;
                assert forall|i: int, j: int| 0 <= i < j < nv.len() implies (#[trigger] nv[i]).0 < (#[trigger] nv[j]).0 by {
                    if i < k {
                        if j < k {
                            assert(nv[j] == old(v)@[j]);
                        } else {
                            assert(nv[j] == old(v)@[j + 1]);
                        }
                    } else {
                        assert(nv[i] == old(v)@[i + 1]);
                        assert(nv[j] == old(v)@[j + 1]);
                    }
                }
                assert forall|x: Block| #[trigger] nv.contains(x) <==> (old(v)@.contains(x) && x != b) by {
                    if nv.contains(x) {
                        let i = nv.index_of(x);
                        if i < k {
                            assert(old(v)@[i] == x);
                        } else {
                            assert(old(v)@[i + 1] == x);
                            assert(old(v)@[k as int].0 < old(v)@[i + 1].0);
                        }
                    }
                    if old(v)@.contains(x) && x != b {
                        let i = old(v)@.index_of(x);
                        if i < k {
                            assert(nv[i] == x);
                        } else {
                            assert(i != k);
                            assert(nv[i - 1] == x);
                        }
                    }
                }
            }
            return;
        }
        k += 1;
    }
}

} // verus!

verus! {

/// The predecessors and successors of one block.
#[derive(Clone, Debug)]
pub struct CFGNode {
    /// The predecessors as a sorted set.
    pub predecessors: Vec<Block>,
    pub successors: Successors,
}

/// The control flow graph of a function.
pub struct ControlFlowGraph {
    data: Vec<CFGNode>,
    valid: bool,
}

impl View for ControlFlowGraph {
    type V = Seq<Seq<Block>>;

    /// The successor list of every block.
    closed spec fn view(&self) -> Seq<Seq<Block>> {
        self.data@.map_values(|n: CFGNode| n.successors@)
    }
}

impl ControlFlowGraph {
    /// The predecessor sets agree with the successor lists.
    pub closed spec fn wf(&self) -> bool {
        let d = self.data@;
        &&& d.len() <= u32::MAX
        &&& forall|b: int| 0 <= b < d.len() ==> (#[trigger] d[b]).successors.wf()
        &&& forall|b: int| 0 <= b < d.len() ==> sorted_blocks((#[trigger] d[b]).predecessors@)
        &&& forall|b: int, x: Block|
            0 <= b < d.len() && #[trigger] d[b].successors@.contains(x) ==> x.0 < d.len()
        &&& forall|b: int, x: Block|
            0 <= b < d.len() && #[trigger] d[b].predecessors@.contains(x) ==> x.0 < d.len()
        &&& forall|a: int, b: int|
            0 <= a < d.len() && 0 <= b < d.len() ==> (#[trigger] d[a].successors@.contains(Block(b as u32))
                <==> #[trigger] d[b].predecessors@.contains(Block(a as u32)))
    }

    /// Has `compute` been called since the last `clear`?
    pub closed spec fn spec_valid(&self) -> bool {
        self.valid
    }

    /// Facts about the graph of a well formed value.
    pub proof fn lemma_view(&self)
        requires
            self.wf(),
        ensures
            self@.len() <= u32::MAX,
            forall|b: int| 0 <= b < self@.len() ==> (#[trigger] self@[b]).len() <= 2,
            forall|b: int| 0 <= b < self@.len() ==> (#[trigger] self@[b]).no_duplicates(),
            forall|b: int, x: Block| 0 <= b < self@.len() && #[trigger] self@[b].contains(x) ==> x.0 < self@.len(),
    {
        assert forall|b: int| 0 <= b < self@.len() implies (#[trigger] self@[b]).len() <= 2 && self@[b].no_duplicates() by {
            self.data@[b].successors.lemma_view();
        }
    }

    /// Allocate a new blank control flow graph.
    pub fn new() -> (r: Self)
        ensures
            r.wf(),
            r@ == Seq::<Seq<Block>>::empty(),
            !r.spec_valid(),
    {
        let r = ControlFlowGraph { data: Vec::new(), valid: false };
        proof {
            assert(r@ =~= Seq::<Seq<Block>>::empty());
        }
        r
    }

    /// Clear all data.
    pub fn clear(&mut self)
        ensures
            final(self).wf(),
            final(self)@ == Seq::<Seq<Block>>::empty(),
            !final(self).spec_valid(),
    {
        self.data.clear();
        self.valid = false;
        proof {
            assert(final(self)@ =~= Seq::<Seq<Block>>::empty());
        }
    }

    /// Check if the CFG is in a valid state: `compute` was called since the last `clear`.
    pub fn is_valid(&self) -> (r: bool)
        ensures
            r == self.spec_valid(),
    {
        self.valid
    }

    /// Resize the graph to `block + 1` blocks. New blocks have no edges; the graph may only grow.
    pub fn ensure_block(&mut self, block: Block)
        requires
            old(self).wf(),
            old(self)@.len() <= block.0 as int + 1,
            block.0 < u32::MAX,
        ensures
            final(self).wf(),
            final(self)@ == old(self)@ + Seq::new((block.0 + 1 - old(self)@.len()) as nat, |i: int| Seq::<Block>::empty()),
            final(self).spec_valid() == old(self).spec_valid(),
    {
        let want = block.0 as usize + 1;
        let ghost old_data = self.data@;
        while self.data.len() < want
            invariant
                old(self).wf(),
                old_data == old(self).data@,
                self.valid == old(self).valid,
                old_data.len() <= self.data@.len() <= want,
                want == block.0 + 1,
                forall|k: int| 0 <= k < old_data.len() ==> #[trigger] self.data@[k] == old_data[k],
                forall|k: int| old_data.len() <= k < self.data@.len() ==> (#[trigger] self.data@[k]).predecessors@.len() == 0
                    && self.data@[k].successors.wf() && self.data@[k].successors@.len() == 0,
            decreases want - self.data@.len(),
        {
            self.data.push(CFGNode { predecessors: Vec::new(), successors: Successors::empty() });
        }
        proof {
            let d = self.data@;
            assert forall|a: int, b: int|
                0 <= a < d.len() && 0 <= b < d.len() implies (#[trigger] d[a].successors@.contains(Block(b as u32))
                    <==> #[trigger] d[b].predecessors@.contains(Block(a as u32))) by {
                if a < old_data.len() && b < old_data.len() {
                    assert(d[a] == old_data[a] && d[b] == old_data[b]);
                } else if a < old_data.len() {
                    assert(d[a] == old_data[a]);
                    if old_data[a].successors@.contains(Block(b as u32)) {
                        assert(Block(b as u32).0 < old_data.len());
                    }
                } else if b < old_data.len() {
                    assert(d[b] == old_data[b]);
                    if old_data[b].predecessors@.contains(Block(a as u32)) {
                        assert(Block(a as u32).0 < old_data.len());
                    }
                }
            }
            assert forall|b: int, x: Block| 0 <= b < d.len() && #[trigger] d[b].successors@.contains(x) implies x.0 < d.len() by {
                if b < old_data.len() {
                    assert(d[b] == old_data[b]);
                }
            }
            assert forall|b: int, x: Block| 0 <= b < d.len() && #[trigger] d[b].predecessors@.contains(x) implies x.0 < d.len() by {
                if b < old_data.len() {
                    assert(d[b] == old_data[b]);
                }
            }
            assert forall|b: int| 0 <= b < d.len() implies (#[trigger] d[b]).successors.wf() && sorted_blocks(d[b].predecessors@) by {
                if b < old_data.len() {
                    assert(d[b] == old_data[b]);
                }
            }
            assert(final(self)@ =~= old(self)@ + Seq::new((block.0 + 1 - old(self)@.len()) as nat, |i: int| Seq::<Block>::empty()));
        }
    }

    /// The predecessors of `block`, in decreasing block order.
    pub fn pred_rev_iter(&self, block: Block) -> (r: Vec<Block>)
        requires
            self.wf(),
            block.0 < self@.len(),
        ensures
            forall|i: int, j: int| 0 <= i < j < r@.len() ==> (#[trigger] r@[i]).0 > (#[trigger] r@[j]).0,
            forall|x: Block| #[trigger] r@.contains(x) <==> is_pred(self@, x, block),
    {
        let preds = self.pred_iter(block);
        let mut r: Vec<Block> = Vec::new();
        let mut k: usize = preds.len();
        while k > 0
            invariant
                k <= preds@.len(),
                sorted_blocks(preds@),
                r@ == preds@.subrange(k as int, preds@.len() as int).reverse(),
            decreases k,
        {
            k -= 1;
            r.push(preds[k]);
            proof {
                assert(r@ =~= preds@.subrange(k as int, preds@.len() as int).reverse());
            }
        }
        proof {
            let n = preds@.len() as int;
            assert(r@ =~= preds@.reverse());
            assert forall|i: int, j: int| 0 <= i < j < r@.len() implies (#[trigger] r@[i]).0 > (#[trigger] r@[j]).0 by {
                assert(r@[i] == preds@[n - 1 - i]);
                assert(r@[j] == preds@[n - 1 - j]);
            }
            assert forall|x: Block| #[trigger] r@.contains(x) <==> preds@.contains(x) by {
                if r@.contains(x) {
                    let i = choose|i: int| 0 <= i < r@.len() && r@[i] == x;
                    assert(preds@[n - 1 - i] == x);
                }
                if preds@.contains(x) {
                    let i = choose|i: int| 0 <= i < n && preds@[i] == x;
                    assert(r@[n - 1 - i] == x);
                }
            }
        }
        r
    }

    /// The predecessors of `block`, in increasing block order.
    pub fn pred_iter(&self, block: Block) -> (r: Vec<Block>)
        requires
            self.wf(),
            block.0 < self@.len(),
        ensures
            sorted_blocks(r@),
            forall|x: Block| #[trigger] r@.contains(x) <==> is_pred(self@, x, block),
    {
        let r = self.data[block.0 as usize].predecessors.clone();
        proof {
            assert(r@ =~= self.data@[block.0 as int].predecessors@);
            assert forall|x: Block| #[trigger] r@.contains(x) <==> is_pred(self@, x, block) by {
                assert(Block(block.0 as int as u32) == block);
                if r@.contains(x) {
                    assert(x.0 < self.data@.len());
                    assert(Block(x.0 as int as u32) == x);
                }
                if is_pred(self@, x, block) {
                    assert(Block(x.0 as int as u32) == x);
                }
            }
        }
        r
    }

    /// The predecessors of a block form a sorted list.
    pub proof fn lemma_pred_list(&self, block: Block)
        requires
            self.wf(),
            block.0 < self@.len(),
        ensures
            exists|l: Seq<Block>| sorted_blocks(l) && forall|x: Block| #[trigger] l.contains(x) <==> is_pred(self@, x, block),
    {
        let l = self.data@[block.0 as int].predecessors@;
        assert forall|x: Block| #[trigger] l.contains(x) <==> is_pred(self@, x, block) by {
            assert(Block(block.0 as int as u32) == block);
            if l.contains(x) {
                assert(x.0 < self.data@.len());
                assert(Block(x.0 as int as u32) == x);
            }
            if is_pred(self@, x, block) {
                assert(Block(x.0 as int as u32) == x);
            }
        }
        assert(sorted_blocks(l));
    }

    /// The successors of `block`, in order.
    pub fn succ_iter(&self, block: Block) -> (r: Vec<Block>)
        requires
            self.wf(),
            block.0 < self@.len(),
        ensures
            r@ == self@[block.0 as int],
    {
        self.data[block.0 as usize].successors.iter()
    }

    /// The successors of `block`.
    pub fn successors_of(&self, block: Block) -> (r: Successors)
        requires
            self.wf(),
            block.0 < self@.len(),
        ensures
            r@ == self@[block.0 as int],
            r.wf(),
    {
        self.data[block.0 as usize].successors
    }

    /// Is `test_block` a predecessor of `this`?
    pub fn is_predecessor(&self, test_block: Block, this: Block) -> (r: bool)
        requires
            self.wf(),
            this.0 < self@.len(),
        ensures
            r == is_pred(self@, test_block, this),
    {
        let preds = self.pred_iter(this);
        let mut i: usize = 0;
        while i < preds.len()
            invariant
                i <= preds@.len(),
                forall|x: Block| #[trigger] preds@.contains(x) <==> is_pred(self@, x, this),
                forall|k: int| 0 <= k < i ==> preds@[k] != test_block,
            decreases preds@.len() - i,
        {
            if preds[i].0 == test_block.0 {
                proof {
                    assert(preds@[i as int] == test_block);
                    assert(preds@.contains(test_block));
                }
                return true;
            }
            i += 1;
        }
        proof {
            assert(!preds@.contains(test_block));
        }
        false
    }

    /// The single successor of `block`, if it has exactly one.
    pub fn single_successor_of(&self, block: Block) -> (r: Option<Block>)
        requires
            self.wf(),
            block.0 < self@.len(),
        ensures
            r == (if self@[block.0 as int].len() == 1 { Some(self@[block.0 as int][0]) } else { None::<Block> }),
    {
        let s = self.succ_iter(block);
        if s.len() == 1 {
            Some(s[0])
        } else {
            None
        }
    }

    /// The single predecessor of `block`, if it has exactly one.
    pub fn single_predecessor_of(&self, block: Block) -> (r: Option<Block>)
        requires
            self.wf(),
            block.0 < self@.len(),
        ensures
            r matches Some(p) ==> is_pred(self@, p, block) && forall|x: Block| is_pred(self@, x, block) ==> x == p,
            r is None ==> !(exists|p: Block| #![auto] is_pred(self@, p, block) && forall|x: Block| is_pred(self@, x, block) ==> x == p),
    {
        let s = self.pred_iter(block);
        if s.len() == 1 {
            proof {
                assert forall|x: Block| is_pred(self@, x, block) implies x == s@[0] by {
                    assert(s@.contains(x));
                }
                assert(s@.contains(s@[0]));
            }
            Some(s[0])
        } else {
            proof {
                if exists|p: Block| #![auto] is_pred(self@, p, block) && forall|x: Block| is_pred(self@, x, block) ==> x == p {
                    let p = choose|p: Block| #![auto] is_pred(self@, p, block) && forall|x: Block| is_pred(self@, x, block) ==> x == p;
                    assert(s@.contains(p));
                    if s@.len() > 1 {
                        assert(s@.contains(s@[0]) && s@.contains(s@[1]));
                        assert(s@[0] == p && s@[1] == p);
                    }
                }
            }
            None
        }
    }

    /// Is there a self loop at `block`, i.e. is `block` its own only predecessor?
    pub fn self_loop(&self, block: Block) -> (r: bool)
        requires
            self.wf(),
            block.0 < self@.len(),
        ensures
            r == (is_pred(self@, block, block) && forall|x: Block| is_pred(self@, x, block) ==> x == block),
    {
        let s = self.pred_iter(block);
        if s.len() == 0 {
            proof {
                assert(!s@.contains(block));
            }
            return false;
        }
        let mut i: usize = 0;
        while i < s.len()
            invariant
                i <= s@.len(),
                forall|x: Block| #[trigger] s@.contains(x) <==> is_pred(self@, x, block),
                forall|k: int| 0 <= k < i ==> s@[k] == block,
            decreases s@.len() - i,
        {
            if s[i].0 != block.0 {
                proof {
                    assert(s@.contains(s@[i as int]));
                }
                return false;
            }
            i += 1;
        }
        proof {
            assert forall|x: Block| is_pred(self@, x, block) implies x == block by {
                assert(s@.contains(x));
            }
            assert(s@[0] == block);
            assert(s@.contains(s@[0]));
        }
        true
    }
}

} // verus!

verus! {

impl ControlFlowGraph {
    /// Add the edge `from -> to`. `from` must have room for another successor unless the
    /// edge exists already.
    pub fn add_edge(&mut self, from: Block, to: Block)
        requires
            old(self).wf(),
            from.0 < old(self)@.len(),
            to.0 < old(self)@.len(),
            old(self)@[from.0 as int].len() < 2 || old(self)@[from.0 as int].contains(to),
        ensures
            final(self).wf(),
            final(self)@ == old(self)@.update(
                from.0 as int,
                if old(self)@[from.0 as int].contains(to) {
                    old(self)@[from.0 as int]
                } else {
                    old(self)@[from.0 as int].push(to)
                },
            ),
            final(self).spec_valid() == old(self).spec_valid(),
    {
        let ghost old_data = self.data@;
        let f = from.0 as usize;
        let t = to.0 as usize;
        proof {
            assert(old_data[f as int].successors@ == old(self)@[f as int]);
        }
        self.data[f].successors.insert(to);
        sorted_insert(&mut self.data[t].predecessors, from);
        proof {
            let d = self.data@;
            assert(Block(f as u32) == from);
            assert(Block(t as u32) == to);
            assert forall|a: int, b: int|
                0 <= a < d.len() && 0 <= b < d.len() implies (#[trigger] d[a].successors@.contains(Block(b as u32))
                    <==> #[trigger] d[b].predecessors@.contains(Block(a as u32))) by {
                assert(old_data[a].successors@.contains(Block(b as u32)) <==> old_data[b].predecessors@.contains(Block(a as u32)));
                if a == f && b == t {
                    assert(d[a].successors@.contains(to)) by {
                        if old_data[a].successors@.contains(to) {
                        } else {
                            assert(d[a].successors@[d[a].successors@.len() - 1] == to);
                        }
                    }
                } else if a == f {
                    if d[a].successors@.contains(Block(b as u32)) && !old_data[a].successors@.contains(Block(b as u32)) {
                        let k = d[a].successors@.index_of(Block(b as u32));
                        if k < old_data[a].successors@.len() {
                            assert(old_data[a].successors@[k] == Block(b as u32));
                        }
                    }
                    if old_data[a].successors@.contains(Block(b as u32)) {
                        let k = old_data[a].successors@.index_of(Block(b as u32));
                        assert(d[a].successors@[k] == Block(b as u32));
                    }
                } else if b == t {
                }
            }
            assert forall|b: int, x: Block| 0 <= b < d.len() && #[trigger] d[b].successors@.contains(x) implies x.0 < d.len() by {
                if b == f && !old_data[b].successors@.contains(x) {
                    let k = d[b].successors@.index_of(x);
                    if k < old_data[b].successors@.len() {
                        assert(old_data[b].successors@[k] == x);
                    }
                }
            }
            assert forall|b: int, x: Block| 0 <= b < d.len() && #[trigger] d[b].predecessors@.contains(x) implies x.0 < d.len() by {}
            assert forall|b: int| 0 <= b < d.len() implies (#[trigger] d[b]).successors.wf() by {}
            assert forall|b: int| 0 <= b < d.len() implies sorted_blocks((#[trigger] d[b]).predecessors@) by {}
            assert(final(self)@ =~= old(self)@.update(
                from.0 as int,
                if old(self)@[from.0 as int].contains(to) {
                    old(self)@[from.0 as int]
                } else {
                    old(self)@[from.0 as int].push(to)
                },
            ));
        }
    }

    /// Remove all edges leaving `block`.
    fn invalidate_block_successors(&mut self, block: Block)
        requires
            old(self).wf(),
            block.0 < old(self)@.len(),
        ensures
            final(self).wf(),
            final(self)@ == old(self)@.update(block.0 as int, Seq::<Block>::empty()),
            final(self).spec_valid() == old(self).spec_valid(),
    {
        let b = block.0 as usize;
        let succs = self.data[b].successors.iter();
        self.data[b].successors.clear();
        let ghost mid = self.data@;
        let mut i: usize = 0;
        while i < succs.len()
            invariant
                old(self).wf(),
                b == block.0,
                b < old(self).data@.len(),
                self.valid == old(self).valid,
                succs@ == old(self).data@[b as int].successors@,
                succs@.no_duplicates(),
                succs@.len() <= 2,
                i <= succs@.len(),
                self.data@.len() == old(self).data@.len(),
                forall|k: int| 0 <= k < self.data@.len() ==> #[trigger] self.data@[k].successors == (if k == b { mid[b as int].successors } else { old(self).data@[k].successors }),
                mid[b as int].successors.wf(),
                mid[b as int].successors@ == Seq::<Block>::empty(),
                forall|k: int| 0 <= k < self.data@.len() ==> sorted_blocks((#[trigger] self.data@[k]).predecessors@),
                forall|k: int, x: Block| 0 <= k < self.data@.len() ==> (#[trigger] self.data@[k].predecessors@.contains(x) <==> (old(self).data@[k].predecessors@.contains(x) && !(x == block && succs@.subrange(0, i as int).contains(Block(k as u32))))),
            decreases succs@.len() - i,
        {
            let s = succs[i];
            proof {
                assert(old(self).data@[b as int].successors@.contains(s));
                assert(s.0 < self.data@.len());
            }
            let ghost before = self.data@;
            sorted_remove(&mut self.data[s.0 as usize].predecessors, block);
            proof {
                let ni = i + 1;
                assert(!succs@.subrange(0, i as int).contains(s)) by {
                    if succs@.subrange(0, i as int).contains(s) {
                        let q = succs@.subrange(0, i as int).index_of(s);
                        assert(succs@[q] == succs@[i as int]);
                    }
                }
                assert forall|k: int| 0 <= k < self.data@.len() && k != s.0 implies #[trigger] self.data@[k] == before[k] by {}
                assert forall|k: int, x: Block| 0 <= k < self.data@.len() implies (#[trigger] self.data@[k].predecessors@.contains(x) <==> (old(self).data@[k].predecessors@.contains(x) && !(x == block && succs@.subrange(0, ni as int).contains(Block(k as u32))))) by {
                    let sub_i = succs@.subrange(0, i as int);
                    let sub_n = succs@.subrange(0, ni as int);
                    assert(sub_n =~= sub_i.push(s));
                    assert(Block(s.0 as int as u32) == s);
                    assert(Block(k as u32).0 as int == k);
                    assert(before[k].predecessors@.contains(x) <==> (old(self).data@[k].predecessors@.contains(x) && !(x == block && sub_i.contains(Block(k as u32)))));
                    if k == s.0 {
                        assert(Block(k as u32) == s);
                        assert(sub_n[i as int] == s);
                        assert(sub_n.contains(Block(k as u32)));
                        assert(self.data@[k].predecessors@.contains(x) <==> (before[k].predecessors@.contains(x) && x != block));
                    } else {
                        assert(Block(k as u32) != s);
                        assert(self.data@[k] == before[k]);
                        if sub_n.contains(Block(k as u32)) {
                            let q = sub_n.index_of(Block(k as u32));
                            assert(q < i);
                            assert(sub_i[q] == Block(k as u32));
                        }
                        if sub_i.contains(Block(k as u32)) {
                            let q = sub_i.index_of(Block(k as u32));
                            assert(sub_n[q] == Block(k as u32));
                        }
                    }
                }
            }
            i += 1;
        }
        proof {
            let d = self.data@;
            let od = old(self).data@;
            assert(succs@.subrange(0, i as int) =~= succs@);
            assert(Block(b as u32) == block);
            assert forall|a: int, c: int|
                0 <= a < d.len() && 0 <= c < d.len() implies (#[trigger] d[a].successors@.contains(Block(c as u32))
                    <==> #[trigger] d[c].predecessors@.contains(Block(a as u32))) by {
                assert(od[a].successors@.contains(Block(c as u32)) <==> od[c].predecessors@.contains(Block(a as u32)));
                assert(Block(a as u32).0 as int == a);
                assert(Block(c as u32).0 as int == c);
            }
            assert forall|k: int, x: Block| 0 <= k < d.len() && #[trigger] d[k].successors@.contains(x) implies x.0 < d.len() by {
                assert(od[k].successors@.contains(x) ==> x.0 < od.len());
            }
            assert forall|k: int, x: Block| 0 <= k < d.len() && #[trigger] d[k].predecessors@.contains(x) implies x.0 < d.len() by {
                assert(od[k].predecessors@.contains(x));
            }
            assert forall|k: int| 0 <= k < d.len() implies (#[trigger] d[k]).successors.wf() by {
                assert(od[k].successors.wf());
            }
            assert(final(self)@ =~= old(self)@.update(block.0 as int, Seq::<Block>::empty()));
        }
    }
}

/// The successors that the terminator of block `b` of `func` names: the destination of a
/// jump, or the `else` and then the `then` destination of a branch.
pub open spec fn terminator_succs(func: &Function, b: Block) -> Seq<Block> {
    let s = func.layout@.block_insts(b);
    if s.len() == 0 {
        Seq::empty()
    } else {
        match func.dfg.insts@[s.last().0 as int] {
            InstructionData::Jump { destination } => seq![destination],
            InstructionData::Branch { then_dst, else_dst, .. } => if then_dst == else_dst {
                seq![else_dst]
            } else {
                seq![else_dst, then_dst]
            },
            _ => Seq::empty(),
        }
    }
}

/// The last instruction of every block is an instruction of `func`, and the blocks it
/// jumps to are blocks of `func`.
pub open spec fn terminators_valid(func: &Function) -> bool {
    &&& func.layout.wf()
    &&& forall|b: int|
        0 <= b < func.layout@.num_blocks() && (#[trigger] func.layout@.insts[b]).len() > 0 ==> {
            let t = func.layout@.insts[b].last();
            &&& t.0 < func.dfg.insts@.len()
            &&& match func.dfg.insts@[t.0 as int] {
                InstructionData::Jump { destination } => destination.0 < func.layout@.num_blocks(),
                InstructionData::Branch { then_dst, else_dst, .. } => then_dst.0
                    < func.layout@.num_blocks() && else_dst.0 < func.layout@.num_blocks(),
                _ => true,
            }
        }
}

impl ControlFlowGraph {
    /// Add the edges leaving `block` according to its terminator.
    fn compute_block(&mut self, func: &Function, block: Block)
        requires
            old(self).wf(),
            terminators_valid(func),
            block.0 < func.layout@.num_blocks(),
            old(self)@.len() == func.layout@.num_blocks(),
            old(self)@[block.0 as int].len() == 0,
        ensures
            final(self).wf(),
            final(self)@ == old(self)@.update(block.0 as int, terminator_succs(func, block)),
            final(self).spec_valid() == old(self).spec_valid(),
    {
        proof {
            assert(func.layout@.insts[block.0 as int] == func.layout@.block_insts(block));
        }
        if let Some(inst) = func.layout.last_inst(block) {
            match &func.dfg.insts[inst.0 as usize] {
                InstructionData::Jump { destination } => {
                    self.add_edge(block, *destination);
                    proof {
                        assert(seq![*destination] =~= Seq::<Block>::empty().push(*destination));
                    }
                },
                InstructionData::Branch { then_dst, else_dst, .. } => {
                    self.add_edge(block, *else_dst);
                    proof {
                        assert(self@[block.0 as int] =~= seq![*else_dst]);
                        if then_dst.0 == else_dst.0 {
                            assert(self@[block.0 as int][0] == *then_dst);
                            assert(self@[block.0 as int].contains(*then_dst));
                        }
                    }
                    self.add_edge(block, *then_dst);
                    proof {
                        if then_dst == else_dst {
                            assert(self@[block.0 as int] =~= seq![*else_dst]);
                        } else {
                            assert(self@[block.0 as int] =~= seq![*else_dst, *then_dst]);
                        }
                    }
                },
                _ => {
                    proof {
                        assert(self@ =~= old(self)@.update(block.0 as int, terminator_succs(func, block)));
                    }
                },
            }
        } else {
            proof {
                assert(self@ =~= old(self)@.update(block.0 as int, terminator_succs(func, block)));
            }
        }
    }

    /// The control flow graph of `func`.
    pub fn with_function(func: &Function) -> (r: Self)
        requires
            terminators_valid(func),
        ensures
            r.wf(),
            r.spec_valid(),
            r@ == Seq::new(func.layout@.num_blocks(), |b: int| terminator_succs(func, Block(b as u32))),
    {
        let mut cfg = Self::new();
        cfg.compute(func);
        cfg
    }

    /// Compute the control flow graph of `func` from scratch.
    pub fn compute(&mut self, func: &Function)
        requires
            terminators_valid(func),
        ensures
            final(self).wf(),
            final(self).spec_valid(),
            final(self)@ == Seq::new(func.layout@.num_blocks(), |b: int| terminator_succs(func, Block(b as u32))),
    {
        self.clear();
        let n = func.layout.num_blocks();
        proof {
            func.layout.lemma_valid();
        }
        if n > 0 {
            self.ensure_block(Block((n - 1) as u32));
        }
        proof {
            assert(self@.len() == n);
        }
        let blocks = func.layout.blocks();
        let mut i: usize = 0;
        while i < blocks.len()
            invariant
                self.wf(),
                terminators_valid(func),
                func.layout@.valid(),
                n == func.layout@.num_blocks(),
                blocks@ == func.layout@.order,
                i <= blocks@.len(),
                self@.len() == n,
                forall|b: int| 0 <= b < n ==> #[trigger] self@[b] == (if blocks@.subrange(0, i as int).contains(Block(b as u32)) {
                    terminator_succs(func, Block(b as u32))
                } else {
                    Seq::<Block>::empty()
                }),
            decreases blocks@.len() - i,
        {
            let b = blocks[i];
            proof {
                assert(b.0 < n);
                assert(!blocks@.subrange(0, i as int).contains(b)) by {
                    if blocks@.subrange(0, i as int).contains(b) {
                        let q = blocks@.subrange(0, i as int).index_of(b);
                        assert(blocks@[q] == blocks@[i as int]);
                    }
                }
                assert(Block(b.0 as int as u32) == b);
                assert(self@[b.0 as int] == Seq::<Block>::empty());
            }
            self.compute_block(func, b);
            proof {
                let ni = i + 1;
                assert(blocks@.subrange(0, ni as int) =~= blocks@.subrange(0, i as int).push(b));
                assert forall|x: int| 0 <= x < n implies #[trigger] self@[x] == (if blocks@.subrange(0, ni as int).contains(Block(x as u32)) {
                    terminator_succs(func, Block(x as u32))
                } else {
                    Seq::<Block>::empty()
                }) by {
                    assert(Block(x as u32).0 as int == x);
                    if x == b.0 {
                        assert(Block(x as u32) == b);
                        assert(blocks@.subrange(0, ni as int)[i as int] == b);
                    } else {
                        assert(Block(x as u32) != b);
                        if blocks@.subrange(0, ni as int).contains(Block(x as u32)) {
                            let q = blocks@.subrange(0, ni as int).index_of(Block(x as u32));
                            assert(blocks@.subrange(0, i as int)[q] == Block(x as u32));
                        }
                        if blocks@.subrange(0, i as int).contains(Block(x as u32)) {
                            let q = blocks@.subrange(0, i as int).index_of(Block(x as u32));
                            assert(blocks@.subrange(0, ni as int)[q] == Block(x as u32));
                        }
                    }
                }
            }
            i += 1;
        }
        self.valid = true;
        proof {
            assert(blocks@.subrange(0, i as int) =~= blocks@);
            assert forall|x: int| 0 <= x < n implies #[trigger] self@[x] == terminator_succs(func, Block(x as u32)) by {
                assert(Block(x as u32).0 as int == x);
                if !blocks@.contains(Block(x as u32)) {
                    assert(func.layout@.insts[x].len() == 0);
                    assert(func.layout@.block_insts(Block(x as u32)) == func.layout@.insts[x]);
                }
            }
            assert(self@ =~= Seq::new(func.layout@.num_blocks(), |b: int| terminator_succs(func, Block(b as u32))));
        }
    }

    /// Recompute the edges leaving `block`, keeping all other edges.
    pub fn recompute_block(&mut self, func: &Function, block: Block)
        requires
            old(self).wf(),
            old(self).spec_valid(),
            terminators_valid(func),
            block.0 < func.layout@.num_blocks(),
            old(self)@.len() == func.layout@.num_blocks(),
        ensures
            final(self).wf(),
            final(self).spec_valid(),
            final(self)@ == old(self)@.update(block.0 as int, terminator_succs(func, block)),
    {
        self.invalidate_block_successors(block);
        self.compute_block(func, block);
        proof {
            assert(final(self)@ =~= old(self)@.update(block.0 as int, terminator_succs(func, block)));
        }
    }
}

/// The successor list `s`, which holds `from`, with `from` replaced by `to`; a duplicate
/// `to` is dropped.
pub open spec fn replace_succ(s: Seq<Block>, from: Block, to: Block) -> Seq<Block> {
    if s.len() == 1 {
        seq![to]
    } else if s[0] == from {
        if s[1] == to { seq![to] } else { seq![to, s[1]] }
    } else {
        if s[0] == to { seq![s[0]] } else { seq![s[0], to] }
    }
}

/// The graph after redirecting every edge into `from` to `to` and dropping the edges
/// leaving `from`.
pub open spec fn replaced_graph(g: Seq<Seq<Block>>, from: Block, to: Block) -> Seq<Seq<Block>> {
    Seq::new(
        g.len(),
        |x: int|
            if x == from.0 {
                Seq::<Block>::empty()
            } else if g[x].contains(from) {
                replace_succ(g[x], from, to)
            } else {
                g[x]
            },
    )
}

impl ControlFlowGraph {
    /// Replace block `from` with `to`: every edge into `from` now goes to `to`, and `from`
    /// loses all its edges.
    pub fn replace(&mut self, from: Block, to: Block)
        requires
            old(self).wf(),
            old(self).spec_valid(),
            from != to,
            from.0 < old(self)@.len(),
            to.0 < old(self)@.len(),
        ensures
            final(self).wf(),
            final(self).spec_valid(),
            final(self)@ == replaced_graph(old(self)@, from, to),
    {
        let ghost od = self.data@;
        let ghost g = self@;
        let preds = self.data[from.0 as usize].predecessors.clone();
        proof {
            assert(preds@ =~= od[from.0 as int].predecessors@);
            assert(Block(from.0 as int as u32) == from);
            assert(Block(to.0 as int as u32) == to);
        }
        let mut i: usize = 0;
        while i < preds.len()
            invariant
                old(self).wf(),
                od == old(self).data@,
                g == old(self)@,
                self.valid == old(self).valid,
                from != to,
                from.0 < od.len(),
                to.0 < od.len(),
                preds@ == od[from.0 as int].predecessors@,
                sorted_blocks(preds@),
                i <= preds@.len(),
                self.data@.len() == od.len(),
                forall|x: int| 0 <= x < od.len() ==> #[trigger] self.data@[x].successors@ == (if preds@.subrange(0, i as int).contains(Block(x as u32)) {
                    replace_succ(g[x], from, to)
                } else {
                    g[x]
                }),
                forall|x: int| 0 <= x < od.len() ==> (#[trigger] self.data@[x]).successors.wf(),
                forall|x: int| 0 <= x < od.len() && x != to.0 ==> #[trigger] self.data@[x].predecessors == od[x].predecessors,
                sorted_blocks(self.data@[to.0 as int].predecessors@),
                forall|y: Block| #[trigger] self.data@[to.0 as int].predecessors@.contains(y) <==> (od[to.0 as int].predecessors@.contains(y)
                    || preds@.subrange(0, i as int).contains(y)),
            decreases preds@.len() - i,
        {
            let pred = preds[i];
            let ghost p = pred.0 as int;
            proof {
                assert(od[from.0 as int].predecessors@.contains(pred));
                assert(p < od.len());
                assert(Block(p as u32) == pred);
                assert(od[from.0 as int].predecessors@.contains(Block(p as u32)));
                assert(od[p].successors@.contains(Block(from.0 as int as u32)));
                assert(od[p].successors@.contains(from));
                assert(!preds@.subrange(0, i as int).contains(pred)) by {
                    if preds@.subrange(0, i as int).contains(pred) {
                        let q = preds@.subrange(0, i as int).index_of(pred);
                        assert(preds@[q] == preds@[i as int]);
                    }
                }
                assert(self.data@[p].successors@ == g[p]);
                assert(g[p] == od[p].successors@);
                od[p].successors.lemma_view();
            }
            let Successors(first, second) = self.data[pred.0 as usize].successors;
            let mut nf = first;
            let mut ns = second;
            let is_first = match first {
                Some(f) => f.0 == from.0,
                None => false,
            };
            if is_first {
                nf = Some(to);
                let sec_new = match second {
                    Some(x) => x.0 == to.0,
                    None => false,
                };
                if sec_new {
                    ns = None;
                }
            } else {
                let first_new = match first {
                    Some(x) => x.0 == to.0,
                    None => false,
                };
                if first_new {
                    ns = None;
                } else {
                    ns = Some(to);
                }
            }
            let ghost before = self.data@;
            self.data[pred.0 as usize].successors = Successors(nf, ns);
            proof {
                let ns_ = Successors(nf, ns);
                let gp = g[p];
                assert(gp == opt_seq(first) + opt_seq(second));
                assert(ns_.wf());
                if is_first {
                    assert(first == Some(from));
                    if second is None {
                        assert(gp =~= seq![from]);
                        assert(ns_@ =~= seq![to]);
                    } else {
                        assert(gp =~= seq![from, second.unwrap()]);
                        if second == Some(to) {
                            assert(ns_@ =~= seq![to]);
                        } else {
                            assert(ns_@ =~= seq![to, second.unwrap()]);
                        }
                    }
                } else {
                    assert(first is Some);
                    if second is None {
                        assert(gp =~= seq![first.unwrap()]);
                        assert(false);
                    }
                    assert(gp =~= seq![first.unwrap(), second.unwrap()]);
                    assert(second == Some(from));
                    if first == Some(to) {
                        assert(ns_@ =~= seq![first.unwrap()]);
                    } else {
                        assert(ns_@ =~= seq![first.unwrap(), to]);
                    }
                }
                assert(ns_@ == replace_succ(gp, from, to));
            }
            let ghost mid = self.data@;
            sorted_insert(&mut self.data[to.0 as usize].predecessors, pred);
            proof {
                let ni = i + 1;
                let sub_i = preds@.subrange(0, i as int);
                let sub_n = preds@.subrange(0, ni as int);
                assert(sub_n =~= sub_i.push(pred));
                assert forall|x: int| 0 <= x < od.len() implies #[trigger] self.data@[x].successors@ == (if sub_n.contains(Block(x as u32)) {
                    replace_succ(g[x], from, to)
                } else {
                    g[x]
                }) by {
                    assert(Block(x as u32).0 as int == x);
                    if x == p {
                        assert(sub_n[i as int] == pred);
                        assert(Block(x as u32) == pred);
                    } else {
                        assert(Block(x as u32) != pred);
                        assert(self.data@[x].successors == before[x].successors);
                        if sub_n.contains(Block(x as u32)) {
                            let q = sub_n.index_of(Block(x as u32));
                            assert(sub_i[q] == Block(x as u32));
                        }
                        if sub_i.contains(Block(x as u32)) {
                            let q = sub_i.index_of(Block(x as u32));
                            assert(sub_n[q] == Block(x as u32));
                        }
                    }
                }
                assert forall|x: int| 0 <= x < od.len() implies (#[trigger] self.data@[x]).successors.wf() by {
                    if x != p {
                        assert(self.data@[x].successors == before[x].successors);
                    }
                }
                assert forall|x: int| 0 <= x < od.len() && x != to.0 implies #[trigger] self.data@[x].predecessors == od[x].predecessors by {
                    assert(self.data@[x].predecessors == before[x].predecessors);
                }
                assert forall|y: Block| #[trigger] self.data@[to.0 as int].predecessors@.contains(y) <==> (od[to.0 as int].predecessors@.contains(y)
                    || sub_n.contains(y)) by {
                    assert(mid[to.0 as int].predecessors == before[to.0 as int].predecessors);
                    if sub_n.contains(y) && !sub_i.contains(y) {
                        let q = sub_n.index_of(y);
                        if q < i {
                            assert(sub_i[q] == y);
                        }
                    }
                    if sub_i.contains(y) {
                        let q = sub_i.index_of(y);
                        assert(sub_n[q] == y);
                    }
                    if y == pred {
                        assert(sub_n[i as int] == pred);
                    }
                }
            }
            i += 1;
        }
        let ghost after_loop = self.data@;
        self.data[from.0 as usize].predecessors.clear();
        proof {
            let d = self.data@;
            let pv = preds@;
            assert(pv.subrange(0, i as int) =~= pv);
            let v2 = Seq::new(od.len(), |x: int| if pv.contains(Block(x as u32)) { replace_succ(g[x], from, to) } else { g[x] });
            assert forall|x: int| 0 <= x < d.len() implies #[trigger] d[x].successors@ == v2[x] by {
                assert(d[x].successors == after_loop[x].successors);
            }
            assert forall|x: int| 0 <= x < d.len() implies (#[trigger] d[x]).successors.wf() by {
                assert(d[x].successors == after_loop[x].successors);
            }
            assert forall|x: int| 0 <= x < d.len() implies sorted_blocks((#[trigger] d[x]).predecessors@) by {
                if x != from.0 {
                    assert(d[x].predecessors == after_loop[x].predecessors);
                    if x != to.0 {
                        assert(after_loop[x].predecessors == od[x].predecessors);
                    }
                } else {
                    assert(d[x].predecessors@.len() == 0);
                }
            }
            // pv contains x iff x -> from is an edge
            assert forall|x: int| 0 <= x < d.len() implies (pv.contains(Block(x as u32)) <==> #[trigger] g[x].contains(from)) by {
                assert(od[x].successors@.contains(Block(from.0 as int as u32)) <==> od[from.0 as int].predecessors@.contains(Block(x as u32)));
            }
            assert forall|b: int, y: Block| 0 <= b < d.len() && #[trigger] d[b].successors@.contains(y) implies y.0 < d.len() by {
                assert(d[b].successors@ == v2[b]);
                if pv.contains(Block(b as u32)) {
                    od[b].successors.lemma_view();
                    assert(g[b].contains(from));
                    let gb = g[b];
                    assert(gb == od[b].successors@);
                    lemma_small_contains(gb, y);
                    assert(gb.contains(gb[0]));
                    if gb.len() == 2 {
                        assert(gb.contains(gb[1]));
                    }
                    lemma_small_contains(d[b].successors@, y);
                } else {
                    assert(od[b].successors@.contains(y));
                }
            }
            assert forall|b: int, y: Block| 0 <= b < d.len() && #[trigger] d[b].predecessors@.contains(y) implies y.0 < d.len() by {
                if b == from.0 {
                } else if b == to.0 {
                    if pv.contains(y) {
                        assert(od[from.0 as int].predecessors@.contains(y));
                    }
                } else {
                    assert(d[b].predecessors == od[b].predecessors);
                }
            }
            assert forall|a: int, b: int|
                0 <= a < d.len() && 0 <= b < d.len() implies (#[trigger] d[a].successors@.contains(Block(b as u32))
                    <==> #[trigger] d[b].predecessors@.contains(Block(a as u32))) by {
                self.lemma_replace_edge(od, g, pv, after_loop, from, to, a, b);
            }
            assert(d.len() <= u32::MAX);
        }
        self.invalidate_block_successors(from);
        proof {
            let pv = preds@;
            assert forall|x: int| 0 <= x < self@.len() implies #[trigger] self@[x] == replaced_graph(g, from, to)[x] by {
                if x != from.0 {
                    assert(pv.contains(Block(x as u32)) <==> g[x].contains(from)) by {
                        assert(od[x].successors@.contains(Block(from.0 as int as u32)) <==> od[from.0 as int].predecessors@.contains(Block(x as u32)));
                    }
                }
            }
            assert(self@ =~= replaced_graph(g, from, to));
        }
    }

    /// Edge consistency after redirecting the edges into `from`.
    proof fn lemma_replace_edge(
        &self,
        od: Seq<CFGNode>,
        g: Seq<Seq<Block>>,
        pv: Seq<Block>,
        after_loop: Seq<CFGNode>,
        from: Block,
        to: Block,
        a: int,
        b: int,
    )
        requires
            0 <= a < od.len(),
            0 <= b < od.len(),
            od.len() <= u32::MAX,
            from != to,
            from.0 < od.len(),
            to.0 < od.len(),
            g == od.map_values(|n: CFGNode| n.successors@),
            forall|x: int| 0 <= x < od.len() ==> (#[trigger] od[x]).successors.wf(),
            forall|x: int, y: int|
                0 <= x < od.len() && 0 <= y < od.len() ==> (#[trigger] od[x].successors@.contains(Block(y as u32))
                    <==> #[trigger] od[y].predecessors@.contains(Block(x as u32))),
            forall|x: int, y: Block| 0 <= x < od.len() && #[trigger] od[x].predecessors@.contains(y) ==> y.0 < od.len(),
            pv == od[from.0 as int].predecessors@,
            self.data@.len() == od.len(),
            forall|x: int| 0 <= x < od.len() ==> (pv.contains(Block(x as u32)) <==> #[trigger] g[x].contains(from)),
            forall|x: int| 0 <= x < od.len() ==> #[trigger] self.data@[x].successors@ == (if pv.contains(Block(x as u32)) {
                replace_succ(g[x], from, to)
            } else {
                g[x]
            }),
            self.data@[from.0 as int].predecessors@.len() == 0,
            forall|x: int| 0 <= x < od.len() && x != to.0 && x != from.0 ==> #[trigger] self.data@[x].predecessors == od[x].predecessors,
            forall|y: Block| #[trigger] self.data@[to.0 as int].predecessors@.contains(y) <==> (od[to.0 as int].predecessors@.contains(y)
                || pv.contains(y)),
        ensures
            self.data@[a].successors@.contains(Block(b as u32)) <==> self.data@[b].predecessors@.contains(Block(a as u32)),
    {
        let d = self.data@;
        let ba = Block(a as u32);
        let bb = Block(b as u32);
        assert(ba.0 as int == a);
        assert(bb.0 as int == b);
        assert(Block(from.0 as int as u32) == from);
        assert(Block(to.0 as int as u32) == to);
        assert(g[a] == od[a].successors@);
        od[a].successors.lemma_view();
        assert(od[a].successors@.contains(bb) <==> od[b].predecessors@.contains(ba));
        if pv.contains(ba) {
            let ga = g[a];
            assert(ga.contains(from));
            // successors of a: ga with from replaced by to
            let ra = replace_succ(ga, from, to);
            assert(ra.contains(bb) <==> (bb == to || (ga.contains(bb) && bb != from))) by {
                lemma_small_contains(ga, bb);
                lemma_small_contains(ra, bb);
                if ga.len() == 1 {
                    assert(ga[0] == from);
                    if ga.contains(bb) {
                        assert(bb == from);
                    }
                    assert(ra =~= seq![to]);
                } else {
                    assert(ga.len() == 2);
                    assert(ga[0] != ga[1]);
                    if ga.contains(bb) {
                        let q = ga.index_of(bb);
                        assert(q == 0 || q == 1);
                    }
                    if ga[0] == from {
                        if ga[1] == to {
                            assert(ra =~= seq![to]);
                        } else {
                            assert(ra =~= seq![to, ga[1]]);
                        }
                    } else {
                        assert(ga[1] == from) by {
                            let q = ga.index_of(from);
                            assert(q == 0 || q == 1);
                        }
                        if ga[0] == to {
                            assert(ra =~= seq![ga[0]]);
                        } else {
                            assert(ra =~= seq![ga[0], to]);
                        }
                    }
                }
            }
            if b == to.0 {
                assert(bb == to);
            } else if b == from.0 {
                assert(bb == from);
            } else {
                assert(bb != to && bb != from);
            }
        } else {
            assert(!g[a].contains(from));
            if b == to.0 {
                assert(bb == to);
                assert(!pv.contains(ba));
            } else if b == from.0 {
                assert(bb == from);
                assert(!od[a].successors@.contains(from));
            } else {
            }
        }
    }
}

} // verus!
