//! Function layout: the order of blocks in a function and of instructions in each block.
//!
//! Both orders are doubly linked lists threaded through two tables indexed by block and
//! instruction number. The ghost fields hold the lists as sequences; `wf` ties the links
//! to them.
use vstd::prelude::*;

use crate::entities::{Block, Inst};

verus! {

#[derive(Copy, Clone, Debug)]
struct BlockNode {
    prev: Option<Block>,
    next: Option<Block>,
    first_inst: Option<Inst>,
    last_inst: Option<Inst>,
}

#[derive(Copy, Clone, Debug)]
struct InstNode {
    block: Option<Block>,
    prev: Option<Inst>,
    next: Option<Inst>,
}

/// The layout of blocks and instructions of a function.
pub struct Layout {
    blocks: Vec<BlockNode>,
    insts: Vec<InstNode>,
    first_block: Option<Block>,
    last_block: Option<Block>,
    order: Ghost<Seq<Block>>,
    contents: Ghost<Seq<Seq<Inst>>>,
}

/// The abstract layout: `order` is the block order, `insts[b]` the instruction order of
/// block number `b` (empty for blocks not in the layout), and `inst_slots` the number of
/// instruction numbers the layout has room for.
pub struct LayoutView {
    pub order: Seq<Block>,
    pub insts: Seq<Seq<Inst>>,
    pub inst_slots: nat,
}

impl LayoutView {
    /// Number of blocks created (inserted or not).
    pub open spec fn num_blocks(self) -> nat {
        self.insts.len()
    }

    /// Is `b` a block number of this layout?
    pub open spec fn has_block(self, b: Block) -> bool {
        b.0 < self.num_blocks()
    }

    /// Is `b` part of the block order?
    pub open spec fn is_inserted(self, b: Block) -> bool {
        self.order.contains(b)
    }

    /// The instructions of block `b` in layout order.
    pub open spec fn block_insts(self, b: Block) -> Seq<Inst> {
        self.insts[b.0 as int]
    }

    /// Is `i` in some block of the layout?
    pub open spec fn inst_inserted(self, i: Inst) -> bool {
        exists|b: int| 0 <= b < self.insts.len() && #[trigger] self.insts[b].contains(i)
    }

    /// The block holding instruction `i`, if any.
    pub open spec fn block_of(self, i: Inst) -> Option<Block> {
        if self.inst_inserted(i) {
            Some(
                Block(
                    (choose|b: int| 0 <= b < self.insts.len() && #[trigger] self.insts[b].contains(i))
                        as u32,
                ),
            )
        } else {
            None
        }
    }

    /// The block before `b` in layout order.
    pub open spec fn prev_block_of(self, b: Block) -> Option<Block> {
        if self.order.contains(b) { opt_prev(self.order, self.order.index_of(b)) } else { None }
    }

    /// The block after `b` in layout order.
    pub open spec fn next_block_of(self, b: Block) -> Option<Block> {
        if self.order.contains(b) { opt_next(self.order, self.order.index_of(b)) } else { None }
    }

    /// The instruction before `i` in its block.
    pub open spec fn prev_inst_of(self, i: Inst) -> Option<Inst> {
        match self.block_of(i) {
            Some(b) => opt_prev(self.block_insts(b), self.block_insts(b).index_of(i)),
            None => None,
        }
    }

    /// The instruction after `i` in its block.
    pub open spec fn next_inst_of(self, i: Inst) -> Option<Inst> {
        match self.block_of(i) {
            Some(b) => opt_next(self.block_insts(b), self.block_insts(b).index_of(i)),
            None => None,
        }
    }

    /// The properties every well formed layout has.
    pub open spec fn valid(self) -> bool {
        &&& self.insts.len() <= u32::MAX
        &&& self.inst_slots <= u32::MAX
        &&& self.order.no_duplicates()
        &&& forall|i: int| 0 <= i < self.order.len() ==> (#[trigger] self.order[i]).0 < self.insts.len()
        &&& forall|b: int|
            0 <= b < self.insts.len() && !self.order.contains(Block(b as u32)) ==> (
            #[trigger] self.insts[b]).len() == 0
        &&& forall|b: int| 0 <= b < self.insts.len() ==> (#[trigger] self.insts[b]).no_duplicates()
        &&& forall|b: int, j: int|
            0 <= b < self.insts.len() && 0 <= j < self.insts[b].len() ==> (#[trigger] self.insts[b][j]).0
                < self.inst_slots
        &&& forall|b1: int, b2: int, i: Inst|
            0 <= b1 < self.insts.len() && 0 <= b2 < self.insts.len() && #[trigger] self.insts[b1].contains(i)
                && #[trigger] self.insts[b2].contains(i) ==> b1 == b2
    }
}

impl View for Layout {
    type V = LayoutView;

    closed spec fn view(&self) -> LayoutView {
        LayoutView { order: self.order@, insts: self.contents@, inst_slots: self.insts@.len() }
    }
}

pub open spec fn opt_first<T>(s: Seq<T>) -> Option<T> {
    if s.len() == 0 { None } else { Some(s[0]) }
}

pub open spec fn opt_last<T>(s: Seq<T>) -> Option<T> {
    if s.len() == 0 { None } else { Some(s[s.len() - 1]) }
}

pub open spec fn opt_prev<T>(s: Seq<T>, i: int) -> Option<T> {
    if i == 0 { None } else { Some(s[i - 1]) }
}

pub open spec fn opt_next<T>(s: Seq<T>, i: int) -> Option<T> {
    if i + 1 == s.len() { None } else { Some(s[i + 1]) }
}

/// The block at position `i` of `order` is linked to its neighbours.
spec fn block_link_at(blocks: Seq<BlockNode>, order: Seq<Block>, i: int) -> bool {
    &&& blocks[order[i].0 as int].prev == opt_prev(order, i)
    &&& blocks[order[i].0 as int].next == opt_next(order, i)
}

/// The instruction at position `j` of block `b` is linked to its block and neighbours.
spec fn inst_link_at(insts: Seq<InstNode>, s: Seq<Inst>, b: int, j: int) -> bool {
    &&& insts[s[j].0 as int].block == Some(Block(b as u32))
    &&& insts[s[j].0 as int].prev == opt_prev(s, j)
    &&& insts[s[j].0 as int].next == opt_next(s, j)
}

/// The instruction list of block `b` is well formed.
spec fn block_insts_wf(blocks: Seq<BlockNode>, insts: Seq<InstNode>, s: Seq<Inst>, b: int) -> bool {
    &&& s.no_duplicates()
    &&& forall|j: int| 0 <= j < s.len() ==> (#[trigger] s[j]).0 < insts.len()
    &&& blocks[b].first_inst == opt_first(s)
    &&& blocks[b].last_inst == opt_last(s)
    &&& forall|j: int| 0 <= j < s.len() ==> #[trigger] inst_link_at(insts, s, b, j)
}

impl Layout {
    /// The links in the tables agree with the ghost block and instruction orders.
    pub closed spec fn wf(&self) -> bool {
        let blocks = self.blocks@;
        let insts = self.insts@;
        let order = self.order@;
        let contents = self.contents@;
        &&& contents.len() == blocks.len()
        &&& blocks.len() <= u32::MAX
        &&& insts.len() <= u32::MAX
        &&& order.no_duplicates()
        &&& forall|i: int| 0 <= i < order.len() ==> (#[trigger] order[i]).0 < blocks.len()
        &&& self.first_block == opt_first(order)
        &&& self.last_block == opt_last(order)
        &&& forall|i: int| 0 <= i < order.len() ==> #[trigger] block_link_at(blocks, order, i)
        &&& forall|b: int|
            0 <= b < blocks.len() && !order.contains(Block(b as u32)) ==> {
                &&& (#[trigger] blocks[b]).prev is None
                &&& blocks[b].next is None
                &&& contents[b].len() == 0
            }
        &&& forall|b: int|
            0 <= b < blocks.len() ==> #[trigger] block_insts_wf(blocks, insts, contents[b], b)
        &&& forall|k: int|
            0 <= k < insts.len() ==> match (#[trigger] insts[k]).block {
                None => insts[k].prev is None && insts[k].next is None,
                Some(b) => b.0 < blocks.len() && contents[b.0 as int].contains(Inst(k as u32)),
            }
    }
}

} // verus!

verus! {

impl Layout {
    /// A well formed layout has a valid view.
    pub proof fn lemma_valid(&self)
        requires
            self.wf(),
        ensures
            self@.valid(),
    {
        let v = self@;
        assert forall|b: int|
            0 <= b < v.insts.len() && !v.order.contains(Block(b as u32)) implies (
            #[trigger] v.insts[b]).len() == 0 by {
            assert(self.blocks@[b].prev is None);
        }
        assert forall|b: int| 0 <= b < v.insts.len() implies (#[trigger] v.insts[b]).no_duplicates() by {
            assert(block_insts_wf(self.blocks@, self.insts@, self.contents@[b], b));
        }
        assert forall|b: int, j: int|
            0 <= b < v.insts.len() && 0 <= j < v.insts[b].len() implies (
            #[trigger] v.insts[b][j]).0 < v.inst_slots by {
            assert(block_insts_wf(self.blocks@, self.insts@, self.contents@[b], b));
        }
        assert forall|b1: int, b2: int, i: Inst|
            0 <= b1 < v.insts.len() && 0 <= b2 < v.insts.len() && #[trigger] v.insts[b1].contains(i)
                && #[trigger] v.insts[b2].contains(i) implies b1 == b2 by {
            self.lemma_contains_linked(b1, i);
            self.lemma_contains_linked(b2, i);
        }
    }

    /// An instruction in the list of block `b` points back to `b`.
    proof fn lemma_contains_linked(&self, b: int, i: Inst)
        requires
            self.wf(),
            0 <= b < self.contents@.len(),
            self.contents@[b].contains(i),
        ensures
            i.0 < self.insts@.len(),
            self.insts@[i.0 as int].block == Some(Block(b as u32)),
    {
        let s = self.contents@[b];
        assert(block_insts_wf(self.blocks@, self.insts@, s, b));
        let j = choose|j: int| 0 <= j < s.len() && s[j] == i;
        assert(inst_link_at(self.insts@, s, b, j));
    }

    /// The block an instruction node points to is the block holding it.
    proof fn lemma_block_of(&self, i: Inst)
        requires
            self.wf(),
            i.0 < self.insts@.len(),
        ensures
            self.insts@[i.0 as int].block == self@.block_of(i),
    {
        self.lemma_valid();
        let k = i.0 as int;
        assert(Inst(k as u32) == i);
        match self.insts@[k].block {
            None => {
                if self@.inst_inserted(i) {
                    let b = choose|b: int| 0 <= b < self@.insts.len() && #[trigger] self@.insts[b].contains(i);
                    self.lemma_contains_linked(b, i);
                }
            },
            Some(b) => {
                assert(self@.insts[b.0 as int].contains(i));
                let c = choose|c: int| 0 <= c < self@.insts.len() && #[trigger] self@.insts[c].contains(i);
                assert(c == b.0 as int);
            },
        }
    }

    /// Create an empty layout.
    pub fn new() -> (r: Self)
        ensures
            r.wf(),
            r@.order == Seq::<Block>::empty(),
            r@.insts == Seq::<Seq<Inst>>::empty(),
            r@.inst_slots == 0,
    {
        Layout {
            blocks: Vec::new(),
            insts: Vec::new(),
            first_block: None,
            last_block: None,
            order: Ghost(Seq::empty()),
            contents: Ghost(Seq::empty()),
        }
    }

    /// Remove all blocks and instructions.
    pub fn clear(&mut self)
        ensures
            final(self).wf(),
            final(self)@.order == Seq::<Block>::empty(),
            final(self)@.insts == Seq::<Seq<Inst>>::empty(),
            final(self)@.inst_slots == 0,
    {
        self.blocks.clear();
        self.insts.clear();
        self.first_block = None;
        self.last_block = None;
        self.order = Ghost(Seq::empty());
        self.contents = Ghost(Seq::empty());
    }

    /// The number of blocks created, whether they are in the layout or not.
    pub fn num_blocks(&self) -> (r: usize)
        requires
            self.wf(),
        ensures
            r == self@.num_blocks(),
    {
        self.blocks.len()
    }

    /// Is `block` currently part of the layout?
    pub fn is_block_inserted(&self, block: Block) -> (r: bool)
        requires
            self.wf(),
            self@.has_block(block),
        ensures
            r == self@.is_inserted(block),
    {
        let b = block.0 as usize;
        proof {
            if self.order@.contains(block) {
                let i = self.order@.index_of(block);
                assert(block_link_at(self.blocks@, self.order@, i));
                assert(self.order@[0] == block ==> i == 0);
            } else {
                assert(Block(b as u32) == block);
            }
        }
        match self.first_block {
            Some(f) => {
                if f.0 == block.0 {
                    return true;
                }
            },
            None => {},
        }
        self.blocks[b].prev.is_some()
    }

    /// The entry block: the first block in layout order.
    pub fn entry_block(&self) -> (r: Option<Block>)
        requires
            self.wf(),
        ensures
            r == opt_first(self@.order),
    {
        self.first_block
    }

    /// The last block in layout order.
    pub fn last_block(&self) -> (r: Option<Block>)
        requires
            self.wf(),
        ensures
            r == opt_last(self@.order),
    {
        self.last_block
    }
}

impl Layout {
    /// The block before `block` in layout order.
    pub fn prev_block(&self, block: Block) -> (r: Option<Block>)
        requires
            self.wf(),
            self@.has_block(block),
        ensures
            r == self@.prev_block_of(block),
    {
        proof {
            if self.order@.contains(block) {
                assert(block_link_at(self.blocks@, self.order@, self.order@.index_of(block)));
            } else {
                assert(Block(block.0 as int as u32) == block);
            }
        }
        self.blocks[block.0 as usize].prev
    }

    /// The block after `block` in layout order.
    pub fn next_block(&self, block: Block) -> (r: Option<Block>)
        requires
            self.wf(),
            self@.has_block(block),
        ensures
            r == self@.next_block_of(block),
    {
        proof {
            if self.order@.contains(block) {
                assert(block_link_at(self.blocks@, self.order@, self.order@.index_of(block)));
            } else {
                assert(Block(block.0 as int as u32) == block);
            }
        }
        self.blocks[block.0 as usize].next
    }

    /// The first instruction of `block`.
    pub fn first_inst(&self, block: Block) -> (r: Option<Inst>)
        requires
            self.wf(),
            self@.has_block(block),
        ensures
            r == opt_first(self@.block_insts(block)),
    {
        proof {
            assert(block_insts_wf(self.blocks@, self.insts@, self.contents@[block.0 as int], block.0 as int));
        }
        self.blocks[block.0 as usize].first_inst
    }

    /// The last instruction of `block`.
    pub fn last_inst(&self, block: Block) -> (r: Option<Inst>)
        requires
            self.wf(),
            self@.has_block(block),
        ensures
            r == opt_last(self@.block_insts(block)),
    {
        proof {
            assert(block_insts_wf(self.blocks@, self.insts@, self.contents@[block.0 as int], block.0 as int));
        }
        self.blocks[block.0 as usize].last_inst
    }

    /// The terminator of `block`: its last instruction.
    pub fn block_terminator(&self, block: Block) -> (r: Option<Inst>)
        requires
            self.wf(),
            self@.has_block(block),
        ensures
            r == opt_last(self@.block_insts(block)),
    {
        self.last_inst(block)
    }

    /// The block containing `inst`, or `None` if it is not in the layout.
    pub fn inst_block(&self, inst: Inst) -> (r: Option<Block>)
        requires
            self.wf(),
        ensures
            r == self@.block_of(inst),
    {
        if (inst.0 as usize) < self.insts.len() {
            proof {
                self.lemma_block_of(inst);
            }
            self.insts[inst.0 as usize].block
        } else {
            proof {
                self.lemma_valid();
                if self@.inst_inserted(inst) {
                    let b = choose|b: int| 0 <= b < self@.insts.len() && #[trigger] self@.insts[b].contains(inst);
                    self.lemma_contains_linked(b, inst);
                }
            }
            None
        }
    }

    /// Facts about the node of an inserted instruction.
    proof fn lemma_inst_node(&self, inst: Inst)
        requires
            self.wf(),
            inst.0 < self.insts@.len(),
        ensures
            self.insts@[inst.0 as int].block == self@.block_of(inst),
            self.insts@[inst.0 as int].prev == self@.prev_inst_of(inst),
            self.insts@[inst.0 as int].next == self@.next_inst_of(inst),
    {
        self.lemma_block_of(inst);
        let k = inst.0 as int;
        assert(Inst(k as u32) == inst);
        match self.insts@[k].block {
            None => {},
            Some(b) => {
                let s = self.contents@[b.0 as int];
                assert(block_insts_wf(self.blocks@, self.insts@, s, b.0 as int));
                let j = s.index_of(inst);
                assert(inst_link_at(self.insts@, s, b.0 as int, j));
            },
        }
    }

    /// The instruction following `inst` in its block.
    pub fn next_inst(&self, inst: Inst) -> (r: Option<Inst>)
        requires
            self.wf(),
            inst.0 < self@.inst_slots,
        ensures
            r == self@.next_inst_of(inst),
    {
        proof {
            self.lemma_inst_node(inst);
        }
        self.insts[inst.0 as usize].next
    }

    /// The instruction preceding `inst` in its block.
    pub fn prev_inst(&self, inst: Inst) -> (r: Option<Inst>)
        requires
            self.wf(),
            inst.0 < self@.inst_slots,
        ensures
            r == self@.prev_inst_of(inst),
    {
        proof {
            self.lemma_inst_node(inst);
        }
        self.insts[inst.0 as usize].prev
    }
}

impl Layout {
    /// All blocks in layout order.
    pub fn blocks(&self) -> (r: Vec<Block>)
        requires
            self.wf(),
        ensures
            r@ == self@.order,
    {
        let ghost order = self.order@;
        let mut r: Vec<Block> = Vec::new();
        let mut cur = self.first_block;
        while cur.is_some()
            invariant
                self.wf(),
                order == self.order@,
                r@.len() <= order.len(),
                r@ == order.take(r@.len() as int),
                cur == (if r@.len() < order.len() { Some(order[r@.len() as int]) } else { None::<Block> }),
            decreases order.len() - r@.len(),
        {
            let b = cur.unwrap();
            proof {
                assert(block_link_at(self.blocks@, order, r@.len() as int));
            }
            r.push(b);
            cur = self.blocks[b.0 as usize].next;
            proof {
                assert(r@ =~= order.take(r@.len() as int));
            }
        }
        proof {
            assert(r@ =~= order);
        }
        r
    }

    /// All instructions of `block` in layout order.
    pub fn block_insts(&self, block: Block) -> (r: Vec<Inst>)
        requires
            self.wf(),
            self@.has_block(block),
        ensures
            r@ == self@.block_insts(block),
    {
        let ghost s = self.contents@[block.0 as int];
        let ghost b = block.0 as int;
        proof {
            assert(block_insts_wf(self.blocks@, self.insts@, s, b));
        }
        let mut r: Vec<Inst> = Vec::new();
        let mut cur = self.blocks[block.0 as usize].first_inst;
        while cur.is_some()
            invariant
                self.wf(),
                0 <= b < self.contents@.len(),
                s == self.contents@[b],
                block_insts_wf(self.blocks@, self.insts@, s, b),
                r@.len() <= s.len(),
                r@ == s.take(r@.len() as int),
                cur == (if r@.len() < s.len() { Some(s[r@.len() as int]) } else { None::<Inst> }),
            decreases s.len() - r@.len(),
        {
            let i = cur.unwrap();
            proof {
                assert(inst_link_at(self.insts@, s, b, r@.len() as int));
            }
            r.push(i);
            cur = self.insts[i.0 as usize].next;
            proof {
                assert(r@ =~= s.take(r@.len() as int));
            }
        }
        proof {
            assert(r@ =~= s);
        }
        r
    }
}

/// Nodes of the blocks in `order` agree on their block links.
spec fn same_block_links(a: Seq<BlockNode>, b: Seq<BlockNode>, x: Block) -> bool {
    a[x.0 as int].prev == b[x.0 as int].prev && a[x.0 as int].next == b[x.0 as int].next
}

/// Nodes agree on their instruction list ends.
spec fn same_inst_ends(a: Seq<BlockNode>, b: Seq<BlockNode>, x: int) -> bool {
    a[x].first_inst == b[x].first_inst && a[x].last_inst == b[x].last_inst
}

impl Layout {
    /// Changing only block links keeps every instruction list well formed.
    proof fn lemma_inst_lists_frame(
        old_blocks: Seq<BlockNode>,
        new_blocks: Seq<BlockNode>,
        insts: Seq<InstNode>,
        contents: Seq<Seq<Inst>>,
    )
        requires
            old_blocks.len() == new_blocks.len(),
            contents.len() == old_blocks.len(),
            forall|b: int|
                0 <= b < old_blocks.len() ==> #[trigger] block_insts_wf(old_blocks, insts, contents[b], b),
            forall|b: int| 0 <= b < old_blocks.len() ==> #[trigger] same_inst_ends(old_blocks, new_blocks, b),
        ensures
            forall|b: int|
                0 <= b < new_blocks.len() ==> #[trigger] block_insts_wf(new_blocks, insts, contents[b], b),
    {
        assert forall|b: int| 0 <= b < new_blocks.len() implies #[trigger] block_insts_wf(
            new_blocks,
            insts,
            contents[b],
            b,
        ) by {
            assert(block_insts_wf(old_blocks, insts, contents[b], b));
            assert(same_inst_ends(old_blocks, new_blocks, b));
        }
    }

    /// Create a new block, not yet inserted in the layout.
    pub fn make_block(&mut self) -> (r: Block)
        requires
            old(self).wf(),
            old(self)@.num_blocks() < u32::MAX,
        ensures
            final(self).wf(),
            r.0 == old(self)@.num_blocks(),
            final(self)@.order == old(self)@.order,
            final(self)@.insts == old(self)@.insts.push(Seq::<Inst>::empty()),
            final(self)@.inst_slots == old(self)@.inst_slots,
    {
        let ghost old_blocks = self.blocks@;
        let n = self.blocks.len();
        self.blocks.push(BlockNode { prev: None, next: None, first_inst: None, last_inst: None });
        self.contents = Ghost(self.contents@.push(Seq::empty()));
        let r = Block(n as u32);
        proof {
            let blocks = self.blocks@;
            let order = self.order@;
            assert forall|i: int| 0 <= i < order.len() implies #[trigger] block_link_at(blocks, order, i) by {
                assert(block_link_at(old_blocks, order, i));
            }
            assert forall|b: int|
                0 <= b < blocks.len() && !order.contains(Block(b as u32)) implies {
                    &&& (#[trigger] blocks[b]).prev is None
                    &&& blocks[b].next is None
                    &&& self.contents@[b].len() == 0
                } by {
                if b < n {
                    assert(old_blocks[b] == blocks[b]);
                }
            }
            assert forall|b: int| 0 <= b < blocks.len() implies #[trigger] block_insts_wf(
                blocks,
                self.insts@,
                self.contents@[b],
                b,
            ) by {
                if b < n {
                    assert(block_insts_wf(old_blocks, self.insts@, self.contents@[b], b));
                } else {
                    assert(self.contents@[b] =~= Seq::<Inst>::empty());
                }
            }
            assert forall|k: int| 0 <= k < self.insts@.len() implies match (#[trigger] self.insts@[k]).block {
                None => self.insts@[k].prev is None && self.insts@[k].next is None,
                Some(b) => b.0 < blocks.len() && self.contents@[b.0 as int].contains(Inst(k as u32)),
            } by {
                match self.insts@[k].block {
                    None => {},
                    Some(b) => {
                        assert(self.contents@[b.0 as int] == old(self).contents@[b.0 as int]);
                    },
                }
            }
        }
        r
    }

    /// Append `block`, which must not be in the layout yet, at the end of the block order.
    pub fn append_block(&mut self, block: Block)
        requires
            old(self).wf(),
            old(self)@.has_block(block),
            !old(self)@.is_inserted(block),
        ensures
            final(self).wf(),
            final(self)@.order == old(self)@.order.push(block),
            final(self)@.insts == old(self)@.insts,
            final(self)@.inst_slots == old(self)@.inst_slots,
    {
        let ghost old_blocks = self.blocks@;
        let ghost old_order = self.order@;
        let ghost n = old_order.len() as int;
        let b = block.0 as usize;
        proof {
            assert(Block(b as u32) == block);
        }
        let mut node = self.blocks[b];
        node.prev = self.last_block;
        node.next = None;
        self.blocks.set(b, node);
        match self.last_block {
            Some(last) => {
                proof {
                    assert(old_order[n - 1] == last);
                    assert(block_link_at(old_blocks, old_order, n - 1));
                }
                let mut lnode = self.blocks[last.0 as usize];
                lnode.next = Some(block);
                self.blocks.set(last.0 as usize, lnode);
            },
            None => {
                self.first_block = Some(block);
            },
        }
        self.last_block = Some(block);
        self.order = Ghost(old_order.push(block));
        proof {
            let blocks = self.blocks@;
            let order = self.order@;
            assert(order[n] == block);
            assert forall|i: int| 0 <= i < order.len() implies #[trigger] block_link_at(blocks, order, i) by {
                if i < n {
                    assert(block_link_at(old_blocks, old_order, i));
                    assert(order[i] == old_order[i]);
                    assert(old_order[i] != block);
                    if i + 1 < n {
                        assert(old_order[i] != old_order[n - 1]);
                    }
                }
            }
            assert forall|x: int|
                0 <= x < blocks.len() && !order.contains(Block(x as u32)) implies {
                    &&& (#[trigger] blocks[x]).prev is None
                    &&& blocks[x].next is None
                    &&& self.contents@[x].len() == 0
                } by {
                if old_order.contains(Block(x as u32)) {
                    let k = old_order.index_of(Block(x as u32));
                    assert(order[k] == Block(x as u32));
                }
                assert(order[n] == block);
                assert(Block(x as u32) != block);
                if n > 0 {
                    assert(old_order[n - 1] != Block(x as u32));
                }
            }
            assert forall|x: int| 0 <= x < blocks.len() implies #[trigger] same_inst_ends(old_blocks, blocks, x) by {}
            Self::lemma_inst_lists_frame(old_blocks, blocks, self.insts@, self.contents@);
            assert(order.no_duplicates()) by {
                assert forall|i: int, j: int| 0 <= i < j < order.len() implies order[i] != order[j] by {
                    if j == n {
                        assert(old_order.contains(order[i]));
                    }
                }
            }
        }
    }
}

impl Layout {
    /// Inserting a fresh block at position `k` of the order, with the neighbours relinked,
    /// keeps the order well linked.
    proof fn lemma_insert_order(
        old_blocks: Seq<BlockNode>,
        blocks: Seq<BlockNode>,
        old_order: Seq<Block>,
        k: int,
        block: Block,
    )
        requires
            0 <= k <= old_order.len(),
            old_blocks.len() == blocks.len(),
            block.0 < blocks.len(),
            old_order.no_duplicates(),
            !old_order.contains(block),
            forall|i: int| 0 <= i < old_order.len() ==> (#[trigger] old_order[i]).0 < old_blocks.len(),
            forall|i: int| 0 <= i < old_order.len() ==> #[trigger] block_link_at(old_blocks, old_order, i),
            blocks[block.0 as int].prev == opt_prev(old_order, k),
            blocks[block.0 as int].next == (if k < old_order.len() { Some(old_order[k]) } else { None::<Block> }),
            k > 0 ==> blocks[old_order[k - 1].0 as int].next == Some(block),
            k > 0 ==> blocks[old_order[k - 1].0 as int].prev == old_blocks[old_order[k - 1].0 as int].prev,
            k < old_order.len() ==> blocks[old_order[k].0 as int].prev == Some(block),
            k < old_order.len() ==> blocks[old_order[k].0 as int].next == old_blocks[old_order[k].0 as int].next,
            forall|i: int|
                0 <= i < old_order.len() && i != k - 1 && i != k ==> #[trigger] same_block_links(
                    old_blocks,
                    blocks,
                    old_order[i],
                ),
        ensures
            old_order.insert(k, block).no_duplicates(),
            forall|i: int|
                0 <= i < old_order.len() + 1 ==> #[trigger] block_link_at(blocks, old_order.insert(k, block), i),
    {
        let order = old_order.insert(k, block);
        let n = old_order.len() as int;
        assert forall|i: int, j: int| 0 <= i < j < order.len() implies order[i] != order[j] by {
            if i == k {
                assert(old_order.contains(order[j]));
            } else if j == k {
                assert(old_order.contains(order[i]));
            }
        }
        assert forall|i: int| 0 <= i < order.len() implies #[trigger] block_link_at(blocks, order, i) by {
            if i < k {
                assert(order[i] == old_order[i]);
                assert(block_link_at(old_blocks, old_order, i));
                if i != k - 1 {
                    assert(same_block_links(old_blocks, blocks, old_order[i]));
                }
            } else if i > k {
                assert(order[i] == old_order[i - 1]);
                assert(block_link_at(old_blocks, old_order, i - 1));
                if i - 1 != k {
                    assert(same_block_links(old_blocks, blocks, old_order[i - 1]));
                }
            }
        }
    }

    /// Frame facts for the blocks that are not in the order.
    proof fn lemma_detached_blocks_frame(&self, old_blocks: Seq<BlockNode>, old_order: Seq<Block>)
        requires
            old_blocks.len() == self.blocks@.len(),
            self.contents@.len() == self.blocks@.len(),
            self.blocks@.len() <= u32::MAX,
            forall|b: int|
                0 <= b < old_blocks.len() && !old_order.contains(Block(b as u32)) ==> {
                    &&& (#[trigger] old_blocks[b]).prev is None
                    &&& old_blocks[b].next is None
                    &&& self.contents@[b].len() == 0
                },
            forall|b: int|
                0 <= b < old_blocks.len() && !self.order@.contains(Block(b as u32)) ==> old_order.contains(
                    Block(b as u32),
                ) || (#[trigger] same_block_links(old_blocks, self.blocks@, Block(b as u32))),
            forall|b: int|
                0 <= b < old_blocks.len() && !self.order@.contains(Block(b as u32)) && old_order.contains(
                    Block(b as u32),
                ) ==> {
                    &&& (#[trigger] self.blocks@[b]).prev is None
                    &&& self.blocks@[b].next is None
                    &&& self.contents@[b].len() == 0
                },
        ensures
            forall|b: int|
                0 <= b < self.blocks@.len() && !self.order@.contains(Block(b as u32)) ==> {
                    &&& (#[trigger] self.blocks@[b]).prev is None
                    &&& self.blocks@[b].next is None
                    &&& self.contents@[b].len() == 0
                },
    {
        assert forall|b: int|
            0 <= b < self.blocks@.len() && !self.order@.contains(Block(b as u32)) implies {
                &&& (#[trigger] self.blocks@[b]).prev is None
                &&& self.blocks@[b].next is None
                &&& self.contents@[b].len() == 0
            } by {
            if !old_order.contains(Block(b as u32)) {
                assert(same_block_links(old_blocks, self.blocks@, Block(b as u32)));
                assert(Block(b as u32).0 as int == b);
                assert(old_blocks[b].prev is None);
            }
        }
    }

    /// Insert `block`, which must not be in the layout yet, before the block `before`.
    pub fn insert_block(&mut self, block: Block, before: Block)
        requires
            old(self).wf(),
            old(self)@.has_block(block),
            !old(self)@.is_inserted(block),
            old(self)@.is_inserted(before),
        ensures
            final(self).wf(),
            final(self)@.order == old(self)@.order.insert(old(self)@.order.index_of(before), block),
            final(self)@.insts == old(self)@.insts,
            final(self)@.inst_slots == old(self)@.inst_slots,
    {
        let ghost old_blocks = self.blocks@;
        let ghost old_order = self.order@;
        let ghost k = old_order.index_of(before);
        proof {
            assert(block_link_at(old_blocks, old_order, k));
            if k > 0 {
                assert(block_link_at(old_blocks, old_order, k - 1));
            }
            assert(Block(block.0 as int as u32) == block);
        }
        let after = self.blocks[before.0 as usize].prev;
        let mut node = self.blocks[block.0 as usize];
        node.next = Some(before);
        node.prev = after;
        self.blocks.set(block.0 as usize, node);
        let mut bnode = self.blocks[before.0 as usize];
        bnode.prev = Some(block);
        self.blocks.set(before.0 as usize, bnode);
        match after {
            None => {
                self.first_block = Some(block);
            },
            Some(a) => {
                let mut anode = self.blocks[a.0 as usize];
                anode.next = Some(block);
                self.blocks.set(a.0 as usize, anode);
            },
        }
        self.order = Ghost(old_order.insert(k, block));
        proof {
            let blocks = self.blocks@;
            let order = self.order@;
            assert forall|i: int|
                0 <= i < old_order.len() && i != k - 1 && i != k implies #[trigger] same_block_links(
                old_blocks,
                blocks,
                old_order[i],
            ) by {
                assert(old_order[i] != before);
                if k > 0 {
                    assert(old_order[i] != old_order[k - 1]);
                }
                assert(old_order[i] != block);
            }
            Self::lemma_insert_order(old_blocks, blocks, old_order, k, block);
            assert forall|i: int| 0 <= i < order.len() implies (#[trigger] order[i]).0 < blocks.len() by {
                if i < k {
                    assert(order[i] == old_order[i]);
                } else if i > k {
                    assert(order[i] == old_order[i - 1]);
                }
            }
            assert forall|b: int|
                0 <= b < old_blocks.len() && !order.contains(Block(b as u32)) implies old_order.contains(
                Block(b as u32),
            ) || (#[trigger] same_block_links(old_blocks, blocks, Block(b as u32))) by {
                if !old_order.contains(Block(b as u32)) {
                    assert(Block(b as u32) != block) by {
                        assert(order[k] == block);
                    }
                    assert(Block(b as u32) != before);
                    if k > 0 {
                        assert(Block(b as u32) != old_order[k - 1]);
                    }
                }
            }
            assert forall|b: int|
                0 <= b < old_blocks.len() && !order.contains(Block(b as u32)) && old_order.contains(
                Block(b as u32),
            ) implies {
                &&& (#[trigger] blocks[b]).prev is None
                &&& blocks[b].next is None
                &&& self.contents@[b].len() == 0
            } by {
                let j = old_order.index_of(Block(b as u32));
                if j < k {
                    assert(order[j] == old_order[j]);
                } else {
                    assert(order[j + 1] == old_order[j]);
                }
            }
            self.lemma_detached_blocks_frame(old_blocks, old_order);
            assert forall|x: int| 0 <= x < blocks.len() implies #[trigger] same_inst_ends(old_blocks, blocks, x) by {}
            Self::lemma_inst_lists_frame(old_blocks, blocks, self.insts@, self.contents@);
            assert(self.first_block == opt_first(order)) by {
                if k > 0 {
                    assert(order[0] == old_order[0]);
                }
            }
            assert(self.last_block == opt_last(order)) by {
                assert(order[order.len() - 1] == old_order[old_order.len() - 1]);
            }
        }
    }
}

impl Layout {
    /// Insert `block`, which must not be in the layout yet, after the block `after`.
    pub fn insert_block_after(&mut self, block: Block, after: Block)
        requires
            old(self).wf(),
            old(self)@.has_block(block),
            !old(self)@.is_inserted(block),
            old(self)@.is_inserted(after),
        ensures
            final(self).wf(),
            final(self)@.order == old(self)@.order.insert(old(self)@.order.index_of(after) + 1, block),
            final(self)@.insts == old(self)@.insts,
            final(self)@.inst_slots == old(self)@.inst_slots,
    {
        let ghost old_blocks = self.blocks@;
        let ghost old_order = self.order@;
        let ghost k = old_order.index_of(after) + 1;
        proof {
            assert(block_link_at(old_blocks, old_order, k - 1));
            if k < old_order.len() {
                assert(block_link_at(old_blocks, old_order, k));
            }
            assert(Block(block.0 as int as u32) == block);
        }
        let before = self.blocks[after.0 as usize].next;
        let mut node = self.blocks[block.0 as usize];
        node.next = before;
        node.prev = Some(after);
        self.blocks.set(block.0 as usize, node);
        let mut anode = self.blocks[after.0 as usize];
        anode.next = Some(block);
        self.blocks.set(after.0 as usize, anode);
        match before {
            None => {
                self.last_block = Some(block);
            },
            Some(b) => {
                let mut bnode = self.blocks[b.0 as usize];
                bnode.prev = Some(block);
                self.blocks.set(b.0 as usize, bnode);
            },
        }
        self.order = Ghost(old_order.insert(k, block));
        proof {
            let blocks = self.blocks@;
            let order = self.order@;
            assert forall|i: int|
                0 <= i < old_order.len() && i != k - 1 && i != k implies #[trigger] same_block_links(
                old_blocks,
                blocks,
                old_order[i],
            ) by {
                assert(old_order[i] != after);
                if k < old_order.len() {
                    assert(old_order[i] != old_order[k]);
                }
                assert(old_order[i] != block);
            }
            Self::lemma_insert_order(old_blocks, blocks, old_order, k, block);
            assert forall|i: int| 0 <= i < order.len() implies (#[trigger] order[i]).0 < blocks.len() by {
                if i < k {
                    assert(order[i] == old_order[i]);
                } else if i > k {
                    assert(order[i] == old_order[i - 1]);
                }
            }
            assert forall|b: int|
                0 <= b < old_blocks.len() && !order.contains(Block(b as u32)) implies old_order.contains(
                Block(b as u32),
            ) || (#[trigger] same_block_links(old_blocks, blocks, Block(b as u32))) by {
                if !old_order.contains(Block(b as u32)) {
                    assert(Block(b as u32) != block) by {
                        assert(order[k] == block);
                    }
                    assert(Block(b as u32) != after);
                    if k < old_order.len() {
                        assert(Block(b as u32) != old_order[k]);
                    }
                }
            }
            assert forall|b: int|
                0 <= b < old_blocks.len() && !order.contains(Block(b as u32)) && old_order.contains(
                Block(b as u32),
            ) implies {
                &&& (#[trigger] blocks[b]).prev is None
                &&& blocks[b].next is None
                &&& self.contents@[b].len() == 0
            } by {
                let j = old_order.index_of(Block(b as u32));
                if j < k {
                    assert(order[j] == old_order[j]);
                } else {
                    assert(order[j + 1] == old_order[j]);
                }
            }
            self.lemma_detached_blocks_frame(old_blocks, old_order);
            assert forall|x: int| 0 <= x < blocks.len() implies #[trigger] same_inst_ends(old_blocks, blocks, x) by {}
            Self::lemma_inst_lists_frame(old_blocks, blocks, self.insts@, self.contents@);
            assert(self.first_block == opt_first(order)) by {
                assert(order[0] == old_order[0]);
            }
            assert(self.last_block == opt_last(order)) by {
                if k < old_order.len() {
                    assert(order[order.len() - 1] == old_order[old_order.len() - 1]);
                }
            }
        }
    }

    /// Create a new block and append it to the layout.
    pub fn append_new_block(&mut self) -> (r: Block)
        requires
            old(self).wf(),
            old(self)@.num_blocks() < u32::MAX,
        ensures
            final(self).wf(),
            r.0 == old(self)@.num_blocks(),
            final(self)@.order == old(self)@.order.push(r),
            final(self)@.insts == old(self)@.insts.push(Seq::<Inst>::empty()),
            final(self)@.inst_slots == old(self)@.inst_slots,
    {
        let block = self.make_block();
        proof {
            self.lemma_valid();
            if self@.order.contains(block) {
                let i = self@.order.index_of(block);
                assert(self@.order[i].0 < old(self)@.num_blocks());
            }
        }
        self.append_block(block);
        block
    }
}

impl Layout {
    /// Removing the block at position `k` of the order, with its neighbours relinked,
    /// keeps the order well linked.
    proof fn lemma_remove_order(
        old_blocks: Seq<BlockNode>,
        blocks: Seq<BlockNode>,
        old_order: Seq<Block>,
        k: int,
    )
        requires
            0 <= k < old_order.len(),
            old_blocks.len() == blocks.len(),
            old_order.no_duplicates(),
            forall|i: int| 0 <= i < old_order.len() ==> (#[trigger] old_order[i]).0 < old_blocks.len(),
            forall|i: int| 0 <= i < old_order.len() ==> #[trigger] block_link_at(old_blocks, old_order, i),
            k > 0 ==> blocks[old_order[k - 1].0 as int].next == opt_next(old_order, k),
            k > 0 ==> blocks[old_order[k - 1].0 as int].prev == old_blocks[old_order[k - 1].0 as int].prev,
            k + 1 < old_order.len() ==> blocks[old_order[k + 1].0 as int].prev == opt_prev(old_order, k),
            k + 1 < old_order.len() ==> blocks[old_order[k + 1].0 as int].next
                == old_blocks[old_order[k + 1].0 as int].next,
            forall|i: int|
                0 <= i < old_order.len() && i != k - 1 && i != k && i != k + 1
                    ==> #[trigger] same_block_links(old_blocks, blocks, old_order[i]),
        ensures
            old_order.remove(k).no_duplicates(),
            forall|i: int|
                0 <= i < old_order.len() - 1 ==> #[trigger] block_link_at(blocks, old_order.remove(k), i),
    {
        let order = old_order.remove(k);
        assert forall|i: int, j: int| 0 <= i < j < order.len() implies order[i] != order[j] by {
            if i < k {
                if j < k {
                } else {
                    assert(order[j] == old_order[j + 1]);
                }
            } else {
                assert(order[j] == old_order[j + 1]);
                assert(order[i] == old_order[i + 1]);
            }
        }
        assert forall|i: int| 0 <= i < order.len() implies #[trigger] block_link_at(blocks, order, i) by {
            if i < k {
                assert(order[i] == old_order[i]);
                assert(block_link_at(old_blocks, old_order, i));
                if i != k - 1 {
                    assert(same_block_links(old_blocks, blocks, old_order[i]));
                } else {
                    assert(block_link_at(old_blocks, old_order, k));
                }
            } else {
                assert(order[i] == old_order[i + 1]);
                assert(block_link_at(old_blocks, old_order, i + 1));
                if i + 1 != k + 1 {
                    assert(same_block_links(old_blocks, blocks, old_order[i + 1]));
                } else {
                    assert(block_link_at(old_blocks, old_order, k));
                }
            }
        }
    }

    /// Remove `block` from the layout. The block must hold no instructions; removing the
    /// only block leaves an empty layout.
    pub fn remove_empty_block(&mut self, block: Block)
        requires
            old(self).wf(),
            old(self)@.has_block(block),
            old(self)@.is_inserted(block),
            old(self)@.block_insts(block).len() == 0,
        ensures
            final(self).wf(),
            final(self)@.order == old(self)@.order.remove(old(self)@.order.index_of(block)),
            final(self)@.insts == old(self)@.insts,
            final(self)@.inst_slots == old(self)@.inst_slots,
    {
        let ghost old_blocks = self.blocks@;
        let ghost old_order = self.order@;
        let ghost k = old_order.index_of(block);
        proof {
            assert(block_link_at(old_blocks, old_order, k));
            if k > 0 {
                assert(block_link_at(old_blocks, old_order, k - 1));
            }
            if k + 1 < old_order.len() {
                assert(block_link_at(old_blocks, old_order, k + 1));
            }
        }
        let b = block.0 as usize;
        let mut n = self.blocks[b];
        let prev = n.prev;
        let next = n.next;
        n.prev = None;
        n.next = None;
        self.blocks.set(b, n);
        match prev {
            None => {
                self.first_block = next;
            },
            Some(p) => {
                let mut pn = self.blocks[p.0 as usize];
                pn.next = next;
                self.blocks.set(p.0 as usize, pn);
            },
        }
        match next {
            None => {
                self.last_block = prev;
            },
            Some(x) => {
                let mut xn = self.blocks[x.0 as usize];
                xn.prev = prev;
                self.blocks.set(x.0 as usize, xn);
            },
        }
        if let Some(last) = self.last_block {
            if last.0 == block.0 {
                self.last_block = prev;
            }
        }
        self.order = Ghost(old_order.remove(k));
        proof {
            let blocks = self.blocks@;
            let order = self.order@;
            assert forall|i: int|
                0 <= i < old_order.len() && i != k - 1 && i != k && i != k + 1
                    implies #[trigger] same_block_links(old_blocks, blocks, old_order[i]) by {
                assert(old_order[i] != block);
                if k > 0 {
                    assert(old_order[i] != old_order[k - 1]);
                }
                if k + 1 < old_order.len() {
                    assert(old_order[i] != old_order[k + 1]);
                }
            }
            Self::lemma_remove_order(old_blocks, blocks, old_order, k);
            assert forall|i: int| 0 <= i < order.len() implies (#[trigger] order[i]).0 < blocks.len() by {
                if i < k {
                    assert(order[i] == old_order[i]);
                } else {
                    assert(order[i] == old_order[i + 1]);
                }
            }
            assert(!order.contains(block)) by {
                if order.contains(block) {
                    let j = order.index_of(block);
                    if j < k {
                        assert(order[j] == old_order[j]);
                    } else {
                        assert(order[j] == old_order[j + 1]);
                    }
                }
            }
            assert forall|x: int|
                0 <= x < old_blocks.len() && !order.contains(Block(x as u32)) implies old_order.contains(
                Block(x as u32),
            ) || (#[trigger] same_block_links(old_blocks, blocks, Block(x as u32))) by {
                if !old_order.contains(Block(x as u32)) {
                    assert(Block(x as u32) != block);
                    if k > 0 {
                        assert(Block(x as u32) != old_order[k - 1]);
                    }
                    if k + 1 < old_order.len() {
                        assert(Block(x as u32) != old_order[k + 1]);
                    }
                }
            }
            assert forall|x: int|
                0 <= x < old_blocks.len() && !order.contains(Block(x as u32)) && old_order.contains(
                Block(x as u32),
            ) implies {
                &&& (#[trigger] blocks[x]).prev is None
                &&& blocks[x].next is None
                &&& self.contents@[x].len() == 0
            } by {
                let j = old_order.index_of(Block(x as u32));
                if j < k {
                    assert(order[j] == old_order[j]);
                } else if j > k {
                    assert(order[j - 1] == old_order[j]);
                } else {
                    assert(Block(x as u32) == block);
                    assert(x == block.0 as int);
                }
            }
            self.lemma_detached_blocks_frame(old_blocks, old_order);
            assert forall|x: int| 0 <= x < blocks.len() implies #[trigger] same_inst_ends(old_blocks, blocks, x) by {}
            Self::lemma_inst_lists_frame(old_blocks, blocks, self.insts@, self.contents@);
            assert(self.first_block == opt_first(order)) by {
                if k > 0 {
                    assert(order[0] == old_order[0]);
                } else if old_order.len() > 1 {
                    assert(order[0] == old_order[1]);
                } else {
                    assert(order.len() == 0);
                }
            }
            assert(self.last_block == opt_last(order)) by {
                if k + 1 < old_order.len() {
                    assert(order[order.len() - 1] == old_order[old_order.len() - 1]);
                } else if old_order.len() > 1 {
                    assert(order[order.len() - 1] == old_order[old_order.len() - 2]);
                } else {
                    assert(order.len() == 0);
                }
            }
            assert forall|i: int| 0 <= i < self.insts@.len() implies match (#[trigger] self.insts@[i]).block {
                None => self.insts@[i].prev is None && self.insts@[i].next is None,
                Some(b) => b.0 < blocks.len() && self.contents@[b.0 as int].contains(Inst(i as u32)),
            } by {}
        }
    }
}

/// Every instruction node points back into the instruction lists.
spec fn inst_backlinks(blocks_len: int, insts: Seq<InstNode>, contents: Seq<Seq<Inst>>) -> bool {
    forall|k: int|
        0 <= k < insts.len() ==> match (#[trigger] insts[k]).block {
            None => insts[k].prev is None && insts[k].next is None,
            Some(b) => b.0 < blocks_len && contents[b.0 as int].contains(Inst(k as u32)),
        }
}

/// Every instruction list is well formed.
spec fn inst_lists_wf(blocks: Seq<BlockNode>, insts: Seq<InstNode>, contents: Seq<Seq<Inst>>) -> bool {
    forall|b: int| 0 <= b < blocks.len() ==> #[trigger] block_insts_wf(blocks, insts, contents[b], b)
}

impl Layout {
    /// Inserting `inst` at position `j` of the list of block `b`, with the neighbours
    /// relinked, keeps all instruction lists well formed.
    proof fn lemma_insert_inst(
        old_blocks: Seq<BlockNode>,
        blocks: Seq<BlockNode>,
        old_insts: Seq<InstNode>,
        insts: Seq<InstNode>,
        contents: Seq<Seq<Inst>>,
        b: int,
        j: int,
        inst: Inst,
    )
        requires
            blocks.len() == old_blocks.len(),
            blocks.len() <= u32::MAX,
            contents.len() == blocks.len(),
            insts.len() == old_insts.len(),
            insts.len() <= u32::MAX,
            0 <= b < blocks.len(),
            0 <= j <= contents[b].len(),
            inst.0 < insts.len(),
            old_insts[inst.0 as int].block is None,
            inst_lists_wf(old_blocks, old_insts, contents),
            inst_backlinks(blocks.len() as int, old_insts, contents),
            forall|x: int| 0 <= x < blocks.len() && x != b ==> #[trigger] same_inst_ends(old_blocks, blocks, x),
            blocks[b].first_inst == opt_first(contents[b].insert(j, inst)),
            blocks[b].last_inst == opt_last(contents[b].insert(j, inst)),
            insts[inst.0 as int] == (InstNode {
                block: Some(Block(b as u32)),
                prev: opt_prev(contents[b], j),
                next: if j < contents[b].len() { Some(contents[b][j]) } else { None::<Inst> },
            }),
            j > 0 ==> insts[contents[b][j - 1].0 as int] == (InstNode {
                next: Some(inst),
                ..old_insts[contents[b][j - 1].0 as int]
            }),
            j < contents[b].len() ==> insts[contents[b][j].0 as int] == (InstNode {
                prev: Some(inst),
                ..old_insts[contents[b][j].0 as int]
            }),
            forall|k: int|
                0 <= k < insts.len() && k != inst.0 && (j > 0 ==> k != contents[b][j - 1].0) && (j
                    < contents[b].len() ==> k != contents[b][j].0) ==> #[trigger] insts[k] == old_insts[k],
        ensures
            inst_lists_wf(blocks, insts, contents.update(b, contents[b].insert(j, inst))),
            inst_backlinks(blocks.len() as int, insts, contents.update(b, contents[b].insert(j, inst))),
    {
        let s = contents[b];
        let ns = s.insert(j, inst);
        let nc = contents.update(b, ns);
        assert(block_insts_wf(old_blocks, old_insts, s, b));
        // `inst` is in no list yet.
        assert forall|c: int| 0 <= c < contents.len() implies !(#[trigger] contents[c]).contains(inst) by {
            if contents[c].contains(inst) {
                assert(block_insts_wf(old_blocks, old_insts, contents[c], c));
                let q = contents[c].index_of(inst);
                assert(inst_link_at(old_insts, contents[c], c, q));
            }
        }
        assert forall|c: int| 0 <= c < blocks.len() implies #[trigger] block_insts_wf(blocks, insts, nc[c], c) by {
            assert(block_insts_wf(old_blocks, old_insts, contents[c], c));
            if c != b {
                assert(same_inst_ends(old_blocks, blocks, c));
                assert forall|q: int| 0 <= q < nc[c].len() implies #[trigger] inst_link_at(insts, nc[c], c, q) by {
                    assert(inst_link_at(old_insts, contents[c], c, q));
                    let k = contents[c][q].0 as int;
                    assert(old_insts[k].block == Some(Block(c as u32)));
                    assert(Block(c as u32) != Block(b as u32));
                    if j > 0 {
                        assert(inst_link_at(old_insts, s, b, j - 1));
                    }
                    if j < s.len() {
                        assert(inst_link_at(old_insts, s, b, j));
                    }
                    assert(insts[k] == old_insts[k]);
                }
            } else {
                assert(ns.no_duplicates()) by {
                    assert forall|x: int, y: int| 0 <= x < y < ns.len() implies ns[x] != ns[y] by {
                        if x == j {
                            assert(s.contains(ns[y]));
                        } else if y == j {
                            assert(s.contains(ns[x]));
                        }
                    }
                }
                assert forall|q: int| 0 <= q < ns.len() implies (#[trigger] ns[q]).0 < insts.len() by {
                    if q < j {
                        assert(ns[q] == s[q]);
                    } else if q > j {
                        assert(ns[q] == s[q - 1]);
                    }
                }
                assert forall|q: int| 0 <= q < ns.len() implies #[trigger] inst_link_at(insts, ns, b, q) by {
                    if q < j {
                        assert(ns[q] == s[q]);
                        assert(inst_link_at(old_insts, s, b, q));
                        if q < j - 1 {
                            assert(s[q] != s[j - 1]);
                            if j < s.len() {
                                assert(s[q] != s[j]);
                            }
                            assert(s[q] != inst);
                        }
                    } else if q > j {
                        assert(ns[q] == s[q - 1]);
                        assert(inst_link_at(old_insts, s, b, q - 1));
                        if q > j + 1 {
                            assert(s[q - 1] != s[j]);
                            if j > 0 {
                                assert(s[q - 1] != s[j - 1]);
                            }
                            assert(s[q - 1] != inst);
                        }
                    }
                }
            }
        }
        Self::lemma_insert_inst_backlinks(old_blocks, blocks, old_insts, insts, contents, b, j, inst);
    }

    proof fn lemma_insert_inst_backlinks(
        old_blocks: Seq<BlockNode>,
        blocks: Seq<BlockNode>,
        old_insts: Seq<InstNode>,
        insts: Seq<InstNode>,
        contents: Seq<Seq<Inst>>,
        b: int,
        j: int,
        inst: Inst,
    )
        requires
            blocks.len() == old_blocks.len(),
            blocks.len() <= u32::MAX,
            contents.len() == blocks.len(),
            insts.len() == old_insts.len(),
            insts.len() <= u32::MAX,
            0 <= b < blocks.len(),
            0 <= j <= contents[b].len(),
            inst.0 < insts.len(),
            old_insts[inst.0 as int].block is None,
            inst_lists_wf(old_blocks, old_insts, contents),
            inst_backlinks(blocks.len() as int, old_insts, contents),
            forall|x: int| 0 <= x < blocks.len() && x != b ==> #[trigger] same_inst_ends(old_blocks, blocks, x),
            blocks[b].first_inst == opt_first(contents[b].insert(j, inst)),
            blocks[b].last_inst == opt_last(contents[b].insert(j, inst)),
            insts[inst.0 as int] == (InstNode {
                block: Some(Block(b as u32)),
                prev: opt_prev(contents[b], j),
                next: if j < contents[b].len() { Some(contents[b][j]) } else { None::<Inst> },
            }),
            j > 0 ==> insts[contents[b][j - 1].0 as int] == (InstNode {
                next: Some(inst),
                ..old_insts[contents[b][j - 1].0 as int]
            }),
            j < contents[b].len() ==> insts[contents[b][j].0 as int] == (InstNode {
                prev: Some(inst),
                ..old_insts[contents[b][j].0 as int]
            }),
            forall|k: int|
                0 <= k < insts.len() && k != inst.0 && (j > 0 ==> k != contents[b][j - 1].0) && (j
                    < contents[b].len() ==> k != contents[b][j].0) ==> #[trigger] insts[k] == old_insts[k],
        ensures
            inst_backlinks(blocks.len() as int, insts, contents.update(b, contents[b].insert(j, inst))),
    {
        let s = contents[b];
        let ns = s.insert(j, inst);
        let nc = contents.update(b, ns);
        assert(block_insts_wf(old_blocks, old_insts, s, b));
        assert forall|k: int| 0 <= k < insts.len() implies match (#[trigger] insts[k]).block {
            None => insts[k].prev is None && insts[k].next is None,
            Some(c) => c.0 < blocks.len() && nc[c.0 as int].contains(Inst(k as u32)),
        } by {
            assert(Inst(k as u32).0 as int == k);
            if k == inst.0 {
                assert(ns[j] == inst);
                assert(Inst(k as u32) == inst);
                assert(nc[b] == ns);
                assert((b as u32) as int == b);
                assert(nc[b].contains(inst));
            } else {
                if j > 0 && k == s[j - 1].0 {
                    assert(inst_link_at(old_insts, s, b, j - 1));
                    assert(insts[k].block == old_insts[k].block);
                } else if j < s.len() && k == s[j].0 {
                    assert(inst_link_at(old_insts, s, b, j));
                    assert(insts[k].block == old_insts[k].block);
                } else {
                    assert(insts[k] == old_insts[k]);
                }
                assert(insts[k].block == old_insts[k].block);
                match old_insts[k].block {
                    None => {
                        assert(old_insts[k].prev is None);
                        assert(insts[k].prev is None && insts[k].next is None);
                    },
                    Some(c) => {
                        if c.0 as int == b {
                            let q = s.index_of(Inst(k as u32));
                            if q < j {
                                assert(ns[q] == s[q]);
                            } else {
                                assert(ns[q + 1] == s[q]);
                            }
                            assert(nc[c.0 as int].contains(Inst(k as u32)));
                        } else {
                            assert(nc[c.0 as int] == contents[c.0 as int]);
                            assert(nc[c.0 as int].contains(Inst(k as u32)));
                        }
                    },
                }
            }
        }
    }

}

/// The larger of two numbers.
pub open spec fn max_nat(a: nat, b: nat) -> nat {
    if a >= b { a } else { b }
}

impl Layout {
    /// Grow the instruction table so that `inst` has a node.
    fn ensure_inst_slot(&mut self, inst: Inst)
        requires
            old(self).wf(),
            inst.0 < u32::MAX,
        ensures
            final(self).wf(),
            final(self)@.order == old(self)@.order,
            final(self)@.insts == old(self)@.insts,
            final(self)@.inst_slots == max_nat(old(self)@.inst_slots, inst.0 as nat + 1),
            final(self).blocks@ == old(self).blocks@,
            final(self).first_block == old(self).first_block,
            final(self).last_block == old(self).last_block,
            inst.0 < final(self).insts@.len(),
            forall|k: int| 0 <= k < old(self).insts@.len() ==> #[trigger] final(self).insts@[k] == old(self).insts@[k],
            forall|k: int|
                old(self).insts@.len() <= k < final(self).insts@.len() ==> (#[trigger] final(self).insts@[k]).block is None,
    {
        let ghost old_insts = self.insts@;
        if self.insts.len() <= inst.0 as usize {
            let want = inst.0 as usize + 1;
            while self.insts.len() < want
                invariant
                    old(self).wf(),
                    old_insts == old(self).insts@,
                    self.blocks@ == old(self).blocks@,
                    self.contents@ == old(self).contents@,
                    self.order@ == old(self).order@,
                    self.first_block == old(self).first_block,
                    self.last_block == old(self).last_block,
                    want == inst.0 as usize + 1,
                    old_insts.len() <= self.insts@.len() <= want,
                    forall|k: int| 0 <= k < old_insts.len() ==> #[trigger] self.insts@[k] == old_insts[k],
                    forall|k: int|
                        old_insts.len() <= k < self.insts@.len() ==> #[trigger] self.insts@[k] == (InstNode { block: None, prev: None, next: None }),
                decreases want - self.insts@.len(),
            {
                self.insts.push(InstNode { block: None, prev: None, next: None });
            }
            proof {
                let blocks = self.blocks@;
                let insts = self.insts@;
                assert forall|b: int| 0 <= b < blocks.len() implies #[trigger] block_insts_wf(
                    blocks,
                    insts,
                    self.contents@[b],
                    b,
                ) by {
                    assert(block_insts_wf(blocks, old_insts, self.contents@[b], b));
                    let sb = self.contents@[b];
                    assert forall|q: int| 0 <= q < sb.len() implies #[trigger] inst_link_at(insts, sb, b, q) by {
                        assert(inst_link_at(old_insts, sb, b, q));
                    }
                }
                assert forall|k: int| 0 <= k < insts.len() implies match (#[trigger] insts[k]).block {
                    None => insts[k].prev is None && insts[k].next is None,
                    Some(c) => c.0 < blocks.len() && self.contents@[c.0 as int].contains(Inst(k as u32)),
                } by {
                    if k < old_insts.len() {
                        assert(insts[k] == old_insts[k]);
                    }
                }
            }
        }
    }

    /// Append `inst`, which must not be in the layout yet, to the end of `block`.
    pub fn append_inst_to_block(&mut self, inst: Inst, block: Block)
        requires
            old(self).wf(),
            inst.0 < u32::MAX,
            !old(self)@.inst_inserted(inst),
            old(self)@.has_block(block),
            old(self)@.is_inserted(block),
        ensures
            final(self).wf(),
            final(self)@.order == old(self)@.order,
            final(self)@.insts == old(self)@.insts.update(
                block.0 as int,
                old(self)@.block_insts(block).push(inst),
            ),
            final(self)@.inst_slots == max_nat(old(self)@.inst_slots, inst.0 as nat + 1),
    {
        self.ensure_inst_slot(inst);
        proof {
            self.lemma_block_of(inst);
        }
        let ghost old_blocks = self.blocks@;
        let ghost old_insts = self.insts@;
        let ghost b = block.0 as int;
        let ghost s = self.contents@[b];
        proof {
            assert(block_insts_wf(old_blocks, old_insts, s, b));
            if s.len() > 0 {
                assert(inst_link_at(old_insts, s, b, s.len() - 1));
            }
            assert(Block(b as u32) == block);
        }
        let bn = self.blocks[block.0 as usize];
        let mut node = self.insts[inst.0 as usize];
        node.block = Some(block);
        node.prev = bn.last_inst;
        node.next = None;
        self.insts.set(inst.0 as usize, node);
        let mut bn2 = bn;
        match bn.first_inst {
            None => {
                bn2.first_inst = Some(inst);
            },
            Some(_) => {
                let last = bn.last_inst.unwrap();
                let mut ln = self.insts[last.0 as usize];
                ln.next = Some(inst);
                self.insts.set(last.0 as usize, ln);
            },
        }
        bn2.last_inst = Some(inst);
        self.blocks.set(block.0 as usize, bn2);
        proof {
            let j = s.len() as int;
            assert(s.insert(j, inst) =~= s.push(inst));
            assert forall|x: int| 0 <= x < self.blocks@.len() && x != b implies #[trigger] same_inst_ends(
                old_blocks,
                self.blocks@,
                x,
            ) by {}
            Self::lemma_insert_inst(old_blocks, self.blocks@, old_insts, self.insts@, self.contents@, b, j, inst);
            self.contents = Ghost(self.contents@.update(b, s.push(inst)));
            assert forall|i: int| 0 <= i < self.order@.len() implies #[trigger] block_link_at(
                self.blocks@,
                self.order@,
                i,
            ) by {
                assert(block_link_at(old_blocks, self.order@, i));
            }
            assert forall|x: int|
                0 <= x < self.blocks@.len() && !self.order@.contains(Block(x as u32)) implies {
                    &&& (#[trigger] self.blocks@[x]).prev is None
                    &&& self.blocks@[x].next is None
                    &&& self.contents@[x].len() == 0
                } by {
                assert(old_blocks[x].prev is None);
                if x == b {
                    assert(Block(x as u32) == block);
                }
            }
        }
    }
}

impl Layout {
    /// Insert `inst`, which must not be in the layout yet, before the instruction `before`
    /// in the block of `before`.
    pub fn prepend_inst(&mut self, inst: Inst, before: Inst)
        requires
            old(self).wf(),
            inst.0 < u32::MAX,
            !old(self)@.inst_inserted(inst),
            old(self)@.inst_inserted(before),
        ensures
            final(self).wf(),
            final(self)@.order == old(self)@.order,
            final(self)@.insts == old(self)@.insts.update(
                old(self)@.block_of(before).unwrap().0 as int,
                old(self)@.block_insts(old(self)@.block_of(before).unwrap()).insert(
                    old(self)@.block_insts(old(self)@.block_of(before).unwrap()).index_of(before),
                    inst,
                ),
            ),
            final(self)@.inst_slots == max_nat(old(self)@.inst_slots, inst.0 as nat + 1),
    {
        self.ensure_inst_slot(inst);
        proof {
            self.lemma_valid();
            let c = choose|c: int| 0 <= c < self@.insts.len() && #[trigger] self@.insts[c].contains(before);
            assert(self@.insts[c][self@.insts[c].index_of(before)].0 < self@.inst_slots);
        }
        let block = self.inst_block(before).unwrap();
        proof {
            self.lemma_block_of(inst);
            self.lemma_block_of(before);
        }
        let ghost old_blocks = self.blocks@;
        let ghost old_insts = self.insts@;
        let ghost b = block.0 as int;
        let ghost s = self.contents@[b];
        let ghost j = s.index_of(before);
        proof {
            assert(block_insts_wf(old_blocks, old_insts, s, b));
            assert(inst_link_at(old_insts, s, b, j));
            if j > 0 {
                assert(inst_link_at(old_insts, s, b, j - 1));
            }
            assert(Block(b as u32) == block);
        }
        let after = self.insts[before.0 as usize].prev;
        let mut n = self.insts[inst.0 as usize];
        n.block = Some(block);
        n.next = Some(before);
        n.prev = after;
        self.insts.set(inst.0 as usize, n);
        let mut bn = self.insts[before.0 as usize];
        bn.prev = Some(inst);
        self.insts.set(before.0 as usize, bn);
        match after {
            None => {
                let mut blk = self.blocks[block.0 as usize];
                blk.first_inst = Some(inst);
                self.blocks.set(block.0 as usize, blk);
            },
            Some(a) => {
                let mut an = self.insts[a.0 as usize];
                an.next = Some(inst);
                self.insts.set(a.0 as usize, an);
            },
        }
        proof {
            assert(s.insert(j, inst)[0] == (if j == 0 { inst } else { s[0] }));
            assert(s.insert(j, inst)[s.len() as int] == s[s.len() - 1]);
            assert forall|x: int| 0 <= x < self.blocks@.len() && x != b implies #[trigger] same_inst_ends(
                old_blocks,
                self.blocks@,
                x,
            ) by {}
            Self::lemma_insert_inst(old_blocks, self.blocks@, old_insts, self.insts@, self.contents@, b, j, inst);
            self.contents = Ghost(self.contents@.update(b, s.insert(j, inst)));
            assert forall|i: int| 0 <= i < self.order@.len() implies #[trigger] block_link_at(
                self.blocks@,
                self.order@,
                i,
            ) by {
                assert(block_link_at(old_blocks, self.order@, i));
            }
            assert forall|x: int|
                0 <= x < self.blocks@.len() && !self.order@.contains(Block(x as u32)) implies {
                    &&& (#[trigger] self.blocks@[x]).prev is None
                    &&& self.blocks@[x].next is None
                    &&& self.contents@[x].len() == 0
                } by {
                assert(old_blocks[x].prev is None);
                if x == b {
                    assert(Block(x as u32) == block);
                }
            }
        }
    }

    /// Insert `inst`, which must not be in the layout yet, after the instruction `after`
    /// in the block of `after`.
    pub fn append_inst(&mut self, inst: Inst, after: Inst)
        requires
            old(self).wf(),
            inst.0 < u32::MAX,
            !old(self)@.inst_inserted(inst),
            old(self)@.inst_inserted(after),
        ensures
            final(self).wf(),
            final(self)@.order == old(self)@.order,
            final(self)@.insts == old(self)@.insts.update(
                old(self)@.block_of(after).unwrap().0 as int,
                old(self)@.block_insts(old(self)@.block_of(after).unwrap()).insert(
                    old(self)@.block_insts(old(self)@.block_of(after).unwrap()).index_of(after) + 1,
                    inst,
                ),
            ),
            final(self)@.inst_slots == max_nat(old(self)@.inst_slots, inst.0 as nat + 1),
    {
        self.ensure_inst_slot(inst);
        proof {
            self.lemma_valid();
            let c = choose|c: int| 0 <= c < self@.insts.len() && #[trigger] self@.insts[c].contains(after);
            assert(self@.insts[c][self@.insts[c].index_of(after)].0 < self@.inst_slots);
        }
        let block = self.inst_block(after).unwrap();
        proof {
            self.lemma_block_of(inst);
            self.lemma_block_of(after);
        }
        let ghost old_blocks = self.blocks@;
        let ghost old_insts = self.insts@;
        let ghost b = block.0 as int;
        let ghost s = self.contents@[b];
        let ghost j = s.index_of(after) + 1;
        proof {
            assert(block_insts_wf(old_blocks, old_insts, s, b));
            assert(inst_link_at(old_insts, s, b, j - 1));
            if j < s.len() {
                assert(inst_link_at(old_insts, s, b, j));
            }
            assert(Block(b as u32) == block);
        }
        let before = self.insts[after.0 as usize].next;
        let mut n = self.insts[inst.0 as usize];
        n.block = Some(block);
        n.next = before;
        n.prev = Some(after);
        self.insts.set(inst.0 as usize, n);
        let mut an = self.insts[after.0 as usize];
        an.next = Some(inst);
        self.insts.set(after.0 as usize, an);
        match before {
            None => {
                let mut blk = self.blocks[block.0 as usize];
                blk.last_inst = Some(inst);
                self.blocks.set(block.0 as usize, blk);
            },
            Some(x) => {
                let mut xn = self.insts[x.0 as usize];
                xn.prev = Some(inst);
                self.insts.set(x.0 as usize, xn);
            },
        }
        proof {
            assert(s.insert(j, inst)[0] == s[0]);
            assert(s.insert(j, inst)[s.len() as int] == (if j == s.len() { inst } else { s[s.len() - 1] }));
            assert forall|x: int| 0 <= x < self.blocks@.len() && x != b implies #[trigger] same_inst_ends(
                old_blocks,
                self.blocks@,
                x,
            ) by {}
            Self::lemma_insert_inst(old_blocks, self.blocks@, old_insts, self.insts@, self.contents@, b, j, inst);
            self.contents = Ghost(self.contents@.update(b, s.insert(j, inst)));
            assert forall|i: int| 0 <= i < self.order@.len() implies #[trigger] block_link_at(
                self.blocks@,
                self.order@,
                i,
            ) by {
                assert(block_link_at(old_blocks, self.order@, i));
            }
            assert forall|x: int|
                0 <= x < self.blocks@.len() && !self.order@.contains(Block(x as u32)) implies {
                    &&& (#[trigger] self.blocks@[x]).prev is None
                    &&& self.blocks@[x].next is None
                    &&& self.contents@[x].len() == 0
                } by {
                assert(old_blocks[x].prev is None);
                if x == b {
                    assert(Block(x as u32) == block);
                }
            }
        }
    }
}

impl Layout {
    /// Removing the instruction at position `j` of the list of block `b`, with the
    /// neighbours relinked, keeps all instruction lists well formed.
    proof fn lemma_remove_inst(
        old_blocks: Seq<BlockNode>,
        blocks: Seq<BlockNode>,
        old_insts: Seq<InstNode>,
        insts: Seq<InstNode>,
        contents: Seq<Seq<Inst>>,
        b: int,
        j: int,
        inst: Inst,
    )
        requires
            blocks.len() == old_blocks.len(),
            blocks.len() <= u32::MAX,
            contents.len() == blocks.len(),
            insts.len() == old_insts.len(),
            insts.len() <= u32::MAX,
            0 <= b < blocks.len(),
            0 <= j < contents[b].len(),
            inst == contents[b][j],
            inst_lists_wf(old_blocks, old_insts, contents),
            inst_backlinks(blocks.len() as int, old_insts, contents),
            forall|x: int| 0 <= x < blocks.len() && x != b ==> #[trigger] same_inst_ends(old_blocks, blocks, x),
            blocks[b].first_inst == opt_first(contents[b].remove(j)),
            blocks[b].last_inst == opt_last(contents[b].remove(j)),
            insts[inst.0 as int] == (InstNode { block: None, prev: None, next: None }),
            j > 0 ==> insts[contents[b][j - 1].0 as int] == (InstNode {
                next: opt_next(contents[b], j),
                ..old_insts[contents[b][j - 1].0 as int]
            }),
            j + 1 < contents[b].len() ==> insts[contents[b][j + 1].0 as int] == (InstNode {
                prev: opt_prev(contents[b], j),
                ..old_insts[contents[b][j + 1].0 as int]
            }),
            forall|k: int|
                0 <= k < insts.len() && k != inst.0 && (j > 0 ==> k != contents[b][j - 1].0) && (j + 1
                    < contents[b].len() ==> k != contents[b][j + 1].0) ==> #[trigger] insts[k] == old_insts[k],
        ensures
            inst_lists_wf(blocks, insts, contents.update(b, contents[b].remove(j))),
    {
        let s = contents[b];
        let ns = s.remove(j);
        let nc = contents.update(b, ns);
        assert(block_insts_wf(old_blocks, old_insts, s, b));
        assert forall|c: int| 0 <= c < blocks.len() implies #[trigger] block_insts_wf(blocks, insts, nc[c], c) by {
            assert(block_insts_wf(old_blocks, old_insts, contents[c], c));
            if c != b {
                assert(same_inst_ends(old_blocks, blocks, c));
                assert forall|q: int| 0 <= q < nc[c].len() implies #[trigger] inst_link_at(insts, nc[c], c, q) by {
                    assert(inst_link_at(old_insts, contents[c], c, q));
                    let k = contents[c][q].0 as int;
                    assert(old_insts[k].block == Some(Block(c as u32)));
                    assert(Block(c as u32) != Block(b as u32));
                    assert(inst_link_at(old_insts, s, b, j));
                    if j > 0 {
                        assert(inst_link_at(old_insts, s, b, j - 1));
                    }
                    if j + 1 < s.len() {
                        assert(inst_link_at(old_insts, s, b, j + 1));
                    }
                    assert(insts[k] == old_insts[k]);
                }
            } else {
                assert(ns.no_duplicates()) by {
                    assert forall|x: int, y: int| 0 <= x < y < ns.len() implies ns[x] != ns[y] by {
                        if x < j {
                            if y >= j {
                                assert(ns[y] == s[y + 1]);
                            }
                        } else {
                            assert(ns[x] == s[x + 1]);
                            assert(ns[y] == s[y + 1]);
                        }
                    }
                }
                assert forall|q: int| 0 <= q < ns.len() implies (#[trigger] ns[q]).0 < insts.len() by {
                    if q >= j {
                        assert(ns[q] == s[q + 1]);
                    }
                }
                assert forall|q: int| 0 <= q < ns.len() implies #[trigger] inst_link_at(insts, ns, b, q) by {
                    if q < j {
                        assert(ns[q] == s[q]);
                        assert(inst_link_at(old_insts, s, b, q));
                        assert(s[q] != inst);
                        if q < j - 1 {
                            assert(s[q] != s[j - 1]);
                            if j + 1 < s.len() {
                                assert(s[q] != s[j + 1]);
                            }
                        }
                    } else {
                        assert(ns[q] == s[q + 1]);
                        assert(inst_link_at(old_insts, s, b, q + 1));
                        assert(s[q + 1] != inst);
                        if q > j {
                            assert(s[q + 1] != s[j + 1]);
                            if j > 0 {
                                assert(s[q + 1] != s[j - 1]);
                            }
                        }
                    }
                }
            }
        }
    }

    /// The back links after removing an instruction.
    proof fn lemma_remove_inst_backlinks(
        old_blocks: Seq<BlockNode>,
        blocks: Seq<BlockNode>,
        old_insts: Seq<InstNode>,
        insts: Seq<InstNode>,
        contents: Seq<Seq<Inst>>,
        b: int,
        j: int,
        inst: Inst,
    )
        requires
            blocks.len() == old_blocks.len(),
            blocks.len() <= u32::MAX,
            contents.len() == blocks.len(),
            insts.len() == old_insts.len(),
            insts.len() <= u32::MAX,
            0 <= b < blocks.len(),
            0 <= j < contents[b].len(),
            inst == contents[b][j],
            inst_lists_wf(old_blocks, old_insts, contents),
            inst_backlinks(blocks.len() as int, old_insts, contents),
            forall|x: int| 0 <= x < blocks.len() && x != b ==> #[trigger] same_inst_ends(old_blocks, blocks, x),
            blocks[b].first_inst == opt_first(contents[b].remove(j)),
            blocks[b].last_inst == opt_last(contents[b].remove(j)),
            insts[inst.0 as int] == (InstNode { block: None, prev: None, next: None }),
            j > 0 ==> insts[contents[b][j - 1].0 as int] == (InstNode {
                next: opt_next(contents[b], j),
                ..old_insts[contents[b][j - 1].0 as int]
            }),
            j + 1 < contents[b].len() ==> insts[contents[b][j + 1].0 as int] == (InstNode {
                prev: opt_prev(contents[b], j),
                ..old_insts[contents[b][j + 1].0 as int]
            }),
            forall|k: int|
                0 <= k < insts.len() && k != inst.0 && (j > 0 ==> k != contents[b][j - 1].0) && (j + 1
                    < contents[b].len() ==> k != contents[b][j + 1].0) ==> #[trigger] insts[k] == old_insts[k],
        ensures
            inst_backlinks(blocks.len() as int, insts, contents.update(b, contents[b].remove(j))),
    {
        let s = contents[b];
        let ns = s.remove(j);
        let nc = contents.update(b, ns);
        assert(block_insts_wf(old_blocks, old_insts, s, b));
        assert forall|k: int| 0 <= k < insts.len() implies match (#[trigger] insts[k]).block {
            None => insts[k].prev is None && insts[k].next is None,
            Some(c) => c.0 < blocks.len() && nc[c.0 as int].contains(Inst(k as u32)),
        } by {
            assert(Inst(k as u32).0 as int == k);
            if k != inst.0 {
                if j > 0 && k == s[j - 1].0 {
                    assert(inst_link_at(old_insts, s, b, j - 1));
                    assert(insts[k].block == old_insts[k].block);
                } else if j + 1 < s.len() && k == s[j + 1].0 {
                    assert(inst_link_at(old_insts, s, b, j + 1));
                    assert(insts[k].block == old_insts[k].block);
                } else {
                    assert(insts[k] == old_insts[k]);
                }
                assert(insts[k].block == old_insts[k].block);
                match old_insts[k].block {
                    None => {
                        assert(insts[k].prev is None && insts[k].next is None);
                    },
                    Some(c) => {
                        if c.0 as int == b {
                            let q = s.index_of(Inst(k as u32));
                            assert(q != j);
                            if q < j {
                                assert(ns[q] == s[q]);
                            } else {
                                assert(ns[q - 1] == s[q]);
                            }
                            assert(nc[c.0 as int].contains(Inst(k as u32)));
                        } else {
                            assert(nc[c.0 as int] == contents[c.0 as int]);
                        }
                    },
                }
            }
        }
    }

    /// Remove `inst`, which must be in the layout, from the layout.
    pub fn remove_inst(&mut self, inst: Inst)
        requires
            old(self).wf(),
            old(self)@.inst_inserted(inst),
        ensures
            final(self).wf(),
            final(self)@.order == old(self)@.order,
            final(self)@.insts == old(self)@.insts.update(
                old(self)@.block_of(inst).unwrap().0 as int,
                old(self)@.block_insts(old(self)@.block_of(inst).unwrap()).remove(
                    old(self)@.block_insts(old(self)@.block_of(inst).unwrap()).index_of(inst),
                ),
            ),
            final(self)@.inst_slots == old(self)@.inst_slots,
    {
        proof {
            self.lemma_valid();
            let c = choose|c: int| 0 <= c < self@.insts.len() && #[trigger] self@.insts[c].contains(inst);
            assert(self@.insts[c][self@.insts[c].index_of(inst)].0 < self@.inst_slots);
        }
        let block = self.inst_block(inst).unwrap();
        proof {
            self.lemma_block_of(inst);
        }
        let ghost old_blocks = self.blocks@;
        let ghost old_insts = self.insts@;
        let ghost b = block.0 as int;
        let ghost s = self.contents@[b];
        let ghost j = s.index_of(inst);
        proof {
            assert(block_insts_wf(old_blocks, old_insts, s, b));
            assert(inst_link_at(old_insts, s, b, j));
            if j > 0 {
                assert(inst_link_at(old_insts, s, b, j - 1));
            }
            if j + 1 < s.len() {
                assert(inst_link_at(old_insts, s, b, j + 1));
            }
            assert(Block(b as u32) == block);
        }
        let n = self.insts[inst.0 as usize];
        let prev = n.prev;
        let next = n.next;
        self.insts.set(inst.0 as usize, InstNode { block: None, prev: None, next: None });
        match prev {
            None => {
                let mut blk = self.blocks[block.0 as usize];
                blk.first_inst = next;
                self.blocks.set(block.0 as usize, blk);
            },
            Some(p) => {
                let mut pn = self.insts[p.0 as usize];
                pn.next = next;
                self.insts.set(p.0 as usize, pn);
            },
        }
        match next {
            None => {
                let mut blk = self.blocks[block.0 as usize];
                blk.last_inst = prev;
                self.blocks.set(block.0 as usize, blk);
            },
            Some(x) => {
                let mut xn = self.insts[x.0 as usize];
                xn.prev = prev;
                self.insts.set(x.0 as usize, xn);
            },
        }
        proof {
            let ns = s.remove(j);
            if ns.len() > 0 {
                if j == 0 {
                    assert(ns[0] == s[1]);
                } else {
                    assert(ns[0] == s[0]);
                }
                if j + 1 == s.len() {
                    assert(ns[ns.len() - 1] == s[s.len() - 2]);
                } else {
                    assert(ns[ns.len() - 1] == s[s.len() - 1]);
                }
            }
            assert forall|x: int| 0 <= x < self.blocks@.len() && x != b implies #[trigger] same_inst_ends(
                old_blocks,
                self.blocks@,
                x,
            ) by {}
            Self::lemma_remove_inst(old_blocks, self.blocks@, old_insts, self.insts@, self.contents@, b, j, inst);
            Self::lemma_remove_inst_backlinks(old_blocks, self.blocks@, old_insts, self.insts@, self.contents@, b, j, inst);
            self.contents = Ghost(self.contents@.update(b, ns));
            assert forall|i: int| 0 <= i < self.order@.len() implies #[trigger] block_link_at(
                self.blocks@,
                self.order@,
                i,
            ) by {
                assert(block_link_at(old_blocks, self.order@, i));
            }
            assert forall|x: int|
                0 <= x < self.blocks@.len() && !self.order@.contains(Block(x as u32)) implies {
                    &&& (#[trigger] self.blocks@[x]).prev is None
                    &&& self.blocks@[x].next is None
                    &&& self.contents@[x].len() == 0
                } by {
                assert(old_blocks[x].prev is None);
                if x == b {
                    assert(Block(x as u32) == block);
                }
            }
        }
    }
}

impl Layout {
    /// Remove all instructions from `block`; the block stays where it is.
    pub fn clear_block(&mut self, block: Block)
        requires
            old(self).wf(),
            old(self)@.has_block(block),
        ensures
            final(self).wf(),
            final(self)@.order == old(self)@.order,
            final(self)@.insts == old(self)@.insts.update(block.0 as int, Seq::<Inst>::empty()),
            final(self)@.inst_slots == old(self)@.inst_slots,
    {
        let ghost old_insts = self.insts@;
        let ghost b = block.0 as int;
        let ghost s = self.contents@[b];
        proof {
            assert(block_insts_wf(self.blocks@, old_insts, s, b));
            assert(Block(b as u32) == block);
        }
        let mut curr = self.blocks[block.0 as usize].first_inst;
        let ghost mut i: int = 0;
        while curr.is_some()
            invariant
                old(self).wf(),
                self.blocks@ == old(self).blocks@,
                self.contents@ == old(self).contents@,
                self.order@ == old(self).order@,
                self.first_block == old(self).first_block,
                self.last_block == old(self).last_block,
                old_insts == old(self).insts@,
                0 <= b < self.contents@.len(),
                s == self.contents@[b],
                block_insts_wf(self.blocks@, old_insts, s, b),
                self.insts@.len() == old_insts.len(),
                0 <= i <= s.len(),
                curr == (if i < s.len() { Some(s[i]) } else { None::<Inst> }),
                forall|q: int| 0 <= q < i ==> self.insts@[(#[trigger] s[q]).0 as int] == (InstNode { block: None, prev: None, next: None }),
                forall|k: int|
                    0 <= k < self.insts@.len() && !s.subrange(0, i).contains(Inst(k as u32)) ==> #[trigger] self.insts@[k]
                        == old_insts[k],
            decreases s.len() - i,
        {
            let inst = curr.unwrap();
            proof {
                assert(inst_link_at(old_insts, s, b, i));
                assert(!s.subrange(0, i).contains(inst));
                assert(Inst(inst.0 as int as u32) == inst);
            }
            let n = self.insts[inst.0 as usize];
            curr = n.next;
            self.insts.set(inst.0 as usize, InstNode { block: None, prev: None, next: None });
            proof {
                i = i + 1;
                assert forall|k: int|
                    0 <= k < self.insts@.len() && !s.subrange(0, i).contains(Inst(k as u32)) implies #[trigger] self.insts@[k]
                        == old_insts[k] by {
                    assert(s.subrange(0, i)[i - 1] == inst);
                    if s.subrange(0, i - 1).contains(Inst(k as u32)) {
                        let q = s.subrange(0, i - 1).index_of(Inst(k as u32));
                        assert(s.subrange(0, i)[q] == Inst(k as u32));
                    }
                    assert(Inst(k as u32).0 as int == k);
                }
                assert forall|q: int| 0 <= q < i implies self.insts@[(#[trigger] s[q]).0 as int] == (InstNode { block: None, prev: None, next: None }) by {
                    if q < i - 1 {
                        assert(s[q] != inst);
                    }
                }
            }
        }
        let mut bn = self.blocks[block.0 as usize];
        bn.first_inst = None;
        bn.last_inst = None;
        self.blocks.set(block.0 as usize, bn);
        proof {
            let ghost old_blocks = old(self).blocks@;
            let blocks = self.blocks@;
            let insts = self.insts@;
            assert(i == s.len());
            assert(s.subrange(0, i) =~= s);
            self.contents = Ghost(self.contents@.update(b, Seq::empty()));
            let nc = self.contents@;
            assert forall|i2: int| 0 <= i2 < self.order@.len() implies #[trigger] block_link_at(
                blocks,
                self.order@,
                i2,
            ) by {
                assert(block_link_at(old_blocks, self.order@, i2));
            }
            assert forall|x: int|
                0 <= x < blocks.len() && !self.order@.contains(Block(x as u32)) implies {
                    &&& (#[trigger] blocks[x]).prev is None
                    &&& blocks[x].next is None
                    &&& nc[x].len() == 0
                } by {
                assert(old_blocks[x].prev is None);
            }
            assert forall|c: int| 0 <= c < blocks.len() implies #[trigger] block_insts_wf(blocks, insts, nc[c], c) by {
                if c != b {
                    let sc = old(self).contents@[c];
                    assert(block_insts_wf(old_blocks, old_insts, sc, c));
                    assert forall|q: int| 0 <= q < sc.len() implies #[trigger] inst_link_at(insts, sc, c, q) by {
                        assert(inst_link_at(old_insts, sc, c, q));
                        let k = sc[q].0 as int;
                        if s.contains(Inst(k as u32)) {
                            let q2 = s.index_of(Inst(k as u32));
                            assert(inst_link_at(old_insts, s, b, q2));
                            assert(Inst(k as u32) == sc[q]);
                            assert(false);
                        }
                        assert(insts[k] == old_insts[k]);
                    }
                } else {
                    assert(nc[c] =~= Seq::<Inst>::empty());
                }
            }
            assert forall|k: int| 0 <= k < insts.len() implies match (#[trigger] insts[k]).block {
                None => insts[k].prev is None && insts[k].next is None,
                Some(c) => c.0 < blocks.len() && nc[c.0 as int].contains(Inst(k as u32)),
            } by {
                if s.contains(Inst(k as u32)) {
                    let q = s.index_of(Inst(k as u32));
                    assert(Inst(k as u32).0 as int == k);
                    assert(insts[s[q].0 as int] == (InstNode { block: None, prev: None, next: None }));
                } else {
                    assert(insts[k] == old_insts[k]);
                    match old_insts[k].block {
                        None => {},
                        Some(c) => {
                            if c.0 as int == b {
                                assert(old(self).contents@[b].contains(Inst(k as u32)));
                                assert(false);
                            }
                        },
                    }
                }
            }
        }
    }

    /// Remove all instructions of `block` and remove it from the layout.
    pub fn clear_and_remove_block(&mut self, block: Block)
        requires
            old(self).wf(),
            old(self)@.has_block(block),
            old(self)@.is_inserted(block),
        ensures
            final(self).wf(),
            final(self)@.order == old(self)@.order.remove(old(self)@.order.index_of(block)),
            final(self)@.insts == old(self)@.insts.update(block.0 as int, Seq::<Inst>::empty()),
            final(self)@.inst_slots == old(self)@.inst_slots,
    {
        self.clear_block(block);
        self.remove_empty_block(block);
    }
}

impl Layout {
    /// Split the block holding `before` in two: `new_block`, which must not be in the layout,
    /// is inserted after it and receives `before` and all instructions following it.
    pub fn split_block(&mut self, new_block: Block, before: Inst)
        requires
            old(self).wf(),
            old(self)@.inst_inserted(before),
            old(self)@.has_block(new_block),
            !old(self)@.is_inserted(new_block),
        ensures
            final(self).wf(),
            ({
                let ob = old(self)@.block_of(before).unwrap();
                let s = old(self)@.block_insts(ob);
                let j = s.index_of(before);
                &&& final(self)@.order == old(self)@.order.insert(old(self)@.order.index_of(ob) + 1, new_block)
                &&& final(self)@.insts == old(self)@.insts.update(ob.0 as int, s.take(j)).update(
                    new_block.0 as int,
                    s.skip(j),
                )
            }),
            final(self)@.inst_slots == old(self)@.inst_slots,
    {
        proof {
            self.lemma_valid();
            let c = choose|c: int| 0 <= c < self@.insts.len() && #[trigger] self@.insts[c].contains(before);
            assert(self@.insts[c][self@.insts[c].index_of(before)].0 < self@.inst_slots);
        }
        let old_block = self.inst_block(before).unwrap();
        proof {
            self.lemma_block_of(before);
        }
        let ghost old_blocks = self.blocks@;
        let ghost old_insts = self.insts@;
        let ghost old_order = self.order@;
        let ghost ob = old_block.0 as int;
        let ghost nb = new_block.0 as int;
        let ghost s = self.contents@[ob];
        let ghost j = s.index_of(before);
        let ghost k = old_order.index_of(old_block) + 1;
        proof {
            assert(block_insts_wf(old_blocks, old_insts, s, ob));
            assert(block_insts_wf(old_blocks, old_insts, self.contents@[nb], nb));
            assert(inst_link_at(old_insts, s, ob, j));
            if j > 0 {
                assert(inst_link_at(old_insts, s, ob, j - 1));
            }
            assert(Block(ob as u32) == old_block);
            assert(Block(nb as u32) == new_block);
            assert(old_order.contains(old_block));
            assert(block_link_at(old_blocks, old_order, k - 1));
            if k < old_order.len() {
                assert(block_link_at(old_blocks, old_order, k));
            }
            assert(new_block != old_block);
            assert(self.contents@[nb].len() == 0);
        }
        // Insert new_block after old_block.
        let next_block = self.blocks[old_block.0 as usize].next;
        let last_inst = self.blocks[old_block.0 as usize].last_inst;
        self.blocks.set(
            new_block.0 as usize,
            BlockNode { prev: Some(old_block), next: next_block, first_inst: Some(before), last_inst },
        );
        let mut on = self.blocks[old_block.0 as usize];
        on.next = Some(new_block);
        self.blocks.set(old_block.0 as usize, on);
        let is_last = match self.last_block {
            Some(l) => l.0 == old_block.0,
            None => false,
        };
        if is_last {
            self.last_block = Some(new_block);
        } else {
            let nx = next_block.unwrap();
            let mut nn = self.blocks[nx.0 as usize];
            nn.prev = Some(new_block);
            self.blocks.set(nx.0 as usize, nn);
        }
        // Disconnect the instruction links.
        let prev_inst = self.insts[before.0 as usize].prev;
        let mut bn = self.insts[before.0 as usize];
        bn.prev = None;
        self.insts.set(before.0 as usize, bn);
        let mut on2 = self.blocks[old_block.0 as usize];
        on2.last_inst = prev_inst;
        match prev_inst {
            None => {
                on2.first_inst = None;
            },
            Some(pi) => {
                let mut pn = self.insts[pi.0 as usize];
                pn.next = None;
                self.insts.set(pi.0 as usize, pn);
            },
        }
        self.blocks.set(old_block.0 as usize, on2);
        let ghost mid = self.insts@;
        let ghost mid_blocks = self.blocks@;
        proof {
            assert forall|q: int| 0 <= q < s.len() && q != j && q != j - 1 implies #[trigger] mid[s[q].0 as int]
                == old_insts[s[q].0 as int] by {
                assert(s[q] != before);
                if j > 0 {
                    assert(s[q] != s[j - 1]);
                }
            }
            assert(mid[before.0 as int] == (InstNode { prev: None, ..old_insts[before.0 as int] }));
            if j > 0 {
                assert(s[j - 1] != before);
                assert(mid[s[j - 1].0 as int] == (InstNode { next: None, ..old_insts[s[j - 1].0 as int] }));
            }
            assert forall|x: int| 0 <= x < mid.len() && !s.contains(Inst(x as u32)) implies #[trigger] mid[x]
                == old_insts[x] by {
                assert(Inst(x as u32).0 as int == x);
                assert(Inst(x as u32) != before);
                if j > 0 {
                    assert(Inst(x as u32) != s[j - 1]);
                }
            }
            assert forall|q: int| j <= q < s.len() implies #[trigger] mid[s[q].0 as int].next == opt_next(s, q) by {
                assert(inst_link_at(old_insts, s, ob, q));
            }
            if let Some(y) = next_block {
                assert(old_order[k] == y);
                assert(y != new_block);
                assert(y != old_block);
            }
            assert forall|x: int|
                0 <= x < mid_blocks.len() && x != ob && x != nb && (next_block matches Some(y) ==> x != y.0)
                    implies #[trigger] mid_blocks[x] == old_blocks[x] by {}
        }
        // Fix the instruction -> block pointers.
        let mut opt_i = Some(before);
        let ghost mut i: int = j;
        while opt_i.is_some()
            invariant
                self.blocks@ == mid_blocks,
                self.order@ == old_order,
                self.contents@ == old(self).contents@,
                self.first_block == old(self).first_block,
                self.last_block == (if next_block is None { Some(new_block) } else { old(self).last_block }),
                mid.len() <= u32::MAX,
                j <= i <= s.len(),
                0 <= j < s.len(),
                s.no_duplicates(),
                forall|q: int| 0 <= q < s.len() ==> (#[trigger] s[q]).0 < mid.len(),
                opt_i == (if i < s.len() { Some(s[i]) } else { None::<Inst> }),
                forall|q: int| j <= q < s.len() ==> #[trigger] mid[s[q].0 as int].next == opt_next(s, q),
                self.insts@.len() == mid.len(),
                forall|q: int|
                    j <= q < i ==> #[trigger] self.insts@[s[q].0 as int] == (InstNode {
                        block: Some(new_block),
                        ..mid[s[q].0 as int]
                    }),
                forall|x: int|
                    0 <= x < mid.len() && !s.subrange(j, i).contains(Inst(x as u32)) ==> #[trigger] self.insts@[x]
                        == mid[x],
            decreases s.len() - i,
        {
            let ii = opt_i.unwrap();
            proof {
                assert(!s.subrange(j, i).contains(ii)) by {
                    if s.subrange(j, i).contains(ii) {
                        let q = s.subrange(j, i).index_of(ii);
                        assert(s[j + q] == s[i]);
                    }
                }
                assert(Inst(ii.0 as int as u32) == ii);
            }
            let mut n = self.insts[ii.0 as usize];
            n.block = Some(new_block);
            self.insts.set(ii.0 as usize, n);
            opt_i = n.next;
            proof {
                i = i + 1;
                assert forall|q: int| j <= q < i implies #[trigger] self.insts@[s[q].0 as int] == (InstNode {
                    block: Some(new_block),
                    ..mid[s[q].0 as int]
                }) by {
                    if q < i - 1 {
                        assert(s[q] != ii);
                    }
                }
                assert forall|x: int|
                    0 <= x < mid.len() && !s.subrange(j, i).contains(Inst(x as u32)) implies #[trigger] self.insts@[x]
                        == mid[x] by {
                    assert(s.subrange(j, i)[i - 1 - j] == ii);
                    if s.subrange(j, i - 1).contains(Inst(x as u32)) {
                        let q = s.subrange(j, i - 1).index_of(Inst(x as u32));
                        assert(s.subrange(j, i)[q] == Inst(x as u32));
                    }
                    assert(Inst(x as u32).0 as int == x);
                }
            }
        }
        proof {
            self.order = Ghost(old_order.insert(k, new_block));
            self.contents = Ghost(old(self).contents@.update(ob, s.take(j)).update(nb, s.skip(j)));
            assert forall|x: int|
                0 <= x < mid.len() && !s.subrange(j, s.len() as int).contains(Inst(x as u32)) implies #[trigger] self.insts@[x]
                    == mid[x] by {
                assert(i == s.len());
            }
            self.lemma_split_finish(*old(self), mid, old_block, new_block, before, next_block);
        }
    }
}

impl Layout {
    /// The final step of `split_block`: the relinked tables are well formed.
    proof fn lemma_split_finish(
        &self,
        old: Layout,
        mid: Seq<InstNode>,
        old_block: Block,
        new_block: Block,
        before: Inst,
        next_block: Option<Block>,
    )
        requires
            old.wf(),
            old@.inst_inserted(before),
            old@.has_block(new_block),
            !old@.is_inserted(new_block),
            old@.block_of(before) == Some(old_block),
            old.insts@[before.0 as int].block == Some(old_block),
            old_block.0 < old@.num_blocks(),
            ({
                let ob = old_block.0 as int;
                let nb = new_block.0 as int;
                let s = old.contents@[ob];
                let j = s.index_of(before);
                let k = old.order@.index_of(old_block) + 1;
                &&& s.contains(before)
                &&& self.order@ == old.order@.insert(k, new_block)
                &&& self.contents@ == old.contents@.update(ob, s.take(j)).update(nb, s.skip(j))
                &&& self.blocks@.len() == old.blocks@.len()
                &&& self.insts@.len() == old.insts@.len()
                &&& mid.len() == old.insts@.len()
                &&& next_block == old.blocks@[ob].next
                &&& self.blocks@[nb] == (BlockNode {
                    prev: Some(old_block),
                    next: next_block,
                    first_inst: Some(before),
                    last_inst: old.blocks@[ob].last_inst,
                })
                &&& self.blocks@[ob] == (BlockNode {
                    next: Some(new_block),
                    first_inst: if j == 0 { None } else { old.blocks@[ob].first_inst },
                    last_inst: opt_prev(s, j),
                    ..old.blocks@[ob]
                })
                &&& (next_block matches Some(x) ==> self.blocks@[x.0 as int] == (BlockNode {
                    prev: Some(new_block),
                    ..old.blocks@[x.0 as int]
                }))
                &&& (forall|x: int|
                    0 <= x < self.blocks@.len() && x != ob && x != nb && (next_block matches Some(y)
                        ==> x != y.0) ==> #[trigger] self.blocks@[x] == old.blocks@[x])
                &&& self.first_block == old.first_block
                &&& self.last_block == (if next_block is None { Some(new_block) } else { old.last_block })
                &&& (forall|q: int|
                    j <= q < s.len() ==> #[trigger] self.insts@[s[q].0 as int] == (InstNode {
                        block: Some(new_block),
                        ..mid[s[q].0 as int]
                    }))
                &&& (forall|x: int|
                    0 <= x < mid.len() && !s.subrange(j, s.len() as int).contains(Inst(x as u32))
                        ==> #[trigger] self.insts@[x] == mid[x])
                &&& mid[before.0 as int] == (InstNode { prev: None, ..old.insts@[before.0 as int] })
                &&& (j > 0 ==> mid[s[j - 1].0 as int] == (InstNode {
                    next: None,
                    ..old.insts@[s[j - 1].0 as int]
                }))
                &&& (forall|q: int|
                    0 <= q < s.len() && q != j && q != j - 1 ==> #[trigger] mid[s[q].0 as int]
                        == old.insts@[s[q].0 as int])
                &&& (forall|x: int|
                    0 <= x < mid.len() && !s.contains(Inst(x as u32)) ==> #[trigger] mid[x] == old.insts@[x])
            }),
        ensures
            self.wf(),
    {
        let ob = old_block.0 as int;
        let nb = new_block.0 as int;
        let s = old.contents@[ob];
        let j = s.index_of(before);
        let k = old.order@.index_of(old_block) + 1;
        let old_order = old.order@;
        let old_blocks = old.blocks@;
        let old_insts = old.insts@;
        let blocks = self.blocks@;
        let insts = self.insts@;
        let order = self.order@;
        let contents = self.contents@;
        old.lemma_valid();
        assert(block_insts_wf(old_blocks, old_insts, s, ob));
        assert(Block(ob as u32) == old_block);
        assert(Block(nb as u32) == new_block);
        assert(old_order[k - 1] == old_block);
        assert(block_link_at(old_blocks, old_order, k - 1));
        if k < old_order.len() {
            assert(block_link_at(old_blocks, old_order, k));
        }
        assert(ob != nb) by {
            assert(old_order.contains(old_block));
        }
        // Block order.
        assert forall|i: int|
            0 <= i < old_order.len() && i != k - 1 && i != k implies #[trigger] same_block_links(
            old_blocks,
            blocks,
            old_order[i],
        ) by {
            assert(old_order[i] != old_block);
            if k < old_order.len() {
                assert(old_order[i] != old_order[k]);
            }
            assert(old_order[i] != new_block);
        }
        Self::lemma_insert_order(old_blocks, blocks, old_order, k, new_block);
        assert forall|i: int| 0 <= i < order.len() implies (#[trigger] order[i]).0 < blocks.len() by {
            if i < k {
                assert(order[i] == old_order[i]);
            } else if i > k {
                assert(order[i] == old_order[i - 1]);
            }
        }
        assert(self.first_block == opt_first(order)) by {
            assert(order[0] == old_order[0]);
        }
        assert(self.last_block == opt_last(order)) by {
            if k < old_order.len() {
                assert(order[order.len() - 1] == old_order[old_order.len() - 1]);
            }
        }
        // Blocks outside the order.
        assert forall|x: int|
            0 <= x < blocks.len() && !order.contains(Block(x as u32)) implies {
                &&& (#[trigger] blocks[x]).prev is None
                &&& blocks[x].next is None
                &&& contents[x].len() == 0
            } by {
            assert(Block(x as u32).0 as int == x);
            if old_order.contains(Block(x as u32)) {
                let q = old_order.index_of(Block(x as u32));
                if q < k {
                    assert(order[q] == old_order[q]);
                } else {
                    assert(order[q + 1] == old_order[q]);
                }
            }
            assert(x != nb) by {
                assert(order[k] == new_block);
            }
            assert(x != ob);
            if let Some(y) = next_block {
                assert(old_order[k] == y);
                assert(x != y.0);
            }
            assert(blocks[x] == old_blocks[x]);
        }
        // Instruction lists.
        assert forall|c: int| 0 <= c < blocks.len() implies #[trigger] block_insts_wf(blocks, insts, contents[c], c) by {
            self.lemma_split_list(old, mid, old_block, new_block, before, next_block, c);
        }
        // Back links.
        assert forall|x: int| 0 <= x < insts.len() implies match (#[trigger] insts[x]).block {
            None => insts[x].prev is None && insts[x].next is None,
            Some(c) => c.0 < blocks.len() && contents[c.0 as int].contains(Inst(x as u32)),
        } by {
            assert(Inst(x as u32).0 as int == x);
            if s.contains(Inst(x as u32)) {
                let q = s.index_of(Inst(x as u32));
                if q >= j {
                    assert(s.skip(j)[q - j] == s[q]);
                    assert(s.subrange(j, s.len() as int)[q - j] == s[q]);
                } else {
                    assert(s.take(j)[q] == s[q]);
                    assert(!s.subrange(j, s.len() as int).contains(Inst(x as u32))) by {
                        if s.subrange(j, s.len() as int).contains(Inst(x as u32)) {
                            let r = s.subrange(j, s.len() as int).index_of(Inst(x as u32));
                            assert(s[j + r] == s[q]);
                        }
                    }
                    assert(inst_link_at(old_insts, s, ob, q));
                }
            } else {
                assert(!s.subrange(j, s.len() as int).contains(Inst(x as u32))) by {
                    if s.subrange(j, s.len() as int).contains(Inst(x as u32)) {
                        let r = s.subrange(j, s.len() as int).index_of(Inst(x as u32));
                        assert(s.contains(s[j + r]));
                    }
                }
                assert(insts[x] == old_insts[x]);
                match old_insts[x].block {
                    None => {},
                    Some(c) => {
                        assert(old.contents@[c.0 as int].contains(Inst(x as u32)));
                        assert(c.0 as int != ob);
                        if c.0 as int == nb {
                            assert(old.contents@[nb].len() == 0);
                        }
                        assert(contents[c.0 as int] == old.contents@[c.0 as int]);
                    },
                }
            }
        }
    }
}

impl Layout {
    /// After `split_block`, the instruction list of block `c` is well formed.
    proof fn lemma_split_list(
        &self,
        old: Layout,
        mid: Seq<InstNode>,
        old_block: Block,
        new_block: Block,
        before: Inst,
        next_block: Option<Block>,
        c: int,
    )
        requires
            0 <= c < self.blocks@.len(),
            old.wf(),
            old@.inst_inserted(before),
            old@.has_block(new_block),
            !old@.is_inserted(new_block),
            old@.block_of(before) == Some(old_block),
            old.insts@[before.0 as int].block == Some(old_block),
            old_block.0 < old@.num_blocks(),
            ({
                let ob = old_block.0 as int;
                let nb = new_block.0 as int;
                let s = old.contents@[ob];
                let j = s.index_of(before);
                let k = old.order@.index_of(old_block) + 1;
                &&& s.contains(before)
                &&& self.order@ == old.order@.insert(k, new_block)
                &&& self.contents@ == old.contents@.update(ob, s.take(j)).update(nb, s.skip(j))
                &&& self.blocks@.len() == old.blocks@.len()
                &&& self.insts@.len() == old.insts@.len()
                &&& mid.len() == old.insts@.len()
                &&& next_block == old.blocks@[ob].next
                &&& self.blocks@[nb] == (BlockNode {
                    prev: Some(old_block),
                    next: next_block,
                    first_inst: Some(before),
                    last_inst: old.blocks@[ob].last_inst,
                })
                &&& self.blocks@[ob] == (BlockNode {
                    next: Some(new_block),
                    first_inst: if j == 0 { None } else { old.blocks@[ob].first_inst },
                    last_inst: opt_prev(s, j),
                    ..old.blocks@[ob]
                })
                &&& (next_block matches Some(x) ==> self.blocks@[x.0 as int] == (BlockNode {
                    prev: Some(new_block),
                    ..old.blocks@[x.0 as int]
                }))
                &&& (forall|x: int|
                    0 <= x < self.blocks@.len() && x != ob && x != nb && (next_block matches Some(y)
                        ==> x != y.0) ==> #[trigger] self.blocks@[x] == old.blocks@[x])
                &&& self.first_block == old.first_block
                &&& self.last_block == (if next_block is None { Some(new_block) } else { old.last_block })
                &&& (forall|q: int|
                    j <= q < s.len() ==> #[trigger] self.insts@[s[q].0 as int] == (InstNode {
                        block: Some(new_block),
                        ..mid[s[q].0 as int]
                    }))
                &&& (forall|x: int|
                    0 <= x < mid.len() && !s.subrange(j, s.len() as int).contains(Inst(x as u32))
                        ==> #[trigger] self.insts@[x] == mid[x])
                &&& mid[before.0 as int] == (InstNode { prev: None, ..old.insts@[before.0 as int] })
                &&& (j > 0 ==> mid[s[j - 1].0 as int] == (InstNode {
                    next: None,
                    ..old.insts@[s[j - 1].0 as int]
                }))
                &&& (forall|q: int|
                    0 <= q < s.len() && q != j && q != j - 1 ==> #[trigger] mid[s[q].0 as int]
                        == old.insts@[s[q].0 as int])
                &&& (forall|x: int|
                    0 <= x < mid.len() && !s.contains(Inst(x as u32)) ==> #[trigger] mid[x] == old.insts@[x])
            }),
        ensures
            block_insts_wf(self.blocks@, self.insts@, self.contents@[c], c),
    {
        let ob = old_block.0 as int;
        let nb = new_block.0 as int;
        let s = old.contents@[ob];
        let j = s.index_of(before);
        let old_blocks = old.blocks@;
        let old_insts = old.insts@;
        let blocks = self.blocks@;
        let insts = self.insts@;
        let contents = self.contents@;
        old.lemma_valid();
        assert(block_insts_wf(old_blocks, old_insts, s, ob));
        assert(block_insts_wf(old_blocks, old_insts, old.contents@[c], c));
        assert(ob != nb) by {
            assert(old.order@.contains(old_block));
        }
        assert(Block(ob as u32) == old_block);
        assert(Block(nb as u32) == new_block);
        let sub = s.subrange(j, s.len() as int);
        if c == ob {
            let t = s.take(j);
            assert(contents[c] == t);
            assert forall|q: int| 0 <= q < t.len() implies #[trigger] inst_link_at(insts, t, c, q) by {
                assert(t[q] == s[q]);
                assert(inst_link_at(old_insts, s, ob, q));
                assert(!sub.contains(s[q])) by {
                    if sub.contains(s[q]) {
                        let r = sub.index_of(s[q]);
                        assert(s[j + r] == s[q]);
                    }
                }
                assert(Inst(s[q].0 as int as u32) == s[q]);
                assert(insts[s[q].0 as int] == mid[s[q].0 as int]);
                if q + 1 < j {
                    assert(t[q + 1] == s[q + 1]);
                }
                if q > 0 {
                    assert(t[q - 1] == s[q - 1]);
                }
            }
            assert(t.no_duplicates());
            if j > 0 {
                assert(t[0] == s[0]);
                assert(t[t.len() - 1] == s[j - 1]);
            }
        } else if c == nb {
            let t = s.skip(j);
            assert(contents[c] == t);
            assert(t.no_duplicates());
            assert(t[0] == before);
            assert(t[t.len() - 1] == s[s.len() - 1]);
            assert forall|q: int| 0 <= q < t.len() implies (#[trigger] t[q]).0 < insts.len() by {
                assert(t[q] == s[j + q]);
            }
            assert forall|q: int| 0 <= q < t.len() implies #[trigger] inst_link_at(insts, t, c, q) by {
                assert(t[q] == s[j + q]);
                assert(inst_link_at(old_insts, s, ob, j + q));
                assert(insts[s[j + q].0 as int] == (InstNode { block: Some(new_block), ..mid[s[j + q].0 as int] }));
                if q > 0 {
                    assert(t[q - 1] == s[j + q - 1]);
                    assert(mid[s[j + q].0 as int] == old_insts[s[j + q].0 as int]) by {
                        if j > 0 {
                            assert(s[j + q] != s[j - 1]);
                        }
                    }
                }
                if q + 1 < t.len() {
                    assert(t[q + 1] == s[j + q + 1]);
                }
            }
        } else {
            let t = old.contents@[c];
            assert(contents[c] == t);
            assert(blocks[c].first_inst == old_blocks[c].first_inst && blocks[c].last_inst
                == old_blocks[c].last_inst) by {
                if let Some(y) = next_block {
                    if c == y.0 {
                    } else {
                        assert(blocks[c] == old_blocks[c]);
                    }
                } else {
                    assert(blocks[c] == old_blocks[c]);
                }
            }
            assert forall|q: int| 0 <= q < t.len() implies #[trigger] inst_link_at(insts, t, c, q) by {
                assert(inst_link_at(old_insts, t, c, q));
                let x = t[q].0 as int;
                assert(Inst(x as u32) == t[q]);
                assert(!s.contains(t[q])) by {
                    if s.contains(t[q]) {
                        let r = s.index_of(t[q]);
                        assert(inst_link_at(old_insts, s, ob, r));
                    }
                }
                assert(!sub.contains(t[q])) by {
                    if sub.contains(t[q]) {
                        let r = sub.index_of(t[q]);
                        assert(s[j + r] == t[q]);
                    }
                }
                assert(insts[x] == mid[x]);
                assert(mid[x] == old_insts[x]);
            }
        }
    }
}

impl Layout {
    /// The final step of merging two blocks: the relinked tables are well formed.
    proof fn lemma_merge_finish(&self, old: Layout, pred: Block, succ: Block)
        requires
            old.wf(),
            ({
                let p = pred.0 as int;
                let sc = succ.0 as int;
                let sp = old.contents@[p];
                let ss = old.contents@[sc];
                let m = sp.len();
                &&& m > 0
                &&& ss.len() > 0
                &&& p != sc
                &&& p < old.blocks@.len()
                &&& sc < old.blocks@.len()
                &&& old.order@.contains(pred)
                &&& old.order@.contains(succ)
                &&& self.order@ == old.order@
                &&& self.first_block == old.first_block
                &&& self.last_block == old.last_block
                &&& self.contents@ == old.contents@.update(p, sp.drop_last() + ss).update(sc, Seq::<Inst>::empty())
                &&& self.blocks@.len() == old.blocks@.len()
                &&& self.insts@.len() == old.insts@.len()
                &&& self.blocks@[p] == (BlockNode {
                    first_inst: if m == 1 { Some(ss[0]) } else { old.blocks@[p].first_inst },
                    last_inst: old.blocks@[sc].last_inst,
                    ..old.blocks@[p]
                })
                &&& self.blocks@[sc] == (BlockNode { first_inst: None, last_inst: None, ..old.blocks@[sc] })
                &&& (forall|x: int|
                    0 <= x < self.blocks@.len() && x != p && x != sc ==> #[trigger] self.blocks@[x] == old.blocks@[x])
                &&& self.insts@[sp[m - 1].0 as int] == (InstNode { block: None, prev: None, next: None })
                &&& (m > 1 ==> self.insts@[sp[m - 2].0 as int] == (InstNode {
                    next: Some(ss[0]),
                    ..old.insts@[sp[m - 2].0 as int]
                }))
                &&& (forall|q: int|
                    0 <= q < ss.len() ==> #[trigger] self.insts@[ss[q].0 as int] == (InstNode {
                        block: Some(pred),
                        prev: if q == 0 { opt_prev(sp, m - 1) } else { old.insts@[ss[q].0 as int].prev },
                        ..old.insts@[ss[q].0 as int]
                    }))
                &&& (forall|x: int|
                    0 <= x < self.insts@.len() && !ss.contains(Inst(x as u32)) && Inst(x as u32) != sp[m - 1] && (m
                        > 1 ==> Inst(x as u32) != sp[m - 2]) ==> #[trigger] self.insts@[x] == old.insts@[x])
            }),
        ensures
            self.wf(),
    {
        let p = pred.0 as int;
        let sc = succ.0 as int;
        let sp = old.contents@[p];
        let ss = old.contents@[sc];
        let m = sp.len() as int;
        let blocks = self.blocks@;
        let insts = self.insts@;
        let contents = self.contents@;
        let old_blocks = old.blocks@;
        let old_insts = old.insts@;
        let ns = sp.drop_last() + ss;
        old.lemma_valid();
        assert(block_insts_wf(old_blocks, old_insts, sp, p));
        assert(block_insts_wf(old_blocks, old_insts, ss, sc));
        assert(Block(p as u32) == pred);
        assert(Block(sc as u32) == succ);
        assert forall|i: int| 0 <= i < self.order@.len() implies #[trigger] block_link_at(blocks, self.order@, i) by {
            assert(block_link_at(old_blocks, self.order@, i));
        }
        assert forall|x: int|
            0 <= x < blocks.len() && !self.order@.contains(Block(x as u32)) implies {
                &&& (#[trigger] blocks[x]).prev is None
                &&& blocks[x].next is None
                &&& contents[x].len() == 0
            } by {
            assert(old_blocks[x].prev is None);
            assert(Block(x as u32).0 as int == x);
        }
        // Disjointness of the two lists.
        assert forall|a: int, b2: int| 0 <= a < sp.len() && 0 <= b2 < ss.len() implies sp[a] != ss[b2] by {
            if sp[a] == ss[b2] {
                assert(old@.insts[p].contains(sp[a]));
                assert(old@.insts[sc].contains(sp[a]));
            }
        }
        assert forall|c: int| 0 <= c < blocks.len() implies #[trigger] block_insts_wf(blocks, insts, contents[c], c) by {
            if c == p {
                assert(contents[c] == ns);
                assert(ns.no_duplicates()) by {
                    assert forall|a: int, b2: int| 0 <= a < b2 < ns.len() implies ns[a] != ns[b2] by {
                        if b2 < m - 1 {
                        } else if a < m - 1 {
                            assert(ns[b2] == ss[b2 - (m - 1)]);
                        } else {
                            assert(ns[b2] == ss[b2 - (m - 1)]);
                            assert(ns[a] == ss[a - (m - 1)]);
                        }
                    }
                }
                assert forall|q: int| 0 <= q < ns.len() implies (#[trigger] ns[q]).0 < insts.len() by {
                    if q >= m - 1 {
                        assert(ns[q] == ss[q - (m - 1)]);
                    }
                }
                assert(ns[0] == (if m == 1 { ss[0] } else { sp[0] }));
                assert(ns[ns.len() - 1] == ss[ss.len() - 1]);
                assert forall|q: int| 0 <= q < ns.len() implies #[trigger] inst_link_at(insts, ns, c, q) by {
                    if q < m - 1 {
                        assert(ns[q] == sp[q]);
                        assert(inst_link_at(old_insts, sp, p, q));
                        assert(!ss.contains(sp[q])) by {
                            if ss.contains(sp[q]) {
                                assert(ss[ss.index_of(sp[q])] == sp[q]);
                            }
                        }
                        assert(Inst(sp[q].0 as int as u32) == sp[q]);
                        if q < m - 2 {
                            assert(sp[q] != sp[m - 2]);
                            assert(ns[q + 1] == sp[q + 1]);
                        } else {
                            assert(ns[q + 1] == ss[0]);
                        }
                        if q > 0 {
                            assert(ns[q - 1] == sp[q - 1]);
                        }
                        assert(sp[q] != sp[m - 1]);
                    } else {
                        let r = q - (m - 1);
                        assert(ns[q] == ss[r]);
                        assert(inst_link_at(old_insts, ss, sc, r));
                        if r > 0 {
                            assert(ns[q - 1] == ss[r - 1]);
                        } else if m > 1 {
                            assert(ns[q - 1] == sp[m - 2]);
                        }
                        if r + 1 < ss.len() {
                            assert(ns[q + 1] == ss[r + 1]);
                        }
                    }
                }
            } else if c == sc {
                assert(contents[c] =~= Seq::<Inst>::empty());
            } else {
                let t = old.contents@[c];
                assert(contents[c] == t);
                assert(block_insts_wf(old_blocks, old_insts, t, c));
                assert forall|q: int| 0 <= q < t.len() implies #[trigger] inst_link_at(insts, t, c, q) by {
                    assert(inst_link_at(old_insts, t, c, q));
                    let x = t[q].0 as int;
                    assert(Inst(x as u32) == t[q]);
                    assert(!ss.contains(t[q])) by {
                        if ss.contains(t[q]) {
                            assert(inst_link_at(old_insts, ss, sc, ss.index_of(t[q])));
                        }
                    }
                    assert(t[q] != sp[m - 1]) by {
                        assert(inst_link_at(old_insts, sp, p, m - 1));
                    }
                    if m > 1 {
                        assert(t[q] != sp[m - 2]) by {
                            assert(inst_link_at(old_insts, sp, p, m - 2));
                        }
                    }
                    assert(insts[x] == old_insts[x]);
                }
            }
        }
        assert forall|x: int| 0 <= x < insts.len() implies match (#[trigger] insts[x]).block {
            None => insts[x].prev is None && insts[x].next is None,
            Some(c) => c.0 < blocks.len() && contents[c.0 as int].contains(Inst(x as u32)),
        } by {
            assert(Inst(x as u32).0 as int == x);
            if ss.contains(Inst(x as u32)) {
                let r = ss.index_of(Inst(x as u32));
                assert(ns[r + m - 1] == ss[r]);
                assert(contents[p] == ns);
            } else if Inst(x as u32) == sp[m - 1] {
            } else if m > 1 && Inst(x as u32) == sp[m - 2] {
                assert(inst_link_at(old_insts, sp, p, m - 2));
                assert(ns[m - 2] == sp[m - 2]);
                assert(contents[p] == ns);
            } else {
                assert(insts[x] == old_insts[x]);
                match old_insts[x].block {
                    None => {},
                    Some(c) => {
                        assert(old.contents@[c.0 as int].contains(Inst(x as u32)));
                        if c.0 as int == p {
                            let q = sp.index_of(Inst(x as u32));
                            assert(q < m - 1);
                            assert(ns[q] == sp[q]);
                        } else if c.0 as int == sc {
                            assert(false);
                        } else {
                            assert(contents[c.0 as int] == old.contents@[c.0 as int]);
                        }
                    },
                }
            }
        }
    }
}

impl Layout {
    /// Merge `succ` into `pred`: the last instruction of `pred` (its terminator) is removed,
    /// the instructions of `succ` are appended to `pred`, and `succ` leaves the layout.
    pub fn merge_blocks(&mut self, pred: Block, succ: Block)
        requires
            old(self).wf(),
            old(self)@.has_block(pred),
            old(self)@.has_block(succ),
            old(self)@.is_inserted(pred),
            old(self)@.is_inserted(succ),
            pred != succ,
            old(self)@.block_insts(pred).len() > 0,
        ensures
            final(self).wf(),
            final(self)@.order == old(self)@.order.remove(old(self)@.order.index_of(succ)),
            final(self)@.insts == old(self)@.insts.update(
                pred.0 as int,
                old(self)@.block_insts(pred).drop_last() + old(self)@.block_insts(succ),
            ).update(succ.0 as int, Seq::<Inst>::empty()),
            final(self)@.inst_slots == old(self)@.inst_slots,
    {
        let ghost p = pred.0 as int;
        let ghost sc = succ.0 as int;
        let ghost sp = self.contents@[p];
        let ghost ss = self.contents@[sc];
        let ghost m = sp.len() as int;
        proof {
            assert(block_insts_wf(self.blocks@, self.insts@, sp, p));
            assert(block_insts_wf(self.blocks@, self.insts@, ss, sc));
            assert(self.order@.len() > 1) by {
                let a = self.order@.index_of(pred);
                let b = self.order@.index_of(succ);
                assert(a != b);
            }
            assert(Block(p as u32) == pred);
            assert(Block(sc as u32) == succ);
        }
        match self.blocks[succ.0 as usize].first_inst {
            Some(succ_start) => {
                let ghost old_insts = self.insts@;
                let term = self.last_inst(pred).unwrap();
                proof {
                    assert(inst_link_at(old_insts, sp, p, m - 1));
                    if m > 1 {
                        assert(inst_link_at(old_insts, sp, p, m - 2));
                    }
                    assert(inst_link_at(old_insts, ss, sc, 0));
                    self.lemma_inst_node(term);
                }
                let pred_end = self.insts[term.0 as usize].prev;
                self.insts.set(term.0 as usize, InstNode { block: None, prev: None, next: None });
                let ghost mid = self.insts@;
                proof {
                    assert forall|q: int| 0 <= q < ss.len() implies #[trigger] mid[ss[q].0 as int].next == opt_next(ss, q) by {
                        assert(inst_link_at(old_insts, ss, sc, q));
                        assert(ss[q] != term);
                    }
                }
                let mut cur = Some(succ_start);
                let ghost mut i: int = 0;
                while cur.is_some()
                    invariant
                        self.blocks@ == old(self).blocks@,
                        self.order@ == old(self).order@,
                        self.contents@ == old(self).contents@,
                        self.first_block == old(self).first_block,
                        self.last_block == old(self).last_block,
                        mid.len() == old_insts.len(),
                        mid.len() <= u32::MAX,
                        self.insts@.len() == mid.len(),
                        0 <= i <= ss.len(),
                        ss.no_duplicates(),
                        forall|q: int| 0 <= q < ss.len() ==> (#[trigger] ss[q]).0 < mid.len(),
                        forall|q: int| 0 <= q < ss.len() ==> #[trigger] mid[ss[q].0 as int].next == opt_next(ss, q),
                        cur == (if i < ss.len() { Some(ss[i]) } else { None::<Inst> }),
                        forall|q: int|
                            0 <= q < i ==> #[trigger] self.insts@[ss[q].0 as int] == (InstNode {
                                block: Some(pred),
                                ..mid[ss[q].0 as int]
                            }),
                        forall|x: int|
                            0 <= x < mid.len() && !ss.subrange(0, i).contains(Inst(x as u32)) ==> #[trigger] self.insts@[x]
                                == mid[x],
                    decreases ss.len() - i,
                {
                    let ii = cur.unwrap();
                    proof {
                        assert(!ss.subrange(0, i).contains(ii)) by {
                            if ss.subrange(0, i).contains(ii) {
                                let q = ss.subrange(0, i).index_of(ii);
                                assert(ss[q] == ss[i]);
                            }
                        }
                        assert(Inst(ii.0 as int as u32) == ii);
                    }
                    let mut n = self.insts[ii.0 as usize];
                    n.block = Some(pred);
                    self.insts.set(ii.0 as usize, n);
                    cur = n.next;
                    proof {
                        i = i + 1;
                        assert forall|q: int| 0 <= q < i implies #[trigger] self.insts@[ss[q].0 as int] == (InstNode {
                            block: Some(pred),
                            ..mid[ss[q].0 as int]
                        }) by {
                            if q < i - 1 {
                                assert(ss[q] != ii);
                            }
                        }
                        assert forall|x: int|
                            0 <= x < mid.len() && !ss.subrange(0, i).contains(Inst(x as u32)) implies #[trigger] self.insts@[x]
                                == mid[x] by {
                            assert(ss.subrange(0, i)[i - 1] == ii);
                            if ss.subrange(0, i - 1).contains(Inst(x as u32)) {
                                let q = ss.subrange(0, i - 1).index_of(Inst(x as u32));
                                assert(ss.subrange(0, i)[q] == Inst(x as u32));
                            }
                            assert(Inst(x as u32).0 as int == x);
                        }
                    }
                }
                let ghost looped = self.insts@;
                match pred_end {
                    Some(pe) => {
                        let mut pn = self.insts[pe.0 as usize];
                        pn.next = Some(succ_start);
                        self.insts.set(pe.0 as usize, pn);
                        let mut sn = self.insts[succ_start.0 as usize];
                        sn.prev = Some(pe);
                        self.insts.set(succ_start.0 as usize, sn);
                    },
                    None => {
                        let mut pb = self.blocks[pred.0 as usize];
                        pb.first_inst = self.blocks[succ.0 as usize].first_inst;
                        self.blocks.set(pred.0 as usize, pb);
                    },
                }
                let mut pb = self.blocks[pred.0 as usize];
                pb.last_inst = self.blocks[succ.0 as usize].last_inst;
                self.blocks.set(pred.0 as usize, pb);
                let mut sb = self.blocks[succ.0 as usize];
                sb.first_inst = None;
                sb.last_inst = None;
                self.blocks.set(succ.0 as usize, sb);
                proof {
                    assert(i == ss.len());
                    assert(ss.subrange(0, i) =~= ss);
                    assert forall|a: int, b2: int| 0 <= a < sp.len() && 0 <= b2 < ss.len() implies sp[a] != ss[b2] by {
                        if sp[a] == ss[b2] {
                            assert(inst_link_at(old_insts, sp, p, a));
                            assert(inst_link_at(old_insts, ss, sc, b2));
                        }
                    }
                    assert(!ss.contains(term)) by {
                        if ss.contains(term) {
                            assert(sp[m - 1] == ss[ss.index_of(term)]);
                        }
                    }
                    if m > 1 {
                        assert(!ss.contains(sp[m - 2])) by {
                            if ss.contains(sp[m - 2]) {
                                assert(sp[m - 2] == ss[ss.index_of(sp[m - 2])]);
                            }
                        }
                        assert(sp[m - 2] != term);
                    }
                    assert forall|q: int| 0 <= q < ss.len() implies #[trigger] mid[ss[q].0 as int] == old_insts[ss[q].0 as int] by {
                        assert(ss[q] != term);
                    }
                    self.contents = Ghost(old(self).contents@.update(p, sp.drop_last() + ss).update(sc, Seq::<Inst>::empty()));
                    assert forall|q: int|
                        0 <= q < ss.len() implies #[trigger] self.insts@[ss[q].0 as int] == (InstNode {
                            block: Some(pred),
                            prev: if q == 0 { opt_prev(sp, m - 1) } else { old_insts[ss[q].0 as int].prev },
                            ..old_insts[ss[q].0 as int]
                        }) by {
                        assert(inst_link_at(old_insts, ss, sc, q));
                        if m > 1 {
                            assert(ss[q] != sp[m - 2]);
                        }
                    }
                    assert forall|x: int|
                        0 <= x < self.insts@.len() && !ss.contains(Inst(x as u32)) && Inst(x as u32) != sp[m - 1] && (m
                            > 1 ==> Inst(x as u32) != sp[m - 2]) implies #[trigger] self.insts@[x] == old_insts[x] by {
                        assert(Inst(x as u32).0 as int == x);
                        assert(looped[x] == mid[x]);
                    }
                    assert(self.blocks@[p] == (BlockNode {
                        first_inst: if m == 1 { Some(ss[0]) } else { old(self).blocks@[p].first_inst },
                        last_inst: old(self).blocks@[sc].last_inst,
                        ..old(self).blocks@[p]
                    }));
                    self.lemma_merge_finish(*old(self), pred, succ);
                }
            },
            None => {
                let last = self.last_inst(pred).unwrap();
                proof {
                    assert(sp.contains(last));
                    assert(sp.index_of(last) == m - 1);
                    assert(self@.block_of(last) == Some(pred)) by {
                        self.lemma_contains_linked(p, last);
                        self.lemma_block_of(last);
                    }
                }
                self.remove_inst(last);
                proof {
                    assert(ss.len() == 0);
                    assert(sp.remove(m - 1) =~= sp.drop_last() + ss);
                    assert(old(self).contents@[sc] =~= Seq::<Inst>::empty());
                    assert(self.contents@[sc].len() == 0);
                    assert(self.contents@ =~= old(self).contents@.update(p, sp.drop_last() + ss).update(sc, Seq::<Inst>::empty()));
                    assert(block_insts_wf(self.blocks@, self.insts@, self.contents@[sc], sc));
                }
                let ghost prev_blocks = self.blocks@;
                proof {
                    assert(block_insts_wf(self.blocks@, self.insts@, self.contents@[sc], sc));
                }
                let mut sb = self.blocks[succ.0 as usize];
                sb.first_inst = None;
                sb.last_inst = None;
                self.blocks.set(succ.0 as usize, sb);
                proof {
                    assert(self.blocks@ =~= prev_blocks);
                }
            },
        }
        self.remove_empty_block(succ);
    }
}

impl Layout {
    /// Replace the block table by `num` fresh blocks. No block may be in the layout.
    pub fn make_blocks(&mut self, num: usize)
        requires
            old(self).wf(),
            old(self)@.order.len() == 0,
            num <= u32::MAX,
        ensures
            final(self).wf(),
            final(self)@.order == Seq::<Block>::empty(),
            final(self)@.insts == Seq::new(num as nat, |i: int| Seq::<Inst>::empty()),
            final(self)@.inst_slots == old(self)@.inst_slots,
    {
        proof {
            self.lemma_valid();
        }
        let mut blocks: Vec<BlockNode> = Vec::new();
        while blocks.len() < num
            invariant
                blocks@.len() <= num,
                forall|k: int| 0 <= k < blocks@.len() ==> #[trigger] blocks@[k] == (BlockNode {
                    prev: None,
                    next: None,
                    first_inst: None,
                    last_inst: None,
                }),
            decreases num - blocks@.len(),
        {
            blocks.push(BlockNode { prev: None, next: None, first_inst: None, last_inst: None });
        }
        self.blocks = blocks;
        proof {
            let old_contents = self.contents@;
            self.contents = Ghost(Seq::new(num as nat, |i: int| Seq::<Inst>::empty()));
            assert forall|b: int| 0 <= b < self.blocks@.len() implies #[trigger] block_insts_wf(
                self.blocks@,
                self.insts@,
                self.contents@[b],
                b,
            ) by {
                assert(self.contents@[b] =~= Seq::<Inst>::empty());
            }
            assert forall|k: int| 0 <= k < self.insts@.len() implies match (#[trigger] self.insts@[k]).block {
                None => self.insts@[k].prev is None && self.insts@[k].next is None,
                Some(b) => b.0 < self.blocks@.len() && self.contents@[b.0 as int].contains(Inst(k as u32)),
            } by {
                match self.insts@[k].block {
                    None => {},
                    Some(b) => {
                        assert(old_contents[b.0 as int].contains(Inst(k as u32)));
                        assert(!old(self).order@.contains(Block(b.0 as int as u32)));
                        assert(old_contents[b.0 as int].len() == 0);
                    },
                }
            }
        }
    }
}

/// A cursor with ends `head` and `tail` stands for the window `s[lo..hi]`.
pub open spec fn window<T>(head: Option<T>, tail: Option<T>, s: Seq<T>, lo: int, hi: int) -> bool {
    &&& 0 <= lo <= hi <= s.len()
    &&& head == (if lo < hi { Some(s[lo]) } else { None::<T> })
    &&& tail == (if lo < hi { Some(s[hi - 1]) } else { None::<T> })
}

/// A cursor over a window of the block order, which can be walked from both ends.
#[derive(Clone, Copy, Debug, PartialEq, Eq, Structural)]
pub struct BlockCursor {
    pub head: Option<Block>,
    pub tail: Option<Block>,
}

/// A cursor over a window of the instructions of a block, which can be walked from both
/// ends.
#[derive(Clone, Copy, Debug, PartialEq, Eq, Structural)]
pub struct InstCursor {
    pub head: Option<Inst>,
    pub tail: Option<Inst>,
}

impl BlockCursor {
    /// The cursor stands for a window of the block order of `l`.
    pub open spec fn valid_for(self, l: LayoutView) -> bool {
        exists|lo: int, hi: int| #[trigger] window(self.head, self.tail, l.order, lo, hi)
    }

    /// Take the first block of the window, if there is one.
    pub fn next(&mut self, layout: &Layout) -> (r: Option<Block>)
        requires
            layout.wf(),
            old(self).valid_for(layout@),
        ensures
            final(self).valid_for(layout@),
            forall|lo: int, hi: int| #[trigger] window(old(self).head, old(self).tail, layout@.order, lo, hi) ==> if lo < hi {
                r == Some(layout@.order[lo]) && window(final(self).head, final(self).tail, layout@.order, lo + 1, hi)
            } else {
                r is None && *final(self) == *old(self)
            },
    {
        let block = match self.head {
            Some(b) => b,
            None => {
                return None;
            },
        };
        let ghost c0 = *self;
        let ghost order = layout.order@;
        if self.head == self.tail {
            self.head = None;
            self.tail = None;
        } else {
            proof {
                let (lo, hi) = choose|lo: int, hi: int| #[trigger] window(c0.head, c0.tail, order, lo, hi);
                assert(block_link_at(layout.blocks@, order, lo));
            }
            self.head = layout.blocks[block.0 as usize].next;
        }
        proof {
            assert forall|lo: int, hi: int| #[trigger] window(c0.head, c0.tail, order, lo, hi) implies if lo < hi {
                Some(block) == Some(order[lo]) && window(self.head, self.tail, order, lo + 1, hi)
            } else {
                false
            } by {
                if c0.head == c0.tail {
                    assert(order[lo] == order[hi - 1]);
                } else {
                    assert(block_link_at(layout.blocks@, order, lo));
                    assert(lo != hi - 1);
                }
            }
            let (lo, hi) = choose|lo: int, hi: int| #[trigger] window(c0.head, c0.tail, order, lo, hi);
            assert(window(self.head, self.tail, order, lo + 1, hi));
        }
        Some(block)
    }

    /// Take the last block of the window, if there is one.
    pub fn next_back(&mut self, layout: &Layout) -> (r: Option<Block>)
        requires
            layout.wf(),
            old(self).valid_for(layout@),
        ensures
            final(self).valid_for(layout@),
            forall|lo: int, hi: int| #[trigger] window(old(self).head, old(self).tail, layout@.order, lo, hi) ==> if lo < hi {
                r == Some(layout@.order[hi - 1]) && window(final(self).head, final(self).tail, layout@.order, lo, hi - 1)
            } else {
                r is None && *final(self) == *old(self)
            },
    {
        let block = match self.tail {
            Some(b) => b,
            None => {
                return None;
            },
        };
        let ghost c0 = *self;
        let ghost order = layout.order@;
        if self.head == self.tail {
            self.head = None;
            self.tail = None;
        } else {
            proof {
                let (lo, hi) = choose|lo: int, hi: int| #[trigger] window(c0.head, c0.tail, order, lo, hi);
                assert(block_link_at(layout.blocks@, order, hi - 1));
            }
            self.tail = layout.blocks[block.0 as usize].prev;
        }
        proof {
            assert forall|lo: int, hi: int| #[trigger] window(c0.head, c0.tail, order, lo, hi) implies if lo < hi {
                Some(block) == Some(order[hi - 1]) && window(self.head, self.tail, order, lo, hi - 1)
            } else {
                false
            } by {
                if c0.head == c0.tail {
                    assert(order[lo] == order[hi - 1]);
                } else {
                    assert(block_link_at(layout.blocks@, order, hi - 1));
                    assert(lo != hi - 1);
                }
            }
            let (lo, hi) = choose|lo: int, hi: int| #[trigger] window(c0.head, c0.tail, order, lo, hi);
            assert(window(self.head, self.tail, order, lo, hi - 1));
        }
        Some(block)
    }
}

impl InstCursor {
    /// The cursor stands for a window of the instructions of some block of `l`.
    pub open spec fn valid_for(self, l: LayoutView) -> bool {
        exists|b: int, lo: int, hi: int| 0 <= b < l.insts.len() && #[trigger] window(self.head, self.tail, l.insts[b], lo, hi)
    }

    /// Take the first instruction of the window, if there is one.
    pub fn next(&mut self, layout: &Layout) -> (r: Option<Inst>)
        requires
            layout.wf(),
            old(self).valid_for(layout@),
        ensures
            final(self).valid_for(layout@),
            forall|b: int, lo: int, hi: int|
                0 <= b < layout@.insts.len() && #[trigger] window(old(self).head, old(self).tail, layout@.insts[b], lo, hi) ==> if lo < hi {
                    r == Some(layout@.insts[b][lo]) && window(final(self).head, final(self).tail, layout@.insts[b], lo + 1, hi)
                } else {
                    r is None && *final(self) == *old(self)
                },
    {
        let inst = match self.head {
            Some(i) => i,
            None => {
                return None;
            },
        };
        let ghost c0 = *self;
        let ghost ls = layout.contents@;
        if self.head == self.tail {
            self.head = None;
            self.tail = None;
        } else {
            proof {
                let (b, lo, hi) = choose|b: int, lo: int, hi: int| 0 <= b < ls.len() && #[trigger] window(c0.head, c0.tail, ls[b], lo, hi);
                assert(block_insts_wf(layout.blocks@, layout.insts@, ls[b], b));
                assert(inst_link_at(layout.insts@, ls[b], b, lo));
            }
            self.head = layout.insts[inst.0 as usize].next;
        }
        proof {
            assert forall|b: int, lo: int, hi: int| 0 <= b < ls.len() && #[trigger] window(c0.head, c0.tail, ls[b], lo, hi) implies if lo < hi {
                Some(inst) == Some(ls[b][lo]) && window(self.head, self.tail, ls[b], lo + 1, hi)
            } else {
                false
            } by {
                assert(block_insts_wf(layout.blocks@, layout.insts@, ls[b], b));
                if c0.head == c0.tail {
                    assert(ls[b][lo] == ls[b][hi - 1]);
                } else {
                    assert(inst_link_at(layout.insts@, ls[b], b, lo));
                    assert(lo != hi - 1);
                }
            }
            let (b, lo, hi) = choose|b: int, lo: int, hi: int| 0 <= b < ls.len() && #[trigger] window(c0.head, c0.tail, ls[b], lo, hi);
            assert(window(self.head, self.tail, ls[b], lo + 1, hi));
        }
        Some(inst)
    }

    /// Take the last instruction of the window, if there is one.
    pub fn next_back(&mut self, layout: &Layout) -> (r: Option<Inst>)
        requires
            layout.wf(),
            old(self).valid_for(layout@),
        ensures
            final(self).valid_for(layout@),
            forall|b: int, lo: int, hi: int|
                0 <= b < layout@.insts.len() && #[trigger] window(old(self).head, old(self).tail, layout@.insts[b], lo, hi) ==> if lo < hi {
                    r == Some(layout@.insts[b][hi - 1]) && window(final(self).head, final(self).tail, layout@.insts[b], lo, hi - 1)
                } else {
                    r is None && *final(self) == *old(self)
                },
    {
        let inst = match self.tail {
            Some(i) => i,
            None => {
                return None;
            },
        };
        let ghost c0 = *self;
        let ghost ls = layout.contents@;
        if self.head == self.tail {
            self.head = None;
            self.tail = None;
        } else {
            proof {
                let (b, lo, hi) = choose|b: int, lo: int, hi: int| 0 <= b < ls.len() && #[trigger] window(c0.head, c0.tail, ls[b], lo, hi);
                assert(block_insts_wf(layout.blocks@, layout.insts@, ls[b], b));
                assert(inst_link_at(layout.insts@, ls[b], b, hi - 1));
            }
            self.tail = layout.insts[inst.0 as usize].prev;
        }
        proof {
            assert forall|b: int, lo: int, hi: int| 0 <= b < ls.len() && #[trigger] window(c0.head, c0.tail, ls[b], lo, hi) implies if lo < hi {
                Some(inst) == Some(ls[b][hi - 1]) && window(self.head, self.tail, ls[b], lo, hi - 1)
            } else {
                false
            } by {
                assert(block_insts_wf(layout.blocks@, layout.insts@, ls[b], b));
                if c0.head == c0.tail {
                    assert(ls[b][lo] == ls[b][hi - 1]);
                } else {
                    assert(inst_link_at(layout.insts@, ls[b], b, hi - 1));
                    assert(lo != hi - 1);
                }
            }
            let (b, lo, hi) = choose|b: int, lo: int, hi: int| 0 <= b < ls.len() && #[trigger] window(c0.head, c0.tail, ls[b], lo, hi);
            assert(window(self.head, self.tail, ls[b], lo, hi - 1));
        }
        Some(inst)
    }
}

impl Layout {
    /// A cursor over all blocks in layout order.
    pub fn block_cursor(&self) -> (r: BlockCursor)
        requires
            self.wf(),
        ensures
            window(r.head, r.tail, self@.order, 0, self@.order.len() as int),
            r.valid_for(self@),
    {
        let r = BlockCursor { head: self.first_block, tail: self.last_block };
        proof {
            assert(window(r.head, r.tail, self@.order, 0, self@.order.len() as int));
        }
        r
    }

    /// A cursor over the instructions of `block` in layout order.
    pub fn block_inst_cursor(&self, block: Block) -> (r: InstCursor)
        requires
            self.wf(),
            self@.has_block(block),
        ensures
            window(r.head, r.tail, self@.block_insts(block), 0, self@.block_insts(block).len() as int),
            r.valid_for(self@),
    {
        let f = self.first_inst(block);
        let l = self.last_inst(block);
        let r = InstCursor { head: f, tail: l };
        proof {
            assert(window(r.head, r.tail, self@.insts[block.0 as int], 0, self@.insts[block.0 as int].len() as int));
        }
        r
    }
}

} // verus!
