//! The dominator tree of a function: for each block its immediate dominator, computed
//! with Cooper, Harvey and Kennedy's "simple, fast dominance algorithm" over a
//! depth-first postorder of the control flow graph; likewise the post-dominator tree
//! over the reversed graph.
//!
//! A block `d` dominates a block `n` if every path from the entry to `n` goes through
//! `d`. The immediate dominator of `n` is the strict dominator of `n` that every other
//! strict dominator of `n` dominates. Each node of the tree carries the number of its
//! block in reverse postorder (starting at 2 for the entry; 0 for unreachable blocks),
//! and the immediate dominator always has a smaller number than the block.
use vstd::prelude::*;

use crate::cfg::{is_pred, sorted_blocks, ControlFlowGraph, Successors};
use crate::domtree::{
    compute_domtree, dominates_, is_dom_tree, lemma_dom_tree_closed, lemma_dominates_transitive, lemma_dominator_number,
    lemma_on_every_path_pred, numbered, on_every_path, on_walk, spec_dominates, spec_fold_idom, tree_closed,
};
use crate::entities::Block;
use crate::function::Function;

verus! {

/// The dominator tree node of one block.
#[derive(Debug, Clone, Copy, PartialEq, Eq, Structural)]
pub struct DomTreeNode {
    /// The number of the block in reverse postorder, from 2 on; 0 for unreachable blocks.
    /// While the tree is built, 1 and 2 mark blocks that the traversal has reached.
    pub rpo_number: u32,
    /// The immediate dominator; `None` for the entry and for unreachable blocks.
    pub idom: Option<Block>,
}

/// The traversal has not reached the block.
pub const UNDEF: u32 = 0;
/// The traversal is done with the block (or, in the reverse traversal, has expanded it).
pub const DONE: u32 = 1;
/// The traversal has reached the block but is not done with it.
pub const SEEN: u32 = 2;

/// `a -> b` is an edge of the graph that is walked: a successor edge of `g`, or a
/// predecessor edge when `rev` holds.
pub open spec fn walk_edge(g: Seq<Seq<Block>>, rev: bool, a: Block, b: Block) -> bool {
    if rev {
        is_pred(g, b, a)
    } else {
        is_pred(g, a, b)
    }
}

/// `po` is a depth-first postorder of the blocks reachable from `root`: it holds each
/// such block once, is closed under the edges, ends with `root`, and every other block
/// is reached by an edge from a block after it.
pub open spec fn is_dfs_postorder(g: Seq<Seq<Block>>, rev: bool, root: Block, po: Seq<Block>) -> bool {
    &&& po.len() > 0
    &&& po.last() == root
    &&& po.no_duplicates()
    &&& forall|i: int| 0 <= i < po.len() ==> (#[trigger] po[i]).0 < g.len()
    &&& forall|x: Block, y: Block| #[trigger] po.contains(x) && #[trigger] walk_edge(g, rev, x, y) ==> po.contains(y)
    &&& forall|i: int| 0 <= i < po.len() - 1 ==> #[trigger] reached_from_later(g, rev, po, i)
}

/// Block `po[i]` is reached by an edge from a block after it in `po`.
pub open spec fn reached_from_later(g: Seq<Seq<Block>>, rev: bool, po: Seq<Block>, i: int) -> bool {
    exists|j: int| i < j < po.len() && #[trigger] walk_edge(g, rev, po[j], po[i])
}

/// During a traversal: block `po[i]` is reached by an edge from a block that is on the
/// stack or after it in `po`.
pub open spec fn reached_from_stack_or_later(g: Seq<Seq<Block>>, rev: bool, st: Seq<Block>, po: Seq<Block>, i: int) -> bool {
    exists|y: Block|
        #[trigger] walk_edge(g, rev, y, po[i]) && (st.contains(y) || exists|j: int| i < j < po.len() && po[j] == y)
}

/// The number of nodes whose `rpo_number` is `v`.
pub open spec fn count_rpo(ns: Seq<DomTreeNode>, v: u32) -> nat
    decreases ns.len(),
{
    if ns.len() == 0 {
        0
    } else {
        count_rpo(ns.drop_last(), v) + if ns.last().rpo_number == v { 1nat } else { 0nat }
    }
}

proof fn lemma_count_rpo_update(ns: Seq<DomTreeNode>, i: int, node: DomTreeNode, v: u32)
    requires
        0 <= i < ns.len(),
    ensures
        count_rpo(ns.update(i, node), v) + (if ns[i].rpo_number == v { 1int } else { 0int })
            == count_rpo(ns, v) + (if node.rpo_number == v { 1int } else { 0int }),
    decreases ns.len(),
{
    let nu = ns.update(i, node);
    if i == ns.len() - 1 {
        assert(nu.drop_last() =~= ns.drop_last());
    } else {
        assert(nu.drop_last() =~= ns.drop_last().update(i, node));
        lemma_count_rpo_update(ns.drop_last(), i, node, v);
    }
}

/// The successors left to visit over all entries of the traversal stack.
pub open spec fn rem_total(st: Seq<(Block, Successors)>) -> nat
    decreases st.len(),
{
    if st.len() == 0 {
        0
    } else {
        rem_total(st.drop_last()) + st.last().1@.len()
    }
}

/// The blocks on the traversal stack.
pub open spec fn stack_blocks(st: Seq<(Block, Successors)>) -> Seq<Block> {
    st.map_values(|e: (Block, Successors)| e.0)
}

/// The dominator and post-dominator trees of a function, and the postorder of the
/// control flow graph that was used to build the dominator tree.
pub struct DominatorTree {
    nodes: Vec<DomTreeNode>,
    reverse_nodes: Vec<DomTreeNode>,
    postorder: Vec<Block>,
    stack: Vec<(Block, Successors)>,
}

impl DominatorTree {
    /// The nodes of the dominator tree, one per block.
    pub closed spec fn spec_nodes(&self) -> Seq<DomTreeNode> {
        self.nodes@
    }

    /// The nodes of the post-dominator tree, one per block.
    pub closed spec fn spec_reverse_nodes(&self) -> Seq<DomTreeNode> {
        self.reverse_nodes@
    }

    /// The postorder the dominator tree was built from.
    pub closed spec fn spec_postorder(&self) -> Seq<Block> {
        self.postorder@
    }

    /// Fill `self.nodes` with unvisited nodes for `n` blocks and compute a depth-first
    /// postorder of the blocks reachable from `root` along the successor edges.
    /// During this only, `rpo_number` holds UNDEF (not reached), SEEN (on the stack) and
    /// DONE (finished).
    fn compute_postorder(&mut self, n: usize, root: Option<Block>, cfg: &ControlFlowGraph)
        requires
            cfg.wf(),
            n == cfg@.len(),
            root matches Some(r) ==> r.0 < n,
            old(self).stack@.len() == 0,
            old(self).nodes@.len() == 0,
            old(self).postorder@.len() == 0,
        ensures
            final(self).stack@.len() == 0,
            final(self).reverse_nodes == old(self).reverse_nodes,
            final(self).nodes@.len() == n,
            root is None ==> final(self).postorder@.len() == 0,
            root matches Some(r) ==> is_dfs_postorder(cfg@, false, r, final(self).postorder@),
            forall|b: int| 0 <= b < n ==> (#[trigger] final(self).nodes@[b]).idom is None,
            forall|b: int|
                0 <= b < n ==> (#[trigger] final(self).nodes@[b]).rpo_number == (if final(self).postorder@.contains(
                    Block(b as u32),
                ) {
                    DONE
                } else {
                    UNDEF
                }),
    {
        let ghost g = cfg@;
        proof {
            cfg.lemma_view();
        }
        let mut i: usize = 0;
        while i < n
            invariant
                i <= n,
                self.nodes@.len() == i,
                forall|b: int| 0 <= b < i ==> #[trigger] self.nodes@[b] == (DomTreeNode { rpo_number: UNDEF, idom: None }),
                self.stack@.len() == 0,
                self.postorder@.len() == 0,
                self.reverse_nodes == old(self).reverse_nodes,
            decreases n - i,
        {
            self.nodes.push(DomTreeNode { rpo_number: UNDEF, idom: None });
            i += 1;
        }
        let root = match root {
            Some(r) => r,
            None => {
                return;
            },
        };
        self.stack.push((root, cfg.successors_of(root)));
        self.nodes.set(root.0 as usize, DomTreeNode { rpo_number: SEEN, idom: None });
        proof {
            assert(Block(root.0 as int as u32) == root);
            assert(stack_blocks(self.stack@) =~= seq![root]);
            assert(self.stack@[0].1@ == g[root.0 as int]);
            assert(g[root.0 as int].subrange(0, g[root.0 as int].len() as int) =~= g[root.0 as int]);
            let ns = self.nodes@;
            assert forall|v: int| 0 <= v < n implies ((#[trigger] ns[v]).rpo_number == SEEN <==> stack_blocks(self.stack@).contains(Block(v as u32))) by {
                if v == root.0 as int {
                    assert(stack_blocks(self.stack@)[0] == root);
                } else {
                    assert(Block(v as u32) != root);
                    if stack_blocks(self.stack@).contains(Block(v as u32)) {
                        let q = stack_blocks(self.stack@).index_of(Block(v as u32));
                        assert(q == 0);
                    }
                }
            }
            assert forall|k: int| 0 <= k < self.stack@.len() implies {
                let e = #[trigger] self.stack@[k];
                &&& e.0.0 < n
                &&& e.1.wf()
                &&& e.1@.len() <= g[e.0.0 as int].len()
                &&& e.1@ == g[e.0.0 as int].subrange(0, e.1@.len() as int)
                &&& forall|j: int|
                    e.1@.len() <= j < g[e.0.0 as int].len() ==> ns[g[e.0.0 as int][j].0 as int].rpo_number
                        != UNDEF
            } by {
                assert(k == 0);
            }
        }
        loop
            invariant_except_break
                self.stack@.len() > 0 ==> stack_blocks(self.stack@)[0] == root,
            invariant
                cfg.wf(),
                g == cfg@,
                n == g.len(),
                n <= u32::MAX,
                root.0 < n,
                forall|b: int| 0 <= b < n ==> (#[trigger] g[b]).len() <= 2,
                forall|b: int, x: Block| 0 <= b < n && #[trigger] g[b].contains(x) ==> x.0 < n,
                self.reverse_nodes == old(self).reverse_nodes,
                self.nodes@.len() == n,
                forall|b: int| 0 <= b < n ==> (#[trigger] self.nodes@[b]).idom is None,
                forall|b: int| 0 <= b < n ==> {
                    let m = (#[trigger] self.nodes@[b]).rpo_number;
                    m == UNDEF || m == DONE || m == SEEN
                },
                // the stack: each entry's block with the prefix of its successors left to visit
                forall|k: int| 0 <= k < self.stack@.len() ==> {
                    let e = #[trigger] self.stack@[k];
                    &&& e.0.0 < n
                    &&& e.1.wf()
                    &&& e.1@.len() <= g[e.0.0 as int].len()
                    &&& e.1@ == g[e.0.0 as int].subrange(0, e.1@.len() as int)
                    &&& forall|j: int|
                        e.1@.len() <= j < g[e.0.0 as int].len() ==> self.nodes@[g[e.0.0 as int][j].0 as int].rpo_number
                            != UNDEF
                },
                stack_blocks(self.stack@).no_duplicates(),
                forall|b: int| 0 <= b < n ==> ((#[trigger] self.nodes@[b]).rpo_number == SEEN <==> stack_blocks(self.stack@).contains(Block(b as u32))),
                forall|b: int| 0 <= b < n ==> ((#[trigger] self.nodes@[b]).rpo_number == DONE <==> self.postorder@.contains(Block(b as u32))),
                forall|k: int| 0 <= k < self.stack@.len() ==> (#[trigger] self.stack@[k]).0.0 < n,
                forall|k: int| 0 < k < self.stack@.len() ==> walk_edge(g, false, #[trigger] stack_blocks(self.stack@)[k - 1], stack_blocks(self.stack@)[k]),
                self.postorder@.no_duplicates(),
                forall|i: int| 0 <= i < self.postorder@.len() ==> (#[trigger] self.postorder@[i]).0 < n,
                // finished blocks have all their successors reached
                forall|x: Block, y: Block| #[trigger] self.postorder@.contains(x) && #[trigger] walk_edge(g, false, x, y) ==> self.nodes@[y.0 as int].rpo_number != UNDEF,
                // every finished block other than the root was reached from a block on the
                // stack or finished after it
                forall|i: int| 0 <= i < self.postorder@.len() && self.postorder@[i] != root ==> #[trigger] reached_from_stack_or_later(g, false, stack_blocks(self.stack@), self.postorder@, i),
                self.nodes@[root.0 as int].rpo_number != UNDEF,
                self.stack@.len() == 0 ==> self.postorder@.len() > 0 && self.postorder@.last() == root,
            ensures
                self.stack@.len() == 0,
            decreases count_rpo(self.nodes@, UNDEF), rem_total(self.stack@), self.stack@.len(),
        {
            let len = self.stack.len();
            if len == 0 {
                break;
            }
            let ghost st = self.stack@;
            let ghost ns = self.nodes@;
            let ghost po = self.postorder@;
            let ghost sb = stack_blocks(st);
            let (b, succs) = self.stack[len - 1];
            let ghost bi = b.0 as int;
            proof {
                assert(st[len - 1] == (b, succs));
                assert(sb[len - 1] == b);
                assert(Block(bi as u32) == b);
                succs.lemma_view();
            }
            let mut s = succs;
            let popped = s.pop();
            match popped {
                Some(x) => {
                    let ghost m = succs@.len() as int;
                    proof {
                        assert(x == succs@[m - 1]);
                        assert(x == g[bi][m - 1]);
                        assert(g[bi].contains(x));
                        assert(x.0 < n);
                        assert(s@ =~= g[bi].subrange(0, m - 1));
                    }
                    self.stack.set(len - 1, (b, s));
                    let ghost st1 = self.stack@;
                    proof {
                        assert(st1 == st.update(len - 1, (b, s)));
                        assert(st1.drop_last() =~= st.drop_last());
                        assert(stack_blocks(st1) =~= sb);
                    }
                    if self.nodes[x.0 as usize].rpo_number == UNDEF {
                        let xs = cfg.successors_of(x);
                        self.nodes.set(x.0 as usize, DomTreeNode { rpo_number: SEEN, idom: None });
                        self.stack.push((x, xs));
                        proof {
                            let xi = x.0 as int;
                            assert(Block(xi as u32) == x);
                            let ns1 = self.nodes@;
                            let st2 = self.stack@;
                            assert(ns1 == ns.update(xi, DomTreeNode { rpo_number: SEEN, idom: None }));
                            lemma_count_rpo_update(ns, xi, DomTreeNode { rpo_number: SEEN, idom: None }, UNDEF);
                            assert(stack_blocks(st2) =~= sb.push(x));
                            assert(!sb.contains(x));
                            assert(!po.contains(x));
                            assert(g[xi].subrange(0, g[xi].len() as int) =~= g[xi]);
                            assert forall|k: int| 0 <= k < st2.len() implies {
                                let e = #[trigger] st2[k];
                                &&& e.0.0 < n
                                &&& e.1.wf()
                                &&& e.1@.len() <= g[e.0.0 as int].len()
                                &&& e.1@ == g[e.0.0 as int].subrange(0, e.1@.len() as int)
                                &&& forall|j: int|
                                    e.1@.len() <= j < g[e.0.0 as int].len() ==> ns1[g[e.0.0 as int][j].0 as int].rpo_number
                                        != UNDEF
                            } by {
                                let e = st2[k];
                                if k < len - 1 {
                                    assert(e == st[k]);
                                    assert forall|j: int| e.1@.len() <= j < g[e.0.0 as int].len() implies ns1[g[e.0.0 as int][j].0 as int].rpo_number != UNDEF by {
                                        let t = g[e.0.0 as int][j];
                                        assert(g[e.0.0 as int].contains(t));
                                        assert(ns[t.0 as int].rpo_number != UNDEF);
                                        if t.0 as int != xi {
                                            assert(ns1[t.0 as int] == ns[t.0 as int]);
                                        }
                                    }
                                } else if k == len - 1 {
                                    assert(e == (b, s));
                                    assert forall|j: int| e.1@.len() <= j < g[e.0.0 as int].len() implies ns1[g[e.0.0 as int][j].0 as int].rpo_number != UNDEF by {
                                        let t = g[bi][j];
                                        assert(g[bi].contains(t));
                                        if j > m - 1 {
                                            assert(ns[t.0 as int].rpo_number != UNDEF);
                                            if t.0 as int != xi {
                                                assert(ns1[t.0 as int] == ns[t.0 as int]);
                                            }
                                        } else {
                                            assert(t == x);
                                        }
                                    }
                                } else {
                                    assert(e == (x, xs));
                                }
                            }
                            assert forall|k: int| 0 < k < st2.len() implies walk_edge(g, false, #[trigger] stack_blocks(st2)[k - 1], stack_blocks(st2)[k]) by {
                                if k == len {
                                    assert(stack_blocks(st2)[k - 1] == b);
                                    assert(stack_blocks(st2)[k] == x);
                                } else {
                                    assert(stack_blocks(st2)[k - 1] == sb[k - 1]);
                                    assert(stack_blocks(st2)[k] == sb[k]);
                                }
                            }
                            assert forall|v: int| 0 <= v < n implies ((#[trigger] ns1[v]).rpo_number == SEEN <==> stack_blocks(st2).contains(Block(v as u32))) by {
                                if v != xi {
                                    assert(ns1[v] == ns[v]);
                                    assert(Block(v as u32) != x);
                                    if sb.contains(Block(v as u32)) {
                                        let q = sb.index_of(Block(v as u32));
                                        assert(stack_blocks(st2)[q] == Block(v as u32));
                                    }
                                    if stack_blocks(st2).contains(Block(v as u32)) {
                                        let q = stack_blocks(st2).index_of(Block(v as u32));
                                        assert(q < sb.len());
                                        assert(sb[q] == Block(v as u32));
                                    }
                                } else {
                                    assert(stack_blocks(st2)[len as int] == x);
                                }
                            }
                            assert forall|v: int| 0 <= v < n implies ((#[trigger] ns1[v]).rpo_number == DONE <==> po.contains(Block(v as u32))) by {
                                if v != xi {
                                    assert(ns1[v] == ns[v]);
                                }
                            }
                            assert forall|k: int| 0 <= k < st2.len() implies (#[trigger] st2[k]).0.0 < n by {
                                if k < len {
                                    assert(st2[k].0 == sb[k]);
                                }
                            }
                            assert forall|y: Block, z: Block| #[trigger] po.contains(y) && #[trigger] walk_edge(g, false, y, z) implies ns1[z.0 as int].rpo_number != UNDEF by {
                                assert(ns[z.0 as int].rpo_number != UNDEF);
                            }
                            assert forall|i: int| 0 <= i < po.len() && po[i] != root implies #[trigger] reached_from_stack_or_later(g, false, stack_blocks(st2), po, i) by {
                                assert(reached_from_stack_or_later(g, false, sb, po, i));
                                let y = choose|y: Block| #[trigger] walk_edge(g, false, y, po[i]) && (sb.contains(y) || exists|j: int| i < j < po.len() && po[j] == y);
                                if sb.contains(y) {
                                    let q = sb.index_of(y);
                                    assert(stack_blocks(st2)[q] == y);
                                }
                            }
                        }
                    } else {
                        proof {
                            let ns1 = self.nodes@;
                            assert(ns1 == ns);
                            assert forall|k: int| 0 <= k < st1.len() implies {
                                let e = #[trigger] st1[k];
                                &&& e.0.0 < n
                                &&& e.1.wf()
                                &&& e.1@.len() <= g[e.0.0 as int].len()
                                &&& e.1@ == g[e.0.0 as int].subrange(0, e.1@.len() as int)
                                &&& forall|j: int|
                                    e.1@.len() <= j < g[e.0.0 as int].len() ==> ns[g[e.0.0 as int][j].0 as int].rpo_number
                                        != UNDEF
                            } by {
                                let e = st1[k];
                                if k < len - 1 {
                                    assert(e == st[k]);
                                } else {
                                    assert(e == (b, s));
                                    assert forall|j: int| e.1@.len() <= j < g[e.0.0 as int].len() implies ns[g[e.0.0 as int][j].0 as int].rpo_number != UNDEF by {
                                        if j > m - 1 {
                                        } else {
                                            assert(g[bi][j] == x);
                                        }
                                    }
                                }
                            }
                            assert(rem_total(st) == rem_total(st.drop_last()) + m);
                            assert(rem_total(st1) == rem_total(st1.drop_last()) + (m - 1));
                        }
                    }
                },
                None => {
                    proof {
                        assert(succs@.len() == 0);
                    }
                    self.stack.pop();
                    self.nodes.set(b.0 as usize, DomTreeNode { rpo_number: DONE, idom: None });
                    self.postorder.push(b);
                    proof {
                        let st1 = self.stack@;
                        let ns1 = self.nodes@;
                        let po1 = self.postorder@;
                        assert(st1 == st.drop_last());
                        assert(stack_blocks(st1) =~= sb.drop_last());
                        assert(ns1 == ns.update(bi, DomTreeNode { rpo_number: DONE, idom: None }));
                        lemma_count_rpo_update(ns, bi, DomTreeNode { rpo_number: DONE, idom: None }, UNDEF);
                        assert(ns[bi].rpo_number == SEEN) by {
                            assert(sb.contains(b));
                        }
                        assert(!po.contains(b));
                        assert(!stack_blocks(st1).contains(b)) by {
                            if stack_blocks(st1).contains(b) {
                                let q = stack_blocks(st1).index_of(b);
                                assert(sb[q] == b);
                            }
                        }
                        assert(rem_total(st) == rem_total(st.drop_last()) + 0);
                        assert forall|v: int| 0 <= v < n implies ((#[trigger] ns1[v]).rpo_number == SEEN <==> stack_blocks(st1).contains(Block(v as u32))) by {
                            if v != bi {
                                assert(ns1[v] == ns[v]);
                                assert(Block(v as u32) != b);
                                if sb.contains(Block(v as u32)) {
                                    let q = sb.index_of(Block(v as u32));
                                    assert(q != len - 1);
                                    assert(stack_blocks(st1)[q] == Block(v as u32));
                                }
                                if stack_blocks(st1).contains(Block(v as u32)) {
                                    let q = stack_blocks(st1).index_of(Block(v as u32));
                                    assert(sb[q] == Block(v as u32));
                                }
                            }
                        }
                        assert forall|v: int| 0 <= v < n implies ((#[trigger] ns1[v]).rpo_number == DONE <==> po1.contains(Block(v as u32))) by {
                            if v != bi {
                                assert(ns1[v] == ns[v]);
                                assert(Block(v as u32) != b);
                                if po.contains(Block(v as u32)) {
                                    let q = po.index_of(Block(v as u32));
                                    assert(po1[q] == Block(v as u32));
                                }
                                if po1.contains(Block(v as u32)) {
                                    let q = po1.index_of(Block(v as u32));
                                    assert(q < po.len());
                                    assert(po[q] == Block(v as u32));
                                }
                            } else {
                                assert(po1[po.len() as int] == b);
                            }
                        }
                        assert forall|k: int| 0 <= k < st1.len() implies {
                            let e = #[trigger] st1[k];
                            &&& e.0.0 < n
                            &&& e.1.wf()
                            &&& e.1@.len() <= g[e.0.0 as int].len()
                            &&& e.1@ == g[e.0.0 as int].subrange(0, e.1@.len() as int)
                            &&& forall|j: int|
                                e.1@.len() <= j < g[e.0.0 as int].len() ==> ns1[g[e.0.0 as int][j].0 as int].rpo_number
                                    != UNDEF
                        } by {
                            let e = st1[k];
                            assert(e == st[k]);
                            assert forall|j: int| e.1@.len() <= j < g[e.0.0 as int].len() implies ns1[g[e.0.0 as int][j].0 as int].rpo_number != UNDEF by {
                                let t = g[e.0.0 as int][j];
                                assert(g[e.0.0 as int].contains(t));
                                assert(ns[t.0 as int].rpo_number != UNDEF);
                                if t.0 as int != bi {
                                    assert(ns1[t.0 as int] == ns[t.0 as int]);
                                }
                            }
                        }
                        assert forall|k: int| 0 < k < st1.len() implies walk_edge(g, false, #[trigger] stack_blocks(st1)[k - 1], stack_blocks(st1)[k]) by {
                            assert(stack_blocks(st1)[k - 1] == sb[k - 1]);
                            assert(stack_blocks(st1)[k] == sb[k]);
                        }
                        assert forall|k: int| 0 <= k < st1.len() implies (#[trigger] st1[k]).0.0 < n by {
                            assert(st1[k] == st[k]);
                        }
                        assert(po1.no_duplicates()) by {
                            assert forall|a: int, c: int| 0 <= a < po1.len() && 0 <= c < po1.len() && a != c implies po1[a] != po1[c] by {
                                if a < po.len() && c < po.len() {
                                } else if a == po.len() {
                                    assert(po1[c] == po[c]);
                                    assert(po.contains(po[c]));
                                } else {
                                    assert(po1[a] == po[a]);
                                    assert(po.contains(po[a]));
                                }
                            }
                        }
                        assert forall|i: int| 0 <= i < po1.len() implies (#[trigger] po1[i]).0 < n by {
                            if i < po.len() {
                                assert(po1[i] == po[i]);
                            }
                        }
                        assert forall|y: Block, z: Block| #[trigger] po1.contains(y) && #[trigger] walk_edge(g, false, y, z) implies ns1[z.0 as int].rpo_number != UNDEF by {
                            if y == b {
                                let j = g[bi].index_of(z);
                                assert(ns[g[bi][j].0 as int].rpo_number != UNDEF);
                                if z.0 as int != bi {
                                    assert(ns1[z.0 as int] == ns[z.0 as int]);
                                }
                            } else {
                                let q = po1.index_of(y);
                                assert(q != po.len());
                                assert(po[q] == y);
                                assert(po.contains(y));
                                assert(ns[z.0 as int].rpo_number != UNDEF);
                                if z.0 as int != bi {
                                    assert(ns1[z.0 as int] == ns[z.0 as int]);
                                }
                            }
                        }
                        assert forall|i: int| 0 <= i < po1.len() && po1[i] != root implies #[trigger] reached_from_stack_or_later(g, false, stack_blocks(st1), po1, i) by {
                            if i == po.len() {
                                assert(len >= 2);
                                let y = sb[len - 2];
                                assert(walk_edge(g, false, sb[len - 2], sb[len - 1]));
                                assert(stack_blocks(st1)[len - 2] == y);
                                assert(walk_edge(g, false, y, po1[i]));
                            } else {
                                assert(po1[i] == po[i]);
                                assert(reached_from_stack_or_later(g, false, sb, po, i));
                                let y = choose|y: Block| #[trigger] walk_edge(g, false, y, po[i]) && (sb.contains(y) || exists|j: int| i < j < po.len() && po[j] == y);
                                if sb.contains(y) {
                                    if y == b {
                                        assert(po1[po.len() as int] == y);
                                    } else {
                                        let q = sb.index_of(y);
                                        assert(q != len - 1);
                                        assert(stack_blocks(st1)[q] == y);
                                    }
                                } else {
                                    let j = choose|j: int| i < j < po.len() && po[j] == y;
                                    assert(po1[j] == y);
                                }
                                assert(walk_edge(g, false, y, po1[i]));
                            }
                        }
                        if st1.len() == 0 {
                            assert(b == root);
                        }
                    }
                },
            }
        }
        proof {
            let po = self.postorder@;
            let ns = self.nodes@;
            assert forall|x: Block, y: Block| #[trigger] po.contains(x) && #[trigger] walk_edge(g, false, x, y) implies po.contains(y) by {
                assert(ns[y.0 as int].rpo_number != UNDEF);
                assert(Block(y.0 as int as u32) == y);
                assert(!stack_blocks(self.stack@).contains(y));
            }
            assert forall|i: int| 0 <= i < po.len() - 1 implies #[trigger] reached_from_later(g, false, po, i) by {
                assert(po[i] != root) by {
                    assert(po[po.len() - 1] == root);
                }
                assert(reached_from_stack_or_later(g, false, stack_blocks(self.stack@), po, i));
                let y = choose|y: Block| #[trigger] walk_edge(g, false, y, po[i]) && (stack_blocks(self.stack@).contains(y) || exists|j: int| i < j < po.len() && po[j] == y);
                let j = choose|j: int| i < j < po.len() && po[j] == y;
                assert(walk_edge(g, false, po[j], po[i]));
            }
            assert forall|v: int| 0 <= v < n implies (#[trigger] ns[v]).rpo_number == (if po.contains(Block(v as u32)) { DONE } else { UNDEF }) by {
                assert(!stack_blocks(self.stack@).contains(Block(v as u32)));
            }
        }
    }

    /// Fill `self.reverse_nodes` with unvisited nodes for `n` blocks and compute a
    /// postorder of the blocks from which `root` (the exit) is reachable, walking the
    /// predecessor edges. During this only, `rpo_number` holds UNDEF (not reached), SEEN
    /// (pushed, predecessors not yet pushed) and DONE (predecessors pushed).
    fn compute_reverse_postorder(&mut self, n: usize, root: Option<Block>, cfg: &ControlFlowGraph)
        requires
            cfg.wf(),
            n == cfg@.len(),
            root matches Some(r) ==> r.0 < n,
            old(self).stack@.len() == 0,
            old(self).reverse_nodes@.len() == 0,
            old(self).postorder@.len() == 0,
        ensures
            final(self).stack@.len() == 0,
            final(self).nodes == old(self).nodes,
            final(self).reverse_nodes@.len() == n,
            root is None ==> final(self).postorder@.len() == 0,
            root matches Some(r) ==> is_dfs_postorder(cfg@, true, r, final(self).postorder@),
            forall|b: int| 0 <= b < n ==> (#[trigger] final(self).reverse_nodes@[b]).idom is None,
            forall|b: int|
                0 <= b < n ==> (#[trigger] final(self).reverse_nodes@[b]).rpo_number == (if final(self).postorder@.contains(
                    Block(b as u32),
                ) {
                    DONE
                } else {
                    UNDEF
                }),
    {
        let ghost g = cfg@;
        proof {
            cfg.lemma_view();
        }
        let mut i: usize = 0;
        while i < n
            invariant
                i <= n,
                self.reverse_nodes@.len() == i,
                forall|b: int| 0 <= b < i ==> #[trigger] self.reverse_nodes@[b] == (DomTreeNode { rpo_number: UNDEF, idom: None }),
                self.stack@.len() == 0,
                self.postorder@.len() == 0,
                self.nodes == old(self).nodes,
            decreases n - i,
        {
            self.reverse_nodes.push(DomTreeNode { rpo_number: UNDEF, idom: None });
            i += 1;
        }
        let root = match root {
            Some(r) => r,
            None => {
                return;
            },
        };
        self.stack.push((root, Successors::empty()));
        self.reverse_nodes.set(root.0 as usize, DomTreeNode { rpo_number: SEEN, idom: None });
        proof {
            assert(Block(root.0 as int as u32) == root);
            assert(stack_blocks(self.stack@) =~= seq![root]);
            let ns = self.reverse_nodes@;
            assert forall|v: int| 0 <= v < n implies {
                let m = (#[trigger] ns[v]).rpo_number;
                &&& m == UNDEF || m == DONE || m == SEEN
                &&& m == SEEN ==> stack_blocks(self.stack@).contains(Block(v as u32)) && !self.postorder@.contains(Block(v as u32))
                &&& m == DONE ==> (stack_blocks(self.stack@).contains(Block(v as u32)) != self.postorder@.contains(Block(v as u32)))
                &&& m == UNDEF ==> !stack_blocks(self.stack@).contains(Block(v as u32)) && !self.postorder@.contains(Block(v as u32))
            } by {
                if v == root.0 as int {
                    assert(stack_blocks(self.stack@)[0] == root);
                } else {
                    assert(Block(v as u32) != root);
                    if stack_blocks(self.stack@).contains(Block(v as u32)) {
                        let q = stack_blocks(self.stack@).index_of(Block(v as u32));
                        assert(q == 0);
                    }
                }
            }
        }
        loop
            invariant_except_break
                self.stack@.len() > 0 ==> stack_blocks(self.stack@)[0] == root,
            invariant
                cfg.wf(),
                g == cfg@,
                n == g.len(),
                n <= u32::MAX,
                root.0 < n,
                forall|b: int, x: Block| 0 <= b < n && #[trigger] g[b].contains(x) ==> x.0 < n,
                self.nodes == old(self).nodes,
                self.reverse_nodes@.len() == n,
                forall|b: int| 0 <= b < n ==> (#[trigger] self.reverse_nodes@[b]).idom is None,
                forall|v: int| 0 <= v < n ==> {
                    let m = (#[trigger] self.reverse_nodes@[v]).rpo_number;
                    &&& m == UNDEF || m == DONE || m == SEEN
                    &&& m == SEEN ==> stack_blocks(self.stack@).contains(Block(v as u32)) && !self.postorder@.contains(Block(v as u32))
                    &&& m == DONE ==> (stack_blocks(self.stack@).contains(Block(v as u32)) != self.postorder@.contains(Block(v as u32)))
                    &&& m == UNDEF ==> !stack_blocks(self.stack@).contains(Block(v as u32)) && !self.postorder@.contains(Block(v as u32))
                },
                forall|k: int| 0 <= k < self.stack@.len() ==> (#[trigger] self.stack@[k]).0.0 < n,
                stack_blocks(self.stack@).no_duplicates(),
                // every stack entry but the root was pushed by a block below it
                forall|k: int|
                    0 <= k < self.stack@.len() && stack_blocks(self.stack@)[k] != root ==> exists|j: int|
                        0 <= j < k && #[trigger] walk_edge(g, true, stack_blocks(self.stack@)[j], #[trigger] stack_blocks(self.stack@)[k]),
                // expanded blocks have all their predecessors reached
                forall|x: int, y: Block| 0 <= x < n && #[trigger] self.reverse_nodes@[x].rpo_number == DONE && #[trigger] walk_edge(g, true, Block(x as u32), y) ==> self.reverse_nodes@[y.0 as int].rpo_number != UNDEF,
                self.postorder@.no_duplicates(),
                forall|i: int| 0 <= i < self.postorder@.len() ==> (#[trigger] self.postorder@[i]).0 < n,
                forall|i: int| 0 <= i < self.postorder@.len() && self.postorder@[i] != root ==> #[trigger] reached_from_stack_or_later(g, true, stack_blocks(self.stack@), self.postorder@, i),
                self.reverse_nodes@[root.0 as int].rpo_number != UNDEF,
                self.stack@.len() == 0 ==> self.postorder@.len() > 0 && self.postorder@.last() == root,
            ensures
                self.stack@.len() == 0,
            decreases 2 * count_rpo(self.reverse_nodes@, UNDEF) + count_rpo(self.reverse_nodes@, SEEN) + self.stack@.len(),
        {
            let ghost measure0 = 2 * count_rpo(self.reverse_nodes@, UNDEF) + count_rpo(self.reverse_nodes@, SEEN) + self.stack@.len();
            let ghost st0 = self.stack@;
            let ghost sb0 = stack_blocks(st0);
            let ghost ns0 = self.reverse_nodes@;
            let ghost po0 = self.postorder@;
            let entry = self.stack.pop();
            let (block, _) = match entry {
                Some(e) => e,
                None => {
                    break;
                },
            };
            let ghost len0 = st0.len() as int;
            let ghost bi = block.0 as int;
            proof {
                assert(block == sb0[len0 - 1]);
                assert(st0[len0 - 1].0 == block);
                assert(Block(bi as u32) == block);
                assert(sb0.contains(block));
                assert(stack_blocks(self.stack@) =~= sb0.drop_last());
            }
            let mark = self.reverse_nodes[block.0 as usize].rpo_number;
            if mark == SEEN {
                self.reverse_nodes.set(block.0 as usize, DomTreeNode { rpo_number: DONE, idom: None });
                self.stack.push((block, Successors::empty()));
                proof {
                    let ns1 = self.reverse_nodes@;
                    assert(ns1 == ns0.update(bi, DomTreeNode { rpo_number: DONE, idom: None }));
                    lemma_count_rpo_update(ns0, bi, DomTreeNode { rpo_number: DONE, idom: None }, UNDEF);
                    lemma_count_rpo_update(ns0, bi, DomTreeNode { rpo_number: DONE, idom: None }, SEEN);
                    assert(stack_blocks(self.stack@) =~= sb0);
                    assert(!po0.contains(block));
                    assert forall|v: int| 0 <= v < n implies {
                        let m = (#[trigger] ns1[v]).rpo_number;
                        &&& m == UNDEF || m == DONE || m == SEEN
                        &&& m == SEEN ==> sb0.contains(Block(v as u32)) && !po0.contains(Block(v as u32))
                        &&& m == DONE ==> (sb0.contains(Block(v as u32)) != po0.contains(Block(v as u32)))
                        &&& m == UNDEF ==> !sb0.contains(Block(v as u32)) && !po0.contains(Block(v as u32))
                    } by {
                        if v != bi {
                            assert(ns1[v] == ns0[v]);
                        }
                    }
                    assert forall|x: int, y: Block| 0 <= x < n && x != block.0 && #[trigger] ns1[x].rpo_number == DONE && #[trigger] walk_edge(g, true, Block(x as u32), y) implies ns1[y.0 as int].rpo_number != UNDEF by {
                        assert(ns1[x] == ns0[x]);
                        assert(ns0[y.0 as int].rpo_number != UNDEF);
                        if y.0 as int != bi {
                            assert(ns1[y.0 as int] == ns0[y.0 as int]);
                        }
                    }
                }
                let preds = cfg.pred_iter(block);
                let mut k: usize = 0;
                while k < preds.len()
                    invariant
                        cfg.wf(),
                        g == cfg@,
                        n == g.len(),
                        root.0 < n,
                        block.0 < n,
                        n <= u32::MAX,
                        bi == block.0,
                        forall|b: int, x: Block| 0 <= b < n && #[trigger] g[b].contains(x) ==> x.0 < n,
                        forall|x: Block| #[trigger] preds@.contains(x) <==> is_pred(g, x, block),
                        k <= preds@.len(),
                        forall|q: int| 0 <= q < k ==> self.reverse_nodes@[(#[trigger] preds@[q]).0 as int].rpo_number != UNDEF,
                        self.nodes == old(self).nodes,
                        self.reverse_nodes@.len() == n,
                        forall|b: int| 0 <= b < n ==> (#[trigger] self.reverse_nodes@[b]).idom is None,
                        forall|v: int| 0 <= v < n ==> {
                            let m = (#[trigger] self.reverse_nodes@[v]).rpo_number;
                            &&& m == UNDEF || m == DONE || m == SEEN
                            &&& m == SEEN ==> stack_blocks(self.stack@).contains(Block(v as u32)) && !self.postorder@.contains(Block(v as u32))
                            &&& m == DONE ==> (stack_blocks(self.stack@).contains(Block(v as u32)) != self.postorder@.contains(Block(v as u32)))
                            &&& m == UNDEF ==> !stack_blocks(self.stack@).contains(Block(v as u32)) && !self.postorder@.contains(Block(v as u32))
                        },
                        forall|q: int| 0 <= q < self.stack@.len() ==> (#[trigger] self.stack@[q]).0.0 < n,
                        stack_blocks(self.stack@).no_duplicates(),
                        self.stack@.len() > 0,
                        stack_blocks(self.stack@)[0] == root,
                        forall|q: int|
                            0 <= q < self.stack@.len() && stack_blocks(self.stack@)[q] != root ==> exists|j: int|
                                0 <= j < q && #[trigger] walk_edge(g, true, stack_blocks(self.stack@)[j], #[trigger] stack_blocks(self.stack@)[q]),
                        forall|x: int, y: Block| 0 <= x < n && x != block.0 && #[trigger] self.reverse_nodes@[x].rpo_number == DONE && #[trigger] walk_edge(g, true, Block(x as u32), y) ==> self.reverse_nodes@[y.0 as int].rpo_number != UNDEF,
                        self.reverse_nodes@[block.0 as int].rpo_number == DONE,
                        stack_blocks(self.stack@).contains(block),
                        self.postorder@ == po0,
                        po0.no_duplicates(),
                        forall|i: int| 0 <= i < self.postorder@.len() ==> (#[trigger] self.postorder@[i]).0 < n,
                        forall|i: int| 0 <= i < self.postorder@.len() && self.postorder@[i] != root ==> #[trigger] reached_from_stack_or_later(g, true, stack_blocks(self.stack@), self.postorder@, i),
                        self.reverse_nodes@[root.0 as int].rpo_number != UNDEF,
                        2 * count_rpo(self.reverse_nodes@, UNDEF) + count_rpo(self.reverse_nodes@, SEEN) + self.stack@.len() + 1
                            <= measure0,
                    decreases preds@.len() - k,
                {
                    let p = preds[k];
                    proof {
                        assert(preds@.contains(p));
                        assert(g[p.0 as int].contains(block));
                    }
                    if self.reverse_nodes[p.0 as usize].rpo_number == UNDEF {
                        let ghost nsa = self.reverse_nodes@;
                        let ghost sta = self.stack@;
                        let ghost sba = stack_blocks(sta);
                        self.reverse_nodes.set(p.0 as usize, DomTreeNode { rpo_number: SEEN, idom: None });
                        self.stack.push((p, Successors::empty()));
                        proof {
                            let pi = p.0 as int;
                            assert(Block(pi as u32) == p);
                            let nsb = self.reverse_nodes@;
                            let sbb = stack_blocks(self.stack@);
                            assert(nsb == nsa.update(pi, DomTreeNode { rpo_number: SEEN, idom: None }));
                            lemma_count_rpo_update(nsa, pi, DomTreeNode { rpo_number: SEEN, idom: None }, UNDEF);
                            lemma_count_rpo_update(nsa, pi, DomTreeNode { rpo_number: SEEN, idom: None }, SEEN);
                            assert(sbb =~= sba.push(p));
                            assert(!sba.contains(p));
                            assert(p != root);
                            assert forall|v: int| 0 <= v < n implies {
                                let m = (#[trigger] nsb[v]).rpo_number;
                                &&& m == UNDEF || m == DONE || m == SEEN
                                &&& m == SEEN ==> sbb.contains(Block(v as u32)) && !po0.contains(Block(v as u32))
                                &&& m == DONE ==> (sbb.contains(Block(v as u32)) != po0.contains(Block(v as u32)))
                                &&& m == UNDEF ==> !sbb.contains(Block(v as u32)) && !po0.contains(Block(v as u32))
                            } by {
                                if v != pi {
                                    assert(nsb[v] == nsa[v]);
                                    assert(Block(v as u32) != p);
                                    if sba.contains(Block(v as u32)) {
                                        let q = sba.index_of(Block(v as u32));
                                        assert(sbb[q] == Block(v as u32));
                                    }
                                    if sbb.contains(Block(v as u32)) {
                                        let q = sbb.index_of(Block(v as u32));
                                        assert(q < sba.len());
                                        assert(sba[q] == Block(v as u32));
                                    }
                                } else {
                                    assert(sbb[sba.len() as int] == p);
                                }
                            }
                            assert forall|q: int| 0 <= q < self.stack@.len() implies (#[trigger] self.stack@[q]).0.0 < n by {
                                if q < sta.len() {
                                    assert(self.stack@[q] == sta[q]);
                                }
                            }
                            assert forall|q: int|
                                0 <= q < self.stack@.len() && sbb[q] != root implies exists|j: int|
                                    0 <= j < q && #[trigger] walk_edge(g, true, sbb[j], #[trigger] sbb[q]) by {
                                if q < sba.len() {
                                    assert(sbb[q] == sba[q]);
                                    let j = choose|j: int| 0 <= j < q && #[trigger] walk_edge(g, true, sba[j], #[trigger] sba[q]);
                                    assert(sbb[j] == sba[j]);
                                } else {
                                    let j = sba.index_of(block);
                                    assert(sbb[j] == block);
                                    assert(walk_edge(g, true, sbb[j], sbb[q]));
                                }
                            }
                            assert forall|x: int, y: Block| 0 <= x < n && x != block.0 && #[trigger] nsb[x].rpo_number == DONE && #[trigger] walk_edge(g, true, Block(x as u32), y) implies nsb[y.0 as int].rpo_number != UNDEF by {
                                assert(x != pi);
                                assert(nsb[x] == nsa[x]);
                                assert(nsa[y.0 as int].rpo_number != UNDEF);
                                if y.0 as int != pi {
                                    assert(nsb[y.0 as int] == nsa[y.0 as int]);
                                }
                            }
                            assert forall|q: int| 0 <= q < k + 1 implies nsb[(#[trigger] preds@[q]).0 as int].rpo_number != UNDEF by {
                                assert(preds@.contains(preds@[q]));
                                if q < k && preds@[q].0 as int != pi {
                                    assert(nsb[preds@[q].0 as int] == nsa[preds@[q].0 as int]);
                                }
                            }
                            assert forall|i: int| 0 <= i < po0.len() && po0[i] != root implies #[trigger] reached_from_stack_or_later(g, true, sbb, po0, i) by {
                                assert(reached_from_stack_or_later(g, true, sba, po0, i));
                                let y = choose|y: Block| #[trigger] walk_edge(g, true, y, po0[i]) && (sba.contains(y) || exists|j: int| i < j < po0.len() && po0[j] == y);
                                if sba.contains(y) {
                                    let q = sba.index_of(y);
                                    assert(sbb[q] == y);
                                }
                            }
                            assert(sbb[0] == root);
                            assert(sbb.contains(block)) by {
                                let q = sba.index_of(block);
                                assert(sbb[q] == block);
                            }
                        }
                    }
                    k += 1;
                }
                proof {
                    let ns2 = self.reverse_nodes@;
                    assert forall|x: int, y: Block| 0 <= x < n && #[trigger] ns2[x].rpo_number == DONE && #[trigger] walk_edge(g, true, Block(x as u32), y) implies ns2[y.0 as int].rpo_number != UNDEF by {
                        if x == bi {
                            assert(Block(x as u32) == block);
                            assert(preds@.contains(y));
                            let q = preds@.index_of(y);
                            assert(ns2[preds@[q].0 as int].rpo_number != UNDEF);
                        }
                    }
                }
            } else {
                self.postorder.push(block);
                proof {
                    let sb1 = stack_blocks(self.stack@);
                    let po1 = self.postorder@;
                    assert(sb1 =~= sb0.drop_last());
                    assert(ns0[bi].rpo_number == DONE);
                    assert(!po0.contains(block));
                    assert(!sb1.contains(block)) by {
                        if sb1.contains(block) {
                            let q = sb1.index_of(block);
                            assert(sb0[q] == block);
                        }
                    }
                    assert forall|v: int| 0 <= v < n implies {
                        let m = (#[trigger] ns0[v]).rpo_number;
                        &&& m == UNDEF || m == DONE || m == SEEN
                        &&& m == SEEN ==> sb1.contains(Block(v as u32)) && !po1.contains(Block(v as u32))
                        &&& m == DONE ==> (sb1.contains(Block(v as u32)) != po1.contains(Block(v as u32)))
                        &&& m == UNDEF ==> !sb1.contains(Block(v as u32)) && !po1.contains(Block(v as u32))
                    } by {
                        if v != bi {
                            assert(Block(v as u32) != block);
                            if sb0.contains(Block(v as u32)) {
                                let q = sb0.index_of(Block(v as u32));
                                assert(q != len0 - 1);
                                assert(sb1[q] == Block(v as u32));
                            }
                            if sb1.contains(Block(v as u32)) {
                                let q = sb1.index_of(Block(v as u32));
                                assert(sb0[q] == Block(v as u32));
                            }
                            if po0.contains(Block(v as u32)) {
                                let q = po0.index_of(Block(v as u32));
                                assert(po1[q] == Block(v as u32));
                            }
                            if po1.contains(Block(v as u32)) {
                                let q = po1.index_of(Block(v as u32));
                                assert(q < po0.len());
                                assert(po0[q] == Block(v as u32));
                            }
                        } else {
                            assert(po1[po0.len() as int] == block);
                        }
                    }
                    assert forall|q: int| 0 <= q < self.stack@.len() implies (#[trigger] self.stack@[q]).0.0 < n by {
                        assert(self.stack@[q] == st0[q]);
                    }
                    assert forall|q: int|
                        0 <= q < self.stack@.len() && sb1[q] != root implies exists|j: int|
                            0 <= j < q && #[trigger] walk_edge(g, true, sb1[j], #[trigger] sb1[q]) by {
                        assert(sb1[q] == sb0[q]);
                        let j = choose|j: int| 0 <= j < q && #[trigger] walk_edge(g, true, sb0[j], #[trigger] sb0[q]);
                        assert(sb1[j] == sb0[j]);
                    }
                    assert(po1.no_duplicates()) by {
                        assert forall|a: int, c: int| 0 <= a < po1.len() && 0 <= c < po1.len() && a != c implies po1[a] != po1[c] by {
                            if a < po0.len() && c < po0.len() {
                            } else if a == po0.len() {
                                assert(po1[c] == po0[c]);
                                assert(po0.contains(po0[c]));
                            } else {
                                assert(po1[a] == po0[a]);
                                assert(po0.contains(po0[a]));
                            }
                        }
                    }
                    assert forall|i: int| 0 <= i < po1.len() implies (#[trigger] po1[i]).0 < n by {
                        if i < po0.len() {
                            assert(po1[i] == po0[i]);
                        }
                    }
                    assert forall|i: int| 0 <= i < po1.len() && po1[i] != root implies #[trigger] reached_from_stack_or_later(g, true, sb1, po1, i) by {
                        if i == po0.len() {
                            assert(po1[i] == block);
                            let j = choose|j: int| 0 <= j < len0 - 1 && #[trigger] walk_edge(g, true, sb0[j], #[trigger] sb0[len0 - 1]);
                            assert(sb1[j] == sb0[j]);
                            assert(walk_edge(g, true, sb1[j], po1[i]));
                        } else {
                            assert(po1[i] == po0[i]);
                            assert(reached_from_stack_or_later(g, true, sb0, po0, i));
                            let y = choose|y: Block| #[trigger] walk_edge(g, true, y, po0[i]) && (sb0.contains(y) || exists|j: int| i < j < po0.len() && po0[j] == y);
                            if sb0.contains(y) {
                                if y == block {
                                    assert(po1[po0.len() as int] == y);
                                } else {
                                    let q = sb0.index_of(y);
                                    assert(q != len0 - 1);
                                    assert(sb1[q] == y);
                                }
                            } else {
                                let j = choose|j: int| i < j < po0.len() && po0[j] == y;
                                assert(po1[j] == y);
                            }
                            assert(walk_edge(g, true, y, po1[i]));
                        }
                    }
                    if self.stack@.len() == 0 {
                        assert(block == root);
                    }
                }
            }
        }
        proof {
            let po = self.postorder@;
            let ns = self.reverse_nodes@;
            let sb = stack_blocks(self.stack@);
            assert forall|x: Block, y: Block| #[trigger] po.contains(x) && #[trigger] walk_edge(g, true, x, y) implies po.contains(y) by {
                let q = po.index_of(x);
                assert(po[q].0 < n);
                assert(Block(x.0 as int as u32) == x);
                assert(ns[x.0 as int].rpo_number == DONE);
                assert(ns[y.0 as int].rpo_number != UNDEF);
                assert(Block(y.0 as int as u32) == y);
                assert(!sb.contains(y));
            }
            assert forall|i: int| 0 <= i < po.len() - 1 implies #[trigger] reached_from_later(g, true, po, i) by {
                assert(po[i] != root) by {
                    assert(po[po.len() - 1] == root);
                }
                assert(reached_from_stack_or_later(g, true, sb, po, i));
                let y = choose|y: Block| #[trigger] walk_edge(g, true, y, po[i]) && (sb.contains(y) || exists|j: int| i < j < po.len() && po[j] == y);
                let j = choose|j: int| i < j < po.len() && po[j] == y;
                assert(walk_edge(g, true, po[j], po[i]));
            }
            assert forall|v: int| 0 <= v < n implies (#[trigger] ns[v]).rpo_number == (if po.contains(Block(v as u32)) { DONE } else { UNDEF }) by {
                assert(!sb.contains(Block(v as u32)));
            }
        }
    }
}

impl DominatorTree {
    /// The traversal stack is empty between calls, and both trees are closed.
    pub closed spec fn wf(&self) -> bool {
        &&& self.stack@.len() == 0
        &&& tree_closed(self.nodes@)
        &&& tree_closed(self.reverse_nodes@)
    }

    /// A blank dominator tree; `compute` fills it.
    pub fn new() -> (r: Self)
        ensures
            r.wf(),
            r.spec_nodes().len() == 0,
            r.spec_reverse_nodes().len() == 0,
            r.spec_postorder().len() == 0,
    {
        DominatorTree { nodes: Vec::new(), reverse_nodes: Vec::new(), postorder: Vec::new(), stack: Vec::new() }
    }

    /// Forget both trees and the postorder.
    pub fn clear(&mut self)
        requires
            old(self).wf(),
        ensures
            final(self).wf(),
            final(self).spec_nodes().len() == 0,
            final(self).spec_reverse_nodes().len() == 0,
            final(self).spec_postorder().len() == 0,
    {
        self.nodes.clear();
        self.reverse_nodes.clear();
        self.postorder.clear();
    }

    /// The postorder of the blocks reachable from the entry that the dominator tree was
    /// built from (not updated when the graph changes).
    pub fn cfg_postorder(&self) -> (r: &[Block])
        ensures
            r@ == self.spec_postorder(),
    {
        self.postorder.as_slice()
    }

    /// The immediate dominator of `block`.
    pub fn idom(&self, block: Block) -> (r: Option<Block>)
        requires
            block.0 < self.spec_nodes().len(),
        ensures
            r == self.spec_nodes()[block.0 as int].idom,
    {
        self.nodes[block.0 as usize].idom
    }

    /// The immediate post-dominator of `block`.
    pub fn ipdom(&self, block: Block) -> (r: Option<Block>)
        requires
            block.0 < self.spec_reverse_nodes().len(),
        ensures
            r == self.spec_reverse_nodes()[block.0 as int].idom,
    {
        self.reverse_nodes[block.0 as usize].idom
    }

    /// Does `dominator` dominate `block`?
    pub fn dominates(&self, block: Block, dominator: Block) -> (r: bool)
        requires
            self.wf(),
            block.0 < self.spec_nodes().len(),
            dominator.0 < self.spec_nodes().len(),
        ensures
            r == spec_dominates(self.spec_nodes(), block, dominator),
    {
        dominates_(&self.nodes, block, dominator)
    }

    /// Does `dominator` post-dominate `block`?
    pub fn post_dominates(&self, block: Block, dominator: Block) -> (r: bool)
        requires
            self.wf(),
            block.0 < self.spec_reverse_nodes().len(),
            dominator.0 < self.spec_reverse_nodes().len(),
        ensures
            r == spec_dominates(self.spec_reverse_nodes(), block, dominator),
    {
        dominates_(&self.reverse_nodes, block, dominator)
    }

    /// Compute, as asked, the post-dominator tree (from the exit block `exit`), the
    /// postorder of the control flow graph from the function's entry block, and the
    /// dominator tree built from it.
    pub fn compute(
        &mut self,
        func: &Function,
        cfg: &ControlFlowGraph,
        exit: Option<Block>,
        dom: bool,
        pdom: bool,
        postorder: bool,
    )
        requires
            old(self).wf(),
            func.layout.wf(),
            cfg.wf(),
            cfg@.len() == func.layout@.num_blocks(),
            cfg@.len() < u32::MAX,
            exit matches Some(e) ==> e.0 < cfg@.len(),
        ensures
            final(self).wf(),
            ({
                let entry = crate::layout::opt_first(func.layout@.order);
                let po = final(self).spec_postorder();
                &&& (dom || postorder) ==> match entry {
                    Some(e) => is_dfs_postorder(cfg@, false, e, po),
                    None => po.len() == 0,
                }
                &&& !(dom || postorder) ==> po.len() == 0 && final(self).spec_nodes().len() == 0
                &&& dom ==> is_dom_tree(final(self).spec_nodes(), cfg@, false, po)
                &&& postorder && !dom ==> final(self).spec_nodes().len() == cfg@.len() && forall|b: int|
                    0 <= b < cfg@.len() ==> #[trigger] final(self).spec_nodes()[b] == (DomTreeNode {
                        rpo_number: if po.contains(Block(b as u32)) { DONE } else { UNDEF },
                        idom: None,
                    })
            }),
            pdom ==> exists|rpo: Seq<Block>|
                {
                    &&& (match exit {
                        Some(e) => is_dfs_postorder(cfg@, true, e, rpo),
                        None => rpo.len() == 0,
                    })
                    &&& is_dom_tree(final(self).spec_reverse_nodes(), cfg@, true, rpo)
                },
            !pdom ==> final(self).spec_reverse_nodes().len() == 0,
    {
        self.clear();
        let n = func.layout.num_blocks();
        proof {
            func.layout.lemma_valid();
        }
        if pdom {
            self.compute_reverse_postorder(n, exit, cfg);
            let ghost rpo = self.postorder@;
            compute_domtree(&mut self.reverse_nodes, &self.postorder, true, cfg);
            proof {
                lemma_dom_tree_closed(self.reverse_nodes@, cfg@, true, rpo);
            }
            self.postorder.clear();
        }
        let entry = func.layout.entry_block();
        proof {
            if func.layout@.order.len() > 0 {
                assert(func.layout@.order[0].0 < func.layout@.num_blocks());
            }
        }
        if dom || postorder {
            self.compute_postorder(n, entry, cfg);
            proof {
                if !dom {
                    assert(tree_closed(self.nodes@));
                }
            }
        }
        if dom {
            compute_domtree(&mut self.nodes, &self.postorder, false, cfg);
            proof {
                lemma_dom_tree_closed(self.nodes@, cfg@, false, self.postorder@);
            }
        }
    }
}

/// `m` is an `n` by `n` matrix.
pub open spec fn is_matrix(m: Seq<Vec<bool>>, n: int) -> bool {
    &&& m.len() == n
    &&& forall|i: int| 0 <= i < n ==> (#[trigger] m[i])@.len() == n
}

/// Block `b` has two distinct predecessors.
pub open spec fn has_join(g: Seq<Seq<Block>>, b: Block) -> bool {
    exists|p: Block, q: Block| p != q && #[trigger] is_pred(g, p, b) && #[trigger] is_pred(g, q, b)
}

/// Block `b` is in the dominance frontier of block `x`: `b` is a join point, and `x`
/// lies on the walk up the tree from a predecessor of `b` to the immediate dominator of `b`.
pub open spec fn dom_frontier(ns: Seq<DomTreeNode>, g: Seq<Seq<Block>>, x: Block, b: Block) -> bool {
    has_join(g, b) && exists|p: Block| #[trigger] is_pred(g, p, b) && on_walk(ns, p, ns[b.0 as int].idom, x)
}

/// Block `b` is in the post-dominance frontier of block `x`: `b` branches to two
/// successors, and `x` lies on the walk up the post-dominator tree from one of them to
/// the immediate post-dominator of `b`.
pub open spec fn postdom_frontier(ns: Seq<DomTreeNode>, g: Seq<Seq<Block>>, x: Block, b: Block) -> bool {
    let s = g[b.0 as int];
    s.len() == 2 && (on_walk(ns, s[0], ns[b.0 as int].idom, x) || on_walk(ns, s[1], ns[b.0 as int].idom, x))
}

/// `x` strictly dominates `b` in the tree `ns`: it dominates `b` and is another block.
pub open spec fn strictly_dominates(ns: Seq<DomTreeNode>, x: Block, b: Block) -> bool {
    x != b && spec_dominates(ns, b, x)
}

/// Walking up from `p` until `end`, an ancestor of `p`, visits exactly the blocks that
/// dominate `p` and not `end`.
proof fn lemma_walk_ancestors(ns: Seq<DomTreeNode>, p: Block, end: Option<Block>, x: Block)
    requires
        end matches Some(i) ==> spec_dominates(ns, p, i),
    ensures
        on_walk(ns, p, end, x) == (spec_dominates(ns, p, x) && !(end matches Some(i) && spec_dominates(ns, i, x))),
    decreases ns[p.0 as int].rpo_number,
{
    if Some(p) != end && x != p {
        match ns[p.0 as int].idom {
            Some(q) => {
                if ns[q.0 as int].rpo_number < ns[p.0 as int].rpo_number {
                    lemma_walk_ancestors(ns, q, end, x);
                    if spec_dominates(ns, q, x) {
                        lemma_dominator_number(ns, q, x);
                    }
                }
            },
            None => {},
        }
    }
}

/// A block below which a numbered block lies in a closed tree is numbered.
proof fn lemma_dominator_numbered(ns: Seq<DomTreeNode>, v: Block, d: Block)
    requires
        tree_closed(ns),
        v.0 < ns.len(),
        ns[v.0 as int].rpo_number >= 2,
        spec_dominates(ns, v, d),
    ensures
        ns[d.0 as int].rpo_number >= 2,
    decreases ns[v.0 as int].rpo_number,
{
    if ns[v.0 as int].rpo_number > ns[d.0 as int].rpo_number {
        let q = ns[v.0 as int].idom.unwrap();
        lemma_dominator_numbered(ns, q, d);
    }
}

/// The walk that marks `b` from its predecessor `p` visits exactly the blocks that
/// dominate `p` without strictly dominating `b`, when the immediate dominator of `b`, if
/// any, is numbered below `b` and dominates `p`, or `p` is not in the tree.
proof fn lemma_frontier_walk(ns: Seq<DomTreeNode>, p: Block, b: Block, x: Block)
    requires
        tree_closed(ns),
        p.0 < ns.len(),
        b.0 < ns.len(),
        ns[b.0 as int].idom matches Some(i) ==> {
            &&& 2 <= ns[i.0 as int].rpo_number < ns[b.0 as int].rpo_number
            &&& spec_dominates(ns, p, i) || ns[p.0 as int] == (DomTreeNode { rpo_number: UNDEF, idom: None })
        },
    ensures
        on_walk(ns, p, ns[b.0 as int].idom, x) == (spec_dominates(ns, p, x) && !strictly_dominates(ns, x, b)),
{
    match ns[b.0 as int].idom {
        None => {
            lemma_walk_ancestors(ns, p, None, x);
        },
        Some(i) => {
            if spec_dominates(ns, i, x) {
                lemma_dominator_number(ns, i, x);
            }
            assert(strictly_dominates(ns, x, b) == spec_dominates(ns, i, x));
            if spec_dominates(ns, p, i) {
                lemma_walk_ancestors(ns, p, Some(i), x);
            } else {
                if x == p && spec_dominates(ns, i, x) {
                    lemma_dominator_numbered(ns, i, x);
                }
            }
        },
    }
}

/// A block outside `po` is untouched; one with an immediate dominator lies in `po`, is
/// numbered above 2, and its immediate dominator is numbered from 2 and below it.
proof fn lemma_numbered_node(ns: Seq<DomTreeNode>, po: Seq<Block>, b: Block)
    requires
        numbered(ns, po, 0),
        tree_closed(ns),
        b.0 < ns.len(),
    ensures
        !po.contains(b) ==> ns[b.0 as int] == (DomTreeNode { rpo_number: UNDEF, idom: None }),
        ns[b.0 as int].idom matches Some(i) ==> po.contains(b) && ns[b.0 as int].rpo_number > 2 && 2 <= ns[i.0 as int].rpo_number
            < ns[b.0 as int].rpo_number,
{
    assert(Block(b.0 as int as u32) == b);
}

/// In a dominator tree, the immediate dominator of a block is numbered below it and
/// dominates each of its predecessors in the tree, or that predecessor is unreachable.
#[verifier::rlimit(30)]
proof fn lemma_idom_over_pred(ns: Seq<DomTreeNode>, cfg: &ControlFlowGraph, root: Block, po: Seq<Block>, p: Block, b: Block)
    requires
        cfg.wf(),
        is_dom_tree(ns, cfg@, false, po),
        is_dfs_postorder(cfg@, false, root, po),
        b.0 < cfg@.len(),
        is_pred(cfg@, p, b),
    ensures
        tree_closed(ns),
        ns[b.0 as int].idom matches Some(i) ==> {
            &&& 2 <= ns[i.0 as int].rpo_number < ns[b.0 as int].rpo_number
            &&& spec_dominates(ns, p, i) || ns[p.0 as int] == (DomTreeNode { rpo_number: UNDEF, idom: None })
        },
{
    lemma_dom_tree_closed(ns, cfg@, false, po);
    if let Some(i) = ns[b.0 as int].idom {
        assert(po.contains(b) && ns[b.0 as int].rpo_number > 2 && 2 <= ns[i.0 as int].rpo_number < ns[b.0 as int].rpo_number) by {
            lemma_numbered_node(ns, po, b);
        }
        if po.contains(p) {
            assert(spec_dominates(ns, p, i)) by {
                assert(spec_dominates(ns, i, i));
                assert(spec_dominates(ns, b, i));
                lemma_tree_dominates_iff_on_every_path(ns, cfg, false, root, po, b, i);
                lemma_on_every_path_pred(cfg@, false, root, b, p, i);
                if i != p {
                    lemma_tree_dominates_iff_on_every_path(ns, cfg, false, root, po, p, i);
                }
            }
        } else {
            lemma_numbered_node(ns, po, p);
        }
    }
}

/// The dominance frontier is the textbook one: `b` is in the frontier of `x` exactly when
/// `b` is a join point and `x` dominates a predecessor of `b` without strictly dominating
/// `b` (dominance in the tree, which on the reachable blocks is lying on every path from
/// the entry, see [`lemma_tree_dominates_iff_on_every_path`]).
pub proof fn lemma_dom_frontier_definition(ns: Seq<DomTreeNode>, cfg: &ControlFlowGraph, root: Block, po: Seq<Block>, x: Block, b: Block)
    requires
        cfg.wf(),
        is_dom_tree(ns, cfg@, false, po),
        is_dfs_postorder(cfg@, false, root, po),
        b.0 < cfg@.len(),
        x.0 < cfg@.len(),
    ensures
        dom_frontier(ns, cfg@, x, b) <==> has_join(cfg@, b) && exists|p: Block|
            #[trigger] is_pred(cfg@, p, b) && spec_dominates(ns, p, x) && !strictly_dominates(ns, x, b),
{
    assert forall|p: Block| #[trigger] is_pred(cfg@, p, b) implies on_walk(ns, p, ns[b.0 as int].idom, x) == (
    spec_dominates(ns, p, x) && !strictly_dominates(ns, x, b)) by {
        lemma_idom_over_pred(ns, cfg, root, po, p, b);
        lemma_frontier_walk(ns, p, b, x);
    }
}

/// An `n` by `n` matrix of `false`.
fn empty_matrix(n: usize) -> (r: Vec<Vec<bool>>)
    ensures
        is_matrix(r@, n as int),
        forall|i: int, j: int| 0 <= i < n && 0 <= j < n ==> !#[trigger] r@[i]@[j],
{
    let mut r: Vec<Vec<bool>> = Vec::new();
    let mut i: usize = 0;
    while i < n
        invariant
            i <= n,
            r@.len() == i,
            forall|k: int| 0 <= k < i ==> (#[trigger] r@[k])@.len() == n,
            forall|k: int, j: int| 0 <= k < i && 0 <= j < n ==> !#[trigger] r@[k]@[j],
        decreases n - i,
    {
        let mut row: Vec<bool> = Vec::new();
        let mut j: usize = 0;
        while j < n
            invariant
                j <= n,
                row@.len() == j,
                forall|q: int| 0 <= q < j ==> !#[trigger] row@[q],
            decreases n - j,
        {
            row.push(false);
            j += 1;
        }
        r.push(row);
        i += 1;
    }
    r
}

/// Mark `bb` in the frontier of every block on the walk up from `pos` to the immediate
/// dominator of `bb`.
fn propagate_dom_frontiers(nodes: &Vec<DomTreeNode>, pos: Block, bb: Block, dst: &mut Vec<Vec<bool>>)
    requires
        tree_closed(nodes@),
        pos.0 < nodes@.len(),
        bb.0 < nodes@.len(),
        is_matrix(old(dst)@, nodes@.len() as int),
    ensures
        is_matrix(final(dst)@, nodes@.len() as int),
        forall|x: int, y: int|
            0 <= x < nodes@.len() && 0 <= y < nodes@.len() ==> #[trigger] final(dst)@[x]@[y] == (old(dst)@[x]@[y] || (y
                == bb.0 && on_walk(nodes@, pos, nodes@[bb.0 as int].idom, Block(x as u32)))),
{
    let ghost ns = nodes@;
    let ghost n = ns.len() as int;
    let ghost d0 = dst@;
    let end = nodes[bb.0 as usize].idom;
    let mut p = pos;
    let ghost mut vis: Set<Block> = Set::empty();
    loop
        invariant
            ns == nodes@,
            n == ns.len(),
            n < u32::MAX,
            tree_closed(ns),
            p.0 < n,
            bb.0 < n,
            end == ns[bb.0 as int].idom,
            is_matrix(dst@, n),
            forall|x: Block| #[trigger] on_walk(ns, pos, end, x) <==> (vis.contains(x) || on_walk(ns, p, end, x)),
            forall|x: int, y: int|
                0 <= x < n && 0 <= y < n ==> #[trigger] dst@[x]@[y] == (d0[x]@[y] || (y == bb.0 && vis.contains(Block(x as u32)))),
        ensures
            is_matrix(dst@, n),
            forall|x: int, y: int|
                0 <= x < n && 0 <= y < n ==> #[trigger] dst@[x]@[y] == (d0[x]@[y] || (y == bb.0 && on_walk(ns, pos, end, Block(x as u32)))),
        decreases ns[p.0 as int].rpo_number,
    {
        let at_end = match end {
            Some(e) => e.0 == p.0,
            None => false,
        };
        if at_end {
            proof {
                assert(Some(p) == end);
                assert forall|x: Block| #[trigger] on_walk(ns, pos, end, x) <==> vis.contains(x) by {
                    assert(!on_walk(ns, p, end, x));
                }
            }
            break;
        }
        let ghost before = dst@;
        let mut row = dst[p.0 as usize].clone();
        proof {
            assert(row@ =~= before[p.0 as int]@);
        }
        row.set(bb.0 as usize, true);
        dst.set(p.0 as usize, row);
        proof {
            assert(Block(p.0 as int as u32) == p);
            assert(Some(p) != end);
            vis = vis.insert(p);
            assert forall|x: int, y: int|
                0 <= x < n && 0 <= y < n implies #[trigger] dst@[x]@[y] == (d0[x]@[y] || (y == bb.0 && vis.contains(Block(x as u32)))) by {
                if x != p.0 {
                    assert(dst@[x] == before[x]);
                    assert(Block(x as u32) != p);
                } else {
                    assert(Block(x as u32) == p);
                }
            }
        }
        match nodes[p.0 as usize].idom {
            Some(q) => {
                proof {
                    assert(ns[p.0 as int].rpo_number > 2);
                    assert forall|x: Block| #[trigger] on_walk(ns, pos, end, x) <==> (vis.contains(x) || on_walk(ns, q, end, x)) by {
                        assert(on_walk(ns, p, end, x) == (x == p || on_walk(ns, q, end, x)));
                    }
                }
                p = q;
            },
            None => {
                proof {
                    assert forall|x: Block| #[trigger] on_walk(ns, pos, end, x) <==> vis.contains(x) by {
                        assert(on_walk(ns, p, end, x) == (x == p));
                    }
                }
                break;
            },
        }
    }
}

impl DominatorTree {
    /// The dominance frontiers: `dst[x][b]` holds exactly when `b` is in the dominance
    /// frontier of `x`.
    pub fn compute_dom_frontiers(&self, cfg: &ControlFlowGraph, dst: &mut Vec<Vec<bool>>)
        requires
            self.wf(),
            cfg.wf(),
            self.spec_nodes().len() == cfg@.len(),
        ensures
            is_matrix(final(dst)@, cfg@.len() as int),
            forall|x: int, b: int|
                0 <= x < cfg@.len() && 0 <= b < cfg@.len() ==> #[trigger] final(dst)@[x]@[b] == dom_frontier(
                    self.spec_nodes(),
                    cfg@,
                    Block(x as u32),
                    Block(b as u32),
                ),
    {
        let ghost ns = self.nodes@;
        let ghost g = cfg@;
        let n = self.nodes.len();
        *dst = empty_matrix(n);
        let mut bb: usize = 0;
        while bb < n
            invariant
                self.wf(),
                cfg.wf(),
                ns == self.nodes@,
                g == cfg@,
                n == ns.len(),
                n == g.len(),
                n < u32::MAX,
                bb <= n,
                is_matrix(dst@, n as int),
                forall|x: int, b: int| 0 <= x < n && 0 <= b < n ==> #[trigger] dst@[x]@[b] == (b < bb && dom_frontier(ns, g, Block(x as u32), Block(b as u32))),
            decreases n - bb,
        {
            let b = Block(bb as u32);
            let preds = cfg.pred_iter(b);
            let ghost d1 = dst@;
            if preds.len() >= 2 {
                let mut k: usize = 0;
                while k < preds.len()
                    invariant
                        self.wf(),
                        ns == self.nodes@,
                        n == ns.len(),
                        n == g.len(),
                        n < u32::MAX,
                        bb < n,
                        b == Block(bb as u32),
                        forall|x: Block| #[trigger] preds@.contains(x) <==> is_pred(g, x, b),
                        k <= preds@.len(),
                        is_matrix(dst@, n as int),
                        forall|x: int, y: int| 0 <= x < n && 0 <= y < n ==> #[trigger] dst@[x]@[y] == (d1[x]@[y] || (y == bb && exists|q: int| 0 <= q < k && on_walk(ns, #[trigger] preds@[q], ns[bb as int].idom, Block(x as u32)))),
                    decreases preds@.len() - k,
                {
                    let p = preds[k];
                    proof {
                        assert(preds@.contains(p));
                    }
                    let ghost d2 = dst@;
                    propagate_dom_frontiers(&self.nodes, p, b, dst);
                    proof {
                        assert forall|x: int, y: int| 0 <= x < n && 0 <= y < n implies #[trigger] dst@[x]@[y] == (d1[x]@[y] || (y == bb && exists|q: int| 0 <= q < k + 1 && on_walk(ns, #[trigger] preds@[q], ns[bb as int].idom, Block(x as u32)))) by {
                            if y == bb && on_walk(ns, p, ns[bb as int].idom, Block(x as u32)) {
                                assert(preds@[k as int] == p);
                            }
                            if exists|q: int| 0 <= q < k + 1 && on_walk(ns, #[trigger] preds@[q], ns[bb as int].idom, Block(x as u32)) {
                                let q = choose|q: int| 0 <= q < k + 1 && on_walk(ns, #[trigger] preds@[q], ns[bb as int].idom, Block(x as u32));
                                if q == k {
                                } else {
                                    assert(exists|q2: int| 0 <= q2 < k && on_walk(ns, #[trigger] preds@[q2], ns[bb as int].idom, Block(x as u32)));
                                }
                            }
                        }
                    }
                    k += 1;
                }
                proof {
                    assert(preds@[0] != preds@[1]);
                    assert(preds@.contains(preds@[0]) && preds@.contains(preds@[1]));
                    assert(is_pred(g, preds@[0], b) && is_pred(g, preds@[1], b));
                    assert(has_join(g, b));
                    assert forall|x: int, y: int| 0 <= x < n && 0 <= y < n implies #[trigger] dst@[x]@[y] == (y < bb + 1 && dom_frontier(ns, g, Block(x as u32), Block(y as u32))) by {
                        if y == bb {
                            assert(Block(y as u32) == b);
                            if exists|p: Block| #[trigger] is_pred(g, p, b) && on_walk(ns, p, ns[b.0 as int].idom, Block(x as u32)) {
                                let p = choose|p: Block| #[trigger] is_pred(g, p, b) && on_walk(ns, p, ns[b.0 as int].idom, Block(x as u32));
                                assert(preds@.contains(p));
                                let q = preds@.index_of(p);
                                assert(on_walk(ns, preds@[q], ns[bb as int].idom, Block(x as u32)));
                            }
                            if exists|q: int| 0 <= q < preds@.len() && on_walk(ns, #[trigger] preds@[q], ns[bb as int].idom, Block(x as u32)) {
                                let q = choose|q: int| 0 <= q < preds@.len() && on_walk(ns, #[trigger] preds@[q], ns[bb as int].idom, Block(x as u32));
                                assert(preds@.contains(preds@[q]));
                                assert(is_pred(g, preds@[q], b));
                            }
                        }
                    }
                }
            } else {
                proof {
                    assert(!has_join(g, b)) by {
                        if has_join(g, b) {
                            let (p, q) = choose|p: Block, q: Block| p != q && #[trigger] is_pred(g, p, b) && #[trigger] is_pred(g, q, b);
                            assert(preds@.contains(p) && preds@.contains(q));
                            let i = preds@.index_of(p);
                            let j = preds@.index_of(q);
                        }
                    }
                    assert forall|x: int, y: int| 0 <= x < n && 0 <= y < n implies #[trigger] dst@[x]@[y] == (y < bb + 1 && dom_frontier(ns, g, Block(x as u32), Block(y as u32))) by {
                        if y == bb {
                            assert(Block(y as u32) == b);
                        }
                    }
                }
            }
            bb += 1;
        }
    }

    /// The post-dominance frontiers: `dst[x][b]` holds exactly when `b` is in the
    /// post-dominance frontier of `x`.
    pub fn compute_postdom_frontiers(&self, cfg: &ControlFlowGraph, dst: &mut Vec<Vec<bool>>)
        requires
            self.wf(),
            cfg.wf(),
            self.spec_reverse_nodes().len() == cfg@.len(),
        ensures
            is_matrix(final(dst)@, cfg@.len() as int),
            forall|x: int, b: int|
                0 <= x < cfg@.len() && 0 <= b < cfg@.len() ==> #[trigger] final(dst)@[x]@[b] == postdom_frontier(
                    self.spec_reverse_nodes(),
                    cfg@,
                    Block(x as u32),
                    Block(b as u32),
                ),
    {
        let ghost ns = self.reverse_nodes@;
        let ghost g = cfg@;
        proof {
            cfg.lemma_view();
        }
        let n = self.reverse_nodes.len();
        *dst = empty_matrix(n);
        let mut bb: usize = 0;
        while bb < n
            invariant
                self.wf(),
                cfg.wf(),
                ns == self.reverse_nodes@,
                g == cfg@,
                n == ns.len(),
                n == g.len(),
                n < u32::MAX,
                forall|b: int, x: Block| 0 <= b < n && #[trigger] g[b].contains(x) ==> x.0 < n,
                bb <= n,
                is_matrix(dst@, n as int),
                forall|x: int, b: int| 0 <= x < n && 0 <= b < n ==> #[trigger] dst@[x]@[b] == (b < bb && postdom_frontier(ns, g, Block(x as u32), Block(b as u32))),
            decreases n - bb,
        {
            let b = Block(bb as u32);
            let ghost d1 = dst@;
            let succs = cfg.successors_of(b);
            proof {
                assert(Block(bb as int as u32) == b);
            }
            match succs.as_pair() {
                Some((bb1, bb2)) => {
                    proof {
                        assert(g[bb as int].contains(bb1) && g[bb as int].contains(bb2)) by {
                            assert(g[bb as int][0] == bb1);
                            assert(g[bb as int][1] == bb2);
                        }
                    }
                    propagate_dom_frontiers(&self.reverse_nodes, bb1, b, dst);
                    propagate_dom_frontiers(&self.reverse_nodes, bb2, b, dst);
                    proof {
                        assert forall|x: int, y: int| 0 <= x < n && 0 <= y < n implies #[trigger] dst@[x]@[y] == (y < bb + 1 && postdom_frontier(ns, g, Block(x as u32), Block(y as u32))) by {
                            if y == bb {
                                assert(Block(y as u32) == b);
                            }
                        }
                    }
                },
                None => {
                    proof {
                        assert forall|x: int, y: int| 0 <= x < n && 0 <= y < n implies #[trigger] dst@[x]@[y] == (y < bb + 1 && postdom_frontier(ns, g, Block(x as u32), Block(y as u32))) by {
                            if y == bb {
                                assert(Block(y as u32) == b);
                            }
                        }
                    }
                },
            }
            bb += 1;
        }
    }
}

/// `b` is reached from `root` by a path of `k` edges of the graph walked.
pub open spec fn reaches(g: Seq<Seq<Block>>, rev: bool, root: Block, b: Block, k: nat) -> bool
    decreases k,
{
    if k == 0 {
        b == root
    } else {
        exists|a: Block| #[trigger] walk_edge(g, rev, a, b) && reaches(g, rev, root, a, (k - 1) as nat)
    }
}

/// A depth-first postorder from `root` holds exactly the blocks that paths from `root`
/// reach.
pub proof fn lemma_postorder_is_reachable(g: Seq<Seq<Block>>, rev: bool, root: Block, po: Seq<Block>, b: Block)
    requires
        is_dfs_postorder(g, rev, root, po),
    ensures
        po.contains(b) <==> exists|k: nat| reaches(g, rev, root, b, k),
{
    if po.contains(b) {
        let i = po.index_of(b);
        lemma_later_reachable(g, rev, root, po, i);
    }
    if exists|k: nat| reaches(g, rev, root, b, k) {
        let k = choose|k: nat| reaches(g, rev, root, b, k);
        lemma_reached_in_postorder(g, rev, root, po, b, k);
    }
}

proof fn lemma_later_reachable(g: Seq<Seq<Block>>, rev: bool, root: Block, po: Seq<Block>, i: int)
    requires
        is_dfs_postorder(g, rev, root, po),
        0 <= i < po.len(),
    ensures
        exists|k: nat| reaches(g, rev, root, po[i], k),
    decreases po.len() - i,
{
    if i == po.len() - 1 {
        assert(reaches(g, rev, root, po[i], 0));
    } else {
        assert(reached_from_later(g, rev, po, i));
        let j = choose|j: int| i < j < po.len() && #[trigger] walk_edge(g, rev, po[j], po[i]);
        lemma_later_reachable(g, rev, root, po, j);
        let k = choose|k: nat| reaches(g, rev, root, po[j], k);
        assert(reaches(g, rev, root, po[i], k + 1));
    }
}

proof fn lemma_reached_in_postorder(g: Seq<Seq<Block>>, rev: bool, root: Block, po: Seq<Block>, b: Block, k: nat)
    requires
        is_dfs_postorder(g, rev, root, po),
        reaches(g, rev, root, b, k),
    ensures
        po.contains(b),
    decreases k,
{
    if k == 0 {
        assert(po[po.len() - 1] == root);
    } else {
        let a = choose|a: Block| #[trigger] walk_edge(g, rev, a, b) && reaches(g, rev, root, a, (k - 1) as nat);
        lemma_reached_in_postorder(g, rev, root, po, a, (k - 1) as nat);
    }
}


/// `b` is reached from `root` by a path of `k` edges of the graph walked that does not
/// pass through `d`.
pub open spec fn reaches_avoiding(g: Seq<Seq<Block>>, rev: bool, root: Block, b: Block, d: Block, k: nat) -> bool
    decreases k,
{
    b != d && if k == 0 {
        b == root
    } else {
        exists|a: Block| #[trigger] walk_edge(g, rev, a, b) && reaches_avoiding(g, rev, root, a, d, (k - 1) as nat)
    }
}

/// A path that avoids a block is a path.
proof fn lemma_avoiding_reaches(g: Seq<Seq<Block>>, rev: bool, root: Block, b: Block, d: Block, k: nat)
    requires
        reaches_avoiding(g, rev, root, b, d, k),
    ensures
        reaches(g, rev, root, b, k),
    decreases k,
{
    if k > 0 {
        let a = choose|a: Block| #[trigger] walk_edge(g, rev, a, b) && reaches_avoiding(g, rev, root, a, d, (k - 1) as nat);
        lemma_avoiding_reaches(g, rev, root, a, d, (k - 1) as nat);
    }
}

/// A block that dominates `b` in a dominator tree built from the depth-first postorder
/// `po` from `root` lies on every path from `root` to `b`.
proof fn lemma_tree_dominator_on_every_path(
    ns: Seq<DomTreeNode>,
    cfg: &ControlFlowGraph,
    rev: bool,
    root: Block,
    po: Seq<Block>,
    b: Block,
    d: Block,
    k: nat,
)
    requires
        cfg.wf(),
        is_dom_tree(ns, cfg@, rev, po),
        is_dfs_postorder(cfg@, rev, root, po),
        po.contains(b),
        spec_dominates(ns, b, d),
    ensures
        !reaches_avoiding(cfg@, rev, root, b, d, k),
    decreases k,
{
    let g = cfg@;
    let len = po.len() as int;
    lemma_dom_tree_closed(ns, g, rev, po);
    let i = po.index_of(b);
    assert(ns[po[i].0 as int].rpo_number as int == len + 1 - i);
    if reaches_avoiding(g, rev, root, b, d, k) {
        assert(b != d);
        if i == len - 1 {
            assert(ns[b.0 as int].idom is None);
            assert(ns[b.0 as int].rpo_number == 2);
            assert(false);
        } else {
            assert(k > 0) by {
                if k == 0 {
                    assert(b == root);
                    assert(po[len - 1] == root);
                    assert(po[i] == po[len - 1]);
                }
            }
            let a = choose|a: Block| #[trigger] walk_edge(g, rev, a, b) && reaches_avoiding(g, rev, root, a, d, (k - 1) as nat);
            lemma_avoiding_reaches(g, rev, root, a, d, (k - 1) as nat);
            lemma_postorder_is_reachable(g, rev, root, po, a);
            let ia = po.index_of(a);
            assert(ns[po[ia].0 as int].rpo_number as int == len + 1 - ia);
            cfg.lemma_view();
            let l = if rev {
                g[b.0 as int]
            } else {
                cfg.lemma_pred_list(b);
                choose|l: Seq<Block>| sorted_blocks(l) && forall|x: Block| #[trigger] l.contains(x) <==> is_pred(g, x, b)
            };
            assert(crate::domtree::is_in_list(g, rev, b, l));
            assert(crate::domtree::settled(ns, g, rev, po[i])) ;
            reveal(crate::domtree::settled);
            assert(spec_fold_idom(ns, l) == ns[b.0 as int].idom);
            assert forall|q: int| 0 <= q < l.len() implies (#[trigger] l[q]).0 < ns.len() by {
                assert(l.contains(l[q]));
            }
            crate::domtree::lemma_fold_idom_nearest(ns, l);
            assert(l.contains(a));
            let ka = l.index_of(a);
            assert(crate::domtree::counted(ns, l, ka));
            let y = ns[b.0 as int].idom.unwrap();
            assert(spec_dominates(ns, a, y));
            lemma_dominator_number(ns, b, d);
            assert(ns[b.0 as int].rpo_number != ns[d.0 as int].rpo_number) by {
                if ns[b.0 as int].rpo_number == ns[d.0 as int].rpo_number {
                    assert(b == d);
                }
            }
            assert(spec_dominates(ns, y, d));
            lemma_dominates_transitive(ns, a, y, d);
            lemma_tree_dominator_on_every_path(ns, cfg, rev, root, po, a, d, (k - 1) as nat);
        }
    }
}


/// In a dominator tree built from the depth-first postorder `po` from `root`, a block `d`
/// of the graph dominates a block `b` of `po` exactly when every path from `root` to `b`
/// passes through `d` (for the post-dominator tree, built over the reversed edges from the
/// exit: every path from `b` to the exit).
pub proof fn lemma_tree_dominates_iff_on_every_path(
    ns: Seq<DomTreeNode>,
    cfg: &ControlFlowGraph,
    rev: bool,
    root: Block,
    po: Seq<Block>,
    b: Block,
    d: Block,
)
    requires
        cfg.wf(),
        is_dom_tree(ns, cfg@, rev, po),
        is_dfs_postorder(cfg@, rev, root, po),
        po.contains(b),
        d.0 < cfg@.len(),
    ensures
        spec_dominates(ns, b, d) <==> on_every_path(cfg@, rev, root, b, d),
{
    if spec_dominates(ns, b, d) {
        assert forall|k: nat| !#[trigger] reaches_avoiding(cfg@, rev, root, b, d, k) by {
            lemma_tree_dominator_on_every_path(ns, cfg, rev, root, po, b, d, k);
        }
    }
    if on_every_path(cfg@, rev, root, b, d) {
        let q = po.index_of(b);
        assert(on_every_path(cfg@, rev, po.last(), po[q], d));
    }
}

} // verus!
