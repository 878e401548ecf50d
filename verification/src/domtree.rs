//! Cooper, Harvey and Kennedy's construction of a dominator tree from a postorder.
use vstd::prelude::*;

use crate::cfg::{is_pred, sorted_blocks, ControlFlowGraph};
use crate::dominators::{is_dfs_postorder, reached_from_later, reaches_avoiding, walk_edge, DomTreeNode, DONE, UNDEF};
use crate::entities::Block;

verus! {

/// The nodes form a tree rooted at the node numbered 2: every node numbered above 2 has
/// an immediate dominator numbered from 2 on and below it, and the numbers from 2 on
/// are distinct.
pub open spec fn tree_ok(ns: Seq<DomTreeNode>) -> bool {
    &&& ns.len() < u32::MAX
    &&& forall|v: int| 0 <= v < ns.len() && (#[trigger] ns[v]).rpo_number > 2 ==> (ns[v].idom matches Some(p) && p.0 < ns.len() && 2 <= ns[p.0 as int].rpo_number < ns[v].rpo_number)
    &&& forall|a: int, b: int|
        0 <= a < ns.len() && 0 <= b < ns.len() && (#[trigger] ns[a]).rpo_number >= 2 && ns[a].rpo_number == (#[trigger] ns[b]).rpo_number ==> a == b
}

/// The common dominator of `a` and `b` that walking up the tree from both finds: the
/// one with the larger number moves to its immediate dominator until they meet.
pub open spec fn spec_common_dominator(ns: Seq<DomTreeNode>, a: Block, b: Block) -> Block
    decreases ns[a.0 as int].rpo_number + ns[b.0 as int].rpo_number,
{
    let ra = ns[a.0 as int].rpo_number;
    let rb = ns[b.0 as int].rpo_number;
    if ra < rb {
        match ns[b.0 as int].idom {
            Some(p) => if ns[p.0 as int].rpo_number < rb {
                spec_common_dominator(ns, a, p)
            } else {
                a
            },
            None => a,
        }
    } else if ra > rb {
        match ns[a.0 as int].idom {
            Some(p) => if ns[p.0 as int].rpo_number < ra {
                spec_common_dominator(ns, p, b)
            } else {
                b
            },
            None => b,
        }
    } else {
        a
    }
}

/// The immediate dominator that Cooper's step computes from the predecessor list `l`:
/// the common dominator of the predecessors that already have a number (2 or above),
/// folded from the left. `None` if there is none.
pub open spec fn spec_fold_idom(ns: Seq<DomTreeNode>, l: Seq<Block>) -> Option<Block>
    decreases l.len(),
{
    if l.len() == 0 {
        None
    } else {
        let prev = spec_fold_idom(ns, l.drop_last());
        let x = l.last();
        if ns[x.0 as int].rpo_number > 1 {
            match prev {
                None => Some(x),
                Some(d) => Some(spec_common_dominator(ns, d, x)),
            }
        } else {
            prev
        }
    }
}

/// `l` lists the blocks with an edge to `b` in the walked graph, in the order in which
/// they are visited: the sorted predecessors, or the successor list when reversed.
pub open spec fn is_in_list(g: Seq<Seq<Block>>, rev: bool, b: Block, l: Seq<Block>) -> bool {
    if rev {
        l == g[b.0 as int]
    } else {
        sorted_blocks(l) && forall|x: Block| #[trigger] l.contains(x) <==> is_pred(g, x, b)
    }
}

/// Two sorted sets of blocks with the same members are equal.
proof fn lemma_sorted_unique(s: Seq<Block>, t: Seq<Block>)
    requires
        sorted_blocks(s),
        sorted_blocks(t),
        forall|x: Block| #![trigger s.contains(x)] #![trigger t.contains(x)] s.contains(x) <==> t.contains(x),
    ensures
        s == t,
    decreases s.len(),
{
    if s.len() == 0 {
        if t.len() > 0 {
            assert(t.contains(t[0]));
            assert(s.contains(t[0]));
        }
        assert(s =~= t);
    } else {
        assert(s.contains(s[0]));
        assert(t.contains(s[0]));
        assert(t.contains(t[0]));
        assert(s.contains(t[0]));
        let i = t.index_of(s[0]);
        let j = s.index_of(t[0]);
        if i > 0 {
            assert(t[0].0 < t[i].0);
        }
        if j > 0 {
            assert(s[0].0 < s[j].0);
        }
        assert(s[0].0 == t[0].0);
        assert(s[0] == t[0]);
        let s1 = s.drop_first();
        let t1 = t.drop_first();
        assert forall|x: Block| #![trigger s1.contains(x)] #![trigger t1.contains(x)] s1.contains(x) <==> t1.contains(x) by {
            if s1.contains(x) {
                let k = s1.index_of(x);
                assert(s[k + 1] == x);
                assert(s[0].0 < s[k + 1].0);
                assert(s.contains(x));
                assert(t.contains(x));
                let q = t.index_of(x);
                assert(q != 0);
                assert(t1[q - 1] == x);
            }
            if t1.contains(x) {
                let k = t1.index_of(x);
                assert(t[k + 1] == x);
                assert(t[0].0 < t[k + 1].0);
                assert(t.contains(x));
                assert(s.contains(x));
                let q = s.index_of(x);
                assert(q != 0);
                assert(s1[q - 1] == x);
            }
        }
        assert(sorted_blocks(s1)) by {
            assert forall|a: int, b: int| 0 <= a < b < s1.len() implies (#[trigger] s1[a]).0 < (#[trigger] s1[b]).0 by {
                assert(s1[a] == s[a + 1]);
                assert(s1[b] == s[b + 1]);
            }
        }
        assert(sorted_blocks(t1)) by {
            assert forall|a: int, b: int| 0 <= a < b < t1.len() implies (#[trigger] t1[a]).0 < (#[trigger] t1[b]).0 by {
                assert(t1[a] == t[a + 1]);
                assert(t1[b] == t[b + 1]);
            }
        }
        lemma_sorted_unique(s1, t1);
        assert(s =~= seq![s[0]] + s1);
        assert(t =~= seq![t[0]] + t1);
    }
}

/// The common dominator of two numbered blocks; both must have a number from 2 on.
fn common_dominator(nodes: &Vec<DomTreeNode>, bb1: Block, bb2: Block) -> (r: Block)
    requires
        tree_ok(nodes@),
        bb1.0 < nodes@.len(),
        bb2.0 < nodes@.len(),
        nodes@[bb1.0 as int].rpo_number >= 2,
        nodes@[bb2.0 as int].rpo_number >= 2,
    ensures
        r == spec_common_dominator(nodes@, bb1, bb2),
        r.0 < nodes@.len(),
        nodes@[r.0 as int].rpo_number >= 2,
        nodes@[r.0 as int].rpo_number <= nodes@[bb1.0 as int].rpo_number,
        nodes@[r.0 as int].rpo_number <= nodes@[bb2.0 as int].rpo_number,
{
    let ghost ns = nodes@;
    let mut a = bb1;
    let mut b = bb2;
    loop
        invariant
            ns == nodes@,
            tree_ok(ns),
            a.0 < ns.len(),
            b.0 < ns.len(),
            ns[a.0 as int].rpo_number >= 2,
            ns[b.0 as int].rpo_number >= 2,
            ns[a.0 as int].rpo_number <= ns[bb1.0 as int].rpo_number,
            ns[b.0 as int].rpo_number <= ns[bb2.0 as int].rpo_number,
            spec_common_dominator(ns, a, b) == spec_common_dominator(ns, bb1, bb2),
        decreases ns[a.0 as int].rpo_number + ns[b.0 as int].rpo_number,
    {
        let rpo1 = nodes[a.0 as usize].rpo_number;
        let rpo2 = nodes[b.0 as usize].rpo_number;
        if rpo1 < rpo2 {
            proof {
                assert(ns[b.0 as int].rpo_number > 2);
            }
            b = nodes[b.0 as usize].idom.unwrap();
        } else if rpo1 > rpo2 {
            proof {
                assert(ns[a.0 as int].rpo_number > 2);
            }
            a = nodes[a.0 as usize].idom.unwrap();
        } else {
            proof {
                assert(a.0 == b.0);
            }
            return a;
        }
    }
}

/// Cooper's step: the common dominator of the predecessors in `preds` that already
/// have a number. At least one of them must.
fn compute_idom_(nodes: &Vec<DomTreeNode>, preds: &Vec<Block>) -> (r: Block)
    requires
        tree_ok(nodes@),
        forall|i: int| 0 <= i < preds@.len() ==> (#[trigger] preds@[i]).0 < nodes@.len(),
        exists|i: int| 0 <= i < preds@.len() && nodes@[(#[trigger] preds@[i]).0 as int].rpo_number > 1,
    ensures
        spec_fold_idom(nodes@, preds@) == Some(r),
        r.0 < nodes@.len(),
        nodes@[r.0 as int].rpo_number >= 2,
        forall|i: int|
            0 <= i < preds@.len() && nodes@[(#[trigger] preds@[i]).0 as int].rpo_number > 1 ==> nodes@[r.0 as int].rpo_number
                <= nodes@[preds@[i].0 as int].rpo_number,
{
    let ghost ns = nodes@;
    let mut idom: Option<Block> = None;
    let mut i: usize = 0;
    while i < preds.len()
        invariant
            ns == nodes@,
            tree_ok(ns),
            forall|k: int| 0 <= k < preds@.len() ==> (#[trigger] preds@[k]).0 < ns.len(),
            i <= preds@.len(),
            idom == spec_fold_idom(ns, preds@.subrange(0, i as int)),
            idom matches Some(d) ==> d.0 < ns.len() && ns[d.0 as int].rpo_number >= 2,
            idom is None ==> forall|k: int| 0 <= k < i ==> ns[(#[trigger] preds@[k]).0 as int].rpo_number <= 1,
            idom matches Some(d) ==> forall|k: int|
                0 <= k < i && ns[(#[trigger] preds@[k]).0 as int].rpo_number > 1 ==> ns[d.0 as int].rpo_number
                    <= ns[preds@[k].0 as int].rpo_number,
        decreases preds@.len() - i,
    {
        let p = preds[i];
        proof {
            assert(preds@.subrange(0, i + 1).drop_last() =~= preds@.subrange(0, i as int));
            assert(preds@.subrange(0, i + 1).last() == p);
        }
        if nodes[p.0 as usize].rpo_number > 1 {
            match idom {
                None => {
                    idom = Some(p);
                },
                Some(d) => {
                    idom = Some(common_dominator(nodes, d, p));
                },
            }
        }
        i += 1;
    }
    proof {
        assert(preds@.subrange(0, preds@.len() as int) =~= preds@);
        if idom is None {
            let k = choose|k: int| 0 <= k < preds@.len() && ns[(#[trigger] preds@[k]).0 as int].rpo_number > 1;
        }
    }
    idom.unwrap()
}

/// The state of the tree while Cooper's algorithm runs: blocks of `po` from index `lo`
/// on are numbered, each but the root with an immediate dominator numbered below it;
/// the others have none.
#[verifier::opaque]
pub open spec fn partial_tree(ns: Seq<DomTreeNode>, po: Seq<Block>, lo: int) -> bool {
    &&& tree_ok(ns)
    &&& numbered(ns, po, lo)
    &&& ns[po.last().0 as int].idom is None
    &&& forall|i: int| 0 <= i < lo ==> (#[trigger] ns[po[i].0 as int]).idom is None
    &&& forall|i: int| lo <= i < po.len() - 1 ==> #[trigger] idom_below(ns, po[i].0 as int)
}

/// The facts about a postorder that the tree construction uses.
#[verifier::opaque]
pub open spec fn postorder_facts(g: Seq<Seq<Block>>, rev: bool, po: Seq<Block>) -> bool {
    &&& po.no_duplicates()
    &&& forall|i: int| 0 <= i < po.len() ==> (#[trigger] po[i]).0 < g.len()
    &&& forall|i: int| 0 <= i < po.len() - 1 ==> #[trigger] reached_from_later(g, rev, po, i)
}

/// The parts of `partial_tree`.
proof fn lemma_partial_tree_parts(ns: Seq<DomTreeNode>, po: Seq<Block>, lo: int)
    ensures
        partial_tree(ns, po, lo) <==> {
            &&& tree_ok(ns)
            &&& numbered(ns, po, lo)
            &&& ns[po.last().0 as int].idom is None
            &&& forall|i: int| 0 <= i < lo ==> (#[trigger] ns[po[i].0 as int]).idom is None
            &&& forall|i: int| lo <= i < po.len() - 1 ==> #[trigger] idom_below(ns, po[i].0 as int)
        },
{
    reveal(partial_tree);
}

/// Numbering the next block `po[lo - 1]` with immediate dominator `r` keeps the tree.
#[verifier::spinoff_prover]
proof fn lemma_number_next(ns: Seq<DomTreeNode>, po: Seq<Block>, lo: int, r: Block)
    requires
        1 <= lo <= po.len() - 1,
        po.len() <= ns.len(),
        po.no_duplicates(),
        forall|i: int| 0 <= i < po.len() ==> (#[trigger] po[i]).0 < ns.len(),
        ns.len() < u32::MAX,
        partial_tree(ns, po, lo),
        r.0 < ns.len(),
        2 <= ns[r.0 as int].rpo_number,
        ns[r.0 as int].rpo_number < po.len() + 2 - lo,
    ensures
        partial_tree(
            ns.update(po[lo - 1].0 as int, DomTreeNode { rpo_number: (po.len() + 2 - lo) as u32, idom: Some(r) }),
            po,
            lo - 1,
        ),
{
    reveal(partial_tree);
    let n = ns.len() as int;
    let len = po.len() as int;
    let i = lo - 1;
    let block = po[i];
    let bi = block.0 as int;
    let node = DomTreeNode { rpo_number: (len + 2 - lo) as u32, idom: Some(r) };
    let ns2 = ns.update(bi, node);
    assert(po.contains(block));
    assert(ns[bi].rpo_number == DONE) by {
        assert(ns[po[i].0 as int].rpo_number as int == DONE as int);
    }
    assert(r.0 as int != bi);
    assert forall|q: int| 0 <= q < len implies (#[trigger] ns2[po[q].0 as int]).rpo_number as int == (if q >= i {
        len + 1 - q
    } else {
        DONE as int
    }) by {
        if q != i {
            assert(po[q] != po[i]);
            assert(ns2[po[q].0 as int] == ns[po[q].0 as int]);
        }
    }
    assert forall|v: int| 0 <= v < n && !po.contains(Block(v as u32)) implies #[trigger] ns2[v] == (DomTreeNode { rpo_number: UNDEF, idom: None }) by {
        assert(Block(v as u32) != block);
        assert(ns2[v] == ns[v]);
    }
    assert(numbered(ns2, po, i));
    lemma_numbered(ns2, po, i);
    lemma_numbered(ns, po, lo);
    assert forall|q: int| 0 <= q < i implies (#[trigger] ns2[po[q].0 as int]).idom is None by {
        assert(po[q] != po[i]);
        assert(ns2[po[q].0 as int] == ns[po[q].0 as int]);
    }
    assert forall|q: int| i <= q < len - 1 implies #[trigger] idom_below(ns2, po[q].0 as int) by {
        if q == i {
            assert(ns2[r.0 as int] == ns[r.0 as int]);
        } else {
            assert(po[q] != po[i]);
            assert(ns2[po[q].0 as int] == ns[po[q].0 as int]);
            assert(idom_below(ns, po[q].0 as int));
            let p = ns[po[q].0 as int].idom.unwrap();
            assert(p.0 as int != bi) by {
                assert(ns[p.0 as int].rpo_number >= 2);
            }
            assert(ns2[p.0 as int] == ns[p.0 as int]);
        }
    }
    assert(po[len - 1] != block);
    assert(ns2[po.last().0 as int] == ns[po.last().0 as int]);
    assert forall|v: int| 0 <= v < n && (#[trigger] ns2[v]).rpo_number > 2 implies (ns2[v].idom matches Some(p) && p.0 < n && 2 <= ns2[p.0 as int].rpo_number < ns2[v].rpo_number) by {
        let q = choose|q: int| i <= q < len && po[q] == Block(v as u32);
        assert(po[q].0 as int == v);
        if q == len - 1 {
            assert(ns2[po[q].0 as int].rpo_number as int == 2);
        } else {
            assert(idom_below(ns2, po[q].0 as int));
        }
    }
}

/// Replacing the immediate dominator of `po[i]` by `r`, numbered below the old one,
/// keeps the tree and lowers the sum of the immediate dominators' numbers.
proof fn lemma_replace_idom(ns: Seq<DomTreeNode>, po: Seq<Block>, i: int, r: Block)
    requires
        0 <= i < po.len() - 1,
        po.no_duplicates(),
        forall|k: int| 0 <= k < po.len() ==> (#[trigger] po[k]).0 < ns.len(),
        ns.len() < u32::MAX,
        partial_tree(ns, po, 0),
        r.0 < ns.len(),
        2 <= ns[r.0 as int].rpo_number,
        ns[po[i].0 as int].idom matches Some(c) && ns[r.0 as int].rpo_number < ns[c.0 as int].rpo_number,
    ensures
        ({
            let ns2 = ns.update(po[i].0 as int, DomTreeNode { rpo_number: ns[po[i].0 as int].rpo_number, idom: Some(r) });
            &&& partial_tree(ns2, po, 0)
            &&& rank_sum(ns2, ns.len() as int) < rank_sum(ns, ns.len() as int)
        }),
{
    let n = ns.len() as int;
    let len = po.len() as int;
    let block = po[i];
    let bi = block.0 as int;
    let node = DomTreeNode { rpo_number: ns[bi].rpo_number, idom: Some(r) };
    let ns2 = ns.update(bi, node);
    lemma_partial_tree_parts(ns, po, 0);
    lemma_partial_tree_parts(ns2, po, 0);
    assert(po.contains(block));
    assert(idom_below(ns, bi));
    assert(forall|a: int| 0 <= a < n ==> (#[trigger] ns2[a]).rpo_number == ns[a].rpo_number);
    lemma_rank_sum_update(ns, bi, node, n);
    assert(r.0 as int != bi);
    assert(idom_rank(ns2, bi) < idom_rank(ns, bi));
    assert(tree_ok(ns2)) by {
        assert forall|v: int| 0 <= v < n && (#[trigger] ns2[v]).rpo_number > 2 implies (ns2[v].idom matches Some(p) && p.0 < n && 2 <= ns2[p.0 as int].rpo_number < ns2[v].rpo_number) by {
            if v != bi {
                assert(ns2[v] == ns[v]);
                assert(ns[v].rpo_number > 2);
            }
        }
        assert forall|a: int, b: int|
            0 <= a < n && 0 <= b < n && (#[trigger] ns2[a]).rpo_number >= 2 && ns2[a].rpo_number == (#[trigger] ns2[b]).rpo_number implies a == b by {
            assert(ns[a].rpo_number == ns2[a].rpo_number);
            assert(ns[b].rpo_number == ns2[b].rpo_number);
        }
    }
    assert(numbered(ns2, po, 0)) by {
        assert forall|q: int| 0 <= q < len implies (#[trigger] ns2[po[q].0 as int]).rpo_number as int == (if q >= 0 {
            len + 1 - q
        } else {
            DONE as int
        }) by {
            assert(ns[po[q].0 as int].rpo_number as int == len + 1 - q);
        }
        assert forall|v: int| 0 <= v < n && !po.contains(Block(v as u32)) implies #[trigger] ns2[v] == (DomTreeNode { rpo_number: UNDEF, idom: None }) by {
            assert(Block(v as u32) != block);
            assert(ns2[v] == ns[v]);
        }
    }
    assert forall|q: int| 0 <= q < len - 1 implies #[trigger] idom_below(ns2, po[q].0 as int) by {
        assert(idom_below(ns, po[q].0 as int));
        if po[q].0 as int != bi {
            assert(ns2[po[q].0 as int] == ns[po[q].0 as int]);
        }
    }
    assert(po[len - 1] != block);
    assert(ns2[po.last().0 as int] == ns[po.last().0 as int]);
}

/// The entry numbered 2: the start of Cooper's algorithm.
#[verifier::spinoff_prover]
proof fn lemma_number_root(ns: Seq<DomTreeNode>, po: Seq<Block>)
    requires
        po.len() >= 1,
        po.no_duplicates(),
        forall|i: int| 0 <= i < po.len() ==> (#[trigger] po[i]).0 < ns.len(),
        ns.len() < u32::MAX,
        forall|v: int|
            0 <= v < ns.len() ==> #[trigger] ns[v] == (DomTreeNode {
                rpo_number: if po.contains(Block(v as u32)) { DONE } else { UNDEF },
                idom: None,
            }),
    ensures
        partial_tree(ns.update(po.last().0 as int, DomTreeNode { rpo_number: 2, idom: None }), po, po.len() - 1),
{
    reveal(partial_tree);
    let n = ns.len() as int;
    let len = po.len() as int;
    let entry = po[len - 1];
    let ns2 = ns.update(entry.0 as int, DomTreeNode { rpo_number: 2, idom: None });
    assert forall|i: int| 0 <= i < len implies (#[trigger] ns2[po[i].0 as int]).rpo_number as int == (if i >= len - 1 {
        len + 1 - i
    } else {
        DONE as int
    }) by {
        assert(po.contains(po[i]));
        assert(Block(po[i].0 as int as u32) == po[i]);
        if i != len - 1 {
            assert(po[i] != po[len - 1]);
        }
    }
    assert forall|v: int| 0 <= v < n && !po.contains(Block(v as u32)) implies #[trigger] ns2[v] == (DomTreeNode { rpo_number: UNDEF, idom: None }) by {
        assert(po.contains(entry));
        assert(Block(v as u32) != entry);
    }
    assert(numbered(ns2, po, len - 1));
    lemma_numbered(ns2, po, len - 1);
    assert forall|i: int| 0 <= i < len - 1 implies (#[trigger] ns2[po[i].0 as int]).idom is None by {
        assert(po.contains(po[i]));
        assert(Block(po[i].0 as int as u32) == po[i]);
    }
    assert forall|v: int| 0 <= v < n && (#[trigger] ns2[v]).rpo_number > 2 implies (ns2[v].idom matches Some(p) && p.0 < n && 2 <= ns2[p.0 as int].rpo_number < ns2[v].rpo_number) by {
        let q = choose|q: int| len - 1 <= q < len && po[q] == Block(v as u32);
        assert(po[q].0 as int == v);
    }
}

/// One step of Cooper's iteration at `po[i]`: recompute its immediate dominator and
/// take the result if it differs from the current one. Returns whether it changed.
#[verifier::spinoff_prover]
fn settle_block(nodes: &mut Vec<DomTreeNode>, po: &Vec<Block>, i: usize, rev: bool, cfg: &ControlFlowGraph) -> (changed: bool)
    requires
        cfg.wf(),
        old(nodes)@.len() == cfg@.len(),
        cfg@.len() < u32::MAX,
        po@.len() <= cfg@.len(),
        postorder_facts(cfg@, rev, po@),
        i < po@.len() - 1,
        partial_tree(old(nodes)@, po@, 0),
        step_inv(old(nodes)@, cfg@, rev, po@, po@.len() + 1 - i),
        path_inv(old(nodes)@, cfg@, rev, po@, 0),
    ensures
        final(nodes)@.len() == cfg@.len(),
        partial_tree(final(nodes)@, po@, 0),
        step_inv(final(nodes)@, cfg@, rev, po@, po@.len() + 2 - i),
        path_inv(final(nodes)@, cfg@, rev, po@, 0),
        changed ==> rank_sum(final(nodes)@, cfg@.len() as int) < rank_sum(old(nodes)@, cfg@.len() as int),
        !changed ==> final(nodes)@ == old(nodes)@ && settled(old(nodes)@, cfg@, rev, po@[i as int]),
{
    let ghost g = cfg@;
    let ghost n = g.len() as int;
    let ghost len = po@.len() as int;
    let block = po[i];
    let ghost ns = nodes@;
    proof {
        assert(tree_ok(ns) && idom_below(ns, block.0 as int) && block.0 < n && exists|y: Block|
            #[trigger] walk_edge(g, rev, y, block) && y.0 < ns.len() && ns[y.0 as int].rpo_number > 1) by {
            reveal(partial_tree);
            reveal(postorder_facts);
            assert(reached_from_later(g, rev, po@, i as int));
            let j = choose|j: int| i < j < po@.len() && #[trigger] walk_edge(g, rev, po@[j], po@[i as int]);
            assert(ns[po@[j].0 as int].rpo_number as int == len + 1 - j);
            assert(walk_edge(g, rev, po@[j], block) && po@[j].0 < ns.len() && ns[po@[j].0 as int].rpo_number > 1);
            assert(idom_below(ns, po@[i as int].0 as int));
        }
    }
    let new_idom = compute_idom(nodes, rev, block, cfg);
    let node = nodes[block.0 as usize];
    let cur = node.idom.unwrap();
    proof {
        cfg.lemma_view();
        reveal(postorder_facts);
        lemma_partial_tree_closed(ns, po@);
        lemma_partial_tree_parts(ns, po@, 0);
        assert(step_ctx(ns, g, rev, po@));
    }
    if new_idom.0 != cur.0 {
        proof {
            assert(fold_above(ns, g, rev, block));
            let l0 = choose|l: Seq<Block>| #[trigger] is_in_list(g, rev, block, l);
            assert(spec_dominates(ns, cur, new_idom));
            lemma_dominator_number(ns, cur, new_idom);
            assert(new_idom != cur);
            assert(ns[new_idom.0 as int].rpo_number != ns[cur.0 as int].rpo_number);
            lemma_replace_idom(ns, po@, i as int, new_idom);
            let ns2 = ns.update(block.0 as int, DomTreeNode { rpo_number: node.rpo_number, idom: Some(new_idom) });
            lemma_partial_tree_parts(ns2, po@, 0);
            lemma_step_changed(ns, g, rev, po@, i as int, new_idom);
            lemma_step_path(ns, g, rev, po@, i as int, new_idom);
        }
        nodes.set(block.0 as usize, DomTreeNode { rpo_number: node.rpo_number, idom: Some(new_idom) });
        true
    } else {
        proof {
            assert(new_idom == cur);
            reveal(settled);
            lemma_step_same(ns, g, rev, po@, i as int);
        }
        false
    }
}

/// Build the dominator tree of the graph walked from its postorder `po`, with Cooper,
/// Harvey and Kennedy's algorithm: number the blocks in reverse postorder (the root gets
/// 2), give each block in that order the common dominator of its numbered predecessors,
/// then repeat the step over all blocks until nothing changes. The step never gives a
/// block below the current immediate dominator, so every change moves an immediate
/// dominator up the tree, which bounds the number of rounds; at the end the step gives
/// every immediate dominator back.
#[verifier::spinoff_prover]
#[verifier::rlimit(90)]
pub(crate) fn compute_domtree(nodes: &mut Vec<DomTreeNode>, po: &Vec<Block>, rev: bool, cfg: &ControlFlowGraph)
    requires
        cfg.wf(),
        old(nodes)@.len() == cfg@.len(),
        cfg@.len() < u32::MAX,
        po@.len() > 0 ==> is_dfs_postorder(cfg@, rev, po@.last(), po@),
        forall|v: int|
            0 <= v < cfg@.len() ==> #[trigger] old(nodes)@[v] == (DomTreeNode {
                rpo_number: if po@.contains(Block(v as u32)) { DONE } else { UNDEF },
                idom: None,
            }),
    ensures
        is_dom_tree(final(nodes)@, cfg@, rev, po@),
{
    let ghost g = cfg@;
    let ghost n = g.len() as int;
    let len = po.len();
    if len == 0 {
        proof {
            assert forall|v: int| 0 <= v < n && (#[trigger] nodes@[v]).rpo_number > 2 implies (nodes@[v].idom matches Some(p) && p.0 < n && 2 <= nodes@[p.0 as int].rpo_number < nodes@[v].rpo_number) by {
                assert(!po@.contains(Block(v as u32)));
            }
            assert forall|a: int, b: int|
                0 <= a < n && 0 <= b < n && (#[trigger] nodes@[a]).rpo_number >= 2 && nodes@[a].rpo_number == (#[trigger] nodes@[b]).rpo_number implies a == b by {
                assert(!po@.contains(Block(a as u32)));
            }
        }
        return;
    }
    proof {
        reveal(postorder_facts);
        lemma_distinct_blocks_len(po@, n);
        assert(postorder_facts(g, rev, po@));
        lemma_number_root(nodes@, po@);
        cfg.lemma_view();
    }
    let entry = po[len - 1];
    nodes.set(entry.0 as usize, DomTreeNode { rpo_number: 2, idom: None });
    proof {
        lemma_path_inv_root(nodes@, g, rev, po@);
        reveal(first_round);
    }
    let mut idx: usize = 0;
    while idx + 1 < len
        invariant
            cfg.wf(),
            g == cfg@,
            n == g.len(),
            n < u32::MAX,
            len == po@.len(),
            len <= n,
            postorder_facts(g, rev, po@),
            idx + 1 <= len,
            nodes@.len() == n,
            succs_in_range(g),
            first_round(nodes@, g, rev, po@, len - 1 - idx),
        decreases len - idx,
    {
        let ghost i = len - 2 - idx;
        let block = po[len - 2 - idx];
        let ghost ns = nodes@;
        proof {
            lemma_first_round_tree(ns, g, rev, po@, len - 1 - idx);
            assert(tree_ok(ns) && block.0 < n && exists|j: int|
                i < j < po@.len() && #[trigger] walk_edge(g, rev, po@[j], block) && po@[j].0 < ns.len()
                    && ns[po@[j].0 as int].rpo_number as int == len + 1 - j) by {
                reveal(partial_tree);
                reveal(postorder_facts);
                assert(reached_from_later(g, rev, po@, i));
                let j = choose|j: int| i < j < po@.len() && #[trigger] walk_edge(g, rev, po@[j], po@[i]);
                assert(ns[po@[j].0 as int].rpo_number as int == len + 1 - j);
            }
            let j = choose|j: int|
                i < j < po@.len() && #[trigger] walk_edge(g, rev, po@[j], block) && po@[j].0 < ns.len()
                    && ns[po@[j].0 as int].rpo_number as int == len + 1 - j;
            assert(walk_edge(g, rev, po@[j], block) && po@[j].0 < ns.len() && ns[po@[j].0 as int].rpo_number > 1);
        }
        let idom = compute_idom(nodes, rev, block, cfg);
        proof {
            let j = choose|j: int|
                i < j < po@.len() && #[trigger] walk_edge(g, rev, po@[j], block) && po@[j].0 < ns.len()
                    && ns[po@[j].0 as int].rpo_number as int == len + 1 - j;
            assert(po@.no_duplicates() && forall|k: int| 0 <= k < po@.len() ==> (#[trigger] po@[k]).0 < ns.len()) by {
                reveal(postorder_facts);
            }
            lemma_number_all(ns, g, rev, po@, i + 1, idom);
            assert((po@.len() + 2 - (i + 1)) as u32 == (idx + 3) as u32);
        }
        nodes.set(block.0 as usize, DomTreeNode { rpo_number: (idx + 3) as u32, idom: Some(idom) });
        idx += 1;
    }
    proof {
        reveal(postorder_facts);
        reveal(first_round);
        lemma_first_pass_done(nodes@, g, rev, po@);
    }
    // Iterate until convergence.
    let mut changed = true;
    while changed
        invariant
            cfg.wf(),
            g == cfg@,
            n == g.len(),
            n < u32::MAX,
            len == po@.len(),
            len <= n,
            len >= 1,
            postorder_facts(g, rev, po@),
            nodes@.len() == n,
            partial_tree(nodes@, po@, 0),
            succs_in_range(g),
            step_inv(nodes@, g, rev, po@, len + 2int),
            path_inv(nodes@, g, rev, po@, 0),
            !changed ==> forall|i: int| 0 <= i < len - 1 ==> #[trigger] settled(nodes@, g, rev, po@[i]),
        decreases rank_sum(nodes@, n) + (if changed { 1int } else { 0int }),
    {
        changed = false;
        let ghost ns0 = nodes@;
        proof {
            lemma_step_inv_restart(nodes@, g, rev, po@, 3);
        }
        let ghost sum0 = rank_sum(ns0, n);
        let mut idx: usize = 0;
        while idx + 1 < len
            invariant
                cfg.wf(),
                g == cfg@,
                n == g.len(),
                n < u32::MAX,
                len == po@.len(),
                len <= n,
                len >= 1,
                postorder_facts(g, rev, po@),
                idx + 1 <= len,
                nodes@.len() == n,
                partial_tree(nodes@, po@, 0),
                succs_in_range(g),
                step_inv(nodes@, g, rev, po@, idx + 3int),
                path_inv(nodes@, g, rev, po@, 0),
                rank_sum(nodes@, n) <= sum0,
                changed ==> rank_sum(nodes@, n) < sum0,
                !changed ==> forall|i: int| len - 1 - idx <= i < len - 1 ==> #[trigger] settled(nodes@, g, rev, po@[i]),
            decreases len - idx,
        {
            let ghost ns = nodes@;
            let c = settle_block(nodes, po, len - 2 - idx, rev, cfg);
            if c {
                changed = true;
            } else {
                proof {
                    if !changed {
                        assert forall|q: int| len - 1 - (idx + 1) <= q < len - 1 implies #[trigger] settled(nodes@, g, rev, po@[q]) by {
                        }
                    }
                }
            }
            idx += 1;
        }
    }
    proof {
        reveal(partial_tree);
    }
}

/// Cooper's step for `block` over the graph walked (the predecessors, or the
/// successors for the post-dominator tree), on the given nodes.
pub(crate) fn compute_idom(nodes: &Vec<DomTreeNode>, rev: bool, block: Block, cfg: &ControlFlowGraph) -> (r: Block)
    requires
        cfg.wf(),
        nodes@.len() == cfg@.len(),
        block.0 < cfg@.len(),
        tree_ok(nodes@),
        exists|y: Block| #[trigger] walk_edge(cfg@, rev, y, block) && y.0 < nodes@.len() && nodes@[y.0 as int].rpo_number > 1,
    ensures
        forall|l: Seq<Block>| #[trigger] is_in_list(cfg@, rev, block, l) ==> spec_fold_idom(nodes@, l) == Some(r),
        exists|l: Seq<Block>| #[trigger] is_in_list(cfg@, rev, block, l),
        r.0 < nodes@.len(),
        nodes@[r.0 as int].rpo_number >= 2,
        forall|y: Block|
            #[trigger] walk_edge(cfg@, rev, y, block) && y.0 < nodes@.len() && nodes@[y.0 as int].rpo_number > 1 ==> nodes@[r.0 as int].rpo_number
                <= nodes@[y.0 as int].rpo_number,
{
    let ghost g = cfg@;
    proof {
        cfg.lemma_view();
    }
    let preds = if rev {
        cfg.succ_iter(block)
    } else {
        cfg.pred_iter(block)
    };
    proof {
        assert(is_in_list(g, rev, block, preds@));
        assert forall|l: Seq<Block>| #[trigger] is_in_list(g, rev, block, l) implies l == preds@ by {
            if !rev {
                assert forall|x: Block| #![trigger preds@.contains(x)] #![trigger l.contains(x)] preds@.contains(x) <==> l.contains(x) by {
                    assert(preds@.contains(x) <==> is_pred(g, x, block));
                    assert(l.contains(x) <==> is_pred(g, x, block));
                }
                lemma_sorted_unique(preds@, l);
            }
        }
        assert forall|y: Block| #[trigger] walk_edge(g, rev, y, block) implies preds@.contains(y) by {
        }
        assert forall|k: int| 0 <= k < preds@.len() implies (#[trigger] preds@[k]).0 < nodes@.len() by {
            assert(preds@.contains(preds@[k]));
            if rev {
                assert(g[block.0 as int].contains(preds@[k]));
            }
        }
        assert forall|k: int| 0 <= k < preds@.len() implies walk_edge(g, rev, #[trigger] preds@[k], block) by {
            assert(preds@.contains(preds@[k]));
            if rev {
                assert(g[block.0 as int].contains(preds@[k]));
            }
        }
        let y = choose|y: Block| #[trigger] walk_edge(g, rev, y, block) && y.0 < nodes@.len() && nodes@[y.0 as int].rpo_number > 1;
        assert(preds@.contains(y));
        let k = preds@.index_of(y);
        assert(nodes@[preds@[k].0 as int].rpo_number > 1);
    }
    let r = compute_idom_(nodes, &preds);
    proof {
        assert forall|y: Block|
            #[trigger] walk_edge(g, rev, y, block) && y.0 < nodes@.len() && nodes@[y.0 as int].rpo_number > 1 implies nodes@[r.0 as int].rpo_number
                <= nodes@[y.0 as int].rpo_number by {
            assert(preds@.contains(y));
            let k = preds@.index_of(y);
            assert(nodes@[preds@[k].0 as int].rpo_number > 1);
        }
    }
    r
}

/// The blocks of `po` are numbered in reverse postorder from index `lo` on (the last one
/// gets 2), the others of `po` are marked DONE, and the blocks not in `po` are untouched.
pub open spec fn numbered(ns: Seq<DomTreeNode>, po: Seq<Block>, lo: int) -> bool {
    &&& forall|i: int|
        0 <= i < po.len() ==> (#[trigger] ns[po[i].0 as int]).rpo_number as int == (if i >= lo {
            po.len() + 1 - i
        } else {
            DONE as int
        })
    &&& forall|v: int|
        0 <= v < ns.len() && !po.contains(Block(v as u32)) ==> #[trigger] ns[v] == (DomTreeNode { rpo_number: UNDEF, idom: None })
}

/// Cooper's step applied to `b` gives back its immediate dominator.
#[verifier::opaque]
pub open spec fn settled(ns: Seq<DomTreeNode>, g: Seq<Seq<Block>>, rev: bool, b: Block) -> bool {
    forall|l: Seq<Block>| #[trigger] is_in_list(g, rev, b, l) ==> spec_fold_idom(ns, l) == ns[b.0 as int].idom
}

/// The dominator tree built from the postorder `po` of the graph walked: the blocks of
/// `po` numbered in reverse postorder from 2, the others untouched; the last block (the
/// root) without immediate dominator; every other block of `po` with one that is
/// numbered below it and that Cooper's step gives back; and every block of `po` dominated
/// by each block that lies on every path from the root to it.
pub open spec fn is_dom_tree(ns: Seq<DomTreeNode>, g: Seq<Seq<Block>>, rev: bool, po: Seq<Block>) -> bool {
    &&& ns.len() == g.len()
    &&& tree_ok(ns)
    &&& numbered(ns, po, 0)
    &&& po.len() > 0 ==> ns[po.last().0 as int].idom is None
    &&& forall|i: int| 0 <= i < po.len() - 1 ==> #[trigger] settled(ns, g, rev, po[i])
    &&& forall|q: int, d: Block|
        0 <= q < po.len() && d.0 < ns.len() && #[trigger] on_every_path(g, rev, po.last(), po[q], d) ==> spec_dominates(
            ns,
            po[q],
            d,
        )
}

/// Node `v` has an immediate dominator numbered from 2 on and below `v`.
pub open spec fn idom_below(ns: Seq<DomTreeNode>, v: int) -> bool {
    ns[v].idom matches Some(p) && 0 <= p.0 < ns.len() && 2 <= ns[p.0 as int].rpo_number < ns[v].rpo_number
}

/// The number of the immediate dominator of node `u` (0 without one).
pub open spec fn idom_rank(ns: Seq<DomTreeNode>, u: int) -> nat {
    match ns[u].idom {
        Some(p) => if 0 <= p.0 < ns.len() {
            ns[p.0 as int].rpo_number as nat
        } else {
            0nat
        },
        None => 0nat,
    }
}

/// The numbers of the immediate dominators, summed over the first `k` nodes.
pub open spec fn rank_sum(ns: Seq<DomTreeNode>, k: int) -> nat
    decreases k,
{
    if k <= 0 {
        0
    } else {
        rank_sum(ns, k - 1) + idom_rank(ns, k - 1)
    }
}

proof fn lemma_rank_sum_update(ns: Seq<DomTreeNode>, v: int, node: DomTreeNode, k: int)
    requires
        0 <= v < ns.len(),
        0 <= k <= ns.len(),
        node.rpo_number == ns[v].rpo_number,
    ensures
        rank_sum(ns.update(v, node), k) == rank_sum(ns, k) + (if v < k {
            idom_rank(ns.update(v, node), v) - idom_rank(ns, v)
        } else {
            0int
        }),
    decreases k,
{
    let ns2 = ns.update(v, node);
    if k > 0 {
        lemma_rank_sum_update(ns, v, node, k - 1);
        let u = k - 1;
        if u != v {
            assert(ns2[u] == ns[u]);
            match ns[u].idom {
                Some(p) => {
                    if 0 <= p.0 < ns.len() {
                        if p.0 as int == v {
                            assert(ns2[v].rpo_number == ns[v].rpo_number);
                        } else {
                            assert(ns2[p.0 as int] == ns[p.0 as int]);
                        }
                    }
                },
                None => {},
            }
            assert(idom_rank(ns2, u) == idom_rank(ns, u));
        }
    }
}

/// A postorder of distinct blocks below `n` has at most `n` blocks.
proof fn lemma_distinct_blocks_len(po: Seq<Block>, n: int)
    requires
        po.no_duplicates(),
        forall|i: int| 0 <= i < po.len() ==> (#[trigger] po[i]).0 < n,
        0 <= n,
    ensures
        po.len() <= n,
{
    let ints = po.map_values(|b: Block| b.0 as int);
    assert(ints.no_duplicates()) by {
        assert forall|a: int, b: int| 0 <= a < ints.len() && 0 <= b < ints.len() && a != b implies ints[a] != ints[b] by {
            assert(po[a] != po[b]);
        }
    }
    ints.unique_seq_to_set();
    vstd::set_lib::lemma_int_range(0, n);
    assert(ints.to_set().subset_of(vstd::set_lib::set_int_range(0, n))) by {
        assert forall|x: int| ints.to_set().contains(x) implies vstd::set_lib::set_int_range(0, n).contains(x) by {
            let k = ints.index_of(x);
            assert(ints[k] == po[k].0 as int);
        }
    }
    vstd::set_lib::lemma_len_subset(ints.to_set(), vstd::set_lib::set_int_range(0, n));
}

/// From the numbering: numbers from 2 on are distinct and belong to blocks of `po`.
#[verifier::spinoff_prover]
proof fn lemma_numbered(ns: Seq<DomTreeNode>, po: Seq<Block>, lo: int)
    requires
        numbered(ns, po, lo),
        0 <= lo,
        po.no_duplicates(),
        forall|i: int| 0 <= i < po.len() ==> (#[trigger] po[i]).0 < ns.len(),
        ns.len() < u32::MAX,
    ensures
        forall|v: int| 0 <= v < ns.len() && (#[trigger] ns[v]).rpo_number >= 2 ==> exists|i: int| lo <= i < po.len() && po[i] == Block(v as u32),
        forall|a: int, b: int|
            0 <= a < ns.len() && 0 <= b < ns.len() && (#[trigger] ns[a]).rpo_number >= 2 && ns[a].rpo_number == (#[trigger] ns[b]).rpo_number ==> a == b,
{
    assert forall|v: int| 0 <= v < ns.len() && (#[trigger] ns[v]).rpo_number >= 2 implies exists|i: int| lo <= i < po.len() && po[i] == Block(v as u32) by {
        if !po.contains(Block(v as u32)) {
            assert(ns[v] == (DomTreeNode { rpo_number: UNDEF, idom: None }));
        }
        let i = po.index_of(Block(v as u32));
        assert(po[i].0 as int == v);
        assert(ns[po[i].0 as int].rpo_number >= 2);
    }
    assert forall|a: int, b: int|
        0 <= a < ns.len() && 0 <= b < ns.len() && (#[trigger] ns[a]).rpo_number >= 2 && ns[a].rpo_number == (#[trigger] ns[b]).rpo_number implies a == b by {
        let ia = choose|i: int| lo <= i < po.len() && po[i] == Block(a as u32);
        let ib = choose|i: int| lo <= i < po.len() && po[i] == Block(b as u32);
        assert(po[ia].0 as int == a);
        assert(po[ib].0 as int == b);
        assert(ns[po[ia].0 as int].rpo_number == po.len() + 1 - ia);
        assert(ns[po[ib].0 as int].rpo_number == po.len() + 1 - ib);
        assert(ia == ib);
    }
}


/// A finished tree: besides `tree_ok`, the nodes numbered 2 or below have no immediate
/// dominator, so walking up from any node ends.
pub open spec fn tree_closed(ns: Seq<DomTreeNode>) -> bool {
    &&& tree_ok(ns)
    &&& forall|v: int| 0 <= v < ns.len() && (#[trigger] ns[v]).rpo_number <= 2 ==> ns[v].idom is None
}

/// A built dominator tree is closed.
pub proof fn lemma_dom_tree_closed(ns: Seq<DomTreeNode>, g: Seq<Seq<Block>>, rev: bool, po: Seq<Block>)
    requires
        is_dom_tree(ns, g, rev, po),
        po.no_duplicates(),
    ensures
        tree_closed(ns),
{
    assert forall|v: int| 0 <= v < ns.len() && (#[trigger] ns[v]).rpo_number <= 2 implies ns[v].idom is None by {
        if po.contains(Block(v as u32)) {
            let i = po.index_of(Block(v as u32));
            assert(ns[po[i].0 as int].rpo_number as int == po.len() + 1 - i);
            assert(po[i].0 as int == v);
            assert(i == po.len() - 1);
        } else {
            assert(ns[v] == (DomTreeNode { rpo_number: UNDEF, idom: None }));
        }
    }
}

/// `d` dominates `b` in the tree: walking up from `b` over the immediate dominators
/// while the number stays above that of `d` ends at `d`.
pub open spec fn spec_dominates(ns: Seq<DomTreeNode>, b: Block, d: Block) -> bool
    decreases ns[b.0 as int].rpo_number,
{
    if ns[b.0 as int].rpo_number > ns[d.0 as int].rpo_number {
        match ns[b.0 as int].idom {
            Some(p) => if ns[p.0 as int].rpo_number < ns[b.0 as int].rpo_number {
                spec_dominates(ns, p, d)
            } else {
                false
            },
            None => false,
        }
    } else {
        b == d
    }
}

/// The blocks that walking up from `pos` visits before it reaches `end`.
pub open spec fn on_walk(ns: Seq<DomTreeNode>, pos: Block, end: Option<Block>, x: Block) -> bool
    decreases ns[pos.0 as int].rpo_number,
{
    if Some(pos) == end {
        false
    } else {
        x == pos || match ns[pos.0 as int].idom {
            Some(q) => if ns[q.0 as int].rpo_number < ns[pos.0 as int].rpo_number {
                on_walk(ns, q, end, x)
            } else {
                false
            },
            None => false,
        }
    }
}

/// Whether `d` dominates `b`: walk up from `b` while its number is above that of `d`.
pub(crate) fn dominates_(nodes: &Vec<DomTreeNode>, block: Block, dominator: Block) -> (r: bool)
    requires
        tree_closed(nodes@),
        block.0 < nodes@.len(),
        dominator.0 < nodes@.len(),
    ensures
        r == spec_dominates(nodes@, block, dominator),
{
    let ghost ns = nodes@;
    let mut b = block;
    while nodes[b.0 as usize].rpo_number > nodes[dominator.0 as usize].rpo_number
        invariant
            ns == nodes@,
            tree_closed(ns),
            b.0 < ns.len(),
            dominator.0 < ns.len(),
            spec_dominates(ns, b, dominator) == spec_dominates(ns, block, dominator),
        decreases ns[b.0 as int].rpo_number,
    {
        match nodes[b.0 as usize].idom {
            Some(parent) => {
                proof {
                    assert(ns[b.0 as int].rpo_number > 2);
                }
                b = parent;
            },
            None => {
                return false;
            },
        }
    }
    b.0 == dominator.0
}


/// Walking up only reaches blocks numbered no higher: a dominator of `b` is numbered
/// at most like `b`.
pub proof fn lemma_dominator_number(ns: Seq<DomTreeNode>, b: Block, d: Block)
    requires
        spec_dominates(ns, b, d),
    ensures
        ns[d.0 as int].rpo_number <= ns[b.0 as int].rpo_number,
    decreases ns[b.0 as int].rpo_number,
{
    if ns[b.0 as int].rpo_number > ns[d.0 as int].rpo_number {
    } else {
        assert(b == d);
    }
}

/// Every block dominates itself.
pub proof fn lemma_dominates_reflexive(ns: Seq<DomTreeNode>, b: Block)
    ensures
        spec_dominates(ns, b, b),
{
}

/// Dominance is transitive.
pub proof fn lemma_dominates_transitive(ns: Seq<DomTreeNode>, b: Block, c: Block, d: Block)
    requires
        spec_dominates(ns, b, c),
        spec_dominates(ns, c, d),
    ensures
        spec_dominates(ns, b, d),
    decreases ns[b.0 as int].rpo_number,
{
    lemma_dominator_number(ns, c, d);
    if ns[b.0 as int].rpo_number > ns[c.0 as int].rpo_number {
        let p = ns[b.0 as int].idom.unwrap();
        lemma_dominates_transitive(ns, p, c, d);
    } else {
        assert(b == c);
    }
}

/// Two blocks that dominate each other are the same block.
pub proof fn lemma_dominates_antisymmetric(ns: Seq<DomTreeNode>, b: Block, d: Block)
    requires
        spec_dominates(ns, b, d),
        spec_dominates(ns, d, b),
    ensures
        b == d,
{
    lemma_dominator_number(ns, b, d);
    lemma_dominator_number(ns, d, b);
}

/// In a dominator tree built from the postorder `po`, the root (the entry, or the exit
/// for the post-dominator tree) dominates every block of `po`.
pub proof fn lemma_root_dominates(ns: Seq<DomTreeNode>, g: Seq<Seq<Block>>, rev: bool, po: Seq<Block>, b: Block)
    requires
        is_dom_tree(ns, g, rev, po),
        po.no_duplicates(),
        forall|i: int| 0 <= i < po.len() ==> (#[trigger] po[i]).0 < ns.len(),
        po.contains(b),
    ensures
        spec_dominates(ns, b, po.last()),
    decreases ns[b.0 as int].rpo_number,
{
    let len = po.len() as int;
    let root = po[len - 1];
    let i = po.index_of(b);
    assert(ns[po[i].0 as int].rpo_number as int == len + 1 - i);
    assert(ns[po[len - 1].0 as int].rpo_number as int == 2);
    if i == len - 1 {
    } else {
        lemma_numbered(ns, po, 0);
        assert(ns[b.0 as int].rpo_number > 2);
        let p = ns[b.0 as int].idom.unwrap();
        assert(2 <= ns[p.0 as int].rpo_number);
        let j = choose|j: int| 0 <= j < len && po[j] == Block(p.0 as int as u32);
        assert(Block(p.0 as int as u32) == p);
        assert(po.contains(p));
        lemma_root_dominates(ns, g, rev, po, p);
    }
}


/// Two blocks that both dominate `x` in the tree are comparable: one dominates the other.
pub proof fn lemma_dominators_comparable(ns: Seq<DomTreeNode>, x: Block, d1: Block, d2: Block)
    requires
        spec_dominates(ns, x, d1),
        spec_dominates(ns, x, d2),
    ensures
        spec_dominates(ns, d1, d2) || spec_dominates(ns, d2, d1),
    decreases ns[x.0 as int].rpo_number,
{
    let rx = ns[x.0 as int].rpo_number;
    if rx > ns[d1.0 as int].rpo_number && rx > ns[d2.0 as int].rpo_number {
        let p = ns[x.0 as int].idom.unwrap();
        lemma_dominators_comparable(ns, p, d1, d2);
    } else if rx <= ns[d1.0 as int].rpo_number {
        assert(x == d1);
    } else {
        assert(x == d2);
    }
}

/// The common dominator that the walk finds is the nearest one: it dominates both blocks,
/// and every block that dominates both dominates it.
pub proof fn lemma_common_dominator_nearest(ns: Seq<DomTreeNode>, a: Block, b: Block)
    requires
        tree_ok(ns),
        a.0 < ns.len(),
        b.0 < ns.len(),
        ns[a.0 as int].rpo_number >= 2,
        ns[b.0 as int].rpo_number >= 2,
    ensures
        spec_common_dominator(ns, a, b).0 < ns.len(),
        ns[spec_common_dominator(ns, a, b).0 as int].rpo_number >= 2,
        spec_dominates(ns, a, spec_common_dominator(ns, a, b)),
        spec_dominates(ns, b, spec_common_dominator(ns, a, b)),
        forall|d: Block|
            #[trigger] spec_dominates(ns, a, d) && #[trigger] spec_dominates(ns, b, d) ==> spec_dominates(
                ns,
                spec_common_dominator(ns, a, b),
                d,
            ),
    decreases ns[a.0 as int].rpo_number + ns[b.0 as int].rpo_number,
{
    let ra = ns[a.0 as int].rpo_number;
    let rb = ns[b.0 as int].rpo_number;
    if ra < rb {
        let p = ns[b.0 as int].idom.unwrap();
        lemma_common_dominator_nearest(ns, a, p);
        let c = spec_common_dominator(ns, a, p);
        lemma_dominator_number(ns, p, c);
        assert forall|d: Block| #[trigger] spec_dominates(ns, a, d) && #[trigger] spec_dominates(ns, b, d) implies spec_dominates(ns, c, d) by {
            lemma_dominator_number(ns, a, d);
            if rb <= ns[d.0 as int].rpo_number {
                assert(b == d);
                assert(a != b);
                assert(false);
            } else {
                assert(spec_dominates(ns, p, d));
            }
        }
    } else if ra > rb {
        let p = ns[a.0 as int].idom.unwrap();
        lemma_common_dominator_nearest(ns, p, b);
        let c = spec_common_dominator(ns, p, b);
        lemma_dominator_number(ns, p, c);
        assert forall|d: Block| #[trigger] spec_dominates(ns, a, d) && #[trigger] spec_dominates(ns, b, d) implies spec_dominates(ns, c, d) by {
            lemma_dominator_number(ns, b, d);
            if ra <= ns[d.0 as int].rpo_number {
                assert(a == d);
                assert(a != b);
                assert(false);
            } else {
                assert(spec_dominates(ns, p, d));
            }
        }
    } else {
        assert(a.0 == b.0);
        assert(a == b);
    }
}

/// A numbered entry of `l`: one that Cooper's step takes into account.
pub open spec fn counted(ns: Seq<DomTreeNode>, l: Seq<Block>, k: int) -> bool {
    0 <= k < l.len() && ns[l[k].0 as int].rpo_number > 1
}

/// `d` dominates every numbered entry of `l`.
pub open spec fn dominates_all(ns: Seq<DomTreeNode>, l: Seq<Block>, d: Block) -> bool {
    forall|k: int| #[trigger] counted(ns, l, k) ==> spec_dominates(ns, l[k], d)
}

/// `f` is the nearest common dominator of the numbered entries of `l`.
pub open spec fn nearest_of(ns: Seq<DomTreeNode>, l: Seq<Block>, f: Block) -> bool {
    &&& dominates_all(ns, l, f)
    &&& forall|d: Block| #[trigger] dominates_all(ns, l, d) ==> spec_dominates(ns, f, d)
}

/// Dominating every numbered entry of `l` is dominating those of `l` without its last
/// entry, and the last one if it is numbered.
proof fn lemma_dominates_all_split(ns: Seq<DomTreeNode>, l: Seq<Block>, d: Block)
    requires
        l.len() > 0,
    ensures
        dominates_all(ns, l, d) == (dominates_all(ns, l.drop_last(), d) && (ns[l.last().0 as int].rpo_number > 1
            ==> spec_dominates(ns, l.last(), d))),
{
    let l0 = l.drop_last();
    if dominates_all(ns, l, d) {
        assert forall|k: int| #[trigger] counted(ns, l0, k) implies spec_dominates(ns, l0[k], d) by {
            assert(counted(ns, l, k));
        }
        if ns[l.last().0 as int].rpo_number > 1 {
            assert(counted(ns, l, l.len() - 1));
        }
    }
    if dominates_all(ns, l0, d) && (ns[l.last().0 as int].rpo_number > 1 ==> spec_dominates(ns, l.last(), d)) {
        assert forall|k: int| #[trigger] counted(ns, l, k) implies spec_dominates(ns, l[k], d) by {
            if k < l.len() - 1 {
                assert(counted(ns, l0, k));
            }
        }
    }
}

/// Cooper's step over `l` finds the nearest common dominator of the numbered entries of
/// `l`, and nothing when none is numbered.
pub proof fn lemma_fold_idom_nearest(ns: Seq<DomTreeNode>, l: Seq<Block>)
    requires
        tree_ok(ns),
        forall|k: int| 0 <= k < l.len() ==> (#[trigger] l[k]).0 < ns.len(),
    ensures
        (forall|k: int| !#[trigger] counted(ns, l, k)) ==> spec_fold_idom(ns, l) is None,
        (exists|k: int| #[trigger] counted(ns, l, k)) ==> (spec_fold_idom(ns, l) matches Some(f) && f.0 < ns.len()
            && ns[f.0 as int].rpo_number >= 2 && nearest_of(ns, l, f)),
    decreases l.len(),
{
    if l.len() > 0 {
        let l0 = l.drop_last();
        let x = l.last();
        assert forall|k: int| 0 <= k < l0.len() implies #[trigger] counted(ns, l0, k) == counted(ns, l, k) by {
            assert(l0[k] == l[k]);
        }
        assert forall|k: int| 0 <= k < l0.len() implies (#[trigger] l0[k]).0 < ns.len() by {
            assert(l0[k] == l[k]);
        }
        lemma_fold_idom_nearest(ns, l0);
        if ns[x.0 as int].rpo_number > 1 {
            assert(counted(ns, l, l.len() - 1));
            if exists|k: int| #[trigger] counted(ns, l0, k) {
                let pf = spec_fold_idom(ns, l0).unwrap();
                lemma_common_dominator_nearest(ns, pf, x);
                let f = spec_common_dominator(ns, pf, x);
                lemma_dominates_all_split(ns, l, f);
                assert(dominates_all(ns, l0, f)) by {
                    assert forall|k: int| #[trigger] counted(ns, l0, k) implies spec_dominates(ns, l0[k], f) by {
                        lemma_dominates_transitive(ns, l0[k], pf, f);
                    }
                }
                assert forall|d: Block| #[trigger] dominates_all(ns, l, d) implies spec_dominates(ns, f, d) by {
                    lemma_dominates_all_split(ns, l, d);
                }
                assert(spec_fold_idom(ns, l) == Some(f));
                assert(nearest_of(ns, l, f));
            } else {
                lemma_dominates_all_split(ns, l, x);
                assert(dominates_all(ns, l0, x));
                assert forall|d: Block| #[trigger] dominates_all(ns, l, d) implies spec_dominates(ns, x, d) by {
                    lemma_dominates_all_split(ns, l, d);
                }
                assert(spec_fold_idom(ns, l0) is None);
                assert(spec_fold_idom(ns, l) == Some(x));
                assert(x.0 < ns.len());
                assert(nearest_of(ns, l, x));
            }
        } else {
            if exists|k: int| #[trigger] counted(ns, l, k) {
                let k0 = choose|k: int| #[trigger] counted(ns, l, k);
                assert(k0 < l.len() - 1);
                assert(counted(ns, l0, k0));
                let f = spec_fold_idom(ns, l0).unwrap();
                lemma_dominates_all_split(ns, l, f);
                assert forall|d: Block| #[trigger] dominates_all(ns, l, d) implies spec_dominates(ns, f, d) by {
                    lemma_dominates_all_split(ns, l, d);
                }
                assert(spec_fold_idom(ns, l) == Some(f));
                assert(nearest_of(ns, l, f));
            } else {
                assert forall|k: int| !#[trigger] counted(ns, l0, k) by {
                    if 0 <= k < l0.len() && counted(ns, l0, k) {
                        assert(counted(ns, l, k));
                    }
                }
            }
        }
    }
}

/// Every walk up ends: a finished or growing tree in which the nodes numbered 2 or below
/// have no immediate dominator.
pub proof fn lemma_partial_tree_closed(ns: Seq<DomTreeNode>, po: Seq<Block>)
    requires
        partial_tree(ns, po, 0),
        po.len() >= 1,
        po.no_duplicates(),
        forall|i: int| 0 <= i < po.len() ==> (#[trigger] po[i]).0 < ns.len(),
    ensures
        tree_closed(ns),
{
    reveal(partial_tree);
    assert forall|v: int| 0 <= v < ns.len() && (#[trigger] ns[v]).rpo_number <= 2 implies ns[v].idom is None by {
        if po.contains(Block(v as u32)) {
            let i = po.index_of(Block(v as u32));
            assert(ns[po[i].0 as int].rpo_number as int == po.len() + 1 - i);
            assert(po[i].0 as int == v);
            assert(i == po.len() - 1);
        } else {
            assert(ns[v] == (DomTreeNode { rpo_number: UNDEF, idom: None }));
        }
    }
}

/// Giving `b` a new immediate dominator leaves dominance unchanged from blocks that `b`
/// does not dominate.
pub proof fn lemma_dominates_update_outside(ns: Seq<DomTreeNode>, b: Block, node: DomTreeNode, x: Block, d: Block)
    requires
        tree_closed(ns),
        b.0 < ns.len(),
        x.0 < ns.len(),
        d.0 < ns.len(),
        node.rpo_number == ns[b.0 as int].rpo_number,
        !spec_dominates(ns, x, b),
    ensures
        spec_dominates(ns.update(b.0 as int, node), x, d) == spec_dominates(ns, x, d),
    decreases ns[x.0 as int].rpo_number,
{
    let ns2 = ns.update(b.0 as int, node);
    assert(x != b);
    assert(ns2[x.0 as int] == ns[x.0 as int]);
    if d.0 < ns.len() {
        assert(ns2[d.0 as int].rpo_number == ns[d.0 as int].rpo_number);
    }
    if ns[x.0 as int].rpo_number > ns[d.0 as int].rpo_number {
        match ns[x.0 as int].idom {
            Some(p) => {
                if ns[p.0 as int].rpo_number < ns[x.0 as int].rpo_number {
                    assert(p.0 < ns.len());
                    assert(ns2[p.0 as int].rpo_number == ns[p.0 as int].rpo_number);
                    if spec_dominates(ns, p, b) {
                        lemma_dominator_number(ns, p, b);
                        assert(spec_dominates(ns, x, b));
                    }
                    lemma_dominates_update_outside(ns, b, node, p, d);
                }
            },
            None => {},
        }
    }
}


/// Giving `b` the new immediate dominator `r`, numbered below it: a block that `b`
/// dominates is then dominated by the blocks between it and `b`, and by those that
/// dominate `r`.
pub proof fn lemma_dominates_update_inside(ns: Seq<DomTreeNode>, b: Block, r: Block, x: Block, d: Block)
    requires
        tree_closed(ns),
        b.0 < ns.len(),
        r.0 < ns.len(),
        x.0 < ns.len(),
        d.0 < ns.len(),
        2 <= ns[r.0 as int].rpo_number < ns[b.0 as int].rpo_number,
        spec_dominates(ns, x, b),
    ensures
        spec_dominates(ns.update(b.0 as int, DomTreeNode { rpo_number: ns[b.0 as int].rpo_number, idom: Some(r) }), x, d)
            == ((spec_dominates(ns, x, d) && spec_dominates(ns, d, b)) || spec_dominates(ns, r, d)),
    decreases ns[x.0 as int].rpo_number,
{
    let node = DomTreeNode { rpo_number: ns[b.0 as int].rpo_number, idom: Some(r) };
    let ns2 = ns.update(b.0 as int, node);
    assert(ns2[d.0 as int].rpo_number == ns[d.0 as int].rpo_number);
    assert(ns2[x.0 as int].rpo_number == ns[x.0 as int].rpo_number);
    if !spec_dominates(ns, r, b) {
    } else {
        lemma_dominator_number(ns, r, b);
    }
    if x == b {
        assert(ns2[b.0 as int] == node);
        assert(ns2[r.0 as int].rpo_number == ns[r.0 as int].rpo_number);
        lemma_dominates_update_outside(ns, b, node, r, d);
        if ns[b.0 as int].rpo_number > ns[d.0 as int].rpo_number {
            if spec_dominates(ns, d, b) {
                lemma_dominator_number(ns, d, b);
            }
        } else {
            if spec_dominates(ns, r, d) {
                lemma_dominator_number(ns, r, d);
            }
        }
    } else {
        lemma_dominator_number(ns, x, b);
        assert(x.0 != b.0);
        assert(ns2[x.0 as int] == ns[x.0 as int]);
        let p = ns[x.0 as int].idom.unwrap();
        assert(spec_dominates(ns, p, b));
        assert(p.0 < ns.len());
        assert(ns2[p.0 as int].rpo_number == ns[p.0 as int].rpo_number);
        if ns[x.0 as int].rpo_number > ns[d.0 as int].rpo_number {
            lemma_dominates_update_inside(ns, b, r, p, d);
        } else {
            if spec_dominates(ns, r, d) {
                lemma_dominator_number(ns, r, d);
            }
            if spec_dominates(ns, x, d) {
                assert(x == d);
            }
        }
    }
}


/// The successor lists of `g` name blocks of `g`.
pub open spec fn succs_in_range(g: Seq<Seq<Block>>) -> bool {
    forall|b: int, x: Block| 0 <= b < g.len() && #[trigger] g[b].contains(x) ==> x.0 < g.len()
}

/// The position, later in the postorder, of a block with an edge to `po[i]`.
spec fn fwd(g: Seq<Seq<Block>>, rev: bool, po: Seq<Block>, i: int) -> int {
    choose|j: int| i < j < po.len() && #[trigger] walk_edge(g, rev, po[j], po[i])
}

/// Cooper's step at `b` gives a block that dominates the immediate dominator of `b`.
spec fn fold_above(ns: Seq<DomTreeNode>, g: Seq<Seq<Block>>, rev: bool, b: Block) -> bool {
    forall|l: Seq<Block>| #[trigger] is_in_list(g, rev, b, l) ==> (spec_fold_idom(ns, l) matches Some(c) && (
    ns[b.0 as int].idom matches Some(y) && spec_dominates(ns, y, c)))
}

/// The immediate dominator of `po[q]` dominates the block at `fwd(q)`.
spec fn fwd_dominated(ns: Seq<DomTreeNode>, g: Seq<Seq<Block>>, rev: bool, po: Seq<Block>, q: int) -> bool {
    ns[po[q].0 as int].idom matches Some(y) && spec_dominates(ns, po[fwd(g, rev, po, q)], y)
}

/// What Cooper's iteration keeps, before the step at the block numbered `k`: the step
/// never gives a block below the current immediate dominator; and the immediate dominator
/// of a block already stepped over in this round, or of one whose immediate dominator is
/// numbered from `k` on, dominates its edge source at `fwd`.
spec fn step_inv(ns: Seq<DomTreeNode>, g: Seq<Seq<Block>>, rev: bool, po: Seq<Block>, k: int) -> bool {
    &&& forall|q: int| 0 <= q < po.len() - 1 ==> #[trigger] fold_above(ns, g, rev, po[q])
    &&& forall|q: int|
        0 <= q < po.len() - 1 && (ns[po[q].0 as int].rpo_number < k || ns[ns[po[q].0 as int].idom.unwrap().0 as int].rpo_number
            >= k) ==> #[trigger] fwd_dominated(ns, g, rev, po, q)
}

/// The entries of a list of edge sources of `b` are blocks with an edge to `b`.
proof fn lemma_list_edges(g: Seq<Seq<Block>>, rev: bool, b: Block, l: Seq<Block>)
    requires
        succs_in_range(g),
        b.0 < g.len(),
        is_in_list(g, rev, b, l),
    ensures
        forall|k: int| 0 <= k < l.len() ==> (#[trigger] l[k]).0 < g.len() && walk_edge(g, rev, l[k], b),
        forall|y: Block| #[trigger] walk_edge(g, rev, y, b) ==> l.contains(y),
{
    assert forall|k: int| 0 <= k < l.len() implies (#[trigger] l[k]).0 < g.len() && walk_edge(g, rev, l[k], b) by {
        assert(l.contains(l[k]));
    }
}


/// The facts about the tree and the postorder that one step of the iteration uses.
spec fn step_ctx(ns: Seq<DomTreeNode>, g: Seq<Seq<Block>>, rev: bool, po: Seq<Block>) -> bool {
    &&& tree_closed(ns)
    &&& numbered(ns, po, 0)
    &&& po.no_duplicates()
    &&& po.len() >= 1
    &&& forall|k: int| 0 <= k < po.len() ==> (#[trigger] po[k]).0 < ns.len()
    &&& forall|k: int| 0 <= k < po.len() - 1 ==> #[trigger] reached_from_later(g, rev, po, k)
    &&& forall|k: int| 0 <= k < po.len() - 1 ==> #[trigger] idom_below(ns, po[k].0 as int)
    &&& ns.len() == g.len()
    &&& succs_in_range(g)
}

/// The block at `fwd(q)` has an edge to `po[q]` and is numbered below it.
proof fn lemma_fwd(ns: Seq<DomTreeNode>, g: Seq<Seq<Block>>, rev: bool, po: Seq<Block>, q: int)
    requires
        step_ctx(ns, g, rev, po),
        0 <= q < po.len() - 1,
    ensures
        q < fwd(g, rev, po, q) < po.len(),
        walk_edge(g, rev, po[fwd(g, rev, po, q)], po[q]),
        po[fwd(g, rev, po, q)].0 < ns.len(),
        2 <= ns[po[fwd(g, rev, po, q)].0 as int].rpo_number < ns[po[q].0 as int].rpo_number,
{
    assert(reached_from_later(g, rev, po, q));
    let j = fwd(g, rev, po, q);
    assert(ns[po[j].0 as int].rpo_number as int == po.len() + 1 - j);
    assert(ns[po[q].0 as int].rpo_number as int == po.len() + 1 - q);
}

/// One step of the iteration that gives `po[i]` the new immediate dominator `r` keeps
/// Cooper's step at any other block `po[q]` at or above the immediate dominator of `po[q]`.
proof fn lemma_step_other(ns: Seq<DomTreeNode>, g: Seq<Seq<Block>>, rev: bool, po: Seq<Block>, i: int, r: Block, q: int)
    requires
        step_ctx(ns, g, rev, po),
        0 <= i < po.len() - 1,
        0 <= q < po.len() - 1,
        q != i,
        r.0 < ns.len(),
        2 <= ns[r.0 as int].rpo_number < ns[po[i].0 as int].rpo_number,
        spec_dominates(ns, ns[po[i].0 as int].idom.unwrap(), r),
        tree_ok(ns.update(po[i].0 as int, DomTreeNode { rpo_number: ns[po[i].0 as int].rpo_number, idom: Some(r) })),
        fold_above(ns, g, rev, po[q]),
        ns[ns[po[q].0 as int].idom.unwrap().0 as int].rpo_number >= ns[po[i].0 as int].rpo_number ==> fwd_dominated(
            ns,
            g,
            rev,
            po,
            q,
        ),
    ensures
        fold_above(ns.update(po[i].0 as int, DomTreeNode { rpo_number: ns[po[i].0 as int].rpo_number, idom: Some(r) }), g, rev, po[q]),
{
    let b = po[i];
    let node = DomTreeNode { rpo_number: ns[b.0 as int].rpo_number, idom: Some(r) };
    let ns2 = ns.update(b.0 as int, node);
    let x = po[q];
    let cur = ns[b.0 as int].idom.unwrap();
    assert(idom_below(ns, b.0 as int));
    assert(idom_below(ns, x.0 as int));
    let y = ns[x.0 as int].idom.unwrap();
    assert(spec_dominates(ns, cur, cur));
    assert(spec_dominates(ns, b, cur));
    lemma_dominates_transitive(ns, b, cur, r);
    assert(x.0 != b.0) by {
        assert(po[q] != po[i]);
    }
    assert(ns2[x.0 as int] == ns[x.0 as int]);
    lemma_fwd(ns, g, rev, po, q);
    let pf = po[fwd(g, rev, po, q)];
    assert forall|l: Seq<Block>| #[trigger] is_in_list(g, rev, x, l) implies (spec_fold_idom(ns2, l) matches Some(c) && (
    ns2[x.0 as int].idom matches Some(y2) && spec_dominates(ns2, y2, c))) by {
        lemma_list_edges(g, rev, x, l);
        lemma_fold_idom_nearest(ns, l);
        lemma_fold_idom_nearest(ns2, l);
        assert(l.contains(pf));
        let kp = l.index_of(pf);
        assert(counted(ns, l, kp));
        assert(counted(ns2, l, kp));
        let f = spec_fold_idom(ns, l).unwrap();
        let f2 = spec_fold_idom(ns2, l).unwrap();
        assert(spec_dominates(ns, y, f));
        assert forall|k: int| #[trigger] counted(ns, l, k) implies spec_dominates(ns, l[k], f2) by {
            assert(counted(ns2, l, k));
            assert(spec_dominates(ns2, l[k], f2));
            if spec_dominates(ns, l[k], b) {
                lemma_dominates_update_inside(ns, b, r, l[k], f2);
                if spec_dominates(ns, r, f2) {
                    lemma_dominates_transitive(ns, l[k], b, r);
                    lemma_dominates_transitive(ns, l[k], r, f2);
                }
            } else {
                lemma_dominates_update_outside(ns, b, node, l[k], f2);
            }
        }
        assert(dominates_all(ns, l, f2));
        assert(spec_dominates(ns, f, f2));
        lemma_dominates_transitive(ns, y, f, f2);
        if spec_dominates(ns, y, b) {
            lemma_dominates_update_inside(ns, b, r, y, f2);
            lemma_dominators_comparable(ns, y, f2, b);
            if !spec_dominates(ns, f2, b) {
                lemma_dominators_comparable(ns, b, f2, r);
                if !spec_dominates(ns, r, f2) {
                    lemma_dominator_number(ns, y, b);
                    assert(fwd_dominated(ns, g, rev, po, q));
                    lemma_dominates_transitive(ns, pf, y, b);
                    assert(spec_dominates(ns2, pf, f2));
                    lemma_dominates_update_inside(ns, b, r, pf, f2);
                }
            }
        } else {
            lemma_dominates_update_outside(ns, b, node, y, f2);
        }
    }
}


/// One step of the iteration that gives `po[i]` the immediate dominator `r` that Cooper's
/// step computes for it: the step at `po[i]` then gives `r` back, and `r` dominates the
/// edge source of `po[i]` at `fwd`.
proof fn lemma_step_self(ns: Seq<DomTreeNode>, g: Seq<Seq<Block>>, rev: bool, po: Seq<Block>, i: int, r: Block)
    requires
        step_ctx(ns, g, rev, po),
        0 <= i < po.len() - 1,
        r.0 < ns.len(),
        2 <= ns[r.0 as int].rpo_number < ns[po[i].0 as int].rpo_number,
        tree_ok(ns.update(po[i].0 as int, DomTreeNode { rpo_number: ns[po[i].0 as int].rpo_number, idom: Some(r) })),
        forall|l: Seq<Block>| #[trigger] is_in_list(g, rev, po[i], l) ==> spec_fold_idom(ns, l) == Some(r),
        exists|l: Seq<Block>| #[trigger] is_in_list(g, rev, po[i], l),
    ensures
        fold_above(ns.update(po[i].0 as int, DomTreeNode { rpo_number: ns[po[i].0 as int].rpo_number, idom: Some(r) }), g, rev, po[i]),
        fwd_dominated(ns.update(po[i].0 as int, DomTreeNode { rpo_number: ns[po[i].0 as int].rpo_number, idom: Some(r) }), g, rev, po, i),
        fwd_dominated(ns, g, rev, po, i) <== ns[po[i].0 as int].idom == Some(r),
{
    let b = po[i];
    let node = DomTreeNode { rpo_number: ns[b.0 as int].rpo_number, idom: Some(r) };
    let ns2 = ns.update(b.0 as int, node);
    assert(ns2[b.0 as int] == node);
    lemma_fwd(ns, g, rev, po, i);
    let pf = po[fwd(g, rev, po, i)];
    assert(!spec_dominates(ns, r, b)) by {
        if spec_dominates(ns, r, b) {
            lemma_dominator_number(ns, r, b);
        }
    }
    assert(!spec_dominates(ns, pf, b)) by {
        if spec_dominates(ns, pf, b) {
            lemma_dominator_number(ns, pf, b);
        }
    }
    let l0 = choose|l: Seq<Block>| #[trigger] is_in_list(g, rev, b, l);
    lemma_list_edges(g, rev, b, l0);
    lemma_fold_idom_nearest(ns, l0);
    assert(l0.contains(pf));
    let kp0 = l0.index_of(pf);
    assert(counted(ns, l0, kp0));
    assert(spec_dominates(ns, pf, r));
    lemma_dominates_update_outside(ns, b, node, pf, r);
    assert forall|l: Seq<Block>| #[trigger] is_in_list(g, rev, b, l) implies (spec_fold_idom(ns2, l) matches Some(c) && (
    ns2[b.0 as int].idom matches Some(y2) && spec_dominates(ns2, y2, c))) by {
        lemma_list_edges(g, rev, b, l);
        lemma_fold_idom_nearest(ns, l);
        lemma_fold_idom_nearest(ns2, l);
        assert(l.contains(pf));
        let kp = l.index_of(pf);
        assert(counted(ns, l, kp));
        assert(counted(ns2, l, kp));
        let f2 = spec_fold_idom(ns2, l).unwrap();
        assert forall|k: int| #[trigger] counted(ns, l, k) implies spec_dominates(ns, l[k], f2) by {
            assert(counted(ns2, l, k));
            assert(spec_dominates(ns2, l[k], f2));
            assert(spec_dominates(ns, l[k], r));
            if spec_dominates(ns, l[k], b) {
                lemma_dominates_update_inside(ns, b, r, l[k], f2);
                if spec_dominates(ns, r, f2) {
                    lemma_dominates_transitive(ns, l[k], r, f2);
                }
            } else {
                lemma_dominates_update_outside(ns, b, node, l[k], f2);
            }
        }
        assert(dominates_all(ns, l, f2));
        assert(spec_dominates(ns, r, f2));
        lemma_dominates_update_outside(ns, b, node, r, f2);
    }
}

/// One step at `po[i]`, numbered `k`, keeps the immediate dominator of another block
/// `po[q]` dominating its edge source at `fwd`, where the iteration needs it after the step.
proof fn lemma_step_fwd_other(ns: Seq<DomTreeNode>, g: Seq<Seq<Block>>, rev: bool, po: Seq<Block>, i: int, r: Block, q: int)
    requires
        step_ctx(ns, g, rev, po),
        0 <= i < po.len() - 1,
        0 <= q < po.len() - 1,
        q != i,
        r.0 < ns.len(),
        2 <= ns[r.0 as int].rpo_number < ns[po[i].0 as int].rpo_number,
        ({
            let k = ns[po[i].0 as int].rpo_number;
            let x = po[q];
            (ns[x.0 as int].rpo_number < k || ns[ns[x.0 as int].idom.unwrap().0 as int].rpo_number >= k) ==> fwd_dominated(ns, g, rev, po, q)
        }),
        ({
            let k = ns[po[i].0 as int].rpo_number + 1;
            let x = po[q];
            ns[x.0 as int].rpo_number < k || ns[ns[x.0 as int].idom.unwrap().0 as int].rpo_number >= k
        }),
    ensures
        fwd_dominated(ns.update(po[i].0 as int, DomTreeNode { rpo_number: ns[po[i].0 as int].rpo_number, idom: Some(r) }), g, rev, po, q),
        fwd_dominated(ns, g, rev, po, q),
{
    let b = po[i];
    let node = DomTreeNode { rpo_number: ns[b.0 as int].rpo_number, idom: Some(r) };
    let ns2 = ns.update(b.0 as int, node);
    let x = po[q];
    assert(x.0 != b.0) by {
        assert(po[q] != po[i]);
    }
    assert(ns[x.0 as int].rpo_number as int == po.len() + 1 - q);
    assert(ns[b.0 as int].rpo_number as int == po.len() + 1 - i);
    assert(ns2[x.0 as int] == ns[x.0 as int]);
    assert(idom_below(ns, x.0 as int));
    let y = ns[x.0 as int].idom.unwrap();
    lemma_fwd(ns, g, rev, po, q);
    let pf = po[fwd(g, rev, po, q)];
    assert(fwd_dominated(ns, g, rev, po, q));
    assert(spec_dominates(ns, pf, y));
    if spec_dominates(ns, pf, b) {
        lemma_dominator_number(ns, pf, b);
        lemma_dominates_update_inside(ns, b, r, pf, y);
        lemma_dominators_comparable(ns, pf, y, b);
        if spec_dominates(ns, b, y) {
            lemma_dominator_number(ns, b, y);
        }
    } else {
        lemma_dominates_update_outside(ns, b, node, pf, y);
    }
}


/// Taking the new immediate dominator `r` at `po[i]`, numbered `k`, keeps what the
/// iteration keeps, for the next block.
#[verifier::spinoff_prover]
proof fn lemma_step_changed(ns: Seq<DomTreeNode>, g: Seq<Seq<Block>>, rev: bool, po: Seq<Block>, i: int, r: Block)
    requires
        step_ctx(ns, g, rev, po),
        0 <= i < po.len() - 1,
        step_inv(ns, g, rev, po, po.len() + 1 - i),
        r.0 < ns.len(),
        2 <= ns[r.0 as int].rpo_number < ns[po[i].0 as int].rpo_number,
        spec_dominates(ns, ns[po[i].0 as int].idom.unwrap(), r),
        tree_ok(ns.update(po[i].0 as int, DomTreeNode { rpo_number: ns[po[i].0 as int].rpo_number, idom: Some(r) })),
        forall|l: Seq<Block>| #[trigger] is_in_list(g, rev, po[i], l) ==> spec_fold_idom(ns, l) == Some(r),
        exists|l: Seq<Block>| #[trigger] is_in_list(g, rev, po[i], l),
    ensures
        step_inv(
            ns.update(po[i].0 as int, DomTreeNode { rpo_number: ns[po[i].0 as int].rpo_number, idom: Some(r) }),
            g,
            rev,
            po,
            po.len() + 2 - i,
        ),
{
    let b = po[i];
    let k = po.len() + 1 - i;
    let node = DomTreeNode { rpo_number: ns[b.0 as int].rpo_number, idom: Some(r) };
    let ns2 = ns.update(b.0 as int, node);
    assert(ns[b.0 as int].rpo_number as int == k);
    assert forall|q: int| 0 <= q < po.len() - 1 implies #[trigger] fold_above(ns2, g, rev, po[q]) by {
        if q == i {
            lemma_step_self(ns, g, rev, po, i, r);
        } else {
            assert(ns[po[q].0 as int].rpo_number as int == po.len() + 1 - q);
            assert(idom_below(ns, po[q].0 as int));
            assert(fold_above(ns, g, rev, po[q]));
            lemma_step_other(ns, g, rev, po, i, r, q);
        }
    }
    assert forall|q: int|
        0 <= q < po.len() - 1 && (ns2[po[q].0 as int].rpo_number < k + 1 || ns2[ns2[po[q].0 as int].idom.unwrap().0 as int].rpo_number
            >= k + 1) implies #[trigger] fwd_dominated(ns2, g, rev, po, q) by {
        if q == i {
            lemma_step_self(ns, g, rev, po, i, r);
        } else {
            assert(po[q] != po[i]);
            assert(ns2[po[q].0 as int] == ns[po[q].0 as int]);
            assert(idom_below(ns, po[q].0 as int));
            let y = ns[po[q].0 as int].idom.unwrap();
            assert(ns2[y.0 as int].rpo_number == ns[y.0 as int].rpo_number);
            lemma_step_fwd_other(ns, g, rev, po, i, r, q);
        }
    }
}

/// Keeping the immediate dominator at `po[i]`, numbered `k`, which the step gives back,
/// keeps what the iteration keeps, for the next block.
#[verifier::spinoff_prover]
proof fn lemma_step_same(ns: Seq<DomTreeNode>, g: Seq<Seq<Block>>, rev: bool, po: Seq<Block>, i: int)
    requires
        step_ctx(ns, g, rev, po),
        0 <= i < po.len() - 1,
        step_inv(ns, g, rev, po, po.len() + 1 - i),
        forall|l: Seq<Block>| #[trigger] is_in_list(g, rev, po[i], l) ==> spec_fold_idom(ns, l) == ns[po[i].0 as int].idom,
        exists|l: Seq<Block>| #[trigger] is_in_list(g, rev, po[i], l),
    ensures
        step_inv(ns, g, rev, po, po.len() + 2 - i),
{
    let b = po[i];
    let k = po.len() + 1 - i;
    assert(ns[b.0 as int].rpo_number as int == k);
    assert(idom_below(ns, b.0 as int));
    let r = ns[b.0 as int].idom.unwrap();
    let node = DomTreeNode { rpo_number: ns[b.0 as int].rpo_number, idom: Some(r) };
    assert(ns.update(b.0 as int, node) =~= ns);
    assert forall|q: int|
        0 <= q < po.len() - 1 && (ns[po[q].0 as int].rpo_number < k + 1 || ns[ns[po[q].0 as int].idom.unwrap().0 as int].rpo_number
            >= k + 1) implies #[trigger] fwd_dominated(ns, g, rev, po, q) by {
        if q == i {
            lemma_step_self(ns, g, rev, po, i, r);
        } else {
            assert(ns[po[q].0 as int].rpo_number as int == po.len() + 1 - q);
            lemma_step_fwd_other(ns, g, rev, po, i, r, q);
        }
    }
}


/// Once every block but the root has been stepped over in a round, what the iteration
/// keeps holds again at the start of the next round.
proof fn lemma_step_inv_restart(ns: Seq<DomTreeNode>, g: Seq<Seq<Block>>, rev: bool, po: Seq<Block>, k: int)
    requires
        step_inv(ns, g, rev, po, po.len() + 2int),
        partial_tree(ns, po, 0),
    ensures
        step_inv(ns, g, rev, po, k),
{
    lemma_partial_tree_parts(ns, po, 0);
    assert forall|q: int|
        0 <= q < po.len() - 1 && (ns[po[q].0 as int].rpo_number < k || ns[ns[po[q].0 as int].idom.unwrap().0 as int].rpo_number >= k)
            implies #[trigger] fwd_dominated(ns, g, rev, po, q) by {
        assert(ns[po[q].0 as int].rpo_number as int == po.len() + 1 - q);
    }
}

/// A block numbered 1 or below is dominated by no numbered block.
proof fn lemma_unnumbered_not_dominator(ns: Seq<DomTreeNode>, p: Block, v: Block)
    requires
        tree_closed(ns),
        p.0 < ns.len(),
        ns[p.0 as int].rpo_number >= 2,
        ns[v.0 as int].rpo_number <= 1,
    ensures
        !spec_dominates(ns, p, v),
    decreases ns[p.0 as int].rpo_number,
{
    match ns[p.0 as int].idom {
        Some(q) => {
            if ns[q.0 as int].rpo_number < ns[p.0 as int].rpo_number {
                lemma_unnumbered_not_dominator(ns, q, v);
            }
        },
        None => {},
    }
}

/// Numbering the block `v`, numbered 1 or below before and above every numbered block
/// after, leaves dominance between numbered blocks and any block unchanged.
proof fn lemma_dominates_number_frame(ns: Seq<DomTreeNode>, v: Block, node: DomTreeNode, p: Block, d: Block)
    requires
        tree_closed(ns),
        v.0 < ns.len(),
        p.0 < ns.len(),
        d.0 < ns.len(),
        ns[v.0 as int].rpo_number <= 1,
        ns[p.0 as int].rpo_number >= 2,
        node.rpo_number > ns[p.0 as int].rpo_number,
        forall|u: int| 0 <= u < ns.len() ==> (#[trigger] ns[u]).rpo_number < node.rpo_number,
    ensures
        spec_dominates(ns.update(v.0 as int, node), p, d) == spec_dominates(ns, p, d),
    decreases ns[p.0 as int].rpo_number,
{
    let ns2 = ns.update(v.0 as int, node);
    assert(p != v);
    assert(ns2[p.0 as int] == ns[p.0 as int]);
    if d == v {
        lemma_unnumbered_not_dominator(ns, p, v);
        assert(ns2[v.0 as int] == node);
    } else {
        assert(ns2[d.0 as int] == ns[d.0 as int]);
        if ns[p.0 as int].rpo_number > ns[d.0 as int].rpo_number {
            match ns[p.0 as int].idom {
                Some(q) => {
                    if ns[q.0 as int].rpo_number < ns[p.0 as int].rpo_number {
                        assert(q.0 < ns.len());
                        assert(ns[q.0 as int].rpo_number >= 2);
                        assert(q != v);
                        assert(ns2[q.0 as int] == ns[q.0 as int]);
                        lemma_dominates_number_frame(ns, v, node, q, d);
                    }
                },
                None => {},
            }
        }
    }
}

/// `d` dominates every entry of `l` numbered from 2 on and below `m`.
spec fn early_dominates_all(ns: Seq<DomTreeNode>, l: Seq<Block>, m: int, d: Block) -> bool {
    forall|k: int| 0 <= k < l.len() && 1 < ns[l[k].0 as int].rpo_number < m ==> #[trigger] spec_dominates(ns, l[k], d)
}

/// The immediate dominator of `po[q]` is dominated by every block that dominates the
/// edge sources of `po[q]` numbered below it.
spec fn early_nearest(ns: Seq<DomTreeNode>, g: Seq<Seq<Block>>, rev: bool, po: Seq<Block>, q: int) -> bool {
    ns[po[q].0 as int].idom matches Some(y) && forall|l: Seq<Block>, d: Block|
        #[trigger] is_in_list(g, rev, po[q], l) && d.0 < ns.len() && #[trigger] early_dominates_all(
            ns,
            l,
            ns[po[q].0 as int].rpo_number as int,
            d,
        ) ==> spec_dominates(ns, y, d)
}

/// What the numbering round keeps for the blocks of `po` numbered so far, from `lo` on.
spec fn first_pass_inv(ns: Seq<DomTreeNode>, g: Seq<Seq<Block>>, rev: bool, po: Seq<Block>, lo: int) -> bool {
    &&& forall|q: int| lo <= q < po.len() - 1 ==> #[trigger] fwd_dominated(ns, g, rev, po, q)
    &&& forall|q: int| lo <= q < po.len() - 1 ==> #[trigger] early_nearest(ns, g, rev, po, q)
}

/// A growing tree in which the nodes numbered 2 or below have no immediate dominator.
proof fn lemma_partial_tree_closed_from(ns: Seq<DomTreeNode>, po: Seq<Block>, lo: int)
    requires
        partial_tree(ns, po, lo),
        0 <= lo < po.len(),
        po.no_duplicates(),
        forall|i: int| 0 <= i < po.len() ==> (#[trigger] po[i]).0 < ns.len(),
    ensures
        tree_closed(ns),
        forall|u: int| 0 <= u < ns.len() ==> (#[trigger] ns[u]).rpo_number <= po.len() + 1 - lo,
{
    reveal(partial_tree);
    assert forall|v: int| 0 <= v < ns.len() && (#[trigger] ns[v]).rpo_number <= 2 implies ns[v].idom is None by {
        if po.contains(Block(v as u32)) {
            let i = po.index_of(Block(v as u32));
            assert(po[i].0 as int == v);
            if i < lo {
            } else {
                assert(ns[po[i].0 as int].rpo_number as int == po.len() + 1 - i);
                assert(i == po.len() - 1);
            }
        } else {
            assert(ns[v] == (DomTreeNode { rpo_number: UNDEF, idom: None }));
        }
    }
    assert forall|u: int| 0 <= u < ns.len() implies (#[trigger] ns[u]).rpo_number <= po.len() + 1 - lo by {
        if po.contains(Block(u as u32)) {
            let i = po.index_of(Block(u as u32));
            assert(po[i].0 as int == u);
            assert(ns[po[i].0 as int].rpo_number as int == (if i >= lo { po.len() + 1 - i } else { DONE as int }));
        } else {
            assert(ns[u] == (DomTreeNode { rpo_number: UNDEF, idom: None }));
        }
    }
}


/// The facts about the growing tree that numbering `po[lo - 1]` uses.
spec fn number_ctx(ns: Seq<DomTreeNode>, g: Seq<Seq<Block>>, rev: bool, po: Seq<Block>, lo: int) -> bool {
    &&& 1 <= lo <= po.len() - 1
    &&& po.len() < u32::MAX
    &&& tree_closed(ns)
    &&& forall|u: int| 0 <= u < ns.len() ==> (#[trigger] ns[u]).rpo_number < po.len() + 2 - lo
    &&& ns[po[lo - 1].0 as int].rpo_number == DONE
    &&& numbered(ns, po, lo)
    &&& forall|q: int| lo <= q < po.len() - 1 ==> #[trigger] idom_below(ns, po[q].0 as int)
    &&& po.no_duplicates()
    &&& forall|k: int| 0 <= k < po.len() ==> (#[trigger] po[k]).0 < ns.len()
    &&& forall|k: int| 0 <= k < po.len() - 1 ==> #[trigger] reached_from_later(g, rev, po, k)
    &&& ns.len() == g.len()
    &&& succs_in_range(g)
}

/// Numbering `po[lo - 1]` keeps the immediate dominator of an already numbered block
/// dominating its edge source at `fwd`.
proof fn lemma_number_keeps_fwd(ns: Seq<DomTreeNode>, g: Seq<Seq<Block>>, rev: bool, po: Seq<Block>, lo: int, r: Block, q: int)
    requires
        number_ctx(ns, g, rev, po, lo),
        lo <= q < po.len() - 1,
        fwd_dominated(ns, g, rev, po, q),
    ensures
        fwd_dominated(
            ns.update(po[lo - 1].0 as int, DomTreeNode { rpo_number: (po.len() + 2 - lo) as u32, idom: Some(r) }),
            g,
            rev,
            po,
            q,
        ),
{
    let len = po.len() as int;
    let v = po[lo - 1];
    let node = DomTreeNode { rpo_number: (len + 2 - lo) as u32, idom: Some(r) };
    let ns2 = ns.update(v.0 as int, node);
    let x = po[q];
    assert(po[q] != po[lo - 1]);
    assert(ns2[x.0 as int] == ns[x.0 as int]);
    assert(idom_below(ns, x.0 as int));
    assert(reached_from_later(g, rev, po, q));
    let j = fwd(g, rev, po, q);
    assert(ns[po[j].0 as int].rpo_number as int == len + 1 - j);
    let y = ns[x.0 as int].idom.unwrap();
    lemma_dominates_number_frame(ns, v, node, po[j], y);
}

/// Numbering `po[lo - 1]` with the immediate dominator `r` that Cooper's step computes
/// gives it what the numbering round keeps.
#[verifier::spinoff_prover]
proof fn lemma_number_keeps_self(ns: Seq<DomTreeNode>, g: Seq<Seq<Block>>, rev: bool, po: Seq<Block>, lo: int, r: Block)
    requires
        number_ctx(ns, g, rev, po, lo),
        r.0 < ns.len(),
        ns[r.0 as int].rpo_number >= 2,
        forall|l: Seq<Block>| #[trigger] is_in_list(g, rev, po[lo - 1], l) ==> spec_fold_idom(ns, l) == Some(r),
        exists|l: Seq<Block>| #[trigger] is_in_list(g, rev, po[lo - 1], l),
    ensures
        fwd_dominated(
            ns.update(po[lo - 1].0 as int, DomTreeNode { rpo_number: (po.len() + 2 - lo) as u32, idom: Some(r) }),
            g,
            rev,
            po,
            lo - 1,
        ),
        early_nearest(
            ns.update(po[lo - 1].0 as int, DomTreeNode { rpo_number: (po.len() + 2 - lo) as u32, idom: Some(r) }),
            g,
            rev,
            po,
            lo - 1,
        ),
{
    let len = po.len() as int;
    let v = po[lo - 1];
    let node = DomTreeNode { rpo_number: (len + 2 - lo) as u32, idom: Some(r) };
    let ns2 = ns.update(v.0 as int, node);
    assert(ns2[v.0 as int] == node);
    assert(reached_from_later(g, rev, po, lo - 1));
    let jv = fwd(g, rev, po, lo - 1);
    let pfv = po[jv];
    assert(ns[pfv.0 as int].rpo_number as int == len + 1 - jv);
    let l0 = choose|l: Seq<Block>| #[trigger] is_in_list(g, rev, v, l);
    lemma_list_edges(g, rev, v, l0);
    lemma_fold_idom_nearest(ns, l0);
    assert(l0.contains(pfv));
    let kp0 = l0.index_of(pfv);
    assert(counted(ns, l0, kp0));
    assert(spec_dominates(ns, pfv, r));
    lemma_dominates_number_frame(ns, v, node, pfv, r);
    assert forall|l: Seq<Block>, d: Block|
        #[trigger] is_in_list(g, rev, po[lo - 1], l) && d.0 < ns2.len() && #[trigger] early_dominates_all(
            ns2,
            l,
            ns2[po[lo - 1].0 as int].rpo_number as int,
            d,
        ) implies spec_dominates(ns2, r, d) by {
        lemma_list_edges(g, rev, v, l);
        lemma_fold_idom_nearest(ns, l);
        assert(l.contains(pfv));
        let kp = l.index_of(pfv);
        assert(counted(ns, l, kp));
        assert forall|k: int| #[trigger] counted(ns, l, k) implies spec_dominates(ns, l[k], d) by {
            assert(l[k] != v);
            assert(ns2[l[k].0 as int] == ns[l[k].0 as int]);
            assert(spec_dominates(ns2, l[k], d));
            lemma_dominates_number_frame(ns, v, node, l[k], d);
        }
        assert(dominates_all(ns, l, d));
        lemma_dominates_number_frame(ns, v, node, r, d);
    }
}

/// Numbering `po[lo - 1]` keeps what the numbering round keeps for an already numbered
/// block `po[q]`.
#[verifier::spinoff_prover]
proof fn lemma_number_keeps_early(ns: Seq<DomTreeNode>, g: Seq<Seq<Block>>, rev: bool, po: Seq<Block>, lo: int, r: Block, q: int)
    requires
        number_ctx(ns, g, rev, po, lo),
        lo <= q < po.len() - 1,
        early_nearest(ns, g, rev, po, q),
    ensures
        early_nearest(
            ns.update(po[lo - 1].0 as int, DomTreeNode { rpo_number: (po.len() + 2 - lo) as u32, idom: Some(r) }),
            g,
            rev,
            po,
            q,
        ),
{
    let len = po.len() as int;
    let v = po[lo - 1];
    let node = DomTreeNode { rpo_number: (len + 2 - lo) as u32, idom: Some(r) };
    let ns2 = ns.update(v.0 as int, node);
    let x = po[q];
    assert(po[q] != po[lo - 1]);
    assert(ns2[x.0 as int] == ns[x.0 as int]);
    assert(idom_below(ns, x.0 as int));
    let y = ns[x.0 as int].idom.unwrap();
    assert(ns[x.0 as int].rpo_number as int == len + 1 - q);
    assert forall|l: Seq<Block>, d: Block|
        #[trigger] is_in_list(g, rev, po[q], l) && d.0 < ns2.len() && #[trigger] early_dominates_all(
            ns2,
            l,
            ns2[po[q].0 as int].rpo_number as int,
            d,
        ) implies spec_dominates(ns2, y, d) by {
        lemma_list_edges(g, rev, x, l);
        assert forall|k: int| 0 <= k < l.len() && 1 < ns[l[k].0 as int].rpo_number < ns[x.0 as int].rpo_number as int
            implies #[trigger] spec_dominates(ns, l[k], d) by {
            assert(l[k] != v);
            assert(ns2[l[k].0 as int] == ns[l[k].0 as int]);
            assert(spec_dominates(ns2, l[k], d));
            lemma_dominates_number_frame(ns, v, node, l[k], d);
        }
        assert(early_dominates_all(ns, l, ns[po[q].0 as int].rpo_number as int, d));
        lemma_dominates_number_frame(ns, v, node, y, d);
    }
}

/// Numbering the next block `po[lo - 1]` with the immediate dominator `r` that Cooper's
/// step computes keeps what the numbering round keeps.
#[verifier::spinoff_prover]
#[verifier::rlimit(40)]
proof fn lemma_number_keeps(ns: Seq<DomTreeNode>, g: Seq<Seq<Block>>, rev: bool, po: Seq<Block>, lo: int, r: Block)
    requires
        partial_tree(ns, po, lo),
        1 <= lo <= po.len() - 1,
        po.len() <= ns.len(),
        po.no_duplicates(),
        forall|k: int| 0 <= k < po.len() ==> (#[trigger] po[k]).0 < ns.len(),
        forall|k: int| 0 <= k < po.len() - 1 ==> #[trigger] reached_from_later(g, rev, po, k),
        ns.len() == g.len(),
        ns.len() < u32::MAX,
        succs_in_range(g),
        first_pass_inv(ns, g, rev, po, lo),
        r.0 < ns.len(),
        ns[r.0 as int].rpo_number >= 2,
        forall|l: Seq<Block>| #[trigger] is_in_list(g, rev, po[lo - 1], l) ==> spec_fold_idom(ns, l) == Some(r),
        exists|l: Seq<Block>| #[trigger] is_in_list(g, rev, po[lo - 1], l),
    ensures
        first_pass_inv(
            ns.update(po[lo - 1].0 as int, DomTreeNode { rpo_number: (po.len() + 2 - lo) as u32, idom: Some(r) }),
            g,
            rev,
            po,
            lo - 1,
        ),
        number_ctx(ns, g, rev, po, lo),
{
    let len = po.len() as int;
    let ns2 = ns.update(po[lo - 1].0 as int, DomTreeNode { rpo_number: (len + 2 - lo) as u32, idom: Some(r) });
    lemma_partial_tree_parts(ns, po, lo);
    lemma_partial_tree_closed_from(ns, po, lo);
    assert(ns[po[lo - 1].0 as int].rpo_number as int == DONE as int);
    assert(number_ctx(ns, g, rev, po, lo));
    lemma_number_keeps_self(ns, g, rev, po, lo, r);
    assert forall|q: int| lo - 1 <= q < po.len() - 1 implies #[trigger] fwd_dominated(ns2, g, rev, po, q) by {
        if q >= lo {
            lemma_number_keeps_fwd(ns, g, rev, po, lo, r, q);
        }
    }
    assert forall|q: int| lo - 1 <= q < po.len() - 1 implies #[trigger] early_nearest(ns2, g, rev, po, q) by {
        if q >= lo {
            lemma_number_keeps_early(ns, g, rev, po, lo, r, q);
        }
    }
}

/// At the end of the numbering round, what the iteration keeps holds.
proof fn lemma_first_pass_done(ns: Seq<DomTreeNode>, g: Seq<Seq<Block>>, rev: bool, po: Seq<Block>)
    requires
        partial_tree(ns, po, 0),
        po.len() >= 1,
        po.no_duplicates(),
        forall|k: int| 0 <= k < po.len() ==> (#[trigger] po[k]).0 < ns.len(),
        ns.len() == g.len(),
        succs_in_range(g),
        first_pass_inv(ns, g, rev, po, 0),
        forall|k: int| 0 <= k < po.len() - 1 ==> #[trigger] reached_from_later(g, rev, po, k),
    ensures
        step_inv(ns, g, rev, po, po.len() + 2int),
{
    lemma_partial_tree_parts(ns, po, 0);
    lemma_partial_tree_closed(ns, po);
    assert forall|q: int| 0 <= q < po.len() - 1 implies #[trigger] fold_above(ns, g, rev, po[q]) by {
        let x = po[q];
        assert(idom_below(ns, x.0 as int));
        assert(early_nearest(ns, g, rev, po, q));
        assert(reached_from_later(g, rev, po, q));
        let j = fwd(g, rev, po, q);
        let pf = po[j];
        assert(ns[pf.0 as int].rpo_number as int == po.len() + 1 - j);
        assert forall|l: Seq<Block>| #[trigger] is_in_list(g, rev, x, l) implies (spec_fold_idom(ns, l) matches Some(c) && (
        ns[x.0 as int].idom matches Some(y) && spec_dominates(ns, y, c))) by {
            lemma_list_edges(g, rev, x, l);
            lemma_fold_idom_nearest(ns, l);
            assert(l.contains(pf));
            let kp = l.index_of(pf);
            assert(counted(ns, l, kp));
            let f = spec_fold_idom(ns, l).unwrap();
            assert forall|k: int| 0 <= k < l.len() && 1 < ns[l[k].0 as int].rpo_number < ns[x.0 as int].rpo_number as int
                implies #[trigger] spec_dominates(ns, l[k], f) by {
                assert(counted(ns, l, k));
            }
            assert(early_dominates_all(ns, l, ns[po[q].0 as int].rpo_number as int, f));
        }
    }
}


/// `d` lies on every path from `root` to `x` of the graph walked.
pub open spec fn on_every_path(g: Seq<Seq<Block>>, rev: bool, root: Block, x: Block, d: Block) -> bool {
    forall|k: nat| !#[trigger] reaches_avoiding(g, rev, root, x, d, k)
}

/// A block that lies on every path to `x` other than `x` lies on every path to each
/// block with an edge to `x`, or is that block.
pub(crate) proof fn lemma_on_every_path_pred(g: Seq<Seq<Block>>, rev: bool, root: Block, x: Block, p: Block, d: Block)
    requires
        on_every_path(g, rev, root, x, d),
        d != x,
        walk_edge(g, rev, p, x),
    ensures
        d == p || on_every_path(g, rev, root, p, d),
{
    if d != p && !on_every_path(g, rev, root, p, d) {
        let k = choose|k: nat| #[trigger] reaches_avoiding(g, rev, root, p, d, k);
        assert(reaches_avoiding(g, rev, root, x, d, k + 1));
    }
}

/// The blocks of `po` from `lo` on are dominated in the tree by every block on every path
/// to them, and a block on every path to `x` that dominates a block dominating `x` in the
/// tree lies on every path to that block.
spec fn path_inv(ns: Seq<DomTreeNode>, g: Seq<Seq<Block>>, rev: bool, po: Seq<Block>, lo: int) -> bool {
    &&& forall|q: int, d: Block|
        lo <= q < po.len() && d.0 < ns.len() && #[trigger] on_every_path(g, rev, po.last(), po[q], d) ==> spec_dominates(
            ns,
            po[q],
            d,
        )
    &&& forall|q: int, a: Block, d: Block|
        lo <= q < po.len() && a.0 < ns.len() && d.0 < ns.len() && #[trigger] spec_dominates(ns, po[q], a)
            && #[trigger] spec_dominates(ns, a, d) && on_every_path(g, rev, po.last(), po[q], d) ==> on_every_path(
            g,
            rev,
            po.last(),
            a,
            d,
        )
}


/// A block that a numbered block of a closed tree is dominated by is numbered.
proof fn lemma_dominator_numbered(ns: Seq<DomTreeNode>, p: Block, a: Block)
    requires
        tree_closed(ns),
        p.0 < ns.len(),
        ns[p.0 as int].rpo_number >= 2,
        spec_dominates(ns, p, a),
    ensures
        a.0 < ns.len(),
        ns[a.0 as int].rpo_number >= 2,
    decreases ns[p.0 as int].rpo_number,
{
    if ns[p.0 as int].rpo_number > ns[a.0 as int].rpo_number {
        let q = ns[p.0 as int].idom.unwrap();
        lemma_dominator_numbered(ns, q, a);
    }
}

/// With only the root numbered, what the paths give holds.
proof fn lemma_path_inv_root(ns: Seq<DomTreeNode>, g: Seq<Seq<Block>>, rev: bool, po: Seq<Block>)
    requires
        po.len() >= 1,
        ns[po.last().0 as int].rpo_number == 2,
        ns[po.last().0 as int].idom is None,
    ensures
        path_inv(ns, g, rev, po, po.len() - 1),
{
    let root = po.last();
    assert forall|q: int, d: Block|
        po.len() - 1 <= q < po.len() && d.0 < ns.len() && #[trigger] on_every_path(g, rev, po.last(), po[q], d) implies spec_dominates(ns, po[q], d) by {
        if d != root {
            assert(reaches_avoiding(g, rev, root, root, d, 0));
        }
    }
}

/// The facts that numbering `po[lo - 1]` with `r`, the result of Cooper's step, uses
/// for the paths.
spec fn number_path_ctx(ns: Seq<DomTreeNode>, g: Seq<Seq<Block>>, rev: bool, po: Seq<Block>, lo: int, r: Block) -> bool {
    &&& number_ctx(ns, g, rev, po, lo)
    &&& path_inv(ns, g, rev, po, lo)
    &&& r.0 < ns.len()
    &&& ns[r.0 as int].rpo_number >= 2
    &&& forall|l: Seq<Block>| #[trigger] is_in_list(g, rev, po[lo - 1], l) ==> spec_fold_idom(ns, l) == Some(r)
    &&& exists|l: Seq<Block>| #[trigger] is_in_list(g, rev, po[lo - 1], l)
}

/// The tree after numbering `po[lo - 1]` with `r`.
spec fn numbered_next(ns: Seq<DomTreeNode>, po: Seq<Block>, lo: int, r: Block) -> Seq<DomTreeNode> {
    ns.update(po[lo - 1].0 as int, DomTreeNode { rpo_number: (po.len() + 2 - lo) as u32, idom: Some(r) })
}

/// In the tree after numbering `po[lo - 1]` with `r`, the new block is dominated by
/// itself and by the blocks that dominate `r`.
proof fn lemma_numbered_next_dominates(ns: Seq<DomTreeNode>, g: Seq<Seq<Block>>, rev: bool, po: Seq<Block>, lo: int, r: Block, d: Block)
    requires
        number_ctx(ns, g, rev, po, lo),
        r.0 < ns.len(),
        ns[r.0 as int].rpo_number >= 2,
        d.0 < ns.len(),
        d != po[lo - 1],
    ensures
        spec_dominates(numbered_next(ns, po, lo, r), po[lo - 1], d) == spec_dominates(ns, r, d),
{
    let len = po.len() as int;
    let v = po[lo - 1];
    let node = DomTreeNode { rpo_number: (len + 2 - lo) as u32, idom: Some(r) };
    let ns2 = ns.update(v.0 as int, node);
    assert(ns2[v.0 as int] == node);
    assert(ns2[d.0 as int] == ns[d.0 as int]);
    assert(r != v);
    assert(ns2[r.0 as int] == ns[r.0 as int]);
    lemma_dominates_number_frame(ns, v, node, r, d);
}

/// The edge source of `po[lo - 1]` at `fwd` is numbered and dominated by `r`.
proof fn lemma_number_fwd(ns: Seq<DomTreeNode>, g: Seq<Seq<Block>>, rev: bool, po: Seq<Block>, lo: int, r: Block)
    requires
        number_path_ctx(ns, g, rev, po, lo, r),
    ensures
        lo <= fwd(g, rev, po, lo - 1) < po.len(),
        ns[po[fwd(g, rev, po, lo - 1)].0 as int].rpo_number >= 2,
        spec_dominates(ns, po[fwd(g, rev, po, lo - 1)], r),
{
    let len = po.len() as int;
    let v = po[lo - 1];
    assert(reached_from_later(g, rev, po, lo - 1));
    let jv = fwd(g, rev, po, lo - 1);
    let pfv = po[jv];
    assert(ns[pfv.0 as int].rpo_number as int == len + 1 - jv);
    let l0 = choose|l: Seq<Block>| #[trigger] is_in_list(g, rev, v, l);
    lemma_list_edges(g, rev, v, l0);
    lemma_fold_idom_nearest(ns, l0);
    assert(l0.contains(pfv));
    let kp0 = l0.index_of(pfv);
    assert(counted(ns, l0, kp0));
}

/// After numbering `po[lo - 1]`, it is dominated in the tree by every block on every path
/// to it.
#[verifier::spinoff_prover]
#[verifier::rlimit(40)]
proof fn lemma_nkp_j_self(ns: Seq<DomTreeNode>, g: Seq<Seq<Block>>, rev: bool, po: Seq<Block>, lo: int, r: Block, d: Block)
    requires
        number_path_ctx(ns, g, rev, po, lo, r),
        d.0 < ns.len(),
        on_every_path(g, rev, po.last(), po[lo - 1], d),
    ensures
        spec_dominates(numbered_next(ns, po, lo, r), po[lo - 1], d),
{
    let v = po[lo - 1];
    let root = po.last();
    if d != v {
        lemma_numbered(ns, po, lo);
        let l0 = choose|l: Seq<Block>| #[trigger] is_in_list(g, rev, v, l);
        lemma_list_edges(g, rev, v, l0);
        lemma_fold_idom_nearest(ns, l0);
        lemma_number_fwd(ns, g, rev, po, lo, r);
        let pfv = po[fwd(g, rev, po, lo - 1)];
        assert(l0.contains(pfv));
        let kp0 = l0.index_of(pfv);
        assert(counted(ns, l0, kp0));
        assert forall|k: int| #[trigger] counted(ns, l0, k) implies spec_dominates(ns, l0[k], d) by {
            let p = l0[k];
            lemma_on_every_path_pred(g, rev, root, v, p, d);
            let j = choose|j: int| lo <= j < po.len() && po[j] == Block(p.0 as int as u32);
            assert(Block(p.0 as int as u32) == p);
            if d != p {
                assert(on_every_path(g, rev, po.last(), po[j], d));
            }
        }
        assert(dominates_all(ns, l0, d));
        assert(spec_dominates(ns, r, d));
        lemma_numbered_next_dominates(ns, g, rev, po, lo, r, d);
    }
}

/// After numbering `po[lo - 1]`, a block on every path to it that dominates, in the tree,
/// a block dominating it lies on every path to that block.
proof fn lemma_nkp_k_self(ns: Seq<DomTreeNode>, g: Seq<Seq<Block>>, rev: bool, po: Seq<Block>, lo: int, r: Block, a: Block, d: Block)
    requires
        number_path_ctx(ns, g, rev, po, lo, r),
        a.0 < ns.len(),
        d.0 < ns.len(),
        spec_dominates(numbered_next(ns, po, lo, r), po[lo - 1], a),
        spec_dominates(numbered_next(ns, po, lo, r), a, d),
        on_every_path(g, rev, po.last(), po[lo - 1], d),
    ensures
        on_every_path(g, rev, po.last(), a, d),
{
    let len = po.len() as int;
    let v = po[lo - 1];
    let root = po.last();
    let node = DomTreeNode { rpo_number: (len + 2 - lo) as u32, idom: Some(r) };
    if a != v {
        lemma_numbered_next_dominates(ns, g, rev, po, lo, r, a);
        assert(spec_dominates(ns, r, a));
        lemma_dominator_numbered(ns, r, a);
        lemma_dominates_number_frame(ns, v, node, a, d);
        assert(spec_dominates(ns, a, d));
        lemma_number_fwd(ns, g, rev, po, lo, r);
        let jv = fwd(g, rev, po, lo - 1);
        let pfv = po[jv];
        lemma_dominates_transitive(ns, pfv, r, a);
        if d == v {
            lemma_dominator_numbered(ns, a, d);
        } else {
            assert(walk_edge(g, rev, pfv, v)) by {
                assert(reached_from_later(g, rev, po, lo - 1));
            }
            lemma_on_every_path_pred(g, rev, root, v, pfv, d);
            if d == pfv {
                lemma_dominates_antisymmetric(ns, pfv, a);
            } else {
                assert(on_every_path(g, rev, po.last(), po[jv], d));
            }
        }
    }
}

/// Numbering `po[lo - 1]` keeps what the paths give for an already numbered block `po[q]`.
proof fn lemma_nkp_other(ns: Seq<DomTreeNode>, g: Seq<Seq<Block>>, rev: bool, po: Seq<Block>, lo: int, r: Block, q: int, a: Block, d: Block)
    requires
        number_path_ctx(ns, g, rev, po, lo, r),
        lo <= q < po.len(),
        a.0 < ns.len(),
        d.0 < ns.len(),
    ensures
        on_every_path(g, rev, po.last(), po[q], d) ==> spec_dominates(numbered_next(ns, po, lo, r), po[q], d),
        spec_dominates(numbered_next(ns, po, lo, r), po[q], a) && spec_dominates(numbered_next(ns, po, lo, r), a, d)
            && on_every_path(g, rev, po.last(), po[q], d) ==> on_every_path(g, rev, po.last(), a, d),
{
    let len = po.len() as int;
    let v = po[lo - 1];
    let node = DomTreeNode { rpo_number: (len + 2 - lo) as u32, idom: Some(r) };
    assert(po[q] != v);
    assert(ns[po[q].0 as int].rpo_number as int == len + 1 - q);
    lemma_dominates_number_frame(ns, v, node, po[q], d);
    lemma_dominates_number_frame(ns, v, node, po[q], a);
    if spec_dominates(ns, po[q], a) {
        lemma_dominator_numbered(ns, po[q], a);
        lemma_dominates_number_frame(ns, v, node, a, d);
    }
}

/// Numbering `po[lo - 1]` with the immediate dominator `r` that Cooper's step computes
/// keeps what the paths give.
proof fn lemma_number_keeps_path(ns: Seq<DomTreeNode>, g: Seq<Seq<Block>>, rev: bool, po: Seq<Block>, lo: int, r: Block)
    requires
        number_path_ctx(ns, g, rev, po, lo, r),
    ensures
        path_inv(numbered_next(ns, po, lo, r), g, rev, po, lo - 1),
{
    let ns2 = numbered_next(ns, po, lo, r);
    assert forall|q: int, d: Block|
        lo - 1 <= q < po.len() && d.0 < ns2.len() && #[trigger] on_every_path(g, rev, po.last(), po[q], d) implies spec_dominates(ns2, po[q], d) by {
        if q == lo - 1 {
            lemma_nkp_j_self(ns, g, rev, po, lo, r, d);
        } else {
            lemma_nkp_other(ns, g, rev, po, lo, r, q, d, d);
        }
    }
    assert forall|q: int, a: Block, d: Block|
        lo - 1 <= q < po.len() && a.0 < ns2.len() && d.0 < ns2.len() && #[trigger] spec_dominates(ns2, po[q], a)
            && #[trigger] spec_dominates(ns2, a, d) && on_every_path(g, rev, po.last(), po[q], d) implies on_every_path(
        g,
        rev,
        po.last(),
        a,
        d,
    ) by {
        if q == lo - 1 {
            lemma_nkp_k_self(ns, g, rev, po, lo, r, a, d);
        } else {
            lemma_nkp_other(ns, g, rev, po, lo, r, q, a, d);
        }
    }
}

/// The facts that a step giving `po[i]` the new immediate dominator `r` uses for the paths.
spec fn step_path_ctx(ns: Seq<DomTreeNode>, g: Seq<Seq<Block>>, rev: bool, po: Seq<Block>, i: int, r: Block) -> bool {
    &&& step_ctx(ns, g, rev, po)
    &&& path_inv(ns, g, rev, po, 0)
    &&& 0 <= i < po.len() - 1
    &&& r.0 < ns.len()
    &&& 2 <= ns[r.0 as int].rpo_number < ns[po[i].0 as int].rpo_number
    &&& spec_dominates(ns, ns[po[i].0 as int].idom.unwrap(), r)
    &&& forall|l: Seq<Block>| #[trigger] is_in_list(g, rev, po[i], l) ==> spec_fold_idom(ns, l) == Some(r)
    &&& exists|l: Seq<Block>| #[trigger] is_in_list(g, rev, po[i], l)
}

/// The tree after giving `po[i]` the immediate dominator `r`.
spec fn replaced(ns: Seq<DomTreeNode>, po: Seq<Block>, i: int, r: Block) -> Seq<DomTreeNode> {
    ns.update(po[i].0 as int, DomTreeNode { rpo_number: ns[po[i].0 as int].rpo_number, idom: Some(r) })
}

/// Giving `po[i]` an immediate dominator above the old one only removes dominance.
proof fn lemma_replaced_shrinks(ns: Seq<DomTreeNode>, g: Seq<Seq<Block>>, rev: bool, po: Seq<Block>, i: int, r: Block, x: Block, a: Block)
    requires
        step_path_ctx(ns, g, rev, po, i, r),
        x.0 < ns.len(),
        a.0 < ns.len(),
        spec_dominates(replaced(ns, po, i, r), x, a),
    ensures
        spec_dominates(ns, x, a),
{
    let b = po[i];
    let node = DomTreeNode { rpo_number: ns[b.0 as int].rpo_number, idom: Some(r) };
    assert(idom_below(ns, b.0 as int));
    let cur = ns[b.0 as int].idom.unwrap();
    assert(spec_dominates(ns, cur, cur));
    assert(spec_dominates(ns, b, cur));
    if spec_dominates(ns, x, b) {
        lemma_dominates_update_inside(ns, b, r, x, a);
        if spec_dominates(ns, r, a) {
            lemma_dominates_transitive(ns, x, b, cur);
            lemma_dominates_transitive(ns, x, cur, r);
            lemma_dominates_transitive(ns, x, r, a);
        }
    } else {
        lemma_dominates_update_outside(ns, b, node, x, a);
    }
}

/// After the step, a block of `po` is dominated in the tree by every block on every path to
/// it.
#[verifier::rlimit(30)]
proof fn lemma_step_path_j(ns: Seq<DomTreeNode>, g: Seq<Seq<Block>>, rev: bool, po: Seq<Block>, i: int, r: Block, q: int, d: Block)
    requires
        step_path_ctx(ns, g, rev, po, i, r),
        0 <= q < po.len(),
        d.0 < ns.len(),
        on_every_path(g, rev, po.last(), po[q], d),
    ensures
        spec_dominates(replaced(ns, po, i, r), po[q], d),
{
    let b = po[i];
    let x = po[q];
    let root = po.last();
    let node = DomTreeNode { rpo_number: ns[b.0 as int].rpo_number, idom: Some(r) };
    assert(spec_dominates(ns, x, d));
    if spec_dominates(ns, x, b) {
        lemma_dominates_update_inside(ns, b, r, x, d);
        lemma_dominators_comparable(ns, x, d, b);
        if !spec_dominates(ns, d, b) {
            assert(d != b);
            assert(on_every_path(g, rev, po.last(), b, d));
            let l0 = choose|l: Seq<Block>| #[trigger] is_in_list(g, rev, b, l);
            lemma_list_edges(g, rev, b, l0);
            lemma_fold_idom_nearest(ns, l0);
            lemma_fwd(ns, g, rev, po, i);
            let pf = po[fwd(g, rev, po, i)];
            assert(l0.contains(pf));
            let kp0 = l0.index_of(pf);
            assert(counted(ns, l0, kp0));
            lemma_numbered(ns, po, 0);
            assert forall|k: int| #[trigger] counted(ns, l0, k) implies spec_dominates(ns, l0[k], d) by {
                let p = l0[k];
                lemma_on_every_path_pred(g, rev, root, b, p, d);
                let j = choose|j: int| 0 <= j < po.len() && po[j] == Block(p.0 as int as u32);
                assert(Block(p.0 as int as u32) == p);
                if d != p {
                    assert(on_every_path(g, rev, po.last(), po[j], d));
                }
            }
            assert(dominates_all(ns, l0, d));
        }
    } else {
        lemma_dominates_update_outside(ns, b, node, x, d);
    }
}

/// A step giving `po[i]` the immediate dominator `r` that Cooper's step computes keeps what
/// the paths give.
proof fn lemma_step_path(ns: Seq<DomTreeNode>, g: Seq<Seq<Block>>, rev: bool, po: Seq<Block>, i: int, r: Block)
    requires
        step_path_ctx(ns, g, rev, po, i, r),
    ensures
        path_inv(replaced(ns, po, i, r), g, rev, po, 0),
{
    let ns2 = replaced(ns, po, i, r);
    assert forall|q: int, d: Block|
        0 <= q < po.len() && d.0 < ns2.len() && #[trigger] on_every_path(g, rev, po.last(), po[q], d) implies spec_dominates(ns2, po[q], d) by {
        lemma_step_path_j(ns, g, rev, po, i, r, q, d);
    }
    assert forall|q: int, a: Block, d: Block|
        0 <= q < po.len() && a.0 < ns2.len() && d.0 < ns2.len() && #[trigger] spec_dominates(ns2, po[q], a)
            && #[trigger] spec_dominates(ns2, a, d) && on_every_path(g, rev, po.last(), po[q], d) implies on_every_path(
        g,
        rev,
        po.last(),
        a,
        d,
    ) by {
        lemma_replaced_shrinks(ns, g, rev, po, i, r, po[q], a);
        lemma_replaced_shrinks(ns, g, rev, po, i, r, a, d);
    }
}


/// What the numbering round keeps: the growing tree, and what it keeps for the steps and
/// for the paths.
#[verifier::opaque]
spec fn first_round(ns: Seq<DomTreeNode>, g: Seq<Seq<Block>>, rev: bool, po: Seq<Block>, lo: int) -> bool {
    &&& partial_tree(ns, po, lo)
    &&& first_pass_inv(ns, g, rev, po, lo)
    &&& path_inv(ns, g, rev, po, lo)
}

/// The numbering round keeps a growing tree.
proof fn lemma_first_round_tree(ns: Seq<DomTreeNode>, g: Seq<Seq<Block>>, rev: bool, po: Seq<Block>, lo: int)
    requires
        first_round(ns, g, rev, po, lo),
    ensures
        partial_tree(ns, po, lo),
{
    reveal(first_round);
}

/// Numbering the next block `po[lo - 1]` with the immediate dominator `r` that Cooper's
/// step computes keeps what the numbering round keeps.
proof fn lemma_number_all(ns: Seq<DomTreeNode>, g: Seq<Seq<Block>>, rev: bool, po: Seq<Block>, lo: int, r: Block)
    requires
        first_round(ns, g, rev, po, lo),
        postorder_facts(g, rev, po),
        1 <= lo <= po.len() - 1,
        po.len() <= ns.len(),
        ns.len() == g.len(),
        ns.len() < u32::MAX,
        succs_in_range(g),
        r.0 < ns.len(),
        2 <= ns[r.0 as int].rpo_number < po.len() + 2 - lo,
        forall|l: Seq<Block>| #[trigger] is_in_list(g, rev, po[lo - 1], l) ==> spec_fold_idom(ns, l) == Some(r),
        exists|l: Seq<Block>| #[trigger] is_in_list(g, rev, po[lo - 1], l),
    ensures
        first_round(numbered_next(ns, po, lo, r), g, rev, po, lo - 1),
{
    reveal(first_round);
    reveal(postorder_facts);
    lemma_number_next(ns, po, lo, r);
    lemma_number_keeps(ns, g, rev, po, lo, r);
    lemma_number_keeps_path(ns, g, rev, po, lo, r);
}

} // verus!
