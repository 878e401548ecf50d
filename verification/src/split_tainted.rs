//! Taint propagation: which instructions depend on a set of source values. An instruction
//! that depends on the sources taints the instructions that use its results. Directly, a
//! tainted branch taints the phis where its arms merge again (the phis that open the blocks
//! of the dominance frontiers of its destinations), and instructions that merely lie inside
//! a tainted conditional are not tainted. By regions, a tainted branch taints every
//! instruction of the blocks its arms reach before the immediate post-dominator of its
//! block, and a tainted jump taints the phis that open its destination.
use vstd::prelude::*;

use crate::dead_code_aggressive::{count_false, def_inst, lemma_count_false_set};
use crate::cfg::ControlFlowGraph;
use crate::dominators::DominatorTree;
use crate::entities::{Block, Inst, Value};
use crate::function::Function;
use crate::instructions::InstructionData;
use crate::values::ValueDef;

verus! {

/// The function, its dominance frontiers and the sources fit together: the tables agree in
/// size and every instruction named by the layout, by a use or as a branch destination
/// exists.
pub open spec fn taint_ready(f: &Function, df: Seq<Vec<bool>>, sources: Seq<Value>) -> bool {
    let n = f.layout@.num_blocks();
    let m = f.dfg.insts@.len();
    &&& f.layout.wf()
    &&& f.dfg.values.wf()
    &&& m < u32::MAX
    &&& n < u32::MAX
    &&& df.len() == n
    &&& forall|b: int| 0 <= b < n ==> (#[trigger] df[b])@.len() == n
    &&& forall|b: int, j: int| 0 <= b < n && 0 <= j < f.layout@.insts[b].len() ==> (#[trigger] f.layout@.insts[b][j]).0 < m
    &&& forall|u: int| 0 <= u < f.dfg.values@.users.len() ==> (#[trigger] f.dfg.values@.users[u]).0.0 < m
    &&& forall|s: int| 0 <= s < sources.len() ==> (#[trigger] sources[s]).0 < f.dfg.values@.types.len()
    &&& forall|i: int|
        0 <= i < m ==> (#[trigger] f.dfg.insts@[i] matches InstructionData::Branch { then_dst, else_dst, .. } ==> then_dst.0 < n
            && else_dst.0 < n)
}

/// Instruction `u` uses value `v`: some use of `v` has `u` as its user.
pub open spec fn uses_value(f: &Function, v: int, u: int) -> bool {
    exists|k: int|
        0 <= k < f.dfg.values@.lists[v].len() && (#[trigger] f.dfg.values@.users[f.dfg.values@.lists[v][k].0 as int]).0 == Inst(
            u as u32,
        )
}

/// Instruction `u` uses one of the `sources`.
pub open spec fn uses_source(f: &Function, sources: Seq<Value>, u: int) -> bool {
    exists|s: int| 0 <= s < sources.len() && #[trigger] uses_value(f, sources[s].0 as int, u)
}

/// Instruction `u` uses a result of instruction `i`.
pub open spec fn uses_result_of(f: &Function, i: int, u: int) -> bool {
    exists|v: int|
        0 <= v < f.dfg.values@.types.len() && def_inst(f, Value(v as u32)) == Some(Inst(i as u32)) && #[trigger] uses_value(
            f,
            v,
            u,
        )
}

/// Instruction `p` is one of the phis that open block `b`.
pub open spec fn leading_phi(f: &Function, b: int, p: int) -> bool {
    exists|k: int|
        0 <= k < f.layout@.insts[b].len() && (#[trigger] f.layout@.insts[b][k]) == Inst(p as u32) && forall|j: int|
            0 <= j <= k ==> (#[trigger] f.dfg.insts@[f.layout@.insts[b][j].0 as int]) is PhiNode
}

/// Instruction `p` is a phi that opens a block of the frontier `row`.
pub open spec fn frontier_phi(f: &Function, row: Seq<bool>, p: int) -> bool {
    exists|d: int| 0 <= d < row.len() && row[d] && #[trigger] leading_phi(f, d, p)
}

/// Instruction `u` is tainted by a tainted instruction `i`: `i` is a branch and `u` opens a
/// block of the dominance frontier of one of its destinations, or `i` is no branch and `u`
/// uses one of its results.
pub open spec fn taints(f: &Function, df: Seq<Vec<bool>>, i: int, u: int) -> bool {
    match f.dfg.insts@[i] {
        InstructionData::Branch { then_dst, else_dst, .. } => frontier_phi(f, df[then_dst.0 as int]@, u) || frontier_phi(
            f,
            df[else_dst.0 as int]@,
            u,
        ),
        _ => uses_result_of(f, i, u),
    }
}

/// The marks `l` are closed under tainting, for the instructions that were not marked
/// `before`: those keep their mark and are not propagated from.
pub open spec fn taint_closed(f: &Function, df: Seq<Vec<bool>>, before: Seq<bool>, l: Seq<bool>) -> bool {
    forall|i: int, u: int|
        0 <= i < l.len() && l[i] && !before[i] && 0 <= u < l.len() && #[trigger] taints(f, df, i, u) ==> l[u]
}

/// The marks `l` hold the marks `before` and the users of the sources.
pub open spec fn taint_seeded(f: &Function, sources: Seq<Value>, before: Seq<bool>, l: Seq<bool>) -> bool {
    &&& forall|i: int| 0 <= i < l.len() && #[trigger] before[i] ==> l[i]
    &&& forall|u: int| 0 <= u < l.len() && #[trigger] uses_source(f, sources, u) ==> l[u]
}

/// The marks of `old` on the instructions of `f`: the missing ones unmarked.
pub open spec fn extended(old: Seq<bool>, m: nat) -> Seq<bool> {
    Seq::new(m, |i: int| i < old.len() && old[i])
}

/// Mark instruction `u`, and put it on `stack` when it was not marked yet.
fn taint_inst(tainted: &mut Vec<bool>, stack: &mut Vec<Inst>, u: Inst)
    requires
        u.0 < old(tainted)@.len(),
    ensures
        final(tainted)@ == old(tainted)@.update(u.0 as int, true),
        final(stack)@ == (if old(tainted)@[u.0 as int] {
            old(stack)@
        } else {
            old(stack)@.push(u)
        }),
        final(stack)@.len() + count_false(final(tainted)@) == old(stack)@.len() + count_false(old(tainted)@),
{
    let k = u.0 as usize;
    if !tainted[k] {
        proof {
            lemma_count_false_set(tainted@, k as int);
        }
        tainted.set(k, true);
        stack.push(u);
    } else {
        proof {
            assert(tainted@.update(k as int, true) == tainted@);
        }
    }
}


/// From marks `t0` and work stack `s0` to marks `t1` and stack `s1`, marks were only added,
/// and the stack grew by exactly the newly marked instructions.
pub open spec fn taint_step(t0: Seq<bool>, s0: Seq<Inst>, t1: Seq<bool>, s1: Seq<Inst>) -> bool {
    &&& t1.len() == t0.len()
    &&& forall|i: int| 0 <= i < t0.len() && #[trigger] t0[i] ==> t1[i]
    &&& s0.len() <= s1.len()
    &&& s1.subrange(0, s0.len() as int) == s0
    &&& forall|k: int|
        s0.len() <= k < s1.len() ==> (#[trigger] s1[k]).0 < t1.len() && t1[s1[k].0 as int] && !t0[s1[k].0 as int]
    &&& forall|u: int| 0 <= u < t1.len() && #[trigger] t1[u] && !t0[u] ==> s1.contains(Inst(u as u32))
    &&& s1.len() + count_false(t1) == s0.len() + count_false(t0)
}

/// Two steps make a step.
proof fn lemma_taint_step_trans(
    t0: Seq<bool>,
    s0: Seq<Inst>,
    t1: Seq<bool>,
    s1: Seq<Inst>,
    t2: Seq<bool>,
    s2: Seq<Inst>,
)
    requires
        taint_step(t0, s0, t1, s1),
        taint_step(t1, s1, t2, s2),
    ensures
        taint_step(t0, s0, t2, s2),
{
    assert(s2.subrange(0, s0.len() as int) == s2.subrange(0, s1.len() as int).subrange(0, s0.len() as int));
    assert forall|k: int| s0.len() <= k < s2.len() implies (#[trigger] s2[k]).0 < t2.len() && t2[s2[k].0 as int]
        && !t0[s2[k].0 as int] by {
        if k < s1.len() {
            assert(s2[k] == s2.subrange(0, s1.len() as int)[k]);
            assert(s1[k].0 < t1.len() && t1[s1[k].0 as int]);
        }
    }
    assert forall|u: int| 0 <= u < t2.len() && #[trigger] t2[u] && !t0[u] implies s2.contains(Inst(u as u32)) by {
        if t1[u] {
            assert(s1.contains(Inst(u as u32)));
            let k = choose|k: int| 0 <= k < s1.len() && s1[k] == Inst(u as u32);
            assert(s2.subrange(0, s1.len() as int)[k] == s2[k]);
        }
    }
}

/// Nothing changed is a step.
proof fn lemma_taint_step_refl(t: Seq<bool>, s: Seq<Inst>)
    ensures
        taint_step(t, s, t, s),
{
    assert(s.subrange(0, s.len() as int) == s);
}

/// Marking `u` is a step.
fn taint_one(tainted: &mut Vec<bool>, stack: &mut Vec<Inst>, u: Inst)
    requires
        u.0 < old(tainted)@.len(),
        old(tainted)@.len() < u32::MAX,
    ensures
        final(tainted)@ == old(tainted)@.update(u.0 as int, true),
        taint_step(old(tainted)@, old(stack)@, final(tainted)@, final(stack)@),
{
    let ghost t0 = tainted@;
    let ghost s0 = stack@;
    taint_inst(tainted, stack, u);
    proof {
        if t0[u.0 as int] {
            lemma_taint_step_refl(t0, s0);
            assert(tainted@ == t0);
        } else {
            assert(stack@.subrange(0, s0.len() as int) == s0);
            assert(stack@[s0.len() as int] == u);
            assert forall|w: int| 0 <= w < tainted@.len() && #[trigger] tainted@[w] && !t0[w] implies stack@.contains(
                Inst(w as u32),
            ) by {
                assert(w == u.0);
                assert(stack@[s0.len() as int] == Inst(w as u32));
            }
        }
    }
}

/// Mark every user of `v`.
fn taint_users(f: &Function, v: Value, tainted: &mut Vec<bool>, stack: &mut Vec<Inst>)
    requires
        f.dfg.values.wf(),
        v.0 < f.dfg.values@.types.len(),
        old(tainted)@.len() < u32::MAX,
        forall|u: int| 0 <= u < f.dfg.values@.users.len() ==> (#[trigger] f.dfg.values@.users[u]).0.0 < old(tainted)@.len(),
    ensures
        taint_step(old(tainted)@, old(stack)@, final(tainted)@, final(stack)@),
        forall|u: int| 0 <= u < final(tainted)@.len() && #[trigger] uses_value(f, v.0 as int, u) ==> final(tainted)@[u],
        forall|u: int|
            0 <= u < final(tainted)@.len() && #[trigger] final(tainted)@[u] && !old(tainted)@[u] ==> uses_value(f, v.0 as int, u),
{
    proof {
        f.dfg.values.lemma_view();
    }
    let uses = f.dfg.uses(v);
    let ghost vi = v.0 as int;
    let ghost t0 = tainted@;
    let ghost s0 = stack@;
    proof {
        lemma_taint_step_refl(t0, s0);
    }
    let mut k: usize = 0;
    while k < uses.len()
        invariant
            f.dfg.values.wf(),
            vi == v.0,
            0 <= vi < f.dfg.values@.lists.len(),
            uses@ == f.dfg.values@.lists[vi],
            k <= uses.len(),
            t0.len() < u32::MAX,
            forall|j: int| 0 <= j < uses@.len() ==> (#[trigger] uses@[j]).0 < f.dfg.values@.users.len(),
            forall|u: int| 0 <= u < f.dfg.values@.users.len() ==> (#[trigger] f.dfg.values@.users[u]).0.0 < t0.len(),
            taint_step(t0, s0, tainted@, stack@),
            forall|j: int| 0 <= j < k ==> tainted@[(#[trigger] f.dfg.values@.users[uses@[j].0 as int]).0.0 as int],
            forall|u: int|
                0 <= u < tainted@.len() && #[trigger] tainted@[u] && !t0[u] ==> exists|j: int|
                    0 <= j < k && (#[trigger] f.dfg.values@.users[uses@[j].0 as int]).0 == Inst(u as u32),
        decreases uses.len() - k,
    {
        let user = f.dfg.use_to_user(uses[k]);
        let ghost t1 = tainted@;
        let ghost s1 = stack@;
        taint_one(tainted, stack, user);
        proof {
            lemma_taint_step_trans(t0, s0, t1, s1, tainted@, stack@);
            assert forall|u: int|
                0 <= u < tainted@.len() && #[trigger] tainted@[u] && !t0[u] implies exists|j: int|
                    0 <= j < k + 1 && (#[trigger] f.dfg.values@.users[uses@[j].0 as int]).0 == Inst(u as u32) by {
                if u == user.0 {
                    assert(f.dfg.values@.users[uses@[k as int].0 as int].0 == Inst(u as u32));
                } else {
                    assert(t1[u]);
                }
            }
        }
        k += 1;
    }
    proof {
        assert forall|u: int| 0 <= u < tainted@.len() && #[trigger] uses_value(f, vi, u) implies tainted@[u] by {
            let j = choose|j: int|
                0 <= j < f.dfg.values@.lists[vi].len() && (#[trigger] f.dfg.values@.users[f.dfg.values@.lists[vi][j].0 as int]).0
                    == Inst(u as u32);
            assert(f.dfg.values@.users[uses@[j].0 as int].0 == Inst(u as u32));
        }
        assert forall|u: int| 0 <= u < tainted@.len() && #[trigger] tainted@[u] && !t0[u] implies uses_value(f, vi, u) by {
            let j = choose|j: int| 0 <= j < k && (#[trigger] f.dfg.values@.users[uses@[j].0 as int]).0 == Inst(u as u32);
            assert(f.dfg.values@.users[f.dfg.values@.lists[vi][j].0 as int].0 == Inst(u as u32));
        }
    }
}

/// Mark the phis that open block `b`.
fn taint_leading_phis(f: &Function, b: Block, tainted: &mut Vec<bool>, stack: &mut Vec<Inst>)
    requires
        f.layout.wf(),
        b.0 < f.layout@.num_blocks(),
        old(tainted)@.len() == f.dfg.insts@.len(),
        f.dfg.insts@.len() < u32::MAX,
        forall|j: int| 0 <= j < f.layout@.insts[b.0 as int].len() ==> (#[trigger] f.layout@.insts[b.0 as int][j]).0 < f.dfg.insts@.len(),
    ensures
        taint_step(old(tainted)@, old(stack)@, final(tainted)@, final(stack)@),
        forall|p: int| 0 <= p < final(tainted)@.len() && #[trigger] leading_phi(f, b.0 as int, p) ==> final(tainted)@[p],
        forall|u: int|
            0 <= u < final(tainted)@.len() && #[trigger] final(tainted)@[u] && !old(tainted)@[u] ==> leading_phi(f, b.0 as int, u),
{
    let insts = f.layout.block_insts(b);
    let ghost t1 = tainted@;
    let ghost s1 = stack@;
    proof {
        lemma_taint_step_refl(t1, s1);
    }
    let mut j: usize = 0;
    let mut stop = false;
    while j < insts.len() && !stop
        invariant
            insts@ == f.layout@.insts[b.0 as int],
            j <= insts.len(),
            t1.len() == f.dfg.insts@.len(),
            f.dfg.insts@.len() < u32::MAX,
            forall|j2: int| 0 <= j2 < insts@.len() ==> (#[trigger] insts@[j2]).0 < f.dfg.insts@.len(),
            taint_step(t1, s1, tainted@, stack@),
            forall|j2: int|
                0 <= j2 < j ==> f.dfg.insts@[(#[trigger] insts@[j2]).0 as int] is PhiNode && tainted@[insts@[j2].0 as int],
            stop ==> j < insts@.len() && !(f.dfg.insts@[insts@[j as int].0 as int] is PhiNode),
            forall|u: int|
                0 <= u < tainted@.len() && #[trigger] tainted@[u] && !t1[u] ==> exists|j2: int|
                    0 <= j2 < j && #[trigger] insts@[j2] == Inst(u as u32),
        decreases insts.len() - j + (if stop { 0int } else { 1int }),
    {
        let inst = insts[j];
        if f.dfg.insts[inst.0 as usize].is_phi() {
            let ghost t2 = tainted@;
            let ghost s2 = stack@;
            taint_one(tainted, stack, inst);
            proof {
                lemma_taint_step_trans(t1, s1, t2, s2, tainted@, stack@);
                assert forall|u: int|
                    0 <= u < tainted@.len() && #[trigger] tainted@[u] && !t1[u] implies exists|j2: int|
                        0 <= j2 < j + 1 && #[trigger] insts@[j2] == Inst(u as u32) by {
                    if u == inst.0 {
                        assert(insts@[j as int] == Inst(u as u32));
                    } else {
                        assert(t2[u]);
                    }
                }
            }
            j += 1;
        } else {
            stop = true;
        }
    }
    proof {
        let dd = b.0 as int;
        assert forall|p: int| 0 <= p < tainted@.len() && #[trigger] leading_phi(f, dd, p) implies tainted@[p] by {
            let k = choose|k: int|
                0 <= k < f.layout@.insts[dd].len() && (#[trigger] f.layout@.insts[dd][k]) == Inst(p as u32) && forall|j3: int|
                    0 <= j3 <= k ==> (#[trigger] f.dfg.insts@[f.layout@.insts[dd][j3].0 as int]) is PhiNode;
            if k >= j {
                assert(f.dfg.insts@[f.layout@.insts[dd][j as int].0 as int] is PhiNode);
            }
            assert(insts@[k] == Inst(p as u32));
        }
        assert forall|u: int|
            0 <= u < tainted@.len() && #[trigger] tainted@[u] && !t1[u] implies leading_phi(f, dd, u) by {
            let j2 = choose|j2: int| 0 <= j2 < j && #[trigger] insts@[j2] == Inst(u as u32);
            assert forall|j3: int| 0 <= j3 <= j2 implies (#[trigger] f.dfg.insts@[f.layout@.insts[dd][j3].0 as int]) is PhiNode by {
                assert(insts@[j3] == f.layout@.insts[dd][j3]);
            }
            assert(f.layout@.insts[dd][j2] == Inst(u as u32));
        }
    }
}

/// Mark the phis that open the blocks of the frontier `row`.
fn taint_frontier_phis(f: &Function, row: &Vec<bool>, tainted: &mut Vec<bool>, stack: &mut Vec<Inst>)
    requires
        f.layout.wf(),
        row@.len() == f.layout@.num_blocks(),
        f.layout@.num_blocks() < u32::MAX,
        old(tainted)@.len() == f.dfg.insts@.len(),
        f.dfg.insts@.len() < u32::MAX,
        forall|b: int, j: int|
            0 <= b < f.layout@.num_blocks() && 0 <= j < f.layout@.insts[b].len() ==> (#[trigger] f.layout@.insts[b][j]).0
                < f.dfg.insts@.len(),
    ensures
        taint_step(old(tainted)@, old(stack)@, final(tainted)@, final(stack)@),
        forall|u: int| 0 <= u < final(tainted)@.len() && #[trigger] frontier_phi(f, row@, u) ==> final(tainted)@[u],
        forall|u: int|
            0 <= u < final(tainted)@.len() && #[trigger] final(tainted)@[u] && !old(tainted)@[u] ==> frontier_phi(f, row@, u),
{
    let ghost t0 = tainted@;
    let ghost s0 = stack@;
    proof {
        lemma_taint_step_refl(t0, s0);
    }
    let n = f.layout.num_blocks();
    let mut d: usize = 0;
    while d < n
        invariant
            f.layout.wf(),
            n == f.layout@.num_blocks(),
            n < u32::MAX,
            row@.len() == n,
            d <= n,
            t0.len() == f.dfg.insts@.len(),
            f.dfg.insts@.len() < u32::MAX,
            forall|b: int, j: int|
                0 <= b < n && 0 <= j < f.layout@.insts[b].len() ==> (#[trigger] f.layout@.insts[b][j]).0 < f.dfg.insts@.len(),
            taint_step(t0, s0, tainted@, stack@),
            forall|d2: int, p: int|
                0 <= d2 < d && row@[d2] && 0 <= p < tainted@.len() && #[trigger] leading_phi(f, d2, p) ==> tainted@[p],
            forall|u: int|
                0 <= u < tainted@.len() && #[trigger] tainted@[u] && !t0[u] ==> exists|d2: int|
                    0 <= d2 < d && row@[d2] && #[trigger] leading_phi(f, d2, u),
        decreases n - d,
    {
        if row[d] {
            let ghost t1 = tainted@;
            let ghost s1 = stack@;
            taint_leading_phis(f, Block(d as u32), tainted, stack);
            proof {
                let dd = d as int;
                lemma_taint_step_trans(t0, s0, t1, s1, tainted@, stack@);
                assert forall|u: int|
                    0 <= u < tainted@.len() && #[trigger] tainted@[u] && !t0[u] implies exists|d2: int|
                        0 <= d2 < d + 1 && row@[d2] && #[trigger] leading_phi(f, d2, u) by {
                    if !t1[u] {
                        assert(leading_phi(f, dd, u));
                    }
                }
            }
        }
        d += 1;
    }
    proof {
        assert forall|u: int| 0 <= u < tainted@.len() && #[trigger] frontier_phi(f, row@, u) implies tainted@[u] by {
            let d2 = choose|d2: int| 0 <= d2 < row@.len() && row@[d2] && #[trigger] leading_phi(f, d2, u);
        }
    }
}

/// Mark every user of a result of `i`.
fn taint_result_users(f: &Function, i: Inst, tainted: &mut Vec<bool>, stack: &mut Vec<Inst>)
    requires
        f.dfg.values.wf(),
        old(tainted)@.len() < u32::MAX,
        forall|u: int| 0 <= u < f.dfg.values@.users.len() ==> (#[trigger] f.dfg.values@.users[u]).0.0 < old(tainted)@.len(),
    ensures
        taint_step(old(tainted)@, old(stack)@, final(tainted)@, final(stack)@),
        forall|u: int| 0 <= u < final(tainted)@.len() && #[trigger] uses_result_of(f, i.0 as int, u) ==> final(tainted)@[u],
        forall|u: int|
            0 <= u < final(tainted)@.len() && #[trigger] final(tainted)@[u] && !old(tainted)@[u] ==> uses_result_of(f, i.0 as int, u),
{
    let ghost t0 = tainted@;
    let ghost s0 = stack@;
    let ghost ii = i.0 as int;
    proof {
        f.dfg.values.lemma_view();
        lemma_taint_step_refl(t0, s0);
    }
    let nv = f.dfg.num_values();
    let mut v: usize = 0;
    while v < nv
        invariant
            f.dfg.values.wf(),
            forall|u: int| 0 <= u < f.dfg.values@.users.len() ==> (#[trigger] f.dfg.values@.users[u]).0.0 < t0.len(),
            t0.len() < u32::MAX,
            ii == i.0,
            nv == f.dfg.values@.types.len(),
            nv < u32::MAX,
            v <= nv,
            taint_step(t0, s0, tainted@, stack@),
            forall|v2: int, u: int|
                0 <= v2 < v && def_inst(f, Value(v2 as u32)) == Some(i) && 0 <= u < tainted@.len() && #[trigger] uses_value(
                    f,
                    v2,
                    u,
                ) ==> tainted@[u],
            forall|u: int|
                0 <= u < tainted@.len() && #[trigger] tainted@[u] && !t0[u] ==> exists|v2: int|
                    0 <= v2 < v && def_inst(f, Value(v2 as u32)) == Some(i) && #[trigger] uses_value(f, v2, u),
        decreases nv - v,
    {
        let val = Value(v as u32);
        let is_result = match f.dfg.value_def(val) {
            ValueDef::Result(d, _) => d == i,
            _ => false,
        };
        if is_result {
            let ghost t1 = tainted@;
            let ghost s1 = stack@;
            taint_users(f, val, tainted, stack);
            proof {
                lemma_taint_step_trans(t0, s0, t1, s1, tainted@, stack@);
                assert(def_inst(f, val) == Some(i));
                assert forall|u: int|
                    0 <= u < tainted@.len() && #[trigger] tainted@[u] && !t0[u] implies exists|v2: int|
                        0 <= v2 < v + 1 && def_inst(f, Value(v2 as u32)) == Some(i) && #[trigger] uses_value(f, v2, u) by {
                    if !t1[u] {
                        assert(uses_value(f, v as int, u));
                    }
                }
            }
        } else {
            proof {
                assert(def_inst(f, val) != Some(i));
            }
        }
        v += 1;
    }
    proof {
        assert forall|u: int|
            0 <= u < tainted@.len() && #[trigger] tainted@[u] && !t0[u] implies uses_result_of(f, ii, u) by {
            let v2 = choose|v2: int| 0 <= v2 < v && def_inst(f, Value(v2 as u32)) == Some(i) && #[trigger] uses_value(f, v2, u);
            assert(Inst(ii as u32) == i);
        }
        assert forall|u: int| 0 <= u < tainted@.len() && #[trigger] uses_result_of(f, ii, u) implies tainted@[u] by {
            let v2 = choose|v2: int|
                0 <= v2 < f.dfg.values@.types.len() && def_inst(f, Value(v2 as u32)) == Some(Inst(ii as u32))
                    && #[trigger] uses_value(f, v2, u);
            assert(Inst(ii as u32) == i);
        }
    }
}

/// Mark what `i` taints (see [`taints`]).
fn taint_from(f: &Function, df: &Vec<Vec<bool>>, sources: Ghost<Seq<Value>>, i: Inst, tainted: &mut Vec<bool>, stack: &mut Vec<Inst>)
    requires
        taint_ready(f, df@, sources@),
        i.0 < f.dfg.insts@.len(),
        old(tainted)@.len() == f.dfg.insts@.len(),
    ensures
        taint_step(old(tainted)@, old(stack)@, final(tainted)@, final(stack)@),
        forall|u: int| 0 <= u < final(tainted)@.len() && #[trigger] taints(f, df@, i.0 as int, u) ==> final(tainted)@[u],
        forall|u: int|
            0 <= u < final(tainted)@.len() && #[trigger] final(tainted)@[u] && !old(tainted)@[u] ==> taints(f, df@, i.0 as int, u),
{
    let ghost t0 = tainted@;
    let ghost s0 = stack@;
    let ghost ii = i.0 as int;
    match &f.dfg.insts[i.0 as usize] {
        InstructionData::Branch { then_dst, else_dst, .. } => {
            let then_row = &df[then_dst.0 as usize];
            let else_row = &df[else_dst.0 as usize];
            taint_frontier_phis(f, then_row, tainted, stack);
            let ghost t1 = tainted@;
            let ghost s1 = stack@;
            taint_frontier_phis(f, else_row, tainted, stack);
            proof {
                lemma_taint_step_trans(t0, s0, t1, s1, tainted@, stack@);
                assert forall|u: int|
                    0 <= u < tainted@.len() && #[trigger] tainted@[u] && !t0[u] implies taints(f, df@, ii, u) by {
                    if !t1[u] {
                        assert(frontier_phi(f, else_row@, u));
                    } else {
                        assert(frontier_phi(f, then_row@, u));
                    }
                }
                assert forall|u: int| 0 <= u < tainted@.len() && #[trigger] taints(f, df@, ii, u) implies tainted@[u] by {
                    if frontier_phi(f, then_row@, u) {
                        assert(t1[u]);
                    }
                }
            }
        },
        _ => {
            taint_result_users(f, i, tainted, stack);
        },
    }
}

/// Taint the instructions that depend on the `taint_source` values directly: their users,
/// and then what a tainted instruction taints (see [`taints`]), until nothing more is
/// tainted. `tainted_insts` is first extended to one mark per instruction; instructions
/// marked already keep their mark and are not propagated from. The result is the least
/// marking that holds those marks and the users of the sources and is closed under tainting.
pub fn propagate_direct_taint(
    func: &Function,
    dom_frontiers: &Vec<Vec<bool>>,
    taint_source: &Vec<Value>,
    tainted_insts: &mut Vec<bool>,
)
    requires
        taint_ready(func, dom_frontiers@, taint_source@),
        old(tainted_insts)@.len() <= func.dfg.insts@.len(),
    ensures
        final(tainted_insts)@.len() == func.dfg.insts@.len(),
        taint_seeded(func, taint_source@, extended(old(tainted_insts)@, func.dfg.insts@.len()), final(tainted_insts)@),
        taint_closed(func, dom_frontiers@, extended(old(tainted_insts)@, func.dfg.insts@.len()), final(tainted_insts)@),
        forall|l: Seq<bool>|
            l.len() == func.dfg.insts@.len() && #[trigger] taint_closed(
                func,
                dom_frontiers@,
                extended(old(tainted_insts)@, func.dfg.insts@.len()),
                l,
            ) && taint_seeded(func, taint_source@, extended(old(tainted_insts)@, func.dfg.insts@.len()), l) ==> forall|i: int|
                0 <= i < l.len() && #[trigger] final(tainted_insts)@[i] ==> l[i],
{
    let m = func.dfg.num_insts();
    let ghost ext = extended(old(tainted_insts)@, m as nat);
    while tainted_insts.len() < m
        invariant
            m == func.dfg.insts@.len(),
            tainted_insts@.len() <= m,
            old(tainted_insts)@.len() <= tainted_insts@.len(),
            ext == extended(old(tainted_insts)@, m as nat),
            forall|i: int| 0 <= i < tainted_insts@.len() ==> #[trigger] tainted_insts@[i] == ext[i],
        decreases m - tainted_insts@.len(),
    {
        tainted_insts.push(false);
    }
    let ghost before = tainted_insts@;
    proof {
        assert(before == ext);
    }
    let mut stack: Vec<Inst> = Vec::new();
    let ghost srcs = taint_source@;
    proof {
        lemma_taint_step_refl(before, stack@);
    }
    let mut s: usize = 0;
    while s < taint_source.len()
        invariant
            taint_ready(func, dom_frontiers@, srcs),
            srcs == taint_source@,
            m == func.dfg.insts@.len(),
            before.len() == m,
            s <= taint_source.len(),
            taint_step(before, Seq::<Inst>::empty(), tainted_insts@, stack@),
            forall|s2: int, u: int|
                0 <= s2 < s && 0 <= u < m && #[trigger] uses_value(func, srcs[s2].0 as int, u) ==> tainted_insts@[u],
            forall|u: int| 0 <= u < m && #[trigger] tainted_insts@[u] && !before[u] ==> uses_source(func, srcs, u),
        decreases taint_source.len() - s,
    {
        let ghost t1 = tainted_insts@;
        let ghost s1 = stack@;
        taint_users(func, taint_source[s], tainted_insts, &mut stack);
        proof {
            lemma_taint_step_trans(before, Seq::<Inst>::empty(), t1, s1, tainted_insts@, stack@);
            assert forall|u: int| 0 <= u < m && #[trigger] tainted_insts@[u] && !before[u] implies uses_source(func, srcs, u) by {
                if !t1[u] {
                    assert(uses_value(func, srcs[s as int].0 as int, u));
                }
            }
        }
        s += 1;
    }
    proof {
        assert forall|u: int| 0 <= u < m && #[trigger] uses_source(func, srcs, u) implies tainted_insts@[u] by {
            let s2 = choose|s2: int| 0 <= s2 < srcs.len() && #[trigger] uses_value(func, srcs[s2].0 as int, u);
        }
        assert forall|l: Seq<bool>|
            l.len() == m && #[trigger] taint_closed(func, dom_frontiers@, before, l) && taint_seeded(func, srcs, before, l)
                implies forall|i: int| 0 <= i < l.len() && #[trigger] tainted_insts@[i] ==> l[i] by {
            assert forall|i: int| 0 <= i < l.len() && #[trigger] tainted_insts@[i] implies l[i] by {
                if !before[i] {
                    assert(uses_source(func, srcs, i));
                }
            }
        }
    }
    while stack.len() > 0
        invariant
            taint_ready(func, dom_frontiers@, srcs),
            m == func.dfg.insts@.len(),
            before.len() == m,
            tainted_insts@.len() == m,
            forall|i: int| 0 <= i < m && #[trigger] before[i] ==> tainted_insts@[i],
            forall|u: int| 0 <= u < m && #[trigger] uses_source(func, srcs, u) ==> tainted_insts@[u],
            forall|k: int|
                0 <= k < stack@.len() ==> (#[trigger] stack@[k]).0 < m && tainted_insts@[stack@[k].0 as int]
                    && !before[stack@[k].0 as int],
            forall|i: int|
                0 <= i < m && #[trigger] tainted_insts@[i] && !before[i] ==> stack@.contains(Inst(i as u32)) || (forall|u: int|
                    0 <= u < m && #[trigger] taints(func, dom_frontiers@, i, u) ==> tainted_insts@[u]),
            forall|l: Seq<bool>|
                l.len() == m && #[trigger] taint_closed(func, dom_frontiers@, before, l) && taint_seeded(func, srcs, before, l)
                    ==> forall|i: int| 0 <= i < l.len() && #[trigger] tainted_insts@[i] ==> l[i],
        decreases stack@.len() + count_false(tainted_insts@),
    {
        let ghost s0 = stack@;
        let i = stack.pop().unwrap();
        let ghost t1 = tainted_insts@;
        let ghost s1 = stack@;
        let ghost ii = i.0 as int;
        proof {
            assert(s0 == s1.push(i));
            assert(s1.push(i)[s1.len() as int] == i);
        }
        taint_from(func, dom_frontiers, Ghost(srcs), i, tainted_insts, &mut stack);
        proof {
            assert forall|k: int| 0 <= k < stack@.len() implies (#[trigger] stack@[k]).0 < m && tainted_insts@[stack@[k].0 as int]
                && !before[stack@[k].0 as int] by {
                if k < s1.len() {
                    assert(stack@[k] == stack@.subrange(0, s1.len() as int)[k]);
                    assert(s1[k] == s1.push(i)[k]);
                }
            }
            assert forall|j: int|
                0 <= j < m && #[trigger] tainted_insts@[j] && !before[j] implies stack@.contains(Inst(j as u32)) || (forall|u: int|
                    0 <= u < m && #[trigger] taints(func, dom_frontiers@, j, u) ==> tainted_insts@[u]) by {
                if j == ii {
                    assert(Inst(j as u32) == i);
                } else if !t1[j] {
                    assert(stack@.contains(Inst(j as u32)));
                } else if s0.contains(Inst(j as u32)) {
                    let k = choose|k: int| 0 <= k < s0.len() && s0[k] == Inst(j as u32);
                    assert(k < s1.len());
                    assert(s1[k] == s0[k]);
                    assert(stack@.subrange(0, s1.len() as int)[k] == stack@[k]);
                } else {
                    assert forall|u: int| 0 <= u < m && #[trigger] taints(func, dom_frontiers@, j, u) implies tainted_insts@[u] by {
                        assert(t1[u]);
                    }
                }
            }
            assert forall|l: Seq<bool>|
                l.len() == m && #[trigger] taint_closed(func, dom_frontiers@, before, l) && taint_seeded(func, srcs, before, l)
                    implies forall|j: int| 0 <= j < l.len() && #[trigger] tainted_insts@[j] ==> l[j] by {
                assert(l[ii]);
                assert forall|j: int| 0 <= j < l.len() && #[trigger] tainted_insts@[j] implies l[j] by {
                    if !t1[j] {
                        assert(taints(func, dom_frontiers@, ii, j));
                    }
                }
            }
        }
    }
    proof {
        assert forall|i: int, u: int|
            0 <= i < m && tainted_insts@[i] && !before[i] && 0 <= u < m && #[trigger] taints(func, dom_frontiers@, i, u) implies tainted_insts@[u] by {
            assert(!stack@.contains(Inst(i as u32)));
        }
    }
}

/// `p` is a walk along the successor lists `succs` that never enters `end`.
pub open spec fn region_path(succs: Seq<Seq<Block>>, end: Option<Block>, p: Seq<int>) -> bool {
    &&& p.len() > 0
    &&& forall|j: int| 0 <= j < p.len() ==> 0 <= #[trigger] p[j] < succs.len() && end != Some(Block(p[j] as u32))
    &&& forall|j: int| 0 <= j < p.len() - 1 ==> #[trigger] succs[p[j]].contains(Block(p[j + 1] as u32))
}

/// Block `c` can be reached from block `s` without entering `end`: it lies in the region
/// that a branch out of a block ending at `end` controls.
pub open spec fn in_region(succs: Seq<Seq<Block>>, s: int, end: Option<Block>, c: int) -> bool {
    exists|p: Seq<int>| #[trigger] region_path(succs, end, p) && p[0] == s && p.last() == c
}

/// A walk extended by a successor that is not `end` is a walk.
proof fn lemma_region_path_push(succs: Seq<Seq<Block>>, end: Option<Block>, p: Seq<int>, c: int)
    requires
        region_path(succs, end, p),
        0 <= c < succs.len(),
        end != Some(Block(c as u32)),
        succs[p.last()].contains(Block(c as u32)),
    ensures
        region_path(succs, end, p.push(c)),
        p.push(c)[0] == p[0],
        p.push(c).last() == c,
{
    let q = p.push(c);
    assert forall|j: int| 0 <= j < q.len() - 1 implies #[trigger] succs[q[j]].contains(Block(q[j + 1] as u32)) by {
        if j < p.len() - 1 {
            assert(q[j] == p[j] && q[j + 1] == p[j + 1]);
        } else {
            assert(q[j] == p.last());
        }
    }
    assert forall|j: int| 0 <= j < q.len() implies 0 <= #[trigger] q[j] < succs.len() && end != Some(Block(q[j] as u32)) by {
        if j < p.len() {
            assert(q[j] == p[j]);
        }
    }
}

/// A set of blocks that holds `s` and every successor, but `end`, of each of its blocks
/// holds every block reached from `s` without entering `end`.
proof fn lemma_region_closed(succs: Seq<Seq<Block>>, end: Option<Block>, seen: Seq<bool>, p: Seq<int>)
    requires
        region_path(succs, end, p),
        succs.len() < u32::MAX,
        seen.len() == succs.len(),
        seen[p[0]],
        forall|b: int, c: Block|
            0 <= b < succs.len() && #[trigger] seen[b] && #[trigger] succs[b].contains(c) && end != Some(c) && c.0 < succs.len()
                ==> seen[c.0 as int],
        forall|b: int, k: int| 0 <= b < succs.len() && 0 <= k < succs[b].len() ==> (#[trigger] succs[b][k]).0 < succs.len(),
    ensures
        seen[p.last()],
    decreases p.len(),
{
    if p.len() > 1 {
        let q = p.drop_last();
        assert forall|j: int| 0 <= j < q.len() - 1 implies #[trigger] succs[q[j]].contains(Block(q[j + 1] as u32)) by {
            assert(q[j] == p[j] && q[j + 1] == p[j + 1]);
        }
        assert forall|j: int| 0 <= j < q.len() implies 0 <= #[trigger] q[j] < succs.len() && end != Some(Block(q[j] as u32)) by {
            assert(q[j] == p[j]);
        }
        lemma_region_closed(succs, end, seen, q);
        let b = q.last();
        let c = Block(p.last() as u32);
        let j = p.len() - 2;
        assert(succs[p[j]].contains(Block(p[j + 1] as u32)));
        assert(p[j] == b && p[j + 1] == p.last());
        assert(seen[b] && succs[b].contains(c) && end != Some(c) && c.0 < succs.len());
    }
}

/// Every instruction of a marked block is marked.
pub open spec fn blocks_covered(f: &Function, tainted_blocks: Seq<bool>, tainted: Seq<bool>) -> bool {
    forall|b: int, j: int|
        0 <= b < tainted_blocks.len() && tainted_blocks[b] && 0 <= j < f.layout@.insts[b].len() ==> tainted[(
        #[trigger] f.layout@.insts[b][j]).0 as int]
}

/// The function and its control flow graph fit together for walking regions.
pub open spec fn region_ready(f: &Function, cfg: &ControlFlowGraph) -> bool {
    let n = f.layout@.num_blocks();
    &&& f.layout.wf()
    &&& cfg.wf()
    &&& cfg@.len() == n
    &&& n < u32::MAX
    &&& f.dfg.insts@.len() < u32::MAX
    &&& forall|b: int, k: int| 0 <= b < n && 0 <= k < cfg@[b].len() ==> (#[trigger] cfg@[b][k]).0 < n
    &&& forall|b: int, j: int| 0 <= b < n && 0 <= j < f.layout@.insts[b].len() ==> (#[trigger] f.layout@.insts[b][j]).0 < f.dfg.insts@.len()
}

/// Mark the instructions of block `b`.
fn taint_block_insts(f: &Function, b: Block, tainted: &mut Vec<bool>, stack: &mut Vec<Inst>)
    requires
        f.layout.wf(),
        b.0 < f.layout@.num_blocks(),
        old(tainted)@.len() == f.dfg.insts@.len(),
        f.dfg.insts@.len() < u32::MAX,
        forall|j: int| 0 <= j < f.layout@.insts[b.0 as int].len() ==> (#[trigger] f.layout@.insts[b.0 as int][j]).0 < f.dfg.insts@.len(),
    ensures
        taint_step(old(tainted)@, old(stack)@, final(tainted)@, final(stack)@),
        forall|j: int| 0 <= j < f.layout@.insts[b.0 as int].len() ==> final(tainted)@[(#[trigger] f.layout@.insts[b.0 as int][j]).0 as int],
        forall|u: int|
            0 <= u < final(tainted)@.len() && #[trigger] final(tainted)@[u] && !old(tainted)@[u] ==> f.layout@.insts[b.0 as int].contains(
                Inst(u as u32),
            ),
{
    let insts = f.layout.block_insts(b);
    let ghost t0 = tainted@;
    let ghost s0 = stack@;
    proof {
        lemma_taint_step_refl(t0, s0);
    }
    let mut j: usize = 0;
    while j < insts.len()
        invariant
            insts@ == f.layout@.insts[b.0 as int],
            j <= insts.len(),
            t0.len() == f.dfg.insts@.len(),
            f.dfg.insts@.len() < u32::MAX,
            forall|j2: int| 0 <= j2 < insts@.len() ==> (#[trigger] insts@[j2]).0 < f.dfg.insts@.len(),
            taint_step(t0, s0, tainted@, stack@),
            forall|j2: int| 0 <= j2 < j ==> tainted@[(#[trigger] insts@[j2]).0 as int],
            forall|u: int|
                0 <= u < tainted@.len() && #[trigger] tainted@[u] && !t0[u] ==> exists|j2: int|
                    0 <= j2 < j && #[trigger] insts@[j2] == Inst(u as u32),
        decreases insts.len() - j,
    {
        let ghost t1 = tainted@;
        let ghost s1 = stack@;
        taint_one(tainted, stack, insts[j]);
        proof {
            lemma_taint_step_trans(t0, s0, t1, s1, tainted@, stack@);
            assert forall|u: int|
                0 <= u < tainted@.len() && #[trigger] tainted@[u] && !t0[u] implies exists|j2: int|
                    0 <= j2 < j + 1 && #[trigger] insts@[j2] == Inst(u as u32) by {
                if u == insts@[j as int].0 {
                    assert(insts@[j as int] == Inst(u as u32));
                } else {
                    assert(t1[u]);
                }
            }
        }
        j += 1;
    }
    proof {
        assert forall|u: int|
            0 <= u < tainted@.len() && #[trigger] tainted@[u] && !t0[u] implies f.layout@.insts[b.0 as int].contains(Inst(u as u32)) by {
            let j2 = choose|j2: int| 0 <= j2 < j && #[trigger] insts@[j2] == Inst(u as u32);
        }
    }
}

/// Mark every block reached from `start` without entering `end`, and the instructions of
/// each block that was not marked before.
fn taint_region(
    f: &Function,
    cfg: &ControlFlowGraph,
    start: Block,
    end: Option<Block>,
    tainted_blocks: &mut Vec<bool>,
    tainted: &mut Vec<bool>,
    stack: &mut Vec<Inst>,
)
    requires
        region_ready(f, cfg),
        start.0 < f.layout@.num_blocks(),
        old(tainted_blocks)@.len() == f.layout@.num_blocks(),
        old(tainted)@.len() == f.dfg.insts@.len(),
        blocks_covered(f, old(tainted_blocks)@, old(tainted)@),
    ensures
        taint_step(old(tainted)@, old(stack)@, final(tainted)@, final(stack)@),
        final(tainted_blocks)@.len() == old(tainted_blocks)@.len(),
        forall|b: int| 0 <= b < old(tainted_blocks)@.len() && #[trigger] old(tainted_blocks)@[b] ==> final(tainted_blocks)@[b],
        blocks_covered(f, final(tainted_blocks)@, final(tainted)@),
        forall|c: int| 0 <= c < f.layout@.num_blocks() && #[trigger] in_region(cfg@, start.0 as int, end, c) ==> final(tainted_blocks)@[c],
        forall|u: int|
            0 <= u < final(tainted)@.len() && #[trigger] final(tainted)@[u] && !old(tainted)@[u] ==> exists|c: int|
                0 <= c < f.layout@.num_blocks() && in_region(cfg@, start.0 as int, end, c) && #[trigger] f.layout@.insts[c].contains(
                    Inst(u as u32),
                ),
{
    let ghost t0 = tainted@;
    let ghost s0 = stack@;
    let ghost tb0 = tainted_blocks@;
    let ghost succs = cfg@;
    let ghost si = start.0 as int;
    proof {
        lemma_taint_step_refl(t0, s0);
    }
    let at_end = match end {
        Some(e) => e.0 == start.0,
        None => false,
    };
    if at_end {
        proof {
            assert forall|c: int| 0 <= c < f.layout@.num_blocks() && #[trigger] in_region(succs, si, end, c) implies tainted_blocks@[c] by {
                let p = choose|p: Seq<int>| #[trigger] region_path(succs, end, p) && p[0] == si && p.last() == c;
                assert(Block(p[0] as u32) == start);
            }
        }
        return;
    }
    let n = tainted_blocks.len();
    let mut visited: Vec<bool> = Vec::new();
    while visited.len() < n
        invariant
            visited@.len() <= n,
            forall|b: int| 0 <= b < visited@.len() ==> !#[trigger] visited@[b],
        decreases n - visited@.len(),
    {
        visited.push(false);
    }
    proof {
        lemma_count_false_set(visited@, si);
        let p = seq![si];
        assert(region_path(succs, end, p));
    }
    visited.set(start.0 as usize, true);
    let mut work: Vec<Block> = vec![start];
    while work.len() > 0
        invariant
            region_ready(f, cfg),
            succs == cfg@,
            n == f.layout@.num_blocks(),
            n == succs.len(),
            si == start.0,
            0 <= si < n,
            end != Some(start),
            t0.len() == f.dfg.insts@.len(),
            visited@.len() == n,
            tainted_blocks@.len() == n,
            tb0.len() == n,
            visited@[si],
            taint_step(t0, s0, tainted@, stack@),
            forall|b: int| 0 <= b < n && #[trigger] tb0[b] ==> tainted_blocks@[b],
            blocks_covered(f, tainted_blocks@, tainted@),
            forall|k: int| 0 <= k < work@.len() ==> (#[trigger] work@[k]).0 < n && visited@[work@[k].0 as int],
            forall|b: int| 0 <= b < n && #[trigger] visited@[b] ==> in_region(succs, si, end, b),
            forall|b: int|
                0 <= b < n && #[trigger] visited@[b] && !work@.contains(Block(b as u32)) ==> tainted_blocks@[b] && forall|c: Block|
                    #[trigger] succs[b].contains(c) && end != Some(c) ==> visited@[c.0 as int],
            forall|u: int|
                0 <= u < tainted@.len() && #[trigger] tainted@[u] && !t0[u] ==> exists|c: int|
                    0 <= c < n && in_region(succs, si, end, c) && #[trigger] f.layout@.insts[c].contains(Inst(u as u32)),
        decreases work@.len() + count_false(visited@),
    {
        let ghost w0 = work@;
        let b = work.pop().unwrap();
        let ghost bi = b.0 as int;
        let ghost w1 = work@;
        proof {
            assert(w0 == w1.push(b));
            assert(w0[w1.len() as int] == b);
        }
        if !tainted_blocks[b.0 as usize] {
            let ghost t1 = tainted@;
            let ghost s1 = stack@;
            taint_block_insts(f, b, tainted, stack);
            tainted_blocks.set(b.0 as usize, true);
            proof {
                lemma_taint_step_trans(t0, s0, t1, s1, tainted@, stack@);
                assert(in_region(succs, si, end, bi));
                assert forall|u: int|
                    0 <= u < tainted@.len() && #[trigger] tainted@[u] && !t0[u] implies exists|c: int|
                        0 <= c < n && in_region(succs, si, end, c) && #[trigger] f.layout@.insts[c].contains(Inst(u as u32)) by {
                    if !t1[u] {
                        assert(f.layout@.insts[bi].contains(Inst(u as u32)));
                    }
                }
            }
        }
        let succ = cfg.succ_iter(b);
        let ghost vis1 = visited@;
        let mut k: usize = 0;
        while k < succ.len()
            invariant
                region_ready(f, cfg),
                succs == cfg@,
                succ@ == succs[bi],
                0 <= bi < n,
                n == succs.len(),
                end != Some(start),
                k <= succ.len(),
                visited@.len() == n,
                vis1.len() == n,
                forall|b2: int| 0 <= b2 < n && #[trigger] vis1[b2] ==> visited@[b2],
                in_region(succs, si, end, bi),
                forall|k2: int| 0 <= k2 < work@.len() ==> (#[trigger] work@[k2]).0 < n && visited@[work@[k2].0 as int],
                forall|b2: int| 0 <= b2 < n && #[trigger] visited@[b2] ==> in_region(succs, si, end, b2),
                forall|k2: int| 0 <= k2 < k && end != Some(#[trigger] succ@[k2]) ==> visited@[succ@[k2].0 as int],
                w1.len() <= work@.len(),
                work@.subrange(0, w1.len() as int) == w1,
                forall|b2: int| 0 <= b2 < n && #[trigger] visited@[b2] && !vis1[b2] ==> work@.contains(Block(b2 as u32)),
                work@.len() + count_false(visited@) == w1.len() + count_false(vis1),
            decreases succ.len() - k,
        {
            let c = succ[k];
            let ci = c.0 as usize;
            proof {
                assert(succs[bi].contains(c));
            }
            let is_end = match end {
                Some(e) => e.0 == c.0,
                None => false,
            };
            if !is_end && !visited[ci] {
                let ghost wa = work@;
                let ghost va = visited@;
                proof {
                    lemma_count_false_set(visited@, ci as int);
                    let p = choose|p: Seq<int>| #[trigger] region_path(succs, end, p) && p[0] == si && p.last() == bi;
                    lemma_region_path_push(succs, end, p, ci as int);
                    assert(Block(ci as int as u32) == c);
                    assert(in_region(succs, si, end, ci as int));
                }
                visited.set(ci, true);
                work.push(c);
                proof {
                    assert(work@.subrange(0, w1.len() as int) == wa.subrange(0, w1.len() as int));
                    assert(work@[wa.len() as int] == c);
                    assert forall|b2: int| 0 <= b2 < n && #[trigger] visited@[b2] && !vis1[b2] implies work@.contains(Block(b2 as u32)) by {
                        if b2 == ci {
                            assert(work@[wa.len() as int] == Block(b2 as u32));
                        } else {
                            assert(va[b2]);
                            let k3 = choose|k3: int| 0 <= k3 < wa.len() && wa[k3] == Block(b2 as u32);
                            assert(work@[k3] == wa[k3]);
                        }
                    }
                    assert forall|k2: int| 0 <= k2 < work@.len() implies (#[trigger] work@[k2]).0 < n && visited@[work@[k2].0 as int] by {
                        if k2 < wa.len() {
                            assert(work@[k2] == wa[k2]);
                        }
                    }
                }
            } else {
                proof {
                    if !is_end {
                        assert(visited@[ci as int]);
                    } else {
                        assert(end == Some(c));
                    }
                }
            }
            k += 1;
        }
        proof {
            assert forall|k2: int| 0 <= k2 < w0.len() - 1 implies #[trigger] w1[k2] == w0[k2] by {}
            assert forall|b2: int|
                0 <= b2 < n && #[trigger] visited@[b2] && !work@.contains(Block(b2 as u32)) implies tainted_blocks@[b2] && forall|c: Block|
                    #[trigger] succs[b2].contains(c) && end != Some(c) ==> visited@[c.0 as int] by {
                if b2 == bi {
                    assert forall|c: Block| #[trigger] succs[b2].contains(c) && end != Some(c) implies visited@[c.0 as int] by {
                        let k2 = choose|k2: int| 0 <= k2 < succ@.len() && succ@[k2] == c;
                    }
                } else if vis1[b2] {
                    if w1.contains(Block(b2 as u32)) {
                        let k3 = choose|k3: int| 0 <= k3 < w1.len() && w1[k3] == Block(b2 as u32);
                        assert(work@.subrange(0, w1.len() as int)[k3] == work@[k3]);
                        assert(false);
                    }
                    if w0.contains(Block(b2 as u32)) {
                        let k3 = choose|k3: int| 0 <= k3 < w0.len() && w0[k3] == Block(b2 as u32);
                        if k3 < w1.len() {
                            assert(w1[k3] == w0[k3]);
                        } else {
                            assert(w0[k3] == b);
                        }
                        assert(false);
                    }
                    assert forall|c: Block| #[trigger] succs[b2].contains(c) && end != Some(c) implies visited@[c.0 as int] by {
                        assert(vis1[c.0 as int]);
                    }
                }
            }
        }
    }
    proof {
        assert forall|b: int, c: Block|
            0 <= b < n && #[trigger] visited@[b] && #[trigger] succs[b].contains(c) && end != Some(c) && c.0 < n implies visited@[c.0 as int] by {
            assert(!work@.contains(Block(b as u32)));
        }
        assert forall|c: int| 0 <= c < n && #[trigger] in_region(succs, si, end, c) implies tainted_blocks@[c] by {
            let p = choose|p: Seq<int>| #[trigger] region_path(succs, end, p) && p[0] == si && p.last() == c;
            lemma_region_closed(succs, end, visited@, p);
            assert(!work@.contains(Block(c as u32)));
        }
    }
}


/// Where the region of a branch in block `b` ends: at the immediate post-dominator of `b`.
pub open spec fn region_end(dom_tree: &DominatorTree, b: Block) -> Option<Block> {
    dom_tree.spec_reverse_nodes()[b.0 as int].idom
}

/// Instruction `u` is tainted by a tainted instruction `i`, counting whole regions: `i` is
/// a branch and `u` lies in a block that one of its destinations reaches before the
/// immediate post-dominator of the branch's block; `i` is a jump and `u` is one of the phis
/// that open its destination; or `i` is neither and `u` uses one of its results.
pub open spec fn taints_region(f: &Function, cfg: &ControlFlowGraph, dom_tree: &DominatorTree, i: int, u: int) -> bool {
    match f.dfg.insts@[i] {
        InstructionData::Branch { then_dst, else_dst, .. } => {
            let end = region_end(dom_tree, f.layout@.block_of(Inst(i as u32)).unwrap());
            exists|c: int|
                0 <= c < f.layout@.num_blocks() && (in_region(cfg@, then_dst.0 as int, end, c) || in_region(
                    cfg@,
                    else_dst.0 as int,
                    end,
                    c,
                )) && #[trigger] f.layout@.insts[c].contains(Inst(u as u32))
        },
        InstructionData::Jump { destination } => leading_phi(f, destination.0 as int, u),
        _ => uses_result_of(f, i, u),
    }
}

/// The marks `l` are closed under tainting by regions, for the instructions that were not
/// marked `before`.
pub open spec fn region_taint_closed(
    f: &Function,
    cfg: &ControlFlowGraph,
    dom_tree: &DominatorTree,
    before: Seq<bool>,
    l: Seq<bool>,
) -> bool {
    forall|i: int, u: int|
        0 <= i < l.len() && l[i] && !before[i] && 0 <= u < l.len() && #[trigger] taints_region(f, cfg, dom_tree, i, u) ==> l[u]
}

/// The inputs of [`propagate_taint`] fit together: every branch is placed, and the branch
/// and jump destinations and the post-dominator tree cover the blocks.
pub open spec fn region_taint_ready(f: &Function, cfg: &ControlFlowGraph, dom_tree: &DominatorTree, sources: Seq<Value>) -> bool {
    let n = f.layout@.num_blocks();
    let m = f.dfg.insts@.len();
    &&& region_ready(f, cfg)
    &&& f.dfg.values.wf()
    &&& dom_tree.spec_reverse_nodes().len() == n
    &&& forall|u: int| 0 <= u < f.dfg.values@.users.len() ==> (#[trigger] f.dfg.values@.users[u]).0.0 < m
    &&& forall|s: int| 0 <= s < sources.len() ==> (#[trigger] sources[s]).0 < f.dfg.values@.types.len()
    &&& forall|i: int|
        0 <= i < m ==> (#[trigger] f.dfg.insts@[i] matches InstructionData::Branch { then_dst, else_dst, .. } ==> then_dst.0 < n
            && else_dst.0 < n && f.layout@.block_of(Inst(i as u32)) is Some)
    &&& forall|i: int| 0 <= i < m ==> (#[trigger] f.dfg.insts@[i] matches InstructionData::Jump { destination } ==> destination.0 < n)
}

/// A placed instruction lies in a block of the layout.
proof fn lemma_block_of_bound(f: &Function, i: Inst)
    requires
        f.layout@.num_blocks() < u32::MAX,
        f.layout@.block_of(i) is Some,
    ensures
        f.layout@.block_of(i).unwrap().0 < f.layout@.num_blocks(),
{
    let b = choose|b: int| 0 <= b < f.layout@.insts.len() && #[trigger] f.layout@.insts[b].contains(i);
    assert(f.layout@.block_of(i) == Some(Block(b as u32)));
}

/// Mark what `i` taints (see [`taints_region`]).
fn region_taint_from(
    f: &Function,
    cfg: &ControlFlowGraph,
    dom_tree: &DominatorTree,
    sources: Ghost<Seq<Value>>,
    i: Inst,
    tainted_blocks: &mut Vec<bool>,
    tainted: &mut Vec<bool>,
    stack: &mut Vec<Inst>,
)
    requires
        region_taint_ready(f, cfg, dom_tree, sources@),
        i.0 < f.dfg.insts@.len(),
        old(tainted)@.len() == f.dfg.insts@.len(),
        old(tainted_blocks)@.len() == f.layout@.num_blocks(),
        blocks_covered(f, old(tainted_blocks)@, old(tainted)@),
    ensures
        taint_step(old(tainted)@, old(stack)@, final(tainted)@, final(stack)@),
        final(tainted_blocks)@.len() == old(tainted_blocks)@.len(),
        blocks_covered(f, final(tainted_blocks)@, final(tainted)@),
        forall|u: int| 0 <= u < final(tainted)@.len() && #[trigger] taints_region(f, cfg, dom_tree, i.0 as int, u) ==> final(tainted)@[u],
        forall|u: int|
            0 <= u < final(tainted)@.len() && #[trigger] final(tainted)@[u] && !old(tainted)@[u] ==> taints_region(
                f,
                cfg,
                dom_tree,
                i.0 as int,
                u,
            ),
{
    let ghost t0 = tainted@;
    let ghost s0 = stack@;
    let ghost ii = i.0 as int;
    proof {
        assert(Inst(ii as u32) == i);
    }
    match &f.dfg.insts[i.0 as usize] {
        InstructionData::Branch { then_dst, else_dst, .. } => {
            let bb = f.layout.inst_block(i).unwrap();
            proof {
                lemma_block_of_bound(f, i);
            }
            let end = dom_tree.ipdom(bb);
            taint_region(f, cfg, *then_dst, end, tainted_blocks, tainted, stack);
            let ghost t1 = tainted@;
            let ghost s1 = stack@;
            taint_region(f, cfg, *else_dst, end, tainted_blocks, tainted, stack);
            proof {
                lemma_taint_step_trans(t0, s0, t1, s1, tainted@, stack@);
                assert(end == region_end(dom_tree, f.layout@.block_of(Inst(ii as u32)).unwrap()));
                assert forall|u: int|
                    0 <= u < tainted@.len() && #[trigger] tainted@[u] && !t0[u] implies taints_region(f, cfg, dom_tree, ii, u) by {
                    if !t1[u] {
                        let c = choose|c: int|
                            0 <= c < f.layout@.num_blocks() && in_region(cfg@, else_dst.0 as int, end, c)
                                && #[trigger] f.layout@.insts[c].contains(Inst(u as u32));
                    } else {
                        let c = choose|c: int|
                            0 <= c < f.layout@.num_blocks() && in_region(cfg@, then_dst.0 as int, end, c)
                                && #[trigger] f.layout@.insts[c].contains(Inst(u as u32));
                    }
                }
                assert forall|u: int| 0 <= u < tainted@.len() && #[trigger] taints_region(f, cfg, dom_tree, ii, u) implies tainted@[u] by {
                    let c = choose|c: int|
                        0 <= c < f.layout@.num_blocks() && (in_region(cfg@, then_dst.0 as int, end, c) || in_region(
                            cfg@,
                            else_dst.0 as int,
                            end,
                            c,
                        )) && #[trigger] f.layout@.insts[c].contains(Inst(u as u32));
                    assert(tainted_blocks@[c]);
                    let j = choose|j: int| 0 <= j < f.layout@.insts[c].len() && f.layout@.insts[c][j] == Inst(u as u32);
                    assert(tainted@[f.layout@.insts[c][j].0 as int]);
                }
            }
        },
        InstructionData::Jump { destination } => {
            taint_leading_phis(f, *destination, tainted, stack);
            proof {
                assert forall|b: int, j: int|
                    0 <= b < tainted_blocks@.len() && tainted_blocks@[b] && 0 <= j < f.layout@.insts[b].len() implies tainted@[(
                    #[trigger] f.layout@.insts[b][j]).0 as int] by {
                    assert(t0[f.layout@.insts[b][j].0 as int]);
                }
            }
        },
        _ => {
            taint_result_users(f, i, tainted, stack);
            proof {
                assert forall|b: int, j: int|
                    0 <= b < tainted_blocks@.len() && tainted_blocks@[b] && 0 <= j < f.layout@.insts[b].len() implies tainted@[(
                    #[trigger] f.layout@.insts[b][j]).0 as int] by {
                    assert(t0[f.layout@.insts[b][j].0 as int]);
                }
            }
        },
    }
}
/// Taint the instructions that depend on the `taint_source` values, and those inside the
/// conditional regions that tainted branches control: the users of the sources, and then
/// what a tainted instruction taints (see [`taints_region`]), until nothing more is
/// tainted. `tainted_insts` is first extended to one mark per instruction; instructions
/// marked already keep their mark and are not propagated from. The result is the least
/// marking that holds those marks and the users of the sources and is closed under tainting.
pub fn propagate_taint(
    func: &Function,
    cfg: &ControlFlowGraph,
    dom_tree: &DominatorTree,
    taint_source: &Vec<Value>,
    tainted_insts: &mut Vec<bool>,
)
    requires
        region_taint_ready(func, cfg, dom_tree, taint_source@),
        old(tainted_insts)@.len() <= func.dfg.insts@.len(),
    ensures
        final(tainted_insts)@.len() == func.dfg.insts@.len(),
        taint_seeded(func, taint_source@, extended(old(tainted_insts)@, func.dfg.insts@.len()), final(tainted_insts)@),
        region_taint_closed(func, cfg, dom_tree, extended(old(tainted_insts)@, func.dfg.insts@.len()), final(tainted_insts)@),
        forall|l: Seq<bool>|
            l.len() == func.dfg.insts@.len() && #[trigger] region_taint_closed(
                func,
                cfg,
                dom_tree,
                extended(old(tainted_insts)@, func.dfg.insts@.len()),
                l,
            ) && taint_seeded(func, taint_source@, extended(old(tainted_insts)@, func.dfg.insts@.len()), l) ==> forall|i: int|
                0 <= i < l.len() && #[trigger] final(tainted_insts)@[i] ==> l[i],
{
    let m = func.dfg.num_insts();
    let ghost ext = extended(old(tainted_insts)@, m as nat);
    while tainted_insts.len() < m
        invariant
            m == func.dfg.insts@.len(),
            tainted_insts@.len() <= m,
            old(tainted_insts)@.len() <= tainted_insts@.len(),
            ext == extended(old(tainted_insts)@, m as nat),
            forall|i: int| 0 <= i < tainted_insts@.len() ==> #[trigger] tainted_insts@[i] == ext[i],
        decreases m - tainted_insts@.len(),
    {
        tainted_insts.push(false);
    }
    let ghost before = tainted_insts@;
    proof {
        assert(before == ext);
    }
    let mut stack: Vec<Inst> = Vec::new();
    let ghost srcs = taint_source@;
    proof {
        lemma_taint_step_refl(before, stack@);
    }
    let mut s: usize = 0;
    while s < taint_source.len()
        invariant
            region_taint_ready(func, cfg, dom_tree, srcs),
            srcs == taint_source@,
            m == func.dfg.insts@.len(),
            before.len() == m,
            s <= taint_source.len(),
            taint_step(before, Seq::<Inst>::empty(), tainted_insts@, stack@),
            forall|s2: int, u: int|
                0 <= s2 < s && 0 <= u < m && #[trigger] uses_value(func, srcs[s2].0 as int, u) ==> tainted_insts@[u],
            forall|u: int| 0 <= u < m && #[trigger] tainted_insts@[u] && !before[u] ==> uses_source(func, srcs, u),
        decreases taint_source.len() - s,
    {
        let ghost t1 = tainted_insts@;
        let ghost s1 = stack@;
        taint_users(func, taint_source[s], tainted_insts, &mut stack);
        proof {
            lemma_taint_step_trans(before, Seq::<Inst>::empty(), t1, s1, tainted_insts@, stack@);
            assert forall|u: int| 0 <= u < m && #[trigger] tainted_insts@[u] && !before[u] implies uses_source(func, srcs, u) by {
                if !t1[u] {
                    assert(uses_value(func, srcs[s as int].0 as int, u));
                }
            }
        }
        s += 1;
    }
    proof {
        assert forall|u: int| 0 <= u < m && #[trigger] uses_source(func, srcs, u) implies tainted_insts@[u] by {
            let s2 = choose|s2: int| 0 <= s2 < srcs.len() && #[trigger] uses_value(func, srcs[s2].0 as int, u);
        }
        assert forall|l: Seq<bool>|
            l.len() == m && #[trigger] region_taint_closed(func, cfg, dom_tree, before, l) && taint_seeded(func, srcs, before, l)
                implies forall|i: int| 0 <= i < l.len() && #[trigger] tainted_insts@[i] ==> l[i] by {
            assert forall|i: int| 0 <= i < l.len() && #[trigger] tainted_insts@[i] implies l[i] by {
                if !before[i] {
                    assert(uses_source(func, srcs, i));
                }
            }
        }
    }
    let n = func.layout.num_blocks();
    let mut tainted_blocks: Vec<bool> = Vec::new();
    while tainted_blocks.len() < n
        invariant
            tainted_blocks@.len() <= n,
            forall|b: int| 0 <= b < tainted_blocks@.len() ==> !#[trigger] tainted_blocks@[b],
        decreases n - tainted_blocks@.len(),
    {
        tainted_blocks.push(false);
    }
    while stack.len() > 0
        invariant
            n == func.layout@.num_blocks(),
            tainted_blocks@.len() == n,
            blocks_covered(func, tainted_blocks@, tainted_insts@),
            region_taint_ready(func, cfg, dom_tree, srcs),
            m == func.dfg.insts@.len(),
            before.len() == m,
            tainted_insts@.len() == m,
            forall|i: int| 0 <= i < m && #[trigger] before[i] ==> tainted_insts@[i],
            forall|u: int| 0 <= u < m && #[trigger] uses_source(func, srcs, u) ==> tainted_insts@[u],
            forall|k: int|
                0 <= k < stack@.len() ==> (#[trigger] stack@[k]).0 < m && tainted_insts@[stack@[k].0 as int]
                    && !before[stack@[k].0 as int],
            forall|i: int|
                0 <= i < m && #[trigger] tainted_insts@[i] && !before[i] ==> stack@.contains(Inst(i as u32)) || (forall|u: int|
                    0 <= u < m && #[trigger] taints_region(func, cfg, dom_tree, i, u) ==> tainted_insts@[u]),
            forall|l: Seq<bool>|
                l.len() == m && #[trigger] region_taint_closed(func, cfg, dom_tree, before, l) && taint_seeded(func, srcs, before, l)
                    ==> forall|i: int| 0 <= i < l.len() && #[trigger] tainted_insts@[i] ==> l[i],
        decreases stack@.len() + count_false(tainted_insts@),
    {
        let ghost s0 = stack@;
        let i = stack.pop().unwrap();
        let ghost t1 = tainted_insts@;
        let ghost s1 = stack@;
        let ghost ii = i.0 as int;
        proof {
            assert(s0 == s1.push(i));
            assert(s1.push(i)[s1.len() as int] == i);
        }
        region_taint_from(func, cfg, dom_tree, Ghost(srcs), i, &mut tainted_blocks, tainted_insts, &mut stack);
        proof {
            assert forall|k: int| 0 <= k < stack@.len() implies (#[trigger] stack@[k]).0 < m && tainted_insts@[stack@[k].0 as int]
                && !before[stack@[k].0 as int] by {
                if k < s1.len() {
                    assert(stack@[k] == stack@.subrange(0, s1.len() as int)[k]);
                    assert(s1[k] == s1.push(i)[k]);
                }
            }
            assert forall|j: int|
                0 <= j < m && #[trigger] tainted_insts@[j] && !before[j] implies stack@.contains(Inst(j as u32)) || (forall|u: int|
                    0 <= u < m && #[trigger] taints_region(func, cfg, dom_tree, j, u) ==> tainted_insts@[u]) by {
                if j == ii {
                    assert(Inst(j as u32) == i);
                } else if !t1[j] {
                    assert(stack@.contains(Inst(j as u32)));
                } else if s0.contains(Inst(j as u32)) {
                    let k = choose|k: int| 0 <= k < s0.len() && s0[k] == Inst(j as u32);
                    assert(k < s1.len());
                    assert(s1[k] == s0[k]);
                    assert(stack@.subrange(0, s1.len() as int)[k] == stack@[k]);
                } else {
                    assert forall|u: int| 0 <= u < m && #[trigger] taints_region(func, cfg, dom_tree, j, u) implies tainted_insts@[u] by {
                        assert(t1[u]);
                    }
                }
            }
            assert forall|l: Seq<bool>|
                l.len() == m && #[trigger] region_taint_closed(func, cfg, dom_tree, before, l) && taint_seeded(func, srcs, before, l)
                    implies forall|j: int| 0 <= j < l.len() && #[trigger] tainted_insts@[j] ==> l[j] by {
                assert(l[ii]);
                assert forall|j: int| 0 <= j < l.len() && #[trigger] tainted_insts@[j] implies l[j] by {
                    if !t1[j] {
                        assert(taints_region(func, cfg, dom_tree, ii, j));
                    }
                }
            }
        }
    }
    proof {
        assert forall|i: int, u: int|
            0 <= i < m && tainted_insts@[i] && !before[i] && 0 <= u < m && #[trigger] taints_region(func, cfg, dom_tree, i, u) implies tainted_insts@[u] by {
            assert(!stack@.contains(Inst(i as u32)));
        }
    }
}


/// A tainted branch taints every phi that opens a block in the dominance frontier of either
/// of its destinations, and every marking closed under tainting holds those phis: phi `u`
/// is the `k`-th instruction of block `d`, the instructions before it there are phis too,
/// and `d` lies in the frontier of the `then` or of the `else` destination.
pub proof fn lemma_branch_taints_merging_phis(
    f: &Function,
    df: Seq<Vec<bool>>,
    before: Seq<bool>,
    l: Seq<bool>,
    i: int,
    d: int,
    k: int,
    u: int,
)
    requires
        0 <= i < f.dfg.insts@.len(),
        f.dfg.insts@[i] matches InstructionData::Branch { then_dst, else_dst, .. } && then_dst.0 < df.len() && else_dst.0
            < df.len() && 0 <= d < df[then_dst.0 as int]@.len() && 0 <= d < df[else_dst.0 as int]@.len() && (
        df[then_dst.0 as int]@[d] || df[else_dst.0 as int]@[d]),
        0 <= k < f.layout@.insts[d].len(),
        f.layout@.insts[d][k] == Inst(u as u32),
        forall|j: int| 0 <= j <= k ==> (#[trigger] f.dfg.insts@[f.layout@.insts[d][j].0 as int]) is PhiNode,
    ensures
        taints(f, df, i, u),
        taint_closed(f, df, before, l) && 0 <= i < l.len() && l[i] && !before[i] && 0 <= u < l.len() ==> l[u],
{
    assert(leading_phi(f, d, u));
    if let InstructionData::Branch { then_dst, else_dst, .. } = f.dfg.insts@[i] {
        if df[then_dst.0 as int]@[d] {
            assert(frontier_phi(f, df[then_dst.0 as int]@, u));
        } else {
            assert(frontier_phi(f, df[else_dst.0 as int]@, u));
        }
    }
    assert(taints(f, df, i, u));
    if taint_closed(f, df, before, l) && 0 <= i < l.len() && l[i] && !before[i] && 0 <= u < l.len() {
        assert(l[u]);
    }
}

/// A tainted branch taints only phis that open blocks of the dominance frontiers of its
/// destinations; an instruction that is neither a branch taints only the users of its
/// results.
pub proof fn lemma_taints_only(f: &Function, df: Seq<Vec<bool>>, i: int, u: int)
    requires
        0 <= i < f.dfg.insts@.len(),
        0 <= u < u32::MAX,
        taints(f, df, i, u),
    ensures
        f.dfg.insts@[i] matches InstructionData::Branch { then_dst, else_dst, .. } ==> exists|d: int, k: int|
            (0 <= d < df[then_dst.0 as int]@.len() && df[then_dst.0 as int]@[d] || 0 <= d < df[else_dst.0 as int]@.len()
                && df[else_dst.0 as int]@[d]) && 0 <= k
                < f.layout@.insts[d].len() && #[trigger] f.layout@.insts[d][k] == Inst(u as u32) && f.dfg.insts@[u] is PhiNode,
        !(f.dfg.insts@[i] is Branch) ==> exists|v: int, j: int|
            0 <= v < f.dfg.values@.types.len() && def_inst(f, Value(v as u32)) == Some(Inst(i as u32)) && 0 <= j
                < f.dfg.values@.lists[v].len() && (#[trigger] f.dfg.values@.users[f.dfg.values@.lists[v][j].0 as int]).0 == Inst(
                u as u32,
            ),
{
    if let InstructionData::Branch { then_dst, else_dst, .. } = f.dfg.insts@[i] {
        let row = if frontier_phi(f, df[then_dst.0 as int]@, u) {
            df[then_dst.0 as int]@
        } else {
            df[else_dst.0 as int]@
        };
        let d = choose|d: int| 0 <= d < row.len() && row[d] && #[trigger] leading_phi(f, d, u);
        let k = choose|k: int|
            0 <= k < f.layout@.insts[d].len() && (#[trigger] f.layout@.insts[d][k]) == Inst(u as u32) && forall|j: int|
                0 <= j <= k ==> (#[trigger] f.dfg.insts@[f.layout@.insts[d][j].0 as int]) is PhiNode;
        assert(f.dfg.insts@[f.layout@.insts[d][k].0 as int] is PhiNode);
        assert(Inst(u as u32).0 == u);
    } else {
        let v = choose|v: int|
            0 <= v < f.dfg.values@.types.len() && def_inst(f, Value(v as u32)) == Some(Inst(i as u32)) && #[trigger] uses_value(
                f,
                v,
                u,
            );
        assert(uses_value(f, v, u));
    }
}

/// Counting whole regions, a tainted branch taints every instruction of every block that
/// its `then` or its `else` destination reaches before the immediate post-dominator of the
/// branch's block, and a tainted jump taints every phi that opens its destination; every
/// marking closed under region tainting holds them.
pub proof fn lemma_region_taints(
    f: &Function,
    cfg: &ControlFlowGraph,
    dom_tree: &DominatorTree,
    before: Seq<bool>,
    l: Seq<bool>,
    i: int,
    c: int,
    k: int,
    u: int,
)
    requires
        0 <= i < f.dfg.insts@.len(),
        0 <= c < f.layout@.num_blocks(),
        0 <= k < f.layout@.insts[c].len(),
        f.layout@.insts[c][k] == Inst(u as u32),
        f.dfg.insts@[i] is Branch || f.dfg.insts@[i] is Jump,
        f.dfg.insts@[i] matches InstructionData::Branch { then_dst, else_dst, .. } ==> {
            let end = region_end(dom_tree, f.layout@.block_of(Inst(i as u32)).unwrap());
            in_region(cfg@, then_dst.0 as int, end, c) || in_region(cfg@, else_dst.0 as int, end, c)
        },
        f.dfg.insts@[i] matches InstructionData::Jump { destination } ==> destination.0 == c && forall|j: int|
            0 <= j <= k ==> (#[trigger] f.dfg.insts@[f.layout@.insts[c][j].0 as int]) is PhiNode,
    ensures
        taints_region(f, cfg, dom_tree, i, u),
        region_taint_closed(f, cfg, dom_tree, before, l) && 0 <= i < l.len() && l[i] && !before[i] && 0 <= u < l.len() ==> l[u],
{
    assert(f.layout@.insts[c].contains(Inst(u as u32)));
    if f.dfg.insts@[i] is Jump {
        assert(leading_phi(f, c, u));
    }
    assert(taints_region(f, cfg, dom_tree, i, u));
    if region_taint_closed(f, cfg, dom_tree, before, l) && 0 <= i < l.len() && l[i] && !before[i] && 0 <= u < l.len() {
        assert(l[u]);
    }
}

/// A tainted instruction that is not a branch taints every user of every one of its
/// results, and every marking closed under tainting holds those users.
pub proof fn lemma_result_users_tainted(
    f: &Function,
    df: Seq<Vec<bool>>,
    before: Seq<bool>,
    l: Seq<bool>,
    i: int,
    v: int,
    j: int,
    u: int,
)
    requires
        0 <= i < f.dfg.insts@.len(),
        !(f.dfg.insts@[i] is Branch),
        0 <= v < f.dfg.values@.types.len(),
        def_inst(f, Value(v as u32)) == Some(Inst(i as u32)),
        0 <= j < f.dfg.values@.lists[v].len(),
        f.dfg.values@.users[f.dfg.values@.lists[v][j].0 as int].0 == Inst(u as u32),
    ensures
        taints(f, df, i, u),
        taint_closed(f, df, before, l) && 0 <= i < l.len() && l[i] && !before[i] && 0 <= u < l.len() ==> l[u],
{
    assert(uses_value(f, v, u));
    assert(uses_result_of(f, i, u));
    assert(taints(f, df, i, u));
    if taint_closed(f, df, before, l) && 0 <= i < l.len() && l[i] && !before[i] && 0 <= u < l.len() {
        assert(l[u]);
    }
}

/// Every user of a source value is tainted by the seeding, and so is every instruction
/// marked before.
pub proof fn lemma_sources_seed(f: &Function, sources: Seq<Value>, before: Seq<bool>, l: Seq<bool>, s: int, j: int, u: int)
    requires
        taint_seeded(f, sources, before, l),
        0 <= s < sources.len(),
        0 <= j < f.dfg.values@.lists[sources[s].0 as int].len(),
        f.dfg.values@.users[f.dfg.values@.lists[sources[s].0 as int][j].0 as int].0 == Inst(u as u32),
        0 <= u < l.len(),
    ensures
        l[u],
{
    assert(uses_value(f, sources[s].0 as int, u));
    assert(uses_source(f, sources, u));
}
} // verus!
