//! Interning of the (higher order) derivatives that automatic differentiation builds.
//!
//! A derivative is a chain of unknowns: `d/dx` of a value is a first-order derivative
//! with base `x`; differentiating that by `y` gives a second-order derivative with base
//! `y` whose previous order is the first one. Each distinct chain is interned once.
use vstd::prelude::*;

use crate::entities::{Inst, Unknown, Value};
use crate::function::DataFlowGraph;
use crate::instructions::Opcode;

verus! {

/// An opaque reference to an interned derivative.
#[derive(Clone, Copy, PartialEq, Eq, Structural, Hash, Debug)]
pub struct Derivative(pub u32);

impl Derivative {
    /// The unknown of a first-order derivative: these are numbered like the unknowns.
    pub fn assert_first_order(self) -> (r: Unknown)
        ensures
            r == Unknown(self.0),
    {
        Unknown(self.0)
    }
}

/// One link of a derivative chain.
#[derive(Debug, Clone, Copy, PartialEq, Eq, Structural, Hash)]
pub struct DerivativeInfo {
    pub prev_order: Option<Derivative>,
    pub base: Unknown,
}

/// The unknowns of derivative `id`, from its own base down to the first order.
pub open spec fn chain(ds: Seq<DerivativeInfo>, id: int) -> Seq<Unknown>
    decreases id,
{
    if 0 <= id < ds.len() {
        match ds[id].prev_order {
            Some(p) => if 0 <= p.0 < id {
                seq![ds[id].base].add(chain(ds, p.0 as int))
            } else {
                seq![ds[id].base]
            },
            None => seq![ds[id].base],
        }
    } else {
        Seq::empty()
    }
}

/// The first-order derivative of unknown `u`.
pub open spec fn first_order(u: Unknown) -> DerivativeInfo {
    DerivativeInfo { prev_order: None, base: u }
}

/// The interned unknowns (by their values) and derivatives.
pub struct DerivativeIntern {
    pub unknowns: Vec<Value>,
    pub derivatives: Vec<DerivativeInfo>,
}

impl DerivativeIntern {
    /// Both tables are sets that `u32` indices reach, each link points to an unknown and to
    /// an earlier derivative, and every unknown has its first-order derivative.
    pub open spec fn wf(&self) -> bool {
        let ds = self.derivatives@;
        &&& self.unknowns@.len() < u32::MAX
        &&& ds.len() < u32::MAX
        &&& self.unknowns@.no_duplicates()
        &&& ds.no_duplicates()
        &&& forall|i: int| 0 <= i < ds.len() ==> (#[trigger] ds[i]).base.0 < self.unknowns@.len()
        &&& forall|i: int| 0 <= i < ds.len() ==> ((#[trigger] ds[i]).prev_order matches Some(p) ==> p.0 < i)
        &&& forall|u: int| 0 <= u < self.unknowns@.len() ==> ds.contains(#[trigger] first_order(Unknown(u as u32)))
    }

    /// A link that may be interned: its base is an unknown, its previous order a derivative.
    pub open spec fn valid_info(&self, info: DerivativeInfo) -> bool {
        &&& info.base.0 < self.unknowns@.len()
        &&& (info.prev_order matches Some(p) ==> p.0 < self.derivatives@.len())
    }

    /// Start from the given unknowns, each with its first-order derivative.
    pub fn new(unknowns: Vec<Value>) -> (r: Self)
        requires
            unknowns@.no_duplicates(),
            unknowns@.len() < u32::MAX,
        ensures
            r.wf(),
            r.unknowns@ == unknowns@,
            r.derivatives@ == Seq::new(unknowns@.len(), |i: int| first_order(Unknown(i as u32))),
    {
        let mut derivatives: Vec<DerivativeInfo> = Vec::new();
        let n = unknowns.len();
        let mut i: usize = 0;
        while i < n
            invariant
                n == unknowns@.len(),
                n < u32::MAX,
                i <= n,
                derivatives@ == Seq::new(i as nat, |k: int| first_order(Unknown(k as u32))),
            decreases n - i,
        {
            derivatives.push(DerivativeInfo { prev_order: None, base: Unknown(i as u32) });
            i += 1;
            proof {
                assert(derivatives@ =~= Seq::new(i as nat, |k: int| first_order(Unknown(k as u32))));
            }
        }
        let r = DerivativeIntern { unknowns, derivatives };
        proof {
            let ds = r.derivatives@;
            assert forall|a: int, b: int| 0 <= a < ds.len() && 0 <= b < ds.len() && a != b implies ds[a] != ds[b] by {
                assert(ds[a].base == Unknown(a as u32));
                assert(ds[b].base == Unknown(b as u32));
            }
            assert forall|u: int| 0 <= u < r.unknowns@.len() implies ds.contains(#[trigger] first_order(Unknown(u as u32))) by {
                assert(ds[u] == first_order(Unknown(u as u32)));
            }
        }
        r
    }

    pub fn num_derivatives(&self) -> (r: usize)
        ensures
            r == self.derivatives@.len(),
    {
        self.derivatives.len()
    }

    pub fn num_unknowns(&self) -> (r: usize)
        ensures
            r == self.unknowns@.len(),
    {
        self.unknowns.len()
    }

    /// The derivative that `id` differentiates once more, if it is not first order.
    pub fn previous_order(&self, id: Derivative) -> (r: Option<Derivative>)
        requires
            id.0 < self.derivatives@.len(),
        ensures
            r == self.derivatives@[id.0 as int].prev_order,
    {
        self.derivatives[id.0 as usize].prev_order
    }

    /// The unknown that `id` differentiates by last.
    pub fn get_unknown(&self, id: Derivative) -> (r: Unknown)
        requires
            id.0 < self.derivatives@.len(),
        ensures
            r == self.derivatives@[id.0 as int].base,
    {
        self.derivatives[id.0 as usize].base
    }

    /// The first-order derivative of unknown `base`.
    pub fn to_derivative(&self, base: Unknown) -> (r: Derivative)
        requires
            self.wf(),
            base.0 < self.unknowns@.len(),
        ensures
            r.0 < self.derivatives@.len(),
            self.derivatives@[r.0 as int] == first_order(base),
    {
        proof {
            assert(base == Unknown(base.0 as int as u32));
            assert(self.derivatives@.contains(first_order(Unknown(base.0 as int as u32))));
        }
        let mut i: usize = 0;
        while i < self.derivatives.len()
            invariant
                self.wf(),
                base.0 < self.unknowns@.len(),
                self.derivatives@.contains(first_order(base)),
                i <= self.derivatives@.len(),
                forall|k: int| 0 <= k < i ==> self.derivatives@[k] != first_order(base),
            decreases self.derivatives@.len() - i,
        {
            let d = self.derivatives[i];
            if d.prev_order.is_none() && d.base == base {
                return Derivative(i as u32);
            }
            i += 1;
        }
        proof {
            let k = self.derivatives@.index_of(first_order(base));
            assert(self.derivatives@[k] == first_order(base));
        }
        Derivative(0)
    }

    /// The first-order derivative by the last unknown of `id`.
    pub fn get_base_derivative(&self, id: Derivative) -> (r: Derivative)
        requires
            self.wf(),
            id.0 < self.derivatives@.len(),
        ensures
            r.0 < self.derivatives@.len(),
            self.derivatives@[r.0 as int] == first_order(self.derivatives@[id.0 as int].base),
    {
        self.to_derivative(self.derivatives[id.0 as usize].base)
    }

    /// The unknowns of `id`, from its own base down to the first order.
    pub fn unknowns(&self, id: Derivative) -> (r: Vec<Unknown>)
        requires
            self.wf(),
            id.0 < self.derivatives@.len(),
        ensures
            r@ == chain(self.derivatives@, id.0 as int),
    {
        let ghost ds = self.derivatives@;
        let mut r: Vec<Unknown> = Vec::new();
        let mut cur: Option<Derivative> = Some(id);
        while cur.is_some()
            invariant
                self.wf(),
                ds == self.derivatives@,
                cur matches Some(c) ==> c.0 < ds.len(),
                chain(ds, id.0 as int) == r@ + (match cur {
                    Some(c) => chain(ds, c.0 as int),
                    None => Seq::<Unknown>::empty(),
                }),
            decreases (match cur {
                Some(c) => c.0 as int + 1,
                None => 0int,
            }),
        {
            let c = cur.unwrap();
            let info = self.derivatives[c.0 as usize];
            let ghost before = r@;
            r.push(info.base);
            cur = info.prev_order;
            proof {
                let ci = c.0 as int;
                assert(ds[ci] == info);
                match info.prev_order {
                    Some(p) => {
                        assert(p.0 < ci);
                        assert(chain(ds, ci) == seq![info.base].add(chain(ds, p.0 as int)));
                        assert(r@ + chain(ds, p.0 as int) =~= before + chain(ds, ci));
                    },
                    None => {
                        assert(chain(ds, ci) == seq![info.base]);
                        assert(r@ + Seq::<Unknown>::empty() =~= before + chain(ds, ci));
                    },
                }
            }
        }
        proof {
            assert(r@ + Seq::<Unknown>::empty() =~= r@);
        }
        r
    }

    /// The unknowns of `id`, from the first order up to its own base.
    pub fn unknowns_rev(&self, id: Derivative) -> (r: Vec<Unknown>)
        requires
            self.wf(),
            id.0 < self.derivatives@.len(),
        ensures
            r@ == chain(self.derivatives@, id.0 as int).reverse(),
    {
        let fwd = self.unknowns(id);
        let mut r: Vec<Unknown> = Vec::new();
        let mut i: usize = fwd.len();
        while i > 0
            invariant
                i <= fwd@.len(),
                r@ == fwd@.subrange(i as int, fwd@.len() as int).reverse(),
            decreases i,
        {
            i -= 1;
            r.push(fwd[i]);
            proof {
                assert(r@ =~= fwd@.subrange(i as int, fwd@.len() as int).reverse());
            }
        }
        proof {
            assert(fwd@.subrange(0, fwd@.len() as int) =~= fwd@);
        }
        r
    }

    /// Find `info` among the derivatives, or append it. The flag tells whether it was new.
    pub fn intern(&mut self, info: DerivativeInfo) -> (r: (Derivative, bool))
        requires
            old(self).wf(),
            old(self).valid_info(info),
            old(self).derivatives@.contains(info) || old(self).derivatives@.len() + 1 < u32::MAX,
        ensures
            final(self).wf(),
            final(self).unknowns@ == old(self).unknowns@,
            r.1 == !old(self).derivatives@.contains(info),
            final(self).derivatives@ == (if r.1 {
                old(self).derivatives@.push(info)
            } else {
                old(self).derivatives@
            }),
            r.0.0 < final(self).derivatives@.len(),
            final(self).derivatives@[r.0.0 as int] == info,
    {
        let mut i: usize = 0;
        while i < self.derivatives.len()
            invariant
                self.wf(),
                i <= self.derivatives@.len(),
                forall|k: int| 0 <= k < i ==> self.derivatives@[k] != info,
            decreases self.derivatives@.len() - i,
        {
            if self.derivatives[i] == info {
                return (Derivative(i as u32), false);
            }
            i += 1;
        }
        let n = self.derivatives.len();
        let ghost old_ds = self.derivatives@;
        proof {
            if old_ds.contains(info) {
                let k = choose|k: int| 0 <= k < old_ds.len() && old_ds[k] == info;
                assert(self.derivatives@[k] != info);
            }
        }
        self.derivatives.push(info);
        proof {
            let ds = self.derivatives@;
            assert(!old_ds.contains(info));
            assert forall|a: int, b: int| 0 <= a < ds.len() && 0 <= b < ds.len() && a != b implies ds[a] != ds[b] by {
                if a < n && b < n {
                    assert(old_ds[a] != old_ds[b]);
                } else if a == n {
                    assert(old_ds[b] != info) by {
                        if old_ds[b] == info {
                            assert(old_ds.contains(info));
                        }
                    }
                } else {
                    assert(old_ds[a] != info) by {
                        if old_ds[a] == info {
                            assert(old_ds.contains(info));
                        }
                    }
                }
            }
            assert forall|i: int| 0 <= i < ds.len() implies ((#[trigger] ds[i]).prev_order matches Some(p) ==> p.0 < i) by {
                if i < n {
                    assert(ds[i] == old_ds[i]);
                }
            }
            assert forall|i: int| 0 <= i < ds.len() implies (#[trigger] ds[i]).base.0 < self.unknowns@.len() by {
                if i < n {
                    assert(ds[i] == old_ds[i]);
                }
            }
            assert forall|u: int| 0 <= u < self.unknowns@.len() implies ds.contains(#[trigger] first_order(Unknown(u as u32))) by {
                assert(old_ds.contains(first_order(Unknown(u as u32))));
                let k = old_ds.index_of(first_order(Unknown(u as u32)));
                assert(ds[k] == old_ds[k]);
            }
        }
        (Derivative(n as u32), true)
    }
}

/// Appending a derivative leaves the chains of the others as they were.
proof fn lemma_chain_push(ds: Seq<DerivativeInfo>, e: DerivativeInfo, id: int)
    requires
        0 <= id < ds.len(),
    ensures
        chain(ds.push(e), id) == chain(ds, id),
    decreases id,
{
    let ds2 = ds.push(e);
    assert(ds2[id] == ds[id]);
    if let Some(p) = ds[id].prev_order {
        if 0 <= p.0 < id {
            lemma_chain_push(ds, e, p.0 as int);
        }
    }
}

impl DerivativeIntern {
    /// The unknown with value `val`, added (with its first-order derivative) if it is new.
    pub fn ensure_unknown(&mut self, val: Value) -> (r: Unknown)
        requires
            old(self).wf(),
            old(self).unknowns@.len() + 1 < u32::MAX,
            old(self).derivatives@.len() + 1 < u32::MAX,
        ensures
            final(self).wf(),
            r.0 < final(self).unknowns@.len(),
            final(self).unknowns@[r.0 as int] == val,
            old(self).unknowns@.contains(val) ==> final(self).unknowns@ == old(self).unknowns@
                && final(self).derivatives@ == old(self).derivatives@,
            !old(self).unknowns@.contains(val) ==> final(self).unknowns@ == old(self).unknowns@.push(val)
                && final(self).derivatives@ == old(self).derivatives@.push(first_order(r)),
    {
        let mut i: usize = 0;
        while i < self.unknowns.len()
            invariant
                self.wf(),
                i <= self.unknowns@.len(),
                forall|k: int| 0 <= k < i ==> self.unknowns@[k] != val,
            decreases self.unknowns@.len() - i,
        {
            if self.unknowns[i] == val {
                return Unknown(i as u32);
            }
            i += 1;
        }
        let n = self.unknowns.len();
        let u = Unknown(n as u32);
        let ghost old_us = self.unknowns@;
        let ghost old_ds = self.derivatives@;
        self.unknowns.push(val);
        let info = DerivativeInfo { prev_order: None, base: u };
        self.derivatives.push(info);
        proof {
            assert(!old_us.contains(val));
            let us = self.unknowns@;
            let ds = self.derivatives@;
            let m = old_ds.len() as int;
            assert forall|a: int, b: int| 0 <= a < us.len() && 0 <= b < us.len() && a != b implies us[a] != us[b] by {
                if a < n && b < n {
                    assert(old_us[a] != old_us[b]);
                } else if a == n {
                    assert(us[b] == old_us[b]);
                    assert(old_us[b] != val) by {
                        if old_us[b] == val {
                            assert(old_us.contains(val));
                        }
                    }
                } else {
                    assert(us[a] == old_us[a]);
                    assert(old_us[a] != val) by {
                        if old_us[a] == val {
                            assert(old_us.contains(val));
                        }
                    }
                }
            }
            assert forall|k: int| 0 <= k < m implies old_ds[k] != info by {
                assert(old_ds[k].base.0 < n);
            }
            assert forall|a: int, b: int| 0 <= a < ds.len() && 0 <= b < ds.len() && a != b implies ds[a] != ds[b] by {
                if a < m && b < m {
                    assert(old_ds[a] != old_ds[b]);
                } else if a == m {
                    assert(ds[b] == old_ds[b]);
                } else {
                    assert(ds[a] == old_ds[a]);
                }
            }
            assert forall|k: int| 0 <= k < ds.len() implies ((#[trigger] ds[k]).prev_order matches Some(p) ==> p.0 < k) by {
                if k < m {
                    assert(ds[k] == old_ds[k]);
                }
            }
            assert forall|k: int| 0 <= k < ds.len() implies (#[trigger] ds[k]).base.0 < us.len() by {
                if k < m {
                    assert(ds[k] == old_ds[k]);
                }
            }
            assert forall|w: int| 0 <= w < us.len() implies ds.contains(#[trigger] first_order(Unknown(w as u32))) by {
                if w < n {
                    assert(old_ds.contains(first_order(Unknown(w as u32))));
                    let k = old_ds.index_of(first_order(Unknown(w as u32)));
                    assert(ds[k] == old_ds[k]);
                } else {
                    assert(Unknown(w as u32) == u);
                    assert(ds[m] == info);
                }
            }
            assert(info == first_order(u));
        }
        u
    }

    /// The derivative of `id` by `next_unknown`: the chain of `id` followed by
    /// `next_unknown` as the new first order. Each link is interned on the way.
    pub fn raise_order(&mut self, id: Derivative, next_unknown: Unknown) -> (r: Derivative)
        requires
            old(self).wf(),
            id.0 < old(self).derivatives@.len(),
            next_unknown.0 < old(self).unknowns@.len(),
            (exists|k: int|
                0 <= k < old(self).derivatives@.len() && #[trigger] chain(old(self).derivatives@, k) == chain(
                    old(self).derivatives@,
                    id.0 as int,
                ).push(next_unknown)) || old(self).derivatives@.len() + chain(old(self).derivatives@, id.0 as int).len() + 1
                < u32::MAX,
        ensures
            final(self).wf(),
            final(self).unknowns@ == old(self).unknowns@,
            old(self).derivatives@.is_prefix_of(final(self).derivatives@),
            r.0 < final(self).derivatives@.len(),
            chain(final(self).derivatives@, r.0 as int) == chain(old(self).derivatives@, id.0 as int).push(next_unknown),
            (exists|k: int|
                0 <= k < old(self).derivatives@.len() && #[trigger] chain(old(self).derivatives@, k) == chain(
                    old(self).derivatives@,
                    id.0 as int,
                ).push(next_unknown)) ==> final(self).derivatives@ == old(self).derivatives@ && r.0 < old(
                self,
            ).derivatives@.len(),
            final(self).derivatives@.len() <= old(self).derivatives@.len() + chain(old(self).derivatives@, id.0 as int).len(),
            forall|k: int| 0 <= k < old(self).derivatives@.len() ==> #[trigger] chain(final(self).derivatives@, k) == chain(old(self).derivatives@, k),
            forall|k: int|
                0 <= k < old(self).derivatives@.len() && #[trigger] chain(old(self).derivatives@, k) == chain(
                    old(self).derivatives@,
                    id.0 as int,
                ).push(next_unknown) ==> r.0 == k,
    {
        let res = self.raise_order_with(id, next_unknown, |d: Derivative| -> (b: bool)
            ensures
                b,
            { true });
        proof {
            let target = chain(old(self).derivatives@, id.0 as int).push(next_unknown);
            if exists|k: int| 0 <= k < old(self).derivatives@.len() && #[trigger] chain(old(self).derivatives@, k) == target {
                let k = choose|k: int| 0 <= k < old(self).derivatives@.len() && #[trigger] chain(old(self).derivatives@, k) == target;
                let r = res.unwrap().0;
                lemma_chain_injective(self.derivatives@, k, r.0 as int);
            }
            assert forall|k: int|
                0 <= k < old(self).derivatives@.len() && #[trigger] chain(old(self).derivatives@, k) == target implies res.unwrap().0.0 == k by {
                lemma_chain_injective(self.derivatives@, k, res.unwrap().0.0 as int);
            }
        }
        res.unwrap().0
    }

    /// Like `raise_order`, but before each link is interned `f` is asked about the
    /// first-order derivative of its base; if it says no, the result is `None` (the links
    /// interned until then stay). The flag tells whether the last link was new.
    pub fn raise_order_with<F: Fn(Derivative) -> bool>(
        &mut self,
        id: Derivative,
        next_unknown: Unknown,
        f: F,
    ) -> (r: Option<(Derivative, bool)>)
        requires
            old(self).wf(),
            id.0 < old(self).derivatives@.len(),
            next_unknown.0 < old(self).unknowns@.len(),
            (exists|k: int|
                0 <= k < old(self).derivatives@.len() && #[trigger] chain(old(self).derivatives@, k) == chain(
                    old(self).derivatives@,
                    id.0 as int,
                ).push(next_unknown)) || old(self).derivatives@.len() + chain(old(self).derivatives@, id.0 as int).len() + 1
                < u32::MAX,
            forall|d: Derivative| f.requires((d,)),
        ensures
            final(self).wf(),
            final(self).unknowns@ == old(self).unknowns@,
            old(self).derivatives@.is_prefix_of(final(self).derivatives@),
            (exists|k: int|
                0 <= k < old(self).derivatives@.len() && #[trigger] chain(old(self).derivatives@, k) == chain(
                    old(self).derivatives@,
                    id.0 as int,
                ).push(next_unknown)) ==> final(self).derivatives@ == old(self).derivatives@,
            (forall|d: Derivative, b: bool| f.ensures((d,), b) ==> b) ==> r is Some,
            r is Some ==> forall|k: int, d: Derivative|
                #[trigger] base_derivative(old(self).derivatives@, id.0 as int, k, d) ==> f.ensures((d,), true),
            r is None ==> exists|k: int, d: Derivative|
                #[trigger] base_derivative(old(self).derivatives@, id.0 as int, k, d) && f.ensures((d,), false),
            final(self).derivatives@.len() <= old(self).derivatives@.len() + chain(old(self).derivatives@, id.0 as int).len(),
            forall|k: int| 0 <= k < old(self).derivatives@.len() ==> #[trigger] chain(final(self).derivatives@, k) == chain(old(self).derivatives@, k),
            r matches Some((d, changed)) ==> {
                &&& d.0 < final(self).derivatives@.len()
                &&& chain(final(self).derivatives@, d.0 as int) == chain(old(self).derivatives@, id.0 as int).push(next_unknown)
                &&& changed == (d.0 >= old(self).derivatives@.len())
            },
    {
        let ghost old_ds = self.derivatives@;
        let ghost old_len = old_ds.len();
        let prev_orders = self.unknowns(id);
        let ghost pv = prev_orders@;
        let mut curr = self.to_derivative(next_unknown);
        let mut changed = false;
        let mut i: usize = prev_orders.len();
        proof {
            assert(chain(old_ds, curr.0 as int) == seq![next_unknown]);
            assert(pv.subrange(i as int, pv.len() as int).push(next_unknown) =~= seq![next_unknown]);
            assert forall|k: int| 0 <= k < pv.len() implies (#[trigger] pv[k]).0 < self.unknowns@.len() by {
                lemma_chain_bases(old_ds, id.0 as int, self.unknowns@.len() as int);
            }
        }
        while i > 0
            invariant
                self.wf(),
                self.unknowns@ == old(self).unknowns@,
                old_ds == old(self).derivatives@,
                old_len == old_ds.len(),
                pv == prev_orders@,
                pv == chain(old_ds, id.0 as int),
                forall|k: int| 0 <= k < pv.len() ==> (#[trigger] pv[k]).0 < self.unknowns@.len(),
                (exists|k: int| 0 <= k < old_len && #[trigger] chain(old_ds, k) == pv.push(next_unknown))
                    || old_len + pv.len() + 1 < u32::MAX,
                i <= pv.len(),
                old_ds.is_prefix_of(self.derivatives@),
                self.derivatives@.len() <= old_len + (pv.len() - i),
                curr.0 < self.derivatives@.len(),
                chain(self.derivatives@, curr.0 as int) == pv.subrange(i as int, pv.len() as int).push(next_unknown),
                forall|k: int| old_len <= k < self.derivatives@.len() ==> #[trigger] chain(self.derivatives@, k).len() <= pv.len() - i + 1,
                changed == (curr.0 >= old_len),
                forall|d: Derivative| f.requires((d,)),
                (exists|k: int| 0 <= k < old_len && #[trigger] chain(old_ds, k) == pv.push(next_unknown))
                    ==> self.derivatives@ == old_ds,
                forall|k: int, d: Derivative|
                    i <= k && #[trigger] base_derivative(old_ds, id.0 as int, k, d) ==> f.ensures((d,), true),
                forall|k: int| 0 <= k < old_len ==> #[trigger] chain(self.derivatives@, k) == chain(old_ds, k),
                forall|u: int| 0 <= u < self.unknowns@.len() ==> old_ds.contains(#[trigger] first_order(Unknown(u as u32))),
            decreases i,
        {
            i -= 1;
            let base = prev_orders[i];
            let bd = self.to_derivative(base);
            proof {
                assert(base == pv[i as int]);
                assert(old_ds.contains(first_order(Unknown(base.0 as int as u32))));
                assert(Unknown(base.0 as int as u32) == base);
                let j = old_ds.index_of(first_order(base));
                assert(self.derivatives@[j] == old_ds[j]);
                assert(bd.0 == j);
                assert forall|d: Derivative| #[trigger] base_derivative(old_ds, id.0 as int, i as int, d) implies d == bd by {
                    assert(old_ds[d.0 as int] == old_ds[j]);
                    assert(d.0 == j);
                }
                assert(base_derivative(old_ds, id.0 as int, i as int, bd));
            }
            let ok = f(bd);
            if !ok {
                return None;
            }
            let info = DerivativeInfo { prev_order: Some(curr), base };
            let ghost before = self.derivatives@;
            let ghost prev_curr = curr;
            proof {
                if exists|k: int| 0 <= k < old_len && #[trigger] chain(old_ds, k) == pv.push(next_unknown) {
                    let k = choose|k: int| 0 <= k < old_len && #[trigger] chain(old_ds, k) == pv.push(next_unknown);
                    lemma_chain_drop(old_ds, k, i as int);
                    let dd = choose|d: int| 0 <= d < old_ds.len() && #[trigger] chain(old_ds, d) == chain(old_ds, k).subrange(i as int, chain(old_ds, k).len() as int);
                    assert(chain(old_ds, k).subrange(i as int, chain(old_ds, k).len() as int) =~= pv.subrange(i as int, pv.len() as int).push(next_unknown));
                    let cd = chain(old_ds, dd);
                    assert(cd.len() >= 2);
                    match old_ds[dd].prev_order {
                        Some(p) => {
                            assert(chain(old_ds, p.0 as int) =~= cd.subrange(1, cd.len() as int));
                            assert(cd.subrange(1, cd.len() as int) =~= pv.subrange(i + 1, pv.len() as int).push(next_unknown));
                            lemma_chain_injective(old_ds, p.0 as int, prev_curr.0 as int);
                            lemma_chain_nonempty(old_ds, dd);
                            assert(cd[0] == pv[i as int]);
                            assert(old_ds[dd].base == base);
                            assert(old_ds[dd] == info);
                            assert(old_ds.contains(info));
                        },
                        None => {},
                    }
                }
            }
            let (c, ch) = self.intern(info);
            proof {
                let ds = self.derivatives@;
                let tail = pv.subrange(i + 1, pv.len() as int).push(next_unknown);
                if ch {
                    assert(ds == before.push(info));
                    lemma_chain_push(before, info, prev_curr.0 as int);
                    assert forall|k: int| old_len <= k < before.len() implies #[trigger] chain(ds, k).len() <= pv.len() - i + 1 by {
                        lemma_chain_push(before, info, k);
                    }
                    assert forall|k: int| 0 <= k < old_len implies ds[k] == old_ds[k] by {
                        assert(before[k] == old_ds[k]);
                    }
                    assert forall|k: int| 0 <= k < old_len implies #[trigger] chain(ds, k) == chain(old_ds, k) by {
                        lemma_chain_push(before, info, k);
                    }
                } else {
                    assert(ds == before);
                }
                assert(ds[c.0 as int] == info);
                assert(prev_curr.0 < c.0);
                assert(chain(ds, c.0 as int) == seq![base].add(chain(ds, prev_curr.0 as int)));
                assert(pv.subrange(i as int, pv.len() as int).push(next_unknown) =~= seq![base].add(tail));
                if !ch && c.0 >= old_len {
                    assert(chain(ds, c.0 as int).len() == pv.len() - i + 1);
                    assert(chain(ds, c.0 as int).len() <= pv.len() - (i + 1) + 1);
                }
            }
            curr = c;
            changed = ch;
        }
        proof {
            assert(pv.subrange(0, pv.len() as int) =~= pv);
        }
        Some((curr, changed))
    }
}

/// `d` is the first-order derivative, in `ds`, of the unknown at position `k` of the chain of
/// `id`.
pub open spec fn base_derivative(ds: Seq<DerivativeInfo>, id: int, k: int, d: Derivative) -> bool {
    &&& 0 <= k < chain(ds, id).len()
    &&& d.0 < ds.len()
    &&& ds[d.0 as int] == first_order(chain(ds, id)[k])
}

/// Different derivatives have different chains.
proof fn lemma_chain_injective(ds: Seq<DerivativeInfo>, a: int, b: int)
    requires
        ds.no_duplicates(),
        forall|i: int| 0 <= i < ds.len() ==> ((#[trigger] ds[i]).prev_order matches Some(p) ==> p.0 < i),
        0 <= a < ds.len(),
        0 <= b < ds.len(),
        chain(ds, a) == chain(ds, b),
    ensures
        a == b,
    decreases a + b,
{
    let ca = chain(ds, a);
    let cb = chain(ds, b);
    assert(ca[0] == ds[a].base);
    assert(cb[0] == ds[b].base);
    match (ds[a].prev_order, ds[b].prev_order) {
        (Some(p), Some(q)) => {
            assert(chain(ds, p.0 as int) =~= ca.subrange(1, ca.len() as int));
            assert(chain(ds, q.0 as int) =~= cb.subrange(1, cb.len() as int));
            lemma_chain_injective(ds, p.0 as int, q.0 as int);
            assert(ds[a] == ds[b]);
        },
        (Some(p), None) => {
            lemma_chain_nonempty(ds, p.0 as int);
            assert(ca.len() >= 2);
        },
        (None, Some(q)) => {
            lemma_chain_nonempty(ds, q.0 as int);
            assert(cb.len() >= 2);
        },
        (None, None) => {
            assert(ds[a] == ds[b]);
        },
    }
}

/// The chain of a derivative of the table is not empty.
proof fn lemma_chain_nonempty(ds: Seq<DerivativeInfo>, a: int)
    requires
        0 <= a < ds.len(),
    ensures
        chain(ds, a).len() >= 1,
        chain(ds, a)[0] == ds[a].base,
{
}

/// Every tail of the chain of a derivative is the chain of another derivative.
proof fn lemma_chain_drop(ds: Seq<DerivativeInfo>, k: int, j: int)
    requires
        forall|i: int| 0 <= i < ds.len() ==> ((#[trigger] ds[i]).prev_order matches Some(p) ==> p.0 < i),
        0 <= k < ds.len(),
        0 <= j < chain(ds, k).len(),
    ensures
        exists|d: int| 0 <= d < ds.len() && #[trigger] chain(ds, d) == chain(ds, k).subrange(j, chain(ds, k).len() as int),
    decreases j,
{
    let c = chain(ds, k);
    if j == 0 {
        assert(chain(ds, k) == c.subrange(0, c.len() as int));
    } else {
        match ds[k].prev_order {
            Some(p) => {
                let cp = chain(ds, p.0 as int);
                assert(cp =~= c.subrange(1, c.len() as int));
                lemma_chain_drop(ds, p.0 as int, j - 1);
                assert(cp.subrange(j - 1, cp.len() as int) =~= c.subrange(j, c.len() as int));
            },
            None => {
                assert(c.len() == 1);
            },
        }
    }
}

/// The bases along a chain are unknowns.
proof fn lemma_chain_bases(ds: Seq<DerivativeInfo>, id: int, n: int)
    requires
        0 <= id < ds.len(),
        forall|i: int| 0 <= i < ds.len() ==> (#[trigger] ds[i]).base.0 < n,
    ensures
        forall|k: int| 0 <= k < chain(ds, id).len() ==> (#[trigger] chain(ds, id)[k]).0 < n,
    decreases id,
{
    let c = chain(ds, id);
    if let Some(p) = ds[id].prev_order {
        if 0 <= p.0 < id {
            lemma_chain_bases(ds, p.0 as int, n);
            assert forall|k: int| 0 <= k < c.len() implies (#[trigger] c[k]).0 < n by {
                if k > 0 {
                    assert(c[k] == chain(ds, p.0 as int)[k - 1]);
                }
            }
        }
    }
}

/// The instructions that resolve one derivative: the cache instructions and then the
/// instructions that compute it.
#[derive(Debug)]
pub struct ResolvedDerivative {
    pub instrs: core::ops::Range<Inst>,
    pub cache_instrs: core::ops::Range<Inst>,
}

/// The instructions `start..end`.
pub open spec fn inst_range(start: Inst, end: Inst) -> Seq<Inst> {
    Seq::new(
        if start.0 <= end.0 { (end.0 - start.0) as nat } else { 0nat },
        |k: int| Inst((start.0 + k) as u32),
    )
}

impl ResolvedDerivative {
    /// The derivative at the instruction the user wrote: that one instruction, no cache.
    pub fn root_instr(pos: Inst) -> (r: ResolvedDerivative)
        requires
            pos.0 < u32::MAX,
        ensures
            r.instrs.start == pos,
            r.instrs.end == Inst((pos.0 + 1) as u32),
            r.cache_instrs.start == pos,
            r.cache_instrs.end == pos,
    {
        ResolvedDerivative {
            instrs: core::ops::Range { start: pos, end: Inst(pos.0 + 1) },
            cache_instrs: core::ops::Range { start: pos, end: pos },
        }
    }

    /// All its instructions: the cache instructions first.
    pub fn instructions(&self) -> (r: Vec<Inst>)
        ensures
            r@ == inst_range(self.cache_instrs.start, self.cache_instrs.end) + inst_range(
                self.instrs.start,
                self.instrs.end,
            ),
    {
        let mut r: Vec<Inst> = Vec::new();
        push_range(&mut r, self.cache_instrs.start, self.cache_instrs.end);
        push_range(&mut r, self.instrs.start, self.instrs.end);
        r
    }
}

fn push_range(out: &mut Vec<Inst>, start: Inst, end: Inst)
    ensures
        final(out)@ == old(out)@ + inst_range(start, end),
{
    let ghost base = out@;
    let mut k: u32 = start.0;
    while k < end.0
        invariant
            start.0 <= k,
            k <= end.0 || k == start.0,
            out@ == base + Seq::new((k - start.0) as nat, |j: int| Inst((start.0 + j) as u32)),
        decreases end.0 - k,
    {
        out.push(Inst(k));
        k += 1;
        proof {
            assert(out@ =~= base + Seq::new((k - start.0) as nat, |j: int| Inst((start.0 + j) as u32)));
        }
    }
    proof {
        assert(out@ =~= base + inst_range(start, end));
    }
}

/// Instructions with this opcode have a derivative of zero with respect to every unknown:
/// integer and boolean arithmetic, casts, comparisons, rounding, remainders and control flow.
pub open spec fn has_zero_derivative(op: Opcode) -> bool {
    match op {
        Opcode::Ineg | Opcode::Iadd | Opcode::Isub | Opcode::Imul | Opcode::Idiv | Opcode::Ishl
        | Opcode::Ishr | Opcode::IFcast | Opcode::BIcast | Opcode::IBcast | Opcode::FBcast
        | Opcode::BFcast | Opcode::FIcast | Opcode::Irem | Opcode::Inot | Opcode::Ixor | Opcode::Iand
        | Opcode::Ior | Opcode::Clog2 | Opcode::Frem | Opcode::Floor | Opcode::Ceil | Opcode::Bnot
        | Opcode::Ilt | Opcode::Igt | Opcode::Flt | Opcode::Fgt | Opcode::Ile | Opcode::Ige
        | Opcode::Fle | Opcode::Fge | Opcode::Ieq | Opcode::Feq | Opcode::SEq | Opcode::Beq
        | Opcode::Ine | Opcode::Fne | Opcode::Sne | Opcode::Bne | Opcode::Br | Opcode::Jmp => true,
        _ => false,
    }
}

/// Does instruction `inst` of `dfg` have a derivative of zero?
pub fn zero_derivative(dfg: &DataFlowGraph, inst: Inst) -> (r: bool)
    requires
        inst.0 < dfg.insts@.len(),
    ensures
        r == has_zero_derivative(dfg.insts@[inst.0 as int].spec_opcode()),
{
    let opcode = dfg.insts[inst.0 as usize].opcode();
    match opcode {
        Opcode::Ineg | Opcode::Iadd | Opcode::Isub | Opcode::Imul | Opcode::Idiv | Opcode::Ishl
        | Opcode::Ishr | Opcode::IFcast | Opcode::BIcast | Opcode::IBcast | Opcode::FBcast
        | Opcode::BFcast | Opcode::FIcast | Opcode::Irem | Opcode::Inot | Opcode::Ixor | Opcode::Iand
        | Opcode::Ior | Opcode::Clog2 | Opcode::Frem | Opcode::Floor | Opcode::Ceil | Opcode::Bnot
        | Opcode::Ilt | Opcode::Igt | Opcode::Flt | Opcode::Fgt | Opcode::Ile | Opcode::Ige
        | Opcode::Fle | Opcode::Fge | Opcode::Ieq | Opcode::Feq | Opcode::SEq | Opcode::Beq
        | Opcode::Ine | Opcode::Fne | Opcode::Sne | Opcode::Bne | Opcode::Br | Opcode::Jmp => true,
        _ => false,
    }
}

} // verus!
