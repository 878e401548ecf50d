//! Overload resolution of a call: the signatures of the called function are narrowed
//! argument by argument to those whose requirement the argument's type meets with
//! conversion, then to those of the right arity; among several left, those met without
//! conversion (semantically) are preferred, and among those the exact matches.
//!
//! The types of the arguments and the requirements are given by what the resolution
//! reads of them: whether each argument's type is known, the number of each requirement
//! (equal requirements have equal numbers), for each signature and argument whether the
//! argument meets the requirement with conversion, semantically and exactly, and the cast
//! that the argument needs if the signature is chosen.
use vstd::prelude::*;

verus! {

/// An argument whose type meets none of the remaining signatures: its position and the
/// distinct requirements that those signatures make of it, in order.
#[derive(Clone, Debug, PartialEq, Eq)]
pub struct TypeMismatch {
    pub arg: usize,
    pub expected: Vec<u32>,
}

/// What overload resolution gives: the type mismatches; whether a signature mismatch is
/// reported; the type of the call (the common return type when no signature is chosen);
/// whether all argument types were known; the chosen signature; the casts to insert
/// (argument position and target type); whether the chosen signature is recorded (when the
/// function has several).
#[derive(Clone, Debug, PartialEq, Eq)]
pub struct OverloadResult {
    pub mismatches: Vec<TypeMismatch>,
    pub reported: bool,
    pub return_ty: Option<u32>,
    pub valid: bool,
    pub chosen: Option<usize>,
    pub casts: Vec<(usize, u32)>,
    pub record_signature: bool,
}

/// An [`OverloadResult`] with its lists as sequences.
pub struct OverloadView {
    pub mismatches: Seq<(usize, Seq<u32>)>,
    pub reported: bool,
    pub return_ty: Option<u32>,
    pub valid: bool,
    pub chosen: Option<usize>,
    pub casts: Seq<(usize, u32)>,
    pub record_signature: bool,
}

/// The result `r` with its lists as sequences.
pub open spec fn overload_view(r: OverloadResult) -> OverloadView {
    OverloadView {
        mismatches: r.mismatches@.map_values(|m: TypeMismatch| (m.arg, m.expected@)),
        reported: r.reported,
        return_ty: r.return_ty,
        valid: r.valid,
        chosen: r.chosen,
        casts: r.casts@,
        record_signature: r.record_signature,
    }
}

/// The candidates among the first `m` of `cands` whose requirement at argument `i` the
/// argument meets with conversion.
pub open spec fn keep_converting(conv: Seq<Vec<bool>>, cands: Seq<usize>, i: int, m: int) -> Seq<usize>
    decreases m,
{
    if m <= 0 {
        Seq::empty()
    } else {
        let c = cands[m - 1];
        keep_converting(conv, cands, i, m - 1) + if i < conv[c as int]@.len() && conv[c as int]@[i] {
            seq![c]
        } else {
            Seq::empty()
        }
    }
}

/// The distinct requirements at argument `i` of the first `m` of `cands`, in order.
pub open spec fn expected_reqs(reqs: Seq<Vec<u32>>, cands: Seq<usize>, i: int, m: int) -> Seq<u32>
    decreases m,
{
    if m <= 0 {
        Seq::empty()
    } else {
        let acc = expected_reqs(reqs, cands, i, m - 1);
        let c = cands[m - 1];
        if i < reqs[c as int]@.len() && !acc.contains(reqs[c as int]@[i]) {
            acc.push(reqs[c as int]@[i])
        } else {
            acc
        }
    }
}

/// The candidates among the first `m` of `cands` with `n` requirements.
pub open spec fn keep_arity(reqs: Seq<Vec<u32>>, cands: Seq<usize>, n: int, m: int) -> Seq<usize>
    decreases m,
{
    if m <= 0 {
        Seq::empty()
    } else {
        let c = cands[m - 1];
        keep_arity(reqs, cands, n, m - 1) + if reqs[c as int]@.len() == n { seq![c] } else { Seq::empty() }
    }
}

/// The candidates among the first `m` of `cands` whose requirements all `n` arguments meet
/// by `tab`.
pub open spec fn keep_all_met(tab: Seq<Vec<bool>>, cands: Seq<usize>, n: int, m: int) -> Seq<usize>
    decreases m,
{
    if m <= 0 {
        Seq::empty()
    } else {
        let c = cands[m - 1];
        keep_all_met(tab, cands, n, m - 1) + if (forall|i: int| 0 <= i < n ==> #[trigger] tab[c as int]@[i]) {
            seq![c]
        } else {
            Seq::empty()
        }
    }
}

/// The candidates, the type mismatches and whether all types were known after the first
/// `k` arguments: a known argument narrows the candidates to those it meets with
/// conversion, or, when it meets none, records a mismatch and leaves them.
pub open spec fn narrow(known: Seq<bool>, reqs: Seq<Vec<u32>>, conv: Seq<Vec<bool>>, k: int) -> (Seq<usize>, Seq<(usize, Seq<u32>)>, bool)
    decreases k,
{
    if k <= 0 {
        (Seq::new(reqs.len(), |s: int| s as usize), Seq::empty(), true)
    } else {
        let (c, e, v) = narrow(known, reqs, conv, k - 1);
        let i = k - 1;
        if known[i] {
            let nc = keep_converting(conv, c, i, c.len() as int);
            if nc.len() == 0 {
                (c, e.push((i as usize, expected_reqs(reqs, c, i, c.len() as int))), v)
            } else {
                (nc, e, v)
            }
        } else {
            (c, e, false)
        }
    }
}

/// The return type shared by all signatures, if there is one.
pub open spec fn common_return(sig_returns: Seq<u32>) -> Option<u32> {
    if sig_returns.len() > 0 && forall|s: int| 0 <= s < sig_returns.len() ==> #[trigger] sig_returns[s] == sig_returns[0] {
        Some(sig_returns[0])
    } else {
        None
    }
}

/// The casts that signature `s` needs for the first `k` arguments.
pub open spec fn casts_of(casts: Seq<Vec<Option<u32>>>, s: int, k: int) -> Seq<(usize, u32)>
    decreases k,
{
    if k <= 0 {
        Seq::empty()
    } else {
        casts_of(casts, s, k - 1) + match casts[s]@[k - 1] {
            Some(t) => seq![((k - 1) as usize, t)],
            None => Seq::empty(),
        }
    }
}

/// The signature chosen among the candidates `a` of the right arity that all meet with
/// conversion, when several are left and all argument types are known: the first of those
/// met semantically, or, when several are, the first exact match among those, falling back
/// to the first semantic match. `None` when no candidate is met semantically.
pub open spec fn choose_among(sem: Seq<Vec<bool>>, exact: Seq<Vec<bool>>, a: Seq<usize>, n: int) -> Option<usize> {
    let s = keep_all_met(sem, a, n, a.len() as int);
    if s.len() == 0 {
        None
    } else if s.len() > 1 {
        let x = keep_all_met(exact, s, n, s.len() as int);
        if x.len() == 0 {
            Some(s[0])
        } else {
            Some(x[0])
        }
    } else {
        Some(s[0])
    }
}

/// The signature that overload resolution chooses, or `None` when it chooses none.
pub open spec fn chosen_signature(
    known: Seq<bool>,
    reqs: Seq<Vec<u32>>,
    conv: Seq<Vec<bool>>,
    sem: Seq<Vec<bool>>,
    exact: Seq<Vec<bool>>,
) -> Option<usize> {
    let n = known.len() as int;
    let (c, e, v) = narrow(known, reqs, conv, n);
    let a = keep_arity(reqs, c, n, c.len() as int);
    if e.len() > 0 || a.len() == 0 {
        None
    } else if a.len() == 1 {
        Some(a[0])
    } else if !v {
        None
    } else {
        choose_among(sem, exact, a, n)
    }
}

/// Overload resolution fails to choose among several candidates: none is met
/// semantically although all argument types are known.
pub open spec fn no_semantic_choice(
    known: Seq<bool>,
    reqs: Seq<Vec<u32>>,
    conv: Seq<Vec<bool>>,
    sem: Seq<Vec<bool>>,
    exact: Seq<Vec<bool>>,
) -> bool {
    let n = known.len() as int;
    let (c, e, v) = narrow(known, reqs, conv, n);
    let a = keep_arity(reqs, c, n, c.len() as int);
    e.len() == 0 && a.len() > 1 && v && choose_among(sem, exact, a, n) is None
}

/// What overload resolution gives for the call (see [`resolve_overload`]).
pub open spec fn spec_resolve_overload(
    known: Seq<bool>,
    reqs: Seq<Vec<u32>>,
    conv: Seq<Vec<bool>>,
    sem: Seq<Vec<bool>>,
    exact: Seq<Vec<bool>>,
    casts: Seq<Vec<Option<u32>>>,
    sig_returns: Seq<u32>,
) -> OverloadView {
    let n = known.len() as int;
    let (c, e, v) = narrow(known, reqs, conv, n);
    let a = keep_arity(reqs, c, n, c.len() as int);
    let reported = e.len() > 0 || a.len() == 0;
    match chosen_signature(known, reqs, conv, sem, exact) {
        Some(s) => OverloadView {
            mismatches: e,
            reported,
            return_ty: Some(sig_returns[s as int]),
            valid: v,
            chosen: Some(s),
            casts: casts_of(casts, s as int, n),
            record_signature: reqs.len() > 1,
        },
        None => OverloadView {
            mismatches: e,
            reported,
            return_ty: common_return(sig_returns),
            valid: false,
            chosen: None,
            casts: Seq::empty(),
            record_signature: false,
        },
    }
}

/// The tables describe `n` arguments and the signatures of `reqs`.
pub open spec fn tables_fit(
    n: int,
    reqs: Seq<Vec<u32>>,
    conv: Seq<Vec<bool>>,
    sem: Seq<Vec<bool>>,
    exact: Seq<Vec<bool>>,
    casts: Seq<Vec<Option<u32>>>,
    sig_returns: Seq<u32>,
) -> bool {
    &&& conv.len() == reqs.len()
    &&& sem.len() == reqs.len()
    &&& exact.len() == reqs.len()
    &&& casts.len() == reqs.len()
    &&& sig_returns.len() == reqs.len()
    &&& forall|s: int|
        0 <= s < reqs.len() ==> {
            &&& (#[trigger] conv[s])@.len() == reqs[s]@.len()
            &&& sem[s]@.len() == reqs[s]@.len()
            &&& exact[s]@.len() == reqs[s]@.len()
            &&& casts[s]@.len() == reqs[s]@.len()
        }
}

/// The candidates of `cands` whose requirement at argument `i` the argument meets with
/// conversion.
fn filter_converting(conv: &Vec<Vec<bool>>, cands: &Vec<usize>, i: usize) -> (r: Vec<usize>)
    requires
        forall|k: int| 0 <= k < cands@.len() ==> (#[trigger] cands@[k]) < conv@.len(),
    ensures
        r@ == keep_converting(conv@, cands@, i as int, cands@.len() as int),
{
    let mut r: Vec<usize> = Vec::new();
    let mut m: usize = 0;
    while m < cands.len()
        invariant
            m <= cands@.len(),
            forall|k: int| 0 <= k < cands@.len() ==> (#[trigger] cands@[k]) < conv@.len(),
            r@ == keep_converting(conv@, cands@, i as int, m as int),
        decreases cands@.len() - m,
    {
        let c = cands[m];
        if i < conv[c].len() && conv[c][i] {
            r.push(c);
        }
        m += 1;
        proof {
            assert(r@ =~= keep_converting(conv@, cands@, i as int, m as int));
        }
    }
    r
}

/// The distinct requirements of `cands` at argument `i`.
fn collect_expected(reqs: &Vec<Vec<u32>>, cands: &Vec<usize>, i: usize) -> (r: Vec<u32>)
    requires
        forall|k: int| 0 <= k < cands@.len() ==> (#[trigger] cands@[k]) < reqs@.len(),
    ensures
        r@ == expected_reqs(reqs@, cands@, i as int, cands@.len() as int),
{
    let mut r: Vec<u32> = Vec::new();
    let mut m: usize = 0;
    while m < cands.len()
        invariant
            m <= cands@.len(),
            forall|k: int| 0 <= k < cands@.len() ==> (#[trigger] cands@[k]) < reqs@.len(),
            r@ == expected_reqs(reqs@, cands@, i as int, m as int),
        decreases cands@.len() - m,
    {
        let c = cands[m];
        if i < reqs[c].len() {
            let x = reqs[c][i];
            let mut found = false;
            let mut q: usize = 0;
            while q < r.len()
                invariant
                    q <= r@.len(),
                    found == (exists|p: int| 0 <= p < q && #[trigger] r@[p] == x),
                decreases r@.len() - q,
            {
                if r[q] == x {
                    found = true;
                }
                q += 1;
            }
            if !found {
                r.push(x);
            }
        }
        m += 1;
        proof {
            assert(r@ =~= expected_reqs(reqs@, cands@, i as int, m as int));
        }
    }
    r
}

/// The candidates of `cands` with `n` requirements.
fn filter_arity(reqs: &Vec<Vec<u32>>, cands: &Vec<usize>, n: usize) -> (r: Vec<usize>)
    requires
        forall|k: int| 0 <= k < cands@.len() ==> (#[trigger] cands@[k]) < reqs@.len(),
    ensures
        r@ == keep_arity(reqs@, cands@, n as int, cands@.len() as int),
{
    let mut r: Vec<usize> = Vec::new();
    let mut m: usize = 0;
    while m < cands.len()
        invariant
            m <= cands@.len(),
            forall|k: int| 0 <= k < cands@.len() ==> (#[trigger] cands@[k]) < reqs@.len(),
            r@ == keep_arity(reqs@, cands@, n as int, m as int),
        decreases cands@.len() - m,
    {
        let c = cands[m];
        if reqs[c].len() == n {
            r.push(c);
        }
        m += 1;
        proof {
            assert(r@ =~= keep_arity(reqs@, cands@, n as int, m as int));
        }
    }
    r
}

/// The candidates of `cands` whose requirements all `n` arguments meet by `tab`.
fn filter_all_met(tab: &Vec<Vec<bool>>, cands: &Vec<usize>, n: usize) -> (r: Vec<usize>)
    requires
        forall|k: int| 0 <= k < cands@.len() ==> (#[trigger] cands@[k]) < tab@.len() && tab@[cands@[k] as int]@.len() == n,
    ensures
        r@ == keep_all_met(tab@, cands@, n as int, cands@.len() as int),
        forall|k: int| 0 <= k < r@.len() ==> cands@.contains(#[trigger] r@[k]),
{
    let mut r: Vec<usize> = Vec::new();
    let mut m: usize = 0;
    while m < cands.len()
        invariant
            m <= cands@.len(),
            forall|k: int| 0 <= k < cands@.len() ==> (#[trigger] cands@[k]) < tab@.len() && tab@[cands@[k] as int]@.len() == n,
            r@ == keep_all_met(tab@, cands@, n as int, m as int),
            forall|k: int| 0 <= k < r@.len() ==> cands@.contains(#[trigger] r@[k]),
        decreases cands@.len() - m,
    {
        let c = cands[m];
        let row = &tab[c];
        let mut all = true;
        let mut i: usize = 0;
        while i < n
            invariant
                i <= n,
                row@.len() == n,
                all == (forall|j: int| 0 <= j < i ==> #[trigger] row@[j]),
            decreases n - i,
        {
            if !row[i] {
                all = false;
            }
            i += 1;
        }
        if all {
            r.push(c);
        }
        proof {
            assert(cands@.contains(cands@[m as int]));
        }
        m += 1;
        proof {
            assert(r@ =~= keep_all_met(tab@, cands@, n as int, m as int));
        }
    }
    r
}

/// The elements of `s` after filtering lie in `s`.
proof fn lemma_keep_in(conv: Seq<Vec<bool>>, reqs: Seq<Vec<u32>>, cands: Seq<usize>, i: int, n: int, m: int)
    requires
        0 <= m <= cands.len(),
    ensures
        forall|k: int| 0 <= k < keep_converting(conv, cands, i, m).len() ==> cands.contains(#[trigger] keep_converting(conv, cands, i, m)[k]),
        forall|k: int| 0 <= k < keep_arity(reqs, cands, n, m).len() ==> cands.contains(#[trigger] keep_arity(reqs, cands, n, m)[k]),
    decreases m,
{
    if m > 0 {
        lemma_keep_in(conv, reqs, cands, i, n, m - 1);
        assert(cands.contains(cands[m - 1]));
        let pc = keep_converting(conv, cands, i, m - 1);
        let pa = keep_arity(reqs, cands, n, m - 1);
        assert forall|k: int| 0 <= k < keep_converting(conv, cands, i, m).len() implies cands.contains(
            #[trigger] keep_converting(conv, cands, i, m)[k],
        ) by {
            if k < pc.len() {
                assert(keep_converting(conv, cands, i, m)[k] == pc[k]);
            }
        }
        assert forall|k: int| 0 <= k < keep_arity(reqs, cands, n, m).len() implies cands.contains(
            #[trigger] keep_arity(reqs, cands, n, m)[k],
        ) by {
            if k < pa.len() {
                assert(keep_arity(reqs, cands, n, m)[k] == pa[k]);
            }
        }
    }
}

/// Resolve the overload of a call with `known.len()` arguments among the signatures
/// `reqs` (see the module documentation and [`spec_resolve_overload`]):
/// - each argument whose type is known narrows the candidates to those whose requirement
///   it meets with conversion; if it meets none, a mismatch is recorded with the distinct
///   requirements of the candidates at that position, and the candidates stay;
/// - the candidates are narrowed to those with as many requirements as arguments;
/// - with a mismatch or no candidate left, a signature mismatch is reported and the call
///   gets the return type shared by all signatures, if any;
/// - a single candidate is chosen; several with an unknown argument type give no choice
///   and no report; otherwise the semantic and exact matches decide;
/// - the chosen signature gives the return type and the casts of the arguments.
pub fn resolve_overload(
    known: &Vec<bool>,
    reqs: &Vec<Vec<u32>>,
    conv: &Vec<Vec<bool>>,
    sem: &Vec<Vec<bool>>,
    exact: &Vec<Vec<bool>>,
    casts: &Vec<Vec<Option<u32>>>,
    sig_returns: &Vec<u32>,
) -> (r: OverloadResult)
    requires
        tables_fit(known@.len() as int, reqs@, conv@, sem@, exact@, casts@, sig_returns@),
        !no_semantic_choice(known@, reqs@, conv@, sem@, exact@),
    ensures
        overload_view(r) == spec_resolve_overload(known@, reqs@, conv@, sem@, exact@, casts@, sig_returns@),
{
    let n = known.len();
    let mut cands: Vec<usize> = Vec::new();
    let mut s: usize = 0;
    while s < reqs.len()
        invariant
            s <= reqs@.len(),
            cands@ == Seq::new(s as nat, |q: int| q as usize),
        decreases reqs@.len() - s,
    {
        cands.push(s);
        s += 1;
        proof {
            assert(cands@ =~= Seq::new(s as nat, |q: int| q as usize));
        }
    }
    let mut mismatches: Vec<TypeMismatch> = Vec::new();
    let mut valid = true;
    let mut i: usize = 0;
    while i < n
        invariant
            n == known@.len(),
            i <= n,
            tables_fit(n as int, reqs@, conv@, sem@, exact@, casts@, sig_returns@),
            forall|k: int| 0 <= k < cands@.len() ==> (#[trigger] cands@[k]) < reqs@.len(),
            ({
                let (c, e, v) = narrow(known@, reqs@, conv@, i as int);
                &&& cands@ == c
                &&& mismatches@.map_values(|m: TypeMismatch| (m.arg, m.expected@)) == e
                &&& valid == v
            }),
        decreases n - i,
    {
        if known[i] {
            let nc = filter_converting(conv, &cands, i);
            proof {
                lemma_keep_in(conv@, reqs@, cands@, i as int, n as int, cands@.len() as int);
            }
            if nc.len() == 0 {
                let expected = collect_expected(reqs, &cands, i);
                let ghost before = mismatches@;
                mismatches.push(TypeMismatch { arg: i, expected });
                proof {
                    assert(mismatches@.map_values(|m: TypeMismatch| (m.arg, m.expected@)) =~= before.map_values(
                        |m: TypeMismatch| (m.arg, m.expected@),
                    ).push((i as usize, expected@)));
                }
            } else {
                proof {
                    assert forall|k: int| 0 <= k < nc@.len() implies (#[trigger] nc@[k]) < reqs@.len() by {
                        assert(cands@.contains(nc@[k]));
                    }
                }
                cands = nc;
            }
        } else {
            valid = false;
        }
        i += 1;
    }
    let a = filter_arity(reqs, &cands, n);
    proof {
        lemma_keep_in(conv@, reqs@, cands@, 0, n as int, cands@.len() as int);
        assert forall|k: int| 0 <= k < a@.len() implies (#[trigger] a@[k]) < reqs@.len() && reqs@[a@[k] as int]@.len() == n
            && sem@[a@[k] as int]@.len() == n && exact@[a@[k] as int]@.len() == n && casts@[a@[k] as int]@.len() == n by {
            assert(cands@.contains(a@[k]));
            lemma_arity_kept(reqs@, cands@, n as int, cands@.len() as int, k);
            assert(conv@[a@[k] as int]@.len() == reqs@[a@[k] as int]@.len());
        }
    }
    let reported = mismatches.len() > 0 || a.len() == 0;
    let chosen: Option<usize> = if reported {
        None
    } else if a.len() == 1 {
        Some(a[0])
    } else if !valid {
        None
    } else {
        let sm = filter_all_met(sem, &a, n);
        if sm.len() > 1 {
            proof {
                assert forall|k: int| 0 <= k < sm@.len() implies (#[trigger] sm@[k]) < exact@.len() && exact@[sm@[k] as int]@.len() == n by {
                    assert(a@.contains(sm@[k]));
                }
            }
            let x = filter_all_met(exact, &sm, n);
            if x.len() == 0 {
                Some(sm[0])
            } else {
                Some(x[0])
            }
        } else {
            Some(sm[0])
        }
    };
    proof {
        if chosen is Some {
            let sig = chosen->0;
            assert(a@.contains(sig));
        }
    }
    match chosen {
        Some(sig) => {
            let mut out: Vec<(usize, u32)> = Vec::new();
            let mut k: usize = 0;
            while k < n
                invariant
                    k <= n,
                    sig < casts@.len(),
                    casts@[sig as int]@.len() == n,
                    out@ == casts_of(casts@, sig as int, k as int),
                decreases n - k,
            {
                match casts[sig][k] {
                    Some(t) => out.push((k, t)),
                    None => {},
                }
                k += 1;
                proof {
                    assert(out@ =~= casts_of(casts@, sig as int, k as int));
                }
            }
            OverloadResult {
                mismatches,
                reported,
                return_ty: Some(sig_returns[sig]),
                valid,
                chosen: Some(sig),
                casts: out,
                record_signature: reqs.len() > 1,
            }
        },
        None => {
            let mut common = sig_returns.len() > 0;
            if common {
                let first = sig_returns[0];
                let mut q: usize = 0;
                while q < sig_returns.len()
                    invariant
                        q <= sig_returns@.len(),
                        sig_returns@.len() > 0,
                        first == sig_returns@[0],
                        common == (forall|p: int| 0 <= p < q ==> #[trigger] sig_returns@[p] == sig_returns@[0]),
                    decreases sig_returns@.len() - q,
                {
                    if sig_returns[q] != first {
                        common = false;
                    }
                    q += 1;
                }
            }
            let return_ty = if common { Some(sig_returns[0]) } else { None };
            OverloadResult {
                mismatches,
                reported,
                return_ty,
                valid: false,
                chosen: None,
                casts: Vec::new(),
                record_signature: false,
            }
        },
    }
}

/// A candidate kept for its arity has that arity.
proof fn lemma_arity_kept(reqs: Seq<Vec<u32>>, cands: Seq<usize>, n: int, m: int, k: int)
    requires
        0 <= m <= cands.len(),
        0 <= k < keep_arity(reqs, cands, n, m).len(),
    ensures
        reqs[keep_arity(reqs, cands, n, m)[k] as int]@.len() == n,
    decreases m,
{
    let prev = keep_arity(reqs, cands, n, m - 1);
    if k < prev.len() {
        lemma_arity_kept(reqs, cands, n, m - 1, k);
    }
}

} // verus!
