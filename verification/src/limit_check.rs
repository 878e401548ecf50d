//! The checks of a call of `$limit(probe, limiter, args...)`: the first argument must be a
//! probe, and a user-defined limiting function must take exactly the arguments of the call,
//! its first two and its result being real and none of them output arguments.
use vstd::prelude::*;

verus! {

/// A value type as the checks see it: `real`, the type of an expression in error, or
/// another type, by number.
#[derive(Clone, Copy, Debug, PartialEq, Eq)]
pub enum ValueType {
    Real,
    Error,
    Other(u32),
}

/// A user-defined function named as limiting function: the types of its arguments, which
/// of them are output arguments, and its return type.
#[derive(Clone, Debug, PartialEq, Eq)]
pub struct LimitFunInfo {
    pub arg_types: Vec<ValueType>,
    pub arg_is_output: Vec<bool>,
    pub return_ty: ValueType,
}

/// A problem found with a call of `$limit`.
#[derive(Clone, Debug, PartialEq, Eq)]
pub enum LimitDiagnostic {
    /// The first argument is not a probe (a potential or flow access).
    ExpectedProbe,
    /// The limiting function takes `expected` arguments, the call has `found`.
    ArgCntMismatch { expected: usize, found: usize },
    /// The limiting function has a first or second argument or a result that is not real,
    /// or output arguments (their positions).
    InvalidLimitFunction { invalid_arg0: bool, invalid_arg1: bool, invalid_ret: bool, output_args: Vec<usize> },
}

/// A diagnostic with its list as a sequence.
pub enum LimitDiagnosticView {
    ExpectedProbe,
    ArgCntMismatch { expected: usize, found: usize },
    InvalidLimitFunction { invalid_arg0: bool, invalid_arg1: bool, invalid_ret: bool, output_args: Seq<usize> },
}

/// The diagnostic `d` with its list as a sequence.
pub open spec fn limit_diag_view(d: LimitDiagnostic) -> LimitDiagnosticView {
    match d {
        LimitDiagnostic::ExpectedProbe => LimitDiagnosticView::ExpectedProbe,
        LimitDiagnostic::ArgCntMismatch { expected, found } => LimitDiagnosticView::ArgCntMismatch { expected, found },
        LimitDiagnostic::InvalidLimitFunction { invalid_arg0, invalid_arg1, invalid_ret, output_args } =>
            LimitDiagnosticView::InvalidLimitFunction { invalid_arg0, invalid_arg1, invalid_ret, output_args: output_args@ },
    }
}

/// The signature that the arguments from the third on are then checked against: their
/// required value types, the return type, and whether the limiting function is a
/// user-defined one.
#[derive(Clone, Debug, PartialEq, Eq)]
pub struct RestSignature {
    pub args: Vec<ValueType>,
    pub return_ty: ValueType,
    pub user_function: bool,
}

/// What the checks of a `$limit` call give.
#[derive(Clone, Debug, PartialEq, Eq)]
pub struct LimitCheck {
    pub diagnostics: Vec<LimitDiagnostic>,
    pub rest: Option<RestSignature>,
}

/// `ty` is acceptable where a real is needed: a real, or a type already in error.
pub open spec fn real_like(ty: ValueType) -> bool {
    ty is Real || ty is Error
}

/// The positions `k` with `from <= k < s.len()` of output arguments, ascending.
pub open spec fn output_positions(s: Seq<bool>, n: int) -> Seq<usize>
    decreases n,
{
    if n <= 0 {
        Seq::empty()
    } else {
        output_positions(s, n - 1) + if s[n - 1] { seq![(n - 1) as usize] } else { Seq::empty() }
    }
}

/// The diagnostics of a `$limit` call with `nargs` arguments (see [`check_limit_call`]).
pub open spec fn limit_diagnostics(
    has_sig: bool,
    probe_is_err: bool,
    probe_is_access: bool,
    nargs: usize,
    user_fn: Option<LimitFunInfo>,
) -> Seq<LimitDiagnosticView> {
    if !has_sig {
        Seq::empty()
    } else {
        let probe = if !probe_is_err && !probe_is_access { seq![LimitDiagnosticView::ExpectedProbe] } else { Seq::empty() };
        if nargs == 1 {
            probe
        } else {
            match user_fn {
                Some(f) => if f.arg_types@.len() != nargs {
                    probe.push(LimitDiagnosticView::ArgCntMismatch { expected: f.arg_types@.len() as usize, found: nargs })
                } else {
                    let outs = output_positions(f.arg_is_output@, f.arg_is_output@.len() as int);
                    let inv_ret = !real_like(f.return_ty);
                    let inv0 = !real_like(f.arg_types@[0]);
                    let inv1 = !real_like(f.arg_types@[1]);
                    if inv_ret || inv0 || inv1 || outs.len() > 0 {
                        probe.push(
                            LimitDiagnosticView::InvalidLimitFunction {
                                invalid_arg0: inv0,
                                invalid_arg1: inv1,
                                invalid_ret: inv_ret,
                                output_args: outs,
                            },
                        )
                    } else {
                        probe
                    }
                },
                None => probe,
            }
        }
    }
}

/// The signature the remaining arguments are checked against, as the return type, the
/// required types, and whether a user-defined function limits (see [`check_limit_call`]).
pub open spec fn limit_rest(
    has_sig: bool,
    nargs: usize,
    user_fn: Option<LimitFunInfo>,
    builtin_sig: bool,
) -> Option<(Seq<ValueType>, ValueType, bool)> {
    if !has_sig || nargs == 1 {
        None
    } else {
        match user_fn {
            Some(f) => if f.arg_types@.len() != nargs {
                None
            } else {
                Some((f.arg_types@.subrange(2, nargs as int), f.return_ty, true))
            },
            None => if builtin_sig {
                Some((Seq::new((nargs - 2) as nat, |i: int| ValueType::Real), ValueType::Real, false))
            } else {
                None
            },
        }
    }
}

/// Check a call of `$limit` with `nargs` arguments. `has_sig`: a signature was resolved
/// for the call (else an error was reported already and nothing is checked).
/// `probe_is_err`, `probe_is_access`: the first argument is in error, or is a potential or
/// flow access. `user_fn`: the second argument names this user-defined function.
/// `builtin_sig`: the call resolved to the builtin limiting functions.
/// - The first argument must be a probe, unless it is in error.
/// - A user-defined limiting function must take as many arguments as the call has;
///   otherwise that is reported and nothing else is checked.
/// - Its first two arguments and its result must be real, and it may have no output
///   argument; else all of that is reported at once.
/// - The arguments from the third on are then checked against the function's remaining
///   arguments, or all against `real` for the builtin limiting functions.
pub fn check_limit_call(
    has_sig: bool,
    probe_is_err: bool,
    probe_is_access: bool,
    nargs: usize,
    user_fn: Option<LimitFunInfo>,
    builtin_sig: bool,
) -> (r: LimitCheck)
    requires
        nargs >= 1,
        user_fn matches Some(f) ==> f.arg_is_output@.len() == f.arg_types@.len(),
    ensures
        r.diagnostics@.map_values(|d: LimitDiagnostic| limit_diag_view(d)) == limit_diagnostics(
            has_sig,
            probe_is_err,
            probe_is_access,
            nargs,
            user_fn,
        ),
        match limit_rest(has_sig, nargs, user_fn, builtin_sig) {
            Some((args, ret, user)) => r.rest matches Some(s) && s.args@ == args && s.return_ty == ret && s.user_function == user,
            None => r.rest is None,
        },
{
    let ghost spec_diags = limit_diagnostics(has_sig, probe_is_err, probe_is_access, nargs, user_fn);
    let mut diagnostics: Vec<LimitDiagnostic> = Vec::new();
    if !has_sig {
        proof {
            assert(diagnostics@.map_values(|d: LimitDiagnostic| limit_diag_view(d)) =~= spec_diags);
        }
        return LimitCheck { diagnostics, rest: None };
    }
    if !probe_is_err && !probe_is_access {
        diagnostics.push(LimitDiagnostic::ExpectedProbe);
    }
    let ghost probe = diagnostics@.map_values(|d: LimitDiagnostic| limit_diag_view(d));
    if nargs == 1 {
        proof {
            assert(probe =~= spec_diags);
        }
        return LimitCheck { diagnostics, rest: None };
    }
    match user_fn {
        Some(f) => {
            if f.arg_types.len() != nargs {
                diagnostics.push(LimitDiagnostic::ArgCntMismatch { expected: f.arg_types.len(), found: nargs });
                proof {
                    assert(diagnostics@.map_values(|d: LimitDiagnostic| limit_diag_view(d)) =~= spec_diags);
                }
                return LimitCheck { diagnostics, rest: None };
            }
            let mut output_args: Vec<usize> = Vec::new();
            let mut k: usize = 0;
            while k < f.arg_is_output.len()
                invariant
                    k <= f.arg_is_output@.len(),
                    output_args@ == output_positions(f.arg_is_output@, k as int),
                decreases f.arg_is_output@.len() - k,
            {
                if f.arg_is_output[k] {
                    output_args.push(k);
                }
                k += 1;
                proof {
                    assert(output_args@ =~= output_positions(f.arg_is_output@, k as int));
                }
            }
            let invalid_ret = !matches!(f.return_ty, ValueType::Real | ValueType::Error);
            let invalid_arg0 = !matches!(f.arg_types[0], ValueType::Real | ValueType::Error);
            let invalid_arg1 = !matches!(f.arg_types[1], ValueType::Real | ValueType::Error);
            if invalid_ret || invalid_arg0 || invalid_arg1 || output_args.len() > 0 {
                diagnostics.push(LimitDiagnostic::InvalidLimitFunction { invalid_arg0, invalid_arg1, invalid_ret, output_args });
            }
            proof {
                assert(diagnostics@.map_values(|d: LimitDiagnostic| limit_diag_view(d)) =~= spec_diags);
            }
            let mut args: Vec<ValueType> = Vec::new();
            let mut j: usize = 2;
            while j < f.arg_types.len()
                invariant
                    2 <= j <= f.arg_types@.len(),
                    args@ == f.arg_types@.subrange(2, j as int),
                decreases f.arg_types@.len() - j,
            {
                args.push(f.arg_types[j]);
                j += 1;
                proof {
                    assert(args@ =~= f.arg_types@.subrange(2, j as int));
                }
            }
            LimitCheck { diagnostics, rest: Some(RestSignature { args, return_ty: f.return_ty, user_function: true }) }
        },
        None => {
            proof {
                assert(probe =~= spec_diags);
            }
            if builtin_sig {
                let mut args: Vec<ValueType> = Vec::new();
                let mut j: usize = 0;
                while j < nargs - 2
                    invariant
                        j <= nargs - 2,
                        nargs >= 2,
                        args@ == Seq::new(j as nat, |i: int| ValueType::Real),
                    decreases nargs - 2 - j,
                {
                    args.push(ValueType::Real);
                    j += 1;
                    proof {
                        assert(args@ =~= Seq::new(j as nat, |i: int| ValueType::Real));
                    }
                }
                LimitCheck { diagnostics, rest: Some(RestSignature { args, return_ty: ValueType::Real, user_function: false }) }
            } else {
                LimitCheck { diagnostics, rest: None }
            }
        },
    }
}


/// The output positions below `n` are exactly the positions `k < n` with `s[k]`.
proof fn lemma_output_positions_contains(s: Seq<bool>, n: int, k: int)
    requires
        0 <= n <= s.len(),
        n <= usize::MAX,
    ensures
        output_positions(s, n).contains(k as usize) && 0 <= k <= usize::MAX <==> 0 <= k < n && s[k],
    decreases n,
{
    if n > 0 {
        lemma_output_positions_contains(s, n - 1, k);
        let prev = output_positions(s, n - 1);
        let last: Seq<usize> = if s[n - 1] { seq![(n - 1) as usize] } else { Seq::empty() };
        assert(output_positions(s, n) == prev + last);
        if 0 <= k <= usize::MAX && output_positions(s, n).contains(k as usize) {
            let j = choose|j: int| 0 <= j < (prev + last).len() && (prev + last)[j] == k as usize;
            if j >= prev.len() {
                assert(last[j - prev.len()] == k as usize);
            } else {
                assert(prev[j] == k as usize);
            }
        }
        if 0 <= k < n && s[k] {
            if k == n - 1 {
                assert((prev + last)[prev.len() as int] == k as usize);
            } else {
                let j = choose|j: int| 0 <= j < prev.len() && prev[j] == k as usize;
                assert((prev + last)[j] == k as usize);
            }
        }
    }
}

/// A user-defined limiting function that takes as many arguments as the call has is
/// rejected exactly when its first or second argument or its result is not real, or when
/// it has an output argument; the rejection names every output argument, and no other
/// position, and says which of the first two arguments and the result are not real.
pub proof fn lemma_limit_function_rejected(
    has_sig: bool,
    probe_is_err: bool,
    probe_is_access: bool,
    nargs: usize,
    f: LimitFunInfo,
    k: int,
)
    requires
        has_sig,
        nargs >= 2,
        f.arg_types@.len() == nargs,
        f.arg_is_output@.len() == nargs,
        0 <= k < nargs,
    ensures
        ({
            let diags = limit_diagnostics(has_sig, probe_is_err, probe_is_access, nargs, Some(f));
            let bad = !real_like(f.return_ty) || !real_like(f.arg_types@[0]) || !real_like(f.arg_types@[1]) || exists|j: int|
                0 <= j < nargs && #[trigger] f.arg_is_output@[j];
            &&& (exists|j: int| 0 <= j < diags.len() && #[trigger] diags[j] is InvalidLimitFunction) <==> bad
            &&& forall|j: int|
                0 <= j < diags.len() ==> (#[trigger] diags[j] matches LimitDiagnosticView::InvalidLimitFunction {
                    invalid_arg0,
                    invalid_arg1,
                    invalid_ret,
                    output_args,
                } ==> (output_args.contains(k as usize) <==> f.arg_is_output@[k]) && invalid_arg0 == !real_like(f.arg_types@[0])
                    && invalid_arg1 == !real_like(f.arg_types@[1]) && invalid_ret == !real_like(f.return_ty))
            &&& f.arg_is_output@[k] ==> exists|j: int|
                0 <= j < diags.len() && (#[trigger] diags[j] matches LimitDiagnosticView::InvalidLimitFunction { output_args, .. }
                    && output_args.contains(k as usize))
        }),
{
    let diags = limit_diagnostics(has_sig, probe_is_err, probe_is_access, nargs, Some(f));
    let outs = output_positions(f.arg_is_output@, f.arg_is_output@.len() as int);
    lemma_output_positions_contains(f.arg_is_output@, nargs as int, k);
    let probe = if !probe_is_err && !probe_is_access { seq![LimitDiagnosticView::ExpectedProbe] } else { Seq::empty() };
    if exists|j: int| 0 <= j < nargs && #[trigger] f.arg_is_output@[j] {
        let j = choose|j: int| 0 <= j < nargs && #[trigger] f.arg_is_output@[j];
        lemma_output_positions_contains(f.arg_is_output@, nargs as int, j);
        assert(outs.len() > 0);
    } else {
        if outs.len() > 0 {
            let x = outs[0];
            lemma_output_positions_contains(f.arg_is_output@, nargs as int, x as int);
            assert(outs.contains(x));
        }
    }
    let inv = !real_like(f.return_ty) || !real_like(f.arg_types@[0]) || !real_like(f.arg_types@[1]) || outs.len() > 0;
    if inv {
        assert(diags[probe.len() as int] is InvalidLimitFunction);
    } else {
        assert(diags == probe);
    }
}

/// A `$limit` call with a resolved signature is told that its first argument is not a probe
/// exactly when that argument is neither in error nor a potential or flow access; and it is
/// told of a mismatch in the number of arguments exactly when a user-defined limiting
/// function takes another number of arguments than the call has (more than one), with both
/// numbers. Without a resolved signature nothing is reported.
pub proof fn lemma_limit_probe_and_arity(
    has_sig: bool,
    probe_is_err: bool,
    probe_is_access: bool,
    nargs: usize,
    user_fn: Option<LimitFunInfo>,
)
    requires
        nargs >= 1,
        user_fn matches Some(f) ==> f.arg_is_output@.len() == f.arg_types@.len(),
    ensures
        ({
            let diags = limit_diagnostics(has_sig, probe_is_err, probe_is_access, nargs, user_fn);
            &&& !has_sig ==> diags.len() == 0
            &&& (exists|j: int| 0 <= j < diags.len() && #[trigger] diags[j] is ExpectedProbe) <==> (has_sig && !probe_is_err
                && !probe_is_access)
            &&& (exists|j: int| 0 <= j < diags.len() && #[trigger] diags[j] is ArgCntMismatch) <==> (has_sig && nargs >= 2
                && (user_fn matches Some(f) && f.arg_types@.len() != nargs))
            &&& forall|j: int|
                0 <= j < diags.len() ==> (#[trigger] diags[j] matches LimitDiagnosticView::ArgCntMismatch { expected, found }
                    ==> found == nargs && (user_fn matches Some(f) && expected == f.arg_types@.len()))
        }),
{
    let diags = limit_diagnostics(has_sig, probe_is_err, probe_is_access, nargs, user_fn);
    let probe = if !probe_is_err && !probe_is_access { seq![LimitDiagnosticView::ExpectedProbe] } else { Seq::empty() };
    let tail: Seq<LimitDiagnosticView> = if !has_sig || nargs == 1 {
        Seq::empty()
    } else {
        match user_fn {
            Some(f) => if f.arg_types@.len() != nargs {
                seq![LimitDiagnosticView::ArgCntMismatch { expected: f.arg_types@.len() as usize, found: nargs }]
            } else {
                let outs = output_positions(f.arg_is_output@, f.arg_is_output@.len() as int);
                let inv = !real_like(f.return_ty) || !real_like(f.arg_types@[0]) || !real_like(f.arg_types@[1]) || outs.len() > 0;
                if inv {
                    seq![LimitDiagnosticView::InvalidLimitFunction {
                        invalid_arg0: !real_like(f.arg_types@[0]),
                        invalid_arg1: !real_like(f.arg_types@[1]),
                        invalid_ret: !real_like(f.return_ty),
                        output_args: outs,
                    }]
                } else {
                    Seq::empty()
                }
            },
            None => Seq::empty(),
        }
    };
    if has_sig {
        assert(diags =~= probe + tail);
        assert forall|j: int| 0 <= j < diags.len() implies (diags[j] is ExpectedProbe <==> j < probe.len()) by {
            if j >= probe.len() {
                assert(diags[j] == tail[j - probe.len()]);
            }
        }
        if !probe_is_err && !probe_is_access {
            assert(diags[0] is ExpectedProbe);
        }
        if tail.len() > 0 && tail[0] is ArgCntMismatch {
            assert(diags[probe.len() as int] == tail[0]);
        }
        assert forall|j: int| 0 <= j < diags.len() && #[trigger] diags[j] is ArgCntMismatch implies (tail.len() > 0
            && tail[0] is ArgCntMismatch && diags[j] == tail[0]) by {
            assert(j >= probe.len());
            assert(diags[j] == tail[j - probe.len()]);
        }
        assert((exists|j: int| 0 <= j < diags.len() && #[trigger] diags[j] is ExpectedProbe) <==> (!probe_is_err && !probe_is_access));
        assert((exists|j: int| 0 <= j < diags.len() && #[trigger] diags[j] is ArgCntMismatch) <==> (nargs >= 2
                && (user_fn matches Some(f) && f.arg_types@.len() != nargs)));
        assert forall|j: int|
            0 <= j < diags.len() implies (#[trigger] diags[j] matches LimitDiagnosticView::ArgCntMismatch { expected, found }
                ==> found == nargs && (user_fn matches Some(f) && expected == f.arg_types@.len())) by {
            if diags[j] is ArgCntMismatch {
                assert(tail[0] is ArgCntMismatch);
                if let Some(f) = user_fn {
                    assert(f.arg_types.len() == f.arg_types@.len());
                }
            }
        }
    } else {
        assert(diags.len() == 0);
    }
}

} // verus!
