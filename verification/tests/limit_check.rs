use openvaf::limit_check::{check_limit_call, LimitDiagnostic, LimitFunInfo, RestSignature, ValueType};

fn fun(arg_types: Vec<ValueType>, arg_is_output: Vec<bool>, return_ty: ValueType) -> LimitFunInfo {
    LimitFunInfo { arg_types, arg_is_output, return_ty }
}

#[test]
fn unresolved_call_is_not_checked() {
    let r = check_limit_call(false, false, false, 3, None, true);
    assert_eq!(r.diagnostics, vec![]);
    assert_eq!(r.rest, None);
}

#[test]
fn probe_is_required() {
    let r = check_limit_call(true, false, false, 1, None, false);
    assert_eq!(r.diagnostics, vec![LimitDiagnostic::ExpectedProbe]);
    let r = check_limit_call(true, true, false, 1, None, false);
    assert_eq!(r.diagnostics, vec![]);
}

#[test]
fn builtin_limit_takes_reals() {
    let r = check_limit_call(true, false, true, 4, None, true);
    assert_eq!(r.diagnostics, vec![]);
    assert_eq!(
        r.rest,
        Some(RestSignature { args: vec![ValueType::Real, ValueType::Real], return_ty: ValueType::Real, user_function: false })
    );
}

#[test]
fn user_function_argument_count() {
    let f = fun(vec![ValueType::Real, ValueType::Real], vec![false, false], ValueType::Real);
    let r = check_limit_call(true, false, false, 3, Some(f), false);
    assert_eq!(r.diagnostics, vec![LimitDiagnostic::ExpectedProbe, LimitDiagnostic::ArgCntMismatch { expected: 2, found: 3 }]);
    assert_eq!(r.rest, None);
}

#[test]
fn invalid_user_function() {
    let f = fun(
        vec![ValueType::Other(1), ValueType::Error, ValueType::Other(2)],
        vec![false, true, true],
        ValueType::Other(1),
    );
    let r = check_limit_call(true, false, true, 3, Some(f), false);
    assert_eq!(
        r.diagnostics,
        vec![LimitDiagnostic::InvalidLimitFunction {
            invalid_arg0: true,
            invalid_arg1: false,
            invalid_ret: true,
            output_args: vec![1, 2],
        }]
    );
    assert_eq!(
        r.rest,
        Some(RestSignature { args: vec![ValueType::Other(2)], return_ty: ValueType::Other(1), user_function: true })
    );
}
