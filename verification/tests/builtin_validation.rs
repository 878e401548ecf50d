use openvaf::builtin_validation::{
    validate_builtin_call, BranchShape, BuiltinCall, BuiltinDiagnostic, BuiltinKind, CallForm, IllegalAccess, Natures,
};
use openvaf::validation::BodyContext;

const ELECTRICAL: Natures = Natures { has_potential: true, has_flow: true };
const POTENTIAL_ONLY: Natures = Natures { has_potential: true, has_flow: false };

fn call(kind: BuiltinKind, form: CallForm, nargs: usize) -> BuiltinCall {
    BuiltinCall {
        kind,
        unsupported: false,
        analog_operator: None,
        analysis_fun: false,
        form,
        is_write: false,
        nargs,
        literal: None,
    }
}

#[test]
fn unsupported_functions_are_reported() {
    let mut c = call(BuiltinKind::Other, CallForm::Plain, 1);
    c.unsupported = true;
    let r = validate_builtin_call(&c, BodyContext::AnalogBlock);
    assert_eq!(r.diagnostics, vec![BuiltinDiagnostic::UnsupportedFunction]);
    assert!(!r.accessed);
    assert_eq!(r.checked_args, 1);
}

#[test]
fn access_outside_the_analog_block() {
    let c = call(BuiltinKind::Potential, CallForm::Nodes { hi: 2, lo: 5, pair: Some(ELECTRICAL) }, 2);
    let r = validate_builtin_call(&c, BodyContext::Function);
    assert_eq!(
        r.diagnostics,
        vec![BuiltinDiagnostic::IllegalCtxtAccess { kind: IllegalAccess::NatureAccess, ctxt: BodyContext::Function }]
    );
    assert!(r.accessed);
    assert_eq!(r.lint, Some((5, Some(2))));
    let r = validate_builtin_call(&c, BodyContext::AnalogBlock);
    assert_eq!(r.diagnostics, vec![]);
}

#[test]
fn incompatible_nets_and_missing_natures() {
    let c = call(BuiltinKind::Flow, CallForm::Nodes { hi: 7, lo: 3, pair: None }, 2);
    let r = validate_builtin_call(&c, BodyContext::AnalogBlock);
    assert_eq!(r.diagnostics, vec![BuiltinDiagnostic::IncompatibleUnnamedBranch { node1: 7, node2: 3 }]);
    assert_eq!(r.lint, Some((7, Some(3))));
    let c = call(BuiltinKind::Flow, CallForm::NodeGnd { node: 4, discipline: Some(POTENTIAL_ONLY) }, 1);
    let r = validate_builtin_call(&c, BodyContext::AnalogBlock);
    assert_eq!(r.diagnostics, vec![BuiltinDiagnostic::IllegalNatureAccess { is_pot: false }]);
    assert_eq!(r.lint, Some((4, None)));
    let c = call(BuiltinKind::Flow, CallForm::NodeGnd { node: 4, discipline: None }, 1);
    let r = validate_builtin_call(&c, BodyContext::AnalogBlock);
    assert_eq!(r.lint, None);
}

#[test]
fn port_flows() {
    let c = call(BuiltinKind::Flow, CallForm::PortFlow { node: 1, is_port: false, discipline: Some(POTENTIAL_ONLY) }, 1);
    let r = validate_builtin_call(&c, BodyContext::AnalogBlock);
    assert_eq!(
        r.diagnostics,
        vec![BuiltinDiagnostic::ExpectedPort { node: 1 }, BuiltinDiagnostic::IllegalNatureAccess { is_pot: false }]
    );
    let c = call(BuiltinKind::Potential, CallForm::PortFlow { node: 1, is_port: true, discipline: Some(ELECTRICAL) }, 1);
    let r = validate_builtin_call(&c, BodyContext::AnalogBlock);
    assert_eq!(r.diagnostics, vec![BuiltinDiagnostic::PotentialOfPortFlow { branch: None }]);
    let c = call(BuiltinKind::Potential, CallForm::Branch { branch: 9, info: Some((BranchShape::PortFlow, ELECTRICAL)) }, 1);
    let r = validate_builtin_call(&c, BodyContext::AnalogBlock);
    assert_eq!(r.diagnostics, vec![BuiltinDiagnostic::PotentialOfPortFlow { branch: Some(9) }]);
    let c = call(BuiltinKind::Potential, CallForm::Branch { branch: 9, info: Some((BranchShape::Nodes(1, 6), ELECTRICAL)) }, 1);
    let r = validate_builtin_call(&c, BodyContext::AnalogBlock);
    assert_eq!(r.lint, Some((6, Some(1))));
}

#[test]
fn port_connected_needs_a_port() {
    let c = call(BuiltinKind::PortConnected, CallForm::Node { node: 3, is_port: false }, 1);
    let r = validate_builtin_call(&c, BodyContext::AnalogBlock);
    assert_eq!(r.diagnostics, vec![BuiltinDiagnostic::ExpectedPort { node: 3 }]);
}

#[test]
fn simparam_in_constant_context() {
    let mut c = call(BuiltinKind::Simparam, CallForm::Plain, 1);
    c.literal = Some("tnom".chars().collect());
    let r = validate_builtin_call(&c, BodyContext::Const);
    assert_eq!(r.diagnostics, vec![BuiltinDiagnostic::ConstSimparam { known: true }]);
    c.literal = Some("cwd".chars().collect());
    let r = validate_builtin_call(&c, BodyContext::Const);
    assert_eq!(r.diagnostics, vec![BuiltinDiagnostic::ConstSimparam { known: false }]);
    c.kind = BuiltinKind::SimparamStr;
    let r = validate_builtin_call(&c, BodyContext::Const);
    assert_eq!(r.diagnostics, vec![BuiltinDiagnostic::ConstSimparam { known: true }]);
    let r = validate_builtin_call(&c, BodyContext::AnalogBlock);
    assert_eq!(r.diagnostics, vec![]);
}

#[test]
fn constant_arguments() {
    let mut c = call(BuiltinKind::Other, CallForm::ConstLast, 3);
    c.analog_operator = Some(true);
    let r = validate_builtin_call(&c, BodyContext::Function);
    assert_eq!(
        r.diagnostics,
        vec![BuiltinDiagnostic::IllegalCtxtAccess {
            kind: IllegalAccess::AnalogOperator { is_standard: true },
            ctxt: BodyContext::Function
        }]
    );
    assert_eq!(r.const_arg, Some(2));
    assert_eq!(r.checked_args, 2);
    let c = call(BuiltinKind::NoiseTable, CallForm::InlineTable, 2);
    let r = validate_builtin_call(&c, BodyContext::AnalogBlock);
    assert_eq!(r.const_arg, Some(0));
    assert_eq!(r.checked_args, 2);
    let mut c = call(BuiltinKind::Other, CallForm::Plain, 0);
    c.analysis_fun = true;
    let r = validate_builtin_call(&c, BodyContext::Const);
    assert_eq!(
        r.diagnostics,
        vec![BuiltinDiagnostic::IllegalCtxtAccess { kind: IllegalAccess::AnalysisFun, ctxt: BodyContext::Const }]
    );
}
