//! The checks of a call of a built-in function in a body: whether the context allows it,
//! whether the nature accessed by `V(..)` and `I(..)` exists for the discipline, whether a
//! port is given where one is needed, and which arguments must be constant.
//!
//! The call is described by plain values: what class of built-in it is, the form its
//! signature takes with the nets, branches and disciplines it refers to, and the literal
//! name given to `$simparam`.
use vstd::prelude::*;

use crate::validation::BodyContext;

verus! {

/// Which natures a discipline defines.
#[derive(Clone, Copy, Debug, PartialEq, Eq)]
pub struct Natures {
    pub has_potential: bool,
    pub has_flow: bool,
}

/// The terminals of a branch declaration.
#[derive(Clone, Copy, Debug, PartialEq, Eq)]
pub enum BranchShape {
    /// The flow through a port, `(<port>)`.
    PortFlow,
    /// A net and ground.
    NodeGnd(u32),
    /// Two nets.
    Nodes(u32, u32),
}

/// The built-in functions whose arguments the checks look at.
#[derive(Clone, Copy, Debug, PartialEq, Eq)]
pub enum BuiltinKind {
    Potential,
    Flow,
    PortConnected,
    NoiseTable,
    Simparam,
    SimparamStr,
    Other,
}

/// The form of the call by its signature, with what the checks read of its arguments.
#[derive(Clone, Copy, Debug, PartialEq, Eq)]
pub enum CallForm {
    /// An access between two nets, with the discipline of the first when the two are
    /// compatible.
    Nodes { hi: u32, lo: u32, pair: Option<Natures> },
    /// An access of a net against ground, with the net's discipline.
    NodeGnd { node: u32, discipline: Option<Natures> },
    /// An access of the flow through a port: the net, whether it is a port, and its
    /// discipline.
    PortFlow { node: u32, is_port: bool, discipline: Option<Natures> },
    /// An access of a named branch: its number, and its terminals and discipline when
    /// known.
    Branch { branch: u32, info: Option<(BranchShape, Natures)> },
    /// A net argument (`$port_connected`): the net and whether it is a port.
    Node { node: u32, is_port: bool },
    /// A noise table given inline: its first argument must be constant.
    InlineTable,
    /// A signature whose last argument must be constant (the maximal delay of
    /// `absdelay`, the tolerance of `transition`, `ddt`, `idt` and `idtmod`).
    ConstLast,
    /// Any other signature.
    Plain,
}

/// A call of a built-in function as the checks see it.
#[derive(Clone, Debug)]
pub struct BuiltinCall {
    pub kind: BuiltinKind,
    /// The function is not supported.
    pub unsupported: bool,
    /// The function is an analog operator (other than `ddx`) or an analog operator system
    /// function; the flag tells whether it is a standard analog operator.
    pub analog_operator: Option<bool>,
    /// The function is an analysis function.
    pub analysis_fun: bool,
    pub form: CallForm,
    /// The call is the target of a contribution.
    pub is_write: bool,
    /// The number of arguments.
    pub nargs: usize,
    /// The first argument, when it is a string literal.
    pub literal: Option<Vec<char>>,
}

/// What a context refuses.
#[derive(Clone, Copy, Debug, PartialEq, Eq)]
pub enum IllegalAccess {
    NatureAccess,
    AnalogOperator { is_standard: bool },
    AnalysisFun,
}

/// A problem found with a call.
#[derive(Clone, Copy, Debug, PartialEq, Eq)]
pub enum BuiltinDiagnostic {
    UnsupportedFunction,
    IllegalCtxtAccess { kind: IllegalAccess, ctxt: BodyContext },
    IncompatibleUnnamedBranch { node1: u32, node2: u32 },
    IllegalNatureAccess { is_pot: bool },
    ExpectedPort { node: u32 },
    PotentialOfPortFlow { branch: Option<u32> },
    ConstSimparam { known: bool },
}

/// The outcome of the checks of a call: the diagnostics in order; whether the call was
/// recorded as an access that the context decides on; the unnamed branch probed or written
/// (its larger net first, the smaller or ground after); the argument to check as a
/// constant expression, before the others; and how many leading arguments are checked
/// after that.
#[derive(Clone, Debug)]
pub struct BuiltinCheck {
    pub diagnostics: Vec<BuiltinDiagnostic>,
    pub accessed: bool,
    pub lint: Option<(u32, Option<u32>)>,
    pub const_arg: Option<usize>,
    pub checked_args: usize,
}

/// The outcome with its list as a sequence.
pub struct BuiltinCheckView {
    pub diagnostics: Seq<BuiltinDiagnostic>,
    pub accessed: bool,
    pub lint: Option<(u32, Option<u32>)>,
    pub const_arg: Option<usize>,
    pub checked_args: usize,
}

/// The outcome `r` with its list as a sequence.
pub open spec fn check_view(r: BuiltinCheck) -> BuiltinCheckView {
    BuiltinCheckView {
        diagnostics: r.diagnostics@,
        accessed: r.accessed,
        lint: r.lint,
        const_arg: r.const_arg,
        checked_args: r.checked_args,
    }
}

/// The names that `$simparam` (or `$simparam_str`, when `is_str`) knows.
pub open spec fn known_simparam(is_str: bool, name: Seq<char>) -> bool {
    if is_str {
        name == seq!['c', 'w', 'd'] || name == seq!['m', 'o', 'd', 'u', 'l', 'e'] || name == seq!['i', 'n', 's', 't', 'a', 'n', 'c', 'e'] || name == seq!['p', 'a', 't', 'h']
    } else {
        name == seq!['m', 'i', 'n', 'r'] || name == seq!['r', 't', 'h', 'r', 'e', 's', 'h'] || name == seq!['i', 'm', 'a', 'x'] || name == seq!['i', 'm', 'e', 'l', 't'] || name == seq!['s', 'c', 'a', 'l', 'e'] || name == seq!['s', 'h', 'r', 'i', 'n', 'k'] || name == seq!['s', 'i', 'm', 'u', 'l', 'a', 't', 'o', 'r', 'S', 'u', 'b', 'v', 'e', 'r', 's', 'i', 'o', 'n'] || name == seq!['s', 'i', 'm', 'u', 'l', 'a', 't', 'o', 'r', 'V', 'e', 'r', 's', 'i', 'o', 'n'] || name == seq!['t', 'n', 'o', 'm']
    }
}

/// The diagnostics of the context check, and whether the call is an access the context
/// decides on.
pub open spec fn context_check(call: BuiltinCall, ctxt: BodyContext) -> (Seq<BuiltinDiagnostic>, bool) {
    let refuse = |k: IllegalAccess| seq![BuiltinDiagnostic::IllegalCtxtAccess { kind: k, ctxt }];
    if call.unsupported {
        (seq![BuiltinDiagnostic::UnsupportedFunction], false)
    } else if call.kind is Potential || call.kind is Flow {
        (if ctxt is AnalogBlock || ctxt is Conditional || ctxt is EventControl { Seq::empty() } else { refuse(IllegalAccess::NatureAccess) }, true)
    } else if call.analog_operator is Some {
        (if ctxt is AnalogBlock {
            Seq::empty()
        } else {
            refuse(IllegalAccess::AnalogOperator { is_standard: call.analog_operator->0 })
        }, true)
    } else if call.analysis_fun {
        (if !(ctxt is Const) { Seq::empty() } else { refuse(IllegalAccess::AnalysisFun) }, true)
    } else {
        (Seq::empty(), false)
    }
}

/// The diagnostic of accessing the potential (when `is_pot`) or the flow of a discipline
/// that lacks that nature.
pub open spec fn nature_check(is_pot: bool, d: Natures) -> Seq<BuiltinDiagnostic> {
    if (!d.has_potential && is_pot) || (!d.has_flow && !is_pot) {
        seq![BuiltinDiagnostic::IllegalNatureAccess { is_pot }]
    } else {
        Seq::empty()
    }
}

/// The unnamed branch between nets `a` and `b`, the larger first.
pub open spec fn ordered(a: u32, b: u32) -> (u32, Option<u32>) {
    if a >= b {
        (a, Some(b))
    } else {
        (b, Some(a))
    }
}

/// The diagnostics and probed branch of the arguments of an access.
pub open spec fn access_check(call: BuiltinCall) -> (Seq<BuiltinDiagnostic>, Option<(u32, Option<u32>)>) {
    let is_pot = call.kind is Potential;
    match call.form {
        CallForm::Nodes { hi, lo, pair } => (
            match pair {
                Some(d) => nature_check(is_pot, d),
                None => seq![BuiltinDiagnostic::IncompatibleUnnamedBranch { node1: hi, node2: lo }],
            },
            Some(ordered(hi, lo)),
        ),
        CallForm::NodeGnd { node, discipline } => match discipline {
            Some(d) => (nature_check(is_pot, d), Some((node, None))),
            None => (Seq::empty(), None),
        },
        CallForm::PortFlow { node, is_port, discipline } => if is_pot {
            (seq![BuiltinDiagnostic::PotentialOfPortFlow { branch: None }], None)
        } else {
            ((if is_port { Seq::empty() } else { seq![BuiltinDiagnostic::ExpectedPort { node }] }) + match discipline {
                Some(d) => nature_check(false, d),
                None => Seq::empty(),
            }, None)
        },
        CallForm::Branch { branch, info } => match info {
            None => (Seq::empty(), None),
            Some((BranchShape::PortFlow, d)) => if is_pot {
                (seq![BuiltinDiagnostic::PotentialOfPortFlow { branch: Some(branch) }], None)
            } else if !call.is_write {
                (nature_check(false, d), None)
            } else {
                (Seq::empty(), None)
            },
            Some((BranchShape::NodeGnd(node), d)) => (nature_check(is_pot, d), Some((node, None))),
            Some((BranchShape::Nodes(hi, lo), d)) => (nature_check(is_pot, d), Some(ordered(hi, lo))),
        },
        _ => (Seq::empty(), None),
    }
}

/// What the checks of a call of a built-in function in context `ctxt` give.
pub open spec fn builtin_check(call: BuiltinCall, ctxt: BodyContext) -> BuiltinCheckView {
    let (cd, accessed) = context_check(call, ctxt);
    let n = call.nargs;
    if call.kind is Potential || call.kind is Flow {
        let (ad, lint) = access_check(call);
        BuiltinCheckView { diagnostics: cd + ad, accessed, lint, const_arg: None, checked_args: n }
    } else if call.kind is PortConnected {
        let ad = match call.form {
            CallForm::Node { node, is_port } => if is_port { Seq::empty() } else { seq![BuiltinDiagnostic::ExpectedPort { node }] },
            _ => Seq::empty(),
        };
        BuiltinCheckView { diagnostics: cd + ad, accessed, lint: None, const_arg: None, checked_args: n }
    } else if call.kind is NoiseTable && call.form is InlineTable {
        BuiltinCheckView { diagnostics: cd, accessed, lint: None, const_arg: Some(0), checked_args: n }
    } else if call.kind is Simparam || call.kind is SimparamStr {
        let ad = if ctxt is Const {
            seq![BuiltinDiagnostic::ConstSimparam {
                known: match call.literal {
                    Some(name) => known_simparam(call.kind is SimparamStr, name@),
                    None => false,
                },
            }]
        } else {
            Seq::empty()
        };
        BuiltinCheckView { diagnostics: cd + ad, accessed, lint: None, const_arg: None, checked_args: n }
    } else if call.form is ConstLast && n > 0 {
        BuiltinCheckView { diagnostics: cd, accessed, lint: None, const_arg: Some((n - 1) as usize), checked_args: (n - 1) as usize }
    } else {
        BuiltinCheckView { diagnostics: cd, accessed, lint: None, const_arg: None, checked_args: n }
    }
}

/// The two character lists are equal.
fn chars_eq(a: &Vec<char>, b: &Vec<char>) -> (r: bool)
    ensures
        r == (a@ == b@),
{
    if a.len() != b.len() {
        return false;
    }
    let mut i: usize = 0;
    while i < a.len()
        invariant
            a@.len() == b@.len(),
            i <= a@.len(),
            forall|j: int| 0 <= j < i ==> a@[j] == b@[j],
        decreases a@.len() - i,
    {
        if a[i] != b[i] {
            return false;
        }
        i += 1;
    }
    proof {
        assert(a@ =~= b@);
    }
    true
}

/// Does `$simparam` (or `$simparam_str`, when `is_str`) know the name?
fn is_known_simparam(is_str: bool, name: &Vec<char>) -> (r: bool)
    ensures
        r == known_simparam(is_str, name@),
{
    if is_str {
        if chars_eq(name, &vec!['c', 'w', 'd']) {
            return true;
        }
        if chars_eq(name, &vec!['m', 'o', 'd', 'u', 'l', 'e']) {
            return true;
        }
        if chars_eq(name, &vec!['i', 'n', 's', 't', 'a', 'n', 'c', 'e']) {
            return true;
        }
        if chars_eq(name, &vec!['p', 'a', 't', 'h']) {
            return true;
        }
        false
    } else {
        if chars_eq(name, &vec!['m', 'i', 'n', 'r']) {
            return true;
        }
        if chars_eq(name, &vec!['r', 't', 'h', 'r', 'e', 's', 'h']) {
            return true;
        }
        if chars_eq(name, &vec!['i', 'm', 'a', 'x']) {
            return true;
        }
        if chars_eq(name, &vec!['i', 'm', 'e', 'l', 't']) {
            return true;
        }
        if chars_eq(name, &vec!['s', 'c', 'a', 'l', 'e']) {
            return true;
        }
        if chars_eq(name, &vec!['s', 'h', 'r', 'i', 'n', 'k']) {
            return true;
        }
        if chars_eq(name, &vec!['s', 'i', 'm', 'u', 'l', 'a', 't', 'o', 'r', 'S', 'u', 'b', 'v', 'e', 'r', 's', 'i', 'o', 'n']) {
            return true;
        }
        if chars_eq(name, &vec!['s', 'i', 'm', 'u', 'l', 'a', 't', 'o', 'r', 'V', 'e', 'r', 's', 'i', 'o', 'n']) {
            return true;
        }
        if chars_eq(name, &vec!['t', 'n', 'o', 'm']) {
            return true;
        }
        false
    }
}

/// The diagnostic of accessing the potential (when `is_pot`) or the flow of a discipline
/// that lacks that nature, added to `out`.
fn check_nature(is_pot: bool, d: Natures, out: &mut Vec<BuiltinDiagnostic>)
    ensures
        final(out)@ == old(out)@ + nature_check(is_pot, d),
{
    if (!d.has_potential && is_pot) || (!d.has_flow && !is_pot) {
        out.push(BuiltinDiagnostic::IllegalNatureAccess { is_pot });
    }
}

/// The unnamed branch between nets `a` and `b`, the larger first.
fn ordered_branch(a: u32, b: u32) -> (r: (u32, Option<u32>))
    ensures
        r == ordered(a, b),
{
    if a >= b {
        (a, Some(b))
    } else {
        (b, Some(a))
    }
}

/// Check a call of a built-in function in a body of context `ctxt` (see
/// [`builtin_check`]):
/// - an unsupported function is reported; an access (`V`, `I`), an analog operator or an
///   analysis function is recorded and reported where the context refuses it;
/// - an access checks that the discipline has the nature accessed, that the nets of an
///   unnamed branch are compatible, that the flow through a port is taken of a port and
///   that no potential is taken of a port flow, and names the unnamed branch it probes;
/// - `$port_connected` needs a port; `$simparam` is reported in a constant context, telling
///   whether it knows the name;
/// - an inline noise table has its first argument checked as a constant, and the operators
///   with a constant last argument have that argument checked as a constant instead of
///   with the others.
pub fn validate_builtin_call(call: &BuiltinCall, ctxt: BodyContext) -> (r: BuiltinCheck)
    ensures
        check_view(r) == builtin_check(*call, ctxt),
{
    let mut diagnostics: Vec<BuiltinDiagnostic> = Vec::new();
    let mut accessed = false;
    let is_access = match call.kind {
        BuiltinKind::Potential | BuiltinKind::Flow => true,
        _ => false,
    };
    if call.unsupported {
        diagnostics.push(BuiltinDiagnostic::UnsupportedFunction);
    } else if is_access {
        accessed = true;
        if !ctxt.nature_access_allowed() {
            diagnostics.push(BuiltinDiagnostic::IllegalCtxtAccess { kind: IllegalAccess::NatureAccess, ctxt });
        }
    } else if let Some(is_standard) = call.analog_operator {
        accessed = true;
        if !ctxt.analog_operator_allowed() {
            diagnostics.push(BuiltinDiagnostic::IllegalCtxtAccess { kind: IllegalAccess::AnalogOperator { is_standard }, ctxt });
        }
    } else if call.analysis_fun {
        accessed = true;
        if !ctxt.analysis_fun_allowed() {
            diagnostics.push(BuiltinDiagnostic::IllegalCtxtAccess { kind: IllegalAccess::AnalysisFun, ctxt });
        }
    }
    let ghost cd = diagnostics@;
    proof {
        assert(cd =~= context_check(*call, ctxt).0);
    }
    let n = call.nargs;
    let mut lint: Option<(u32, Option<u32>)> = None;
    let mut const_arg: Option<usize> = None;
    let mut checked_args = n;
    if is_access {
        let is_pot = match call.kind {
            BuiltinKind::Potential => true,
            _ => false,
        };
        match call.form {
            CallForm::Nodes { hi, lo, pair } => {
                lint = Some(ordered_branch(hi, lo));
                match pair {
                    Some(d) => check_nature(is_pot, d, &mut diagnostics),
                    None => diagnostics.push(BuiltinDiagnostic::IncompatibleUnnamedBranch { node1: hi, node2: lo }),
                }
            },
            CallForm::NodeGnd { node, discipline } => {
                if let Some(d) = discipline {
                    lint = Some((node, None));
                    check_nature(is_pot, d, &mut diagnostics);
                }
            },
            CallForm::PortFlow { node, is_port, discipline } => {
                if is_pot {
                    diagnostics.push(BuiltinDiagnostic::PotentialOfPortFlow { branch: None });
                } else {
                    if !is_port {
                        diagnostics.push(BuiltinDiagnostic::ExpectedPort { node });
                    }
                    if let Some(d) = discipline {
                        check_nature(false, d, &mut diagnostics);
                    }
                }
            },
            CallForm::Branch { branch, info } => {
                match info {
                    None => {},
                    Some((BranchShape::PortFlow, d)) => {
                        if is_pot {
                            diagnostics.push(BuiltinDiagnostic::PotentialOfPortFlow { branch: Some(branch) });
                        } else if !call.is_write {
                            check_nature(false, d, &mut diagnostics);
                        }
                    },
                    Some((BranchShape::NodeGnd(node), d)) => {
                        lint = Some((node, None));
                        check_nature(is_pot, d, &mut diagnostics);
                    },
                    Some((BranchShape::Nodes(hi, lo), d)) => {
                        lint = Some(ordered_branch(hi, lo));
                        check_nature(is_pot, d, &mut diagnostics);
                    },
                }
            },
            _ => {},
        }
        proof {
            let (ad, l) = access_check(*call);
            assert(diagnostics@ =~= cd + ad);
        }
    } else {
        let is_inline_table = match (call.kind, call.form) {
            (BuiltinKind::NoiseTable, CallForm::InlineTable) => true,
            _ => false,
        };
        match call.kind {
            BuiltinKind::PortConnected => {
                if let CallForm::Node { node, is_port } = call.form {
                    if !is_port {
                        diagnostics.push(BuiltinDiagnostic::ExpectedPort { node });
                    }
                }
            },
            BuiltinKind::Simparam | BuiltinKind::SimparamStr => {
                if let BodyContext::Const = ctxt {
                    let is_str = match call.kind {
                        BuiltinKind::SimparamStr => true,
                        _ => false,
                    };
                    let known = match &call.literal {
                        Some(name) => is_known_simparam(is_str, name),
                        None => false,
                    };
                    diagnostics.push(BuiltinDiagnostic::ConstSimparam { known });
                }
            },
            _ => {
                if is_inline_table {
                    const_arg = Some(0);
                } else if let CallForm::ConstLast = call.form {
                    if n > 0 {
                        const_arg = Some(n - 1);
                        checked_args = n - 1;
                    }
                }
            },
        }
        proof {
            assert(diagnostics@ =~= builtin_check(*call, ctxt).diagnostics);
        }
    }
    BuiltinCheck { diagnostics, accessed, lint, const_arg, checked_args }
}

} // verus!
