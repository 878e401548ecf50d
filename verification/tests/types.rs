use openvaf::overload::resolve_overload;
use openvaf::types::{overload_tables, SignatureData, Ty, TyRequirement, Type, TypeKind, TypeRules, BOOL, INTEGER, REAL};

/// real, integer, bool, a string type (3), an empty array (4) and a real array (5).
fn rules() -> TypeRules {
    let n = 6;
    let mut convertible = vec![vec![false; n]; n];
    let mut semantic = vec![vec![false; n]; n];
    for t in 0..n {
        convertible[t][t] = true;
        semantic[t][t] = true;
    }
    // integers and booleans convert to reals and to each other
    convertible[1][0] = true;
    convertible[2][0] = true;
    convertible[1][2] = true;
    convertible[2][1] = true;
    semantic[1][2] = true;
    semantic[2][1] = true;
    TypeRules {
        kinds: vec![
            TypeKind::Real,
            TypeKind::Integer,
            TypeKind::Bool,
            TypeKind::Other,
            TypeKind::EmptyArray,
            TypeKind::Array { len: 3, elem: Type(REAL) },
        ],
        convertible,
        semantic,
        condition: vec![true, true, true, false, false, false],
    }
}

#[test]
fn satisfaction_of_requirements() {
    let r = rules();
    let int = Ty::Val(Type(INTEGER));
    assert!(int.satisfies_with_conversion(&TyRequirement::Val(Type(REAL)), &r));
    assert!(!int.satisfies_semantic(&TyRequirement::Val(Type(REAL)), &r));
    assert!(int.satisfies_semantic(&TyRequirement::Val(Type(BOOL)), &r));
    assert!(!int.satisfies_exact(&TyRequirement::Val(Type(BOOL)), &r));
    assert!(Ty::InfLiteral.satisfies_exact(&TyRequirement::Val(Type(REAL)), &r));
    assert!(!Ty::InfLiteral.satisfies_with_conversion(&TyRequirement::Val(Type(INTEGER)), &r));
    assert!(Ty::Val(Type(4)).satisfies_exact(&TyRequirement::ArrayAnyLength { ty: Type(INTEGER) }, &r));
    assert!(Ty::Val(Type(5)).satisfies_exact(&TyRequirement::ArrayAnyLength { ty: Type(REAL) }, &r));
    assert!(!Ty::Val(Type(3)).satisfies_with_conversion(&TyRequirement::Condition, &r));
    assert!(Ty::Var(Type(REAL), 7).satisfies_exact(&TyRequirement::Var(Type(REAL)), &r));
    assert!(!Ty::Val(Type(REAL)).satisfies_with_conversion(&TyRequirement::Var(Type(REAL)), &r));
    assert!(Ty::Node(1).satisfies_exact(&TyRequirement::Node, &r));
    assert!(Ty::Param(Type(REAL), 2).satisfies_exact(&TyRequirement::AnyParam, &r));
    assert!(!Ty::Node(1).satisfies_exact(&TyRequirement::AnyVal, &r));
}

#[test]
fn casts_and_values() {
    assert_eq!(TyRequirement::Val(Type(REAL)).cast(&Type(INTEGER)), Some(Type(REAL)));
    assert_eq!(TyRequirement::Val(Type(REAL)).cast(&Type(REAL)), None);
    assert_eq!(TyRequirement::Condition.cast(&Type(INTEGER)), Some(Type(BOOL)));
    assert_eq!(TyRequirement::AnyVal.cast(&Type(INTEGER)), None);
    assert_eq!(Ty::InfLiteral.to_value(), Some(Type(REAL)));
    assert_eq!(Ty::Node(3).to_value(), None);
    assert_eq!(Ty::Node(3).unwrap_node(), 3);
}

#[test]
fn tables_feed_overload_resolution() {
    let r = rules();
    // f(real) -> real and f(integer) -> integer, called with an integer literal
    let sigs = vec![
        SignatureData { args: vec![TyRequirement::Val(Type(REAL))], return_ty: Type(REAL) },
        SignatureData { args: vec![TyRequirement::Val(Type(INTEGER))], return_ty: Type(INTEGER) },
    ];
    let args = vec![Some(Ty::Literal(Type(INTEGER)))];
    let t = overload_tables(&r, &args, &sigs);
    assert_eq!(t.known, vec![true]);
    assert_eq!(t.reqs, vec![vec![9], vec![9 + 16]]);
    assert_eq!(t.conv, vec![vec![true], vec![true]]);
    assert_eq!(t.sem, vec![vec![false], vec![true]]);
    assert_eq!(t.casts, vec![vec![Some(REAL)], vec![None]]);
    let res = resolve_overload(&t.known, &t.reqs, &t.conv, &t.sem, &t.exact, &t.casts, &t.sig_returns);
    assert_eq!(res.chosen, Some(1));
    assert_eq!(res.return_ty, Some(INTEGER));
    assert!(res.casts.is_empty());
}
