//! The types that inference gives expressions, the requirements that calls and operators
//! make of their arguments, and how a type meets a requirement: with conversion,
//! semantically, or exactly.
//!
//! Value types are numbered in a table of type rules, which says of each what it is (the
//! real, integer and boolean types have fixed numbers) and which types convert into each
//! other, are semantically equal, and can stand as a condition.
use vstd::prelude::*;

use crate::overload::tables_fit;

verus! {

/// A value type, by its number in the type rules.
#[derive(Clone, Copy, Debug, PartialEq, Eq, Structural)]
pub struct Type(pub u32);

/// The number of the real type.
pub const REAL: u32 = 0;

/// The number of the integer type.
pub const INTEGER: u32 = 1;

/// The number of the boolean type.
pub const BOOL: u32 = 2;

/// What a value type is, as far as the rules single it out.
#[derive(Clone, Copy, Debug, PartialEq, Eq, Structural)]
pub enum TypeKind {
    Real,
    Integer,
    Bool,
    /// The array literal without elements.
    EmptyArray,
    Array { len: u32, elem: Type },
    Other,
}

/// The rules of the value types: the kind of each, and for each pair whether the first
/// converts to the second and whether they are semantically equal, and for each whether it
/// can stand as a condition.
pub struct TypeRules {
    pub kinds: Vec<TypeKind>,
    pub convertible: Vec<Vec<bool>>,
    pub semantic: Vec<Vec<bool>>,
    pub condition: Vec<bool>,
}

impl TypeRules {
    /// The tables cover the same types, the fixed numbers have their kinds, and array
    /// elements are types of the table.
    pub open spec fn wf(&self) -> bool {
        let n = self.kinds@.len();
        &&& n >= 3
        &&& self.kinds@[0] == TypeKind::Real
        &&& self.kinds@[1] == TypeKind::Integer
        &&& self.kinds@[2] == TypeKind::Bool
        &&& self.convertible@.len() == n
        &&& self.semantic@.len() == n
        &&& self.condition@.len() == n
        &&& forall|t: int| 0 <= t < n ==> (#[trigger] self.convertible@[t])@.len() == n && self.semantic@[t]@.len() == n
        &&& forall|t: int| 0 <= t < n ==> (#[trigger] self.kinds@[t] matches TypeKind::Array { elem, .. } ==> elem.0 < n)
    }

    /// `t` is a type of the table.
    pub open spec fn has(&self, t: Type) -> bool {
        t.0 < self.kinds@.len()
    }
}

/// The type of an expression as inference sees it; items by their numbers.
#[derive(Clone, Copy, Debug, PartialEq, Eq, Structural)]
pub enum Ty {
    Nature(u32),
    NatureAttr(Type, u32),
    Discipline(u32),
    Node(u32),
    Branch(u32),
    PortFlow(u32),
    Val(Type),
    Literal(Type),
    InfLiteral,
    Param(Type, u32),
    Var(Type, u32),
    FunctionVar { ty: Type, fun: u32, arg: Option<u32> },
    UserFunction(u32),
    BuiltInFunction,
    Scope,
}

/// What a call or an operator requires of an argument.
#[derive(Clone, Copy, Debug, PartialEq, Eq, Structural)]
pub enum TyRequirement {
    Nature,
    Node,
    Branch,
    PortFlow,
    Function,
    Literal(Type),
    Val(Type),
    Var(Type),
    Param(Type),
    ArrayAnyLength { ty: Type },
    /// Any value.
    AnyVal,
    /// Any parameter reference.
    AnyParam,
    /// A value that can stand as a condition.
    Condition,
}

/// How closely a type must match a required one.
#[derive(Clone, Copy, Debug, PartialEq, Eq, Structural)]
pub enum TyEquivalence {
    Conversion,
    Semantic,
    Exact,
}

/// The value type that `ty` carries, if it is a value.
pub open spec fn spec_value_type(ty: Ty) -> Option<Type> {
    match ty {
        Ty::NatureAttr(t, _) | Ty::Val(t) | Ty::Literal(t) | Ty::Param(t, _) | Ty::Var(t, _) => Some(t),
        Ty::FunctionVar { ty: t, .. } => Some(t),
        Ty::InfLiteral => Some(Type(REAL)),
        _ => None,
    }
}

/// The value types `ty` mentions are types of the rules.
pub open spec fn ty_in(rules: &TypeRules, ty: Ty) -> bool {
    spec_value_type(ty) matches Some(t) ==> rules.has(t)
}

/// The value type `req` mentions, if any, is a type of the rules.
pub open spec fn req_in(rules: &TypeRules, req: TyRequirement) -> bool {
    match req {
        TyRequirement::Literal(t) | TyRequirement::Val(t) | TyRequirement::Var(t) | TyRequirement::Param(t) => rules.has(t),
        TyRequirement::ArrayAnyLength { ty } => rules.has(ty),
        _ => true,
    }
}

/// Type `t1` matches `t2` under `equiv`.
pub open spec fn compare_ty(rules: &TypeRules, equiv: TyEquivalence, t1: Type, t2: Type) -> bool {
    match equiv {
        TyEquivalence::Conversion => rules.convertible@[t1.0 as int]@[t2.0 as int],
        TyEquivalence::Semantic => rules.semantic@[t1.0 as int]@[t2.0 as int],
        TyEquivalence::Exact => t1 == t2,
    }
}

/// `k` is an array type of length 0.
pub open spec fn is_zero_len_array(k: TypeKind) -> bool {
    match k {
        TypeKind::Array { len, .. } => len == 0,
        _ => false,
    }
}

/// `t` is an array without elements.
pub open spec fn is_empty_array(rules: &TypeRules, t: Type) -> bool {
    rules.kinds@[t.0 as int] is EmptyArray || is_zero_len_array(rules.kinds@[t.0 as int])
}

/// `ty` meets `req` under `equiv`.
pub open spec fn spec_satisfies(rules: &TypeRules, ty: Ty, req: TyRequirement, equiv: TyEquivalence) -> bool {
    match (ty, req) {
        (Ty::Nature(_), TyRequirement::Nature) => true,
        (Ty::Node(_), TyRequirement::Node) => true,
        (Ty::Branch(_), TyRequirement::Branch) => true,
        (Ty::PortFlow(_), TyRequirement::PortFlow) => true,
        (Ty::UserFunction(_), TyRequirement::Function) => true,
        (Ty::InfLiteral, TyRequirement::Val(t)) if t == Type(REAL) => true,
        (Ty::Val(t), TyRequirement::ArrayAnyLength { .. }) if is_empty_array(rules, t) => true,
        (Ty::Val(t), TyRequirement::Val(t2)) if is_empty_array(rules, t) && is_zero_len_array(rules.kinds@[t2.0 as int]) => true,
        (Ty::Param(_, _), TyRequirement::AnyParam) => true,
        (Ty::InfLiteral, TyRequirement::AnyVal) => true,
        (_, TyRequirement::AnyVal) => spec_value_type(ty) is Some,
        (Ty::Literal(t1), TyRequirement::Literal(t2)) => compare_ty(rules, equiv, t1, t2),
        (Ty::InfLiteral, _) => false,
        (_, TyRequirement::Val(t2)) => match spec_value_type(ty) {
            Some(t1) => compare_ty(rules, equiv, t1, t2),
            None => false,
        },
        (Ty::Val(t), TyRequirement::ArrayAnyLength { ty: t2 }) => match rules.kinds@[t.0 as int] {
            TypeKind::Array { elem, .. } => compare_ty(rules, equiv, elem, t2),
            _ => false,
        },
        (_, TyRequirement::Condition) => match spec_value_type(ty) {
            Some(t) => rules.condition@[t.0 as int],
            None => false,
        },
        (Ty::Var(t1, _), TyRequirement::Var(t2)) => t1 == t2,
        (Ty::FunctionVar { ty: t1, .. }, TyRequirement::Var(t2)) => t1 == t2,
        (Ty::NatureAttr(t1, _), TyRequirement::Var(t2)) => t1 == t2,
        (Ty::Param(t1, _), TyRequirement::Param(t2)) => t1 == t2,
        _ => false,
    }
}

/// The type a value of type `src` is cast to to meet `req`, if it needs one.
pub open spec fn spec_cast(req: TyRequirement, src: Type) -> Option<Type> {
    match req {
        TyRequirement::Val(t) => if src != t {
            Some(t)
        } else {
            None
        },
        TyRequirement::Condition => if src != Type(BOOL) {
            Some(Type(BOOL))
        } else {
            None
        },
        _ => None,
    }
}

impl TyRequirement {
    /// The type a value of type `src` must be cast to to meet the requirement: the required
    /// value type, or `bool` for a condition, unless it already is that type.
    pub fn cast(&self, src: &Type) -> (r: Option<Type>)
        ensures
            r == spec_cast(*self, *src),
    {
        match self {
            TyRequirement::Val(t) => if src.0 != t.0 {
                Some(*t)
            } else {
                None
            },
            TyRequirement::Condition => if src.0 != BOOL {
                Some(Type(BOOL))
            } else {
                None
            },
            _ => None,
        }
    }
}

/// Type `t1` matches `t2` under `equiv`.
fn compare_types(rules: &TypeRules, equiv: TyEquivalence, t1: Type, t2: Type) -> (r: bool)
    requires
        rules.wf(),
        rules.has(t1),
        rules.has(t2),
    ensures
        r == compare_ty(rules, equiv, t1, t2),
{
    proof {
        assert(rules.convertible@[t1.0 as int]@.len() == rules.kinds@.len());
    }
    match equiv {
        TyEquivalence::Conversion => rules.convertible[t1.0 as usize][t2.0 as usize],
        TyEquivalence::Semantic => rules.semantic[t1.0 as usize][t2.0 as usize],
        TyEquivalence::Exact => t1.0 == t2.0,
    }
}

/// `t` is an array without elements.
fn empty_array(rules: &TypeRules, t: Type) -> (r: bool)
    requires
        rules.wf(),
        rules.has(t),
    ensures
        r == is_empty_array(rules, t),
{
    match rules.kinds[t.0 as usize] {
        TypeKind::EmptyArray => true,
        TypeKind::Array { len, .. } => len == 0,
        _ => false,
    }
}

impl Ty {
    /// The value type this carries, if it is a value (`inf` is real).
    pub fn to_value(&self) -> (r: Option<Type>)
        ensures
            r == spec_value_type(*self),
    {
        match self {
            Ty::NatureAttr(t, _) | Ty::Val(t) | Ty::Literal(t) | Ty::Param(t, _) | Ty::Var(t, _) => Some(*t),
            Ty::FunctionVar { ty, .. } => Some(*ty),
            Ty::InfLiteral => Some(Type(REAL)),
            _ => None,
        }
    }

    /// The net this refers to; it must be a net reference.
    pub fn unwrap_node(&self) -> (r: u32)
        requires
            *self is Node,
        ensures
            *self == Ty::Node(r),
    {
        match self {
            Ty::Node(id) => *id,
            _ => 0,
        }
    }

    /// The branch this refers to; it must be a branch reference.
    pub fn unwrap_branch(&self) -> (r: u32)
        requires
            *self is Branch,
        ensures
            *self == Ty::Branch(r),
    {
        match self {
            Ty::Branch(id) => *id,
            _ => 0,
        }
    }

    /// The port this takes the flow through; it must be a port-flow reference.
    pub fn unwrap_port_flow(&self) -> (r: u32)
        requires
            *self is PortFlow,
        ensures
            *self == Ty::PortFlow(r),
    {
        match self {
            Ty::PortFlow(id) => *id,
            _ => 0,
        }
    }

    /// The parameter this refers to; it must be a parameter reference.
    pub fn unwrap_param(&self) -> (r: u32)
        requires
            *self is Param,
        ensures
            *self matches Ty::Param(_, p) && p == r,
    {
        match self {
            Ty::Param(_, id) => *id,
            _ => 0,
        }
    }

    /// The user function this refers to; it must be one.
    pub fn unwrap_func(&self) -> (r: u32)
        requires
            *self is UserFunction,
        ensures
            *self == Ty::UserFunction(r),
    {
        match self {
            Ty::UserFunction(id) => *id,
            _ => 0,
        }
    }

    /// Does this meet `req` under `equiv` (see [`spec_satisfies`])?
    pub fn satisfies(&self, req: &TyRequirement, equiv: TyEquivalence, rules: &TypeRules) -> (r: bool)
        requires
            rules.wf(),
            ty_in(rules, *self),
            req_in(rules, *req),
        ensures
            r == spec_satisfies(rules, *self, *req, equiv),
    {
        match (self, req) {
            (Ty::Nature(_), TyRequirement::Nature) => true,
            (Ty::Node(_), TyRequirement::Node) => true,
            (Ty::Branch(_), TyRequirement::Branch) => true,
            (Ty::PortFlow(_), TyRequirement::PortFlow) => true,
            (Ty::UserFunction(_), TyRequirement::Function) => true,
            (Ty::InfLiteral, TyRequirement::Val(t)) if t.0 == REAL => true,
            (Ty::Val(t), TyRequirement::ArrayAnyLength { .. }) if empty_array(rules, *t) => true,
            (Ty::Val(t), TyRequirement::Val(t2)) if empty_array(rules, *t) && matches!(
                rules.kinds[t2.0 as usize],
                TypeKind::Array { len: 0, .. }
            ) => true,
            (Ty::Param(_, _), TyRequirement::AnyParam) => true,
            (Ty::InfLiteral, TyRequirement::AnyVal) => true,
            (_, TyRequirement::AnyVal) => self.to_value().is_some(),
            (Ty::Literal(t1), TyRequirement::Literal(t2)) => compare_types(rules, equiv, *t1, *t2),
            (Ty::InfLiteral, _) => false,
            (_, TyRequirement::Val(t2)) => match self.to_value() {
                Some(t1) => compare_types(rules, equiv, t1, *t2),
                None => false,
            },
            (Ty::Val(t), TyRequirement::ArrayAnyLength { ty: t2 }) => match rules.kinds[t.0 as usize] {
                TypeKind::Array { elem, .. } => compare_types(rules, equiv, elem, *t2),
                _ => false,
            },
            (_, TyRequirement::Condition) => match self.to_value() {
                Some(t) => rules.condition[t.0 as usize],
                None => false,
            },
            (Ty::Var(t1, _), TyRequirement::Var(t2)) => t1.0 == t2.0,
            (Ty::FunctionVar { ty: t1, .. }, TyRequirement::Var(t2)) => t1.0 == t2.0,
            (Ty::NatureAttr(t1, _), TyRequirement::Var(t2)) => t1.0 == t2.0,
            (Ty::Param(t1, _), TyRequirement::Param(t2)) => t1.0 == t2.0,
            _ => false,
        }
    }

    /// Does this meet `req` semantically?
    pub fn satisfies_semantic(&self, req: &TyRequirement, rules: &TypeRules) -> (r: bool)
        requires
            rules.wf(),
            ty_in(rules, *self),
            req_in(rules, *req),
        ensures
            r == spec_satisfies(rules, *self, *req, TyEquivalence::Semantic),
    {
        self.satisfies(req, TyEquivalence::Semantic, rules)
    }

    /// Does this meet `req` with conversion?
    pub fn satisfies_with_conversion(&self, req: &TyRequirement, rules: &TypeRules) -> (r: bool)
        requires
            rules.wf(),
            ty_in(rules, *self),
            req_in(rules, *req),
        ensures
            r == spec_satisfies(rules, *self, *req, TyEquivalence::Conversion),
    {
        self.satisfies(req, TyEquivalence::Conversion, rules)
    }

    /// Does this meet `req` exactly?
    pub fn satisfies_exact(&self, req: &TyRequirement, rules: &TypeRules) -> (r: bool)
        requires
            rules.wf(),
            ty_in(rules, *self),
            req_in(rules, *req),
        ensures
            r == spec_satisfies(rules, *self, *req, TyEquivalence::Exact),
    {
        self.satisfies(req, TyEquivalence::Exact, rules)
    }
}

/// A signature of a function: what it requires of each argument, and what it sig_returns.
#[derive(Clone, Debug)]
pub struct SignatureData {
    pub args: Vec<TyRequirement>,
    pub return_ty: Type,
}

/// The number that stands for a requirement in overload resolution: its variant, and its
/// value type, if any, above it. Equal requirements get equal numbers and, for value types
/// numbered below 2^27, different ones different numbers.
pub open spec fn req_code(req: TyRequirement) -> int {
    match req {
        TyRequirement::Nature => 0,
        TyRequirement::Node => 1,
        TyRequirement::Branch => 2,
        TyRequirement::PortFlow => 3,
        TyRequirement::Function => 4,
        TyRequirement::AnyVal => 5,
        TyRequirement::AnyParam => 6,
        TyRequirement::Condition => 7,
        TyRequirement::Literal(t) => 8 + 16 * t.0,
        TyRequirement::Val(t) => 9 + 16 * t.0,
        TyRequirement::Var(t) => 10 + 16 * t.0,
        TyRequirement::Param(t) => 11 + 16 * t.0,
        TyRequirement::ArrayAnyLength { ty } => 12 + 16 * ty.0,
    }
}

/// The value type `req` mentions, if any, is numbered below 2^27.
pub open spec fn req_small(req: TyRequirement) -> bool {
    match req {
        TyRequirement::Literal(t) | TyRequirement::Val(t) | TyRequirement::Var(t) | TyRequirement::Param(t) => t.0 < 0x800_0000,
        TyRequirement::ArrayAnyLength { ty } => ty.0 < 0x800_0000,
        _ => true,
    }
}

/// For each requirement of `reqs`, whether the argument at its position, if there is one and
/// its type is known, meets it under `equiv`.
pub open spec fn met_row(rules: &TypeRules, args: Seq<Option<Ty>>, reqs: Seq<TyRequirement>, equiv: TyEquivalence) -> Seq<bool> {
    Seq::new(
        reqs.len(),
        |j: int| j < args.len() && (args[j] matches Some(ty) && spec_satisfies(rules, ty, reqs[j], equiv)),
    )
}

/// For each requirement of `reqs`, the cast that the argument at its position needs, if it is
/// a value of known type.
pub open spec fn cast_row(args: Seq<Option<Ty>>, reqs: Seq<TyRequirement>) -> Seq<Option<u32>> {
    Seq::new(
        reqs.len(),
        |j: int|
            if j < args.len() && args[j] is Some && spec_value_type(args[j]->0) is Some {
                match spec_cast(reqs[j], spec_value_type(args[j]->0)->0) {
                    Some(t) => Some(t.0),
                    None => None,
                }
            } else {
                None
            },
    )
}

/// The tables that overload resolution reads, drawn from the argument types and the
/// signatures (see `overload::resolve_overload`).
pub struct OverloadTables {
    pub known: Vec<bool>,
    pub reqs: Vec<Vec<u32>>,
    pub conv: Vec<Vec<bool>>,
    pub sem: Vec<Vec<bool>>,
    pub exact: Vec<Vec<bool>>,
    pub casts: Vec<Vec<Option<u32>>>,
    pub sig_returns: Vec<u32>,
}

/// The tables of a call with arguments of types `args` (`None` where unknown) to a
/// function with signatures `sigs`.
pub open spec fn tables_of(rules: &TypeRules, args: Seq<Option<Ty>>, sigs: Seq<SignatureData>, t: OverloadTables) -> bool {
    &&& t.known@ == args.map_values(|a: Option<Ty>| a is Some)
    &&& t.reqs@.len() == sigs.len()
    &&& t.conv@.len() == sigs.len()
    &&& t.sem@.len() == sigs.len()
    &&& t.exact@.len() == sigs.len()
    &&& t.casts@.len() == sigs.len()
    &&& t.sig_returns@ == sigs.map_values(|s: SignatureData| s.return_ty.0)
    &&& forall|s: int|
        0 <= s < sigs.len() ==> {
            &&& (#[trigger] t.reqs@[s])@ == sigs[s].args@.map_values(|q: TyRequirement| req_code(q) as u32)
            &&& t.conv@[s]@ == met_row(rules, args, sigs[s].args@, TyEquivalence::Conversion)
            &&& t.sem@[s]@ == met_row(rules, args, sigs[s].args@, TyEquivalence::Semantic)
            &&& t.exact@[s]@ == met_row(rules, args, sigs[s].args@, TyEquivalence::Exact)
            &&& t.casts@[s]@ == cast_row(args, sigs[s].args@)
        }
}

impl TyRequirement {
    /// The number that stands for the requirement in overload resolution.
    pub fn code(&self) -> (r: u32)
        requires
            req_small(*self),
        ensures
            r == req_code(*self),
    {
        match self {
            TyRequirement::Nature => 0,
            TyRequirement::Node => 1,
            TyRequirement::Branch => 2,
            TyRequirement::PortFlow => 3,
            TyRequirement::Function => 4,
            TyRequirement::AnyVal => 5,
            TyRequirement::AnyParam => 6,
            TyRequirement::Condition => 7,
            TyRequirement::Literal(t) => 8 + 16 * t.0,
            TyRequirement::Val(t) => 9 + 16 * t.0,
            TyRequirement::Var(t) => 10 + 16 * t.0,
            TyRequirement::Param(t) => 11 + 16 * t.0,
            TyRequirement::ArrayAnyLength { ty } => 12 + 16 * ty.0,
        }
    }
}

/// Draw the tables of overload resolution from the types of the arguments of a call
/// (`None` where inference found none) and the signatures of the function called: whether
/// each argument type is known, the requirements by number, whether each argument meets the
/// requirement at its position with conversion, semantically and exactly, the cast it needs,
/// and the return types.
pub fn overload_tables(rules: &TypeRules, args: &Vec<Option<Ty>>, sigs: &Vec<SignatureData>) -> (r: OverloadTables)
    requires
        rules.wf(),
        forall|i: int| 0 <= i < args@.len() ==> (#[trigger] args@[i] matches Some(ty) ==> ty_in(rules, ty)),
        forall|s: int, j: int|
            0 <= s < sigs@.len() && 0 <= j < sigs@[s].args@.len() ==> req_in(rules, #[trigger] sigs@[s].args@[j]) && req_small(
                sigs@[s].args@[j],
            ),
    ensures
        tables_of(rules, args@, sigs@, r),
{
    let mut known: Vec<bool> = Vec::new();
    let mut i: usize = 0;
    while i < args.len()
        invariant
            i <= args@.len(),
            known@ == args@.subrange(0, i as int).map_values(|a: Option<Ty>| a is Some),
        decreases args@.len() - i,
    {
        known.push(args[i].is_some());
        i += 1;
        proof {
            assert(known@ =~= args@.subrange(0, i as int).map_values(|a: Option<Ty>| a is Some));
        }
    }
    proof {
        assert(args@.subrange(0, args@.len() as int) =~= args@);
    }
    let mut reqs: Vec<Vec<u32>> = Vec::new();
    let mut conv: Vec<Vec<bool>> = Vec::new();
    let mut sem: Vec<Vec<bool>> = Vec::new();
    let mut exact: Vec<Vec<bool>> = Vec::new();
    let mut casts: Vec<Vec<Option<u32>>> = Vec::new();
    let mut sig_returns: Vec<u32> = Vec::new();
    let mut s: usize = 0;
    while s < sigs.len()
        invariant
            rules.wf(),
            forall|i: int| 0 <= i < args@.len() ==> (#[trigger] args@[i] matches Some(ty) ==> ty_in(rules, ty)),
            forall|s: int, j: int|
                0 <= s < sigs@.len() && 0 <= j < sigs@[s].args@.len() ==> req_in(rules, #[trigger] sigs@[s].args@[j])
                    && req_small(sigs@[s].args@[j]),
            s <= sigs@.len(),
            reqs@.len() == s,
            conv@.len() == s,
            sem@.len() == s,
            exact@.len() == s,
            casts@.len() == s,
            sig_returns@ == sigs@.subrange(0, s as int).map_values(|q: SignatureData| q.return_ty.0),
            forall|q: int|
                0 <= q < s ==> {
                    &&& (#[trigger] reqs@[q])@ == sigs@[q].args@.map_values(|x: TyRequirement| req_code(x) as u32)
                    &&& conv@[q]@ == met_row(rules, args@, sigs@[q].args@, TyEquivalence::Conversion)
                    &&& sem@[q]@ == met_row(rules, args@, sigs@[q].args@, TyEquivalence::Semantic)
                    &&& exact@[q]@ == met_row(rules, args@, sigs@[q].args@, TyEquivalence::Exact)
                    &&& casts@[q]@ == cast_row(args@, sigs@[q].args@)
                },
        decreases sigs@.len() - s,
    {
        let sig = &sigs[s];
        let mut rq: Vec<u32> = Vec::new();
        let mut cv: Vec<bool> = Vec::new();
        let mut sm: Vec<bool> = Vec::new();
        let mut ex: Vec<bool> = Vec::new();
        let mut cs: Vec<Option<u32>> = Vec::new();
        let mut j: usize = 0;
        while j < sig.args.len()
            invariant
                rules.wf(),
                *sig == sigs@[s as int],
                forall|i: int| 0 <= i < args@.len() ==> (#[trigger] args@[i] matches Some(ty) ==> ty_in(rules, ty)),
                forall|j: int| 0 <= j < sig.args@.len() ==> req_in(rules, #[trigger] sig.args@[j]) && req_small(sig.args@[j]),
                j <= sig.args@.len(),
                rq@ == sig.args@.subrange(0, j as int).map_values(|x: TyRequirement| req_code(x) as u32),
                cv@ == met_row(rules, args@, sig.args@, TyEquivalence::Conversion).subrange(0, j as int),
                sm@ == met_row(rules, args@, sig.args@, TyEquivalence::Semantic).subrange(0, j as int),
                ex@ == met_row(rules, args@, sig.args@, TyEquivalence::Exact).subrange(0, j as int),
                cs@ == cast_row(args@, sig.args@).subrange(0, j as int),
            decreases sig.args@.len() - j,
        {
            let req = &sig.args[j];
            rq.push(req.code());
            if j < args.len() {
                match &args[j] {
                    Some(ty) => {
                        cv.push(ty.satisfies_with_conversion(req, rules));
                        sm.push(ty.satisfies_semantic(req, rules));
                        ex.push(ty.satisfies_exact(req, rules));
                        match ty.to_value() {
                            Some(src) => cs.push(
                                match req.cast(&src) {
                                    Some(t) => Some(t.0),
                                    None => None,
                                },
                            ),
                            None => cs.push(None),
                        }
                    },
                    None => {
                        cv.push(false);
                        sm.push(false);
                        ex.push(false);
                        cs.push(None);
                    },
                }
            } else {
                cv.push(false);
                sm.push(false);
                ex.push(false);
                cs.push(None);
            }
            j += 1;
            proof {
                assert(rq@ =~= sig.args@.subrange(0, j as int).map_values(|x: TyRequirement| req_code(x) as u32));
                assert(cv@ =~= met_row(rules, args@, sig.args@, TyEquivalence::Conversion).subrange(0, j as int));
                assert(sm@ =~= met_row(rules, args@, sig.args@, TyEquivalence::Semantic).subrange(0, j as int));
                assert(ex@ =~= met_row(rules, args@, sig.args@, TyEquivalence::Exact).subrange(0, j as int));
                assert(cs@ =~= cast_row(args@, sig.args@).subrange(0, j as int));
            }
        }
        proof {
            assert(sig.args@.subrange(0, sig.args@.len() as int) =~= sig.args@);
            assert(met_row(rules, args@, sig.args@, TyEquivalence::Conversion).subrange(0, j as int) =~= met_row(
                rules,
                args@,
                sig.args@,
                TyEquivalence::Conversion,
            ));
            assert(met_row(rules, args@, sig.args@, TyEquivalence::Semantic).subrange(0, j as int) =~= met_row(
                rules,
                args@,
                sig.args@,
                TyEquivalence::Semantic,
            ));
            assert(met_row(rules, args@, sig.args@, TyEquivalence::Exact).subrange(0, j as int) =~= met_row(
                rules,
                args@,
                sig.args@,
                TyEquivalence::Exact,
            ));
            assert(cast_row(args@, sig.args@).subrange(0, j as int) =~= cast_row(args@, sig.args@));
        }
        reqs.push(rq);
        conv.push(cv);
        sem.push(sm);
        exact.push(ex);
        casts.push(cs);
        sig_returns.push(sig.return_ty.0);
        s += 1;
        proof {
            assert(sig_returns@ =~= sigs@.subrange(0, s as int).map_values(|q: SignatureData| q.return_ty.0));
        }
    }
    proof {
        assert(sigs@.subrange(0, sigs@.len() as int) =~= sigs@);
    }
    OverloadTables { known, reqs, conv, sem, exact, casts, sig_returns }
}

/// The tables drawn from a call fit overload resolution.
pub proof fn lemma_tables_fit(rules: &TypeRules, args: Seq<Option<Ty>>, sigs: Seq<SignatureData>, t: OverloadTables)
    requires
        tables_of(rules, args, sigs, t),
    ensures
        tables_fit(args.len() as int, t.reqs@, t.conv@, t.sem@, t.exact@, t.casts@, t.sig_returns@),
{
    assert forall|s: int| 0 <= s < t.reqs@.len() implies {
        &&& (#[trigger] t.conv@[s])@.len() == t.reqs@[s]@.len()
        &&& t.sem@[s]@.len() == t.reqs@[s]@.len()
        &&& t.exact@[s]@.len() == t.reqs@[s]@.len()
        &&& t.casts@[s]@.len() == t.reqs@[s]@.len()
    } by {
        assert(t.reqs@[s]@ == sigs[s].args@.map_values(|q: TyRequirement| req_code(q) as u32));
    }
}


/// A reference requirement (a variable, a function argument or return value, or a nature
/// attribute that is written to) takes no conversion: it is met only by a reference of
/// exactly the required type, under every equivalence alike.
pub proof fn lemma_reference_requirement_exact(rules: &TypeRules, ty: Ty, t: Type, equiv: TyEquivalence, other: TyEquivalence)
    ensures
        spec_satisfies(rules, ty, TyRequirement::Var(t), equiv) <==> (match ty {
            Ty::Var(t1, _) => t1 == t,
            Ty::FunctionVar { ty: t1, .. } => t1 == t,
            Ty::NatureAttr(t1, _) => t1 == t,
            _ => false,
        }),
        spec_satisfies(rules, ty, TyRequirement::Var(t), equiv) == spec_satisfies(rules, ty, TyRequirement::Var(t), other),
{
}

/// A parameter requirement is met only by a parameter of exactly the required type.
pub proof fn lemma_param_requirement_exact(rules: &TypeRules, ty: Ty, t: Type, equiv: TyEquivalence)
    ensures
        spec_satisfies(rules, ty, TyRequirement::Param(t), equiv) <==> (ty matches Ty::Param(t1, _) && t1 == t),
{
}

} // verus!
