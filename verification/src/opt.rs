//! Lattices and identifiers of the optimisation passes.
use vstd::prelude::*;

use crate::entities::Value;

verus! {

/// A value of `Value` extended with a top and a bottom element, in which no two
/// distinct constants are comparable: `Bottom` below every constant, `Top` above.
#[derive(Clone, Copy, Debug, PartialEq, Eq, Structural)]
pub enum FlatSet {
    /// Overdefined: the value can have several versions and is not known at compile time.
    /// Function parameters are overdefined by nature.
    Top,
    /// A compile-time constant.
    Elem(Value),
    /// Undefined: no definition has been seen yet.
    Bottom,
}

/// Combining two lattice values: anything with `Top` is `Top`, `Bottom` leaves the
/// other side, equal constants stay, distinct constants give `Top`.
pub open spec fn flat_meet(a: FlatSet, b: FlatSet) -> FlatSet {
    match (a, b) {
        (FlatSet::Top, _) => FlatSet::Top,
        (_, FlatSet::Top) => FlatSet::Top,
        (FlatSet::Bottom, x) => x,
        (x, FlatSet::Bottom) => x,
        (FlatSet::Elem(i), FlatSet::Elem(j)) => if i == j {
            FlatSet::Elem(i)
        } else {
            FlatSet::Top
        },
    }
}

impl FlatSet {
    /// Combine two lattice values (see [`flat_meet`]).
    pub fn meet(self, other: FlatSet) -> (r: FlatSet)
        ensures
            r == flat_meet(self, other),
    {
        match (self, other) {
            (FlatSet::Top, _) => FlatSet::Top,
            (_, FlatSet::Top) => FlatSet::Top,
            (FlatSet::Bottom, x) => x,
            (x, FlatSet::Bottom) => x,
            (FlatSet::Elem(i), FlatSet::Elem(j)) => if i.0 == j.0 {
                FlatSet::Elem(i)
            } else {
                FlatSet::Top
            },
        }
    }
}

/// `Top` absorbs every value.
pub proof fn lemma_meet_top(a: FlatSet)
    ensures
        flat_meet(a, FlatSet::Top) == FlatSet::Top,
        flat_meet(FlatSet::Top, a) == FlatSet::Top,
{
}

/// `Bottom` leaves every value unchanged.
pub proof fn lemma_meet_bottom(a: FlatSet)
    ensures
        flat_meet(a, FlatSet::Bottom) == a,
        flat_meet(FlatSet::Bottom, a) == a,
{
}

/// A constant combined with itself stays, with another constant gives `Top`.
pub proof fn lemma_meet_elems(i: Value, j: Value)
    ensures
        i == j ==> flat_meet(FlatSet::Elem(i), FlatSet::Elem(j)) == FlatSet::Elem(i),
        i != j ==> flat_meet(FlatSet::Elem(i), FlatSet::Elem(j)) == FlatSet::Top,
{
}

/// Combining is commutative, associative and idempotent.
pub proof fn lemma_meet_semilattice(a: FlatSet, b: FlatSet, c: FlatSet)
    ensures
        flat_meet(a, b) == flat_meet(b, a),
        flat_meet(flat_meet(a, b), c) == flat_meet(a, flat_meet(b, c)),
        flat_meet(a, a) == a,
{
}

/// The identifier of an equivalence class of global value numbering.
#[derive(PartialEq, Eq, Structural, Clone, Copy, Hash, Debug)]
pub struct ClassId(pub u32);

} // verus!
