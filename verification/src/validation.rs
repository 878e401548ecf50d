//! Rules of the Verilog-A front end that decide what a body may contain, and the
//! detection of attributes that are declared twice.
use vstd::prelude::*;

verus! {

/// The kind of body an expression or statement is found in (LRM 4.7.1, 5.2.1).
#[derive(PartialEq, Eq, Structural, Clone, Copy, Debug)]
pub enum BodyContext {
    AnalogBlock,
    AnalogInitialBlock,
    Function,
    /// The condition of an `if`, a `case` or `?:`.
    Conditional,
    Const,
    EventControl,
    ConstOrAnalysis,
}

impl BodyContext {
    /// Access functions (`V(..)`, `I(..)`) may be used in this context.
    pub fn nature_access_allowed(self) -> (r: bool)
        ensures
            r == (self is AnalogBlock || self is Conditional || self is EventControl),
    {
        matches!(self, BodyContext::AnalogBlock | BodyContext::Conditional | BodyContext::EventControl)
    }

    /// Contribution statements (`<+`) may be used in this context.
    pub fn contribute_allowed(self) -> (r: bool)
        ensures
            r == (self is AnalogBlock || self is Conditional),
    {
        matches!(self, BodyContext::AnalogBlock | BodyContext::Conditional)
    }

    /// Analog operators (`ddt`, `idt`, filters) may be used in this context.
    pub fn analog_operator_allowed(self) -> (r: bool)
        ensures
            r == (self is AnalogBlock),
    {
        matches!(self, BodyContext::AnalogBlock)
    }

    /// The `analysis` function may be called in this context.
    pub fn analysis_fun_allowed(self) -> (r: bool)
        ensures
            r == !(self is Const),
    {
        !matches!(self, BodyContext::Const)
    }

    /// Variables may be referenced in this context.
    pub fn var_ref_allowed(self) -> (r: bool)
        ensures
            r == !(self is Const || self is ConstOrAnalysis),
    {
        !matches!(self, BodyContext::Const | BodyContext::ConstOrAnalysis)
    }
}

/// An item declared more than once in the same definition: the first declaration and
/// all later ones, in declaration order.
#[derive(PartialEq, Eq, Clone, Debug)]
pub struct DuplicateItem<Item, Def> {
    pub src: Def,
    pub first: Item,
    pub subsequent: Vec<Item>,
}

/// The indices `j` with `from <= j < s.len()` at which `s` holds `v`, ascending.
pub open spec fn indices_of(s: Seq<u32>, v: u32, from: int) -> Seq<usize>
    decreases s.len() - from,
{
    if from < 0 || from >= s.len() {
        Seq::empty()
    } else if s[from] == v {
        seq![from as usize] + indices_of(s, v, from + 1)
    } else {
        indices_of(s, v, from + 1)
    }
}

/// `i` is the first index at which its value occurs.
pub open spec fn is_first_occurrence(s: Seq<u32>, i: int) -> bool {
    forall|j: int| 0 <= j < i ==> s[j] != s[i]
}

/// The duplicate groups found among the first `n` attributes: for each index that is the
/// first occurrence of its value and is followed by another occurrence, that index and
/// the later indices of the same value.
pub open spec fn duplicate_groups(s: Seq<u32>, n: int) -> Seq<(usize, Seq<usize>)>
    decreases n,
{
    if n <= 0 {
        Seq::empty()
    } else {
        let i = n - 1;
        let rest = duplicate_groups(s, i);
        let later = indices_of(s, s[i], i + 1);
        if is_first_occurrence(s, i) && later.len() > 0 {
            rest.push((i as usize, later))
        } else {
            rest
        }
    }
}

/// What `verify_unique_attr` reports for the attribute keys `s` of definition `def`.
pub open spec fn matches_groups<Def>(r: Seq<DuplicateItem<usize, Def>>, g: Seq<(usize, Seq<usize>)>, def: Def) -> bool {
    &&& r.len() == g.len()
    &&& forall|k: int|
        0 <= k < r.len() ==> {
            &&& (#[trigger] r[k]).src == def
            &&& r[k].first == g[k].0
            &&& r[k].subsequent@ == g[k].1
        }
}

proof fn lemma_indices_of_bounds(s: Seq<u32>, v: u32, from: int)
    requires
        0 <= from,
        s.len() <= usize::MAX,
    ensures
        forall|k: int| 0 <= k < indices_of(s, v, from).len() ==> {
            let j = #[trigger] indices_of(s, v, from)[k];
            &&& from <= j < s.len()
            &&& s[j as int] == v
        },
    decreases s.len() - from,
{
    if from < s.len() {
        lemma_indices_of_bounds(s, v, from + 1);
        let rest = indices_of(s, v, from + 1);
        if s[from] == v {
            assert forall|k: int| 0 <= k < indices_of(s, v, from).len() implies {
                let j = #[trigger] indices_of(s, v, from)[k];
                &&& from <= j < s.len()
                &&& s[j as int] == v
            } by {
                if k > 0 {
                    assert(indices_of(s, v, from)[k] == rest[k - 1]);
                }
            }
        }
    }
}

/// Report, for each attribute key that occurs more than once, its first index and the
/// indices of the later occurrences. The attributes are compared by key; the groups
/// come in the order of their first occurrence.
pub fn verify_unique_attr<Def: Copy>(attrs: &Vec<u32>, def: Def) -> (r: Vec<DuplicateItem<usize, Def>>)
    ensures
        matches_groups(r@, duplicate_groups(attrs@, attrs@.len() as int), def),
{
    let mut out: Vec<DuplicateItem<usize, Def>> = Vec::new();
    let mut idx: usize = 0;
    while idx < attrs.len()
        invariant
            idx <= attrs@.len(),
            matches_groups(out@, duplicate_groups(attrs@, idx as int), def),
        decreases attrs@.len() - idx,
    {
        let attr = attrs[idx];
        // Is an earlier attribute equal to this one?
        let mut seen = false;
        let mut j: usize = 0;
        while j < idx
            invariant
                j <= idx < attrs@.len(),
                attr == attrs@[idx as int],
                seen == exists|k: int| 0 <= k < j && attrs@[k] == attr,
            decreases idx - j,
        {
            if attrs[j] == attr {
                seen = true;
            }
            j += 1;
        }
        proof {
            if seen {
                let k = choose|k: int| 0 <= k < idx && attrs@[k] == attr;
                assert(!is_first_occurrence(attrs@, idx as int));
            } else {
                assert(is_first_occurrence(attrs@, idx as int));
            }
        }
        if !seen {
            let mut duplicates: Vec<usize> = Vec::new();
            let mut k: usize = attrs.len();
            // Collect the later occurrences from the back so that they come out ascending.
            while k > idx + 1
                invariant
                    idx + 1 <= k <= attrs@.len(),
                    attr == attrs@[idx as int],
                    duplicates@ == indices_of(attrs@, attr, k as int),
                decreases k,
            {
                k -= 1;
                if attrs[k] == attr {
                    let mut nd: Vec<usize> = Vec::new();
                    nd.push(k);
                    nd.append(&mut duplicates);
                    duplicates = nd;
                }
                proof {
                    assert(duplicates@ =~= indices_of(attrs@, attr, k as int));
                }
            }
            if duplicates.len() > 0 {
                let ghost later = duplicates@;
                out.push(DuplicateItem { src: def, first: idx, subsequent: duplicates });
                proof {
                    let g = duplicate_groups(attrs@, idx + 1);
                    assert(g == duplicate_groups(attrs@, idx as int).push((idx, later)));
                    assert forall|q: int| 0 <= q < out@.len() implies {
                        &&& (#[trigger] out@[q]).src == def
                        &&& out@[q].first == g[q].0
                        &&& out@[q].subsequent@ == g[q].1
                    } by {
                    }
                }
            } else {
                proof {
                    assert(duplicate_groups(attrs@, idx + 1) == duplicate_groups(attrs@, idx as int));
                }
            }
        } else {
            proof {
                assert(duplicate_groups(attrs@, idx + 1) == duplicate_groups(attrs@, idx as int));
            }
        }
        idx += 1;
    }
    out
}

/// The signature of a known `$limit` function: its name and number of arguments.
#[derive(Debug, PartialEq, Eq, Clone, Hash)]
pub struct LimitSignature {
    pub name: String,
    pub num_args: u32,
}

/// How a nature is accessed through a discipline.
#[derive(Debug, PartialEq, Eq, Structural, Clone, Copy)]
pub enum DisciplineAccess {
    Potential,
    Flow,
}

/// The index of a signature of an overloaded builtin.
#[derive(Debug, PartialEq, Eq, Structural, Clone, Copy)]
pub struct Signature(pub u32);

} // verus!
