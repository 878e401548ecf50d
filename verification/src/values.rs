//! The values of a function and their uses.
//!
//! Every value knows its definition and the list of its uses; each list is doubly linked
//! through the table of uses (head first), so that uses can be added and removed in
//! constant time. A ghost field holds the lists as sequences; `wf` ties the links to it.
use std::collections::HashMap;
use vstd::prelude::*;

use crate::entities::{Block, Inst, Param, Tag, Use, Value};
use crate::function::DataFlowGraph;
use crate::instructions::{InstructionData, PhiNode};
use crate::layout::{opt_first, opt_last, opt_next, opt_prev};

verus! {

broadcast use vstd::std_specs::hash::group_hash_axioms;

/// A double-precision constant, by the bits of its IEEE 754 representation.
#[derive(Clone, Copy, Debug, PartialEq, Eq, Structural, Hash)]
pub struct Ieee64(pub u64);

/// What a value is.
#[derive(Clone, Copy, Debug, PartialEq, Eq, Structural)]
pub enum ValueDataType {
    /// Another name for the given value.
    Alias(Value),
    /// The `idx`-th result of `inst`.
    Inst { inst: Inst, idx: u16 },
    Param { param: Param },
    Fconst { val: Ieee64 },
    Iconst { val: i32 },
    /// A string constant, by its interned key.
    Sconst { val: u32 },
    True,
    False,
    Invalid,
}

/// A value: its definition, the ends of its use list, and its tag.
#[derive(Clone, Copy, Debug)]
pub struct ValueData {
    pub ty: ValueDataType,
    uses_head: Option<Use>,
    uses_tail: Option<Use>,
    tag: Option<Tag>,
}

/// A use: argument `idx` of instruction `user`; whether it is in the use list of a value,
/// and its neighbours there.
#[derive(Clone, Copy, Debug, PartialEq, Eq, Structural)]
pub struct UseData {
    pub user: Inst,
    pub idx: u16,
    attached: bool,
    prev: Option<Use>,
    next: Option<Use>,
}

/// A constant.
#[derive(Clone, Copy, Debug, PartialEq, Eq, Structural)]
pub enum Const {
    Float(Ieee64),
    Int(i32),
    /// A string, by its interned key.
    Str(u32),
    Bool(bool),
}

/// Where a value comes from.
#[derive(Clone, Copy, Debug, PartialEq, Eq, Structural)]
pub enum ValueDef {
    /// The n-th result of an instruction.
    Result(Inst, usize),
    /// A parameter of the function.
    Param(Param),
    Const(Const),
    Invalid,
}

/// The definition of a value of type `ty`, aliases counting as invalid.
pub open spec fn spec_def(ty: ValueDataType) -> ValueDef {
    match ty {
        ValueDataType::Inst { inst, idx } => ValueDef::Result(inst, idx as usize),
        ValueDataType::Param { param } => ValueDef::Param(param),
        ValueDataType::Fconst { val } => ValueDef::Const(Const::Float(val)),
        ValueDataType::Iconst { val } => ValueDef::Const(Const::Int(val)),
        ValueDataType::Sconst { val } => ValueDef::Const(Const::Str(val)),
        ValueDataType::True => ValueDef::Const(Const::Bool(true)),
        ValueDataType::False => ValueDef::Const(Const::Bool(false)),
        ValueDataType::Alias(_) | ValueDataType::Invalid => ValueDef::Invalid,
    }
}

/// The abstract state: per value its type, tag and use list (head first); per use its
/// instruction, argument index and whether it is attached.
pub struct ValuesView {
    pub types: Seq<ValueDataType>,
    pub tags: Seq<Option<Tag>>,
    pub lists: Seq<Seq<Use>>,
    pub users: Seq<(Inst, u16)>,
    pub attached: Seq<bool>,
    pub consts: ConstsView,
}

/// The interned constants: integers, reals by the bits of their representation, and strings
/// by their key, each mapped to the value that holds it.
pub struct ConstsView {
    pub ints: Map<i32, Value>,
    pub reals: Map<u64, Value>,
    pub strs: Map<u32, Value>,
}

/// The values of a function and the uses of each.
pub struct DfgValues {
    defs: Vec<ValueData>,
    uses: Vec<UseData>,
    lists: Ghost<Seq<Seq<Use>>>,
    int_consts: HashMap<i32, Value>,
    real_consts: HashMap<u64, Value>,
    str_consts: HashMap<u32, Value>,
}

impl View for DfgValues {
    type V = ValuesView;

    closed spec fn view(&self) -> ValuesView {
        ValuesView {
            types: self.defs@.map_values(|d: ValueData| d.ty),
            tags: self.defs@.map_values(|d: ValueData| d.tag),
            lists: self.lists@,
            users: self.uses@.map_values(|u: UseData| (u.user, u.idx)),
            attached: self.uses@.map_values(|u: UseData| u.attached),
            consts: ConstsView { ints: self.int_consts@, reals: self.real_consts@, strs: self.str_consts@ },
        }
    }
}

/// Every interned constant maps to one of the first `n` values.
pub open spec fn consts_valid(c: ConstsView, n: nat) -> bool {
    &&& forall|k: i32| #[trigger] c.ints.contains_key(k) ==> c.ints[k].0 < n
    &&& forall|k: u64| #[trigger] c.reals.contains_key(k) ==> c.reals[k].0 < n
    &&& forall|k: u32| #[trigger] c.strs.contains_key(k) ==> c.strs[k].0 < n
}

/// The use at position `j` of list `s` is attached and linked to its neighbours.
spec fn use_link_at(uses: Seq<UseData>, s: Seq<Use>, j: int) -> bool {
    let d = uses[s[j].0 as int];
    &&& d.attached
    &&& d.prev == opt_prev(s, j)
    &&& d.next == opt_next(s, j)
}

/// The use list `s` of value `v` is well formed.
spec fn list_wf(defs: Seq<ValueData>, uses: Seq<UseData>, s: Seq<Use>, v: int) -> bool {
    &&& s.no_duplicates()
    &&& forall|j: int| 0 <= j < s.len() ==> (#[trigger] s[j]).0 < uses.len()
    &&& defs[v].uses_head == opt_first(s)
    &&& defs[v].uses_tail == opt_last(s)
    &&& forall|j: int| 0 <= j < s.len() ==> #[trigger] use_link_at(uses, s, j)
}

/// The lists agree with the links, hold each attached use exactly once, and no detached one.
spec fn lists_wf(defs: Seq<ValueData>, uses: Seq<UseData>, lists: Seq<Seq<Use>>) -> bool {
    &&& lists.len() == defs.len()
    &&& forall|v: int| 0 <= v < defs.len() ==> #[trigger] list_wf(defs, uses, lists[v], v)
    &&& forall|k: int|
        0 <= k < uses.len() && (#[trigger] uses[k]).attached ==> exists|v: int|
            0 <= v < lists.len() && #[trigger] lists[v].contains(Use(k as u32))
    &&& forall|k: int|
        0 <= k < uses.len() && !(#[trigger] uses[k]).attached ==> uses[k].prev is None && uses[k].next is None
    &&& forall|v1: int, v2: int, u: Use|
        0 <= v1 < lists.len() && 0 <= v2 < lists.len() && #[trigger] lists[v1].contains(u) && #[trigger] lists[v2].contains(u)
            ==> v1 == v2
}

/// `v` with one more value of type `ty`, without tag or uses; the constants stay as they are.
pub open spec fn with_value(v: ValuesView, ty: ValueDataType) -> ValuesView {
    ValuesView {
        types: v.types.push(ty),
        tags: v.tags.push(None),
        lists: v.lists.push(Seq::<Use>::empty()),
        users: v.users,
        attached: v.attached,
        consts: v.consts,
    }
}

/// Interning the integer `val`: the value that already holds it, or a new one, recorded.
pub open spec fn intern_int(v: ValuesView, val: i32) -> (ValuesView, Value) {
    if v.consts.ints.contains_key(val) {
        (v, v.consts.ints[val])
    } else {
        let r = Value(v.types.len() as u32);
        let w = with_value(v, ValueDataType::Iconst { val });
        (ValuesView { consts: ConstsView { ints: v.consts.ints.insert(val, r), ..v.consts }, ..w }, r)
    }
}

/// Interning the real with bits `val`.
pub open spec fn intern_real(v: ValuesView, val: Ieee64) -> (ValuesView, Value) {
    if v.consts.reals.contains_key(val.0) {
        (v, v.consts.reals[val.0])
    } else {
        let r = Value(v.types.len() as u32);
        let w = with_value(v, ValueDataType::Fconst { val });
        (ValuesView { consts: ConstsView { reals: v.consts.reals.insert(val.0, r), ..v.consts }, ..w }, r)
    }
}

/// Interning the string with key `val`.
pub open spec fn intern_str(v: ValuesView, val: u32) -> (ValuesView, Value) {
    if v.consts.strs.contains_key(val) {
        (v, v.consts.strs[val])
    } else {
        let r = Value(v.types.len() as u32);
        let w = with_value(v, ValueDataType::Sconst { val });
        (ValuesView { consts: ConstsView { strs: v.consts.strs.insert(val, r), ..v.consts }, ..w }, r)
    }
}

/// Interning a constant a second time gives the value of the first time and changes
/// nothing.
pub proof fn lemma_intern_twice(v: ValuesView, i: i32, f: Ieee64, t: u32)
    ensures
        intern_int(intern_int(v, i).0, i) == (intern_int(v, i).0, intern_int(v, i).1),
        intern_real(intern_real(v, f).0, f) == (intern_real(v, f).0, intern_real(v, f).1),
        intern_str(intern_str(v, t).0, t) == (intern_str(v, t).0, intern_str(v, t).1),
{
}

/// Following aliases from `v` reaches, within `fuel` steps, a value of the table that is no
/// alias.
pub open spec fn alias_ends(types: Seq<ValueDataType>, v: Value, fuel: nat) -> bool
    decreases fuel,
{
    &&& v.0 < types.len()
    &&& match types[v.0 as int] {
        ValueDataType::Alias(a) => fuel > 0 && alias_ends(types, a, (fuel - 1) as nat),
        _ => true,
    }
}

/// Where following aliases from `v` for at most `fuel` steps stops.
pub open spec fn alias_root(types: Seq<ValueDataType>, v: Value, fuel: nat) -> Value
    decreases fuel,
{
    if fuel == 0 {
        v
    } else {
        match types[v.0 as int] {
            ValueDataType::Alias(a) => alias_root(types, a, (fuel - 1) as nat),
            _ => v,
        }
    }
}

/// The alias chain from `v` ends.
pub open spec fn chain_ends(types: Seq<ValueDataType>, v: Value) -> bool {
    exists|f: nat| alias_ends(types, v, f)
}

/// The value that the alias chain from `v` ends at.
pub open spec fn resolved(types: Seq<ValueDataType>, v: Value) -> Value {
    alias_root(types, v, choose|f: nat| alias_ends(types, v, f))
}

/// Where an alias chain ends does not depend on the fuel, as long as it suffices.
pub proof fn lemma_alias_root_unique(types: Seq<ValueDataType>, v: Value, f: nat, g: nat)
    requires
        alias_ends(types, v, f),
        alias_ends(types, v, g),
    ensures
        alias_root(types, v, f) == alias_root(types, v, g),
        alias_root(types, v, f).0 < types.len(),
        !(types[alias_root(types, v, f).0 as int] is Alias),
    decreases f,
{
    match types[v.0 as int] {
        ValueDataType::Alias(a) => {
            lemma_alias_root_unique(types, a, (f - 1) as nat, (g - 1) as nat);
        },
        _ => {},
    }
}

/// A cursor over a window of the use list of a value, which can be walked from both ends.
#[derive(Clone, Copy, Debug, PartialEq, Eq, Structural)]
pub struct UseCursor {
    head: Option<Use>,
    tail: Option<Use>,
}

impl Default for UseCursor {
    /// An empty cursor.
    fn default() -> (r: Self)
        ensures
            r.spec_head() is None,
            r.spec_tail() is None,
    {
        UseCursor { head: None, tail: None }
    }
}

impl UseCursor {
    /// The cursor stands for the uses `list[lo..hi]`.
    pub open spec fn spans(self, list: Seq<Use>, lo: int, hi: int) -> bool {
        &&& 0 <= lo <= hi <= list.len()
        &&& self.spec_head() == (if lo < hi { Some(list[lo]) } else { None::<Use> })
        &&& self.spec_tail() == (if lo < hi { Some(list[hi - 1]) } else { None::<Use> })
    }

    /// The first use in the window.
    pub closed spec fn spec_head(self) -> Option<Use> {
        self.head
    }

    /// The last use in the window.
    pub closed spec fn spec_tail(self) -> Option<Use> {
        self.tail
    }

    /// The cursor stands for a window of the use list of some value of `vals`.
    pub open spec fn valid_for(self, vals: ValuesView) -> bool {
        exists|v: int, lo: int, hi: int| 0 <= v < vals.lists.len() && #[trigger] self.spans(vals.lists[v], lo, hi)
    }

    /// Take the first use of the window, if there is one.
    pub fn advance(&mut self, values: &DfgValues) -> (r: Option<Use>)
        requires
            values.wf(),
            old(self).valid_for(values@),
        ensures
            final(self).valid_for(values@),
            forall|v: int, lo: int, hi: int|
                0 <= v < values@.lists.len() && #[trigger] old(self).spans(values@.lists[v], lo, hi) ==> if lo < hi {
                    r == Some(values@.lists[v][lo]) && final(self).spans(values@.lists[v], lo + 1, hi)
                } else {
                    r is None && *final(self) == *old(self)
                },
    {
        proof {
            values.lemma_view();
        }
        let use_ = match self.head {
            Some(u) => u,
            None => {
                return None;
            },
        };
        let ghost c0 = *self;
        if self.head == self.tail {
            self.head = None;
            self.tail = None;
        } else {
            proof {
                let (v, lo, hi) = choose|v: int, lo: int, hi: int| 0 <= v < values@.lists.len() && #[trigger] c0.spans(values@.lists[v], lo, hi);
                assert(list_wf(values.defs@, values.uses@, values.lists@[v], v));
                assert(use_link_at(values.uses@, values.lists@[v], lo));
            }
            self.head = values.uses[use_.0 as usize].next;
        }
        proof {
            assert forall|v: int, lo: int, hi: int|
                0 <= v < values@.lists.len() && #[trigger] c0.spans(values@.lists[v], lo, hi) implies if lo < hi {
                Some(use_) == Some(values@.lists[v][lo]) && self.spans(values@.lists[v], lo + 1, hi)
            } else {
                false
            } by {
                let s = values@.lists[v];
                assert(list_wf(values.defs@, values.uses@, values.lists@[v], v));
                if c0.head == c0.tail {
                    assert(s[lo] == s[hi - 1]);
                } else {
                    assert(use_link_at(values.uses@, s, lo));
                    assert(lo != hi - 1);
                }
            }
            let (v, lo, hi) = choose|v: int, lo: int, hi: int| 0 <= v < values@.lists.len() && #[trigger] c0.spans(values@.lists[v], lo, hi);
            assert(self.spans(values@.lists[v], lo + 1, hi));
        }
        Some(use_)
    }

    /// Take the last use of the window, if there is one.
    pub fn advance_back(&mut self, values: &DfgValues) -> (r: Option<Use>)
        requires
            values.wf(),
            old(self).valid_for(values@),
        ensures
            final(self).valid_for(values@),
            forall|v: int, lo: int, hi: int|
                0 <= v < values@.lists.len() && #[trigger] old(self).spans(values@.lists[v], lo, hi) ==> if lo < hi {
                    r == Some(values@.lists[v][hi - 1]) && final(self).spans(values@.lists[v], lo, hi - 1)
                } else {
                    r is None && *final(self) == *old(self)
                },
    {
        proof {
            values.lemma_view();
        }
        let use_ = match self.tail {
            Some(u) => u,
            None => {
                return None;
            },
        };
        let ghost c0 = *self;
        if self.head == self.tail {
            self.head = None;
            self.tail = None;
        } else {
            proof {
                let (v, lo, hi) = choose|v: int, lo: int, hi: int| 0 <= v < values@.lists.len() && #[trigger] c0.spans(values@.lists[v], lo, hi);
                assert(list_wf(values.defs@, values.uses@, values.lists@[v], v));
                assert(use_link_at(values.uses@, values.lists@[v], hi - 1));
            }
            self.tail = values.uses[use_.0 as usize].prev;
        }
        proof {
            assert forall|v: int, lo: int, hi: int|
                0 <= v < values@.lists.len() && #[trigger] c0.spans(values@.lists[v], lo, hi) implies if lo < hi {
                Some(use_) == Some(values@.lists[v][hi - 1]) && self.spans(values@.lists[v], lo, hi - 1)
            } else {
                false
            } by {
                let s = values@.lists[v];
                assert(list_wf(values.defs@, values.uses@, values.lists@[v], v));
                if c0.head == c0.tail {
                    assert(s[lo] == s[hi - 1]);
                } else {
                    assert(use_link_at(values.uses@, s, hi - 1));
                    assert(lo != hi - 1);
                }
            }
            let (v, lo, hi) = choose|v: int, lo: int, hi: int| 0 <= v < values@.lists.len() && #[trigger] c0.spans(values@.lists[v], lo, hi);
            assert(self.spans(values@.lists[v], lo, hi - 1));
        }
        Some(use_)
    }
}

impl DfgValues {
    /// The tables stay addressable by `u32` and the use lists are well formed.
    pub closed spec fn wf(&self) -> bool {
        &&& self.defs@.len() < u32::MAX
        &&& self.uses@.len() < u32::MAX
        &&& lists_wf(self.defs@, self.uses@, self.lists@)
        &&& consts_valid(self@.consts, self.defs@.len())
    }

    /// Facts about the view of a well formed value table.
    pub proof fn lemma_view(&self)
        requires
            self.wf(),
        ensures
            self@.types.len() == self@.lists.len(),
            self@.tags.len() == self@.types.len(),
            self@.users.len() == self@.attached.len(),
            self@.types.len() < u32::MAX,
            self@.users.len() < u32::MAX,
            forall|v: int| 0 <= v < self@.lists.len() ==> (#[trigger] self@.lists[v]).no_duplicates(),
            forall|v: int, j: int|
                0 <= v < self@.lists.len() && 0 <= j < self@.lists[v].len() ==> (#[trigger] self@.lists[v][j]).0
                    < self@.users.len() && self@.attached[self@.lists[v][j].0 as int],
            forall|k: int|
                0 <= k < self@.users.len() && #[trigger] self@.attached[k] ==> exists|v: int|
                    0 <= v < self@.lists.len() && #[trigger] self@.lists[v].contains(Use(k as u32)),
            forall|v1: int, v2: int, u: Use|
                0 <= v1 < self@.lists.len() && 0 <= v2 < self@.lists.len() && #[trigger] self@.lists[v1].contains(u)
                    && #[trigger] self@.lists[v2].contains(u) ==> v1 == v2,
    {
        assert forall|v: int| 0 <= v < self@.lists.len() implies (#[trigger] self@.lists[v]).no_duplicates() by {
            assert(list_wf(self.defs@, self.uses@, self.lists@[v], v));
        }
        assert forall|v: int, j: int|
            0 <= v < self@.lists.len() && 0 <= j < self@.lists[v].len() implies (#[trigger] self@.lists[v][j]).0
                < self@.users.len() && self@.attached[self@.lists[v][j].0 as int] by {
            assert(list_wf(self.defs@, self.uses@, self.lists@[v], v));
            assert(use_link_at(self.uses@, self.lists@[v], j));
        }
        assert forall|k: int|
            0 <= k < self@.users.len() && #[trigger] self@.attached[k] implies exists|v: int|
                0 <= v < self@.lists.len() && #[trigger] self@.lists[v].contains(Use(k as u32)) by {
            assert(self@.attached[k] == self.uses@[k].attached);
            assert(self.uses@[k].attached);
            let v = choose|v: int| 0 <= v < self.lists@.len() && #[trigger] self.lists@[v].contains(Use(k as u32));
            assert(self@.lists[v].contains(Use(k as u32)));
        }
    }

    /// A table of `n` values of the given types, without tags or uses.
    fn with_types(types: &Vec<ValueDataType>) -> (r: Self)
        requires
            types@.len() < u32::MAX,
        ensures
            r.wf(),
            r@.types == types@,
            r@.tags == Seq::new(types@.len(), |i: int| None::<Tag>),
            r@.lists == Seq::new(types@.len(), |i: int| Seq::<Use>::empty()),
            r@.users.len() == 0,
            r@.consts.ints == Map::<i32, Value>::empty(),
            r@.consts.reals == Map::<u64, Value>::empty(),
            r@.consts.strs == Map::<u32, Value>::empty(),
    {
        let mut defs: Vec<ValueData> = Vec::new();
        let mut i: usize = 0;
        while i < types.len()
            invariant
                i <= types@.len(),
                defs@.len() == i,
                forall|k: int|
                    0 <= k < i ==> #[trigger] defs@[k] == (ValueData { ty: types@[k], uses_head: None, uses_tail: None, tag: None }),
            decreases types@.len() - i,
        {
            defs.push(ValueData { ty: types[i], uses_head: None, uses_tail: None, tag: None });
            i += 1;
        }
        let r = DfgValues {
            defs,
            uses: Vec::new(),
            lists: Ghost(Seq::new(types@.len(), |i: int| Seq::<Use>::empty())),
            int_consts: HashMap::new(),
            real_consts: HashMap::new(),
            str_consts: HashMap::new(),
        };
        proof {
            assert forall|v: int| 0 <= v < r.defs@.len() implies #[trigger] list_wf(r.defs@, r.uses@, r.lists@[v], v) by {
                assert(r.lists@[v] =~= Seq::<Use>::empty());
            }
            assert(r@.types =~= types@);
            assert(r@.tags =~= Seq::new(types@.len(), |i: int| None::<Tag>));
        }
        r
    }

    /// The predefined values, numbered from 0: the placeholder for removed values, false,
    /// true, and the constants 0.0, 0, 1, 1.0, -1.0, -ln 2, ln 2, log10 e, 2.0, -1, 10.0,
    /// 3.0 and infinity.
    pub open spec fn predefined() -> Seq<ValueDataType> {
        seq![
            ValueDataType::Invalid,
            ValueDataType::False,
            ValueDataType::True,
            ValueDataType::Fconst { val: Ieee64(0x0) },
            ValueDataType::Iconst { val: 0 },
            ValueDataType::Iconst { val: 1 },
            ValueDataType::Fconst { val: Ieee64(0x3ff0000000000000) },
            ValueDataType::Fconst { val: Ieee64(0xbff0000000000000) },
            ValueDataType::Fconst { val: Ieee64(0xbfe62e42fefa39ef) },
            ValueDataType::Fconst { val: Ieee64(0x3fe62e42fefa39ef) },
            ValueDataType::Fconst { val: Ieee64(0x3fdbcb7b1526e50e) },
            ValueDataType::Fconst { val: Ieee64(0x4000000000000000) },
            ValueDataType::Iconst { val: -1i32 },
            ValueDataType::Fconst { val: Ieee64(0x4024000000000000) },
            ValueDataType::Fconst { val: Ieee64(0x4008000000000000) },
            ValueDataType::Fconst { val: Ieee64(0x7ff0000000000000) },
        ]
    }

    /// A value table holding the predefined values, without tags or uses.
    pub fn new() -> (r: Self)
        ensures
            r.wf(),
            r@.types == Self::predefined(),
            r@.tags == Seq::new(16, |i: int| None::<Tag>),
            r@.lists == Seq::new(16, |i: int| Seq::<Use>::empty()),
            r@.users.len() == 0,
            r@.consts.ints == Self::predefined_ints(),
            r@.consts.reals == Self::predefined_reals(),
            r@.consts.strs == Map::<u32, Value>::empty(),
            ints_agree(r@),
    {
        let types = vec![
            ValueDataType::Invalid,
            ValueDataType::False,
            ValueDataType::True,
            ValueDataType::Fconst { val: Ieee64(0x0) },
            ValueDataType::Iconst { val: 0 },
            ValueDataType::Iconst { val: 1 },
            ValueDataType::Fconst { val: Ieee64(0x3ff0000000000000) },
            ValueDataType::Fconst { val: Ieee64(0xbff0000000000000) },
            ValueDataType::Fconst { val: Ieee64(0xbfe62e42fefa39ef) },
            ValueDataType::Fconst { val: Ieee64(0x3fe62e42fefa39ef) },
            ValueDataType::Fconst { val: Ieee64(0x3fdbcb7b1526e50e) },
            ValueDataType::Fconst { val: Ieee64(0x4000000000000000) },
            ValueDataType::Iconst { val: -1 },
            ValueDataType::Fconst { val: Ieee64(0x4024000000000000) },
            ValueDataType::Fconst { val: Ieee64(0x4008000000000000) },
            ValueDataType::Fconst { val: Ieee64(0x7ff0000000000000) },
        ];
        proof {
            assert(types@ =~= Self::predefined());
        }
        let mut r = Self::with_types(&types);
        r.int_consts.insert(0, Value(4));
        r.int_consts.insert(1, Value(5));
        r.int_consts.insert(-1, Value(12));
        r.real_consts.insert(0x0, Value(3));
        r.real_consts.insert(0x3ff0000000000000, Value(6));
        r.real_consts.insert(0xbff0000000000000, Value(7));
        r.real_consts.insert(0xbfe62e42fefa39ef, Value(8));
        r.real_consts.insert(0x3fe62e42fefa39ef, Value(9));
        r.real_consts.insert(0x3fdbcb7b1526e50e, Value(10));
        r.real_consts.insert(0x4000000000000000, Value(11));
        r.real_consts.insert(0x4024000000000000, Value(13));
        r.real_consts.insert(0x4008000000000000, Value(14));
        r.real_consts.insert(0x7ff0000000000000, Value(15));
        r.real_consts.insert(0x8000000000000000, Value(3));
        proof {
            assert(r@.consts.ints =~= Self::predefined_ints());
            assert(r@.consts.reals =~= Self::predefined_reals());
            assert forall|k: i32| #[trigger] r@.consts.ints.contains_key(k) implies r@.consts.ints[k].0 < r@.types.len()
                && r@.types[r@.consts.ints[k].0 as int] == ValueDataType::Iconst { val: k } by {
                assert(k == 0 || k == 1 || k == -1);
            }
        }
        r
    }

    /// The interned integer constants among the predefined values.
    pub open spec fn predefined_ints() -> Map<i32, Value> {
        map![0i32 => Value(4), 1i32 => Value(5), -1i32 => Value(12)]
    }

    /// The interned real constants among the predefined values, by their bits; negative zero
    /// is interned as positive zero.
    pub open spec fn predefined_reals() -> Map<u64, Value> {
        map![
            0x0u64 => Value(3),
            0x3ff0000000000000u64 => Value(6),
            0xbff0000000000000u64 => Value(7),
            0xbfe62e42fefa39efu64 => Value(8),
            0x3fe62e42fefa39efu64 => Value(9),
            0x3fdbcb7b1526e50eu64 => Value(10),
            0x4000000000000000u64 => Value(11),
            0x4024000000000000u64 => Value(13),
            0x4008000000000000u64 => Value(14),
            0x7ff0000000000000u64 => Value(15),
            0x8000000000000000u64 => Value(3)
        ]
    }

    /// Remove all values and uses.
    pub fn clear(&mut self)
        ensures
            final(self).wf(),
            final(self)@.types.len() == 0,
            final(self)@.users.len() == 0,
    {
        self.defs.clear();
        self.uses.clear();
        self.lists = Ghost(Seq::empty());
        self.int_consts.clear();
        self.real_consts.clear();
        self.str_consts.clear();
    }

    /// The number of values.
    pub fn num(&self) -> (r: usize)
        requires
            self.wf(),
        ensures
            r == self@.types.len(),
    {
        self.defs.len()
    }

    /// Is `v` a value of this table?
    pub fn is_valid(&self, v: Value) -> (r: bool)
        requires
            self.wf(),
        ensures
            r == (v.0 < self@.types.len()),
    {
        (v.0 as usize) < self.defs.len()
    }

    /// Is `v` unused?
    pub fn is_dead(&self, v: Value) -> (r: bool)
        requires
            self.wf(),
            v.0 < self@.types.len(),
        ensures
            r == (self@.lists[v.0 as int].len() == 0),
    {
        proof {
            assert(list_wf(self.defs@, self.uses@, self.lists@[v.0 as int], v.0 as int));
        }
        self.defs[v.0 as usize].uses_head.is_none()
    }

    /// The definition of `v`; an alias counts as invalid.
    pub fn def(&self, v: Value) -> (r: ValueDef)
        requires
            self.wf(),
            v.0 < self@.types.len(),
        ensures
            r == spec_def(self@.types[v.0 as int]),
    {
        match self.defs[v.0 as usize].ty {
            ValueDataType::Inst { inst, idx } => ValueDef::Result(inst, idx as usize),
            ValueDataType::Param { param } => ValueDef::Param(param),
            ValueDataType::Fconst { val } => ValueDef::Const(Const::Float(val)),
            ValueDataType::Iconst { val } => ValueDef::Const(Const::Int(val)),
            ValueDataType::Sconst { val } => ValueDef::Const(Const::Str(val)),
            ValueDataType::True => ValueDef::Const(Const::Bool(true)),
            ValueDataType::False => ValueDef::Const(Const::Bool(false)),
            ValueDataType::Alias(_) | ValueDataType::Invalid => ValueDef::Invalid,
        }
    }

    /// The tag of `val`.
    pub fn get_tag(&self, val: Value) -> (r: Option<Tag>)
        requires
            self.wf(),
            val.0 < self@.types.len(),
        ensures
            r == self@.tags[val.0 as int],
    {
        self.defs[val.0 as usize].tag
    }

    /// Set the tag of `val`.
    pub fn set_tag(&mut self, val: Value, tag: Option<Tag>)
        requires
            old(self).wf(),
            val.0 < old(self)@.types.len(),
        ensures
            final(self).wf(),
            final(self)@.tags == old(self)@.tags.update(val.0 as int, tag),
            final(self)@.types == old(self)@.types,
            final(self)@.lists == old(self)@.lists,
            final(self)@.users == old(self)@.users,
            final(self)@.consts == old(self)@.consts,
            final(self)@.attached == old(self)@.attached,
    {
        let i = val.0 as usize;
        let d = self.defs[i];
        self.defs.set(i, ValueData { tag, ..d });
        proof {
            self.lemma_same_links(old(self).defs@, i as int);
            assert(final(self)@.tags =~= old(self)@.tags.update(val.0 as int, tag));
            assert(final(self)@.types =~= old(self)@.types);
        }
    }

    /// Replacing the type or tag of value `i` keeps the lists well formed.
    proof fn lemma_same_links(&self, old_defs: Seq<ValueData>, i: int)
        requires
            lists_wf(old_defs, self.uses@, self.lists@),
            self.defs@.len() == old_defs.len(),
            0 <= i < old_defs.len(),
            forall|k: int| 0 <= k < old_defs.len() && k != i ==> self.defs@[k] == old_defs[k],
            self.defs@[i].uses_head == old_defs[i].uses_head,
            self.defs@[i].uses_tail == old_defs[i].uses_tail,
        ensures
            lists_wf(self.defs@, self.uses@, self.lists@),
    {
        assert forall|v: int| 0 <= v < self.defs@.len() implies #[trigger] list_wf(self.defs@, self.uses@, self.lists@[v], v) by {
            assert(list_wf(old_defs, self.uses@, self.lists@[v], v));
        }
    }

    /// Append a value of type `ty` with tag `tag`.
    pub fn make(&mut self, ty: ValueDataType, tag: Option<Tag>) -> (r: Value)
        requires
            old(self).wf(),
            old(self)@.types.len() + 1 < u32::MAX,
        ensures
            final(self).wf(),
            r.0 == old(self)@.types.len(),
            final(self)@.types == old(self)@.types.push(ty),
            final(self)@.tags == old(self)@.tags.push(tag),
            final(self)@.lists == old(self)@.lists.push(Seq::<Use>::empty()),
            final(self)@.users == old(self)@.users,
            final(self)@.consts == old(self)@.consts,
            final(self)@.attached == old(self)@.attached,
    {
        let n = self.defs.len();
        let ghost old_defs = self.defs@;
        self.defs.push(ValueData { ty, uses_head: None, uses_tail: None, tag });
        self.lists = Ghost(self.lists@.push(Seq::empty()));
        proof {
            let defs = self.defs@;
            let lists = self.lists@;
            assert forall|v: int| 0 <= v < defs.len() implies #[trigger] list_wf(defs, self.uses@, lists[v], v) by {
                if v < n {
                    assert(list_wf(old_defs, self.uses@, old(self).lists@[v], v));
                    assert(lists[v] == old(self).lists@[v]);
                } else {
                    assert(lists[v] =~= Seq::<Use>::empty());
                }
            }
            assert forall|k: int|
                0 <= k < self.uses@.len() && (#[trigger] self.uses@[k]).attached implies exists|v: int|
                    0 <= v < lists.len() && #[trigger] lists[v].contains(Use(k as u32)) by {
                let v = choose|v: int| 0 <= v < old(self).lists@.len() && #[trigger] old(self).lists@[v].contains(Use(k as u32));
                assert(lists[v] == old(self).lists@[v]);
            }
            assert forall|v1: int, v2: int, u: Use|
                0 <= v1 < lists.len() && 0 <= v2 < lists.len() && #[trigger] lists[v1].contains(u) && #[trigger] lists[v2].contains(u)
                    implies v1 == v2 by {
                if v1 < n && v2 < n {
                    assert(lists[v1] == old(self).lists@[v1]);
                    assert(lists[v2] == old(self).lists@[v2]);
                } else if v1 == n {
                    assert(lists[v1] =~= Seq::<Use>::empty());
                } else {
                    assert(lists[v2] =~= Seq::<Use>::empty());
                }
            }
            assert(final(self)@.types =~= old(self)@.types.push(ty));
            assert(final(self)@.tags =~= old(self)@.tags.push(tag));
        }
        Value(n as u32)
    }

    /// Append an invalid value.
    pub fn make_invalid(&mut self) -> (r: Value)
        requires
            old(self).wf(),
            old(self)@.types.len() + 1 < u32::MAX,
        ensures
            final(self).wf(),
            r.0 == old(self)@.types.len(),
            final(self)@.types == old(self)@.types.push(ValueDataType::Invalid),
            final(self)@.tags == old(self)@.tags.push(None),
            final(self)@.lists == old(self)@.lists.push(Seq::<Use>::empty()),
            final(self)@.users == old(self)@.users,
            final(self)@.consts == old(self)@.consts,
            final(self)@.attached == old(self)@.attached,
    {
        self.make(ValueDataType::Invalid, None)
    }

    /// Append a value for function parameter `param`.
    pub fn make_param(&mut self, param: Param) -> (r: Value)
        requires
            old(self).wf(),
            old(self)@.types.len() + 1 < u32::MAX,
        ensures
            final(self).wf(),
            r.0 == old(self)@.types.len(),
            final(self)@.types == old(self)@.types.push(ValueDataType::Param { param }),
            final(self)@.tags == old(self)@.tags.push(None),
            final(self)@.lists == old(self)@.lists.push(Seq::<Use>::empty()),
            final(self)@.users == old(self)@.users,
            final(self)@.consts == old(self)@.consts,
            final(self)@.attached == old(self)@.attached,
    {
        self.make(ValueDataType::Param { param }, None)
    }

    /// Append an alias of `val`.
    pub fn make_alias(&mut self, val: Value) -> (r: Value)
        requires
            old(self).wf(),
            old(self)@.types.len() + 1 < u32::MAX,
        ensures
            final(self).wf(),
            r.0 == old(self)@.types.len(),
            final(self)@.types == old(self)@.types.push(ValueDataType::Alias(val)),
            final(self)@.tags == old(self)@.tags.push(None),
            final(self)@.lists == old(self)@.lists.push(Seq::<Use>::empty()),
            final(self)@.users == old(self)@.users,
            final(self)@.consts == old(self)@.consts,
            final(self)@.attached == old(self)@.attached,
    {
        self.make(ValueDataType::Alias(val), None)
    }

    /// Change the type of value `dst`.
    fn set_type(&mut self, dst: Value, ty: ValueDataType)
        requires
            old(self).wf(),
            dst.0 < old(self)@.types.len(),
        ensures
            final(self).wf(),
            final(self)@.types == old(self)@.types.update(dst.0 as int, ty),
            final(self)@.tags == old(self)@.tags,
            final(self)@.lists == old(self)@.lists,
            final(self)@.users == old(self)@.users,
            final(self)@.consts == old(self)@.consts,
            final(self)@.attached == old(self)@.attached,
    {
        let i = dst.0 as usize;
        let d = self.defs[i];
        self.defs.set(i, ValueData { ty, ..d });
        proof {
            self.lemma_same_links(old(self).defs@, i as int);
            assert(final(self)@.types =~= old(self)@.types.update(dst.0 as int, ty));
            assert(final(self)@.tags =~= old(self)@.tags);
        }
    }

    /// Make `val` the function parameter `param`.
    pub fn make_param_at(&mut self, param: Param, val: Value)
        requires
            old(self).wf(),
            val.0 < old(self)@.types.len(),
        ensures
            final(self).wf(),
            final(self)@.types == old(self)@.types.update(val.0 as int, ValueDataType::Param { param }),
            final(self)@.tags == old(self)@.tags,
            final(self)@.lists == old(self)@.lists,
            final(self)@.users == old(self)@.users,
            final(self)@.consts == old(self)@.consts,
            final(self)@.attached == old(self)@.attached,
    {
        self.set_type(val, ValueDataType::Param { param });
    }

    /// Make `dst` an alias of `val`.
    pub fn make_alias_at(&mut self, val: Value, dst: Value)
        requires
            old(self).wf(),
            dst.0 < old(self)@.types.len(),
        ensures
            final(self).wf(),
            final(self)@.types == old(self)@.types.update(dst.0 as int, ValueDataType::Alias(val)),
            final(self)@.tags == old(self)@.tags,
            final(self)@.lists == old(self)@.lists,
            final(self)@.users == old(self)@.users,
            final(self)@.consts == old(self)@.consts,
            final(self)@.attached == old(self)@.attached,
    {
        self.set_type(dst, ValueDataType::Alias(val));
    }

    /// The instruction of use `use_`.
    pub fn use_to_user(&self, use_: Use) -> (r: Inst)
        requires
            self.wf(),
            use_.0 < self@.users.len(),
        ensures
            r == self@.users[use_.0 as int].0,
    {
        self.uses[use_.0 as usize].user
    }

    /// The operand position of use `use_` in its instruction.
    pub fn use_idx(&self, use_: Use) -> (r: u16)
        requires
            self.wf(),
            use_.0 < self@.users.len(),
        ensures
            r == self@.users[use_.0 as int].1,
    {
        self.uses[use_.0 as usize].idx
    }

    /// The number of uses made.
    pub fn num_uses(&self) -> (r: usize)
        requires
            self.wf(),
        ensures
            r == self@.users.len(),
    {
        proof {
            self.lemma_view();
        }
        self.uses.len()
    }

    /// Is `use_` in no use list?
    pub fn is_use_detached(&self, use_: Use) -> (r: bool)
        requires
            self.wf(),
            use_.0 < self@.users.len(),
        ensures
            r == !self@.attached[use_.0 as int],
    {
        !self.uses[use_.0 as usize].attached
    }

    /// The uses of `value`, most recent first.
    pub fn uses(&self, value: Value) -> (r: Vec<Use>)
        requires
            self.wf(),
            value.0 < self@.types.len(),
        ensures
            r@ == self@.lists[value.0 as int],
    {
        let ghost s = self.lists@[value.0 as int];
        proof {
            assert(list_wf(self.defs@, self.uses@, s, value.0 as int));
        }
        let mut r: Vec<Use> = Vec::new();
        let mut cur = self.defs[value.0 as usize].uses_head;
        while cur.is_some()
            invariant
                self.wf(),
                list_wf(self.defs@, self.uses@, s, value.0 as int),
                r@.len() <= s.len(),
                r@ == s.take(r@.len() as int),
                cur == (if r@.len() < s.len() { Some(s[r@.len() as int]) } else { None::<Use> }),
            decreases s.len() - r@.len(),
        {
            let u = cur.unwrap();
            let ghost j = r@.len() as int;
            proof {
                assert(use_link_at(self.uses@, s, j));
            }
            r.push(u);
            cur = self.uses[u.0 as usize].next;
            proof {
                assert(r@ =~= s.take(j + 1));
            }
        }
        proof {
            assert(r@ =~= s);
        }
        r
    }

    /// A detached use is in no list.
    proof fn lemma_detached_unlisted(&self, k: int)
        requires
            self.wf(),
            0 <= k < self.uses@.len(),
            !self.uses@[k].attached,
        ensures
            forall|v: int| 0 <= v < self.lists@.len() ==> !(#[trigger] self.lists@[v]).contains(Use(k as u32)),
    {
        assert forall|v: int| 0 <= v < self.lists@.len() implies !(#[trigger] self.lists@[v]).contains(Use(k as u32)) by {
            let s = self.lists@[v];
            assert(list_wf(self.defs@, self.uses@, s, v));
            if s.contains(Use(k as u32)) {
                let j = choose|j: int| 0 <= j < s.len() && s[j] == Use(k as u32);
                assert(use_link_at(self.uses@, s, j));
            }
        }
    }

    /// Attach the detached use `use_` to `val`, at the head of its list.
    #[verifier::spinoff_prover]
    pub fn attach_use(&mut self, use_: Use, val: Value)
        requires
            old(self).wf(),
            use_.0 < old(self)@.users.len(),
            val.0 < old(self)@.types.len(),
            !old(self)@.attached[use_.0 as int],
        ensures
            final(self).wf(),
            final(self)@.lists == old(self)@.lists.update(val.0 as int, seq![use_] + old(self)@.lists[val.0 as int]),
            final(self)@.attached == old(self)@.attached.update(use_.0 as int, true),
            final(self)@.users == old(self)@.users,
            final(self)@.consts == old(self)@.consts,
            final(self)@.types == old(self)@.types,
            final(self)@.tags == old(self)@.tags,
    {
        let vi = val.0 as usize;
        let k = use_.0 as usize;
        let ghost defs0 = self.defs@;
        let ghost uses0 = self.uses@;
        let ghost lists0 = self.lists@;
        let ghost s = lists0[vi as int];
        proof {
            assert(self@.attached[k as int] == uses0[k as int].attached);
            self.lemma_detached_unlisted(k as int);
            assert(list_wf(defs0, uses0, s, vi as int));
        }
        let d = self.defs[vi];
        let ud = self.uses[k];
        self.uses.set(k, UseData { attached: true, prev: None, next: d.uses_head, ..ud });
        match d.uses_head {
            Some(h) => {
                proof {
                    assert(use_link_at(uses0, s, 0));
                }
                let hd = self.uses[h.0 as usize];
                self.uses.set(h.0 as usize, UseData { prev: Some(use_), ..hd });
                self.defs.set(vi, ValueData { uses_head: Some(use_), ..d });
            },
            None => {
                self.defs.set(vi, ValueData { uses_head: Some(use_), uses_tail: Some(use_), ..d });
            },
        }
        let ghost s1 = seq![use_] + s;
        self.lists = Ghost(lists0.update(vi as int, s1));
        proof {
            let defs1 = self.defs@;
            let uses1 = self.uses@;
            let lists1 = self.lists@;
            assert forall|x: Use| #[trigger] s1.contains(x) <==> (x == use_ || s.contains(x)) by {
                if s.contains(x) {
                    let j = choose|j: int| 0 <= j < s.len() && s[j] == x;
                    assert(s1[j + 1] == x);
                }
                if s1.contains(x) && x != use_ {
                    let j = choose|j: int| 0 <= j < s1.len() && s1[j] == x;
                    assert(s[j - 1] == x);
                }
                if x == use_ {
                    assert(s1[0] == x);
                }
            }
            assert forall|v: int| 0 <= v < defs1.len() implies #[trigger] list_wf(defs1, uses1, lists1[v], v) by {
                assert(list_wf(defs0, uses0, lists0[v], v));
                if v == vi {
                    assert(s1.no_duplicates()) by {
                        assert forall|i: int, j: int| 0 <= i < j < s1.len() implies s1[i] != s1[j] by {
                            if i == 0 {
                                assert(s.contains(s1[j]));
                            }
                        }
                    }
                    assert forall|j: int| 0 <= j < s1.len() implies #[trigger] use_link_at(uses1, s1, j) by {
                        if j > 0 {
                            assert(use_link_at(uses0, s, j - 1));
                            assert(s.contains(s[j - 1]));
                            if j > 1 {
                                assert(s[j - 1] != s[0]);
                            }
                        }
                    }
                } else {
                    let t = lists0[v];
                    assert forall|j: int| 0 <= j < t.len() implies #[trigger] use_link_at(uses1, t, j) by {
                        assert(use_link_at(uses0, t, j));
                        assert(t.contains(t[j]));
                        if s.len() > 0 && t[j] == s[0] {
                            assert(s.contains(s[0]));
                        }
                    }
                }
            }
            assert forall|q: int| 0 <= q < uses1.len() && (#[trigger] uses1[q]).attached implies exists|v: int|
                0 <= v < lists1.len() && #[trigger] lists1[v].contains(Use(q as u32)) by {
                if q == k {
                    assert(lists1[vi as int].contains(Use(q as u32)));
                } else {
                    assert(uses0[q].attached);
                    let v = choose|v: int| 0 <= v < lists0.len() && #[trigger] lists0[v].contains(Use(q as u32));
                    assert(lists1[v].contains(Use(q as u32)));
                }
            }
            assert forall|q: int| 0 <= q < uses1.len() && !(#[trigger] uses1[q]).attached implies uses1[q].prev is None
                && uses1[q].next is None by {
                assert(!uses0[q].attached);
            }
            assert forall|v1: int, v2: int, u: Use|
                0 <= v1 < lists1.len() && 0 <= v2 < lists1.len() && #[trigger] lists1[v1].contains(u)
                    && #[trigger] lists1[v2].contains(u) implies v1 == v2 by {
                if u == use_ {
                    if v1 != vi {
                        assert(lists0[v1].contains(u));
                    }
                    if v2 != vi {
                        assert(lists0[v2].contains(u));
                    }
                } else {
                    assert(lists0[v1].contains(u));
                    assert(lists0[v2].contains(u));
                }
            }
            assert(final(self)@.attached =~= old(self)@.attached.update(use_.0 as int, true));
            assert(final(self)@.users =~= old(self)@.users);
            assert(final(self)@.types =~= old(self)@.types);
            assert(final(self)@.tags =~= old(self)@.tags);
        }
    }

    /// Create a use of `val` as argument `idx` of `user`, at the head of the use list of `val`.
    pub fn make_use(&mut self, val: Value, user: Inst, idx: u16) -> (r: Use)
        requires
            old(self).wf(),
            val.0 < old(self)@.types.len(),
            old(self)@.users.len() + 1 < u32::MAX,
        ensures
            final(self).wf(),
            r.0 == old(self)@.users.len(),
            final(self)@.users == old(self)@.users.push((user, idx)),
            final(self)@.attached == old(self)@.attached.push(true),
            final(self)@.lists == old(self)@.lists.update(val.0 as int, seq![r] + old(self)@.lists[val.0 as int]),
            final(self)@.types == old(self)@.types,
            final(self)@.tags == old(self)@.tags,
            final(self)@.consts == old(self)@.consts,
    {
        let n = self.uses.len();
        let ghost uses0 = self.uses@;
        self.uses.push(UseData { user, idx, attached: false, prev: None, next: None });
        proof {
            let uses1 = self.uses@;
            let lists = self.lists@;
            assert forall|v: int| 0 <= v < self.defs@.len() implies #[trigger] list_wf(self.defs@, uses1, lists[v], v) by {
                assert(list_wf(self.defs@, uses0, lists[v], v));
                assert forall|j: int| 0 <= j < lists[v].len() implies #[trigger] use_link_at(uses1, lists[v], j) by {
                    assert(use_link_at(uses0, lists[v], j));
                }
            }
            assert forall|q: int| 0 <= q < uses1.len() && (#[trigger] uses1[q]).attached implies exists|v: int|
                0 <= v < lists.len() && #[trigger] lists[v].contains(Use(q as u32)) by {
                assert(uses0[q].attached);
            }
            assert forall|q: int| 0 <= q < uses1.len() && !(#[trigger] uses1[q]).attached implies uses1[q].prev is None
                && uses1[q].next is None by {
                if q < n {
                    assert(!uses0[q].attached);
                }
            }
            assert(self@.attached == old(self)@.attached.push(false));
            assert(self@.users == old(self)@.users.push((user, idx)));
        }
        let r = Use(n as u32);
        self.attach_use(r, val);
        proof {
            assert(final(self)@.attached =~= old(self)@.attached.push(true));
        }
        r
    }

    /// Take `use_` out of the use list of `val`, the value it refers to; a detached use
    /// stays as it is.
    #[verifier::spinoff_prover]
    #[verifier::rlimit(50)]
    pub fn detach_use(&mut self, use_: Use, val: Value)
        requires
            old(self).wf(),
            use_.0 < old(self)@.users.len(),
            val.0 < old(self)@.types.len(),
            old(self)@.attached[use_.0 as int] ==> old(self)@.lists[val.0 as int].contains(use_),
        ensures
            final(self).wf(),
            final(self)@.lists == (if old(self)@.attached[use_.0 as int] {
                old(self)@.lists.update(
                    val.0 as int,
                    old(self)@.lists[val.0 as int].remove(old(self)@.lists[val.0 as int].index_of(use_)),
                )
            } else {
                old(self)@.lists
            }),
            final(self)@.attached == old(self)@.attached.update(use_.0 as int, false),
            final(self)@.users == old(self)@.users,
            final(self)@.consts == old(self)@.consts,
            final(self)@.types == old(self)@.types,
            final(self)@.tags == old(self)@.tags,
    {
        let vi = val.0 as usize;
        let k = use_.0 as usize;
        let ghost defs0 = self.defs@;
        let ghost uses0 = self.uses@;
        let ghost lists0 = self.lists@;
        let ghost s = lists0[vi as int];
        let ud = self.uses[k];
        self.uses.set(k, UseData { attached: false, prev: None, next: None, ..ud });
        proof {
            assert(old(self)@.attached[k as int] == uses0[k as int].attached);
            assert(list_wf(defs0, uses0, s, vi as int));
        }
        if !ud.attached {
            proof {
                let uses1 = self.uses@;
                self.lemma_detached_unlisted_in(defs0, uses0, k as int);
                assert forall|v: int| 0 <= v < self.defs@.len() implies #[trigger] list_wf(self.defs@, uses1, lists0[v], v) by {
                    let t = lists0[v];
                    assert(list_wf(defs0, uses0, t, v));
                    assert forall|j: int| 0 <= j < t.len() implies #[trigger] use_link_at(uses1, t, j) by {
                        assert(use_link_at(uses0, t, j));
                        assert(t.contains(t[j]));
                    }
                }
                assert forall|q: int| 0 <= q < uses1.len() && (#[trigger] uses1[q]).attached implies exists|v: int|
                    0 <= v < lists0.len() && #[trigger] lists0[v].contains(Use(q as u32)) by {
                    assert(uses0[q].attached);
                }
                assert forall|q: int| 0 <= q < uses1.len() && !(#[trigger] uses1[q]).attached implies uses1[q].prev is None
                    && uses1[q].next is None by {
                    assert(!uses0[q].attached);
                }
                assert(final(self)@.attached =~= old(self)@.attached.update(use_.0 as int, false));
                assert(final(self)@.users =~= old(self)@.users);
            }
            return;
        }
        let ghost p = s.index_of(use_);
        proof {
            assert(s[p] == use_);
            assert(use_link_at(uses0, s, p));
        }
        match (ud.next, ud.prev) {
            (Some(nx), Some(pv)) => {
                proof {
                    assert(use_link_at(uses0, s, p + 1));
                    assert(use_link_at(uses0, s, p - 1));
                }
                let nd = self.uses[nx.0 as usize];
                self.uses.set(nx.0 as usize, UseData { prev: Some(pv), ..nd });
                let pd = self.uses[pv.0 as usize];
                self.uses.set(pv.0 as usize, UseData { next: Some(nx), ..pd });
            },
            (None, None) => {
                let d = self.defs[vi];
                self.defs.set(vi, ValueData { uses_head: None, uses_tail: None, ..d });
            },
            (Some(nx), None) => {
                proof {
                    assert(use_link_at(uses0, s, p + 1));
                }
                let d = self.defs[vi];
                self.defs.set(vi, ValueData { uses_head: Some(nx), ..d });
                let nd = self.uses[nx.0 as usize];
                self.uses.set(nx.0 as usize, UseData { prev: None, ..nd });
            },
            (None, Some(pv)) => {
                proof {
                    assert(use_link_at(uses0, s, p - 1));
                }
                let d = self.defs[vi];
                self.defs.set(vi, ValueData { uses_tail: Some(pv), ..d });
                let pd = self.uses[pv.0 as usize];
                self.uses.set(pv.0 as usize, UseData { next: None, ..pd });
            },
        }
        let ghost s1 = s.remove(p);
        self.lists = Ghost(lists0.update(vi as int, s1));
        proof {
            let defs1 = self.defs@;
            let uses1 = self.uses@;
            let lists1 = self.lists@;
            assert forall|x: Use| #[trigger] s1.contains(x) <==> (x != use_ && s.contains(x)) by {
                if s.contains(x) && x != use_ {
                    let j = choose|j: int| 0 <= j < s.len() && s[j] == x;
                    if j < p {
                        assert(s1[j] == x);
                    } else {
                        assert(s1[j - 1] == x);
                    }
                }
                if s1.contains(x) {
                    let j = choose|j: int| 0 <= j < s1.len() && s1[j] == x;
                    if j < p {
                        assert(s[j] == x);
                    } else {
                        assert(s[j + 1] == x);
                    }
                }
            }
            assert forall|v: int| 0 <= v < defs1.len() implies #[trigger] list_wf(defs1, uses1, lists1[v], v) by {
                assert(list_wf(defs0, uses0, lists0[v], v));
                if v == vi {
                    assert(s1.no_duplicates()) by {
                        assert forall|i: int, j: int| 0 <= i < j < s1.len() implies s1[i] != s1[j] by {
                            let i0 = if i < p { i } else { i + 1 };
                            let j0 = if j < p { j } else { j + 1 };
                            assert(s1[i] == s[i0]);
                            assert(s1[j] == s[j0]);
                        }
                    }
                    assert forall|j: int| 0 <= j < s1.len() implies #[trigger] use_link_at(uses1, s1, j) by {
                        let j0 = if j < p { j } else { j + 1 };
                        assert(s1[j] == s[j0]);
                        assert(use_link_at(uses0, s, j0));
                        if j0 > 0 {
                            assert(s[j0 - 1] != use_ || j0 - 1 == p);
                        }
                    }
                } else {
                    let t = lists0[v];
                    assert forall|j: int| 0 <= j < t.len() implies #[trigger] use_link_at(uses1, t, j) by {
                        assert(use_link_at(uses0, t, j));
                        assert(t.contains(t[j]));
                        if 0 <= p + 1 < s.len() && t[j] == s[p + 1] {
                            assert(s.contains(s[p + 1]));
                        }
                        if 0 <= p - 1 && t[j] == s[p - 1] {
                            assert(s.contains(s[p - 1]));
                        }
                        assert(s.contains(s[p]));
                    }
                }
            }
            assert forall|q: int| 0 <= q < uses1.len() && (#[trigger] uses1[q]).attached implies exists|v: int|
                0 <= v < lists1.len() && #[trigger] lists1[v].contains(Use(q as u32)) by {
                assert(uses0[q].attached);
                let v = choose|v: int| 0 <= v < lists0.len() && #[trigger] lists0[v].contains(Use(q as u32));
                assert(lists1[v].contains(Use(q as u32)));
            }
            assert forall|q: int| 0 <= q < uses1.len() && !(#[trigger] uses1[q]).attached implies uses1[q].prev is None
                && uses1[q].next is None by {
                if q != k {
                    assert(!uses0[q].attached);
                }
            }
            assert forall|v1: int, v2: int, u: Use|
                0 <= v1 < lists1.len() && 0 <= v2 < lists1.len() && #[trigger] lists1[v1].contains(u)
                    && #[trigger] lists1[v2].contains(u) implies v1 == v2 by {
                assert(lists0[v1].contains(u));
                assert(lists0[v2].contains(u));
            }
            assert(final(self)@.attached =~= old(self)@.attached.update(use_.0 as int, false));
            assert(final(self)@.users =~= old(self)@.users);
            assert(final(self)@.types =~= old(self)@.types);
            assert(final(self)@.tags =~= old(self)@.tags);
        }
    }

    /// A detached use is in no list (stated over the raw tables).
    proof fn lemma_detached_unlisted_in(&self, defs0: Seq<ValueData>, uses0: Seq<UseData>, k: int)
        requires
            lists_wf(defs0, uses0, self.lists@),
            0 <= k < uses0.len(),
            uses0.len() < u32::MAX,
            !uses0[k].attached,
        ensures
            forall|v: int| 0 <= v < self.lists@.len() ==> !(#[trigger] self.lists@[v]).contains(Use(k as u32)),
    {
        assert forall|v: int| 0 <= v < self.lists@.len() implies !(#[trigger] self.lists@[v]).contains(Use(k as u32)) by {
            let s = self.lists@[v];
            assert(list_wf(defs0, uses0, s, v));
            if s.contains(Use(k as u32)) {
                let j = choose|j: int| 0 <= j < s.len() && s[j] == Use(k as u32);
                assert(use_link_at(uses0, s, j));
            }
        }
    }

    /// The value that `v` is an alias of, if it is one.
    pub(crate) fn alias_of(&self, v: Value) -> (r: Option<Value>)
        requires
            self.wf(),
            v.0 < self@.types.len(),
        ensures
            r == (match self@.types[v.0 as int] {
                ValueDataType::Alias(a) => Some(a),
                _ => None,
            }),
    {
        match self.defs[v.0 as usize].ty {
            ValueDataType::Alias(a) => Some(a),
            _ => None,
        }
    }

    /// Follow the aliases from `v` to the value they end at.
    pub(crate) fn alias_target(&self, v: Value) -> (r: Value)
        requires
            self.wf(),
            exists|f: nat| alias_ends(self@.types, v, f),
        ensures
            forall|f: nat| alias_ends(self@.types, v, f) ==> r == alias_root(self@.types, v, f),
            r.0 < self@.types.len(),
            !(self@.types[r.0 as int] is Alias),
    {
        let ghost types = self@.types;
        let ghost f0 = choose|f: nat| alias_ends(types, v, f);
        let mut cur = v;
        let ghost mut fuel = f0;
        loop
            invariant
                self.wf(),
                types == self@.types,
                alias_ends(types, cur, fuel),
                alias_root(types, v, f0) == alias_root(types, cur, fuel),
            ensures
                alias_root(types, v, f0) == cur,
                cur.0 < types.len(),
                !(types[cur.0 as int] is Alias),
            decreases fuel,
        {
            match self.alias_of(cur) {
                Some(a) => {
                    cur = a;
                    proof {
                        fuel = (fuel - 1) as nat;
                    }
                },
                None => {
                    proof {
                        if fuel > 0 {
                            assert(alias_root(types, cur, fuel) == cur);
                        }
                    }
                    break;
                },
            }
        }
        proof {
            assert forall|f: nat| alias_ends(types, v, f) implies cur == alias_root(types, v, f) by {
                lemma_alias_root_unique(types, v, f0, f);
            }
        }
        cur
    }

    /// The definition of `v`, following aliases.
    pub fn def_allow_alias(&self, v: Value) -> (r: ValueDef)
        requires
            self.wf(),
            exists|f: nat| alias_ends(self@.types, v, f),
        ensures
            forall|f: nat|
                alias_ends(self@.types, v, f) ==> r == spec_def(self@.types[alias_root(self@.types, v, f).0 as int]),
    {
        let t = self.alias_target(v);
        self.def(t)
    }

    /// Move every use of `dst` to `src`: the use list of `dst` is put in front of that of
    /// `src` and emptied; `src` takes the tag of `dst` if it has none.
    #[verifier::spinoff_prover]
    #[verifier::rlimit(50)]
    pub(crate) fn move_uses(&mut self, dst: Value, src: Value)
        requires
            old(self).wf(),
            dst.0 < old(self)@.types.len(),
            src.0 < old(self)@.types.len(),
            dst != src,
        ensures
            final(self).wf(),
            final(self)@.lists == old(self)@.lists.update(
                src.0 as int,
                old(self)@.lists[dst.0 as int] + old(self)@.lists[src.0 as int],
            ).update(dst.0 as int, Seq::<Use>::empty()),
            final(self)@.tags == (if old(self)@.tags[src.0 as int] is None {
                old(self)@.tags.update(src.0 as int, old(self)@.tags[dst.0 as int])
            } else {
                old(self)@.tags
            }),
            final(self)@.types == old(self)@.types,
            final(self)@.users == old(self)@.users,
            final(self)@.consts == old(self)@.consts,
            final(self)@.attached == old(self)@.attached,
    {
        let di = dst.0 as usize;
        let si = src.0 as usize;
        if self.defs[si].tag.is_none() {
            let t = self.defs[di].tag;
            self.set_tag(src, t);
        }
        let ghost defs0 = self.defs@;
        let ghost uses0 = self.uses@;
        let ghost lists0 = self.lists@;
        let ghost dl = lists0[di as int];
        let ghost sl = lists0[si as int];
        proof {
            assert(list_wf(defs0, uses0, dl, di as int));
            assert(list_wf(defs0, uses0, sl, si as int));
        }
        let dd = self.defs[di];
        match dd.uses_head {
            None => {
                proof {
                    assert(dl.len() == 0);
                    assert(dl =~= Seq::<Use>::empty());
                    assert(dl + sl =~= sl);
                    assert(lists0.update(si as int, dl + sl).update(di as int, Seq::<Use>::empty()) =~= lists0);
                }
            },
            Some(new_head) => {
                let sd = self.defs[si];
                match sd.uses_head {
                    Some(old_head) => {
                        let old_tail = dd.uses_tail.unwrap();
                        proof {
                            assert(use_link_at(uses0, dl, dl.len() - 1));
                            assert(use_link_at(uses0, sl, 0));
                        }
                        let td = self.uses[old_tail.0 as usize];
                        self.uses.set(old_tail.0 as usize, UseData { next: Some(old_head), ..td });
                        let hd = self.uses[old_head.0 as usize];
                        self.uses.set(old_head.0 as usize, UseData { prev: Some(old_tail), ..hd });
                        self.defs.set(si, ValueData { uses_head: Some(new_head), ..sd });
                    },
                    None => {
                        self.defs.set(si, ValueData { uses_head: Some(new_head), uses_tail: dd.uses_tail, ..sd });
                    },
                }
                self.defs.set(di, ValueData { uses_head: None, uses_tail: None, ..dd });
                let ghost s1 = dl + sl;
                self.lists = Ghost(lists0.update(si as int, s1).update(di as int, Seq::<Use>::empty()));
                proof {
                    let defs1 = self.defs@;
                    let uses1 = self.uses@;
                    let lists1 = self.lists@;
                    assert forall|x: Use| #[trigger] s1.contains(x) <==> (dl.contains(x) || sl.contains(x)) by {
                        if dl.contains(x) {
                            let j = choose|j: int| 0 <= j < dl.len() && dl[j] == x;
                            assert(s1[j] == x);
                        }
                        if sl.contains(x) {
                            let j = choose|j: int| 0 <= j < sl.len() && sl[j] == x;
                            assert(s1[dl.len() + j] == x);
                        }
                        if s1.contains(x) {
                            let j = choose|j: int| 0 <= j < s1.len() && s1[j] == x;
                            if j < dl.len() {
                                assert(dl[j] == x);
                            } else {
                                assert(sl[j - dl.len()] == x);
                            }
                        }
                    }
                    assert forall|v: int| 0 <= v < defs1.len() implies #[trigger] list_wf(defs1, uses1, lists1[v], v) by {
                        assert(list_wf(defs0, uses0, lists0[v], v));
                        if v == si {
                            assert(s1.no_duplicates()) by {
                                assert forall|i: int, j: int| 0 <= i < j < s1.len() implies s1[i] != s1[j] by {
                                    if i < dl.len() && j >= dl.len() {
                                        assert(dl.contains(s1[i]));
                                        assert(sl.contains(s1[j]));
                                    }
                                }
                            }
                            assert forall|j: int| 0 <= j < s1.len() implies #[trigger] use_link_at(uses1, s1, j) by {
                                if j < dl.len() {
                                    assert(use_link_at(uses0, dl, j));
                                    assert(dl.contains(dl[j]));
                                    if sl.len() > 0 {
                                        assert(sl.contains(sl[0]));
                                    }
                                } else {
                                    assert(use_link_at(uses0, sl, j - dl.len()));
                                    assert(sl.contains(sl[j - dl.len()]));
                                    assert(dl.contains(dl[dl.len() - 1]));
                                }
                            }
                        } else if v != di {
                            let t = lists0[v];
                            assert forall|j: int| 0 <= j < t.len() implies #[trigger] use_link_at(uses1, t, j) by {
                                assert(use_link_at(uses0, t, j));
                                assert(t.contains(t[j]));
                                assert(dl.contains(dl[dl.len() - 1]));
                                if sl.len() > 0 {
                                    assert(sl.contains(sl[0]));
                                }
                            }
                        }
                    }
                    assert forall|q: int| 0 <= q < uses1.len() && (#[trigger] uses1[q]).attached implies exists|v: int|
                        0 <= v < lists1.len() && #[trigger] lists1[v].contains(Use(q as u32)) by {
                        assert(uses0[q].attached);
                        let v = choose|v: int| 0 <= v < lists0.len() && #[trigger] lists0[v].contains(Use(q as u32));
                        if v == di || v == si {
                            assert(lists1[si as int].contains(Use(q as u32)));
                        } else {
                            assert(lists1[v].contains(Use(q as u32)));
                        }
                    }
                    assert forall|q: int| 0 <= q < uses1.len() && !(#[trigger] uses1[q]).attached implies uses1[q].prev is None
                        && uses1[q].next is None by {
                        assert(!uses0[q].attached);
                    }
                    assert forall|v1: int, v2: int, u: Use|
                        0 <= v1 < lists1.len() && 0 <= v2 < lists1.len() && #[trigger] lists1[v1].contains(u)
                            && #[trigger] lists1[v2].contains(u) implies v1 == v2 by {
                        if v1 == di {
                            assert(!lists1[v1].contains(u));
                        } else if v2 == di {
                            assert(!lists1[v2].contains(u));
                        } else if v1 == si && v2 != si {
                            assert(lists0[v2].contains(u));
                            if dl.contains(u) {
                                assert(lists0[di as int].contains(u));
                            } else {
                                assert(lists0[si as int].contains(u));
                            }
                        } else if v2 == si && v1 != si {
                            assert(lists0[v1].contains(u));
                            if dl.contains(u) {
                                assert(lists0[di as int].contains(u));
                            } else {
                                assert(lists0[si as int].contains(u));
                            }
                        } else if v1 != si {
                            assert(lists0[v1].contains(u));
                            assert(lists0[v2].contains(u));
                        }
                    }
                    assert(self@.attached =~= old(self)@.attached);
                    assert(self@.users =~= old(self)@.users);
                    assert(self@.types =~= old(self)@.types);
                    assert(self@.tags =~= defs0.map_values(|d: ValueData| d.tag));
                }
            },
        }
    }

    /// The value holding the integer constant `val`, made on first use.
    pub fn iconst(&mut self, val: i32) -> (r: Value)
        requires
            old(self).wf(),
            old(self)@.consts.ints.contains_key(val) || old(self)@.types.len() + 1 < u32::MAX,
        ensures
            final(self).wf(),
            (final(self)@, r) == intern_int(old(self)@, val),
    {
        match self.int_consts.get(&val) {
            Some(v) => *v,
            None => {
                let r = self.make(ValueDataType::Iconst { val }, None);
                self.int_consts.insert(val, r);
                proof {
                    assert(self@ == intern_int(old(self)@, val).0);
                }
                r
            },
        }
    }

    /// The value holding the real constant `val`, made on first use.
    pub fn fconst(&mut self, val: Ieee64) -> (r: Value)
        requires
            old(self).wf(),
            old(self)@.consts.reals.contains_key(val.0) || old(self)@.types.len() + 1 < u32::MAX,
        ensures
            final(self).wf(),
            (final(self)@, r) == intern_real(old(self)@, val),
    {
        match self.real_consts.get(&val.0) {
            Some(v) => *v,
            None => {
                let r = self.make(ValueDataType::Fconst { val }, None);
                self.real_consts.insert(val.0, r);
                proof {
                    assert(self@ == intern_real(old(self)@, val).0);
                }
                r
            },
        }
    }

    /// The value holding the string constant with key `val`, made on first use.
    pub fn sconst(&mut self, val: u32) -> (r: Value)
        requires
            old(self).wf(),
            old(self)@.consts.strs.contains_key(val) || old(self)@.types.len() + 1 < u32::MAX,
        ensures
            final(self).wf(),
            (final(self)@, r) == intern_str(old(self)@, val),
    {
        match self.str_consts.get(&val) {
            Some(v) => *v,
            None => {
                let r = self.make(ValueDataType::Sconst { val }, None);
                self.str_consts.insert(val, r);
                proof {
                    assert(self@ == intern_str(old(self)@, val).0);
                }
                r
            },
        }
    }

    /// The value holding constant `val`; the booleans are the predefined values false (1)
    /// and true (2) and are never made again.
    pub fn make_const(&mut self, val: Const) -> (r: Value)
        requires
            old(self).wf(),
            match val {
                Const::Int(i) => old(self)@.consts.ints.contains_key(i),
                Const::Float(f) => old(self)@.consts.reals.contains_key(f.0),
                Const::Str(t) => old(self)@.consts.strs.contains_key(t),
                Const::Bool(_) => true,
            } || old(self)@.types.len() + 1 < u32::MAX,
        ensures
            final(self).wf(),
            match val {
                Const::Int(i) => (final(self)@, r) == intern_int(old(self)@, i),
                Const::Float(f) => (final(self)@, r) == intern_real(old(self)@, f),
                Const::Str(t) => (final(self)@, r) == intern_str(old(self)@, t),
                Const::Bool(b) => final(self)@ == old(self)@ && r == (if b { Value(2) } else { Value(1) }),
            },
    {
        match val {
            Const::Float(f) => self.fconst(f),
            Const::Int(i) => self.iconst(i),
            Const::Str(t) => self.sconst(t),
            Const::Bool(false) => Value(1),
            Const::Bool(true) => Value(2),
        }
    }

    /// Make `dst` the integer constant `val`, and the value that interns it.
    pub fn iconst_at(&mut self, val: i32, dst: Value)
        requires
            old(self).wf(),
            dst.0 < old(self)@.types.len(),
        ensures
            final(self).wf(),
            final(self)@ == (ValuesView {
                types: old(self)@.types.update(dst.0 as int, ValueDataType::Iconst { val }),
                consts: ConstsView { ints: old(self)@.consts.ints.insert(val, dst), ..old(self)@.consts },
                ..old(self)@
            }),
    {
        self.set_type(dst, ValueDataType::Iconst { val });
        self.int_consts.insert(val, dst);
    }

    /// Make `dst` the real constant `val`, and the value that interns it.
    pub fn fconst_at(&mut self, val: Ieee64, dst: Value)
        requires
            old(self).wf(),
            dst.0 < old(self)@.types.len(),
        ensures
            final(self).wf(),
            final(self)@ == (ValuesView {
                types: old(self)@.types.update(dst.0 as int, ValueDataType::Fconst { val }),
                consts: ConstsView { reals: old(self)@.consts.reals.insert(val.0, dst), ..old(self)@.consts },
                ..old(self)@
            }),
    {
        self.set_type(dst, ValueDataType::Fconst { val });
        self.real_consts.insert(val.0, dst);
    }

    /// Make `dst` the string constant with key `val`, and the value that interns it.
    pub fn sconst_at(&mut self, val: u32, dst: Value)
        requires
            old(self).wf(),
            dst.0 < old(self)@.types.len(),
        ensures
            final(self).wf(),
            final(self)@ == (ValuesView {
                types: old(self)@.types.update(dst.0 as int, ValueDataType::Sconst { val }),
                consts: ConstsView { strs: old(self)@.consts.strs.insert(val, dst), ..old(self)@.consts },
                ..old(self)@
            }),
    {
        self.set_type(dst, ValueDataType::Sconst { val });
        self.str_consts.insert(val, dst);
    }

    /// A cursor over all uses of `value`.
    pub fn uses_cursor(&self, value: Value) -> (r: UseCursor)
        requires
            self.wf(),
            value.0 < self@.types.len(),
        ensures
            r.spans(self@.lists[value.0 as int], 0, self@.lists[value.0 as int].len() as int),
            r.valid_for(self@),
    {
        proof {
            assert(list_wf(self.defs@, self.uses@, self.lists@[value.0 as int], value.0 as int));
        }
        let d = self.defs[value.0 as usize];
        let r = UseCursor { head: d.uses_head, tail: d.uses_tail };
        proof {
            self.lemma_view();
            assert(r.spans(self@.lists[value.0 as int], 0, self@.lists[value.0 as int].len() as int));
        }
        r
    }

    /// The operand that `use_` stands for: the instruction and the argument position.
    pub(crate) fn use_operand(&self, use_: Use) -> (r: (Inst, u16))
        requires
            self.wf(),
            use_.0 < self@.users.len(),
        ensures
            r == self@.users[use_.0 as int],
    {
        let d = self.uses[use_.0 as usize];
        (d.user, d.idx)
    }

    /// The value that the operand of `use_` holds in `insts`.
    pub fn use_to_value(&self, use_: Use, insts: &Vec<InstructionData>) -> (r: Value)
        requires
            self.wf(),
            operand_exists(self@, insts@, use_),
        ensures
            r == operand_value(self@, insts@, use_),
    {
        let (user, idx) = self.use_operand(use_);
        let args = insts[user.0 as usize].arguments();
        args[idx as usize]
    }
}


/// `use_` is a use of the table whose operand exists among `insts`.
pub open spec fn operand_exists(vals: ValuesView, insts: Seq<InstructionData>, use_: Use) -> bool {
    &&& use_.0 < vals.users.len()
    &&& vals.users[use_.0 as int].0.0 < insts.len()
    &&& vals.users[use_.0 as int].1 < insts[vals.users[use_.0 as int].0.0 as int].spec_arguments().len()
}

/// The value that the operand of `use_` holds.
pub open spec fn operand_value(vals: ValuesView, insts: Seq<InstructionData>, use_: Use) -> Value {
    let (user, idx) = vals.users[use_.0 as int];
    insts[user.0 as int].spec_arguments()[idx as int]
}

/// Every use in the list of a value stands for an operand that holds that value.
pub open spec fn uses_consistent(vals: ValuesView, insts: Seq<InstructionData>) -> bool {
    forall|v: int, k: int|
        0 <= v < vals.lists.len() && 0 <= k < vals.lists[v].len() ==> operand_exists(vals, insts, #[trigger] vals.lists[v][k])
            && operand_value(vals, insts, vals.lists[v][k]) == Value(v as u32)
}

/// Operand `j` of instruction `i` is named by one of the uses `us`.
pub open spec fn is_site(users: Seq<(Inst, u16)>, us: Seq<Use>, i: int, j: int) -> bool {
    exists|k: int| 0 <= k < us.len() && users[(#[trigger] us[k]).0 as int].0.0 == i && users[us[k].0 as int].1 == j
}

/// The instruction table after every operand named by one of the uses `us` was set to `src`.
pub open spec fn operands_replaced(
    before: Seq<InstructionData>,
    after: Seq<InstructionData>,
    users: Seq<(Inst, u16)>,
    us: Seq<Use>,
    src: Value,
) -> bool {
    &&& after.len() == before.len()
    &&& forall|i: int| 0 <= i < before.len() ==> (#[trigger] after[i]).same_but_arguments(&before[i])
    &&& forall|i: int| 0 <= i < before.len() ==> (#[trigger] after[i]).wf() == before[i].wf()
    &&& forall|i: int, j: int|
        0 <= i < before.len() && 0 <= j < before[i].spec_arguments().len() ==> (#[trigger] after[i].spec_arguments()[j])
            == (if is_site(users, us, i, j) { src } else { before[i].spec_arguments()[j] })
}

impl DataFlowGraph {
    /// Follow the aliases from `v` to the value they end at.
    pub fn resolve_alias(&self, v: Value) -> (r: Value)
        requires
            self.values.wf(),
            exists|f: nat| alias_ends(self.values@.types, v, f),
        ensures
            forall|f: nat| alias_ends(self.values@.types, v, f) ==> r == alias_root(self.values@.types, v, f),
    {
        self.values.alias_target(v)
    }

    /// The value that the operand of `use_` holds.
    pub fn use_to_value(&self, use_: Use) -> (r: Value)
        requires
            self.values.wf(),
            operand_exists(self.values@, self.insts@, use_),
        ensures
            r == operand_value(self.values@, self.insts@, use_),
    {
        self.values.use_to_value(use_, &self.insts)
    }

    /// Take `use_` out of the use list of the value its operand holds; a detached use stays
    /// as it is.
    pub fn detach_use(&mut self, use_: Use)
        requires
            old(self).values.wf(),
            uses_consistent(old(self).values@, old(self).insts@),
            use_.0 < old(self).values@.users.len(),
        ensures
            final(self).values.wf(),
            uses_consistent(final(self).values@, final(self).insts@),
            final(self).insts@ == old(self).insts@,
            final(self).signatures@ == old(self).signatures@,
            old(self).values@.attached[use_.0 as int] ==> ({
                let v = operand_value(old(self).values@, old(self).insts@, use_);
                let l = old(self).values@.lists[v.0 as int];
                final(self).values@.lists == old(self).values@.lists.update(v.0 as int, l.remove(l.index_of(use_)))
            }),
            !old(self).values@.attached[use_.0 as int] ==> final(self).values@.lists == old(self).values@.lists,
            final(self).values@.attached == old(self).values@.attached.update(use_.0 as int, false),
            final(self).values@.users == old(self).values@.users,
            final(self).values@.consts == old(self).values@.consts,
            final(self).values@.types == old(self).values@.types,
            final(self).values@.tags == old(self).values@.tags,
    {
        if self.values.is_use_detached(use_) {
            return;
        }
        proof {
            self.values.lemma_view();
            let k = use_.0 as int;
            let v = choose|v: int| 0 <= v < self.values@.lists.len() && #[trigger] self.values@.lists[v].contains(Use(k as u32));
            let j = choose|j: int| 0 <= j < self.values@.lists[v].len() && self.values@.lists[v][j] == use_;
            assert(operand_exists(self.values@, self.insts@, self.values@.lists[v][j]));
        }
        let val = self.values.use_to_value(use_, &self.insts);
        proof {
            let k = use_.0 as int;
            let v = choose|v: int| 0 <= v < self.values@.lists.len() && #[trigger] self.values@.lists[v].contains(Use(k as u32));
            let j = choose|j: int| 0 <= j < self.values@.lists[v].len() && self.values@.lists[v][j] == use_;
            assert(self.values@.lists[v][j] == use_);
            assert(operand_value(self.values@, self.insts@, self.values@.lists[v][j]) == Value(v as u32));
        }
        self.values.detach_use(use_, val);
        proof {
            let vals0 = old(self).values@;
            let vals1 = self.values@;
            let insts = self.insts@;
            assert forall|v: int, k: int| 0 <= v < vals1.lists.len() && 0 <= k < vals1.lists[v].len() implies operand_exists(
                vals1,
                insts,
                #[trigger] vals1.lists[v][k],
            ) && operand_value(vals1, insts, vals1.lists[v][k]) == Value(v as u32) by {
                let l = vals0.lists[v];
                if v == val.0 {
                    let p = l.index_of(use_);
                    let k0 = if k < p { k } else { k + 1 };
                    assert(vals1.lists[v][k] == l[k0]);
                    assert(operand_exists(vals0, insts, vals0.lists[v][k0]));
                } else {
                    assert(operand_exists(vals0, insts, vals0.lists[v][k]));
                }
            }
        }
    }

    /// Make the operand of the attached use `use_` hold `val`: the use leaves the use list of
    /// the value the operand held and goes to the head of the uses of `val`. The use lists
    /// stay consistent when no other use in them stands for the same operand.
    #[verifier::spinoff_prover]
    pub fn set_use_value(&mut self, use_: Use, val: Value)
        requires
            old(self).values.wf(),
            uses_consistent(old(self).values@, old(self).insts@),
            use_.0 < old(self).values@.users.len(),
            old(self).values@.attached[use_.0 as int],
            val.0 < old(self).values@.types.len(),
        ensures
            final(self).values.wf(),
            ({
                let w = operand_value(old(self).values@, old(self).insts@, use_);
                let l = old(self).values@.lists[w.0 as int];
                let detached = old(self).values@.lists.update(w.0 as int, l.remove(l.index_of(use_)));
                final(self).values@.lists == detached.update(val.0 as int, seq![use_] + detached[val.0 as int])
            }),
            final(self).values@.attached == old(self).values@.attached,
            final(self).values@.users == old(self).values@.users,
            final(self).values@.types == old(self).values@.types,
            final(self).values@.tags == old(self).values@.tags,
            final(self).values@.consts == old(self).values@.consts,
            operand_exists(old(self).values@, old(self).insts@, use_),
            ({
                let (user, idx) = old(self).values@.users[use_.0 as int];
                &&& final(self).insts@.len() == old(self).insts@.len()
                &&& forall|i: int| 0 <= i < old(self).insts@.len() && i != user.0 ==> #[trigger] final(self).insts@[i] == old(self).insts@[i]
                &&& final(self).insts@[user.0 as int].same_but_arguments(&old(self).insts@[user.0 as int])
                &&& final(self).insts@[user.0 as int].spec_arguments() == old(self).insts@[user.0 as int].spec_arguments().update(
                    idx as int,
                    val,
                )
            }),
            (forall|v: int, k: int|
                0 <= v < old(self).values@.lists.len() && 0 <= k < old(self).values@.lists[v].len() && old(self).values@.lists[v][k]
                    != use_ ==> old(self).values@.users[(#[trigger] old(self).values@.lists[v][k]).0 as int]
                    != old(self).values@.users[use_.0 as int]) ==> uses_consistent(final(self).values@, final(self).insts@),
            final(self).signatures@ == old(self).signatures@,
    {
        let ghost v0 = self.values@;
        let ghost insts0 = self.insts@;
        proof {
            self.values.lemma_view();
            let k = use_.0 as int;
            let v = choose|v: int| 0 <= v < v0.lists.len() && #[trigger] v0.lists[v].contains(Use(k as u32));
            let j = choose|j: int| 0 <= j < v0.lists[v].len() && v0.lists[v][j] == use_;
            assert(operand_exists(v0, insts0, v0.lists[v][j]));
        }
        self.detach_use(use_);
        let ghost v1 = self.values@;
        let (user, idx) = self.values.use_operand(use_);
        self.insts[user.0 as usize].set_argument(idx as usize, val);
        let ghost insts2 = self.insts@;
        self.values.attach_use(use_, val);
        proof {
            let v2 = self.values@;
            let w = operand_value(v0, insts0, use_);
            let l = v0.lists[w.0 as int];
            assert forall|i: int| 0 <= i < insts0.len() && i != user.0 implies #[trigger] insts2[i] == insts0[i] by {}
            if forall|v: int, k: int|
                0 <= v < v0.lists.len() && 0 <= k < v0.lists[v].len() && v0.lists[v][k] != use_ ==> v0.users[(#[trigger] v0.lists[v][k]).0 as int]
                    != v0.users[use_.0 as int] {
                assert forall|v: int, k: int| 0 <= v < v2.lists.len() && 0 <= k < v2.lists[v].len() implies operand_exists(
                    v2,
                    insts2,
                    #[trigger] v2.lists[v][k],
                ) && operand_value(v2, insts2, v2.lists[v][k]) == Value(v as u32) by {
                    let u = v2.lists[v][k];
                    if u == use_ {
                        assert(v == val.0) by {
                            if v != val.0 {
                                assert(v1.lists[v].contains(u));
                                assert(!v1.attached[use_.0 as int]);
                                self.values.lemma_view();
                            }
                        }
                        lemma_same_but_arguments_len(insts2[user.0 as int], insts0[user.0 as int]);
                    } else {
                        let k1 = if v == val.0 { k - 1 } else { k };
                        assert(v1.lists[v][k1] == u);
                        let (v0i, k0) = if v == w.0 {
                            let p = l.index_of(use_);
                            (v, if k1 < p { k1 } else { k1 + 1 })
                        } else {
                            (v, k1)
                        };
                        assert(v0.lists[v0i][k0] == u);
                        assert(operand_exists(v0, insts0, v0.lists[v0i][k0]));
                        lemma_same_but_arguments_len(insts2[user.0 as int], insts0[user.0 as int]);
                    }
                }
            }
        }
    }

    /// Make every use of `dst` a use of `src`: each operand that a use of `dst` stands for is
    /// set to `src`, and the uses of `dst` go, in order, to the front of the uses of `src`.
    /// `src` takes the tag of `dst` if it has none.
    #[verifier::spinoff_prover]
    pub fn replace_uses(&mut self, dst: Value, src: Value)
        requires
            old(self).values.wf(),
            uses_consistent(old(self).values@, old(self).insts@),
            dst.0 < old(self).values@.types.len(),
            src.0 < old(self).values@.types.len(),
            dst != src,
        ensures
            final(self).values.wf(),
            uses_consistent(final(self).values@, final(self).insts@),
            operands_replaced(
                old(self).insts@,
                final(self).insts@,
                old(self).values@.users,
                old(self).values@.lists[dst.0 as int],
                src,
            ),
            final(self).values@.lists == old(self).values@.lists.update(
                src.0 as int,
                old(self).values@.lists[dst.0 as int] + old(self).values@.lists[src.0 as int],
            ).update(dst.0 as int, Seq::<Use>::empty()),
            final(self).values@.tags == (if old(self).values@.tags[src.0 as int] is None {
                old(self).values@.tags.update(src.0 as int, old(self).values@.tags[dst.0 as int])
            } else {
                old(self).values@.tags
            }),
            final(self).values@.types == old(self).values@.types,
            final(self).values@.users == old(self).values@.users,
            final(self).values@.consts == old(self).values@.consts,
            final(self).values@.attached == old(self).values@.attached,
            final(self).signatures@ == old(self).signatures@,
    {
        let ghost vals0 = self.values@;
        let ghost insts0 = self.insts@;
        let ghost d = vals0.lists[dst.0 as int];
        let ds = self.values.uses(dst);
        proof {
            self.values.lemma_view();
        }
        let mut t: usize = 0;
        while t < ds.len()
            invariant
                self.values.wf(),
                self.values@ == vals0,
                ds@ == d,
                d == vals0.lists[dst.0 as int],
                uses_consistent(vals0, insts0),
                dst.0 < vals0.lists.len(),
                t <= d.len(),
                self.signatures@ == old(self).signatures@,
                operands_replaced(insts0, self.insts@, vals0.users, d.take(t as int), src),
            decreases d.len() - t,
        {
            let u = ds[t];
            proof {
                assert(operand_exists(vals0, insts0, vals0.lists[dst.0 as int][t as int]));
                self.values.lemma_view();
            }
            let (user, idx) = self.values.use_operand(u);
            let ghost before = self.insts@;
            proof {
                assert(before[user.0 as int].same_but_arguments(&insts0[user.0 as int]));
                assert(before[user.0 as int].spec_arguments().len() == insts0[user.0 as int].spec_arguments().len())
                    by {
                    lemma_same_but_arguments_len(before[user.0 as int], insts0[user.0 as int]);
                }
            }
            self.insts[user.0 as usize].set_argument(idx as usize, src);
            proof {
                let after = self.insts@;
                let dn = d.take(t + 1);
                assert forall|i: int| 0 <= i < insts0.len() implies (#[trigger] after[i]).same_but_arguments(&insts0[i]) by {
                    if i == user.0 {
                        lemma_same_but_arguments_trans(after[i], before[i], insts0[i]);
                    }
                }
                assert forall|i: int, j: int|
                    0 <= i < insts0.len() && 0 <= j < insts0[i].spec_arguments().len() implies (#[trigger] after[i].spec_arguments()[j])
                        == (if is_site(vals0.users, dn, i, j) { src } else { insts0[i].spec_arguments()[j] }) by {
                    let dt = d.take(t as int);
                    lemma_same_but_arguments_len(before[i], insts0[i]);
                    assert(dn[t as int] == u);
                    if i == user.0 && j == idx {
                        assert(vals0.users[dn[t as int].0 as int].0.0 == i);
                    } else {
                        assert(after[i].spec_arguments()[j] == before[i].spec_arguments()[j]);
                        if is_site(vals0.users, dt, i, j) {
                            let k = choose|k: int| 0 <= k < dt.len() && vals0.users[(#[trigger] dt[k]).0 as int].0.0 == i
                                && vals0.users[dt[k].0 as int].1 == j;
                            assert(dn[k] == dt[k]);
                        }
                        if is_site(vals0.users, dn, i, j) {
                            let k = choose|k: int| 0 <= k < dn.len() && vals0.users[(#[trigger] dn[k]).0 as int].0.0 == i
                                && vals0.users[dn[k].0 as int].1 == j;
                            assert(k != t);
                            assert(dt[k] == dn[k]);
                        }
                    }
                }
            }
            t += 1;
        }
        proof {
            assert(d.take(d.len() as int) =~= d);
        }
        self.values.move_uses(dst, src);
        proof {
            let vals1 = self.values@;
            let insts1 = self.insts@;
            let sl = vals0.lists[src.0 as int];
            assert forall|v: int, k: int| 0 <= v < vals1.lists.len() && 0 <= k < vals1.lists[v].len() implies operand_exists(
                vals1,
                insts1,
                #[trigger] vals1.lists[v][k],
            ) && operand_value(vals1, insts1, vals1.lists[v][k]) == Value(v as u32) by {
                let (v0, k0) = if v == src.0 {
                    if k < d.len() { (dst.0 as int, k) } else { (v, k - d.len()) }
                } else {
                    (v, k)
                };
                assert(vals1.lists[v][k] == vals0.lists[v0][k0]);
                let u = vals0.lists[v0][k0];
                assert(operand_exists(vals0, insts0, u));
                let (i, j) = vals0.users[u.0 as int];
                lemma_same_but_arguments_len(insts1[i.0 as int], insts0[i.0 as int]);
                if is_site(vals0.users, d, i.0 as int, j as int) {
                    let q = choose|q: int| 0 <= q < d.len() && vals0.users[(#[trigger] d[q]).0 as int].0.0 == i.0
                        && vals0.users[d[q].0 as int].1 == j;
                    assert(operand_exists(vals0, insts0, vals0.lists[dst.0 as int][q]));
                } else if v0 == dst.0 {
                    assert(vals0.users[d[k0].0 as int].0.0 == i.0);
                }
            }
        }
    }
}

impl DataFlowGraph {
    /// The number of values.
    pub fn num_values(&self) -> (r: usize)
        requires
            self.values.wf(),
        ensures
            r == self.values@.types.len(),
    {
        self.values.num()
    }

    /// The definition of `v`; an alias counts as invalid.
    pub fn value_def(&self, v: Value) -> (r: ValueDef)
        requires
            self.values.wf(),
            v.0 < self.values@.types.len(),
        ensures
            r == spec_def(self.values@.types[v.0 as int]),
    {
        self.values.def(v)
    }

    /// Is `v` a value of this graph?
    pub fn value_valid(&self, v: Value) -> (r: bool)
        requires
            self.values.wf(),
        ensures
            r == (v.0 < self.values@.types.len()),
    {
        self.values.is_valid(v)
    }

    /// Is `val` used by no instruction?
    pub fn value_dead(&self, val: Value) -> (r: bool)
        requires
            self.values.wf(),
            val.0 < self.values@.types.len(),
        ensures
            r == (self.values@.lists[val.0 as int].len() == 0),
    {
        self.values.is_dead(val)
    }

    /// The tag of `val`.
    pub fn get_tag(&self, val: Value) -> (r: Option<Tag>)
        requires
            self.values.wf(),
            val.0 < self.values@.types.len(),
        ensures
            r == self.values@.tags[val.0 as int],
    {
        self.values.get_tag(val)
    }

    /// Set the tag of `val`.
    pub fn set_tag(&mut self, val: Value, tag: Option<Tag>)
        requires
            old(self).values.wf(),
            val.0 < old(self).values@.types.len(),
        ensures
            final(self).values.wf(),
            final(self).values@ == (ValuesView { tags: old(self).values@.tags.update(val.0 as int, tag), ..old(self).values@ }),
            final(self).insts@ == old(self).insts@,
    {
        self.values.set_tag(val, tag);
    }

    /// A new value for function parameter `param`.
    pub fn make_param(&mut self, param: Param) -> (r: Value)
        requires
            old(self).values.wf(),
            old(self).values@.types.len() + 1 < u32::MAX,
        ensures
            final(self).values.wf(),
            r.0 == old(self).values@.types.len(),
            final(self).values@ == with_value(old(self).values@, ValueDataType::Param { param }),
            final(self).insts@ == old(self).insts@,
    {
        let r = self.values.make_param(param);
        proof {
            assert(self.values@ =~= with_value(old(self).values@, ValueDataType::Param { param }));
        }
        r
    }

    /// A new invalid value.
    pub fn make_invalid_value(&mut self) -> (r: Value)
        requires
            old(self).values.wf(),
            old(self).values@.types.len() + 1 < u32::MAX,
        ensures
            final(self).values.wf(),
            r.0 == old(self).values@.types.len(),
            final(self).values@ == with_value(old(self).values@, ValueDataType::Invalid),
            final(self).insts@ == old(self).insts@,
    {
        let r = self.values.make_invalid();
        proof {
            assert(self.values@ =~= with_value(old(self).values@, ValueDataType::Invalid));
        }
        r
    }

    /// The value holding the integer constant `val`, made on first use.
    pub fn iconst(&mut self, val: i32) -> (r: Value)
        requires
            old(self).values.wf(),
            old(self).values@.consts.ints.contains_key(val) || old(self).values@.types.len() + 1 < u32::MAX,
        ensures
            final(self).values.wf(),
            (final(self).values@, r) == intern_int(old(self).values@, val),
            final(self).insts@ == old(self).insts@,
    {
        self.values.iconst(val)
    }

    /// The value holding the real constant `val`, made on first use.
    pub fn fconst(&mut self, val: Ieee64) -> (r: Value)
        requires
            old(self).values.wf(),
            old(self).values@.consts.reals.contains_key(val.0) || old(self).values@.types.len() + 1 < u32::MAX,
        ensures
            final(self).values.wf(),
            (final(self).values@, r) == intern_real(old(self).values@, val),
            final(self).insts@ == old(self).insts@,
    {
        self.values.fconst(val)
    }

    /// The value holding the string constant with key `val`, made on first use.
    pub fn sconst(&mut self, val: u32) -> (r: Value)
        requires
            old(self).values.wf(),
            old(self).values@.consts.strs.contains_key(val) || old(self).values@.types.len() + 1 < u32::MAX,
        ensures
            final(self).values.wf(),
            (final(self).values@, r) == intern_str(old(self).values@, val),
            final(self).insts@ == old(self).insts@,
    {
        self.values.sconst(val)
    }

    /// The uses of `value`, most recent first.
    pub fn uses(&self, value: Value) -> (r: Vec<Use>)
        requires
            self.values.wf(),
            value.0 < self.values@.types.len(),
        ensures
            r@ == self.values@.lists[value.0 as int],
    {
        self.values.uses(value)
    }

    /// The instruction of use `use_`.
    pub fn use_to_user(&self, use_: Use) -> (r: Inst)
        requires
            self.values.wf(),
            use_.0 < self.values@.users.len(),
        ensures
            r == self.values@.users[use_.0 as int].0,
    {
        self.values.use_to_user(use_)
    }

    /// Create a use of `val` as operand `pos` of `user`, at the head of the uses of `val`.
    /// The use lists stay consistent when that operand holds `val`.
    pub fn make_use(&mut self, val: Value, user: Inst, pos: u16) -> (r: Use)
        requires
            old(self).values.wf(),
            val.0 < old(self).values@.types.len(),
            old(self).values@.users.len() + 1 < u32::MAX,
        ensures
            final(self).values.wf(),
            r.0 == old(self).values@.users.len(),
            final(self).values@.users == old(self).values@.users.push((user, pos)),
            final(self).values@.attached == old(self).values@.attached.push(true),
            final(self).values@.lists == old(self).values@.lists.update(
                val.0 as int,
                seq![r] + old(self).values@.lists[val.0 as int],
            ),
            final(self).values@.types == old(self).values@.types,
            final(self).values@.tags == old(self).values@.tags,
            final(self).values@.consts == old(self).values@.consts,
            final(self).insts@ == old(self).insts@,
            final(self).signatures@ == old(self).signatures@,
            distinct_operands(old(self).values@) && (forall|w: int| !#[trigger] attached_for(old(self).values@, w, user, pos as int))
                ==> distinct_operands(final(self).values@),
            uses_consistent(old(self).values@, old(self).insts@) && user.0 < old(self).insts@.len() && pos
                < old(self).insts@[user.0 as int].spec_arguments().len() && old(self).insts@[user.0 as int].spec_arguments()[pos as int]
                == val ==> uses_consistent(final(self).values@, final(self).insts@),
    {
        let r = self.values.make_use(val, user, pos);
        proof {
            let v0 = old(self).values@;
            let v1 = self.values@;
            let insts = self.insts@;
            if uses_consistent(v0, insts) && user.0 < insts.len() && pos < insts[user.0 as int].spec_arguments().len()
                && insts[user.0 as int].spec_arguments()[pos as int] == val {
                assert forall|v: int, k: int| 0 <= v < v1.lists.len() && 0 <= k < v1.lists[v].len() implies operand_exists(
                    v1,
                    insts,
                    #[trigger] v1.lists[v][k],
                ) && operand_value(v1, insts, v1.lists[v][k]) == Value(v as u32) by {
                    self.values.lemma_view();
                    if v == val.0 && k == 0 {
                    } else {
                        let k0 = if v == val.0 { k - 1 } else { k };
                        assert(v1.lists[v][k] == v0.lists[v][k0]);
                        assert(operand_exists(v0, insts, v0.lists[v][k0]));
                    }
                }
            }
            let n = v0.users.len();
            if distinct_operands(v0) && (forall|w: int| !#[trigger] attached_for(v0, w, user, pos as int)) {
                assert forall|a: int, b: int|
                    0 <= a < v1.users.len() && 0 <= b < v1.users.len() && a != b && #[trigger] v1.attached[a]
                        && #[trigger] v1.attached[b] implies v1.users[a] != v1.users[b] by {
                    if a < n && b < n {
                        assert(v0.attached[a] && v0.attached[b]);
                    } else if a == n {
                        assert(!attached_for(v0, b, user, pos as int));
                        assert(Use(b as u32).0 as int == b);
                    } else {
                        assert(!attached_for(v0, a, user, pos as int));
                        assert(Use(a as u32).0 as int == a);
                    }
                }
            }
        }
        r
    }

    /// Attach the detached use `use_` to `val`, at the head of its uses. The use lists stay
    /// consistent when the operand of `use_` holds `val`.
    pub fn attach_use(&mut self, use_: Use, val: Value)
        requires
            old(self).values.wf(),
            use_.0 < old(self).values@.users.len(),
            val.0 < old(self).values@.types.len(),
            !old(self).values@.attached[use_.0 as int],
        ensures
            final(self).values.wf(),
            final(self).values@.lists == old(self).values@.lists.update(
                val.0 as int,
                seq![use_] + old(self).values@.lists[val.0 as int],
            ),
            final(self).values@.attached == old(self).values@.attached.update(use_.0 as int, true),
            final(self).values@.users == old(self).values@.users,
            final(self).values@.types == old(self).values@.types,
            final(self).values@.tags == old(self).values@.tags,
            final(self).values@.consts == old(self).values@.consts,
            final(self).insts@ == old(self).insts@,
            final(self).signatures@ == old(self).signatures@,
            distinct_operands(old(self).values@) && (forall|w: int|
                !#[trigger] attached_for(old(self).values@, w, old(self).values@.users[use_.0 as int].0, old(self).values@.users[use_.0 as int].1 as int))
                ==> distinct_operands(final(self).values@),
            uses_consistent(old(self).values@, old(self).insts@) && operand_exists(old(self).values@, old(self).insts@, use_)
                && operand_value(old(self).values@, old(self).insts@, use_) == val ==> uses_consistent(
                final(self).values@,
                final(self).insts@,
            ),
    {
        self.values.attach_use(use_, val);
        proof {
            let v0 = old(self).values@;
            let v1 = self.values@;
            let insts = self.insts@;
            if uses_consistent(v0, insts) && operand_exists(v0, insts, use_) && operand_value(v0, insts, use_) == val {
                assert forall|v: int, k: int| 0 <= v < v1.lists.len() && 0 <= k < v1.lists[v].len() implies operand_exists(
                    v1,
                    insts,
                    #[trigger] v1.lists[v][k],
                ) && operand_value(v1, insts, v1.lists[v][k]) == Value(v as u32) by {
                    self.values.lemma_view();
                    if v == val.0 && k == 0 {
                    } else {
                        let k0 = if v == val.0 { k - 1 } else { k };
                        assert(v1.lists[v][k] == v0.lists[v][k0]);
                        assert(operand_exists(v0, insts, v0.lists[v][k0]));
                    }
                }
            }
            let k = use_.0 as int;
            let (user, idx) = v0.users[k];
            if distinct_operands(v0) && (forall|w: int| !#[trigger] attached_for(v0, w, user, idx as int)) {
                assert forall|a: int, b: int|
                    0 <= a < v1.users.len() && 0 <= b < v1.users.len() && a != b && #[trigger] v1.attached[a]
                        && #[trigger] v1.attached[b] implies v1.users[a] != v1.users[b] by {
                    if a != k && b != k {
                        assert(v0.attached[a] && v0.attached[b]);
                    } else if a == k {
                        assert(!attached_for(v0, b, user, idx as int));
                        assert(Use(b as u32).0 as int == b);
                    } else {
                        assert(!attached_for(v0, a, user, idx as int));
                        assert(Use(a as u32).0 as int == a);
                    }
                }
            }
        }
    }
}

/// The position in `phi` of the edge from `block`, if there is one.
pub open spec fn edge_index(phi: PhiNode, block: Block) -> int {
    choose|i: int| 0 <= i < phi.blocks@.len() && (#[trigger] phi.blocks@[i]).0 == block
}

/// A copy of the edge list of a phi.
fn copy_edges(v: &Vec<(Block, u32)>) -> (r: Vec<(Block, u32)>)
    ensures
        r@ == v@,
{
    let mut r: Vec<(Block, u32)> = Vec::new();
    let mut i: usize = 0;
    while i < v.len()
        invariant
            i <= v@.len(),
            r@ == v@.subrange(0, i as int),
        decreases v@.len() - i,
    {
        let e = v[i];
        r.push((e.0, e.1));
        i += 1;
        proof {
            assert(r@ =~= v@.subrange(0, i as int));
        }
    }
    proof {
        assert(v@.subrange(0, v@.len() as int) =~= v@);
    }
    r
}

/// No two attached uses stand for the same operand.
pub open spec fn distinct_operands(vals: ValuesView) -> bool {
    forall|a: int, b: int|
        0 <= a < vals.users.len() && 0 <= b < vals.users.len() && a != b && #[trigger] vals.attached[a]
            && #[trigger] vals.attached[b] ==> vals.users[a] != vals.users[b]
}

/// Use `w` is attached and stands for operand `idx` of `inst`.
pub open spec fn attached_for(vals: ValuesView, w: int, inst: Inst, idx: int) -> bool {
    0 <= w < vals.users.len() && vals.attached[w] && stands_for(vals, Use(w as u32), inst, idx)
}

/// The use lists with use `w` taken out of the list of the value its operand holds.
pub open spec fn lists_without(vals: ValuesView, insts: Seq<InstructionData>, w: int) -> Seq<Seq<Use>> {
    let v = operand_value(vals, insts, Use(w as u32));
    let l = vals.lists[v.0 as int];
    vals.lists.update(v.0 as int, l.remove(l.index_of(Use(w as u32))))
}

/// Use `u` stands for operand `idx` of instruction `inst`.
pub open spec fn stands_for(vals: ValuesView, u: Use, inst: Inst, idx: int) -> bool {
    vals.users[u.0 as int].0 == inst && vals.users[u.0 as int].1 as int == idx
}

/// Use `u` is the first of `users` that stands for operand `idx` of `inst`.
pub open spec fn first_standing(users: Seq<(Inst, u16)>, inst: Inst, idx: int, u: int) -> bool {
    &&& 0 <= u < users.len()
    &&& users[u].0 == inst && users[u].1 as int == idx
    &&& forall|w: int| 0 <= w < u ==> !(#[trigger] users[w].0 == inst && users[w].1 as int == idx)
}

/// The first of `users` that stands for operand `idx` of `inst`, if any.
pub open spec fn first_use_for(users: Seq<(Inst, u16)>, inst: Inst, idx: int) -> Option<Use> {
    if exists|u: int| #[trigger] first_standing(users, inst, idx, u) {
        Some(Use((choose|u: int| #[trigger] first_standing(users, inst, idx, u)) as u32))
    } else {
        None
    }
}

/// The operand position that setting the incoming value of `phi` from `block` writes: that
/// of its edge from `block`, or a new one after its arguments.
pub open spec fn phi_insert_pos(phi: PhiNode, block: Block) -> int {
    if phi.has_pred(block) {
        phi.blocks@[edge_index(phi, block)].1 as int
    } else {
        phi.args@.len() as int
    }
}

/// The use that setting the incoming value of the phi `inst` from `block` attaches: the
/// first one made for an existing operand, or else a new one after `users`.
pub open spec fn phi_insert_use(users: Seq<(Inst, u16)>, inst: Inst, phi: PhiNode, block: Block) -> Use {
    if phi.has_pred(block) && first_use_for(users, inst, phi_insert_pos(phi, block)) is Some {
        first_use_for(users, inst, phi_insert_pos(phi, block))->0
    } else {
        Use(users.len() as u32)
    }
}

/// The edge from `block` is where it is in a well-formed phi: at any position holding it.
proof fn lemma_edge_index_unique(phi: PhiNode, block: Block, k: int)
    requires
        phi.wf(),
        0 <= k < phi.blocks@.len(),
        phi.blocks@[k].0 == block,
    ensures
        phi.has_pred(block),
        edge_index(phi, block) == k,
{
    assert(phi.has_pred(block));
    let e = edge_index(phi, block);
    if e < k {
        assert(phi.blocks@[e].0.0 < phi.blocks@[k].0.0);
    } else if e > k {
        assert(phi.blocks@[k].0.0 < phi.blocks@[e].0.0);
    }
}

/// Removing the edge from `block` after setting its incoming value to `val` (see
/// [`DataFlowGraph::insert_phi_edge`] and [`DataFlowGraph::try_remove_phi_edge`]) gives
/// `val` back; when the edge was new, the edges left are those before it was added.
pub proof fn lemma_insert_then_remove_phi_edge(phi: PhiNode, p2: PhiNode, block: Block, val: Value)
    requires
        phi.wf(),
        p2.wf(),
        phi.args@.len() < u32::MAX,
        if phi.has_pred(block) {
            p2.blocks@ == phi.blocks@ && p2.args@ == phi.args@.update(phi_insert_pos(phi, block), val)
        } else {
            p2.args@ == phi.args@.push(val) && exists|k: int|
                0 <= k <= phi.blocks@.len() && p2.blocks@ == #[trigger] phi.blocks@.insert(k, (block, phi.args@.len() as u32))
        },
    ensures
        p2.has_pred(block),
        p2.args@[p2.blocks@[edge_index(p2, block)].1 as int] == val,
        !phi.has_pred(block) ==> p2.blocks@.remove(edge_index(p2, block)) == phi.blocks@,
{
    if phi.has_pred(block) {
        let k = edge_index(phi, block);
        lemma_edge_index_unique(p2, block, k);
    } else {
        let k = choose|k: int|
            0 <= k <= phi.blocks@.len() && p2.blocks@ == #[trigger] phi.blocks@.insert(k, (block, phi.args@.len() as u32));
        assert(p2.blocks@[k] == (block, phi.args@.len() as u32));
        lemma_edge_index_unique(p2, block, k);
        assert(p2.blocks@.remove(k) =~= phi.blocks@);
    }
}

/// A use list with `w0` put at its head holds `w0` and what it held.
proof fn lemma_head_contains(l: Seq<Use>, w0: Use, w: Use)
    ensures
        (seq![w0] + l).contains(w) <==> (w == w0 || l.contains(w)),
{
    let s = seq![w0] + l;
    if s.contains(w) && w != w0 {
        let j = s.index_of(w);
        assert(l[j - 1] == w);
    }
    if l.contains(w) {
        let j = l.index_of(w);
        assert(s[j + 1] == w);
    }
    assert(s[0] == w0);
}

/// Insert the edge `(block, pos)` into the strictly sorted edge list `blocks`, which has
/// none from `block`; gives the position it went to.
fn insert_edge(blocks: &mut Vec<(Block, u32)>, block: Block, pos: u32) -> (k: usize)
    requires
        forall|i: int, j: int| 0 <= i < j < old(blocks)@.len() ==> (#[trigger] old(blocks)@[i]).0.0 < (#[trigger] old(blocks)@[j]).0.0,
        forall|i: int| 0 <= i < old(blocks)@.len() ==> (#[trigger] old(blocks)@[i]).0 != block,
    ensures
        k <= old(blocks)@.len(),
        final(blocks)@ == old(blocks)@.insert(k as int, (block, pos)),
        forall|i: int| 0 <= i < k ==> (#[trigger] old(blocks)@[i]).0.0 < block.0,
        forall|i: int| k <= i < old(blocks)@.len() ==> block.0 < (#[trigger] old(blocks)@[i]).0.0,
{
    let mut k: usize = 0;
    while k < blocks.len() && blocks[k].0.0 < block.0
        invariant
            k <= blocks@.len(),
            blocks@ == old(blocks)@,
            forall|i: int| 0 <= i < k ==> (#[trigger] old(blocks)@[i]).0.0 < block.0,
        decreases blocks@.len() - k,
    {
        k += 1;
    }
    proof {
        assert forall|i: int| k <= i < old(blocks)@.len() implies block.0 < (#[trigger] old(blocks)@[i]).0.0 by {
            if i > k {
                assert(old(blocks)@[k as int].0.0 < old(blocks)@[i].0.0);
            }
            assert(old(blocks)@[i].0 != block);
        }
    }
    blocks.insert(k, (block, pos));
    k
}

/// The graph `d1` is `d0` with the edge from `block` removed from the phi instruction `inst`,
/// `r` being what the removal gives back: the incoming value, with the uses standing for its
/// operand detached and its slot set to the placeholder value 0; nothing changes and `r` is
/// `None` when `inst` is no phi or has no edge from `block`.
pub open spec fn removes_phi_edge(d0: DataFlowGraph, d1: DataFlowGraph, inst: Inst, block: Block, r: Option<Value>) -> bool {
    match d0.insts@[inst.0 as int] {
        InstructionData::PhiNode(phi) => if phi.has_pred(block) {
            let k = edge_index(phi, block);
            let pos = phi.blocks@[k].1 as int;
            &&& r == Some(phi.args@[pos])
            &&& d1.insts@.len() == d0.insts@.len()
            &&& forall|i: int| 0 <= i < d0.insts@.len() && i != inst.0 ==> #[trigger] d1.insts@[i] == d0.insts@[i]
            &&& d1.insts@[inst.0 as int] matches InstructionData::PhiNode(p2) && p2.wf()
                && p2.blocks@ == phi.blocks@.remove(k) && p2.args@ == phi.args@.update(pos, Value(0))
            &&& forall|u: int|
                0 <= u < d0.values@.attached.len() ==> #[trigger] d1.values@.attached[u] == (d0.values@.attached[u]
                    && !stands_for(d0.values@, Use(u as u32), inst, pos))
            &&& forall|v: int, u: Use|
                0 <= v < d0.values@.lists.len() ==> (#[trigger] d1.values@.lists[v].contains(u) <==> (
                d0.values@.lists[v].contains(u) && !stands_for(d0.values@, u, inst, pos)))
            &&& (forall|w: int| !#[trigger] attached_for(d0.values@, w, inst, pos)) ==> d1.values@.lists == d0.values@.lists
            &&& distinct_operands(d0.values@) ==> distinct_operands(d1.values@)
            &&& distinct_operands(d0.values@) ==> forall|w: int|
                #[trigger] attached_for(d0.values@, w, inst, pos) ==> d1.values@.lists == lists_without(d0.values@, d0.insts@, w)
                    && d1.values@.lists[phi.args@[pos].0 as int].len() + 1 == d0.values@.lists[phi.args@[pos].0 as int].len()
        } else {
            r is None && d1.insts@ == d0.insts@ && d1.values@ == d0.values@
        },
        _ => r is None && d1.insts@ == d0.insts@ && d1.values@ == d0.values@,
    }
}

/// The position in `args` of the incoming value of `phi` from `block`, if it has an edge
/// from it.
pub fn phi_edge_pos(phi: &PhiNode, block: Block) -> (r: Option<u32>)
    requires
        phi.wf(),
    ensures
        phi.has_pred(block) ==> r == Some(phi.blocks@[edge_index(*phi, block)].1),
        !phi.has_pred(block) ==> r is None,
{
    let ghost bs = phi.blocks@;
    let mut i: usize = 0;
    while i < phi.blocks.len()
        invariant
            phi.wf(),
            bs == phi.blocks@,
            i <= bs.len(),
            forall|q: int| 0 <= q < i ==> (#[trigger] bs[q]).0 != block,
        decreases bs.len() - i,
    {
        if phi.blocks[i].0.0 == block.0 {
            proof {
                assert(phi.has_pred(block));
                let k = edge_index(*phi, block);
                if k < i {
                    assert(bs[k].0.0 < bs[i as int].0.0);
                } else if k > i {
                    assert(bs[i as int].0.0 < bs[k].0.0);
                }
            }
            return Some(phi.blocks[i].1);
        }
        i += 1;
    }
    None
}

/// Remove the edge of `phi` from `block`, if it has one, and give back its incoming value;
/// the slot of that value then holds the placeholder value 0.
fn remove_edge_of(phi: &mut PhiNode, block: Block) -> (r: Option<Value>)
    requires
        old(phi).wf(),
    ensures
        final(phi).wf(),
        old(phi).has_pred(block) ==> ({
            let k = edge_index(*old(phi), block);
            let pos = old(phi).blocks@[k].1 as int;
            &&& r == Some(old(phi).args@[pos])
            &&& final(phi).blocks@ == old(phi).blocks@.remove(k)
            &&& final(phi).args@ == old(phi).args@.update(pos, Value(0))
        }),
        !old(phi).has_pred(block) ==> r is None && *final(phi) == *old(phi),
{
    let ghost bs = phi.blocks@;
    let mut i: usize = 0;
    while i < phi.blocks.len()
        invariant
            phi.wf(),
            phi.blocks@ == bs,
            phi.blocks@ == old(phi).blocks@,
            phi.args@ == old(phi).args@,
            *phi == *old(phi),
            i <= bs.len(),
            forall|q: int| 0 <= q < i ==> (#[trigger] bs[q]).0 != block,
        decreases bs.len() - i,
    {
        if phi.blocks[i].0.0 == block.0 {
            let pos = phi.blocks[i].1;
            let ghost k = edge_index(*old(phi), block);
            proof {
                assert(old(phi).has_pred(block));
                if k < i {
                    assert(bs[k].0.0 < bs[i as int].0.0);
                } else if k > i {
                    assert(bs[i as int].0.0 < bs[k].0.0);
                }
            }
            phi.blocks.remove(i);
            let v = phi.args[pos as usize];
            phi.args.set(pos as usize, Value(0));
            proof {
                let nb = phi.blocks@;
                assert forall|a: int, b: int| 0 <= a < b < nb.len() implies (#[trigger] nb[a]).0.0 < (#[trigger] nb[b]).0.0 by {
                    let a0 = if a < i { a } else { a + 1 };
                    let b0 = if b < i { b } else { b + 1 };
                    assert(nb[a] == bs[a0]);
                    assert(nb[b] == bs[b0]);
                }
                assert forall|a: int| 0 <= a < nb.len() implies (#[trigger] nb[a]).1 < phi.args@.len() by {
                    let a0 = if a < i { a } else { a + 1 };
                    assert(nb[a] == bs[a0]);
                }
            }
            return Some(v);
        }
        i += 1;
    }
    None
}

impl DataFlowGraph {
    /// The incoming edges `(predecessor, value)` of `phi`, ordered by predecessor.
    pub fn phi_edges(&self, phi: &PhiNode) -> (r: Vec<(Block, Value)>)
        requires
            phi.wf(),
        ensures
            r@ == phi.spec_edges(),
    {
        phi.edges()
    }

    /// The incoming value of `phi` from `pred`, if it has an edge from it.
    pub fn phi_edge_val(&self, phi: &PhiNode, pred: Block) -> (r: Option<Value>)
        requires
            phi.wf(),
        ensures
            r matches Some(v) ==> phi.spec_edges().contains((pred, v)),
            r is None ==> forall|i: int| 0 <= i < phi.spec_edges().len() ==> (#[trigger] phi.spec_edges()[i]).0 != pred,
    {
        phi.edge_val_of(pred)
    }

    /// Do the two phis have the same edges?
    pub fn phi_eq(&self, phi1: &PhiNode, phi2: &PhiNode) -> (r: bool)
        requires
            phi1.wf(),
            phi2.wf(),
        ensures
            r == (phi1.spec_edges() == phi2.spec_edges()),
    {
        phi1.eq(phi2)
    }

    /// Take out of their use lists the uses that stand for operand `idx` of `inst`.
    #[verifier::rlimit(40)]
    pub fn detach_operand(&mut self, inst: Inst, idx: u16)
        requires
            old(self).values.wf(),
            uses_consistent(old(self).values@, old(self).insts@),
        ensures
            final(self).values.wf(),
            uses_consistent(final(self).values@, final(self).insts@),
            final(self).insts@ == old(self).insts@,
            final(self).signatures@ == old(self).signatures@,
            final(self).values@.types == old(self).values@.types,
            final(self).values@.users == old(self).values@.users,
            final(self).values@.consts == old(self).values@.consts,
            final(self).values@.tags == old(self).values@.tags,
            final(self).values@.lists.len() == old(self).values@.lists.len(),
            final(self).values@.attached.len() == old(self).values@.attached.len(),
            forall|u: int|
                0 <= u < old(self).values@.attached.len() ==> #[trigger] final(self).values@.attached[u] == (old(self).values@.attached[u]
                    && !stands_for(old(self).values@, Use(u as u32), inst, idx as int)),
            forall|v: int, u: Use|
                0 <= v < old(self).values@.lists.len() ==> (#[trigger] final(self).values@.lists[v].contains(u) <==> (
                old(self).values@.lists[v].contains(u) && !stands_for(old(self).values@, u, inst, idx as int))),
            (forall|w: int| !#[trigger] attached_for(old(self).values@, w, inst, idx as int)) ==> final(self).values@.lists
                == old(self).values@.lists,
            distinct_operands(old(self).values@) ==> forall|w: int|
                #[trigger] attached_for(old(self).values@, w, inst, idx as int) ==> final(self).values@.lists == lists_without(
                    old(self).values@,
                    old(self).insts@,
                    w,
                ),
            distinct_operands(old(self).values@) ==> distinct_operands(final(self).values@),
    {
        proof {
            self.values.lemma_view();
        }
        let ghost v0 = self.values@;
        let ghost insts0 = self.insts@;
        let ghost has_star = exists|w: int| #[trigger] attached_for(v0, w, inst, idx as int);
        let ghost star = choose|w: int| #[trigger] attached_for(v0, w, inst, idx as int);
        let n = self.values.num_uses();
        let mut u: usize = 0;
        while u < n
            invariant
                self.values.wf(),
                uses_consistent(self.values@, self.insts@),
                self.insts@ == insts0,
                insts0 == old(self).insts@,
                v0 == old(self).values@,
                self.signatures@ == old(self).signatures@,
                self.values@.types == v0.types,
                self.values@.users == v0.users,
                self.values@.consts == v0.consts,
                self.values@.tags == v0.tags,
                n == v0.users.len(),
                v0.attached.len() == n,
                self.values@.lists.len() == v0.lists.len(),
                u <= n,
                forall|w: int|
                    0 <= w < n ==> #[trigger] self.values@.attached[w] == (v0.attached[w] && !(w < u && stands_for(
                        v0,
                        Use(w as u32),
                        inst,
                        idx as int,
                    ))),
                forall|v: int, w: Use|
                    0 <= v < v0.lists.len() ==> (#[trigger] self.values@.lists[v].contains(w) <==> (v0.lists[v].contains(w) && !(
                    w.0 < u && stands_for(v0, w, inst, idx as int)))),
                has_star == exists|w: int| #[trigger] attached_for(v0, w, inst, idx as int),
                has_star ==> attached_for(v0, star, inst, idx as int),
                !has_star ==> self.values@.lists == v0.lists,
                has_star && distinct_operands(v0) ==> self.values@.lists == (if star < u {
                    lists_without(v0, insts0, star)
                } else {
                    v0.lists
                }),
            decreases n - u,
        {
            let use_ = Use(u as u32);
            let user = self.values.use_to_user(use_);
            let idx_ = self.values.use_idx(use_);
            if user.0 == inst.0 && idx_ == idx && !self.values.is_use_detached(use_) {
                let ghost before = self.values@;
                proof {
                    self.values.lemma_view();
                }
                self.detach_use(use_);
                proof {
                    assert(attached_for(v0, u as int, inst, idx as int));
                    if distinct_operands(v0) {
                        assert(star == u);
                        assert(Use(star as u32) == use_);
                    }
                    let val = operand_value(before, insts0, use_);
                    let l = before.lists[val.0 as int];
                    assert forall|v: int, w: Use|
                        0 <= v < v0.lists.len() implies (#[trigger] self.values@.lists[v].contains(w) <==> (v0.lists[v].contains(w) && !(
                        w.0 < u + 1 && stands_for(v0, w, inst, idx as int)))) by {
                        if v == val.0 {
                            if l.contains(use_) {
                                let q = l.index_of(use_);
                                if l.remove(q).contains(w) {
                                    let q2 = l.remove(q).index_of(w);
                                    let q3 = if q2 < q { q2 } else { q2 + 1 };
                                    assert(l[q3] == w);
                                    assert(w != use_);
                                }
                                if l.contains(w) && w != use_ {
                                    let q2 = l.index_of(w);
                                    assert(q2 != q);
                                    let q3 = if q2 < q { q2 } else { q2 - 1 };
                                    assert(l.remove(q)[q3] == w);
                                }
                            }
                            if w.0 == u {
                                assert(w == use_);
                            }
                        } else {
                            if w == use_ && v0.lists[v].contains(w) {
                                assert(before.lists[v].contains(w));
                                assert(before.lists[val.0 as int].contains(use_)) by {
                                    let j = choose|j: int| 0 <= j < before.lists.len() && #[trigger] before.lists[j].contains(use_);
                                    assert(operand_value(before, insts0, before.lists[j][before.lists[j].index_of(use_)]) == Value(j as u32));
                                }
                            }
                            if w.0 == u {
                                assert(w == use_);
                            }
                        }
                    }
                }
            } else {
                proof {
                    self.values.lemma_view();
                    if has_star && star == u {
                        assert(self.values@.attached[u as int]);
                    }
                    assert forall|v: int, w: Use|
                        0 <= v < v0.lists.len() implies (#[trigger] self.values@.lists[v].contains(w) <==> (v0.lists[v].contains(w) && !(
                        w.0 < u + 1 && stands_for(v0, w, inst, idx as int)))) by {
                        if w.0 == u && v0.lists[v].contains(w) && stands_for(v0, w, inst, idx as int) {
                            assert(w == use_);
                            if self.values@.lists[v].contains(w) {
                                let j = self.values@.lists[v].index_of(w);
                                assert(self.values@.attached[self.values@.lists[v][j].0 as int]);
                            }
                        }
                    }
                }
            }
            u += 1;
        }
        proof {
            self.values.lemma_view();
            if distinct_operands(v0) {
                assert forall|w: int| #[trigger] attached_for(v0, w, inst, idx as int) implies w == star by {}
            }
        }
    }

    /// The first use made that stands for operand `idx` of `inst`, if any.
    fn find_first_use(&self, inst: Inst, idx: u16) -> (r: Option<Use>)
        requires
            self.values.wf(),
        ensures
            r == first_use_for(self.values@.users, inst, idx as int),
    {
        let ghost users = self.values@.users;
        let n = self.values.num_uses();
        let mut u: usize = 0;
        while u < n
            invariant
                self.values.wf(),
                users == self.values@.users,
                n == users.len(),
                u <= n,
                forall|w: int| 0 <= w < u ==> !(#[trigger] users[w].0 == inst && users[w].1 as int == idx as int),
            decreases n - u,
        {
            let use_ = Use(u as u32);
            if self.values.use_to_user(use_).0 == inst.0 && self.values.use_idx(use_) == idx {
                proof {
                    assert(users[u as int].0 == inst);
                    assert(first_standing(users, inst, idx as int, u as int));
                    assert forall|x: int| #[trigger] first_standing(users, inst, idx as int, x) implies x == u by {
                        if x > u {
                            assert(users[u as int].0 == inst && users[u as int].1 as int == idx as int);
                        }
                    }
                    assert(Use((u as int) as u32) == use_);
                }
                return Some(use_);
            }
            proof {
                assert(!(users[u as int].0 == inst && users[u as int].1 as int == idx as int));
            }
            u += 1;
        }
        proof {
            assert forall|x: int| !#[trigger] first_standing(users, inst, idx as int, x) by {
                if 0 <= x < n {
                    assert(!(users[x].0 == inst && users[x].1 as int == idx as int));
                }
            }
        }
        None
    }

    /// Attach operand `pos` of `inst` again: the first use made for it goes to the head of
    /// the uses of the value the operand holds.
    pub fn attach_operand(&mut self, inst: Inst, pos: u16)
        requires
            old(self).values.wf(),
            uses_consistent(old(self).values@, old(self).insts@),
            inst.0 < old(self).insts@.len(),
            pos < old(self).insts@[inst.0 as int].spec_arguments().len(),
            old(self).insts@[inst.0 as int].spec_arguments()[pos as int].0 < old(self).values@.types.len(),
            first_use_for(old(self).values@.users, inst, pos as int) matches Some(u) && !old(self).values@.attached[u.0 as int],
        ensures
            final(self).values.wf(),
            uses_consistent(final(self).values@, final(self).insts@),
            final(self).insts@ == old(self).insts@,
            final(self).signatures@ == old(self).signatures@,
            ({
                let u = first_use_for(old(self).values@.users, inst, pos as int)->0;
                let v = old(self).insts@[inst.0 as int].spec_arguments()[pos as int];
                &&& final(self).values@.lists == old(self).values@.lists.update(v.0 as int, seq![u] + old(self).values@.lists[v.0 as int])
                &&& final(self).values@.attached == old(self).values@.attached.update(u.0 as int, true)
            }),
            final(self).values@.users == old(self).values@.users,
            final(self).values@.types == old(self).values@.types,
            final(self).values@.tags == old(self).values@.tags,
            final(self).values@.consts == old(self).values@.consts,
    {
        let use_ = self.find_first_use(inst, pos).unwrap();
        let args = self.insts[inst.0 as usize].arguments();
        let val = args[pos as usize];
        proof {
            let x = choose|x: int| #[trigger] first_standing(self.values@.users, inst, pos as int, x);
            assert(use_.0 == x);
            assert(operand_exists(self.values@, self.insts@, use_));
        }
        self.attach_use(use_, val);
    }

    /// Set operand `pos` of `inst` to `val`: the first use made for it moves from the value
    /// the operand held to the head of the uses of `val` (see [`Self::set_use_value`]).
    pub fn set_operand_value(&mut self, val: Value, inst: Inst, pos: u16)
        requires
            old(self).values.wf(),
            uses_consistent(old(self).values@, old(self).insts@),
            first_use_for(old(self).values@.users, inst, pos as int) matches Some(u) && old(self).values@.attached[u.0 as int],
            val.0 < old(self).values@.types.len(),
        ensures
            final(self).values.wf(),
            ({
                let u = first_use_for(old(self).values@.users, inst, pos as int)->0;
                let w = operand_value(old(self).values@, old(self).insts@, u);
                let l = old(self).values@.lists[w.0 as int];
                let detached = old(self).values@.lists.update(w.0 as int, l.remove(l.index_of(u)));
                final(self).values@.lists == detached.update(val.0 as int, seq![u] + detached[val.0 as int])
            }),
            final(self).values@.attached == old(self).values@.attached,
            final(self).values@.users == old(self).values@.users,
            final(self).values@.types == old(self).values@.types,
            final(self).values@.tags == old(self).values@.tags,
            final(self).values@.consts == old(self).values@.consts,
            final(self).insts@.len() == old(self).insts@.len(),
            forall|i: int| 0 <= i < old(self).insts@.len() && i != inst.0 ==> #[trigger] final(self).insts@[i] == old(self).insts@[i],
            inst.0 < old(self).insts@.len(),
            final(self).insts@[inst.0 as int].same_but_arguments(&old(self).insts@[inst.0 as int]),
            final(self).insts@[inst.0 as int].spec_arguments() == old(self).insts@[inst.0 as int].spec_arguments().update(pos as int, val),
            final(self).signatures@ == old(self).signatures@,
            (forall|v: int, k: int|
                0 <= v < old(self).values@.lists.len() && 0 <= k < old(self).values@.lists[v].len() && old(self).values@.lists[v][k]
                    != first_use_for(old(self).values@.users, inst, pos as int)->0 ==> old(self).values@.users[(
                #[trigger] old(self).values@.lists[v][k]).0 as int] != (inst, pos)) ==> uses_consistent(final(self).values@, final(self).insts@),
    {
        let use_ = self.find_first_use(inst, pos).unwrap();
        proof {
            let x = choose|x: int| #[trigger] first_standing(self.values@.users, inst, pos as int, x);
            assert(use_.0 == x);
        }
        self.set_use_value(use_, val);
    }

    /// Set the incoming value of the phi instruction `inst` from `block` to `val`: an edge
    /// from `block` gets its operand rewritten (its uses detached, and the first use made for
    /// that operand attached to `val`, or a new one made), otherwise a new edge and operand
    /// are added, with a new use.
    #[verifier::rlimit(60)]
    pub fn insert_phi_edge(&mut self, inst: Inst, block: Block, val: Value)
        requires
            old(self).values.wf(),
            uses_consistent(old(self).values@, old(self).insts@),
            inst.0 < old(self).insts@.len(),
            old(self).insts@[inst.0 as int] matches InstructionData::PhiNode(phi) && phi.wf() && phi.args@.len() < 0xffff,
            val.0 < old(self).values@.types.len(),
            old(self).values@.users.len() + 1 < u32::MAX,
        ensures
            distinct_operands(old(self).values@) ==> distinct_operands(final(self).values@),
            final(self).values.wf(),
            uses_consistent(final(self).values@, final(self).insts@),
            final(self).signatures@ == old(self).signatures@,
            final(self).values@.types == old(self).values@.types,
            final(self).values@.consts == old(self).values@.consts,
            final(self).values@.tags == old(self).values@.tags,
            final(self).insts@.len() == old(self).insts@.len(),
            forall|i: int| 0 <= i < old(self).insts@.len() && i != inst.0 ==> #[trigger] final(self).insts@[i] == old(self).insts@[i],
            old(self).insts@[inst.0 as int] matches InstructionData::PhiNode(phi) ==> final(self).insts@[inst.0 as int] matches InstructionData::PhiNode(
                p2,
            ) && p2.wf() && (if phi.has_pred(block) {
                p2.blocks@ == phi.blocks@ && p2.args@ == phi.args@.update(phi_insert_pos(phi, block), val)
            } else {
                p2.args@ == phi.args@.push(val) && exists|k: int|
                    0 <= k <= phi.blocks@.len() && p2.blocks@ == #[trigger] phi.blocks@.insert(k, (block, phi.args@.len() as u32))
            }),
            old(self).insts@[inst.0 as int] matches InstructionData::PhiNode(phi) ==> final(self).values@.users == (if phi.has_pred(block)
                && first_use_for(old(self).values@.users, inst, phi_insert_pos(phi, block)) is Some {
                old(self).values@.users
            } else {
                old(self).values@.users.push((inst, phi_insert_pos(phi, block) as u16))
            }),
            old(self).insts@[inst.0 as int] matches InstructionData::PhiNode(phi) ==> forall|u: int|
                0 <= u < old(self).values@.attached.len() ==> #[trigger] final(self).values@.attached[u] == ((old(self).values@.attached[u]
                    && !stands_for(old(self).values@, Use(u as u32), inst, phi_insert_pos(phi, block))) || u == phi_insert_use(
                    old(self).values@.users,
                    inst,
                    phi,
                    block,
                ).0),
            old(self).insts@[inst.0 as int] matches InstructionData::PhiNode(phi) ==> forall|v: int, u: Use|
                0 <= v < old(self).values@.lists.len() ==> (#[trigger] final(self).values@.lists[v].contains(u) <==> ((
                old(self).values@.lists[v].contains(u) && !stands_for(old(self).values@, u, inst, phi_insert_pos(phi, block))) || (v
                == val.0 && u == phi_insert_use(old(self).values@.users, inst, phi, block)))),
    {
        let i = inst.0 as usize;
        let mut p = match &self.insts[i] {
            InstructionData::PhiNode(node) => {
                let blocks = copy_edges(&node.blocks);
                let args = node.args.clone();
                proof {
                    assert(args@ =~= node.args@);
                    assert(self.insts@[inst.0 as int] == InstructionData::PhiNode(*node));
                }
                PhiNode { blocks, args }
            },
            _ => {
                return;
            },
        };
        let ghost phi = p;
        let ghost v0 = self.values@;
        let ghost insts0 = self.insts@;
        proof {
            self.values.lemma_view();
            assert(old(self).insts@[inst.0 as int] matches InstructionData::PhiNode(n) && n.blocks@ == phi.blocks@ && n.args@
                == phi.args@);
        }
        match phi_edge_pos(&p, block) {
            Some(pos) => {
                proof {
                    assert(phi.blocks@[edge_index(phi, block)].1 < phi.args@.len());
                }
                self.detach_operand(inst, pos as u16);
                let ghost v1 = self.values@;
                p.args.set(pos as usize, val);
                proof {
                    self.values.lemma_view();
                    let insts1 = insts0.update(i as int, InstructionData::PhiNode(p));
                    assert forall|v: int, j: int|
                        0 <= v < v1.lists.len() && 0 <= j < v1.lists[v].len() implies operand_exists(v1, insts1, #[trigger] v1.lists[v][j])
                            && operand_value(v1, insts1, v1.lists[v][j]) == Value(v as u32) by {
                        let w = v1.lists[v][j];
                        assert(v1.lists[v].contains(w));
                        assert(!stands_for(v0, w, inst, pos as int));
                        assert(operand_exists(v1, insts0, v1.lists[v][j]));
                    }
                }
                self.insts.set(i, InstructionData::PhiNode(p));
                let first = self.find_first_use(inst, pos as u16);
                match first {
                    Some(w0) => {
                        proof {
                            let x = choose|x: int| #[trigger] first_standing(v0.users, inst, pos as int, x);
                            assert(stands_for(v0, Use(x as u32), inst, pos as int));
                            assert(!self.values@.attached[w0.0 as int]);
                        }
                        self.attach_use(w0, val);
                        proof {
                            assert forall|v: int, w: Use| 0 <= v < v0.lists.len() implies (#[trigger] self.values@.lists[v].contains(w) <==> ((
                                v0.lists[v].contains(w) && !stands_for(v0, w, inst, pos as int)) || (v == val.0 && w == w0))) by {
                                if v == val.0 {
                                    lemma_head_contains(v1.lists[v], w0, w);
                                }
                            }
                        }
                    },
                    None => {
                        let w0 = self.make_use(val, inst, pos as u16);
                        proof {
                            assert forall|v: int, w: Use| 0 <= v < v0.lists.len() implies (#[trigger] self.values@.lists[v].contains(w) <==> ((
                                v0.lists[v].contains(w) && !stands_for(v0, w, inst, pos as int)) || (v == val.0 && w == w0))) by {
                                if v == val.0 {
                                    lemma_head_contains(v1.lists[v], w0, w);
                                }
                            }
                        }
                    },
                }
            },
            None => {
                let pos = p.args.len() as u32;
                proof {
                    assert forall|w: Use, v: int| 0 <= v < v0.lists.len() && #[trigger] v0.lists[v].contains(w) implies !stands_for(
                        v0,
                        w,
                        inst,
                        pos as int,
                    ) by {
                        let j = v0.lists[v].index_of(w);
                        assert(operand_exists(v0, insts0, v0.lists[v][j]));
                    }
                }
                p.args.push(val);
                let k = insert_edge(&mut p.blocks, block, pos);
                proof {
                    let nb = p.blocks@;
                    assert forall|a: int, b: int| 0 <= a < b < nb.len() implies (#[trigger] nb[a]).0.0 < (#[trigger] nb[b]).0.0 by {
                        if a < k && b < k {
                        } else if a < k && b == k {
                        } else if a < k {
                            assert(nb[b] == phi.blocks@[b - 1]);
                        } else if a == k {
                            assert(nb[b] == phi.blocks@[b - 1]);
                        } else {
                            assert(nb[a] == phi.blocks@[a - 1]);
                            assert(nb[b] == phi.blocks@[b - 1]);
                        }
                    }
                    assert forall|a: int| 0 <= a < nb.len() implies (#[trigger] nb[a]).1 < p.args@.len() by {
                        if a < k {
                        } else if a > k {
                            assert(nb[a] == phi.blocks@[a - 1]);
                        }
                    }
                    let insts1 = insts0.update(i as int, InstructionData::PhiNode(p));
                    assert forall|v: int, j: int|
                        0 <= v < v0.lists.len() && 0 <= j < v0.lists[v].len() implies operand_exists(v0, insts1, #[trigger] v0.lists[v][j])
                            && operand_value(v0, insts1, v0.lists[v][j]) == Value(v as u32) by {
                        assert(operand_exists(v0, insts0, v0.lists[v][j]));
                    }
                }
                self.insts.set(i, InstructionData::PhiNode(p));
                let w0 = self.make_use(val, inst, pos as u16);
                proof {
                    assert forall|v: int, w: Use| 0 <= v < v0.lists.len() implies (#[trigger] self.values@.lists[v].contains(w) <==> ((
                        v0.lists[v].contains(w) && !stands_for(v0, w, inst, pos as int)) || (v == val.0 && w == w0))) by {
                        if v == val.0 {
                            lemma_head_contains(v0.lists[v], w0, w);
                        }
                    }
                }
            },
        }
    }

    /// Remove the edge from `block` of the phi instruction `inst` (see
    /// [`Self::try_remove_phi_edge_at`]).
    pub fn try_remove_phi_edge(&mut self, inst: Inst, block: Block) -> (r: Option<Value>)
        requires
            old(self).values.wf(),
            uses_consistent(old(self).values@, old(self).insts@),
            inst.0 < old(self).insts@.len(),
            old(self).insts@[inst.0 as int].wf(),
        ensures
            final(self).values.wf(),
            uses_consistent(final(self).values@, final(self).insts@),
            final(self).signatures@ == old(self).signatures@,
            final(self).values@.types == old(self).values@.types,
            final(self).values@.users == old(self).values@.users,
            final(self).values@.consts == old(self).values@.consts,
            final(self).values@.tags == old(self).values@.tags,
            removes_phi_edge(*old(self), *final(self), inst, block, r),
    {
        self.try_remove_phi_edge_at(inst, block)
    }

    /// Remove the edge from `block` of the phi instruction `inst`, if it is a phi with such
    /// an edge, and give back its incoming value: the uses standing for the removed operand
    /// are detached, and its slot holds the placeholder value 0.
    #[verifier::spinoff_prover]
    #[verifier::rlimit(80)]
    pub fn try_remove_phi_edge_at(&mut self, inst: Inst, block: Block) -> (r: Option<Value>)
        requires
            old(self).values.wf(),
            uses_consistent(old(self).values@, old(self).insts@),
            inst.0 < old(self).insts@.len(),
            old(self).insts@[inst.0 as int].wf(),
        ensures
            final(self).values.wf(),
            uses_consistent(final(self).values@, final(self).insts@),
            final(self).signatures@ == old(self).signatures@,
            final(self).values@.types == old(self).values@.types,
            final(self).values@.users == old(self).values@.users,
            final(self).values@.consts == old(self).values@.consts,
            final(self).values@.tags == old(self).values@.tags,
            removes_phi_edge(*old(self), *final(self), inst, block, r),
    {
        let i = inst.0 as usize;
        let mut p = match &self.insts[i] {
            InstructionData::PhiNode(node) => {
                let blocks = copy_edges(&node.blocks);
                let args = node.args.clone();
                proof {
                    assert(args@ =~= node.args@);
                    assert(self.insts@[inst.0 as int] == InstructionData::PhiNode(*node));
                }
                PhiNode { blocks, args }
            },
            _ => {
                return None;
            },
        };
        let ghost phi = p;
        proof {
            assert(old(self).insts@[inst.0 as int] matches InstructionData::PhiNode(n) && n.blocks@ == phi.blocks@ && n.args@
                == phi.args@);
        }
        let pos = match phi_edge_pos(&p, block) {
            Some(pos) => pos,
            None => {
                return None;
            },
        };
        let ghost v0 = self.values@;
        let ghost insts0 = self.insts@;
        let n = self.values.num_uses();
        if pos <= 0xffff {
            self.detach_operand(inst, pos as u16);
        } else {
            proof {
                self.values.lemma_view();
            }
        }
        let r = remove_edge_of(&mut p, block);
        proof {
            self.values.lemma_view();
            let vals = self.values@;
            let k = edge_index(phi, block);
            let insts1 = insts0.update(i as int, InstructionData::PhiNode(p));
            assert forall|v: int, j: int|
                0 <= v < vals.lists.len() && 0 <= j < vals.lists[v].len() implies operand_exists(vals, insts1, #[trigger] vals.lists[v][j])
                    && operand_value(vals, insts1, vals.lists[v][j]) == Value(v as u32) by {
                let w = vals.lists[v][j];
                assert(vals.lists[v].contains(w));
                assert(v0.lists[v].contains(w));
                let j0 = v0.lists[v].index_of(w);
                assert(operand_exists(v0, insts0, v0.lists[v][j0]));
                assert(operand_value(v0, insts0, v0.lists[v][j0]) == Value(v as u32));
                assert(w.0 < n);
                assert(!stands_for(v0, w, inst, pos as int));
            }
            if distinct_operands(v0) {
                assert forall|w: int| #[trigger] attached_for(v0, w, inst, pos as int) implies vals.lists[phi.args@[pos as int].0 as int].len()
                    + 1 == v0.lists[phi.args@[pos as int].0 as int].len() by {
                    let u = Use(w as u32);
                    assert(u.0 as int == w);
                    let val = operand_value(v0, insts0, u);
                    assert(val == phi.args@[pos as int]);
                    let j = choose|j: int| 0 <= j < v0.lists.len() && #[trigger] v0.lists[j].contains(Use(w as u32));
                    let q = v0.lists[j].index_of(u);
                    assert(operand_value(v0, insts0, v0.lists[j][q]) == Value(j as u32));
                    assert(j == val.0);
                }
            }
        }
        self.insts.set(i, InstructionData::PhiNode(p));
        proof {
            let k = edge_index(phi, block);
            assert(pos as int == phi.blocks@[k].1 as int);
            assert((forall|w: int| !#[trigger] attached_for(v0, w, inst, pos as int)) ==> self.values@.lists == v0.lists);
            assert(distinct_operands(v0) ==> distinct_operands(self.values@));
            assert(distinct_operands(v0) ==> forall|w: int|
                #[trigger] attached_for(v0, w, inst, pos as int) ==> self.values@.lists == lists_without(v0, insts0, w)
                    && self.values@.lists[phi.args@[pos as int].0 as int].len() + 1 == v0.lists[phi.args@[pos as int].0 as int].len());
        }
        r
    }
}

impl DataFlowGraph {
    /// Strip every alias: its uses go to the end of its alias chain.
    pub fn strip_alias(&mut self)
        requires
            old(self).values.wf(),
            uses_consistent(old(self).values@, old(self).insts@),
            forall|v: Value| v.0 < old(self).values@.types.len() ==> #[trigger] chain_ends(old(self).values@.types, v),
        ensures
            final(self).values.wf(),
            uses_consistent(final(self).values@, final(self).insts@),
            aliases_stripped(old(self).values@, old(self).insts@, final(self).values@, final(self).insts@, 0, old(self).values@.types.len() as int),
            final(self).signatures@ == old(self).signatures@,
            forall|x: int|
                0 <= x < old(self).values@.types.len() && !#[trigger] strip_touches(old(self).values@, 0, old(self).values@.types.len() as int, x)
                    ==> final(self).values@.lists[x] == old(self).values@.lists[x],
    {
        self.strip_alias_after(0);
    }

    /// Strip the aliases among the values from `old_num_vals` on: the uses of each go to the
    /// end of its alias chain, and the aliases along the chain are pointed straight at that
    /// end.
    #[verifier::spinoff_prover]
    #[verifier::rlimit(80)]
    pub fn strip_alias_after(&mut self, old_num_vals: usize)
        requires
            old(self).values.wf(),
            uses_consistent(old(self).values@, old(self).insts@),
            forall|v: Value| old_num_vals <= v.0 < old(self).values@.types.len() ==> #[trigger] chain_ends(old(self).values@.types, v),
        ensures
            final(self).values.wf(),
            uses_consistent(final(self).values@, final(self).insts@),
            aliases_stripped(old(self).values@, old(self).insts@, final(self).values@, final(self).insts@, old_num_vals as int, old(self).values@.types.len() as int),
            final(self).signatures@ == old(self).signatures@,
            forall|x: int|
                0 <= x < old(self).values@.types.len() && !#[trigger] strip_touches(
                    old(self).values@,
                    old_num_vals as int,
                    old(self).values@.types.len() as int,
                    x,
                ) ==> final(self).values@.lists[x] == old(self).values@.lists[x],
    {
        let ghost v0 = self.values@;
        let ghost insts0 = self.insts@;
        let n = self.values.num();
        proof {
            self.values.lemma_view();
            lemma_stripped_identity(v0, insts0, old_num_vals as int, old_num_vals as int);
        }
        let mut cur = old_num_vals;
        if cur >= n {
            proof {
                lemma_stripped_identity(v0, insts0, old_num_vals as int, n as int);
            }
            return;
        }
        while cur < n
            invariant
                old_num_vals <= cur <= n,
                n == v0.types.len(),
                v0.lists.len() == n,
                n < u32::MAX,
                self.values.wf(),
                uses_consistent(self.values@, self.insts@),
                uses_consistent(v0, insts0),
                forall|v: Value| old_num_vals <= v.0 < n ==> #[trigger] chain_ends(v0.types, v),
                aliases_stripped(v0, insts0, self.values@, self.insts@, old_num_vals as int, cur as int),
                forall|x: int| cur <= x < n && (#[trigger] v0.types[x]) is Alias ==> self.values@.lists[x] == v0.lists[x],
                self.signatures@ == old(self).signatures@,
                forall|x: int|
                    0 <= x < n && !#[trigger] strip_touches(v0, old_num_vals as int, cur as int, x) ==> self.values@.lists[x]
                        == v0.lists[x],
            decreases n - cur,
        {
            let ghost vals1 = self.values@;
            let ghost insts1 = self.insts@;
            let start = Value(cur as u32);
            proof {
                self.values.lemma_view();
                assert(chain_ends(v0.types, start));
            }
            let mut stack: Vec<Value> = Vec::new();
            let mut v = start;
            let ghost mut fuel = choose|f: nat| alias_ends(vals1.types, start, f);
            loop
                invariant
                    self.values@ == vals1,
                    self.values.wf(),
                    alias_ends(vals1.types, v, fuel),
                    chain_ends(vals1.types, start),
                    resolved(vals1.types, start) == resolved(vals1.types, v),
                    stack@.len() == 0 ==> v == start,
                    stack@.len() > 0 ==> stack@[0] == start,
                    forall|k: int|
                        0 <= k < stack@.len() ==> (#[trigger] stack@[k]).0 < vals1.types.len() && vals1.types[stack@[k].0 as int] is Alias
                            && chain_ends(vals1.types, stack@[k]) && resolved(vals1.types, stack@[k]) == resolved(vals1.types, start),
                ensures
                    v.0 < vals1.types.len(),
                    !(vals1.types[v.0 as int] is Alias),
                    v == resolved(vals1.types, start),
                    stack@.len() == 0 ==> v == start,
                    stack@.len() > 0 ==> stack@[0] == start,
                    forall|k: int|
                        0 <= k < stack@.len() ==> (#[trigger] stack@[k]).0 < vals1.types.len() && vals1.types[stack@[k].0 as int] is Alias
                            && chain_ends(vals1.types, stack@[k]) && resolved(vals1.types, stack@[k]) == resolved(vals1.types, start),
                decreases fuel,
            {
                match self.values.alias_of(v) {
                    Some(a) => {
                        proof {
                            lemma_resolved_root(vals1.types, v, fuel);
                            lemma_resolved_step(vals1.types, v, a);
                        }
                        stack.push(v);
                        v = a;
                        proof {
                            fuel = (fuel - 1) as nat;
                        }
                    },
                    None => {
                        proof {
                            lemma_resolved_root(vals1.types, v, fuel);
                            assert(alias_ends(vals1.types, v, 0));
                            lemma_resolved_root(vals1.types, v, 0);
                        }
                        break;
                    },
                }
            }
            if stack.len() > 0 {
                proof {
                    assert(stack@[0] == start);
                    assert(v != start);
                }
                self.replace_uses(start, v);
                let ghost vals2 = self.values@;
                let ghost insts2 = self.insts@;
                let mut k: usize = 1;
                while k < stack.len()
                    invariant
                        1 <= k <= stack@.len(),
                        self.values.wf(),
                        uses_consistent(self.values@, self.insts@),
                        self.insts@ == insts2,
                        self.signatures@ == old(self).signatures@,
                        self.values@.lists == vals2.lists,
                        self.values@.tags == vals2.tags,
                        self.values@.users == vals2.users,
                        self.values@.attached == vals2.attached,
                        self.values@.consts == vals2.consts,
                        vals2.types == vals1.types,
                        self.values@.types.len() == vals1.types.len(),
                        forall|w: Value| #[trigger] chain_ends(vals1.types, w) ==> chain_ends(self.values@.types, w)
                            && resolved(self.values@.types, w) == resolved(vals1.types, w),
                        forall|x: int|
                            0 <= x < vals1.types.len() ==> ((#[trigger] self.values@.types[x]) is Alias <==> vals1.types[x] is Alias)
                                && (!(vals1.types[x] is Alias) ==> self.values@.types[x] == vals1.types[x]),
                        forall|q: int|
                            0 <= q < stack@.len() ==> (#[trigger] stack@[q]).0 < vals1.types.len() && vals1.types[stack@[q].0 as int] is Alias
                                && chain_ends(vals1.types, stack@[q]) && resolved(vals1.types, stack@[q]) == v,
                    decreases stack@.len() - k,
                {
                    let it = stack[k];
                    let ghost t = self.values@.types;
                    proof {
                        assert(t[it.0 as int] is Alias);
                        lemma_repoint_keeps_resolved(t, it);
                        assert(resolved(t, it) == v);
                    }
                    self.values.set_type(it, ValueDataType::Alias(v));
                    proof {
                        let t2 = self.values@.types;
                        assert(t2 == t.update(it.0 as int, ValueDataType::Alias(resolved(t, it))));
                        assert forall|w: Value| #[trigger] chain_ends(vals1.types, w) implies chain_ends(t2, w)
                            && resolved(t2, w) == resolved(vals1.types, w) by {
                            assert(chain_ends(t, w));
                        }
                        assert forall|x: int| 0 <= x < vals1.types.len() implies ((#[trigger] t2[x]) is Alias
                            <==> vals1.types[x] is Alias) && (!(vals1.types[x] is Alias) ==> t2[x] == vals1.types[x]) by {
                            assert(t[x] is Alias <==> vals1.types[x] is Alias);
                        }
                    }
                    k += 1;
                }
                proof {
                    lemma_strip_step(v0, insts0, vals1, insts1, vals2, insts2, self.values@, self.insts@,
                        old_num_vals as int, cur as int, v);
                    assert(Value(cur as int as u32) == start);
                    assert(resolved(v0.types, start) == v);
                    assert forall|x: int|
                        0 <= x < n && !#[trigger] strip_touches(v0, old_num_vals as int, cur + 1, x) implies self.values@.lists[x]
                            == v0.lists[x] by {
                        if strip_touches(v0, old_num_vals as int, cur as int, x) {
                            if old_num_vals <= x < cur && v0.types[x] is Alias {
                            } else {
                                let y = choose|y: int|
                                    old_num_vals <= y < cur && v0.types[y] is Alias && #[trigger] resolved(v0.types, Value(y as u32))
                                        == Value(x as u32);
                                assert(strip_touches(v0, old_num_vals as int, cur + 1, x));
                            }
                        }
                        assert(x != cur);
                        assert(Value(x as u32).0 as int == x);
                        if x == v.0 {
                            assert(resolved(v0.types, Value(cur as int as u32)) == Value(x as u32));
                            assert(strip_touches(v0, old_num_vals as int, cur + 1, x));
                        }
                    }
                }
            } else {
                proof {
                    lemma_strip_skip(v0, insts0, vals1, insts1, old_num_vals as int, cur as int);
                    assert forall|x: int|
                        0 <= x < n && !#[trigger] strip_touches(v0, old_num_vals as int, cur + 1, x) implies self.values@.lists[x]
                            == v0.lists[x] by {
                        if strip_touches(v0, old_num_vals as int, cur as int, x) {
                            if old_num_vals <= x < cur && v0.types[x] is Alias {
                            } else {
                                let y = choose|y: int|
                                    old_num_vals <= y < cur && v0.types[y] is Alias && #[trigger] resolved(v0.types, Value(y as u32))
                                        == Value(x as u32);
                                assert(strip_touches(v0, old_num_vals as int, cur + 1, x));
                            }
                        }
                    }
                }
            }
            cur += 1;
        }
    }
}

/// Instructions that differ at most in their operand values have as many operands.
pub proof fn lemma_same_but_arguments_len(a: InstructionData, b: InstructionData)
    requires
        a.same_but_arguments(&b),
    ensures
        a.spec_arguments().len() == b.spec_arguments().len(),
        a.wf() == b.wf(),
{
}

/// Differing at most in operand values is transitive.
pub proof fn lemma_same_but_arguments_trans(a: InstructionData, b: InstructionData, c: InstructionData)
    requires
        a.same_but_arguments(&b),
        b.same_but_arguments(&c),
    ensures
        a.same_but_arguments(&c),
{
}

/// Detaching a use right after attaching it restores the use lists: attaching puts the use
/// at the head of the list of its value, and detaching takes it out again.
pub proof fn lemma_detach_undoes_attach(lists: Seq<Seq<Use>>, v: int, u: Use)
    requires
        0 <= v < lists.len(),
        !lists[v].contains(u),
    ensures
        ({
            let attached = lists.update(v, seq![u] + lists[v]);
            let l = attached[v];
            attached.update(v, l.remove(l.index_of(u)))
        }) == lists,
{
    let l = seq![u] + lists[v];
    assert(l[0] == u);
    assert(l.index_of(u) == 0) by {
        assert(l.contains(u));
        let i = l.index_of(u);
        if i != 0 {
            assert(lists[v][i - 1] == u);
        }
    }
    assert(l.remove(0) =~= lists[v]);
    assert(lists.update(v, seq![u] + lists[v]).update(v, l.remove(0)) =~= lists);
}

/// An alias resolves to what the value it names resolves to.
pub proof fn lemma_resolved_step(types: Seq<ValueDataType>, x: Value, a: Value)
    requires
        chain_ends(types, x),
        x.0 < types.len(),
        types[x.0 as int] == ValueDataType::Alias(a),
    ensures
        chain_ends(types, a),
        resolved(types, x) == resolved(types, a),
{
    let f = choose|f: nat| alias_ends(types, x, f);
    assert(alias_ends(types, a, (f - 1) as nat));
    let g = choose|g: nat| alias_ends(types, a, g);
    lemma_alias_root_unique(types, a, (f - 1) as nat, g);
}

/// The end of a chain is where the chain ends, and it is no alias.
pub proof fn lemma_resolved_root(types: Seq<ValueDataType>, v: Value, f: nat)
    requires
        alias_ends(types, v, f),
    ensures
        chain_ends(types, v),
        resolved(types, v) == alias_root(types, v, f),
        resolved(types, v).0 < types.len(),
        !(types[resolved(types, v).0 as int] is Alias),
{
    let g = choose|g: nat| alias_ends(types, v, g);
    lemma_alias_root_unique(types, v, f, g);
}

/// Pointing an alias straight at the end of its chain keeps every chain's end.
pub proof fn lemma_repoint_keeps_roots(types: Seq<ValueDataType>, it: Value, v: Value, f: nat)
    requires
        it.0 < types.len(),
        types[it.0 as int] is Alias,
        chain_ends(types, it),
        alias_ends(types, v, f),
    ensures
        alias_ends(types.update(it.0 as int, ValueDataType::Alias(resolved(types, it))), v, f),
        alias_root(types.update(it.0 as int, ValueDataType::Alias(resolved(types, it))), v, f)
            == alias_root(types, v, f),
    decreases f,
{
    let r = resolved(types, it);
    let t2 = types.update(it.0 as int, ValueDataType::Alias(r));
    let fi = choose|g: nat| alias_ends(types, it, g);
    lemma_resolved_root(types, it, fi);
    if v == it {
        assert(f > 0);
        assert(r != it);
        assert(t2[r.0 as int] == types[r.0 as int]);
        assert(alias_ends(t2, r, (f - 1) as nat));
        assert(alias_root(t2, r, (f - 1) as nat) == r);
        lemma_alias_root_unique(types, it, fi, f);
    } else {
        match types[v.0 as int] {
            ValueDataType::Alias(a) => {
                lemma_repoint_keeps_roots(types, it, a, (f - 1) as nat);
            },
            _ => {},
        }
    }
}

/// Pointing an alias straight at the end of its chain keeps which chains end, and where.
pub proof fn lemma_repoint_keeps_resolved(types: Seq<ValueDataType>, it: Value)
    requires
        it.0 < types.len(),
        types[it.0 as int] is Alias,
        chain_ends(types, it),
    ensures
        forall|v: Value| #[trigger] chain_ends(types, v) ==> chain_ends(
            types.update(it.0 as int, ValueDataType::Alias(resolved(types, it))),
            v,
        ) && resolved(types.update(it.0 as int, ValueDataType::Alias(resolved(types, it))), v)
            == resolved(types, v),
{
    let t2 = types.update(it.0 as int, ValueDataType::Alias(resolved(types, it)));
    assert forall|v: Value| #[trigger] chain_ends(types, v) implies chain_ends(t2, v) && resolved(t2, v) == resolved(types, v) by {
        let f = choose|f: nat| alias_ends(types, v, f);
        lemma_repoint_keeps_roots(types, it, v, f);
        lemma_resolved_root(t2, v, f);
    }
}

/// Operand `j` of instruction `i` holds `now`: the end of the alias chain of the alias among
/// values `lo..hi` that one of its uses belonged to, or else what it held in `insts`.
pub open spec fn stripped_operand(
    vals: ValuesView,
    insts: Seq<InstructionData>,
    lo: int,
    hi: int,
    i: int,
    j: int,
    now: Value,
) -> bool {
    if exists|x: int| lo <= x < hi && (#[trigger] vals.types[x]) is Alias && is_site(vals.users, vals.lists[x], i, j) {
        let x = choose|x: int| lo <= x < hi && (#[trigger] vals.types[x]) is Alias && is_site(vals.users, vals.lists[x], i, j);
        now == resolved(vals.types, Value(x as u32))
    } else {
        now == insts[i].spec_arguments()[j]
    }
}

/// Value `x` has its uses moved by stripping the aliases numbered from `lo` to `hi`: it is
/// one of those aliases, or the end of the chain of one of them.
pub open spec fn strip_touches(v0: ValuesView, lo: int, hi: int, x: int) -> bool {
    ||| lo <= x < hi && v0.types[x] is Alias
    ||| exists|y: int|
        lo <= y < hi && v0.types[y] is Alias && #[trigger] resolved(v0.types, Value(y as u32)) == Value(x as u32)
}

/// From `(v0, insts0)` to `(v1, insts1)` the aliases among values `lo..hi` lost their uses to
/// the ends of their chains: which values are aliases, where chains end, the uses, their
/// operands' positions and the constants stay; each operand that a use of such an alias stood
/// for now holds the end of its chain.
pub open spec fn aliases_stripped(
    v0: ValuesView,
    insts0: Seq<InstructionData>,
    v1: ValuesView,
    insts1: Seq<InstructionData>,
    lo: int,
    hi: int,
) -> bool {
    &&& v1.types.len() == v0.types.len()
    &&& v1.users == v0.users
    &&& v1.attached == v0.attached
    &&& v1.consts == v0.consts
    &&& forall|v: Value| #[trigger] chain_ends(v0.types, v) ==> chain_ends(v1.types, v) && resolved(v1.types, v)
        == resolved(v0.types, v)
    &&& forall|x: int|
        0 <= x < v0.types.len() ==> ((#[trigger] v1.types[x]) is Alias <==> v0.types[x] is Alias) && (!(
        v0.types[x] is Alias) ==> v1.types[x] == v0.types[x])
    &&& forall|x: int| lo <= x < hi && (#[trigger] v0.types[x]) is Alias ==> v1.lists[x].len() == 0
    &&& insts1.len() == insts0.len()
    &&& forall|i: int|
        0 <= i < insts0.len() ==> (#[trigger] insts1[i]).same_but_arguments(&insts0[i]) && insts1[i].wf()
            == insts0[i].wf()
    &&& forall|i: int, j: int|
        0 <= i < insts0.len() && 0 <= j < insts0[i].spec_arguments().len() ==> stripped_operand(
            v0,
            insts0,
            lo,
            hi,
            i,
            j,
            #[trigger] insts1[i].spec_arguments()[j],
        )
}

/// Under consistent use lists, an operand is named by uses of one value at most.
pub proof fn lemma_site_unique(vals: ValuesView, insts: Seq<InstructionData>, x1: int, x2: int, i: int, j: int)
    requires
        uses_consistent(vals, insts),
        vals.lists.len() < u32::MAX,
        0 <= x1 < vals.lists.len(),
        0 <= x2 < vals.lists.len(),
        is_site(vals.users, vals.lists[x1], i, j),
        is_site(vals.users, vals.lists[x2], i, j),
    ensures
        x1 == x2,
{
    let k1 = choose|k: int| 0 <= k < vals.lists[x1].len() && vals.users[(#[trigger] vals.lists[x1][k]).0 as int].0.0 == i
        && vals.users[vals.lists[x1][k].0 as int].1 == j;
    let k2 = choose|k: int| 0 <= k < vals.lists[x2].len() && vals.users[(#[trigger] vals.lists[x2][k]).0 as int].0.0 == i
        && vals.users[vals.lists[x2][k].0 as int].1 == j;
    assert(operand_exists(vals, insts, vals.lists[x1][k1]));
    assert(operand_exists(vals, insts, vals.lists[x2][k2]));
}

/// Extending the range of stripped aliases by value `hi`, whose uses did not name the operand.
pub proof fn lemma_stripped_extend(
    vals: ValuesView,
    insts: Seq<InstructionData>,
    lo: int,
    hi: int,
    i: int,
    j: int,
    now: Value,
)
    requires
        uses_consistent(vals, insts),
        vals.lists.len() < u32::MAX,
        vals.types.len() == vals.lists.len(),
        0 <= lo,
        hi < vals.lists.len(),
        !(vals.types[hi] is Alias && is_site(vals.users, vals.lists[hi], i, j)),
        stripped_operand(vals, insts, lo, hi, i, j, now),
    ensures
        stripped_operand(vals, insts, lo, hi + 1, i, j, now),
{
    if exists|x: int| lo <= x < hi + 1 && (#[trigger] vals.types[x]) is Alias && is_site(vals.users, vals.lists[x], i, j) {
        let x = choose|x: int| lo <= x < hi + 1 && (#[trigger] vals.types[x]) is Alias && is_site(vals.users, vals.lists[x], i, j);
        assert(x < hi);
        let y = choose|x: int| lo <= x < hi && (#[trigger] vals.types[x]) is Alias && is_site(vals.users, vals.lists[x], i, j);
        lemma_site_unique(vals, insts, x, y, i, j);
    }
}

/// Extending the range of stripped aliases by the alias `hi`, one of whose uses named the
/// operand, which now holds the end of its chain.
pub proof fn lemma_stripped_add(
    vals: ValuesView,
    insts: Seq<InstructionData>,
    lo: int,
    hi: int,
    i: int,
    j: int,
)
    requires
        uses_consistent(vals, insts),
        vals.lists.len() < u32::MAX,
        vals.types.len() == vals.lists.len(),
        0 <= lo <= hi < vals.lists.len(),
        vals.types[hi] is Alias,
        is_site(vals.users, vals.lists[hi], i, j),
    ensures
        stripped_operand(vals, insts, lo, hi + 1, i, j, resolved(vals.types, Value(hi as u32))),
{
    assert(lo <= hi < hi + 1 && vals.types[hi] is Alias && is_site(vals.users, vals.lists[hi], i, j));
    let x = choose|x: int| lo <= x < hi + 1 && (#[trigger] vals.types[x]) is Alias && is_site(vals.users, vals.lists[x], i, j);
    lemma_site_unique(vals, insts, x, hi, i, j);
}

/// Nothing is stripped over an empty range of values.
pub proof fn lemma_stripped_identity(v0: ValuesView, insts0: Seq<InstructionData>, lo: int, hi: int)
    requires
        hi <= lo,
    ensures
        aliases_stripped(v0, insts0, v0, insts0, lo, hi),
{
    assert forall|i: int| 0 <= i < insts0.len() implies (#[trigger] insts0[i]).same_but_arguments(&insts0[i]) by {
        lemma_same_but_arguments_refl(insts0[i]);
    }
}

/// Every instruction differs at most in its operand values from itself.
pub proof fn lemma_same_but_arguments_refl(a: InstructionData)
    ensures
        a.same_but_arguments(&a),
{
}

/// One step of stripping where value `cur` is no alias.
pub proof fn lemma_strip_skip(
    v0: ValuesView,
    insts0: Seq<InstructionData>,
    vals1: ValuesView,
    insts1: Seq<InstructionData>,
    lo: int,
    cur: int,
)
    requires
        aliases_stripped(v0, insts0, vals1, insts1, lo, cur),
        uses_consistent(v0, insts0),
        v0.lists.len() < u32::MAX,
        v0.types.len() == v0.lists.len(),
        0 <= lo <= cur < v0.types.len(),
        !(vals1.types[cur] is Alias),
    ensures
        aliases_stripped(v0, insts0, vals1, insts1, lo, cur + 1),
{
    assert(!(v0.types[cur] is Alias));
    assert forall|i: int, j: int|
        0 <= i < insts0.len() && 0 <= j < insts0[i].spec_arguments().len() implies stripped_operand(
        v0,
        insts0,
        lo,
        cur + 1,
        i,
        j,
        #[trigger] insts1[i].spec_arguments()[j],
    ) by {
        lemma_stripped_extend(v0, insts0, lo, cur, i, j, insts1[i].spec_arguments()[j]);
    }
}

/// One step of stripping where value `cur` is an alias: its uses went to `root`, the end of
/// its chain, and the aliases along the chain were pointed at `root`.
#[verifier::rlimit(50)]
pub proof fn lemma_strip_step(
    v0: ValuesView,
    insts0: Seq<InstructionData>,
    vals1: ValuesView,
    insts1: Seq<InstructionData>,
    vals2: ValuesView,
    insts2: Seq<InstructionData>,
    vals3: ValuesView,
    insts3: Seq<InstructionData>,
    lo: int,
    cur: int,
    root: Value,
)
    requires
        aliases_stripped(v0, insts0, vals1, insts1, lo, cur),
        uses_consistent(v0, insts0),
        v0.lists.len() < u32::MAX,
        v0.types.len() == v0.lists.len(),
        0 <= lo <= cur < v0.types.len(),
        forall|x: int| cur <= x < v0.types.len() && (#[trigger] v0.types[x]) is Alias ==> vals1.lists[x] == v0.lists[x],
        chain_ends(v0.types, Value(cur as u32)),
        vals1.types[cur] is Alias,
        root == resolved(vals1.types, Value(cur as u32)),
        root.0 < v0.types.len(),
        !(vals1.types[root.0 as int] is Alias),
        vals1.lists.len() == v0.lists.len(),
        operands_replaced(insts1, insts2, vals1.users, vals1.lists[cur], root),
        vals2.lists == vals1.lists.update(root.0 as int, vals1.lists[cur] + vals1.lists[root.0 as int]).update(
            cur,
            Seq::<Use>::empty(),
        ),
        vals2.types == vals1.types,
        vals2.users == vals1.users,
        vals2.attached == vals1.attached,
        vals2.consts == vals1.consts,
        insts3 == insts2,
        vals3.lists == vals2.lists,
        vals3.users == vals2.users,
        vals3.attached == vals2.attached,
        vals3.consts == vals2.consts,
        vals3.types.len() == vals1.types.len(),
        forall|w: Value| #[trigger] chain_ends(vals1.types, w) ==> chain_ends(vals3.types, w) && resolved(vals3.types, w)
            == resolved(vals1.types, w),
        forall|x: int|
            0 <= x < vals1.types.len() ==> ((#[trigger] vals3.types[x]) is Alias <==> vals1.types[x] is Alias) && (!(
            vals1.types[x] is Alias) ==> vals3.types[x] == vals1.types[x]),
    ensures
        aliases_stripped(v0, insts0, vals3, insts3, lo, cur + 1),
        forall|x: int| cur + 1 <= x < v0.types.len() && (#[trigger] v0.types[x]) is Alias ==> vals3.lists[x] == v0.lists[x],
{
    let n = v0.types.len();
    assert(v0.types[cur] is Alias);
    assert(vals1.lists[cur] == v0.lists[cur]);
    assert(root == resolved(v0.types, Value(cur as u32)));
    assert(!(v0.types[root.0 as int] is Alias));
    assert forall|w: Value| #[trigger] chain_ends(v0.types, w) implies chain_ends(vals3.types, w) && resolved(vals3.types, w)
        == resolved(v0.types, w) by {
        assert(chain_ends(vals1.types, w));
    }
    assert forall|x: int| 0 <= x < v0.types.len() implies ((#[trigger] vals3.types[x]) is Alias <==> v0.types[x] is Alias)
        && (!(v0.types[x] is Alias) ==> vals3.types[x] == v0.types[x]) by {
        assert(vals1.types[x] is Alias <==> v0.types[x] is Alias);
    }
    assert forall|x: int| lo <= x < cur + 1 && (#[trigger] v0.types[x]) is Alias implies vals3.lists[x].len() == 0 by {
        if x < cur {
            assert(vals1.lists[x].len() == 0);
            assert(x != root.0);
        }
    }
    assert forall|i: int| 0 <= i < insts0.len() implies (#[trigger] insts3[i]).same_but_arguments(&insts0[i])
        && insts3[i].wf() == insts0[i].wf() by {
        lemma_same_but_arguments_trans(insts3[i], insts1[i], insts0[i]);
    }
    assert forall|i: int, j: int|
        0 <= i < insts0.len() && 0 <= j < insts0[i].spec_arguments().len() implies stripped_operand(
        v0,
        insts0,
        lo,
        cur + 1,
        i,
        j,
        #[trigger] insts3[i].spec_arguments()[j],
    ) by {
        lemma_same_but_arguments_len(insts1[i], insts0[i]);
        if is_site(v0.users, v0.lists[cur], i, j) {
            lemma_stripped_add(v0, insts0, lo, cur, i, j);
        } else {
            lemma_stripped_extend(v0, insts0, lo, cur, i, j, insts1[i].spec_arguments()[j]);
        }
    }
    assert forall|x: int| cur + 1 <= x < n && (#[trigger] v0.types[x]) is Alias implies vals3.lists[x] == v0.lists[x] by {
        assert(x != root.0);
    }
}

/// Every interned integer is held by its value, a value of the table.
pub open spec fn ints_agree(v: ValuesView) -> bool {
    forall|k: i32|
        #[trigger] v.consts.ints.contains_key(k) ==> v.consts.ints[k].0 < v.types.len() && v.types[v.consts.ints[k].0 as int]
            == ValueDataType::Iconst { val: k }
}

/// If the integer `k` is interned, its value is defined as `k`.
pub open spec fn int_agrees(v: ValuesView, k: i32) -> bool {
    v.consts.ints.contains_key(k) ==> v.consts.ints[k].0 < v.types.len() && v.types[v.consts.ints[k].0 as int]
        == ValueDataType::Iconst { val: k }
}

/// Interning the integer `c` gives a value defined as that integer; interning it again
/// gives the same value and changes nothing; interning another integer `c2` gives another
/// value. It needs only that the interned values of `c` and `c2` are defined as them.
pub proof fn lemma_iconst_law(v: ValuesView, c: i32, c2: i32)
    requires
        int_agrees(v, c),
        int_agrees(v, c2),
        v.types.len() + 1 < u32::MAX,
    ensures
        ({
            let (w, r) = intern_int(v, c);
            &&& ints_agree(v) ==> ints_agree(w)
            &&& r.0 < w.types.len()
            &&& spec_def(w.types[r.0 as int]) == ValueDef::Const(Const::Int(c))
            &&& intern_int(w, c) == (w, r)
            &&& w.types.len() == (if v.consts.ints.contains_key(c) { v.types.len() } else { v.types.len() + 1 })
            &&& c2 != c ==> intern_int(w, c2).1 != r
        }),
{
    let (w, r) = intern_int(v, c);
    if !v.consts.ints.contains_key(c) {
        if ints_agree(v) {
            assert forall|k: i32| #[trigger] w.consts.ints.contains_key(k) implies w.consts.ints[k].0 < w.types.len()
                && w.types[w.consts.ints[k].0 as int] == ValueDataType::Iconst { val: k } by {
                if k != c {
                    assert(v.consts.ints.contains_key(k));
                }
            }
        }
    }
    if c2 != c && w.consts.ints.contains_key(c2) {
        assert(v.consts.ints.contains_key(c2));
        assert(w.types[w.consts.ints[c2].0 as int] == ValueDataType::Iconst { val: c2 });
    }
}

/// The end of an alias chain is its own end, and a value that is no alias is its own end.
pub proof fn lemma_resolve_alias_idempotent(types: Seq<ValueDataType>, v: Value, f: nat, g: nat)
    requires
        alias_ends(types, v, f),
    ensures
        alias_ends(types, alias_root(types, v, f), g),
        alias_root(types, alias_root(types, v, f), g) == alias_root(types, v, f),
        !(types[v.0 as int] is Alias) ==> alias_root(types, v, f) == v,
{
    lemma_alias_root_unique(types, v, f, f);
}

} // verus!
