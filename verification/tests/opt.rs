use openvaf::entities::Value;
use openvaf::opt::{ClassId, FlatSet};

#[test]
fn meet_rules() {
    let a = FlatSet::Elem(Value(3));
    let b = FlatSet::Elem(Value(4));
    assert_eq!(a.meet(FlatSet::Top), FlatSet::Top);
    assert_eq!(FlatSet::Top.meet(FlatSet::Bottom), FlatSet::Top);
    assert_eq!(a.meet(FlatSet::Bottom), a);
    assert_eq!(FlatSet::Bottom.meet(b), b);
    assert_eq!(a.meet(a), a);
    assert_eq!(a.meet(b), FlatSet::Top);
    assert_eq!(FlatSet::Bottom.meet(FlatSet::Bottom), FlatSet::Bottom);
    assert_eq!(ClassId(2), ClassId(2));
}
