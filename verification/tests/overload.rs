use openvaf::overload::{resolve_overload, OverloadResult, TypeMismatch};

#[test]
fn single_signature_is_chosen_with_its_casts() {
    // one signature (real, int) -> real; the first argument is an int that converts to real
    let r = resolve_overload(
        &vec![true, true],
        &vec![vec![1, 2]],
        &vec![vec![true, true]],
        &vec![vec![false, true]],
        &vec![vec![false, true]],
        &vec![vec![Some(1), None]],
        &vec![1],
    );
    assert_eq!(
        r,
        OverloadResult {
            mismatches: vec![],
            reported: false,
            return_ty: Some(1),
            valid: true,
            chosen: Some(0),
            casts: vec![(0, 1)],
            record_signature: false,
        }
    );
}

#[test]
fn mismatch_lists_distinct_requirements() {
    // two signatures that both require type 5 at argument 0, which the argument does not meet
    let r = resolve_overload(
        &vec![true],
        &vec![vec![5], vec![5]],
        &vec![vec![false], vec![false]],
        &vec![vec![false], vec![false]],
        &vec![vec![false], vec![false]],
        &vec![vec![None], vec![None]],
        &vec![7, 7],
    );
    assert_eq!(r.mismatches, vec![TypeMismatch { arg: 0, expected: vec![5] }]);
    assert!(r.reported);
    assert_eq!(r.return_ty, Some(7));
    assert_eq!(r.chosen, None);
    assert!(!r.valid);
}

#[test]
fn wrong_arity_is_reported_without_common_return() {
    let r = resolve_overload(
        &vec![true],
        &vec![vec![1, 1], vec![2, 2]],
        &vec![vec![true, true], vec![true, true]],
        &vec![vec![true, true], vec![true, true]],
        &vec![vec![true, true], vec![true, true]],
        &vec![vec![None, None], vec![None, None]],
        &vec![3, 4],
    );
    assert!(r.mismatches.is_empty());
    assert!(r.reported);
    assert_eq!(r.return_ty, None);
    assert_eq!(r.chosen, None);
}

#[test]
fn unknown_argument_leaves_several_candidates_unresolved() {
    let r = resolve_overload(
        &vec![false],
        &vec![vec![1], vec![2]],
        &vec![vec![true], vec![true]],
        &vec![vec![true], vec![true]],
        &vec![vec![true], vec![true]],
        &vec![vec![None], vec![None]],
        &vec![9, 9],
    );
    assert!(!r.reported);
    assert!(!r.valid);
    assert_eq!(r.chosen, None);
    assert_eq!(r.return_ty, Some(9));
}

#[test]
fn exact_match_is_preferred_among_semantic_matches() {
    let r = resolve_overload(
        &vec![true],
        &vec![vec![1], vec![2], vec![3]],
        &vec![vec![true], vec![true], vec![true]],
        &vec![vec![false], vec![true], vec![true]],
        &vec![vec![false], vec![false], vec![true]],
        &vec![vec![None], vec![None], vec![None]],
        &vec![10, 20, 30],
    );
    assert_eq!(r.chosen, Some(2));
    assert_eq!(r.return_ty, Some(30));
    assert!(r.record_signature);
    assert!(r.valid);
}

#[test]
fn first_semantic_match_without_exact_match() {
    let r = resolve_overload(
        &vec![true],
        &vec![vec![1], vec![2], vec![3]],
        &vec![vec![true], vec![true], vec![true]],
        &vec![vec![false], vec![true], vec![true]],
        &vec![vec![false], vec![false], vec![false]],
        &vec![vec![None], vec![Some(2)], vec![None]],
        &vec![10, 20, 30],
    );
    assert_eq!(r.chosen, Some(1));
    assert_eq!(r.casts, vec![(0, 2)]);
}

#[test]
fn narrowing_keeps_the_converting_candidates() {
    // the second argument meets only signature 1 with conversion
    let r = resolve_overload(
        &vec![true, true],
        &vec![vec![1, 1], vec![1, 2]],
        &vec![vec![true, false], vec![true, true]],
        &vec![vec![true, false], vec![true, true]],
        &vec![vec![true, false], vec![true, true]],
        &vec![vec![None, None], vec![None, None]],
        &vec![5, 6],
    );
    assert_eq!(r.chosen, Some(1));
    assert_eq!(r.return_ty, Some(6));
    assert!(r.record_signature);
}
