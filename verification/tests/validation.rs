use openvaf::validation::{verify_unique_attr, BodyContext, DuplicateItem};

#[test]
fn body_context_rules() {
    let all = [
        BodyContext::AnalogBlock,
        BodyContext::AnalogInitialBlock,
        BodyContext::Function,
        BodyContext::Conditional,
        BodyContext::Const,
        BodyContext::EventControl,
        BodyContext::ConstOrAnalysis,
    ];
    let nature: Vec<bool> = all.iter().map(|c| c.nature_access_allowed()).collect();
    assert_eq!(nature, vec![true, false, false, true, false, true, false]);
    let contribute: Vec<bool> = all.iter().map(|c| c.contribute_allowed()).collect();
    assert_eq!(contribute, vec![true, false, false, true, false, false, false]);
    let analog: Vec<bool> = all.iter().map(|c| c.analog_operator_allowed()).collect();
    assert_eq!(analog, vec![true, false, false, false, false, false, false]);
    let analysis: Vec<bool> = all.iter().map(|c| c.analysis_fun_allowed()).collect();
    assert_eq!(analysis, vec![true, true, true, true, false, true, true]);
    let var_ref: Vec<bool> = all.iter().map(|c| c.var_ref_allowed()).collect();
    assert_eq!(var_ref, vec![true, true, true, true, false, true, false]);
}

#[test]
fn duplicate_attributes() {
    let r = verify_unique_attr(&vec![1, 2, 1, 3, 2, 1], 'n');
    assert_eq!(
        r,
        vec![
            DuplicateItem { src: 'n', first: 0, subsequent: vec![2, 5] },
            DuplicateItem { src: 'n', first: 1, subsequent: vec![4] },
        ]
    );
}

#[test]
fn unique_attributes() {
    assert!(verify_unique_attr(&vec![4, 5, 6], 0u8).is_empty());
    assert!(verify_unique_attr(&Vec::new(), 0u8).is_empty());
}
