use grepkin::compare::{approximately_eq, json_diff_equals};
use grepkin::feature::{Feature, Position, Scenario, Span, Step, StepType};

/// Sample feature to do some comparisons against
fn reference_feature() -> Feature {
    let reference_scenarios: Vec<Scenario> = vec![Scenario {
        keyword: b"Scenario".to_vec(),
        name: b"Dummy scenario to be representative".to_vec(),
        steps: vec![Step {
            keyword: b"When".to_vec(),
            ty: StepType::When,
            value: b"something happens".to_vec(),
            span: Span { start: 0, end: 0 },
            position: Position { line: 0, col: 0 },
        }],
        span: Span { start: 0, end: 0 },
        position: Position { line: 0, col: 0 },
    }];
    Feature {
        keyword: b"Feature".to_vec(),
        name: b"Matching a feature with another identical feature".to_vec(),
        description: Some(b"Bleh".to_vec()),
        background: None,
        scenarios: reference_scenarios,
        span: Span { start: 0, end: 0 },
        position: Position { line: 0, col: 0 },
        path: None,
    }
}

#[test]
fn test_cloned_feature_nodiff() {
    let reference = reference_feature();
    let cloned = reference.clone();
    assert!(
        approximately_eq(&reference, &cloned),
        "Identical feature should match clone"
    );

    assert!(
        json_diff_equals(&reference, &cloned),
        "Identical feature should match clone"
    );
}

#[test]
fn test_cloned_feature_noscenarios_nodiff() {
    let reference = reference_feature();

    let cloned = reference.clone();
    assert!(
        json_diff_equals(&reference, &cloned),
        "Identical feature should match clone"
    );
}

#[test]
fn test_feature_different_path_nodiff() {
    let mut reference = reference_feature();
    reference.path = Some(b"/path/to/my/reference.feature".to_vec());
    let mut cloned = reference.clone();
    cloned.path = Some(b"/path/to/code/test_reference.py".to_vec());
    assert!(
        approximately_eq(&reference, &cloned),
        "Similar feature (up to path) should match clone"
    );
    assert!(
        json_diff_equals(&reference, &cloned),
        "Similar feature (up to path) should match clone"
    );
}
