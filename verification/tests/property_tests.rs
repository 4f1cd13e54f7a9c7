use grepkin::compare::{
    approximately_eq, approximately_eq_checked, diff, json_diff_equals, ShapeError,
};
use grepkin::feature::{Feature, Position, Scenario, Span, Step, StepType};
use grepkin::value::{ChangeRecord, PathSeg};

fn step(value: &[u8]) -> Step {
    Step {
        keyword: b"When".to_vec(),
        ty: StepType::When,
        value: value.to_vec(),
        span: Span { start: 30, end: 50 },
        position: Position { line: 3, col: 5 },
    }
}

fn scenario(name: &[u8], steps: Vec<Step>) -> Scenario {
    Scenario {
        keyword: b"Scenario".to_vec(),
        name: name.to_vec(),
        steps,
        span: Span { start: 12, end: 50 },
        position: Position { line: 2, col: 3 },
    }
}

fn feature(scenarios: Vec<Scenario>) -> Feature {
    Feature {
        keyword: b"Feature".to_vec(),
        name: b"F".to_vec(),
        description: None,
        background: None,
        scenarios,
        span: Span { start: 0, end: 50 },
        position: Position { line: 1, col: 1 },
        path: Some(b"features/f.feature".to_vec()),
    }
}

#[test]
fn test_position_insensitive_on_every_node() {
    let a = feature(vec![scenario(b"S", vec![step(b"something happens")])]);
    let mut b = a.clone();
    b.path = Some(b"tests/test_f.py".to_vec());
    b.span = Span { start: 7, end: 90 };
    b.position = Position { line: 4, col: 9 };
    b.scenarios[0].span = Span { start: 20, end: 88 };
    b.scenarios[0].position = Position { line: 5, col: 2 };
    b.scenarios[0].steps[0].span = Span { start: 40, end: 60 };
    b.scenarios[0].steps[0].position = Position { line: 6, col: 7 };
    assert!(approximately_eq(&a, &b));
    assert!(json_diff_equals(&a, &b));
    // plain field-by-field equality still tells the two apart
    assert!(a != b);
}

#[test]
fn test_added_scenario_breaks_equivalence() {
    let a = feature(vec![scenario(b"S", vec![step(b"x")])]);
    let b = feature(vec![
        scenario(b"S", vec![step(b"x")]),
        scenario(b"T", vec![step(b"y")]),
    ]);
    assert!(!approximately_eq(&a, &b));
    assert!(!json_diff_equals(&a, &b));
    let records = diff(&a, &b);
    assert!(records
        .iter()
        .any(|r| matches!(r, ChangeRecord::Added(_))));
}

#[test]
fn test_added_step_breaks_equivalence() {
    let a = feature(vec![scenario(b"S", vec![step(b"x")])]);
    let b = feature(vec![scenario(b"S", vec![step(b"x"), step(b"y")])]);
    assert!(!approximately_eq(&a, &b));
    assert!(!json_diff_equals(&a, &b));
    let records = diff(&a, &b);
    assert!(records
        .iter()
        .any(|r| matches!(r, ChangeRecord::Added(_))));
}

#[test]
fn test_changed_step_value_gives_one_modified_record() {
    let a = feature(vec![scenario(b"S", vec![step(b"something happens")])]);
    let b = feature(vec![scenario(b"S", vec![step(b"something else")])]);
    assert!(!approximately_eq(&a, &b));
    assert!(!json_diff_equals(&a, &b));
    let records = diff(&a, &b);
    assert_eq!(records.len(), 1);
    match &records[0] {
        ChangeRecord::Modified(path, _, _) => match path.last() {
            Some(PathSeg::Field(k)) => assert_eq!(k, &b"value".to_vec()),
            _ => panic!("expected a field segment at the end of the path"),
        },
        _ => panic!("expected a modified record"),
    }
}

#[test]
fn test_empty_feature_matches_its_clone() {
    let a = feature(Vec::new());
    let b = a.clone();
    assert!(json_diff_equals(&a, &b));
    assert!(approximately_eq(&a, &b));
    assert!(diff(&a, &b).is_empty());
}

#[test]
fn test_checked_comparison_reports_undefined_shapes() {
    let no_scenarios = feature(Vec::new());
    assert_eq!(
        approximately_eq_checked(&no_scenarios, &no_scenarios.clone()),
        Err(ShapeError::ZeroScenarios)
    );
    let no_steps = feature(vec![scenario(b"S", Vec::new())]);
    assert_eq!(
        approximately_eq_checked(&no_steps, &no_steps.clone()),
        Err(ShapeError::ZeroSteps)
    );
    let one = feature(vec![scenario(b"S", vec![step(b"x")])]);
    let two = feature(vec![
        scenario(b"S", vec![step(b"x")]),
        scenario(b"T", vec![step(b"y")]),
    ]);
    assert_eq!(approximately_eq_checked(&one, &two), Ok(false));
    assert_eq!(approximately_eq_checked(&one, &one.clone()), Ok(true));
}

#[test]
fn test_denylisted_modifications_are_still_reported() {
    let a = feature(vec![scenario(b"S", vec![step(b"x")])]);
    let mut b = a.clone();
    b.scenarios[0].steps[0].span = Span { start: 41, end: 61 };
    // equivalent, yet the report keeps the excused changes for transparency
    assert!(json_diff_equals(&a, &b));
    let records = diff(&a, &b);
    assert!(!records.is_empty());
    assert!(records
        .iter()
        .all(|r| matches!(r, ChangeRecord::Modified(_, _, _))));
}
