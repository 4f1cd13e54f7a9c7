use grepkin::generate::SupportedTestTemplate;
use grepkin::parse::{
    extract_gherkin_text, filter_gherkin_text, find_gherkin_text, fix_docstrings, fix_path,
    opposite_range_text,
};
use grepkin::feature::{Feature, Position, Scenario, Span, Step, StepType};

fn bare_feature() -> Feature {
    Feature {
        keyword: b"Feature".to_vec(),
        name: b"F".to_vec(),
        description: None,
        background: None,
        scenarios: Vec::new(),
        span: Span { start: 0, end: 0 },
        position: Position { line: 0, col: 0 },
        path: None,
    }
}

fn scenario_named(name: &[u8]) -> Scenario {
    Scenario {
        keyword: b"Scenario".to_vec(),
        name: name.to_vec(),
        steps: vec![Step {
            keyword: b"When".to_vec(),
            ty: StepType::When,
            value: b"something happens".to_vec(),
            span: Span { start: 0, end: 0 },
            position: Position { line: 0, col: 0 },
        }],
        span: Span { start: 0, end: 0 },
        position: Position { line: 0, col: 0 },
    }
}

#[test]
fn test_filter_blanks_non_keyword_regions() {
    let text = b"# junk\nFeature: F\n  x Scenario: S\nnothing here\n";
    let filtered = filter_gherkin_text(text);
    let expected = b"      \nFeature: F\n    Scenario: S\n            \n";
    assert_eq!(filtered, expected.to_vec());
}

#[test]
fn test_filter_preserves_length_and_newlines() {
    let text = "h\u{e9}llo\nGiven x\nno keywords on this line\n".as_bytes();
    let filtered = filter_gherkin_text(text);
    assert_eq!(filtered.len(), text.len());
    for i in 0..text.len() {
        assert_eq!(text[i] == b'\n', filtered[i] == b'\n');
    }
}

#[test]
fn test_filter_empty_text() {
    assert_eq!(filter_gherkin_text(b""), Vec::<u8>::new());
    assert_eq!(extract_gherkin_text(b""), Vec::<u8>::new());
    assert!(find_gherkin_text(b"").is_empty());
}

#[test]
fn test_extract_compact_one_statement_per_line() {
    let text = b"# junk\nFeature: F\n  x Scenario: S\nnothing here\n";
    let compact = extract_gherkin_text(text);
    assert_eq!(compact, b"Feature: F\nScenario: S\n".to_vec());
}

#[test]
fn test_last_keyword_on_line_wins() {
    let text = b"As a user I want to pet dogs\n";
    let compact = extract_gherkin_text(text);
    assert_eq!(compact, b"I want to pet dogs\n".to_vec());
}

#[test]
fn test_find_spans_exact() {
    let text = b"xxGiven abc\n";
    let spans = find_gherkin_text(text);
    assert_eq!(spans.len(), 1);
    assert_eq!(spans[0].keyword, Span { start: 2, end: 7 });
    assert_eq!(spans[0].description, Span { start: 7, end: 11 });
}

#[test]
fn test_gaps_exact() {
    let text = b"xxGiven abc\n";
    let spans = find_gherkin_text(text);
    let gaps = opposite_range_text(&spans, text.len());
    assert_eq!(gaps.len(), 2);
    assert_eq!(gaps[0], Span { start: 0, end: 2 });
    assert_eq!(gaps[1], Span { start: 11, end: 12 });
}

#[test]
fn test_spans_and_gaps_tile_the_text() {
    let text = b"junk\nxGiven a\nThen b And c\nplain\n";
    let spans = find_gherkin_text(text);
    let gaps = opposite_range_text(&spans, text.len());
    for x in 0..text.len() {
        let in_spans = spans.iter().any(|s| {
            (s.keyword.start <= x && x < s.keyword.end)
                || (s.description.start <= x && x < s.description.end)
        });
        let in_gaps = gaps.iter().any(|g| g.start <= x && x < g.end);
        assert!(
            in_spans != in_gaps,
            "position {} must lie on exactly one side",
            x
        );
    }
}

#[test]
fn test_fix_docstrings_strips_trailing_marker() {
    let mut feature = bare_feature();
    feature.scenarios = vec![
        scenario_named(b"S\"\"\""),
        scenario_named(b"T\"\"\"\"\"\""),
        scenario_named(b"untouched"),
    ];
    let cleaned = fix_docstrings(feature);
    assert_eq!(cleaned.scenarios[0].name, b"S".to_vec());
    assert_eq!(cleaned.scenarios[1].name, b"T".to_vec());
    assert_eq!(cleaned.scenarios[2].name, b"untouched".to_vec());
}

#[test]
fn test_fix_path_sets_path() {
    let feature = bare_feature();
    let fixed = fix_path(feature, b"tests/test_x.py".to_vec());
    assert_eq!(fixed.path, Some(b"tests/test_x.py".to_vec()));
}

#[test]
fn test_template_filenames() {
    assert_eq!(
        SupportedTestTemplate::Rust.get_template_filename(),
        "rust_test.rs".to_string()
    );
    assert_eq!(
        SupportedTestTemplate::Python.get_template_filename(),
        "py_test.py".to_string()
    );
}

#[test]
fn test_no_keywords_blanks_everything() {
    let text = b"plain text\nmore plain\n";
    assert!(find_gherkin_text(text).is_empty());
    assert_eq!(extract_gherkin_text(text), Vec::<u8>::new());
    let filtered = filter_gherkin_text(text);
    assert_eq!(filtered, b"          \n          \n".to_vec());
}

#[test]
fn test_zero_length_gaps_are_suppressed() {
    let text = b"Given x\n";
    let spans = find_gherkin_text(text);
    assert_eq!(spans.len(), 1);
    assert_eq!(spans[0].keyword, Span { start: 0, end: 5 });
    assert_eq!(spans[0].description, Span { start: 5, end: 7 });
    let gaps = opposite_range_text(&spans, text.len());
    // no gap before the keyword, none between keyword and description
    assert_eq!(gaps, vec![Span { start: 7, end: 8 }]);
}
