use grepkin::compare::{approximately_eq, json_diff_equals};
use grepkin::feature::{Background, Feature, Position, Scenario, Span, Step, StepType};
use grepkin::parse::filter_gherkin_text;

fn convert_span(s: gherkin::Span) -> Span {
    Span {
        start: s.start,
        end: s.end,
    }
}

fn convert_position(p: gherkin::LineCol) -> Position {
    Position {
        line: p.line,
        col: p.col,
    }
}

fn convert_step(s: &gherkin::Step) -> Step {
    Step {
        keyword: s.keyword.as_bytes().to_vec(),
        ty: match s.ty {
            gherkin::StepType::Given => StepType::Given,
            gherkin::StepType::When => StepType::When,
            gherkin::StepType::Then => StepType::Then,
        },
        value: s.value.as_bytes().to_vec(),
        span: convert_span(s.span),
        position: convert_position(s.position),
    }
}

fn convert_scenario(s: &gherkin::Scenario) -> Scenario {
    Scenario {
        keyword: s.keyword.as_bytes().to_vec(),
        name: s.name.as_bytes().to_vec(),
        steps: s.steps.iter().map(convert_step).collect(),
        span: convert_span(s.span),
        position: convert_position(s.position),
    }
}

fn convert_background(b: &gherkin::Background) -> Background {
    Background {
        keyword: b.keyword.as_bytes().to_vec(),
        name: b.name.as_bytes().to_vec(),
        steps: b.steps.iter().map(convert_step).collect(),
        span: convert_span(b.span),
        position: convert_position(b.position),
    }
}

fn convert_feature(f: &gherkin::Feature) -> Feature {
    Feature {
        keyword: f.keyword.as_bytes().to_vec(),
        name: f.name.as_bytes().to_vec(),
        description: f.description.as_ref().map(|d| d.as_bytes().to_vec()),
        background: f.background.as_ref().map(convert_background),
        scenarios: f.scenarios.iter().map(convert_scenario).collect(),
        span: convert_span(f.span),
        position: convert_position(f.position),
        path: f
            .path
            .as_ref()
            .map(|p| p.to_string_lossy().as_bytes().to_vec()),
    }
}

#[test]
fn test_reindented_text_parses_approximately_equal() {
    let reference_text = "Feature: F\n  Scenario: S\n    When something happens\n";
    let host_text = "# some host code\n   Feature: F\nxx junk Scenario: S\n  #   When something happens\n";

    let reference_parsed = gherkin::Feature::parse(reference_text, gherkin::GherkinEnv::default())
        .expect("reference text should parse");
    let filtered = String::from_utf8(filter_gherkin_text(host_text.as_bytes()))
        .expect("filtered text should stay valid");
    let host_parsed = gherkin::Feature::parse(filtered.as_str(), gherkin::GherkinEnv::default())
        .expect("filtered host text should parse");

    let reference_feature = convert_feature(&reference_parsed);
    let host_feature = convert_feature(&host_parsed);

    assert!(approximately_eq(&reference_feature, &host_feature));
    assert!(json_diff_equals(&reference_feature, &host_feature));
    // plain field-by-field equality fails: the spans and columns differ
    assert!(reference_feature != host_feature);
}
