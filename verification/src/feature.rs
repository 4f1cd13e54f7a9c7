//! The specification-tree model: a feature holds scenarios, a scenario holds
//! steps. Every node carries positional metadata (byte span, line/column, and
//! for the feature its source path) that is not part of content identity.
//!
//! Text is held as byte vectors throughout so that coordinates and contents
//! can be stated byte-exactly in contracts.

use vstd::prelude::*;

verus! {

use vstd::std_specs::cmp::PartialEqSpec;

/// A half-open byte range `[start, end)` within a source text.
#[derive(Clone, Copy, PartialEq, Eq, Structural, Hash, Debug)]
pub struct Span {
    pub start: usize,
    pub end: usize,
}

/// Line/column coordinates of a node in its source file.
#[derive(Clone, Copy, PartialEq, Eq, Structural, Hash, Debug)]
pub struct Position {
    pub line: usize,
    pub col: usize,
}

/// Semantic classification of a step: setup, action or assertion.
#[derive(Clone, Copy, PartialEq, Eq, Structural, Hash, Debug)]
pub enum StepType {
    Given,
    When,
    Then,
}

/// One step of a scenario: a keyword, its classification, the value text,
/// and positional metadata.
#[derive(Clone, PartialEq, Eq, Hash, Debug)]
pub struct Step {
    pub keyword: Vec<u8>,
    pub ty: StepType,
    pub value: Vec<u8>,
    pub span: Span,
    pub position: Position,
}

/// One scenario of a feature: a keyword, a name, its ordered steps, and
/// positional metadata.
#[derive(Clone, PartialEq, Eq, Hash, Debug)]
pub struct Scenario {
    pub keyword: Vec<u8>,
    pub name: Vec<u8>,
    pub steps: Vec<Step>,
    pub span: Span,
    pub position: Position,
}

/// A feature's background section: a keyword, a name, its ordered steps, and
/// positional metadata.
#[derive(Clone, PartialEq, Eq, Hash, Debug)]
pub struct Background {
    pub keyword: Vec<u8>,
    pub name: Vec<u8>,
    pub steps: Vec<Step>,
    pub span: Span,
    pub position: Position,
}

/// A parsed feature document: scalar header fields, an optional background,
/// the ordered scenarios, and positional metadata including the source path.
#[derive(Clone, PartialEq, Eq, Hash, Debug)]
pub struct Feature {
    pub keyword: Vec<u8>,
    pub name: Vec<u8>,
    pub description: Option<Vec<u8>>,
    pub background: Option<Background>,
    pub scenarios: Vec<Scenario>,
    pub span: Span,
    pub position: Position,
    pub path: Option<Vec<u8>>,
}

/// Equality of two optional byte strings, by contents.
pub open spec fn opt_bytes_eq(a: Option<Vec<u8>>, b: Option<Vec<u8>>) -> bool {
    match (a, b) {
        (Option::None, Option::None) => true,
        (Option::Some(x), Option::Some(y)) => x@ == y@,
        _ => false,
    }
}

/// Content identity of two steps: keyword, classification and value text,
/// ignoring positional metadata.
pub open spec fn step_content_eq(a: Step, b: Step) -> bool {
    a.keyword@ == b.keyword@ && a.ty == b.ty && a.value@ == b.value@
}

/// Exact equality of two steps, positional metadata included.
pub open spec fn step_exact_eq(a: Step, b: Step) -> bool {
    step_content_eq(a, b) && a.span == b.span && a.position == b.position
}

/// Content identity of two scenarios: keyword and name, and the steps paired
/// up by position, each pair content-equal. Step counts must agree; empty
/// step sequences are vacuously equal.
pub open spec fn scenario_content_eq(a: Scenario, b: Scenario) -> bool {
    &&& a.keyword@ == b.keyword@
    &&& a.name@ == b.name@
    &&& a.steps@.len() == b.steps@.len()
    &&& forall|i: int|
        0 <= i < a.steps@.len() ==> step_content_eq(a.steps@[i], b.steps@[i])
}

/// Exact equality of two backgrounds, every field included. The feature-level
/// comparison treats the background as one scalar field compared exactly.
pub open spec fn background_exact_eq(a: Background, b: Background) -> bool {
    &&& a.keyword@ == b.keyword@
    &&& a.name@ == b.name@
    &&& a.span == b.span
    &&& a.position == b.position
    &&& a.steps@.len() == b.steps@.len()
    &&& forall|i: int|
        0 <= i < a.steps@.len() ==> step_exact_eq(a.steps@[i], b.steps@[i])
}

/// Exact equality of two optional backgrounds.
pub open spec fn opt_background_exact_eq(a: Option<Background>, b: Option<Background>) -> bool {
    match (a, b) {
        (Option::None, Option::None) => true,
        (Option::Some(x), Option::Some(y)) => background_exact_eq(x, y),
        _ => false,
    }
}

/// Approximate (content) equivalence of two features: the scalar header
/// fields equal, the background exactly equal, equal scenario counts, and
/// the scenarios paired up by position, each pair content-equal. Empty
/// scenario sequences are vacuously equal.
pub open spec fn feature_approx_eq(a: Feature, b: Feature) -> bool {
    &&& a.keyword@ == b.keyword@
    &&& a.name@ == b.name@
    &&& opt_bytes_eq(a.description, b.description)
    &&& opt_background_exact_eq(a.background, b.background)
    &&& a.scenarios@.len() == b.scenarios@.len()
    &&& forall|i: int|
        0 <= i < a.scenarios@.len() ==> scenario_content_eq(a.scenarios@[i], b.scenarios@[i])
}

/// Compares two byte strings by contents.
pub fn bytes_eq(a: &Vec<u8>, b: &Vec<u8>) -> (r: bool)
    ensures
        r == (a@ == b@),
{
    let r = a == b;
    proof {
        if r {
            assert(a@ =~= b@);
        } else {
            if a@ == b@ {
                assert(a.eq_spec(b));
            }
        }
    }
    r
}

/// Compares two optional byte strings by contents.
pub fn opt_bytes_eq_exec(a: &Option<Vec<u8>>, b: &Option<Vec<u8>>) -> (r: bool)
    ensures
        r == opt_bytes_eq(*a, *b),
{
    match (a, b) {
        (Option::None, Option::None) => true,
        (Option::Some(x), Option::Some(y)) => bytes_eq(x, y),
        _ => false,
    }
}

/// Content identity of two backgrounds: keyword, name, and steps paired up
/// by position, ignoring all positional metadata.
pub open spec fn background_content_eq(a: Background, b: Background) -> bool {
    &&& a.keyword@ == b.keyword@
    &&& a.name@ == b.name@
    &&& a.steps@.len() == b.steps@.len()
    &&& forall|i: int|
        0 <= i < a.steps@.len() ==> step_content_eq(a.steps@[i], b.steps@[i])
}

/// Content identity of two optional backgrounds.
pub open spec fn opt_background_content_eq(a: Option<Background>, b: Option<Background>) -> bool {
    match (a, b) {
        (Option::None, Option::None) => true,
        (Option::Some(x), Option::Some(y)) => background_content_eq(x, y),
        _ => false,
    }
}

/// Content identity of two features: every content field equal, every
/// positional field (spans, lines, columns, source path) free to differ.
pub open spec fn feature_content_eq(a: Feature, b: Feature) -> bool {
    &&& a.keyword@ == b.keyword@
    &&& a.name@ == b.name@
    &&& opt_bytes_eq(a.description, b.description)
    &&& opt_background_content_eq(a.background, b.background)
    &&& a.scenarios@.len() == b.scenarios@.len()
    &&& forall|i: int|
        0 <= i < a.scenarios@.len() ==> scenario_content_eq(a.scenarios@[i], b.scenarios@[i])
}

/// Exact equality of two scenarios, positional metadata of the scenario and
/// of every step included.
pub open spec fn scenario_exact_eq(a: Scenario, b: Scenario) -> bool {
    &&& a.keyword@ == b.keyword@
    &&& a.name@ == b.name@
    &&& a.span == b.span
    &&& a.position == b.position
    &&& a.steps@.len() == b.steps@.len()
    &&& forall|i: int|
        0 <= i < a.steps@.len() ==> step_exact_eq(a.steps@[i], b.steps@[i])
}

} // verus!
