//! Content equivalence of parsed specification trees, two ways: a direct
//! structural walk over the feature's own fields, and a generic tree diff of
//! the serialized features with a denylist of positional field names. Both
//! ignore where the content was found; both are sensitive to what it says.

use crate::feature::{
    feature_approx_eq, opt_background_exact_eq, opt_bytes_eq, opt_bytes_eq_exec, background_exact_eq,
    bytes_eq, step_content_eq, step_exact_eq, scenario_content_eq, Background, Feature, Position,
    Scenario, Span, Step, StepType,
};
use crate::value::{
    all_changes_irrelevant, changes_view, diff_values, entries_view, elems_view, key_background,
    key_col, key_description, key_end, key_keyword, key_line, key_name, key_path, key_position,
    key_scenarios, key_span, key_start, key_steps, key_ty, key_value, mk_key_background, mk_key_col,
    mk_key_description, mk_key_end, mk_key_keyword, mk_key_line, mk_key_name, mk_key_path,
    mk_key_position, mk_key_scenarios, mk_key_span, mk_key_start, mk_key_steps, mk_key_ty,
    mk_key_value, mk_ty_given, mk_ty_then, mk_ty_when, spec_diff, ty_given, ty_then, ty_when,
    ChangeRecord, Value, ValueView,
};
use vstd::prelude::*;

verus! {

/// The serialized shape of a byte span.
pub open spec fn span_val(s: Span) -> ValueView {
    ValueView::Obj(
        seq![
            (key_start(), ValueView::UInt(s.start as u64)),
            (key_end(), ValueView::UInt(s.end as u64)),
        ],
    )
}

/// The serialized shape of a line/column position.
pub open spec fn position_val(p: Position) -> ValueView {
    ValueView::Obj(
        seq![
            (key_line(), ValueView::UInt(p.line as u64)),
            (key_col(), ValueView::UInt(p.col as u64)),
        ],
    )
}

/// The serialized shape of a step classification.
pub open spec fn ty_val(t: StepType) -> ValueView {
    match t {
        StepType::Given => ValueView::Str(ty_given()),
        StepType::When => ValueView::Str(ty_when()),
        StepType::Then => ValueView::Str(ty_then()),
    }
}

/// The serialized shape of an optional byte string: absent becomes null.
pub open spec fn opt_str_val(o: Option<Vec<u8>>) -> ValueView {
    match o {
        Option::None => ValueView::Null,
        Option::Some(v) => ValueView::Str(v@),
    }
}

/// The serialized shape of a step.
pub open spec fn step_val(s: Step) -> ValueView {
    ValueView::Obj(
        seq![
            (key_keyword(), ValueView::Str(s.keyword@)),
            (key_ty(), ty_val(s.ty)),
            (key_value(), ValueView::Str(s.value@)),
            (key_span(), span_val(s.span)),
            (key_position(), position_val(s.position)),
        ],
    )
}

/// The serialized shapes of a step sequence.
pub open spec fn steps_val(ss: Seq<Step>) -> Seq<ValueView> {
    Seq::new(ss.len(), |i: int| step_val(ss[i]))
}

/// The serialized shape of a scenario.
pub open spec fn scenario_val(sc: Scenario) -> ValueView {
    ValueView::Obj(
        seq![
            (key_keyword(), ValueView::Str(sc.keyword@)),
            (key_name(), ValueView::Str(sc.name@)),
            (key_steps(), ValueView::Arr(steps_val(sc.steps@))),
            (key_span(), span_val(sc.span)),
            (key_position(), position_val(sc.position)),
        ],
    )
}

/// The serialized shapes of a scenario sequence.
pub open spec fn scenarios_val(ss: Seq<Scenario>) -> Seq<ValueView> {
    Seq::new(ss.len(), |i: int| scenario_val(ss[i]))
}

/// The serialized shape of a background.
pub open spec fn background_val(b: Background) -> ValueView {
    ValueView::Obj(
        seq![
            (key_keyword(), ValueView::Str(b.keyword@)),
            (key_name(), ValueView::Str(b.name@)),
            (key_steps(), ValueView::Arr(steps_val(b.steps@))),
            (key_span(), span_val(b.span)),
            (key_position(), position_val(b.position)),
        ],
    )
}

/// The serialized shape of an optional background: absent becomes null.
pub open spec fn opt_background_val(o: Option<Background>) -> ValueView {
    match o {
        Option::None => ValueView::Null,
        Option::Some(b) => background_val(b),
    }
}

/// The serialized shape of a whole feature.
pub open spec fn feature_val(f: Feature) -> ValueView {
    ValueView::Obj(
        seq![
            (key_keyword(), ValueView::Str(f.keyword@)),
            (key_name(), ValueView::Str(f.name@)),
            (key_description(), opt_str_val(f.description)),
            (key_background(), opt_background_val(f.background)),
            (key_scenarios(), ValueView::Arr(scenarios_val(f.scenarios@))),
            (key_span(), span_val(f.span)),
            (key_position(), position_val(f.position)),
            (key_path(), opt_str_val(f.path)),
        ],
    )
}

fn serialize_span(s: &Span) -> (r: Value)
    ensures
        r@ == span_val(*s),
{
    let mut entries: Vec<(Vec<u8>, Value)> = Vec::new();
    entries.push((mk_key_start(), Value::UInt(s.start as u64)));
    entries.push((mk_key_end(), Value::UInt(s.end as u64)));
    proof {
        assert(entries_view(entries@) =~= seq![
            (key_start(), ValueView::UInt(s.start as u64)),
            (key_end(), ValueView::UInt(s.end as u64)),
        ]);
    }
    Value::Obj(entries)
}

fn serialize_position(p: &Position) -> (r: Value)
    ensures
        r@ == position_val(*p),
{
    let mut entries: Vec<(Vec<u8>, Value)> = Vec::new();
    entries.push((mk_key_line(), Value::UInt(p.line as u64)));
    entries.push((mk_key_col(), Value::UInt(p.col as u64)));
    proof {
        assert(entries_view(entries@) =~= seq![
            (key_line(), ValueView::UInt(p.line as u64)),
            (key_col(), ValueView::UInt(p.col as u64)),
        ]);
    }
    Value::Obj(entries)
}

fn copy_bytes(v: &Vec<u8>) -> (r: Vec<u8>)
    ensures
        r@ == v@,
{
    let mut r: Vec<u8> = Vec::new();
    let mut i: usize = 0;
    while i < v.len()
        invariant
            i <= v@.len(),
            r@.len() == i,
            forall|j: int| 0 <= j < i ==> r@[j] == v@[j],
        decreases v@.len() - i,
    {
        r.push(v[i]);
        i += 1;
    }
    proof {
        assert(r@ =~= v@);
    }
    r
}

fn serialize_step(s: &Step) -> (r: Value)
    ensures
        r@ == step_val(*s),
{
    let ty = match s.ty {
        StepType::Given => mk_ty_given(),
        StepType::When => mk_ty_when(),
        StepType::Then => mk_ty_then(),
    };
    let mut entries: Vec<(Vec<u8>, Value)> = Vec::new();
    entries.push((mk_key_keyword(), Value::Str(copy_bytes(&s.keyword))));
    entries.push((mk_key_ty(), Value::Str(ty)));
    entries.push((mk_key_value(), Value::Str(copy_bytes(&s.value))));
    entries.push((mk_key_span(), serialize_span(&s.span)));
    entries.push((mk_key_position(), serialize_position(&s.position)));
    proof {
        assert(entries_view(entries@) =~= seq![
            (key_keyword(), ValueView::Str(s.keyword@)),
            (key_ty(), ty_val(s.ty)),
            (key_value(), ValueView::Str(s.value@)),
            (key_span(), span_val(s.span)),
            (key_position(), position_val(s.position)),
        ]);
    }
    Value::Obj(entries)
}

fn serialize_steps(ss: &Vec<Step>) -> (r: Vec<Value>)
    ensures
        elems_view(r@) == steps_val(ss@),
{
    let mut r: Vec<Value> = Vec::new();
    let mut i: usize = 0;
    while i < ss.len()
        invariant
            i <= ss@.len(),
            r@.len() == i,
            forall|j: int| 0 <= j < i ==> (#[trigger] r@[j])@ == step_val(ss@[j]),
        decreases ss@.len() - i,
    {
        r.push(serialize_step(&ss[i]));
        i += 1;
    }
    proof {
        assert(elems_view(r@) =~= steps_val(ss@));
    }
    r
}

fn serialize_scenario(sc: &Scenario) -> (r: Value)
    ensures
        r@ == scenario_val(*sc),
{
    let mut entries: Vec<(Vec<u8>, Value)> = Vec::new();
    entries.push((mk_key_keyword(), Value::Str(copy_bytes(&sc.keyword))));
    entries.push((mk_key_name(), Value::Str(copy_bytes(&sc.name))));
    entries.push((mk_key_steps(), Value::Arr(serialize_steps(&sc.steps))));
    entries.push((mk_key_span(), serialize_span(&sc.span)));
    entries.push((mk_key_position(), serialize_position(&sc.position)));
    proof {
        assert(entries_view(entries@) =~= seq![
            (key_keyword(), ValueView::Str(sc.keyword@)),
            (key_name(), ValueView::Str(sc.name@)),
            (key_steps(), ValueView::Arr(steps_val(sc.steps@))),
            (key_span(), span_val(sc.span)),
            (key_position(), position_val(sc.position)),
        ]);
    }
    Value::Obj(entries)
}

fn serialize_background(b: &Background) -> (r: Value)
    ensures
        r@ == background_val(*b),
{
    let mut entries: Vec<(Vec<u8>, Value)> = Vec::new();
    entries.push((mk_key_keyword(), Value::Str(copy_bytes(&b.keyword))));
    entries.push((mk_key_name(), Value::Str(copy_bytes(&b.name))));
    entries.push((mk_key_steps(), Value::Arr(serialize_steps(&b.steps))));
    entries.push((mk_key_span(), serialize_span(&b.span)));
    entries.push((mk_key_position(), serialize_position(&b.position)));
    proof {
        assert(entries_view(entries@) =~= seq![
            (key_keyword(), ValueView::Str(b.keyword@)),
            (key_name(), ValueView::Str(b.name@)),
            (key_steps(), ValueView::Arr(steps_val(b.steps@))),
            (key_span(), span_val(b.span)),
            (key_position(), position_val(b.position)),
        ]);
    }
    Value::Obj(entries)
}

fn serialize_scenarios(ss: &Vec<Scenario>) -> (r: Vec<Value>)
    ensures
        elems_view(r@) == scenarios_val(ss@),
{
    let mut r: Vec<Value> = Vec::new();
    let mut i: usize = 0;
    while i < ss.len()
        invariant
            i <= ss@.len(),
            r@.len() == i,
            forall|j: int| 0 <= j < i ==> (#[trigger] r@[j])@ == scenario_val(ss@[j]),
        decreases ss@.len() - i,
    {
        r.push(serialize_scenario(&ss[i]));
        i += 1;
    }
    proof {
        assert(elems_view(r@) =~= scenarios_val(ss@));
    }
    r
}

/// Serializes a feature into the generic ordered key/value tree that the
/// structural differ walks.
pub fn serialize_feature(f: &Feature) -> (r: Value)
    ensures
        r@ == feature_val(*f),
{
    let description = match &f.description {
        Option::None => Value::Null,
        Option::Some(d) => Value::Str(copy_bytes(d)),
    };
    let background = match &f.background {
        Option::None => Value::Null,
        Option::Some(b) => serialize_background(b),
    };
    let path = match &f.path {
        Option::None => Value::Null,
        Option::Some(p) => Value::Str(copy_bytes(p)),
    };
    let mut entries: Vec<(Vec<u8>, Value)> = Vec::new();
    entries.push((mk_key_keyword(), Value::Str(copy_bytes(&f.keyword))));
    entries.push((mk_key_name(), Value::Str(copy_bytes(&f.name))));
    entries.push((mk_key_description(), description));
    entries.push((mk_key_background(), background));
    entries.push((mk_key_scenarios(), Value::Arr(serialize_scenarios(&f.scenarios))));
    entries.push((mk_key_span(), serialize_span(&f.span)));
    entries.push((mk_key_position(), serialize_position(&f.position)));
    entries.push((mk_key_path(), path));
    proof {
        assert(entries_view(entries@) =~= seq![
            (key_keyword(), ValueView::Str(f.keyword@)),
            (key_name(), ValueView::Str(f.name@)),
            (key_description(), opt_str_val(f.description)),
            (key_background(), opt_background_val(f.background)),
            (key_scenarios(), ValueView::Arr(scenarios_val(f.scenarios@))),
            (key_span(), span_val(f.span)),
            (key_position(), position_val(f.position)),
            (key_path(), opt_str_val(f.path)),
        ]);
    }
    Value::Obj(entries)
}

fn step_content_eq_exec(a: &Step, b: &Step) -> (r: bool)
    ensures
        r == step_content_eq(*a, *b),
{
    bytes_eq(&a.keyword, &b.keyword) && a.ty == b.ty && bytes_eq(&a.value, &b.value)
}

fn step_exact_eq_exec(a: &Step, b: &Step) -> (r: bool)
    ensures
        r == step_exact_eq(*a, *b),
{
    step_content_eq_exec(a, b) && a.span == b.span && a.position == b.position
}

fn scenario_content_eq_exec(a: &Scenario, b: &Scenario) -> (r: bool)
    ensures
        r == scenario_content_eq(*a, *b),
{
    if !bytes_eq(&a.keyword, &b.keyword) || !bytes_eq(&a.name, &b.name) {
        return false;
    }
    if a.steps.len() != b.steps.len() {
        return false;
    }
    let mut i: usize = 0;
    while i < a.steps.len()
        invariant
            i <= a.steps@.len(),
            a.steps@.len() == b.steps@.len(),
            a.keyword@ == b.keyword@,
            a.name@ == b.name@,
            forall|j: int| 0 <= j < i ==> step_content_eq(a.steps@[j], b.steps@[j]),
        decreases a.steps@.len() - i,
    {
        if !step_content_eq_exec(&a.steps[i], &b.steps[i]) {
            return false;
        }
        i += 1;
    }
    true
}

fn background_exact_eq_exec(a: &Background, b: &Background) -> (r: bool)
    ensures
        r == background_exact_eq(*a, *b),
{
    if !bytes_eq(&a.keyword, &b.keyword) || !bytes_eq(&a.name, &b.name) {
        return false;
    }
    if !(a.span == b.span) || !(a.position == b.position) {
        return false;
    }
    if a.steps.len() != b.steps.len() {
        return false;
    }
    let mut i: usize = 0;
    while i < a.steps.len()
        invariant
            i <= a.steps@.len(),
            a.steps@.len() == b.steps@.len(),
            a.keyword@ == b.keyword@,
            a.name@ == b.name@,
            a.span == b.span,
            a.position == b.position,
            forall|j: int| 0 <= j < i ==> step_exact_eq(a.steps@[j], b.steps@[j]),
        decreases a.steps@.len() - i,
    {
        if !step_exact_eq_exec(&a.steps[i], &b.steps[i]) {
            return false;
        }
        i += 1;
    }
    true
}

/// Content equivalence by direct structural walk: scalar header fields and
/// the background compared exactly, scenarios and steps paired up by
/// position and compared by content, every positional field ignored. Empty
/// scenario or step sequences compare vacuously equal; callers that need to
/// tell that shape apart use the checked variant.
pub fn approximately_eq(reference: &Feature, other: &Feature) -> (r: bool)
    ensures
        r == feature_approx_eq(*reference, *other),
{
    if !bytes_eq(&reference.keyword, &other.keyword) || !bytes_eq(&reference.name, &other.name) {
        return false;
    }
    if !opt_bytes_eq_exec(&reference.description, &other.description) {
        return false;
    }
    let backgrounds_equal = match (&reference.background, &other.background) {
        (Option::None, Option::None) => true,
        (Option::Some(x), Option::Some(y)) => background_exact_eq_exec(x, y),
        _ => false,
    };
    if !backgrounds_equal {
        return false;
    }
    if reference.scenarios.len() != other.scenarios.len() {
        return false;
    }
    let mut i: usize = 0;
    while i < reference.scenarios.len()
        invariant
            i <= reference.scenarios@.len(),
            reference.scenarios@.len() == other.scenarios@.len(),
            reference.keyword@ == other.keyword@,
            reference.name@ == other.name@,
            opt_bytes_eq(reference.description, other.description),
            opt_background_exact_eq(reference.background, other.background),
            forall|j: int|
                0 <= j < i ==> scenario_content_eq(reference.scenarios@[j], other.scenarios@[j]),
        decreases reference.scenarios@.len() - i,
    {
        if !scenario_content_eq_exec(&reference.scenarios[i], &other.scenarios[i]) {
            return false;
        }
        i += 1;
    }
    true
}

/// The shapes on which the positional walk of `approximately_eq` has no
/// well-defined reduction: an empty scenario sequence, or a scenario with no
/// steps.
#[derive(Clone, Copy, PartialEq, Eq, Structural, Debug)]
pub enum ShapeError {
    ZeroScenarios,
    ZeroSteps,
}

/// Some scenario of the feature has no steps.
pub open spec fn has_empty_steps(f: Feature) -> bool {
    exists|i: int| 0 <= i < f.scenarios@.len() && (#[trigger] f.scenarios@[i]).steps@.len() == 0
}

fn find_empty_steps(f: &Feature) -> (r: bool)
    ensures
        r == has_empty_steps(*f),
{
    let mut i: usize = 0;
    while i < f.scenarios.len()
        invariant
            i <= f.scenarios@.len(),
            forall|j: int| 0 <= j < i ==> (#[trigger] f.scenarios@[j]).steps@.len() != 0,
        decreases f.scenarios@.len() - i,
    {
        if f.scenarios[i].steps.len() == 0 {
            return true;
        }
        i += 1;
    }
    false
}

/// Content equivalence by the structural walk, with the undefined shapes
/// made explicit: differing scenario counts are a definite inequality;
/// beyond that, a tree without scenarios, or with a scenario without steps,
/// is a typed error rather than a silent verdict, so callers can tell
/// "definitely unequal" from "comparison undefined for this shape".
pub fn approximately_eq_checked(reference: &Feature, other: &Feature) -> (r: Result<
    bool,
    ShapeError,
>)
    ensures
        reference.scenarios@.len() != other.scenarios@.len() ==> r == Result::<
            bool,
            ShapeError,
        >::Ok(false),
        reference.scenarios@.len() == other.scenarios@.len() && reference.scenarios@.len() == 0
            ==> r == Result::<bool, ShapeError>::Err(ShapeError::ZeroScenarios),
        reference.scenarios@.len() == other.scenarios@.len() && reference.scenarios@.len() > 0 && (
        has_empty_steps(*reference) || has_empty_steps(*other)) ==> r == Result::<
            bool,
            ShapeError,
        >::Err(ShapeError::ZeroSteps),
        reference.scenarios@.len() == other.scenarios@.len() && reference.scenarios@.len() > 0
            && !has_empty_steps(*reference) && !has_empty_steps(*other) ==> r == Result::<
            bool,
            ShapeError,
        >::Ok(feature_approx_eq(*reference, *other)),
{
    if reference.scenarios.len() != other.scenarios.len() {
        return Result::Ok(false);
    }
    if reference.scenarios.len() == 0 {
        return Result::Err(ShapeError::ZeroScenarios);
    }
    if find_empty_steps(reference) || find_empty_steps(other) {
        return Result::Err(ShapeError::ZeroSteps);
    }
    Result::Ok(approximately_eq(reference, other))
}

/// Every change between the two serialized features, in walk order, whether
/// or not the relevance filter later excuses it: the reporting form of the
/// generic-diff strategy.
pub fn diff(reference: &Feature, other: &Feature) -> (r: Vec<ChangeRecord>)
    ensures
        changes_view(r@) == spec_diff(Seq::empty(), feature_val(*reference), feature_val(*other)),
{
    let ref_json = serialize_feature(reference);
    let other_json = serialize_feature(other);
    diff_values(&ref_json, &other_json)
}

/// Content equivalence by generic tree diff: the two features are
/// serialized, structurally diffed, and equivalent exactly when every
/// difference is a modification of a positional field (source path, line,
/// column, or span end). Anything added or removed, and any other
/// modification, is a real mismatch.
pub fn json_diff_equals(reference: &Feature, other: &Feature) -> (r: bool)
    ensures
        r == all_changes_irrelevant(
            spec_diff(Seq::empty(), feature_val(*reference), feature_val(*other)),
        ),
{
    let record = diff(reference, other);
    let ghost cs = changes_view(record@);
    let mut i: usize = 0;
    while i < record.len()
        invariant
            i <= record@.len(),
            cs == changes_view(record@),
            cs == spec_diff(Seq::empty(), feature_val(*reference), feature_val(*other)),
            forall|j: int| 0 <= j < i ==> !crate::value::change_relevant(#[trigger] cs[j]),
        decreases record@.len() - i,
    {
        if crate::value::is_relevant_change(&record[i]) {
            proof {
                assert(crate::value::change_relevant(cs[i as int]));
            }
            return false;
        }
        i += 1;
    }
    true
}

} // verus!
