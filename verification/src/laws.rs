//! The library's laws: proved properties that relate the extractor and the
//! differ across calls — reflexivity of both equivalence strategies,
//! insensitivity to positional metadata, and sensitivity to added content
//! and to changed content.

use crate::compare::{
    background_val, feature_val, opt_background_val, opt_str_val, position_val, scenario_val,
    scenarios_val, span_val, step_val, steps_val, ty_val,
};
use crate::feature::{
    background_content_eq, background_exact_eq, feature_approx_eq, feature_content_eq,
    opt_background_exact_eq, opt_bytes_eq, scenario_content_eq,
    scenario_exact_eq, step_content_eq, step_exact_eq, Background, Feature, Position, Scenario,
    Span, Step, StepType,
};
use crate::value::{
    all_changes_irrelevant, arr_children_diffs, change_relevant, contains_added, denylisted_key,
    key_background, key_col, key_description, key_end, key_keyword, key_line, key_name, key_path,
    key_position, key_scenarios, key_span, key_start, key_steps, key_ty, key_value,
    keys_distinct, lemma_arr_children_contains_added, lemma_arr_longer_has_added,
    lemma_contains_added_relevant, lemma_diff_arr_aligned,
    lemma_diff_obj_aligned, lemma_irrelevant_concat, lemma_obj_children_contains_added,
    lemma_value_refl, obj_children_diffs, spec_diff, spec_diff_arr, value_keys_distinct,
    ChangeView, PathSegView, ValueView,
};
use vstd::prelude::*;

verus! {

proof fn lemma_span_val_wf(s: Span)
    ensures
        value_keys_distinct(span_val(s)),
{
    let e = seq![
        (key_start(), ValueView::UInt(s.start as u64)),
        (key_end(), ValueView::UInt(s.end as u64)),
    ];
    assert(key_start().len() == 5 && key_end().len() == 3);
    assert(keys_distinct(e)) by {
        assert(e[0].0 == key_start() && e[1].0 == key_end());
    }
    assert forall|i: int| 0 <= i < e.len() implies value_keys_distinct((#[trigger] e[i]).1) by {
        assert(e[i].1 is UInt);
    }
}

proof fn lemma_position_val_wf(p: Position)
    ensures
        value_keys_distinct(position_val(p)),
{
    let e = seq![
        (key_line(), ValueView::UInt(p.line as u64)),
        (key_col(), ValueView::UInt(p.col as u64)),
    ];
    assert(key_line().len() == 4 && key_col().len() == 3);
    assert(keys_distinct(e)) by {
        assert(e[0].0 == key_line() && e[1].0 == key_col());
    }
    assert forall|i: int| 0 <= i < e.len() implies value_keys_distinct((#[trigger] e[i]).1) by {
        assert(e[i].1 is UInt);
    }
}

proof fn lemma_step_val_wf(s: Step)
    ensures
        value_keys_distinct(step_val(s)),
{
    let e = seq![
        (key_keyword(), ValueView::Str(s.keyword@)),
        (key_ty(), ty_val(s.ty)),
        (key_value(), ValueView::Str(s.value@)),
        (key_span(), span_val(s.span)),
        (key_position(), position_val(s.position)),
    ];
    assert(key_keyword().len() == 7 && key_ty().len() == 2 && key_value().len() == 5 && key_span().len()
        == 4 && key_position().len() == 8);
    assert(keys_distinct(e)) by {
        assert(e[0].0 == key_keyword() && e[1].0 == key_ty() && e[2].0 == key_value() && e[3].0
            == key_span() && e[4].0 == key_position());
    }
    lemma_span_val_wf(s.span);
    lemma_position_val_wf(s.position);
    assert forall|i: int| 0 <= i < e.len() implies value_keys_distinct((#[trigger] e[i]).1) by {
        if i == 1 {
            assert(e[1].1 == ty_val(s.ty));
            assert(value_keys_distinct(ty_val(s.ty))) by {
                match s.ty {
                    StepType::Given => assert(ty_val(s.ty) is Str),
                    StepType::When => assert(ty_val(s.ty) is Str),
                    StepType::Then => assert(ty_val(s.ty) is Str),
                }
            }
        }
    }
}

proof fn lemma_scenario_val_wf(sc: Scenario)
    ensures
        value_keys_distinct(scenario_val(sc)),
{
    let e = seq![
        (key_keyword(), ValueView::Str(sc.keyword@)),
        (key_name(), ValueView::Str(sc.name@)),
        (key_steps(), ValueView::Arr(steps_val(sc.steps@))),
        (key_span(), span_val(sc.span)),
        (key_position(), position_val(sc.position)),
    ];
    assert(key_keyword().len() == 7 && key_name().len() == 4 && key_steps().len() == 5
        && key_span().len() == 4 && key_position().len() == 8);
    assert(key_name() != key_span()) by {
        assert(key_name()[0] == 'n' as u8);
        assert(key_span()[0] == 's' as u8);
    }
    assert(keys_distinct(e)) by {
        assert(e[0].0 == key_keyword() && e[1].0 == key_name() && e[2].0 == key_steps() && e[3].0
            == key_span() && e[4].0 == key_position());
    }
    lemma_span_val_wf(sc.span);
    lemma_position_val_wf(sc.position);
    assert forall|i: int| 0 <= i < e.len() implies value_keys_distinct((#[trigger] e[i]).1) by {
        if i == 2 {
            assert(e[2].1 == ValueView::Arr(steps_val(sc.steps@)));
            assert forall|j: int| 0 <= j < steps_val(sc.steps@).len() implies value_keys_distinct(
                #[trigger] steps_val(sc.steps@)[j],
            ) by {
                lemma_step_val_wf(sc.steps@[j]);
            }
        }
    }
}

proof fn lemma_background_val_wf(b: Background)
    ensures
        value_keys_distinct(background_val(b)),
{
    let e = seq![
        (key_keyword(), ValueView::Str(b.keyword@)),
        (key_name(), ValueView::Str(b.name@)),
        (key_steps(), ValueView::Arr(steps_val(b.steps@))),
        (key_span(), span_val(b.span)),
        (key_position(), position_val(b.position)),
    ];
    assert(key_keyword().len() == 7 && key_name().len() == 4 && key_steps().len() == 5
        && key_span().len() == 4 && key_position().len() == 8);
    assert(key_name() != key_span()) by {
        assert(key_name()[0] == 'n' as u8);
        assert(key_span()[0] == 's' as u8);
    }
    assert(keys_distinct(e)) by {
        assert(e[0].0 == key_keyword() && e[1].0 == key_name() && e[2].0 == key_steps() && e[3].0
            == key_span() && e[4].0 == key_position());
    }
    lemma_span_val_wf(b.span);
    lemma_position_val_wf(b.position);
    assert forall|i: int| 0 <= i < e.len() implies value_keys_distinct((#[trigger] e[i]).1) by {
        if i == 2 {
            assert(e[2].1 == ValueView::Arr(steps_val(b.steps@)));
            assert forall|j: int| 0 <= j < steps_val(b.steps@).len() implies value_keys_distinct(
                #[trigger] steps_val(b.steps@)[j],
            ) by {
                lemma_step_val_wf(b.steps@[j]);
            }
        }
    }
}

proof fn lemma_feature_val_wf(f: Feature)
    ensures
        value_keys_distinct(feature_val(f)),
{
    let e = seq![
        (key_keyword(), ValueView::Str(f.keyword@)),
        (key_name(), ValueView::Str(f.name@)),
        (key_description(), opt_str_val(f.description)),
        (key_background(), opt_background_val(f.background)),
        (key_scenarios(), ValueView::Arr(scenarios_val(f.scenarios@))),
        (key_span(), span_val(f.span)),
        (key_position(), position_val(f.position)),
        (key_path(), opt_str_val(f.path)),
    ];
    assert(key_keyword().len() == 7 && key_name().len() == 4 && key_description().len() == 11
        && key_background().len() == 10 && key_scenarios().len() == 9 && key_span().len() == 4
        && key_position().len() == 8 && key_path().len() == 4);
    assert(key_name() != key_span()) by {
        assert(key_name()[0] == 'n' as u8);
        assert(key_span()[0] == 's' as u8);
    }
    assert(key_name() != key_path()) by {
        assert(key_name()[0] == 'n' as u8);
        assert(key_path()[0] == 'p' as u8);
    }
    assert(key_span() != key_path()) by {
        assert(key_span()[0] == 's' as u8);
        assert(key_path()[0] == 'p' as u8);
    }
    assert(keys_distinct(e)) by {
        assert(e[0].0 == key_keyword() && e[1].0 == key_name() && e[2].0 == key_description()
            && e[3].0 == key_background() && e[4].0 == key_scenarios() && e[5].0 == key_span()
            && e[6].0 == key_position() && e[7].0 == key_path());
    }
    lemma_span_val_wf(f.span);
    lemma_position_val_wf(f.position);
    assert forall|i: int| 0 <= i < e.len() implies value_keys_distinct((#[trigger] e[i]).1) by {
        if i == 2 {
            match f.description {
                Option::None => assert(opt_str_val(f.description) is Null),
                Option::Some(d) => assert(opt_str_val(f.description) is Str),
            }
        }
        if i == 3 {
            match f.background {
                Option::None => assert(opt_background_val(f.background) is Null),
                Option::Some(b) => lemma_background_val_wf(b),
            }
        }
        if i == 4 {
            assert(e[4].1 == ValueView::Arr(scenarios_val(f.scenarios@)));
            assert forall|j: int|
                0 <= j < scenarios_val(f.scenarios@).len() implies value_keys_distinct(
                #[trigger] scenarios_val(f.scenarios@)[j],
            ) by {
                lemma_scenario_val_wf(f.scenarios@[j]);
            }
        }
        if i == 7 {
            match f.path {
                Option::None => assert(opt_str_val(f.path) is Null),
                Option::Some(p) => assert(opt_str_val(f.path) is Str),
            }
        }
    }
}

/// Reflexivity law: any feature compares equal to itself, under the direct
/// structural walk and under the generic tree diff, whose record sequence
/// against the same tree is empty — for a tree with no scenarios as well.
pub proof fn lemma_reflexive(t: Feature)
    ensures
        feature_approx_eq(t, t),
        spec_diff(Seq::empty(), feature_val(t), feature_val(t)) == Seq::<ChangeView>::empty(),
        all_changes_irrelevant(spec_diff(Seq::empty(), feature_val(t), feature_val(t))),
{
    lemma_feature_val_wf(t);
    lemma_value_refl(Seq::empty(), feature_val(t));
}

/// A modification under a denylisted field name never matters, whatever the
/// two values are (as long as they are compared as one leaf).
proof fn lemma_leaf_denylisted(path: Seq<PathSegView>, key: Seq<u8>, v1: ValueView, v2: ValueView)
    requires
        denylisted_key(key),
        !(v1 is Obj && v2 is Obj),
        !(v1 is Arr && v2 is Arr),
    ensures
        all_changes_irrelevant(spec_diff(path.push(PathSegView::Field(key)), v1, v2)),
{
    let p = path.push(PathSegView::Field(key));
    let cs = spec_diff(p, v1, v2);
    if v1 == v2 {
        assert(cs =~= Seq::<ChangeView>::empty());
    } else {
        assert(cs == seq![ChangeView::Modified(p, v1, v2)]);
        assert(p.last() == PathSegView::Field(key));
        assert(!change_relevant(cs[0]));
    }
}

/// Diffing a value against an equal one yields nothing relevant.
proof fn lemma_refl_irrelevant(path: Seq<PathSegView>, v1: ValueView, v2: ValueView)
    requires
        v1 == v2,
        value_keys_distinct(v1),
    ensures
        all_changes_irrelevant(spec_diff(path, v1, v2)),
{
    lemma_value_refl(path, v1);
}

/// Entry-wise irrelevance lifts to the whole aligned object.
proof fn lemma_obj_children_irrelevant(
    path: Seq<PathSegView>,
    xs: Seq<(Seq<u8>, ValueView)>,
    ys: Seq<(Seq<u8>, ValueView)>,
)
    requires
        xs.len() == ys.len(),
        forall|i: int|
            0 <= i < xs.len() ==> all_changes_irrelevant(
                spec_diff(path.push(PathSegView::Field((#[trigger] xs[i]).0)), xs[i].1, ys[i].1),
            ),
    ensures
        all_changes_irrelevant(obj_children_diffs(path, xs, ys)),
    decreases xs.len(),
{
    if xs.len() == 0 {
    } else {
        let head = spec_diff(path.push(PathSegView::Field(xs[0].0)), xs[0].1, ys[0].1);
        assert forall|i: int| 0 <= i < xs.drop_first().len() implies all_changes_irrelevant(
            spec_diff(
                path.push(PathSegView::Field((#[trigger] xs.drop_first()[i]).0)),
                xs.drop_first()[i].1,
                ys.drop_first()[i].1,
            ),
        ) by {
            assert(xs.drop_first()[i] == xs[i + 1]);
            assert(ys.drop_first()[i] == ys[i + 1]);
        }
        lemma_obj_children_irrelevant(path, xs.drop_first(), ys.drop_first());
        lemma_irrelevant_concat(head, obj_children_diffs(path, xs.drop_first(), ys.drop_first()));
    }
}

/// Element-wise irrelevance lifts to the whole aligned array.
proof fn lemma_arr_children_irrelevant(
    path: Seq<PathSegView>,
    xs: Seq<ValueView>,
    ys: Seq<ValueView>,
    n: int,
)
    requires
        xs.len() == ys.len(),
        forall|i: int|
            0 <= i < xs.len() ==> all_changes_irrelevant(
                spec_diff(path.push(PathSegView::Index(n + i)), #[trigger] xs[i], ys[i]),
            ),
    ensures
        all_changes_irrelevant(arr_children_diffs(path, xs, ys, n)),
    decreases xs.len(),
{
    if xs.len() == 0 {
    } else {
        let head = spec_diff(path.push(PathSegView::Index(n)), xs[0], ys[0]);
        assert(all_changes_irrelevant(head)) by {
            assert(xs[0] == xs[0] && n + 0 == n);
        }
        assert forall|i: int| 0 <= i < xs.drop_first().len() implies all_changes_irrelevant(
            spec_diff(
                path.push(PathSegView::Index(n + 1 + i)),
                #[trigger] xs.drop_first()[i],
                ys.drop_first()[i],
            ),
        ) by {
            assert(xs.drop_first()[i] == xs[i + 1]);
            assert(ys.drop_first()[i] == ys[i + 1]);
            assert(n + 1 + i == n + (i + 1));
        }
        lemma_arr_children_irrelevant(path, xs.drop_first(), ys.drop_first(), n + 1);
        lemma_irrelevant_concat(
            head,
            arr_children_diffs(path, xs.drop_first(), ys.drop_first(), n + 1),
        );
    }
}

/// Two spans, equal or not, diff to nothing relevant: both their fields are
/// denylisted.
proof fn lemma_span_pair_irrelevant(path: Seq<PathSegView>, s1: Span, s2: Span)
    ensures
        all_changes_irrelevant(spec_diff(path, span_val(s1), span_val(s2))),
{
    let e1 = seq![
        (key_start(), ValueView::UInt(s1.start as u64)),
        (key_end(), ValueView::UInt(s1.end as u64)),
    ];
    let e2 = seq![
        (key_start(), ValueView::UInt(s2.start as u64)),
        (key_end(), ValueView::UInt(s2.end as u64)),
    ];
    assert(key_start().len() == 5 && key_end().len() == 3);
    assert(keys_distinct(e1)) by {
        assert(e1[0].0 == key_start() && e1[1].0 == key_end());
    }
    lemma_diff_obj_aligned(path, e1, e2);
    assert forall|i: int| 0 <= i < e1.len() implies all_changes_irrelevant(
        spec_diff(path.push(PathSegView::Field((#[trigger] e1[i]).0)), e1[i].1, e2[i].1),
    ) by {
        if i == 0 {
            lemma_leaf_denylisted(path, key_start(), e1[0].1, e2[0].1);
        } else {
            lemma_leaf_denylisted(path, key_end(), e1[1].1, e2[1].1);
        }
    }
    lemma_obj_children_irrelevant(path, e1, e2);
}

/// Two positions, equal or not, diff to nothing relevant.
proof fn lemma_position_pair_irrelevant(path: Seq<PathSegView>, p1: Position, p2: Position)
    ensures
        all_changes_irrelevant(spec_diff(path, position_val(p1), position_val(p2))),
{
    let e1 = seq![
        (key_line(), ValueView::UInt(p1.line as u64)),
        (key_col(), ValueView::UInt(p1.col as u64)),
    ];
    let e2 = seq![
        (key_line(), ValueView::UInt(p2.line as u64)),
        (key_col(), ValueView::UInt(p2.col as u64)),
    ];
    assert(key_line().len() == 4 && key_col().len() == 3);
    assert(keys_distinct(e1)) by {
        assert(e1[0].0 == key_line() && e1[1].0 == key_col());
    }
    lemma_diff_obj_aligned(path, e1, e2);
    assert forall|i: int| 0 <= i < e1.len() implies all_changes_irrelevant(
        spec_diff(path.push(PathSegView::Field((#[trigger] e1[i]).0)), e1[i].1, e2[i].1),
    ) by {
        if i == 0 {
            lemma_leaf_denylisted(path, key_line(), e1[0].1, e2[0].1);
        } else {
            lemma_leaf_denylisted(path, key_col(), e1[1].1, e2[1].1);
        }
    }
    lemma_obj_children_irrelevant(path, e1, e2);
}

/// Two content-equal steps diff to nothing relevant, wherever their
/// positions sit.
proof fn lemma_step_pair_irrelevant(path: Seq<PathSegView>, a: Step, b: Step)
    requires
        step_content_eq(a, b),
    ensures
        all_changes_irrelevant(spec_diff(path, step_val(a), step_val(b))),
{
    let e1 = seq![
        (key_keyword(), ValueView::Str(a.keyword@)),
        (key_ty(), ty_val(a.ty)),
        (key_value(), ValueView::Str(a.value@)),
        (key_span(), span_val(a.span)),
        (key_position(), position_val(a.position)),
    ];
    let e2 = seq![
        (key_keyword(), ValueView::Str(b.keyword@)),
        (key_ty(), ty_val(b.ty)),
        (key_value(), ValueView::Str(b.value@)),
        (key_span(), span_val(b.span)),
        (key_position(), position_val(b.position)),
    ];
    assert(key_keyword().len() == 7 && key_ty().len() == 2 && key_value().len() == 5 && key_span().len()
        == 4 && key_position().len() == 8);
    assert(keys_distinct(e1)) by {
        assert(e1[0].0 == key_keyword() && e1[1].0 == key_ty() && e1[2].0 == key_value() && e1[3].0
            == key_span() && e1[4].0 == key_position());
    }
    lemma_diff_obj_aligned(path, e1, e2);
    assert forall|i: int| 0 <= i < e1.len() implies all_changes_irrelevant(
        spec_diff(path.push(PathSegView::Field((#[trigger] e1[i]).0)), e1[i].1, e2[i].1),
    ) by {
        if i == 0 {
            lemma_refl_irrelevant(path.push(PathSegView::Field(key_keyword())), e1[0].1, e2[0].1);
        } else if i == 1 {
            assert(e1[1].1 == e2[1].1);
            assert(value_keys_distinct(e1[1].1)) by {
                match a.ty {
                    StepType::Given => assert(ty_val(a.ty) is Str),
                    StepType::When => assert(ty_val(a.ty) is Str),
                    StepType::Then => assert(ty_val(a.ty) is Str),
                }
            }
            lemma_refl_irrelevant(path.push(PathSegView::Field(key_ty())), e1[1].1, e2[1].1);
        } else if i == 2 {
            lemma_refl_irrelevant(path.push(PathSegView::Field(key_value())), e1[2].1, e2[2].1);
        } else if i == 3 {
            lemma_span_pair_irrelevant(path.push(PathSegView::Field(key_span())), a.span, b.span);
        } else {
            lemma_position_pair_irrelevant(
                path.push(PathSegView::Field(key_position())),
                a.position,
                b.position,
            );
        }
    }
    lemma_obj_children_irrelevant(path, e1, e2);
}

/// Two step sequences of equal length, content-equal step by step, diff to
/// nothing relevant.
proof fn lemma_steps_pair_irrelevant(path: Seq<PathSegView>, ss1: Seq<Step>, ss2: Seq<Step>)
    requires
        ss1.len() == ss2.len(),
        forall|i: int| 0 <= i < ss1.len() ==> step_content_eq(#[trigger] ss1[i], ss2[i]),
    ensures
        all_changes_irrelevant(
            spec_diff(path, ValueView::Arr(steps_val(ss1)), ValueView::Arr(steps_val(ss2))),
        ),
{
    let x = steps_val(ss1);
    let y = steps_val(ss2);
    lemma_diff_arr_aligned(path, x, y, 0);
    assert forall|i: int| 0 <= i < x.len() implies all_changes_irrelevant(
        spec_diff(path.push(PathSegView::Index(0 + i)), #[trigger] x[i], y[i]),
    ) by {
        assert(x[i] == step_val(ss1[i]));
        assert(y[i] == step_val(ss2[i]));
        lemma_step_pair_irrelevant(path.push(PathSegView::Index(0 + i)), ss1[i], ss2[i]);
    }
    lemma_arr_children_irrelevant(path, x, y, 0);
}

/// Two content-equal scenarios diff to nothing relevant.
proof fn lemma_scenario_pair_irrelevant(path: Seq<PathSegView>, a: Scenario, b: Scenario)
    requires
        scenario_content_eq(a, b),
    ensures
        all_changes_irrelevant(spec_diff(path, scenario_val(a), scenario_val(b))),
{
    let e1 = seq![
        (key_keyword(), ValueView::Str(a.keyword@)),
        (key_name(), ValueView::Str(a.name@)),
        (key_steps(), ValueView::Arr(steps_val(a.steps@))),
        (key_span(), span_val(a.span)),
        (key_position(), position_val(a.position)),
    ];
    let e2 = seq![
        (key_keyword(), ValueView::Str(b.keyword@)),
        (key_name(), ValueView::Str(b.name@)),
        (key_steps(), ValueView::Arr(steps_val(b.steps@))),
        (key_span(), span_val(b.span)),
        (key_position(), position_val(b.position)),
    ];
    assert(key_keyword().len() == 7 && key_name().len() == 4 && key_steps().len() == 5
        && key_span().len() == 4 && key_position().len() == 8);
    assert(key_name() != key_span()) by {
        assert(key_name()[0] == 'n' as u8);
        assert(key_span()[0] == 's' as u8);
    }
    assert(keys_distinct(e1)) by {
        assert(e1[0].0 == key_keyword() && e1[1].0 == key_name() && e1[2].0 == key_steps() && e1[3].0
            == key_span() && e1[4].0 == key_position());
    }
    lemma_diff_obj_aligned(path, e1, e2);
    assert forall|i: int| 0 <= i < e1.len() implies all_changes_irrelevant(
        spec_diff(path.push(PathSegView::Field((#[trigger] e1[i]).0)), e1[i].1, e2[i].1),
    ) by {
        if i == 0 {
            lemma_refl_irrelevant(path.push(PathSegView::Field(key_keyword())), e1[0].1, e2[0].1);
        } else if i == 1 {
            lemma_refl_irrelevant(path.push(PathSegView::Field(key_name())), e1[1].1, e2[1].1);
        } else if i == 2 {
            lemma_steps_pair_irrelevant(
                path.push(PathSegView::Field(key_steps())),
                a.steps@,
                b.steps@,
            );
        } else if i == 3 {
            lemma_span_pair_irrelevant(path.push(PathSegView::Field(key_span())), a.span, b.span);
        } else {
            lemma_position_pair_irrelevant(
                path.push(PathSegView::Field(key_position())),
                a.position,
                b.position,
            );
        }
    }
    lemma_obj_children_irrelevant(path, e1, e2);
}

/// Two content-equal backgrounds diff to nothing relevant.
proof fn lemma_background_pair_irrelevant(path: Seq<PathSegView>, a: Background, b: Background)
    requires
        background_content_eq(a, b),
    ensures
        all_changes_irrelevant(spec_diff(path, background_val(a), background_val(b))),
{
    let e1 = seq![
        (key_keyword(), ValueView::Str(a.keyword@)),
        (key_name(), ValueView::Str(a.name@)),
        (key_steps(), ValueView::Arr(steps_val(a.steps@))),
        (key_span(), span_val(a.span)),
        (key_position(), position_val(a.position)),
    ];
    let e2 = seq![
        (key_keyword(), ValueView::Str(b.keyword@)),
        (key_name(), ValueView::Str(b.name@)),
        (key_steps(), ValueView::Arr(steps_val(b.steps@))),
        (key_span(), span_val(b.span)),
        (key_position(), position_val(b.position)),
    ];
    assert(key_keyword().len() == 7 && key_name().len() == 4 && key_steps().len() == 5
        && key_span().len() == 4 && key_position().len() == 8);
    assert(key_name() != key_span()) by {
        assert(key_name()[0] == 'n' as u8);
        assert(key_span()[0] == 's' as u8);
    }
    assert(keys_distinct(e1)) by {
        assert(e1[0].0 == key_keyword() && e1[1].0 == key_name() && e1[2].0 == key_steps() && e1[3].0
            == key_span() && e1[4].0 == key_position());
    }
    lemma_diff_obj_aligned(path, e1, e2);
    assert forall|i: int| 0 <= i < e1.len() implies all_changes_irrelevant(
        spec_diff(path.push(PathSegView::Field((#[trigger] e1[i]).0)), e1[i].1, e2[i].1),
    ) by {
        if i == 0 {
            lemma_refl_irrelevant(path.push(PathSegView::Field(key_keyword())), e1[0].1, e2[0].1);
        } else if i == 1 {
            lemma_refl_irrelevant(path.push(PathSegView::Field(key_name())), e1[1].1, e2[1].1);
        } else if i == 2 {
            lemma_steps_pair_irrelevant(
                path.push(PathSegView::Field(key_steps())),
                a.steps@,
                b.steps@,
            );
        } else if i == 3 {
            lemma_span_pair_irrelevant(path.push(PathSegView::Field(key_span())), a.span, b.span);
        } else {
            lemma_position_pair_irrelevant(
                path.push(PathSegView::Field(key_position())),
                a.position,
                b.position,
            );
        }
    }
    lemma_obj_children_irrelevant(path, e1, e2);
}

/// Position-insensitivity law for the generic-diff strategy: two features
/// with identical content — whatever their spans, line/column positions and
/// source paths — diff to nothing relevant, so `json_diff_equals` accepts
/// them.
pub proof fn lemma_position_insensitive(a: Feature, b: Feature)
    requires
        feature_content_eq(a, b),
    ensures
        all_changes_irrelevant(spec_diff(Seq::empty(), feature_val(a), feature_val(b))),
{
    let path = Seq::<PathSegView>::empty();
    let e1 = seq![
        (key_keyword(), ValueView::Str(a.keyword@)),
        (key_name(), ValueView::Str(a.name@)),
        (key_description(), opt_str_val(a.description)),
        (key_background(), opt_background_val(a.background)),
        (key_scenarios(), ValueView::Arr(scenarios_val(a.scenarios@))),
        (key_span(), span_val(a.span)),
        (key_position(), position_val(a.position)),
        (key_path(), opt_str_val(a.path)),
    ];
    let e2 = seq![
        (key_keyword(), ValueView::Str(b.keyword@)),
        (key_name(), ValueView::Str(b.name@)),
        (key_description(), opt_str_val(b.description)),
        (key_background(), opt_background_val(b.background)),
        (key_scenarios(), ValueView::Arr(scenarios_val(b.scenarios@))),
        (key_span(), span_val(b.span)),
        (key_position(), position_val(b.position)),
        (key_path(), opt_str_val(b.path)),
    ];
    assert(key_keyword().len() == 7 && key_name().len() == 4 && key_description().len() == 11
        && key_background().len() == 10 && key_scenarios().len() == 9 && key_span().len() == 4
        && key_position().len() == 8 && key_path().len() == 4);
    assert(key_name() != key_span()) by {
        assert(key_name()[0] == 'n' as u8);
        assert(key_span()[0] == 's' as u8);
    }
    assert(key_name() != key_path()) by {
        assert(key_name()[0] == 'n' as u8);
        assert(key_path()[0] == 'p' as u8);
    }
    assert(key_span() != key_path()) by {
        assert(key_span()[0] == 's' as u8);
        assert(key_path()[0] == 'p' as u8);
    }
    assert(keys_distinct(e1)) by {
        assert(e1[0].0 == key_keyword() && e1[1].0 == key_name() && e1[2].0 == key_description()
            && e1[3].0 == key_background() && e1[4].0 == key_scenarios() && e1[5].0 == key_span()
            && e1[6].0 == key_position() && e1[7].0 == key_path());
    }
    lemma_diff_obj_aligned(path, e1, e2);
    assert forall|i: int| 0 <= i < e1.len() implies all_changes_irrelevant(
        spec_diff(path.push(PathSegView::Field((#[trigger] e1[i]).0)), e1[i].1, e2[i].1),
    ) by {
        if i == 0 {
            lemma_refl_irrelevant(path.push(PathSegView::Field(key_keyword())), e1[0].1, e2[0].1);
        } else if i == 1 {
            lemma_refl_irrelevant(path.push(PathSegView::Field(key_name())), e1[1].1, e2[1].1);
        } else if i == 2 {
            assert(e1[2].1 == e2[2].1) by {
                match (a.description, b.description) {
                    (Option::Some(x), Option::Some(y)) => {
                        assert(x@ == y@);
                    },
                    _ => {},
                }
            }
            assert(value_keys_distinct(e1[2].1)) by {
                match a.description {
                    Option::None => assert(opt_str_val(a.description) is Null),
                    Option::Some(d) => assert(opt_str_val(a.description) is Str),
                }
            }
            lemma_refl_irrelevant(path.push(PathSegView::Field(key_description())), e1[2].1, e2[2].1);
        } else if i == 3 {
            match (a.background, b.background) {
                (Option::None, Option::None) => {
                    lemma_refl_irrelevant(
                        path.push(PathSegView::Field(key_background())),
                        e1[3].1,
                        e2[3].1,
                    );
                },
                (Option::Some(x), Option::Some(y)) => {
                    lemma_background_pair_irrelevant(
                        path.push(PathSegView::Field(key_background())),
                        x,
                        y,
                    );
                },
                _ => {
                    assert(false);
                },
            }
        } else if i == 4 {
            let x = scenarios_val(a.scenarios@);
            let y = scenarios_val(b.scenarios@);
            let p4 = path.push(PathSegView::Field(key_scenarios()));
            lemma_diff_arr_aligned(p4, x, y, 0);
            assert forall|j: int| 0 <= j < x.len() implies all_changes_irrelevant(
                spec_diff(p4.push(PathSegView::Index(0 + j)), #[trigger] x[j], y[j]),
            ) by {
                assert(x[j] == scenario_val(a.scenarios@[j]));
                assert(y[j] == scenario_val(b.scenarios@[j]));
                lemma_scenario_pair_irrelevant(
                    p4.push(PathSegView::Index(0 + j)),
                    a.scenarios@[j],
                    b.scenarios@[j],
                );
            }
            lemma_arr_children_irrelevant(p4, x, y, 0);
        } else if i == 5 {
            lemma_span_pair_irrelevant(path.push(PathSegView::Field(key_span())), a.span, b.span);
        } else if i == 6 {
            lemma_position_pair_irrelevant(
                path.push(PathSegView::Field(key_position())),
                a.position,
                b.position,
            );
        } else {
            lemma_leaf_denylisted(path, key_path(), e1[7].1, e2[7].1);
            assert(opt_str_val(a.path) is Null || opt_str_val(a.path) is Str);
        }
    }
    lemma_obj_children_irrelevant(path, e1, e2);
}

/// Position-insensitivity for the direct structural walk: two features with
/// identical content whose backgrounds also agree on their positional
/// metadata compare equal. (The walk compares the background as one scalar
/// field, positions included, so an altered background span falls outside
/// this law.)
pub proof fn lemma_position_insensitive_walk(a: Feature, b: Feature)
    requires
        feature_content_eq(a, b),
        opt_background_exact_eq(a.background, b.background),
    ensures
        feature_approx_eq(a, b),
{
}

/// Count-sensitivity law, scenario level: a feature with more scenarios than
/// another never compares equal under the walk, and the generic diff always
/// reports at least one addition — which no denylist excuses.
pub proof fn lemma_count_sensitive(a: Feature, b: Feature)
    requires
        a.scenarios@.len() < b.scenarios@.len(),
    ensures
        !feature_approx_eq(a, b),
        contains_added(spec_diff(Seq::empty(), feature_val(a), feature_val(b))),
        !all_changes_irrelevant(spec_diff(Seq::empty(), feature_val(a), feature_val(b))),
{
    let path = Seq::<PathSegView>::empty();
    let e1 = feature_entries(a);
    let e2 = feature_entries(b);
    lemma_feature_entries_aligned(a, b);
    lemma_diff_obj_aligned(path, e1, e2);
    let p4 = path.push(PathSegView::Field(key_scenarios()));
    let x = scenarios_val(a.scenarios@);
    let y = scenarios_val(b.scenarios@);
    assert(e1[4].1 == ValueView::Arr(x) && e2[4].1 == ValueView::Arr(y));
    assert(spec_diff(p4, e1[4].1, e2[4].1) == spec_diff_arr(p4, x, y, 0));
    lemma_arr_longer_has_added(p4, x, y, 0);
    lemma_obj_children_contains_added(path, e1, e2, 4);
    lemma_contains_added_relevant(obj_children_diffs(path, e1, e2));
}

/// The entry sequence of a serialized feature.
pub open spec fn feature_entries(f: Feature) -> Seq<(Seq<u8>, ValueView)> {
    seq![
        (key_keyword(), ValueView::Str(f.keyword@)),
        (key_name(), ValueView::Str(f.name@)),
        (key_description(), opt_str_val(f.description)),
        (key_background(), opt_background_val(f.background)),
        (key_scenarios(), ValueView::Arr(scenarios_val(f.scenarios@))),
        (key_span(), span_val(f.span)),
        (key_position(), position_val(f.position)),
        (key_path(), opt_str_val(f.path)),
    ]
}

/// The serialized feature is the object over its entries, any two features'
/// entry keys align, and the keys are pairwise distinct.
proof fn lemma_feature_entries_aligned(a: Feature, b: Feature)
    ensures
        feature_val(a) == ValueView::Obj(feature_entries(a)),
        feature_val(b) == ValueView::Obj(feature_entries(b)),
        feature_entries(a).len() == feature_entries(b).len(),
        forall|i: int|
            0 <= i < feature_entries(a).len() ==> (#[trigger] feature_entries(a)[i]).0
                == feature_entries(b)[i].0,
        keys_distinct(feature_entries(a)),
{
    let e1 = feature_entries(a);
    let e2 = feature_entries(b);
    assert(key_keyword().len() == 7 && key_name().len() == 4 && key_description().len() == 11
        && key_background().len() == 10 && key_scenarios().len() == 9 && key_span().len() == 4
        && key_position().len() == 8 && key_path().len() == 4);
    assert(key_name() != key_span()) by {
        assert(key_name()[0] == 'n' as u8);
        assert(key_span()[0] == 's' as u8);
    }
    assert(key_name() != key_path()) by {
        assert(key_name()[0] == 'n' as u8);
        assert(key_path()[0] == 'p' as u8);
    }
    assert(key_span() != key_path()) by {
        assert(key_span()[0] == 's' as u8);
        assert(key_path()[0] == 'p' as u8);
    }
    assert(keys_distinct(e1)) by {
        assert(e1[0].0 == key_keyword() && e1[1].0 == key_name() && e1[2].0 == key_description()
            && e1[3].0 == key_background() && e1[4].0 == key_scenarios() && e1[5].0 == key_span()
            && e1[6].0 == key_position() && e1[7].0 == key_path());
    }
    assert forall|i: int| 0 <= i < e1.len() implies (#[trigger] e1[i]).0 == e2[i].0 by {
        assert(e1[0].0 == key_keyword() && e2[0].0 == key_keyword());
        assert(e1[1].0 == key_name() && e2[1].0 == key_name());
        assert(e1[2].0 == key_description() && e2[2].0 == key_description());
        assert(e1[3].0 == key_background() && e2[3].0 == key_background());
        assert(e1[4].0 == key_scenarios() && e2[4].0 == key_scenarios());
        assert(e1[5].0 == key_span() && e2[5].0 == key_span());
        assert(e1[6].0 == key_position() && e2[6].0 == key_position());
        assert(e1[7].0 == key_path() && e2[7].0 == key_path());
    }
}

/// The entry sequence of a serialized scenario.
pub open spec fn scenario_entries(sc: Scenario) -> Seq<(Seq<u8>, ValueView)> {
    seq![
        (key_keyword(), ValueView::Str(sc.keyword@)),
        (key_name(), ValueView::Str(sc.name@)),
        (key_steps(), ValueView::Arr(steps_val(sc.steps@))),
        (key_span(), span_val(sc.span)),
        (key_position(), position_val(sc.position)),
    ]
}

proof fn lemma_scenario_entries_aligned(a: Scenario, b: Scenario)
    ensures
        scenario_val(a) == ValueView::Obj(scenario_entries(a)),
        scenario_val(b) == ValueView::Obj(scenario_entries(b)),
        scenario_entries(a).len() == scenario_entries(b).len(),
        forall|i: int|
            0 <= i < scenario_entries(a).len() ==> (#[trigger] scenario_entries(a)[i]).0
                == scenario_entries(b)[i].0,
        keys_distinct(scenario_entries(a)),
{
    let e1 = scenario_entries(a);
    let e2 = scenario_entries(b);
    assert(key_keyword().len() == 7 && key_name().len() == 4 && key_steps().len() == 5
        && key_span().len() == 4 && key_position().len() == 8);
    assert(key_name() != key_span()) by {
        assert(key_name()[0] == 'n' as u8);
        assert(key_span()[0] == 's' as u8);
    }
    assert(keys_distinct(e1)) by {
        assert(e1[0].0 == key_keyword() && e1[1].0 == key_name() && e1[2].0 == key_steps() && e1[3].0
            == key_span() && e1[4].0 == key_position());
    }
    assert forall|i: int| 0 <= i < e1.len() implies (#[trigger] e1[i]).0 == e2[i].0 by {
        assert(e1[0].0 == key_keyword() && e2[0].0 == key_keyword());
        assert(e1[1].0 == key_name() && e2[1].0 == key_name());
        assert(e1[2].0 == key_steps() && e2[2].0 == key_steps());
        assert(e1[3].0 == key_span() && e2[3].0 == key_span());
        assert(e1[4].0 == key_position() && e2[4].0 == key_position());
    }
}

/// Count-sensitivity law, step level: give one scenario of the second
/// feature more steps than its counterpart, and the walk rejects the pair
/// while the generic diff reports an addition.
pub proof fn lemma_count_sensitive_steps(a: Feature, b: Feature, j: int)
    requires
        a.scenarios@.len() == b.scenarios@.len(),
        0 <= j < a.scenarios@.len(),
        a.scenarios@[j].steps@.len() < b.scenarios@[j].steps@.len(),
    ensures
        !feature_approx_eq(a, b),
        contains_added(spec_diff(Seq::empty(), feature_val(a), feature_val(b))),
        !all_changes_irrelevant(spec_diff(Seq::empty(), feature_val(a), feature_val(b))),
{
    let path = Seq::<PathSegView>::empty();
    let e1 = feature_entries(a);
    let e2 = feature_entries(b);
    lemma_feature_entries_aligned(a, b);
    lemma_diff_obj_aligned(path, e1, e2);
    let p4 = path.push(PathSegView::Field(key_scenarios()));
    let x = scenarios_val(a.scenarios@);
    let y = scenarios_val(b.scenarios@);
    assert(spec_diff(p4, e1[4].1, e2[4].1) == spec_diff_arr(p4, x, y, 0));
    lemma_diff_arr_aligned(p4, x, y, 0);
    let pj = p4.push(PathSegView::Index(j));
    let sa = a.scenarios@[j];
    let sb = b.scenarios@[j];
    assert(x[j] == scenario_val(sa) && y[j] == scenario_val(sb));
    let f1 = scenario_entries(sa);
    let f2 = scenario_entries(sb);
    lemma_scenario_entries_aligned(sa, sb);
    lemma_diff_obj_aligned(pj, f1, f2);
    let ps = pj.push(PathSegView::Field(key_steps()));
    let sx = steps_val(sa.steps@);
    let sy = steps_val(sb.steps@);
    assert(spec_diff(ps, f1[2].1, f2[2].1) == spec_diff_arr(ps, sx, sy, 0));
    lemma_arr_longer_has_added(ps, sx, sy, 0);
    lemma_obj_children_contains_added(pj, f1, f2, 2);
    assert(contains_added(spec_diff(p4.push(PathSegView::Index(0 + j)), x[j], y[j])));
    lemma_arr_children_contains_added(p4, x, y, 0, j);
    lemma_obj_children_contains_added(path, e1, e2, 4);
    lemma_contains_added_relevant(obj_children_diffs(path, e1, e2));
    assert(!feature_approx_eq(a, b)) by {
        if feature_approx_eq(a, b) {
            assert(scenario_content_eq(a.scenarios@[j], b.scenarios@[j]));
        }
    }
}

proof fn lemma_obj_children_all_empty(
    path: Seq<PathSegView>,
    xs: Seq<(Seq<u8>, ValueView)>,
    ys: Seq<(Seq<u8>, ValueView)>,
)
    requires
        xs.len() == ys.len(),
        forall|i: int|
            0 <= i < xs.len() ==> spec_diff(
                path.push(PathSegView::Field((#[trigger] xs[i]).0)),
                xs[i].1,
                ys[i].1,
            ) == Seq::<ChangeView>::empty(),
    ensures
        obj_children_diffs(path, xs, ys) == Seq::<ChangeView>::empty(),
    decreases xs.len(),
{
    if xs.len() > 0 {
        assert forall|i: int| 0 <= i < xs.drop_first().len() implies spec_diff(
            path.push(PathSegView::Field((#[trigger] xs.drop_first()[i]).0)),
            xs.drop_first()[i].1,
            ys.drop_first()[i].1,
        ) == Seq::<ChangeView>::empty() by {
            assert(xs.drop_first()[i] == xs[i + 1]);
            assert(ys.drop_first()[i] == ys[i + 1]);
        }
        lemma_obj_children_all_empty(path, xs.drop_first(), ys.drop_first());
        assert(obj_children_diffs(path, xs, ys) =~= Seq::<ChangeView>::empty());
    }
}

proof fn lemma_arr_children_all_empty(
    path: Seq<PathSegView>,
    xs: Seq<ValueView>,
    ys: Seq<ValueView>,
    n: int,
)
    requires
        xs.len() == ys.len(),
        forall|i: int|
            0 <= i < xs.len() ==> spec_diff(
                path.push(PathSegView::Index(n + i)),
                #[trigger] xs[i],
                ys[i],
            ) == Seq::<ChangeView>::empty(),
    ensures
        arr_children_diffs(path, xs, ys, n) == Seq::<ChangeView>::empty(),
    decreases xs.len(),
{
    if xs.len() > 0 {
        assert(spec_diff(path.push(PathSegView::Index(n)), xs[0], ys[0]) == Seq::<
            ChangeView,
        >::empty()) by {
            assert(n + 0 == n);
        }
        assert forall|i: int| 0 <= i < xs.drop_first().len() implies spec_diff(
            path.push(PathSegView::Index(n + 1 + i)),
            #[trigger] xs.drop_first()[i],
            ys.drop_first()[i],
        ) == Seq::<ChangeView>::empty() by {
            assert(xs.drop_first()[i] == xs[i + 1]);
            assert(ys.drop_first()[i] == ys[i + 1]);
            assert(n + 1 + i == n + (i + 1));
        }
        lemma_arr_children_all_empty(path, xs.drop_first(), ys.drop_first(), n + 1);
        assert(arr_children_diffs(path, xs, ys, n) =~= Seq::<ChangeView>::empty());
    }
}

/// When every aligned entry but one diffs to nothing, the object's records
/// are exactly that one entry's records.
proof fn lemma_obj_children_single(
    path: Seq<PathSegView>,
    xs: Seq<(Seq<u8>, ValueView)>,
    ys: Seq<(Seq<u8>, ValueView)>,
    t: int,
)
    requires
        xs.len() == ys.len(),
        0 <= t < xs.len(),
        forall|i: int|
            0 <= i < xs.len() && i != t ==> spec_diff(
                path.push(PathSegView::Field((#[trigger] xs[i]).0)),
                xs[i].1,
                ys[i].1,
            ) == Seq::<ChangeView>::empty(),
    ensures
        obj_children_diffs(path, xs, ys) == spec_diff(
            path.push(PathSegView::Field(xs[t].0)),
            xs[t].1,
            ys[t].1,
        ),
    decreases xs.len(),
{
    let head = spec_diff(path.push(PathSegView::Field(xs[0].0)), xs[0].1, ys[0].1);
    if t == 0 {
        assert forall|i: int| 0 <= i < xs.drop_first().len() implies spec_diff(
            path.push(PathSegView::Field((#[trigger] xs.drop_first()[i]).0)),
            xs.drop_first()[i].1,
            ys.drop_first()[i].1,
        ) == Seq::<ChangeView>::empty() by {
            assert(xs.drop_first()[i] == xs[i + 1]);
            assert(ys.drop_first()[i] == ys[i + 1]);
        }
        lemma_obj_children_all_empty(path, xs.drop_first(), ys.drop_first());
        assert(obj_children_diffs(path, xs, ys) =~= head);
    } else {
        assert forall|i: int|
            0 <= i < xs.drop_first().len() && i != t - 1 implies spec_diff(
            path.push(PathSegView::Field((#[trigger] xs.drop_first()[i]).0)),
            xs.drop_first()[i].1,
            ys.drop_first()[i].1,
        ) == Seq::<ChangeView>::empty() by {
            assert(xs.drop_first()[i] == xs[i + 1]);
            assert(ys.drop_first()[i] == ys[i + 1]);
        }
        lemma_obj_children_single(path, xs.drop_first(), ys.drop_first(), t - 1);
        assert(xs.drop_first()[t - 1] == xs[t]);
        assert(ys.drop_first()[t - 1] == ys[t]);
        assert(obj_children_diffs(path, xs, ys) =~= spec_diff(
            path.push(PathSegView::Field(xs[t].0)),
            xs[t].1,
            ys[t].1,
        ));
    }
}

/// When every paired element but one diffs to nothing, the array's records
/// are exactly that one element's records.
proof fn lemma_arr_children_single(
    path: Seq<PathSegView>,
    xs: Seq<ValueView>,
    ys: Seq<ValueView>,
    n: int,
    t: int,
)
    requires
        xs.len() == ys.len(),
        0 <= t < xs.len(),
        forall|i: int|
            0 <= i < xs.len() && i != t ==> spec_diff(
                path.push(PathSegView::Index(n + i)),
                #[trigger] xs[i],
                ys[i],
            ) == Seq::<ChangeView>::empty(),
    ensures
        arr_children_diffs(path, xs, ys, n) == spec_diff(
            path.push(PathSegView::Index(n + t)),
            xs[t],
            ys[t],
        ),
    decreases xs.len(),
{
    let head = spec_diff(path.push(PathSegView::Index(n)), xs[0], ys[0]);
    if t == 0 {
        assert forall|i: int| 0 <= i < xs.drop_first().len() implies spec_diff(
            path.push(PathSegView::Index(n + 1 + i)),
            #[trigger] xs.drop_first()[i],
            ys.drop_first()[i],
        ) == Seq::<ChangeView>::empty() by {
            assert(xs.drop_first()[i] == xs[i + 1]);
            assert(ys.drop_first()[i] == ys[i + 1]);
            assert(n + 1 + i == n + (i + 1));
        }
        lemma_arr_children_all_empty(path, xs.drop_first(), ys.drop_first(), n + 1);
        assert(n + 0 == n);
        assert(arr_children_diffs(path, xs, ys, n) =~= head);
    } else {
        assert(head == Seq::<ChangeView>::empty()) by {
            assert(n + 0 == n);
        }
        assert forall|i: int|
            0 <= i < xs.drop_first().len() && i != t - 1 implies spec_diff(
            path.push(PathSegView::Index(n + 1 + i)),
            #[trigger] xs.drop_first()[i],
            ys.drop_first()[i],
        ) == Seq::<ChangeView>::empty() by {
            assert(xs.drop_first()[i] == xs[i + 1]);
            assert(ys.drop_first()[i] == ys[i + 1]);
            assert(n + 1 + i == n + (i + 1));
        }
        lemma_arr_children_single(path, xs.drop_first(), ys.drop_first(), n + 1, t - 1);
        assert(xs.drop_first()[t - 1] == xs[t]);
        assert(ys.drop_first()[t - 1] == ys[t]);
        assert(n + 1 + (t - 1) == n + t);
        assert(arr_children_diffs(path, xs, ys, n) =~= spec_diff(
            path.push(PathSegView::Index(n + t)),
            xs[t],
            ys[t],
        ));
    }
}

/// Exactly equal steps serialize to equal values.
proof fn lemma_step_val_exact(a: Step, b: Step)
    requires
        step_exact_eq(a, b),
    ensures
        step_val(a) == step_val(b),
{
    let e1 = seq![
        (key_keyword(), ValueView::Str(a.keyword@)),
        (key_ty(), ty_val(a.ty)),
        (key_value(), ValueView::Str(a.value@)),
        (key_span(), span_val(a.span)),
        (key_position(), position_val(a.position)),
    ];
    let e2 = seq![
        (key_keyword(), ValueView::Str(b.keyword@)),
        (key_ty(), ty_val(b.ty)),
        (key_value(), ValueView::Str(b.value@)),
        (key_span(), span_val(b.span)),
        (key_position(), position_val(b.position)),
    ];
    assert(e1 =~= e2);
}

/// Exactly equal scenarios serialize to equal values.
proof fn lemma_scenario_val_exact(a: Scenario, b: Scenario)
    requires
        scenario_exact_eq(a, b),
    ensures
        scenario_val(a) == scenario_val(b),
{
    assert(steps_val(a.steps@) =~= steps_val(b.steps@)) by {
        assert forall|i: int| 0 <= i < a.steps@.len() implies steps_val(a.steps@)[i] == steps_val(
            b.steps@,
        )[i] by {
            lemma_step_val_exact(a.steps@[i], b.steps@[i]);
        }
    }
    assert(scenario_entries(a) =~= scenario_entries(b));
    lemma_scenario_entries_aligned(a, b);
}

/// Exactly equal backgrounds serialize to equal values.
proof fn lemma_background_val_exact(a: Background, b: Background)
    requires
        background_exact_eq(a, b),
    ensures
        background_val(a) == background_val(b),
{
    assert(steps_val(a.steps@) =~= steps_val(b.steps@)) by {
        assert forall|i: int| 0 <= i < a.steps@.len() implies steps_val(a.steps@)[i] == steps_val(
            b.steps@,
        )[i] by {
            lemma_step_val_exact(a.steps@[i], b.steps@[i]);
        }
    }
    let e1 = seq![
        (key_keyword(), ValueView::Str(a.keyword@)),
        (key_name(), ValueView::Str(a.name@)),
        (key_steps(), ValueView::Arr(steps_val(a.steps@))),
        (key_span(), span_val(a.span)),
        (key_position(), position_val(a.position)),
    ];
    let e2 = seq![
        (key_keyword(), ValueView::Str(b.keyword@)),
        (key_name(), ValueView::Str(b.name@)),
        (key_steps(), ValueView::Arr(steps_val(b.steps@))),
        (key_span(), span_val(b.span)),
        (key_position(), position_val(b.position)),
    ];
    assert(e1 =~= e2);
}

/// The entry sequence of a serialized step.
pub open spec fn step_entries(s: Step) -> Seq<(Seq<u8>, ValueView)> {
    seq![
        (key_keyword(), ValueView::Str(s.keyword@)),
        (key_ty(), ty_val(s.ty)),
        (key_value(), ValueView::Str(s.value@)),
        (key_span(), span_val(s.span)),
        (key_position(), position_val(s.position)),
    ]
}

proof fn lemma_step_entries_aligned(a: Step, b: Step)
    ensures
        step_val(a) == ValueView::Obj(step_entries(a)),
        step_val(b) == ValueView::Obj(step_entries(b)),
        step_entries(a).len() == step_entries(b).len(),
        forall|i: int|
            0 <= i < step_entries(a).len() ==> (#[trigger] step_entries(a)[i]).0 == step_entries(
                b,
            )[i].0,
        keys_distinct(step_entries(a)),
{
    let e1 = step_entries(a);
    let e2 = step_entries(b);
    assert(key_keyword().len() == 7 && key_ty().len() == 2 && key_value().len() == 5 && key_span().len()
        == 4 && key_position().len() == 8);
    assert(keys_distinct(e1)) by {
        assert(e1[0].0 == key_keyword() && e1[1].0 == key_ty() && e1[2].0 == key_value() && e1[3].0
            == key_span() && e1[4].0 == key_position());
    }
    assert forall|i: int| 0 <= i < e1.len() implies (#[trigger] e1[i]).0 == e2[i].0 by {
        assert(e1[0].0 == key_keyword() && e2[0].0 == key_keyword());
        assert(e1[1].0 == key_ty() && e2[1].0 == key_ty());
        assert(e1[2].0 == key_value() && e2[2].0 == key_value());
        assert(e1[3].0 == key_span() && e2[3].0 == key_span());
        assert(e1[4].0 == key_position() && e2[4].0 == key_position());
    }
}

/// Two steps equal in everything but their value strings diff to exactly
/// one modification, under the step's `value` field.
proof fn lemma_step_value_diff(path: Seq<PathSegView>, a: Step, b: Step)
    requires
        a.keyword@ == b.keyword@,
        a.ty == b.ty,
        a.span == b.span,
        a.position == b.position,
        a.value@ != b.value@,
    ensures
        spec_diff(path, step_val(a), step_val(b)) == seq![
            ChangeView::Modified(
                path.push(PathSegView::Field(key_value())),
                ValueView::Str(a.value@),
                ValueView::Str(b.value@),
            ),
        ],
{
    let e1 = step_entries(a);
    let e2 = step_entries(b);
    lemma_step_entries_aligned(a, b);
    lemma_diff_obj_aligned(path, e1, e2);
    assert forall|i: int| 0 <= i < e1.len() && i != 2 implies spec_diff(
        path.push(PathSegView::Field((#[trigger] e1[i]).0)),
        e1[i].1,
        e2[i].1,
    ) == Seq::<ChangeView>::empty() by {
        if i == 0 {
            assert(e1[0].1 == e2[0].1);
            lemma_value_refl(path.push(PathSegView::Field(key_keyword())), e1[0].1);
        } else if i == 1 {
            assert(e1[1].1 == e2[1].1);
            assert(value_keys_distinct(e1[1].1)) by {
                match a.ty {
                    StepType::Given => assert(ty_val(a.ty) is Str),
                    StepType::When => assert(ty_val(a.ty) is Str),
                    StepType::Then => assert(ty_val(a.ty) is Str),
                }
            }
            lemma_value_refl(path.push(PathSegView::Field(key_ty())), e1[1].1);
        } else if i == 3 {
            assert(e1[3].1 == e2[3].1);
            lemma_span_val_wf(a.span);
            lemma_value_refl(path.push(PathSegView::Field(key_span())), e1[3].1);
        } else if i == 4 {
            assert(e1[4].1 == e2[4].1);
            lemma_position_val_wf(a.position);
            lemma_value_refl(path.push(PathSegView::Field(key_position())), e1[4].1);
        }
    }
    lemma_obj_children_single(path, e1, e2, 2);
    let p2 = path.push(PathSegView::Field(key_value()));
    assert(e1[2].1 == ValueView::Str(a.value@) && e2[2].1 == ValueView::Str(b.value@));
    assert(ValueView::Str(a.value@) != ValueView::Str(b.value@));
    assert(spec_diff(p2, e1[2].1, e2[2].1) == seq![
        ChangeView::Modified(p2, ValueView::Str(a.value@), ValueView::Str(b.value@)),
    ]);
}

/// Content-sensitivity law: change one step's value string in an otherwise
/// byte-identical feature — counts, positions, paths all equal — and the
/// walk rejects the pair, while the generic diff reports exactly one
/// modification, under the step's `value` field, which no denylist excuses.
pub proof fn lemma_content_sensitive(a: Feature, b: Feature, j: int, t: int)
    requires
        a.keyword@ == b.keyword@,
        a.name@ == b.name@,
        opt_bytes_eq(a.description, b.description),
        opt_background_exact_eq(a.background, b.background),
        a.span == b.span,
        a.position == b.position,
        opt_bytes_eq(a.path, b.path),
        a.scenarios@.len() == b.scenarios@.len(),
        0 <= j < a.scenarios@.len(),
        forall|i: int|
            0 <= i < a.scenarios@.len() && i != j ==> scenario_exact_eq(
                #[trigger] a.scenarios@[i],
                b.scenarios@[i],
            ),
        a.scenarios@[j].keyword@ == b.scenarios@[j].keyword@,
        a.scenarios@[j].name@ == b.scenarios@[j].name@,
        a.scenarios@[j].span == b.scenarios@[j].span,
        a.scenarios@[j].position == b.scenarios@[j].position,
        a.scenarios@[j].steps@.len() == b.scenarios@[j].steps@.len(),
        0 <= t < a.scenarios@[j].steps@.len(),
        forall|i: int|
            0 <= i < a.scenarios@[j].steps@.len() && i != t ==> step_exact_eq(
                #[trigger] a.scenarios@[j].steps@[i],
                b.scenarios@[j].steps@[i],
            ),
        a.scenarios@[j].steps@[t].keyword@ == b.scenarios@[j].steps@[t].keyword@,
        a.scenarios@[j].steps@[t].ty == b.scenarios@[j].steps@[t].ty,
        a.scenarios@[j].steps@[t].span == b.scenarios@[j].steps@[t].span,
        a.scenarios@[j].steps@[t].position == b.scenarios@[j].steps@[t].position,
        a.scenarios@[j].steps@[t].value@ != b.scenarios@[j].steps@[t].value@,
    ensures
        spec_diff(Seq::empty(), feature_val(a), feature_val(b)) == seq![
            ChangeView::Modified(
                Seq::empty().push(PathSegView::Field(key_scenarios())).push(
                    PathSegView::Index(j),
                ).push(PathSegView::Field(key_steps())).push(PathSegView::Index(t)).push(
                    PathSegView::Field(key_value()),
                ),
                ValueView::Str(a.scenarios@[j].steps@[t].value@),
                ValueView::Str(b.scenarios@[j].steps@[t].value@),
            ),
        ],
        change_relevant(spec_diff(Seq::empty(), feature_val(a), feature_val(b))[0]),
        !all_changes_irrelevant(spec_diff(Seq::empty(), feature_val(a), feature_val(b))),
        !feature_approx_eq(a, b),
{
    let path = Seq::<PathSegView>::empty();
    let e1 = feature_entries(a);
    let e2 = feature_entries(b);
    lemma_feature_entries_aligned(a, b);
    lemma_diff_obj_aligned(path, e1, e2);
    // every feature entry but the scenarios diffs to nothing
    assert forall|i: int| 0 <= i < e1.len() && i != 4 implies spec_diff(
        path.push(PathSegView::Field((#[trigger] e1[i]).0)),
        e1[i].1,
        e2[i].1,
    ) == Seq::<ChangeView>::empty() by {
        if i == 0 {
            assert(e1[0].1 == e2[0].1);
            lemma_value_refl(path.push(PathSegView::Field(key_keyword())), e1[0].1);
        } else if i == 1 {
            assert(e1[1].1 == e2[1].1);
            lemma_value_refl(path.push(PathSegView::Field(key_name())), e1[1].1);
        } else if i == 2 {
            assert(e1[2].1 == e2[2].1) by {
                match (a.description, b.description) {
                    (Option::Some(x), Option::Some(y)) => {
                        assert(x@ == y@);
                    },
                    _ => {},
                }
            }
            assert(value_keys_distinct(e1[2].1)) by {
                match a.description {
                    Option::None => assert(opt_str_val(a.description) is Null),
                    Option::Some(d) => assert(opt_str_val(a.description) is Str),
                }
            }
            lemma_value_refl(path.push(PathSegView::Field(key_description())), e1[2].1);
        } else if i == 3 {
            assert(e1[3].1 == e2[3].1) by {
                match (a.background, b.background) {
                    (Option::Some(x), Option::Some(y)) => {
                        lemma_background_val_exact(x, y);
                    },
                    _ => {},
                }
            }
            assert(value_keys_distinct(e1[3].1)) by {
                match a.background {
                    Option::None => assert(opt_background_val(a.background) is Null),
                    Option::Some(x) => lemma_background_val_wf(x),
                }
            }
            lemma_value_refl(path.push(PathSegView::Field(key_background())), e1[3].1);
        } else if i == 5 {
            assert(e1[5].1 == e2[5].1);
            lemma_span_val_wf(a.span);
            lemma_value_refl(path.push(PathSegView::Field(key_span())), e1[5].1);
        } else if i == 6 {
            assert(e1[6].1 == e2[6].1);
            lemma_position_val_wf(a.position);
            lemma_value_refl(path.push(PathSegView::Field(key_position())), e1[6].1);
        } else if i == 7 {
            assert(e1[7].1 == e2[7].1) by {
                match (a.path, b.path) {
                    (Option::Some(x), Option::Some(y)) => {
                        assert(x@ == y@);
                    },
                    _ => {},
                }
            }
            assert(value_keys_distinct(e1[7].1)) by {
                match a.path {
                    Option::None => assert(opt_str_val(a.path) is Null),
                    Option::Some(p) => assert(opt_str_val(a.path) is Str),
                }
            }
            lemma_value_refl(path.push(PathSegView::Field(key_path())), e1[7].1);
        }
    }
    lemma_obj_children_single(path, e1, e2, 4);
    // the scenarios arrays differ only at scenario j
    let p4 = path.push(PathSegView::Field(key_scenarios()));
    let x = scenarios_val(a.scenarios@);
    let y = scenarios_val(b.scenarios@);
    assert(spec_diff(p4, e1[4].1, e2[4].1) == spec_diff_arr(p4, x, y, 0));
    lemma_diff_arr_aligned(p4, x, y, 0);
    assert forall|i: int| 0 <= i < x.len() && i != j implies spec_diff(
        p4.push(PathSegView::Index(0 + i)),
        #[trigger] x[i],
        y[i],
    ) == Seq::<ChangeView>::empty() by {
        assert(x[i] == scenario_val(a.scenarios@[i]));
        assert(y[i] == scenario_val(b.scenarios@[i]));
        lemma_scenario_val_exact(a.scenarios@[i], b.scenarios@[i]);
        lemma_scenario_val_wf(a.scenarios@[i]);
        lemma_value_refl(p4.push(PathSegView::Index(0 + i)), x[i]);
    }
    lemma_arr_children_single(p4, x, y, 0, j);
    // the differing scenario differs only in its steps
    let pj = p4.push(PathSegView::Index(j));
    let sa = a.scenarios@[j];
    let sb = b.scenarios@[j];
    assert(x[j] == scenario_val(sa) && y[j] == scenario_val(sb));
    let f1 = scenario_entries(sa);
    let f2 = scenario_entries(sb);
    lemma_scenario_entries_aligned(sa, sb);
    lemma_diff_obj_aligned(pj, f1, f2);
    assert forall|i: int| 0 <= i < f1.len() && i != 2 implies spec_diff(
        pj.push(PathSegView::Field((#[trigger] f1[i]).0)),
        f1[i].1,
        f2[i].1,
    ) == Seq::<ChangeView>::empty() by {
        if i == 0 {
            assert(f1[0].1 == f2[0].1);
            lemma_value_refl(pj.push(PathSegView::Field(key_keyword())), f1[0].1);
        } else if i == 1 {
            assert(f1[1].1 == f2[1].1);
            lemma_value_refl(pj.push(PathSegView::Field(key_name())), f1[1].1);
        } else if i == 3 {
            assert(f1[3].1 == f2[3].1);
            lemma_span_val_wf(sa.span);
            lemma_value_refl(pj.push(PathSegView::Field(key_span())), f1[3].1);
        } else if i == 4 {
            assert(f1[4].1 == f2[4].1);
            lemma_position_val_wf(sa.position);
            lemma_value_refl(pj.push(PathSegView::Field(key_position())), f1[4].1);
        }
    }
    lemma_obj_children_single(pj, f1, f2, 2);
    // the step arrays differ only at step t
    let ps = pj.push(PathSegView::Field(key_steps()));
    let sx = steps_val(sa.steps@);
    let sy = steps_val(sb.steps@);
    assert(spec_diff(ps, f1[2].1, f2[2].1) == spec_diff_arr(ps, sx, sy, 0));
    lemma_diff_arr_aligned(ps, sx, sy, 0);
    assert forall|i: int| 0 <= i < sx.len() && i != t implies spec_diff(
        ps.push(PathSegView::Index(0 + i)),
        #[trigger] sx[i],
        sy[i],
    ) == Seq::<ChangeView>::empty() by {
        assert(sx[i] == step_val(sa.steps@[i]));
        assert(sy[i] == step_val(sb.steps@[i]));
        lemma_step_val_exact(sa.steps@[i], sb.steps@[i]);
        lemma_step_val_wf(sa.steps@[i]);
        lemma_value_refl(ps.push(PathSegView::Index(0 + i)), sx[i]);
    }
    lemma_arr_children_single(ps, sx, sy, 0, t);
    // the differing step differs only in its value
    let pt = ps.push(PathSegView::Index(t));
    assert(sx[t] == step_val(sa.steps@[t]) && sy[t] == step_val(sb.steps@[t]));
    lemma_step_value_diff(pt, sa.steps@[t], sb.steps@[t]);
    assert(0 + j == j && 0 + t == t);
    // the single surviving record is relevant: `value` is not denylisted
    let cs = spec_diff(Seq::empty(), feature_val(a), feature_val(b));
    let pfull = pt.push(PathSegView::Field(key_value()));
    assert(cs == seq![
        ChangeView::Modified(
            pfull,
            ValueView::Str(sa.steps@[t].value@),
            ValueView::Str(sb.steps@[t].value@),
        ),
    ]);
    assert(!denylisted_key(key_value())) by {
        assert(key_value().len() == 5 && key_path().len() == 4 && key_line().len() == 4
            && key_col().len() == 3 && key_end().len() == 3 && key_start().len() == 5);
        assert(key_value() != key_start()) by {
            assert(key_value()[0] == 'v' as u8);
            assert(key_start()[0] == 's' as u8);
        }
    }
    assert(pfull.last() == PathSegView::Field(key_value()));
    assert(change_relevant(cs[0]));
    assert(!feature_approx_eq(a, b)) by {
        if feature_approx_eq(a, b) {
            assert(scenario_content_eq(a.scenarios@[j], b.scenarios@[j]));
            assert(step_content_eq(a.scenarios@[j].steps@[t], b.scenarios@[j].steps@[t]));
        }
    }
}

} // verus!
