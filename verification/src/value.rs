//! A generic ordered key/value tree and a structural differ over it. The
//! differ walks two trees node by node and classifies every difference as
//! added, removed or modified, carrying the path from the root to the
//! differing node; a relevance filter then excuses modifications whose last
//! path segment is one of the positional field names.

use crate::feature::bytes_eq;
use vstd::prelude::*;

verus! {

broadcast use vstd::std_specs::vec::group_vec_axioms;

/// A generic ordered tree value: the serialized form of a specification
/// tree. Object entries keep their serialization order.
#[derive(Debug)]
pub enum Value {
    Null,
    UInt(u64),
    Str(Vec<u8>),
    Arr(Vec<Value>),
    Obj(Vec<(Vec<u8>, Value)>),
}

/// The mathematical shape of a `Value`.
pub enum ValueView {
    Null,
    UInt(u64),
    Str(Seq<u8>),
    Arr(Seq<ValueView>),
    Obj(Seq<(Seq<u8>, ValueView)>),
}

/// The mathematical shapes of an array's elements.
pub open spec fn elems_view(xs: Seq<Value>) -> Seq<ValueView>
    decreases xs,
{
    Seq::new(
        xs.len(),
        |i: int|
            if 0 <= i < xs.len() {
                value_view(xs[i])
            } else {
                ValueView::Null
            },
    )
}

/// The mathematical shapes of an object's entries.
pub open spec fn entries_view(xs: Seq<(Vec<u8>, Value)>) -> Seq<(Seq<u8>, ValueView)>
    decreases xs,
{
    Seq::new(
        xs.len(),
        |i: int|
            if 0 <= i < xs.len() {
                (xs[i].0@, value_view(xs[i].1))
            } else {
                (Seq::empty(), ValueView::Null)
            },
    )
}

/// The mathematical shape of a `Value`, recursively.
pub open spec fn value_view(v: Value) -> ValueView
    decreases v,
{
    match v {
        Value::Null => ValueView::Null,
        Value::UInt(x) => ValueView::UInt(x),
        Value::Str(s) => ValueView::Str(s@),
        Value::Arr(xs) => ValueView::Arr(elems_view(xs@)),
        Value::Obj(xs) => ValueView::Obj(entries_view(xs@)),
    }
}

impl View for Value {
    type V = ValueView;

    open spec fn view(&self) -> ValueView {
        value_view(*self)
    }
}

/// One segment of a path from the tree root to a node: an object field name
/// or an array index.
#[derive(Debug)]
pub enum PathSeg {
    Field(Vec<u8>),
    Index(usize),
}

/// The mathematical shape of a path segment.
pub enum PathSegView {
    Field(Seq<u8>),
    Index(int),
}

impl View for PathSeg {
    type V = PathSegView;

    open spec fn view(&self) -> PathSegView {
        match self {
            PathSeg::Field(k) => PathSegView::Field(k@),
            PathSeg::Index(i) => PathSegView::Index(*i as int),
        }
    }
}

/// One classified difference between two trees: a node added on the right,
/// removed from the left, or modified, with the path from the root to it;
/// a modification carries the two differing values.
#[derive(Debug)]
pub enum ChangeRecord {
    Added(Vec<PathSeg>),
    Removed(Vec<PathSeg>),
    Modified(Vec<PathSeg>, Value, Value),
}

/// The mathematical shape of a change record.
pub enum ChangeView {
    Added(Seq<PathSegView>),
    Removed(Seq<PathSegView>),
    Modified(Seq<PathSegView>, ValueView, ValueView),
}

/// The mathematical shape of a path.
pub open spec fn path_view(p: Vec<PathSeg>) -> Seq<PathSegView> {
    Seq::new(p@.len(), |i: int| p@[i]@)
}

impl View for ChangeRecord {
    type V = ChangeView;

    open spec fn view(&self) -> ChangeView {
        match self {
            ChangeRecord::Added(p) => ChangeView::Added(path_view(*p)),
            ChangeRecord::Removed(p) => ChangeView::Removed(path_view(*p)),
            ChangeRecord::Modified(p, a, b) => ChangeView::Modified(
                path_view(*p),
                value_view(*a),
                value_view(*b),
            ),
        }
    }
}

/// The serialized field name `keyword`.
pub open spec fn key_keyword() -> Seq<u8> {
    seq!['k' as u8, 'e' as u8, 'y' as u8, 'w' as u8, 'o' as u8, 'r' as u8, 'd' as u8]
}

/// The serialized field name `name`.
pub open spec fn key_name() -> Seq<u8> {
    seq!['n' as u8, 'a' as u8, 'm' as u8, 'e' as u8]
}

/// The serialized field name `description`.
pub open spec fn key_description() -> Seq<u8> {
    seq!['d' as u8, 'e' as u8, 's' as u8, 'c' as u8, 'r' as u8, 'i' as u8, 'p' as u8, 't' as u8, 'i' as u8, 'o' as u8, 'n' as u8]
}

/// The serialized field name `background`.
pub open spec fn key_background() -> Seq<u8> {
    seq!['b' as u8, 'a' as u8, 'c' as u8, 'k' as u8, 'g' as u8, 'r' as u8, 'o' as u8, 'u' as u8, 'n' as u8, 'd' as u8]
}

/// The serialized field name `scenarios`.
pub open spec fn key_scenarios() -> Seq<u8> {
    seq!['s' as u8, 'c' as u8, 'e' as u8, 'n' as u8, 'a' as u8, 'r' as u8, 'i' as u8, 'o' as u8, 's' as u8]
}

/// The serialized field name `steps`.
pub open spec fn key_steps() -> Seq<u8> {
    seq!['s' as u8, 't' as u8, 'e' as u8, 'p' as u8, 's' as u8]
}

/// The serialized field name `ty`.
pub open spec fn key_ty() -> Seq<u8> {
    seq!['t' as u8, 'y' as u8]
}

/// The serialized field name `value`.
pub open spec fn key_value() -> Seq<u8> {
    seq!['v' as u8, 'a' as u8, 'l' as u8, 'u' as u8, 'e' as u8]
}

/// The serialized field name `span`.
pub open spec fn key_span() -> Seq<u8> {
    seq!['s' as u8, 'p' as u8, 'a' as u8, 'n' as u8]
}

/// The serialized field name `position`.
pub open spec fn key_position() -> Seq<u8> {
    seq!['p' as u8, 'o' as u8, 's' as u8, 'i' as u8, 't' as u8, 'i' as u8, 'o' as u8, 'n' as u8]
}

/// The serialized field name `start`.
pub open spec fn key_start() -> Seq<u8> {
    seq!['s' as u8, 't' as u8, 'a' as u8, 'r' as u8, 't' as u8]
}

/// The serialized field name `end`.
pub open spec fn key_end() -> Seq<u8> {
    seq!['e' as u8, 'n' as u8, 'd' as u8]
}

/// The serialized field name `line`.
pub open spec fn key_line() -> Seq<u8> {
    seq!['l' as u8, 'i' as u8, 'n' as u8, 'e' as u8]
}

/// The serialized field name `col`.
pub open spec fn key_col() -> Seq<u8> {
    seq!['c' as u8, 'o' as u8, 'l' as u8]
}

/// The serialized field name `path`.
pub open spec fn key_path() -> Seq<u8> {
    seq!['p' as u8, 'a' as u8, 't' as u8, 'h' as u8]
}

/// The serialized spelling of the `Given` step classification.
pub open spec fn ty_given() -> Seq<u8> {
    seq!['G' as u8, 'i' as u8, 'v' as u8, 'e' as u8, 'n' as u8]
}

/// The serialized spelling of the `When` step classification.
pub open spec fn ty_when() -> Seq<u8> {
    seq!['W' as u8, 'h' as u8, 'e' as u8, 'n' as u8]
}

/// The serialized spelling of the `Then` step classification.
pub open spec fn ty_then() -> Seq<u8> {
    seq!['T' as u8, 'h' as u8, 'e' as u8, 'n' as u8]
}

pub(crate) fn mk_key_keyword() -> (r: Vec<u8>)
    ensures
        r@ == key_keyword(),
{
    let mut r: Vec<u8> = Vec::new();
    r.push('k' as u8);
    r.push('e' as u8);
    r.push('y' as u8);
    r.push('w' as u8);
    r.push('o' as u8);
    r.push('r' as u8);
    r.push('d' as u8);
    proof { assert(r@ =~= key_keyword()); }
    r
}

pub(crate) fn mk_key_name() -> (r: Vec<u8>)
    ensures
        r@ == key_name(),
{
    let mut r: Vec<u8> = Vec::new();
    r.push('n' as u8);
    r.push('a' as u8);
    r.push('m' as u8);
    r.push('e' as u8);
    proof { assert(r@ =~= key_name()); }
    r
}

pub(crate) fn mk_key_description() -> (r: Vec<u8>)
    ensures
        r@ == key_description(),
{
    let mut r: Vec<u8> = Vec::new();
    r.push('d' as u8);
    r.push('e' as u8);
    r.push('s' as u8);
    r.push('c' as u8);
    r.push('r' as u8);
    r.push('i' as u8);
    r.push('p' as u8);
    r.push('t' as u8);
    r.push('i' as u8);
    r.push('o' as u8);
    r.push('n' as u8);
    proof { assert(r@ =~= key_description()); }
    r
}

pub(crate) fn mk_key_background() -> (r: Vec<u8>)
    ensures
        r@ == key_background(),
{
    let mut r: Vec<u8> = Vec::new();
    r.push('b' as u8);
    r.push('a' as u8);
    r.push('c' as u8);
    r.push('k' as u8);
    r.push('g' as u8);
    r.push('r' as u8);
    r.push('o' as u8);
    r.push('u' as u8);
    r.push('n' as u8);
    r.push('d' as u8);
    proof { assert(r@ =~= key_background()); }
    r
}

pub(crate) fn mk_key_scenarios() -> (r: Vec<u8>)
    ensures
        r@ == key_scenarios(),
{
    let mut r: Vec<u8> = Vec::new();
    r.push('s' as u8);
    r.push('c' as u8);
    r.push('e' as u8);
    r.push('n' as u8);
    r.push('a' as u8);
    r.push('r' as u8);
    r.push('i' as u8);
    r.push('o' as u8);
    r.push('s' as u8);
    proof { assert(r@ =~= key_scenarios()); }
    r
}

pub(crate) fn mk_key_steps() -> (r: Vec<u8>)
    ensures
        r@ == key_steps(),
{
    let mut r: Vec<u8> = Vec::new();
    r.push('s' as u8);
    r.push('t' as u8);
    r.push('e' as u8);
    r.push('p' as u8);
    r.push('s' as u8);
    proof { assert(r@ =~= key_steps()); }
    r
}

pub(crate) fn mk_key_ty() -> (r: Vec<u8>)
    ensures
        r@ == key_ty(),
{
    let mut r: Vec<u8> = Vec::new();
    r.push('t' as u8);
    r.push('y' as u8);
    proof { assert(r@ =~= key_ty()); }
    r
}

pub(crate) fn mk_key_value() -> (r: Vec<u8>)
    ensures
        r@ == key_value(),
{
    let mut r: Vec<u8> = Vec::new();
    r.push('v' as u8);
    r.push('a' as u8);
    r.push('l' as u8);
    r.push('u' as u8);
    r.push('e' as u8);
    proof { assert(r@ =~= key_value()); }
    r
}

pub(crate) fn mk_key_span() -> (r: Vec<u8>)
    ensures
        r@ == key_span(),
{
    let mut r: Vec<u8> = Vec::new();
    r.push('s' as u8);
    r.push('p' as u8);
    r.push('a' as u8);
    r.push('n' as u8);
    proof { assert(r@ =~= key_span()); }
    r
}

pub(crate) fn mk_key_position() -> (r: Vec<u8>)
    ensures
        r@ == key_position(),
{
    let mut r: Vec<u8> = Vec::new();
    r.push('p' as u8);
    r.push('o' as u8);
    r.push('s' as u8);
    r.push('i' as u8);
    r.push('t' as u8);
    r.push('i' as u8);
    r.push('o' as u8);
    r.push('n' as u8);
    proof { assert(r@ =~= key_position()); }
    r
}

pub(crate) fn mk_key_start() -> (r: Vec<u8>)
    ensures
        r@ == key_start(),
{
    let mut r: Vec<u8> = Vec::new();
    r.push('s' as u8);
    r.push('t' as u8);
    r.push('a' as u8);
    r.push('r' as u8);
    r.push('t' as u8);
    proof { assert(r@ =~= key_start()); }
    r
}

pub(crate) fn mk_key_end() -> (r: Vec<u8>)
    ensures
        r@ == key_end(),
{
    let mut r: Vec<u8> = Vec::new();
    r.push('e' as u8);
    r.push('n' as u8);
    r.push('d' as u8);
    proof { assert(r@ =~= key_end()); }
    r
}

pub(crate) fn mk_key_line() -> (r: Vec<u8>)
    ensures
        r@ == key_line(),
{
    let mut r: Vec<u8> = Vec::new();
    r.push('l' as u8);
    r.push('i' as u8);
    r.push('n' as u8);
    r.push('e' as u8);
    proof { assert(r@ =~= key_line()); }
    r
}

pub(crate) fn mk_key_col() -> (r: Vec<u8>)
    ensures
        r@ == key_col(),
{
    let mut r: Vec<u8> = Vec::new();
    r.push('c' as u8);
    r.push('o' as u8);
    r.push('l' as u8);
    proof { assert(r@ =~= key_col()); }
    r
}

pub(crate) fn mk_key_path() -> (r: Vec<u8>)
    ensures
        r@ == key_path(),
{
    let mut r: Vec<u8> = Vec::new();
    r.push('p' as u8);
    r.push('a' as u8);
    r.push('t' as u8);
    r.push('h' as u8);
    proof { assert(r@ =~= key_path()); }
    r
}

pub(crate) fn mk_ty_given() -> (r: Vec<u8>)
    ensures
        r@ == ty_given(),
{
    let mut r: Vec<u8> = Vec::new();
    r.push('G' as u8);
    r.push('i' as u8);
    r.push('v' as u8);
    r.push('e' as u8);
    r.push('n' as u8);
    proof { assert(r@ =~= ty_given()); }
    r
}

pub(crate) fn mk_ty_when() -> (r: Vec<u8>)
    ensures
        r@ == ty_when(),
{
    let mut r: Vec<u8> = Vec::new();
    r.push('W' as u8);
    r.push('h' as u8);
    r.push('e' as u8);
    r.push('n' as u8);
    proof { assert(r@ =~= ty_when()); }
    r
}

pub(crate) fn mk_ty_then() -> (r: Vec<u8>)
    ensures
        r@ == ty_then(),
{
    let mut r: Vec<u8> = Vec::new();
    r.push('T' as u8);
    r.push('h' as u8);
    r.push('e' as u8);
    r.push('n' as u8);
    proof { assert(r@ =~= ty_then()); }
    r
}


/// Some object entry binds key `k`.
pub open spec fn obj_has_key(xs: Seq<(Seq<u8>, ValueView)>, k: Seq<u8>) -> bool {
    exists|i: int| 0 <= i < xs.len() && (#[trigger] xs[i]).0 == k
}

/// The first value an object binds to key `k`; `Null` when none.
pub open spec fn obj_get(xs: Seq<(Seq<u8>, ValueView)>, k: Seq<u8>) -> ValueView
    decreases xs.len(),
{
    if xs.len() == 0 {
        ValueView::Null
    } else if xs[0].0 == k {
        xs[0].1
    } else {
        obj_get(xs.drop_first(), k)
    }
}

/// The ordered change records between two trees at a node reached by
/// `path`. Two objects are compared key by key, two arrays index by index
/// with extra elements added or removed; anything else is one modification
/// unless the values are equal.
pub open spec fn spec_diff(path: Seq<PathSegView>, a: ValueView, b: ValueView) -> Seq<ChangeView>
    decreases a, b, 0int,
{
    match (a, b) {
        (ValueView::Obj(xs), ValueView::Obj(ys)) => spec_diff_obj(path, xs, ys) + spec_obj_added(
            path,
            xs,
            ys,
        ),
        (ValueView::Arr(xs), ValueView::Arr(ys)) => spec_diff_arr(path, xs, ys, 0),
        _ => if a == b {
            Seq::empty()
        } else {
            seq![ChangeView::Modified(path, a, b)]
        },
    }
}

/// The records for the left object's entries: recurse where the right
/// object also binds the key, record a removal where it does not.
pub open spec fn spec_diff_obj(
    path: Seq<PathSegView>,
    xs: Seq<(Seq<u8>, ValueView)>,
    ys: Seq<(Seq<u8>, ValueView)>,
) -> Seq<ChangeView>
    decreases xs, ys, 1int,
{
    if xs.len() == 0 {
        Seq::empty()
    } else {
        let k = xs[0].0;
        let head: Seq<ChangeView> = if obj_has_key(ys, k) {
            spec_diff(path.push(PathSegView::Field(k)), xs[0].1, obj_get(ys, k))
        } else {
            seq![ChangeView::Removed(path.push(PathSegView::Field(k)))]
        };
        head + spec_diff_obj(path, xs.drop_first(), ys)
    }
}

/// The additions for the right object's entries whose keys the left object
/// does not bind.
pub open spec fn spec_obj_added(
    path: Seq<PathSegView>,
    xs: Seq<(Seq<u8>, ValueView)>,
    ys: Seq<(Seq<u8>, ValueView)>,
) -> Seq<ChangeView>
    decreases ys.len(),
{
    if ys.len() == 0 {
        Seq::empty()
    } else {
        let head: Seq<ChangeView> = if obj_has_key(xs, ys[0].0) {
            Seq::empty()
        } else {
            seq![ChangeView::Added(path.push(PathSegView::Field(ys[0].0)))]
        };
        head + spec_obj_added(path, xs, ys.drop_first())
    }
}

/// The records for two arrays, from element index `n` on: recurse on paired
/// elements, record an addition or removal for every unpaired one.
pub open spec fn spec_diff_arr(
    path: Seq<PathSegView>,
    xs: Seq<ValueView>,
    ys: Seq<ValueView>,
    n: int,
) -> Seq<ChangeView>
    decreases xs, ys, 1int,
{
    if xs.len() == 0 && ys.len() == 0 {
        Seq::empty()
    } else if xs.len() == 0 {
        seq![ChangeView::Added(path.push(PathSegView::Index(n)))] + spec_diff_arr(
            path,
            xs,
            ys.drop_first(),
            n + 1,
        )
    } else if ys.len() == 0 {
        seq![ChangeView::Removed(path.push(PathSegView::Index(n)))] + spec_diff_arr(
            path,
            xs.drop_first(),
            ys,
            n + 1,
        )
    } else {
        spec_diff(path.push(PathSegView::Index(n)), xs[0], ys[0]) + spec_diff_arr(
            path,
            xs.drop_first(),
            ys.drop_first(),
            n + 1,
        )
    }
}

/// The positional field names whose modifications are excused: source path,
/// line, column, and the two ends of a byte span.
pub open spec fn denylisted_key(k: Seq<u8>) -> bool {
    k == key_path() || k == key_line() || k == key_col() || k == key_end() || k == key_start()
}

/// A change that matters: anything added or removed, and any modification
/// whose path does not end in a positional field name.
pub open spec fn change_relevant(c: ChangeView) -> bool {
    match c {
        ChangeView::Added(_) => true,
        ChangeView::Removed(_) => true,
        ChangeView::Modified(path, _, _) => if path.len() == 0 {
            true
        } else {
            match path.last() {
                PathSegView::Field(k) => !denylisted_key(k),
                PathSegView::Index(_) => true,
            }
        },
    }
}

/// No change in the sequence matters: the two trees are equivalent.
pub open spec fn all_changes_irrelevant(cs: Seq<ChangeView>) -> bool {
    forall|i: int| 0 <= i < cs.len() ==> !change_relevant(#[trigger] cs[i])
}

/// The mathematical shapes of a sequence of change records.
pub open spec fn changes_view(cs: Seq<ChangeRecord>) -> Seq<ChangeView> {
    Seq::new(cs.len(), |i: int| cs[i]@)
}

fn clone_bytes(v: &Vec<u8>) -> (r: Vec<u8>)
    ensures
        r@ == v@,
{
    let mut r: Vec<u8> = Vec::new();
    let mut i: usize = 0;
    while i < v.len()
        invariant
            i <= v@.len(),
            r@ == v@.take(i as int),
        decreases v@.len() - i,
    {
        r.push(v[i]);
        i += 1;
        proof {
            assert(v@.take(i as int) =~= v@.take(i - 1).push(v@[i - 1]));
        }
    }
    proof {
        assert(v@.take(v@.len() as int) =~= v@);
    }
    r
}

/// Copies a path and appends one segment: the path of a child node.
fn path_with(path: &Vec<PathSeg>, seg: PathSeg) -> (r: Vec<PathSeg>)
    ensures
        path_view(r) == path_view(*path).push(seg@),
{
    let mut r: Vec<PathSeg> = Vec::new();
    let mut i: usize = 0;
    while i < path.len()
        invariant
            i <= path@.len(),
            r@.len() == i,
            forall|j: int| 0 <= j < i ==> r@[j]@ == path@[j]@,
        decreases path@.len() - i,
    {
        let s = match &path[i] {
            PathSeg::Field(k) => PathSeg::Field(clone_bytes(k)),
            PathSeg::Index(n) => PathSeg::Index(*n),
        };
        r.push(s);
        i += 1;
    }
    let ghost seg_v = seg@;
    r.push(seg);
    proof {
        assert(path_view(r) =~= path_view(*path).push(seg_v));
    }
    r
}

fn clone_path(path: &Vec<PathSeg>) -> (r: Vec<PathSeg>)
    ensures
        path_view(r) == path_view(*path),
{
    let mut r: Vec<PathSeg> = Vec::new();
    let mut i: usize = 0;
    while i < path.len()
        invariant
            i <= path@.len(),
            r@.len() == i,
            forall|j: int| 0 <= j < i ==> r@[j]@ == path@[j]@,
        decreases path@.len() - i,
    {
        let s = match &path[i] {
            PathSeg::Field(k) => PathSeg::Field(clone_bytes(k)),
            PathSeg::Index(n) => PathSeg::Index(*n),
        };
        r.push(s);
        i += 1;
    }
    proof {
        assert(path_view(r) =~= path_view(*path));
    }
    r
}

/// Copies a tree value, shape and contents.
#[verifier::loop_isolation(false)]
fn clone_value(v: &Value) -> (r: Value)
    ensures
        r@ == v@,
    decreases *v,
{
    match v {
        Value::Null => Value::Null,
        Value::UInt(x) => Value::UInt(*x),
        Value::Str(s) => Value::Str(clone_bytes(s)),
        Value::Arr(xs) => {
            let mut out: Vec<Value> = Vec::new();
            let mut i: usize = 0;
            while i < xs.len()
                invariant
                    i <= xs@.len(),
                    out@.len() == i,
                    forall|j: int| 0 <= j < i ==> (#[trigger] out@[j])@ == xs@[j]@,
                decreases xs@.len() - i,
            {
                proof {
                    assert(decreases_to!(*v => *xs));
                    assert(decreases_to!(*xs => xs@[i as int]));
                }
                out.push(clone_value(&xs[i]));
                i += 1;
            }
            proof {
                assert(elems_view(out@) =~= elems_view(xs@));
            }
            Value::Arr(out)
        },
        Value::Obj(xs) => {
            let mut out: Vec<(Vec<u8>, Value)> = Vec::new();
            let mut i: usize = 0;
            while i < xs.len()
                invariant
                    i <= xs@.len(),
                    out@.len() == i,
                    forall|j: int|
                        0 <= j < i ==> (#[trigger] out@[j]).0@ == xs@[j].0@ && out@[j].1@
                            == xs@[j].1@,
                decreases xs@.len() - i,
            {
                proof {
                    assert(decreases_to!(*v => *xs));
                    assert(decreases_to!(*xs => xs@[i as int]));
                    assert(decreases_to!(xs@[i as int] => xs@[i as int].1));
                }
                let entry = &xs[i];
                out.push((clone_bytes(&entry.0), clone_value(&entry.1)));
                i += 1;
            }
            proof {
                assert(entries_view(out@) =~= entries_view(xs@));
            }
            Value::Obj(out)
        },
    }
}

fn is_denylisted(k: &Vec<u8>) -> (r: bool)
    ensures
        r == denylisted_key(k@),
{
    let kp = mk_key_path();
    let kl = mk_key_line();
    let kc = mk_key_col();
    let ke = mk_key_end();
    let ks = mk_key_start();
    bytes_eq(k, &kp) || bytes_eq(k, &kl) || bytes_eq(k, &kc) || bytes_eq(k, &ke) || bytes_eq(
        k,
        &ks,
    )
}

/// Does a change record matter for equivalence? Additions and removals
/// always do; a modification does unless its path ends in one of the
/// positional field names.
pub fn is_relevant_change(change: &ChangeRecord) -> (r: bool)
    ensures
        r == change_relevant(change@),
{
    match change {
        ChangeRecord::Added(_) => true,
        ChangeRecord::Removed(_) => true,
        ChangeRecord::Modified(path, _, _) => {
            if path.len() == 0 {
                true
            } else {
                proof {
                    assert(path_view(*path).last() == path@[path@.len() - 1]@);
                }
                match &path[path.len() - 1] {
                    PathSeg::Field(k) => !is_denylisted(k),
                    PathSeg::Index(_) => true,
                }
            }
        },
    }
}

fn obj_find(ys: &Vec<(Vec<u8>, Value)>, k: &Vec<u8>) -> (r: Option<usize>)
    ensures
        match r {
            Option::Some(i) => 0 <= i < ys@.len() && ys@[i as int].0@ == k@ && (forall|j: int|
                0 <= j < i ==> (#[trigger] ys@[j]).0@ != k@),
            Option::None => forall|j: int| 0 <= j < ys@.len() ==> (#[trigger] ys@[j]).0@ != k@,
        },
{
    let mut i: usize = 0;
    while i < ys.len()
        invariant
            i <= ys@.len(),
            forall|j: int| 0 <= j < i ==> (#[trigger] ys@[j]).0@ != k@,
        decreases ys@.len() - i,
    {
        if bytes_eq(&ys[i].0, k) {
            return Option::Some(i);
        }
        i += 1;
    }
    Option::None
}

/// Entry keys of an object's shape are the keys of its entries.
proof fn lemma_entries_view_key(xs: Seq<(Vec<u8>, Value)>, i: int)
    requires
        0 <= i < xs.len(),
    ensures
        entries_view(xs)[i].0 == xs[i].0@,
        entries_view(xs)[i].1 == value_view(xs[i].1),
{
}

proof fn lemma_obj_has_key_up(es: Seq<(Seq<u8>, ValueView)>, k: Seq<u8>, i: int)
    requires
        0 <= i < es.len(),
        es[i].0 == k,
    ensures
        obj_has_key(es, k),
{
}

/// When no entry binds `k`, `obj_has_key` denies it.
proof fn lemma_obj_has_key_none(es: Seq<(Seq<u8>, ValueView)>, k: Seq<u8>)
    requires
        forall|j: int| 0 <= j < es.len() ==> (#[trigger] es[j]).0 != k,
    ensures
        !obj_has_key(es, k),
{
}

/// `obj_get` returns the first entry bound to `k`.
proof fn lemma_obj_get_first(es: Seq<(Seq<u8>, ValueView)>, k: Seq<u8>, i: int)
    requires
        0 <= i < es.len(),
        es[i].0 == k,
        forall|j: int| 0 <= j < i ==> (#[trigger] es[j]).0 != k,
    ensures
        obj_get(es, k) == es[i].1,
    decreases i,
{
    if i > 0 {
        let tail = es.drop_first();
        assert forall|j: int| 0 <= j < i - 1 implies (#[trigger] tail[j]).0 != k by {
            assert(tail[j] == es[j + 1]);
        }
        assert(tail[i - 1] == es[i]);
        lemma_obj_get_first(tail, k, i - 1);
    }
}

/// Structural diff of two trees at the node reached by `path`: the
/// executable twin of `spec_diff`.
#[verifier::loop_isolation(false)]
fn diff_nodes(path: &Vec<PathSeg>, a: &Value, b: &Value) -> (r: Vec<ChangeRecord>)
    ensures
        changes_view(r@) == spec_diff(path_view(*path), a@, b@),
    decreases *a, *b, 1int,
{
    match (a, b) {
        (Value::Obj(xs), Value::Obj(ys)) => {
            let mut out = diff_obj_part(path, a, b, xs, ys);
            let mut added = diff_obj_added_part(path, xs, ys);
            let ghost out0 = changes_view(out@);
            let ghost added0 = changes_view(added@);
            out.append(&mut added);
            proof {
                assert(changes_view(out@) =~= out0 + added0);
            }
            out
        },
        (Value::Arr(xs), Value::Arr(ys)) => diff_arr_part(path, a, b, xs, ys),
        _ => {
            let equal: bool = match (a, b) {
                (Value::Null, Value::Null) => true,
                (Value::UInt(x), Value::UInt(y)) => *x == *y,
                (Value::Str(x), Value::Str(y)) => bytes_eq(x, y),
                _ => false,
            };
            if equal {
                let out: Vec<ChangeRecord> = Vec::new();
                proof {
                    assert(changes_view(out@) =~= Seq::<ChangeView>::empty());
                }
                out
            } else {
                let mut out: Vec<ChangeRecord> = Vec::new();
                out.push(
                    ChangeRecord::Modified(clone_path(path), clone_value(a), clone_value(b)),
                );
                proof {
                    assert(changes_view(out@) =~= seq![
                        ChangeView::Modified(path_view(*path), a@, b@),
                    ]);
                }
                out
            }
        },
    }
}

/// The removal-or-recursion half of an object diff, over the left object's
/// entries in order.
#[verifier::loop_isolation(false)]
#[verifier::rlimit(80)]
fn diff_obj_part(
    path: &Vec<PathSeg>,
    a: &Value,
    b: &Value,
    xs: &Vec<(Vec<u8>, Value)>,
    ys: &Vec<(Vec<u8>, Value)>,
) -> (r: Vec<ChangeRecord>)
    requires
        *a == Value::Obj(*xs),
        *b == Value::Obj(*ys),
    ensures
        changes_view(r@) == spec_diff_obj(path_view(*path), entries_view(xs@), entries_view(ys@)),
    decreases *a, *b, 0int,
{
    let ghost pv = path_view(*path);
    let ghost ex = entries_view(xs@);
    let ghost ey = entries_view(ys@);
    let mut out: Vec<ChangeRecord> = Vec::new();
    let mut i: usize = 0;
    proof {
        assert(ex.skip(0) =~= ex);
        assert(changes_view(out@) =~= Seq::<ChangeView>::empty());
    }
    while i < xs.len()
        invariant
            i <= xs@.len(),
            spec_diff_obj(pv, ex, ey) == changes_view(out@) + spec_diff_obj(pv, ex.skip(i as int), ey),
        decreases xs@.len() - i,
    {
        let ghost out0 = changes_view(out@);
        let ghost tail = ex.skip(i as int);
        proof {
            assert(tail[0] == ex[i as int]);
            assert(tail.drop_first() =~= ex.skip(i + 1));
            lemma_entries_view_key(xs@, i as int);
        }
        let key = &xs[i].0;
        let child_path = path_with(path, PathSeg::Field(clone_bytes(key)));
        match obj_find(ys, key) {
            Option::Some(j) => {
                proof {
                    lemma_obj_has_key_up(ey, key@, j as int);
                    assert forall|t: int| 0 <= t < j implies (#[trigger] ey[t]).0 != key@ by {
                        lemma_entries_view_key(ys@, t);
                    }
                    lemma_entries_view_key(ys@, j as int);
                    lemma_obj_get_first(ey, key@, j as int);
                    assert(decreases_to!(*a => a->Obj_0));
                    assert(a->Obj_0 == *xs);
                    assert(decreases_to!(*xs => xs@[i as int]));
                    assert(decreases_to!(xs@[i as int] => xs@[i as int].1));
                }
                let mut recs = diff_nodes(&child_path, &xs[i].1, &ys[j].1);
                let ghost recs0 = changes_view(recs@);
                out.append(&mut recs);
                proof {
                    assert(changes_view(out@) =~= out0 + recs0);
                }
            },
            Option::None => {
                proof {
                    assert forall|t: int| 0 <= t < ey.len() implies (#[trigger] ey[t]).0 != key@ by {
                        lemma_entries_view_key(ys@, t);
                    }
                    lemma_obj_has_key_none(ey, key@);
                }
                out.push(ChangeRecord::Removed(child_path));
                proof {
                    assert(changes_view(out@) =~= out0 + seq![
                        ChangeView::Removed(pv.push(PathSegView::Field(ex[i as int].0))),
                    ]);
                }
            },
        }
        i += 1;
        proof {
            assert(spec_diff_obj(pv, tail, ey) == (if obj_has_key(ey, tail[0].0) {
                spec_diff(pv.push(PathSegView::Field(tail[0].0)), tail[0].1, obj_get(ey, tail[0].0))
            } else {
                seq![ChangeView::Removed(pv.push(PathSegView::Field(tail[0].0)))]
            }) + spec_diff_obj(pv, ex.skip(i as int), ey));
            assert(changes_view(out@) + spec_diff_obj(pv, ex.skip(i as int), ey) =~= out0 + spec_diff_obj(
                pv,
                tail,
                ey,
            ));
        }
    }
    proof {
        assert(ex.skip(xs@.len() as int) =~= Seq::<(Seq<u8>, ValueView)>::empty());
        assert(changes_view(out@) =~= changes_view(out@) + spec_diff_obj(
            pv,
            ex.skip(xs@.len() as int),
            ey,
        ));
    }
    out
}

/// The addition half of an object diff: one record for every right-object
/// key the left object does not bind.
#[verifier::loop_isolation(false)]
fn diff_obj_added_part(
    path: &Vec<PathSeg>,
    xs: &Vec<(Vec<u8>, Value)>,
    ys: &Vec<(Vec<u8>, Value)>,
) -> (r: Vec<ChangeRecord>)
    ensures
        changes_view(r@) == spec_obj_added(path_view(*path), entries_view(xs@), entries_view(ys@)),
{
    let ghost pv = path_view(*path);
    let ghost ex = entries_view(xs@);
    let ghost ey = entries_view(ys@);
    let mut out: Vec<ChangeRecord> = Vec::new();
    let mut i: usize = 0;
    proof {
        assert(ey.skip(0) =~= ey);
        assert(changes_view(out@) =~= Seq::<ChangeView>::empty());
    }
    while i < ys.len()
        invariant
            i <= ys@.len(),
            spec_obj_added(pv, ex, ey) == changes_view(out@) + spec_obj_added(pv, ex, ey.skip(i as int)),
        decreases ys@.len() - i,
    {
        let ghost out0 = changes_view(out@);
        let ghost tail = ey.skip(i as int);
        proof {
            assert(tail[0] == ey[i as int]);
            assert(tail.drop_first() =~= ey.skip(i + 1));
            lemma_entries_view_key(ys@, i as int);
        }
        let key = &ys[i].0;
        match obj_find(xs, key) {
            Option::Some(j) => {
                proof {
                    lemma_entries_view_key(xs@, j as int);
                    lemma_obj_has_key_up(ex, key@, j as int);
                }
            },
            Option::None => {
                proof {
                    assert forall|t: int| 0 <= t < ex.len() implies (#[trigger] ex[t]).0 != key@ by {
                        lemma_entries_view_key(xs@, t);
                    }
                    lemma_obj_has_key_none(ex, key@);
                }
                let child_path = path_with(path, PathSeg::Field(clone_bytes(key)));
                out.push(ChangeRecord::Added(child_path));
                proof {
                    assert(changes_view(out@) =~= out0 + seq![
                        ChangeView::Added(pv.push(PathSegView::Field(ey[i as int].0))),
                    ]);
                }
            },
        }
        i += 1;
        proof {
            assert(spec_obj_added(pv, ex, tail) == (if obj_has_key(ex, tail[0].0) {
                Seq::<ChangeView>::empty()
            } else {
                seq![ChangeView::Added(pv.push(PathSegView::Field(tail[0].0)))]
            }) + spec_obj_added(pv, ex, ey.skip(i as int)));
            assert(changes_view(out@) + spec_obj_added(pv, ex, ey.skip(i as int)) =~= out0
                + spec_obj_added(pv, ex, tail));
        }
    }
    proof {
        assert(ey.skip(ys@.len() as int) =~= Seq::<(Seq<u8>, ValueView)>::empty());
        assert(changes_view(out@) =~= changes_view(out@) + spec_obj_added(
            pv,
            ex,
            ey.skip(ys@.len() as int),
        ));
    }
    out
}

/// The array half of the diff: paired elements recursed upon, unpaired ones
/// recorded as additions or removals, indices counted from zero.
#[verifier::loop_isolation(false)]
#[verifier::rlimit(80)]
fn diff_arr_part(
    path: &Vec<PathSeg>,
    a: &Value,
    b: &Value,
    xs: &Vec<Value>,
    ys: &Vec<Value>,
) -> (r: Vec<ChangeRecord>)
    requires
        *a == Value::Arr(*xs),
        *b == Value::Arr(*ys),
    ensures
        changes_view(r@) == spec_diff_arr(path_view(*path), elems_view(xs@), elems_view(ys@), 0),
    decreases *a, *b, 0int,
{
    let ghost pv = path_view(*path);
    let ghost ex = elems_view(xs@);
    let ghost ey = elems_view(ys@);
    let mut out: Vec<ChangeRecord> = Vec::new();
    let mut i: usize = 0;
    proof {
        assert(ex.skip(0) =~= ex);
        assert(ey.skip(0) =~= ey);
        assert(changes_view(out@) =~= Seq::<ChangeView>::empty());
    }
    while i < xs.len() || i < ys.len()
        invariant
            i <= xs@.len() || i <= ys@.len(),
            spec_diff_arr(pv, ex, ey, 0) == changes_view(out@) + spec_diff_arr(
                pv,
                ex.skip(if i <= xs@.len() { i as int } else { xs@.len() as int }),
                ey.skip(if i <= ys@.len() { i as int } else { ys@.len() as int }),
                i as int,
            ),
        decreases (if i < xs@.len() { xs@.len() - i } else { 0 }) + (if i < ys@.len() {
            ys@.len() - i
        } else {
            0
        }),
    {
        let ghost out0 = changes_view(out@);
        let ghost tx = ex.skip(if i <= xs@.len() { i as int } else { xs@.len() as int });
        let ghost ty = ey.skip(if i <= ys@.len() { i as int } else { ys@.len() as int });
        if i < xs.len() && i < ys.len() {
            proof {
                assert(tx[0] == ex[i as int]);
                assert(ty[0] == ey[i as int]);
                assert(tx.drop_first() =~= ex.skip(i + 1));
                assert(ty.drop_first() =~= ey.skip(i + 1));
                assert(decreases_to!(*a => a->Arr_0));
                assert(a->Arr_0 == *xs);
                assert(decreases_to!(*xs => xs@[i as int]));
            }
            let child_path = path_with(path, PathSeg::Index(i));
            let mut recs = diff_nodes(&child_path, &xs[i], &ys[i]);
            let ghost recs0 = changes_view(recs@);
            out.append(&mut recs);
            proof {
                assert(ex[i as int] == value_view(xs@[i as int]));
                assert(ey[i as int] == value_view(ys@[i as int]));
                assert(changes_view(out@) =~= out0 + recs0);
                assert(spec_diff_arr(pv, tx, ty, i as int) == spec_diff(
                    pv.push(PathSegView::Index(i as int)),
                    tx[0],
                    ty[0],
                ) + spec_diff_arr(pv, ex.skip(i + 1), ey.skip(i + 1), i + 1));
                assert(changes_view(out@) + spec_diff_arr(pv, ex.skip(i + 1), ey.skip(i + 1), i + 1)
                    =~= out0 + spec_diff_arr(pv, tx, ty, i as int));
            }
        } else if i < xs.len() {
            proof {
                assert(ty =~= Seq::<ValueView>::empty());
                assert(tx[0] == ex[i as int]);
                assert(tx.drop_first() =~= ex.skip(i + 1));
            }
            let child_path = path_with(path, PathSeg::Index(i));
            out.push(ChangeRecord::Removed(child_path));
            proof {
                assert(spec_diff_arr(pv, tx, ty, i as int) == seq![
                    ChangeView::Removed(pv.push(PathSegView::Index(i as int))),
                ] + spec_diff_arr(pv, ex.skip(i + 1), ty, i + 1));
                assert(changes_view(out@) =~= out0 + seq![
                    ChangeView::Removed(pv.push(PathSegView::Index(i as int))),
                ]);
                assert(changes_view(out@) + spec_diff_arr(pv, ex.skip(i + 1), ty, i + 1) =~= out0
                    + spec_diff_arr(pv, tx, ty, i as int));
            }
        } else {
            proof {
                assert(tx =~= Seq::<ValueView>::empty());
                assert(ty[0] == ey[i as int]);
                assert(ty.drop_first() =~= ey.skip(i + 1));
            }
            let child_path = path_with(path, PathSeg::Index(i));
            out.push(ChangeRecord::Added(child_path));
            proof {
                assert(spec_diff_arr(pv, tx, ty, i as int) == seq![
                    ChangeView::Added(pv.push(PathSegView::Index(i as int))),
                ] + spec_diff_arr(pv, tx, ey.skip(i + 1), i + 1));
                assert(changes_view(out@) =~= out0 + seq![
                    ChangeView::Added(pv.push(PathSegView::Index(i as int))),
                ]);
                assert(changes_view(out@) + spec_diff_arr(pv, tx, ey.skip(i + 1), i + 1) =~= out0
                    + spec_diff_arr(pv, tx, ty, i as int));
            }
        }
        i += 1;
    }
    proof {
        assert(ex.skip(xs@.len() as int) =~= Seq::<ValueView>::empty());
        assert(ey.skip(ys@.len() as int) =~= Seq::<ValueView>::empty());
        assert(spec_diff_arr(
            pv,
            ex.skip(if i <= xs@.len() { i as int } else { xs@.len() as int }),
            ey.skip(if i <= ys@.len() { i as int } else { ys@.len() as int }),
            i as int,
        ) == Seq::<ChangeView>::empty());
    }
    out
}

/// Structural diff of two trees from the root: every added, removed or
/// modified node, in walk order, denylisted fields included for
/// transparency.
pub fn diff_values(reference: &Value, other: &Value) -> (r: Vec<ChangeRecord>)
    ensures
        changes_view(r@) == spec_diff(Seq::empty(), reference@, other@),
{
    let root: Vec<PathSeg> = Vec::new();
    proof {
        assert(path_view(root) =~= Seq::<PathSegView>::empty());
    }
    diff_nodes(&root, reference, other)
}

/// Some record in the sequence is an addition.
pub open spec fn contains_added(cs: Seq<ChangeView>) -> bool {
    exists|i: int| 0 <= i < cs.len() && (#[trigger] cs[i]) is Added
}

/// Irrelevance distributes over concatenation.
pub proof fn lemma_irrelevant_concat(a: Seq<ChangeView>, b: Seq<ChangeView>)
    ensures
        all_changes_irrelevant(a + b) == (all_changes_irrelevant(a) && all_changes_irrelevant(b)),
{
    if all_changes_irrelevant(a + b) {
        assert forall|i: int| 0 <= i < a.len() implies !change_relevant(#[trigger] a[i]) by {
            assert((a + b)[i] == a[i]);
        }
        assert forall|i: int| 0 <= i < b.len() implies !change_relevant(#[trigger] b[i]) by {
            assert((a + b)[a.len() + i] == b[i]);
        }
    }
    if all_changes_irrelevant(a) && all_changes_irrelevant(b) {
        assert forall|i: int| 0 <= i < (a + b).len() implies !change_relevant(
            #[trigger] (a + b)[i],
        ) by {
            if i < a.len() {
                assert((a + b)[i] == a[i]);
            } else {
                assert((a + b)[i] == b[i - a.len()]);
            }
        }
    }
}

/// An addition in either part is an addition in the concatenation.
pub proof fn lemma_contains_added_concat(a: Seq<ChangeView>, b: Seq<ChangeView>)
    ensures
        contains_added(a + b) == (contains_added(a) || contains_added(b)),
{
    if contains_added(a) {
        let i = choose|i: int| 0 <= i < a.len() && (#[trigger] a[i]) is Added;
        assert((a + b)[i] is Added);
    }
    if contains_added(b) {
        let i = choose|i: int| 0 <= i < b.len() && (#[trigger] b[i]) is Added;
        assert((a + b)[a.len() + i] is Added);
    }
    if contains_added(a + b) {
        let i = choose|i: int| 0 <= i < (a + b).len() && (#[trigger] (a + b)[i]) is Added;
        if i < a.len() {
            assert(a[i] is Added);
        } else {
            assert(b[i - a.len()] is Added);
        }
    }
}

/// The per-entry diffs of two objects whose keys align, in entry order.
pub open spec fn obj_children_diffs(
    path: Seq<PathSegView>,
    xs: Seq<(Seq<u8>, ValueView)>,
    ys: Seq<(Seq<u8>, ValueView)>,
) -> Seq<ChangeView>
    decreases xs.len(),
{
    if xs.len() == 0 {
        Seq::empty()
    } else {
        spec_diff(path.push(PathSegView::Field(xs[0].0)), xs[0].1, ys[0].1) + obj_children_diffs(
            path,
            xs.drop_first(),
            ys.drop_first(),
        )
    }
}

/// The per-element diffs of two arrays of equal length, from index `n` on.
pub open spec fn arr_children_diffs(
    path: Seq<PathSegView>,
    xs: Seq<ValueView>,
    ys: Seq<ValueView>,
    n: int,
) -> Seq<ChangeView>
    decreases xs.len(),
{
    if xs.len() == 0 {
        Seq::empty()
    } else {
        spec_diff(path.push(PathSegView::Index(n)), xs[0], ys[0]) + arr_children_diffs(
            path,
            xs.drop_first(),
            ys.drop_first(),
            n + 1,
        )
    }
}

/// No two entries of the object bind the same key.
pub open spec fn keys_distinct(xs: Seq<(Seq<u8>, ValueView)>) -> bool {
    forall|i: int, j: int| 0 <= i < j < xs.len() ==> (#[trigger] xs[i]).0 != (#[trigger] xs[j]).0
}

/// Every object anywhere in the value has pairwise distinct keys.
pub open spec fn value_keys_distinct(v: ValueView) -> bool
    decreases v,
{
    match v {
        ValueView::Obj(xs) => keys_distinct(xs) && (forall|i: int|
            0 <= i < xs.len() ==> value_keys_distinct((#[trigger] xs[i]).1)),
        ValueView::Arr(xs) => forall|i: int|
            0 <= i < xs.len() ==> value_keys_distinct(#[trigger] xs[i]),
        _ => true,
    }
}

proof fn lemma_diff_obj_aligned_from(
    path: Seq<PathSegView>,
    xs: Seq<(Seq<u8>, ValueView)>,
    ys: Seq<(Seq<u8>, ValueView)>,
    k: int,
)
    requires
        xs.len() == ys.len(),
        forall|i: int| 0 <= i < xs.len() ==> (#[trigger] xs[i]).0 == ys[i].0,
        keys_distinct(xs),
        0 <= k <= xs.len(),
    ensures
        spec_diff_obj(path, xs.skip(k), ys) == obj_children_diffs(path, xs.skip(k), ys.skip(k)),
    decreases xs.len() - k,
{
    if k < xs.len() {
        let tx = xs.skip(k);
        let ty = ys.skip(k);
        assert(tx[0] == xs[k]);
        assert(ty[0] == ys[k]);
        assert(tx.drop_first() =~= xs.skip(k + 1));
        assert(ty.drop_first() =~= ys.skip(k + 1));
        let key = xs[k].0;
        assert(obj_has_key(ys, key)) by {
            assert(ys[k].0 == key);
        }
        assert forall|j: int| 0 <= j < k implies (#[trigger] ys[j]).0 != key by {
            assert(xs[j].0 == ys[j].0);
        }
        lemma_obj_get_first(ys, key, k);
        lemma_diff_obj_aligned_from(path, xs, ys, k + 1);
        assert(spec_diff_obj(path, tx, ys) == spec_diff(
            path.push(PathSegView::Field(key)),
            xs[k].1,
            ys[k].1,
        ) + spec_diff_obj(path, xs.skip(k + 1), ys));
    } else {
        assert(xs.skip(k) =~= Seq::<(Seq<u8>, ValueView)>::empty());
        assert(ys.skip(k) =~= Seq::<(Seq<u8>, ValueView)>::empty());
    }
}

proof fn lemma_obj_added_aligned_from(
    path: Seq<PathSegView>,
    xs: Seq<(Seq<u8>, ValueView)>,
    ys: Seq<(Seq<u8>, ValueView)>,
    k: int,
)
    requires
        xs.len() == ys.len(),
        forall|i: int| 0 <= i < xs.len() ==> (#[trigger] xs[i]).0 == ys[i].0,
        0 <= k <= ys.len(),
    ensures
        spec_obj_added(path, xs, ys.skip(k)) == Seq::<ChangeView>::empty(),
    decreases ys.len() - k,
{
    if k < ys.len() {
        let ty = ys.skip(k);
        assert(ty[0] == ys[k]);
        assert(ty.drop_first() =~= ys.skip(k + 1));
        assert(obj_has_key(xs, ys[k].0)) by {
            assert(xs[k].0 == ys[k].0);
        }
        lemma_obj_added_aligned_from(path, xs, ys, k + 1);
        assert(spec_obj_added(path, xs, ty) =~= Seq::<ChangeView>::empty() + spec_obj_added(
            path,
            xs,
            ys.skip(k + 1),
        ));
    } else {
        assert(ys.skip(k) =~= Seq::<(Seq<u8>, ValueView)>::empty());
    }
}

/// The diff of two objects whose key sequences align entry for entry is the
/// concatenation of the per-entry diffs.
pub proof fn lemma_diff_obj_aligned(
    path: Seq<PathSegView>,
    xs: Seq<(Seq<u8>, ValueView)>,
    ys: Seq<(Seq<u8>, ValueView)>,
)
    requires
        xs.len() == ys.len(),
        forall|i: int| 0 <= i < xs.len() ==> (#[trigger] xs[i]).0 == ys[i].0,
        keys_distinct(xs),
    ensures
        spec_diff(path, ValueView::Obj(xs), ValueView::Obj(ys)) == obj_children_diffs(
            path,
            xs,
            ys,
        ),
{
    lemma_diff_obj_aligned_from(path, xs, ys, 0);
    lemma_obj_added_aligned_from(path, xs, ys, 0);
    assert(xs.skip(0) =~= xs);
    assert(ys.skip(0) =~= ys);
    assert(spec_diff(path, ValueView::Obj(xs), ValueView::Obj(ys)) =~= obj_children_diffs(
        path,
        xs,
        ys,
    ));
}

/// The diff of two arrays of equal length is the concatenation of the
/// per-element diffs.
pub proof fn lemma_diff_arr_aligned(
    path: Seq<PathSegView>,
    xs: Seq<ValueView>,
    ys: Seq<ValueView>,
    n: int,
)
    requires
        xs.len() == ys.len(),
    ensures
        spec_diff_arr(path, xs, ys, n) == arr_children_diffs(path, xs, ys, n),
    decreases xs.len(),
{
    if xs.len() > 0 {
        lemma_diff_arr_aligned(path, xs.drop_first(), ys.drop_first(), n + 1);
    }
}

/// The diff of a value against itself is empty, provided every object in it
/// has pairwise distinct keys.
pub proof fn lemma_value_refl(path: Seq<PathSegView>, v: ValueView)
    requires
        value_keys_distinct(v),
    ensures
        spec_diff(path, v, v) == Seq::<ChangeView>::empty(),
    decreases v, 0int,
{
    match v {
        ValueView::Obj(xs) => {
            lemma_diff_obj_aligned(path, xs, xs);
            lemma_obj_children_refl(path, xs);
        },
        ValueView::Arr(xs) => {
            lemma_diff_arr_aligned(path, xs, xs, 0);
            lemma_arr_children_refl(path, xs, 0);
        },
        _ => {},
    }
}

proof fn lemma_obj_children_refl(path: Seq<PathSegView>, xs: Seq<(Seq<u8>, ValueView)>)
    requires
        forall|i: int| 0 <= i < xs.len() ==> value_keys_distinct((#[trigger] xs[i]).1),
    ensures
        obj_children_diffs(path, xs, xs) == Seq::<ChangeView>::empty(),
    decreases xs, 1int,
{
    if xs.len() > 0 {
        assert(decreases_to!(xs => xs[0]));
        assert(decreases_to!(xs[0] => xs[0].1));
        lemma_value_refl(path.push(PathSegView::Field(xs[0].0)), xs[0].1);
        assert forall|i: int| 0 <= i < xs.drop_first().len() implies value_keys_distinct(
            (#[trigger] xs.drop_first()[i]).1,
        ) by {
            assert(xs.drop_first()[i] == xs[i + 1]);
        }
        lemma_obj_children_refl(path, xs.drop_first());
        assert(obj_children_diffs(path, xs, xs) =~= Seq::<ChangeView>::empty());
    }
}

proof fn lemma_arr_children_refl(path: Seq<PathSegView>, xs: Seq<ValueView>, n: int)
    requires
        forall|i: int| 0 <= i < xs.len() ==> value_keys_distinct(#[trigger] xs[i]),
    ensures
        arr_children_diffs(path, xs, xs, n) == Seq::<ChangeView>::empty(),
    decreases xs, 1int,
{
    if xs.len() > 0 {
        assert(decreases_to!(xs => xs[0]));
        lemma_value_refl(path.push(PathSegView::Index(n)), xs[0]);
        assert forall|i: int| 0 <= i < xs.drop_first().len() implies value_keys_distinct(
            #[trigger] xs.drop_first()[i],
        ) by {
            assert(xs.drop_first()[i] == xs[i + 1]);
        }
        lemma_arr_children_refl(path, xs.drop_first(), n + 1);
        assert(arr_children_diffs(path, xs, xs, n) =~= Seq::<ChangeView>::empty());
    }
}

/// Diffing a shorter array against a longer one always reports at least one
/// addition.
pub proof fn lemma_arr_longer_has_added(
    path: Seq<PathSegView>,
    xs: Seq<ValueView>,
    ys: Seq<ValueView>,
    n: int,
)
    requires
        xs.len() < ys.len(),
    ensures
        contains_added(spec_diff_arr(path, xs, ys, n)),
    decreases ys.len(),
{
    if xs.len() == 0 {
        let cs = spec_diff_arr(path, xs, ys, n);
        assert(cs[0] == ChangeView::Added(path.push(PathSegView::Index(n))));
    } else {
        lemma_arr_longer_has_added(path, xs.drop_first(), ys.drop_first(), n + 1);
        lemma_contains_added_concat(
            spec_diff(path.push(PathSegView::Index(n)), xs[0], ys[0]),
            spec_diff_arr(path, xs.drop_first(), ys.drop_first(), n + 1),
        );
    }
}

/// An addition among one aligned entry's records is an addition among the
/// whole object's records.
pub proof fn lemma_obj_children_contains_added(
    path: Seq<PathSegView>,
    xs: Seq<(Seq<u8>, ValueView)>,
    ys: Seq<(Seq<u8>, ValueView)>,
    k: int,
)
    requires
        xs.len() == ys.len(),
        0 <= k < xs.len(),
        contains_added(spec_diff(path.push(PathSegView::Field(xs[k].0)), xs[k].1, ys[k].1)),
    ensures
        contains_added(obj_children_diffs(path, xs, ys)),
    decreases k,
{
    let head = spec_diff(path.push(PathSegView::Field(xs[0].0)), xs[0].1, ys[0].1);
    let tail = obj_children_diffs(path, xs.drop_first(), ys.drop_first());
    if k == 0 {
        lemma_contains_added_concat(head, tail);
    } else {
        assert(xs.drop_first()[k - 1] == xs[k]);
        assert(ys.drop_first()[k - 1] == ys[k]);
        lemma_obj_children_contains_added(path, xs.drop_first(), ys.drop_first(), k - 1);
        lemma_contains_added_concat(head, tail);
    }
}

/// An addition among one paired element's records is an addition among the
/// whole array's records.
pub proof fn lemma_arr_children_contains_added(
    path: Seq<PathSegView>,
    xs: Seq<ValueView>,
    ys: Seq<ValueView>,
    n: int,
    k: int,
)
    requires
        xs.len() == ys.len(),
        0 <= k < xs.len(),
        contains_added(spec_diff(path.push(PathSegView::Index(n + k)), xs[k], ys[k])),
    ensures
        contains_added(arr_children_diffs(path, xs, ys, n)),
    decreases k,
{
    let head = spec_diff(path.push(PathSegView::Index(n)), xs[0], ys[0]);
    let tail = arr_children_diffs(path, xs.drop_first(), ys.drop_first(), n + 1);
    if k == 0 {
        lemma_contains_added_concat(head, tail);
    } else {
        assert(xs.drop_first()[k - 1] == xs[k]);
        assert(ys.drop_first()[k - 1] == ys[k]);
        assert(n + 1 + (k - 1) == n + k);
        lemma_arr_children_contains_added(path, xs.drop_first(), ys.drop_first(), n + 1, k - 1);
        lemma_contains_added_concat(head, tail);
    }
}

/// An added record is always relevant, so a sequence holding one is not
/// equivalent-empty.
pub proof fn lemma_contains_added_relevant(cs: Seq<ChangeView>)
    requires
        contains_added(cs),
    ensures
        !all_changes_irrelevant(cs),
{
    let i = choose|i: int| 0 <= i < cs.len() && (#[trigger] cs[i]) is Added;
    assert(change_relevant(cs[i]));
}

} // verus!
