//! The shape lattice: the `Shape` tree that inference produces, the
//! mathematical model it is read as, and the unification ("least upper
//! bound") operation that merges two shapes observed for one slot.

use vstd::prelude::*;
use vstd::string::StringExecFns;

verus! {

/// The inferred structural type of a JSON value.
///
/// `Bottom` is the lattice identity ("no information yet"), `Top` the
/// absorbing element ("incompatible concrete kinds were observed").
/// `Optional(inner)` marks a slot whose value may be absent or null and is
/// never nested directly inside itself. `Record` keeps its fields in
/// insertion order.
#[derive(Debug)]
pub enum Shape {
    Bottom,
    Top,
    Optional(Box<Shape>),
    Bool,
    Str,
    Integer,
    Float,
    List(Box<Shape>),
    Record(Vec<(String, Shape)>),
}

/// The mathematical reading of a `Shape`: the same tree, with record fields
/// as a sequence of (key, shape) pairs over character sequences.
pub enum SpecShape {
    Bottom,
    Top,
    Optional(Box<SpecShape>),
    Bool,
    Str,
    Integer,
    Float,
    List(Box<SpecShape>),
    Record(Seq<(Seq<char>, SpecShape)>),
}

/// The mathematical reading of a shape tree, used by every contract below.
pub open spec fn shape_view(s: Shape) -> SpecShape
    decreases s,
    via shape_view_decreases
{
    match s {
        Shape::Bottom => SpecShape::Bottom,
        Shape::Top => SpecShape::Top,
        Shape::Bool => SpecShape::Bool,
        Shape::Str => SpecShape::Str,
        Shape::Integer => SpecShape::Integer,
        Shape::Float => SpecShape::Float,
        Shape::Optional(inner) => SpecShape::Optional(Box::new(shape_view(*inner))),
        Shape::List(inner) => SpecShape::List(Box::new(shape_view(*inner))),
        Shape::Record(fields) => SpecShape::Record(fields_rep(fields@)),
    }
}

#[via_fn]
proof fn shape_view_decreases(s: Shape) {
    match s {
        Shape::Record(fields) => {
            vstd::std_specs::vec::axiom_vec_decreases_to_view(fields);
        },
        _ => {},
    }
}

/// The mathematical reading of a record's field list.
pub open spec fn fields_rep(s: Seq<(String, Shape)>) -> Seq<(Seq<char>, SpecShape)>
    decreases s,
    via fields_rep_decreases
{
    Seq::new(
        s.len(),
        |i: int|
            (
                s[i].0@,
                if 0 <= i < s.len() {
                    shape_view(s[i].1)
                } else {
                    SpecShape::Bottom
                },
            ),
    )
}

#[via_fn]
proof fn fields_rep_decreases(s: Seq<(String, Shape)>) {
    assert forall|i: int| 0 <= i < s.len() implies (decreases_to!(s => s[i].1)) by {
        vstd::seq::axiom_seq_index_decreases(s, i);
        assert(decreases_to!(s[i] => s[i].1));
    }
}

impl View for Shape {
    type V = SpecShape;

    open spec fn view(&self) -> SpecShape {
        shape_view(*self)
    }
}

/// Wraps a shape in `Optional` unless it already is one, so that `Optional`
/// never nests.
pub open spec fn spec_make_optional(a: SpecShape) -> SpecShape {
    match a {
        SpecShape::Optional(_) => a,
        _ => SpecShape::Optional(Box::new(a)),
    }
}

/// The unification of two shapes, in priority order: structural equality,
/// `Bottom` as identity, numeric promotion, `Optional` absorption,
/// structural recursion into lists and records, and `Top` for the rest.
pub open spec fn spec_common(a: SpecShape, b: SpecShape) -> SpecShape
    decreases a, b,
{
    if a == b {
        a
    } else {
        match (a, b) {
            (a2, SpecShape::Bottom) => a2,
            (SpecShape::Bottom, b2) => b2,
            (SpecShape::Integer, SpecShape::Float) => SpecShape::Float,
            (SpecShape::Float, SpecShape::Integer) => SpecShape::Float,
            (SpecShape::Optional(x), SpecShape::Optional(y)) => spec_make_optional(
                spec_common(*x, *y),
            ),
            (SpecShape::Optional(x), b2) => spec_make_optional(spec_common(*x, b2)),
            (a2, SpecShape::Optional(y)) => spec_make_optional(spec_common(a2, *y)),
            (SpecShape::List(x), SpecShape::List(y)) => SpecShape::List(
                Box::new(spec_common(*x, *y)),
            ),
            (SpecShape::Record(f1), SpecShape::Record(f2)) => SpecShape::Record(
                spec_common_fields(f1, f2),
            ),
            _ => SpecShape::Top,
        }
    }
}

/// The index of the first field of `f` named `key`, or -1 if there is none.
pub open spec fn spec_key_index(f: Seq<(Seq<char>, SpecShape)>, key: Seq<char>) -> int
    decreases f.len(),
{
    if f.len() == 0 {
        -1
    } else if f[0].0 == key {
        0
    } else {
        let r = spec_key_index(f.drop_first(), key);
        if r == -1 {
            -1
        } else {
            r + 1
        }
    }
}

/// Every field of `f` with its shape made optional.
pub open spec fn optionalized(f: Seq<(Seq<char>, SpecShape)>) -> Seq<(Seq<char>, SpecShape)> {
    f.map_values(|p: (Seq<char>, SpecShape)| (p.0, spec_make_optional(p.1)))
}

/// The field merge of two records: `f1`'s fields in order, each unified with
/// the first same-named field of `f2` (which is then spent) or made optional
/// if `f2` has none, followed by `f2`'s unmatched fields made optional.
pub open spec fn spec_common_fields(
    f1: Seq<(Seq<char>, SpecShape)>,
    f2: Seq<(Seq<char>, SpecShape)>,
) -> Seq<(Seq<char>, SpecShape)>
    decreases f1, f2,
{
    if f1.len() == 0 {
        optionalized(f2)
    } else {
        let j = spec_key_index(f2, f1[0].0);
        if j >= 0 {
            seq![(f1[0].0, spec_common(f1[0].1, f2[j].1))] + spec_common_fields(
                f1.drop_first(),
                f2.remove(j),
            )
        } else {
            seq![(f1[0].0, spec_make_optional(f1[0].1))] + spec_common_fields(
                f1.drop_first(),
                f2,
            )
        }
    }
}

/// Wraps a shape in `Optional` unless it already is one.
pub(crate) fn make_optional(a: Shape) -> (r: Shape)
    ensures
        r@ == spec_make_optional(a@),
{
    match a {
        Shape::Optional(_) => a,
        non_nullable => Shape::Optional(Box::new(non_nullable)),
    }
}

/// Structural equality of two shape trees, decided recursively.
#[verifier::loop_isolation(false)]
pub fn shape_eq(a: &Shape, b: &Shape) -> (r: bool)
    ensures
        r == (a@ == b@),
    decreases a,
{
    match (a, b) {
        (Shape::Bottom, Shape::Bottom) => true,
        (Shape::Top, Shape::Top) => true,
        (Shape::Bool, Shape::Bool) => true,
        (Shape::Str, Shape::Str) => true,
        (Shape::Integer, Shape::Integer) => true,
        (Shape::Float, Shape::Float) => true,
        (Shape::Optional(x), Shape::Optional(y)) => shape_eq(x, y),
        (Shape::List(x), Shape::List(y)) => shape_eq(x, y),
        (Shape::Record(f1), Shape::Record(f2)) => {
            proof {
                assert(a@ == SpecShape::Record(fields_rep(f1@)));
                assert(b@ == SpecShape::Record(fields_rep(f2@)));
            }
            if f1.len() != f2.len() {
                assert(fields_rep(f1@).len() != fields_rep(f2@).len());
                return false;
            }
            let mut i: usize = 0;
            while i < f1.len()
                invariant
                    0 <= i <= f1@.len(),
                    f1@.len() == f2@.len(),
                    forall|j: int|
                        0 <= j < i ==> fields_rep(f1@)[j] == fields_rep(f2@)[j],
                decreases f1@.len() - i,
            {
                if !(f1[i].0 == f2[i].0) {
                    assert(f1@[i as int].0@ != f2@[i as int].0@);
                    assert(fields_rep(f1@)[i as int].0 != fields_rep(f2@)[i as int].0);
                    assert(fields_rep(f1@) != fields_rep(f2@));
                    return false;
                }
                proof {
                    assert(*f1 == a->Record_0);
                    assert(decreases_to!(*a => a->Record_0));
                    vstd::std_specs::vec::axiom_vec_index_decreases(*f1, i as int);
                    assert(decreases_to!(*f1 => f1@[i as int]));
                    assert(decreases_to!(f1@[i as int] => f1@[i as int].1));
                }
                if !shape_eq(&f1[i].1, &f2[i].1) {
                    assert(fields_rep(f1@)[i as int] != fields_rep(f2@)[i as int]);
                    return false;
                }
                i += 1;
            }
            proof {
                assert(fields_rep(f1@) =~= fields_rep(f2@));
            }
            true
        },
        _ => false,
    }
}

proof fn lemma_rep_drop_first(s: Seq<(String, Shape)>)
    requires
        s.len() > 0,
    ensures
        fields_rep(s).drop_first() == fields_rep(s.drop_first()),
{
    assert(fields_rep(s).drop_first() =~= fields_rep(s.drop_first()));
}

proof fn lemma_rep_remove(s: Seq<(String, Shape)>, j: int)
    requires
        0 <= j < s.len(),
    ensures
        fields_rep(s).remove(j) == fields_rep(s.remove(j)),
{
    assert(fields_rep(s).remove(j) =~= fields_rep(s.remove(j)));
}

pub(crate) proof fn lemma_rep_push(s: Seq<(String, Shape)>, p: (String, Shape))
    ensures
        fields_rep(s.push(p)) == fields_rep(s).push((p.0@, shape_view(p.1))),
{
    assert(fields_rep(s.push(p)) =~= fields_rep(s).push((p.0@, shape_view(p.1))));
}

/// The first index of `f` whose key is `key` is what `spec_key_index` says.
pub(crate) proof fn lemma_key_index_first(f: Seq<(Seq<char>, SpecShape)>, key: Seq<char>)
    ensures
        -1 <= spec_key_index(f, key) < f.len(),
        spec_key_index(f, key) == -1 ==> forall|i: int| 0 <= i < f.len() ==> f[i].0 != key,
        spec_key_index(f, key) >= 0 ==> {
            let r = spec_key_index(f, key);
            &&& 0 <= r < f.len()
            &&& f[r].0 == key
            &&& forall|i: int| 0 <= i < r ==> f[i].0 != key
        },
    decreases f.len(),
{
    if f.len() > 0 && f[0].0 != key {
        lemma_key_index_first(f.drop_first(), key);
        let r = spec_key_index(f, key);
        let rt = spec_key_index(f.drop_first(), key);
        if rt == -1 {
            assert(r == -1);
            assert forall|i: int| 0 <= i < f.len() implies f[i].0 != key by {
                if i > 0 {
                    assert(f.drop_first()[i - 1] == f[i]);
                }
            }
        } else {
            assert(r == rt + 1);
            assert(f.drop_first()[rt] == f[r]);
            assert forall|i: int| 0 <= i < r implies f[i].0 != key by {
                if i > 0 {
                    assert(f.drop_first()[i - 1] == f[i]);
                }
            }
        }
    }
}

/// The index of the first field of `f` named `key`, if any.
pub(crate) fn find_key(f: &Vec<(String, Shape)>, key: &String) -> (r: Option<usize>)
    ensures
        match r {
            Some(j) => j < f@.len() && spec_key_index(fields_rep(f@), key@) == j as int,
            None => spec_key_index(fields_rep(f@), key@) == -1,
        },
{
    let mut j: usize = 0;
    while j < f.len()
        invariant
            j <= f@.len(),
            forall|i: int| 0 <= i < j ==> fields_rep(f@)[i].0 != key@,
        decreases f@.len() - j,
    {
        if f[j].0 == *key {
            proof {
                lemma_key_index_first(fields_rep(f@), key@);
                let r = spec_key_index(fields_rep(f@), key@);
                assert(fields_rep(f@)[j as int].0 == key@);
                assert(r != -1);
                if r < j as int {
                    assert(fields_rep(f@)[r].0 != key@);
                }
                if r > j as int {
                    assert(fields_rep(f@)[j as int].0 != key@);
                }
            }
            return Some(j);
        }
        j += 1;
    }
    proof {
        lemma_key_index_first(fields_rep(f@), key@);
        let r = spec_key_index(fields_rep(f@), key@);
        if r >= 0 {
            assert(fields_rep(f@)[r].0 != key@);
        }
    }
    None
}

/// The field merge of two records: `f1`'s fields in order, unified with the
/// first same-named field of `f2` or made optional, then `f2`'s unmatched
/// fields made optional, in `f2`'s order.
#[verifier::loop_isolation(false)]
pub fn common_field_shapes(f1: Vec<(String, Shape)>, f2: Vec<(String, Shape)>) -> (r: Vec<
    (String, Shape),
>)
    ensures
        fields_rep(r@) == spec_common_fields(fields_rep(f1@), fields_rep(f2@)),
    decreases f1, f2,
{
    let ghost whole1 = f1;
    let ghost orig1 = fields_rep(f1@);
    let ghost orig2 = fields_rep(f2@);
    let mut f1 = f1;
    let mut f2 = f2;
    let mut unified: Vec<(String, Shape)> = Vec::new();
    proof {
        assert(fields_rep(unified@) + spec_common_fields(orig1, orig2) =~= spec_common_fields(
            orig1,
            orig2,
        ));
        assert(f1@ == whole1@.skip(0));
    }
    while f1.len() > 0
        invariant
            spec_common_fields(orig1, orig2) == fields_rep(unified@) + spec_common_fields(
                fields_rep(f1@),
                fields_rep(f2@),
            ),
            exists|k: int| 0 <= k <= whole1@.len() && f1@ == whole1@.skip(k),
        decreases f1@.len(),
    {
        let ghost f1_pre = f1@;
        let ghost f2_pre = f2@;
        let ghost r1_pre = fields_rep(f1@);
        let ghost r2_pre = fields_rep(f2@);
        let ghost uni_pre = unified@;
        let found = find_key(&f2, &f1[0].0);
        let (key, val) = f1.remove(0);
        proof {
            let k = choose|k: int| 0 <= k <= whole1@.len() && f1_pre == whole1@.skip(k);
            assert(val == whole1@[k].1);
            vstd::std_specs::vec::axiom_vec_decreases_to_view(whole1);
            vstd::seq::axiom_seq_index_decreases(whole1@, k);
            assert(decreases_to!(whole1@[k] => whole1@[k].1));
            assert(f1@ == whole1@.skip(k + 1)) by {
                assert(f1@ =~= whole1@.skip(k + 1));
            }
            assert(r1_pre.drop_first() == fields_rep(f1@)) by {
                assert(f1@ =~= f1_pre.drop_first());
                lemma_rep_drop_first(f1_pre);
            }
            assert(r1_pre[0] == (key@, shape_view(val)));
        }
        match found {
            Some(j) => {
                let pair = f2.remove(j);
                let merged = common_shape(val, pair.1);
                unified.push((key, merged));
                proof {
                    lemma_rep_remove(f2_pre, j as int);
                    assert(fields_rep(f2@) == r2_pre.remove(j as int));
                    lemma_rep_push(uni_pre, (key, merged));
                    let h = (key@, spec_common(r1_pre[0].1, r2_pre[j as int].1));
                    assert(merged@ == h.1);
                    assert(spec_common_fields(r1_pre, r2_pre) == seq![h]
                        + spec_common_fields(r1_pre.drop_first(), r2_pre.remove(j as int)));
                    assert(fields_rep(uni_pre).push(h) =~= fields_rep(uni_pre) + seq![h]);
                    assert((fields_rep(uni_pre) + seq![h]) + spec_common_fields(
                        fields_rep(f1@),
                        fields_rep(f2@),
                    ) =~= fields_rep(uni_pre) + (seq![h] + spec_common_fields(
                        fields_rep(f1@),
                        fields_rep(f2@),
                    )));
                }
            },
            None => {
                let opted = make_optional(val);
                unified.push((key, opted));
                proof {
                    lemma_rep_push(uni_pre, (key, opted));
                    let h = (key@, spec_make_optional(r1_pre[0].1));
                    assert(spec_common_fields(r1_pre, r2_pre) == seq![h]
                        + spec_common_fields(r1_pre.drop_first(), r2_pre));
                    assert(fields_rep(uni_pre).push(h) =~= fields_rep(uni_pre) + seq![h]);
                    assert((fields_rep(uni_pre) + seq![h]) + spec_common_fields(
                        fields_rep(f1@),
                        fields_rep(f2@),
                    ) =~= fields_rep(uni_pre) + (seq![h] + spec_common_fields(
                        fields_rep(f1@),
                        fields_rep(f2@),
                    )));
                }
            },
        }
    }
    while f2.len() > 0
        invariant
            spec_common_fields(orig1, orig2) == fields_rep(unified@) + spec_common_fields(
                fields_rep(f1@),
                fields_rep(f2@),
            ),
            f1@.len() == 0,
        decreases f2@.len(),
    {
        let ghost f2_pre = f2@;
        let ghost r2_pre = fields_rep(f2@);
        let ghost uni_pre = unified@;
        let pair = f2.remove(0);
        let (key, val) = pair;
        let opted = make_optional(val);
        unified.push((key, opted));
        proof {
            assert(r2_pre.drop_first() == fields_rep(f2@)) by {
                assert(f2@ =~= f2_pre.drop_first());
                lemma_rep_drop_first(f2_pre);
            }
            lemma_rep_push(uni_pre, (key, opted));
            let h = (key@, spec_make_optional(r2_pre[0].1));
            assert(spec_common_fields(fields_rep(f1@), r2_pre) == optionalized(r2_pre));
            assert(optionalized(r2_pre) =~= seq![h] + optionalized(r2_pre.drop_first()));
            assert(spec_common_fields(fields_rep(f1@), fields_rep(f2@)) == optionalized(
                fields_rep(f2@),
            ));
            assert(fields_rep(uni_pre).push(h) =~= fields_rep(uni_pre) + seq![h]);
            assert((fields_rep(uni_pre) + seq![h]) + optionalized(r2_pre.drop_first())
                =~= fields_rep(uni_pre) + (seq![h] + optionalized(r2_pre.drop_first())));
        }
    }
    proof {
        assert(fields_rep(unified@) + spec_common_fields(fields_rep(f1@), fields_rep(f2@))
            =~= fields_rep(unified@));
    }
    unified
}

/// The unification of two shapes; see `spec_common` for the rules.
pub fn common_shape(a: Shape, b: Shape) -> (r: Shape)
    ensures
        r@ == spec_common(a@, b@),
    decreases a, b,
{
    if a == b {
        return a;
    }
    match (a, b) {
        (a2, Shape::Bottom) => a2,
        (Shape::Bottom, b2) => b2,
        (Shape::Integer, Shape::Float) => Shape::Float,
        (Shape::Float, Shape::Integer) => Shape::Float,
        (Shape::Optional(x), Shape::Optional(y)) => make_optional(common_shape(*x, *y)),
        (Shape::Optional(x), b2) => make_optional(common_shape(*x, b2)),
        (a2, Shape::Optional(y)) => make_optional(common_shape(a2, *y)),
        (Shape::List(x), Shape::List(y)) => Shape::List(Box::new(common_shape(*x, *y))),
        (Shape::Record(f1), Shape::Record(f2)) => Shape::Record(common_field_shapes(f1, f2)),
        (_, _) => Shape::Top,
    }
}

impl PartialEq for Shape {
    fn eq(&self, other: &Shape) -> bool {
        shape_eq(self, other)
    }
}

impl vstd::std_specs::cmp::PartialEqSpecImpl for Shape {
    open spec fn obeys_eq_spec() -> bool {
        true
    }

    open spec fn eq_spec(&self, other: &Shape) -> bool {
        self@ == other@
    }
}

/// The mathematical reading of a sequence of shapes.
pub open spec fn shapes_rep(s: Seq<Shape>) -> Seq<SpecShape> {
    Seq::new(s.len(), |i: int| shape_view(s[i]))
}

/// Folding unification over a sequence, starting from `Bottom`.
pub open spec fn spec_fold(s: Seq<SpecShape>) -> SpecShape
    decreases s.len(),
{
    if s.len() == 0 {
        SpecShape::Bottom
    } else {
        spec_common(spec_fold(s.drop_last()), s.last())
    }
}

/// Unifies every shape of `shapes` in order, starting from `Bottom`.
#[verifier::loop_isolation(false)]
pub fn fold_shapes(shapes: Vec<Shape>) -> (r: Shape)
    ensures
        r@ == spec_fold(shapes_rep(shapes@)),
{
    let ghost orig = shapes_rep(shapes@);
    let mut shapes = shapes;
    let mut acc = Shape::Bottom;
    proof {
        assert(shapes_rep(shapes@) =~= orig.skip(0));
        assert(acc@ == spec_fold(orig.take(0)));
    }
    while shapes.len() > 0
        invariant
            shapes@.len() <= orig.len(),
            shapes_rep(shapes@) == orig.skip(orig.len() - shapes@.len()),
            acc@ == spec_fold(orig.take(orig.len() - shapes@.len())),
        decreases shapes@.len(),
    {
        let ghost pre = shapes@;
        let ghost k: int = orig.len() - shapes@.len();
        let s = shapes.remove(0);
        proof {
            assert(shapes_rep(pre)[0] == shape_view(s));
            assert(s@ == orig[k]);
        }
        acc = common_shape(acc, s);
        proof {
            assert(shapes@ =~= pre.drop_first());
            assert forall|i: int| 0 <= i < shapes@.len() implies shapes_rep(shapes@)[i] == orig.skip(
                k + 1,
            )[i] by {
                assert(shapes@[i] == pre[i + 1]);
                assert(shapes_rep(pre)[i + 1] == orig.skip(k)[i + 1]);
            }
            assert(shapes_rep(shapes@) =~= orig.skip(k + 1));
            assert(orig.take(k + 1).drop_last() =~= orig.take(k));
            assert(orig.take(k + 1).last() == orig[k]);
            assert(acc@ == spec_fold(orig.take(k + 1)));
        }
    }
    proof {
        assert(orig.take(orig.len() - 0) =~= orig);
    }
    acc
}

/// The number of spaces of one indentation position.
pub open spec fn spaces(n: int) -> Seq<char> {
    Seq::new(if n >= 0 { n as nat } else { 0 }, |i: int| ' ')
}

/// One more indentation level, held within the machine's limit.
pub open spec fn next_indent(indent: int) -> int {
    if indent + 4 <= usize::MAX as int {
        indent + 4
    } else {
        indent
    }
}

/// The rendered text of a shape at a given indentation: scalar names,
/// `?` and `[]` suffixes, and braced field lines for records.
pub open spec fn spec_render(s: SpecShape, indent: int) -> Seq<char>
    decreases s,
{
    match s {
        SpecShape::Bottom => "bottom"@,
        SpecShape::Top => "top"@,
        SpecShape::Bool => "bool"@,
        SpecShape::Str => "str"@,
        SpecShape::Integer => "int"@,
        SpecShape::Float => "float"@,
        SpecShape::Optional(x) => spec_render(*x, indent) + "?"@,
        SpecShape::List(x) => spec_render(*x, indent) + "[]"@,
        SpecShape::Record(fs) => "{\n"@ + spec_render_fields(fs, next_indent(indent)) + spaces(
            indent,
        ) + "}"@,
    }
}

/// One rendered field line: indentation, key, value, and a trailing comma.
pub open spec fn spec_render_field(p: (Seq<char>, SpecShape), indent: int) -> Seq<char>
    decreases p,
{
    spaces(indent) + p.0 + ": "@ + spec_render(p.1, indent) + ",\n"@
}

/// The rendered lines of a record's fields, in order.
pub open spec fn spec_render_fields(fs: Seq<(Seq<char>, SpecShape)>, indent: int) -> Seq<char>
    decreases fs,
    via spec_render_fields_decreases
{
    if fs.len() == 0 {
        Seq::empty()
    } else {
        spec_render_field(fs[0], indent) + spec_render_fields(fs.drop_first(), indent)
    }
}

#[via_fn]
proof fn spec_render_fields_decreases(fs: Seq<(Seq<char>, SpecShape)>, indent: int) {
    if fs.len() > 0 {
        vstd::seq::axiom_seq_index_decreases(fs, 0);
        assert(decreases_to!(fs[0] => fs[0].1));
    }
}

proof fn lemma_render_fields_snoc(fs: Seq<(Seq<char>, SpecShape)>, p: (Seq<char>, SpecShape), indent: int)
    ensures
        spec_render_fields(fs.push(p), indent) == spec_render_fields(fs, indent)
            + spec_render_field(p, indent),
    decreases fs.len(),
{
    if fs.len() == 0 {
        assert(fs.push(p)[0] == p);
        assert(fs.push(p).drop_first() =~= Seq::<(Seq<char>, SpecShape)>::empty());
        assert(spec_render_fields(fs.push(p), indent) == spec_render_field(p, indent)
            + spec_render_fields(fs.push(p).drop_first(), indent));
        assert(spec_render_fields(fs.push(p).drop_first(), indent) == Seq::<char>::empty());
        assert(spec_render_fields(fs, indent) == Seq::<char>::empty());
        assert(spec_render_field(p, indent) + Seq::<char>::empty() =~= Seq::<char>::empty()
            + spec_render_field(p, indent));
    } else {
        assert(fs.push(p).drop_first() =~= fs.drop_first().push(p));
        lemma_render_fields_snoc(fs.drop_first(), p, indent);
        assert(fs.push(p)[0] == fs[0]);
        assert(spec_render_fields(fs.push(p), indent) == spec_render_field(fs[0], indent) + (
        spec_render_fields(fs.drop_first(), indent) + spec_render_field(p, indent)));
        assert(spec_render_field(fs[0], indent) + (spec_render_fields(fs.drop_first(), indent)
            + spec_render_field(p, indent)) =~= (spec_render_field(fs[0], indent)
            + spec_render_fields(fs.drop_first(), indent)) + spec_render_field(p, indent));
    }
}

/// Pushes `indent` spaces onto the buffer.
#[verifier::loop_isolation(false)]
fn do_indent(buffer: &mut String, indent: usize)
    ensures
        final(buffer)@ == old(buffer)@ + spaces(indent as int),
{
    let mut i: usize = 0;
    proof {
        assert(buffer@ =~= old(buffer)@ + spaces(0));
    }
    while i < indent
        invariant
            i <= indent,
            buffer@ == old(buffer)@ + spaces(i as int),
        decreases indent - i,
    {
        buffer.append(" ");
        proof {
            reveal_strlit(" ");
            assert(buffer@ =~= old(buffer)@ + spaces(i + 1));
        }
        i += 1;
    }
}

/// Renders `shape` onto the end of `buffer` at the given indentation.
#[verifier::loop_isolation(false)]
fn shape_to_string_inner(shape: &Shape, buffer: &mut String, indent: usize)
    ensures
        final(buffer)@ == old(buffer)@ + spec_render(shape@, indent as int),
    decreases shape,
{
    match shape {
        Shape::Bottom => buffer.append("bottom"),
        Shape::Top => buffer.append("top"),
        Shape::Bool => buffer.append("bool"),
        Shape::Str => buffer.append("str"),
        Shape::Integer => buffer.append("int"),
        Shape::Float => buffer.append("float"),
        Shape::Optional(inner_shape) => {
            proof {
                assert(decreases_to!(*shape => shape->Optional_0));
            }
            shape_to_string_inner(inner_shape, buffer, indent);
            buffer.append("?");
        },
        Shape::List(inner_shape) => {
            proof {
                assert(decreases_to!(*shape => shape->List_0));
            }
            shape_to_string_inner(inner_shape, buffer, indent);
            buffer.append("[]");
        },
        Shape::Record(inner_shapes) => {
            let ghost rep = fields_rep(inner_shapes@);
            buffer.append("{\n");
            let next = if indent <= usize::MAX - 4 {
                indent + 4
            } else {
                indent
            };
            let mut i: usize = 0;
            proof {
                assert(buffer@ =~= old(buffer)@ + "{\n"@ + spec_render_fields(
                    rep.take(0),
                    next as int,
                ));
            }
            while i < inner_shapes.len()
                invariant
                    i <= inner_shapes@.len(),
                    buffer@ == old(buffer)@ + "{\n"@ + spec_render_fields(
                        rep.take(i as int),
                        next as int,
                    ),
                decreases inner_shapes@.len() - i,
            {
                let ghost buf_pre = buffer@;
                do_indent(buffer, next);
                buffer.append(inner_shapes[i].0.as_str());
                buffer.append(": ");
                proof {
                    assert(*inner_shapes == shape->Record_0);
                    assert(decreases_to!(*shape => shape->Record_0));
                    vstd::std_specs::vec::axiom_vec_index_decreases(*inner_shapes, i as int);
                    assert(decreases_to!(inner_shapes@[i as int] => inner_shapes@[i as int].1));
                }
                shape_to_string_inner(&inner_shapes[i].1, buffer, next);
                buffer.append(",\n");
                proof {
                    lemma_render_fields_snoc(rep.take(i as int), rep[i as int], next as int);
                    assert(rep.take(i + 1) =~= rep.take(i as int).push(rep[i as int]));
                    assert(rep[i as int] == (inner_shapes@[i as int].0@, shape_view(
                        inner_shapes@[i as int].1,
                    )));
                    assert(buffer@ =~= buf_pre + spec_render_field(rep[i as int], next as int));
                    assert(buffer@ =~= old(buffer)@ + "{\n"@ + spec_render_fields(
                        rep.take(i + 1),
                        next as int,
                    ));
                }
                i += 1;
            }
            do_indent(buffer, indent);
            buffer.append("}");
            proof {
                assert(rep.take(inner_shapes@.len() as int) =~= rep);
                assert(buffer@ =~= old(buffer)@ + ("{\n"@ + spec_render_fields(
                    rep,
                    next as int,
                ) + spaces(indent as int) + "}"@));
            }
        },
    }
}

/// Renders a shape as an indented, human-readable schema.
pub fn shape_to_string(shape: &Shape) -> (r: String)
    ensures
        r@ == spec_render(shape@, 0),
{
    let mut buffer = String::new();
    shape_to_string_inner(shape, &mut buffer, 0);
    proof {
        assert(Seq::<char>::empty() + spec_render(shape@, 0) =~= spec_render(shape@, 0));
    }
    buffer
}

/// No key occurs twice in the field list.
pub open spec fn keys_unique(fs: Seq<(Seq<char>, SpecShape)>) -> bool {
    forall|i: int, j: int| 0 <= i < j < fs.len() ==> fs[i].0 != fs[j].0
}

/// A well-formed shape: `Optional` never nests, and a record's keys are
/// unique; both hold of every shape that inference builds.
pub open spec fn shape_wf(s: SpecShape) -> bool
    decreases s,
    via shape_wf_decreases
{
    match s {
        SpecShape::Optional(x) => !(*x is Optional) && shape_wf(*x),
        SpecShape::List(x) => shape_wf(*x),
        SpecShape::Record(fs) => keys_unique(fs) && (forall|i: int|
            0 <= i < fs.len() ==> shape_wf(#[trigger] fs[i].1)),
        _ => true,
    }
}

#[via_fn]
proof fn shape_wf_decreases(s: SpecShape) {
    match s {
        SpecShape::Record(fs) => {
            assert forall|i: int| 0 <= i < fs.len() implies (decreases_to!(s => fs[i].1)) by {
                vstd::seq::axiom_seq_index_decreases(fs, i);
                assert(decreases_to!(fs[i] => fs[i].1));
            }
        },
        _ => {},
    }
}

/// The identity law of the lattice: `Bottom` unified with any shape, on
/// either side, is that shape unchanged.
pub proof fn lemma_unification_identity(x: SpecShape)
    ensures
        spec_common(SpecShape::Bottom, x) == x,
        spec_common(x, SpecShape::Bottom) == x,
{
}

/// The numeric promotion law: `Integer` and `Float` unify to `Float`, in
/// either order.
pub proof fn lemma_numeric_promotion()
    ensures
        spec_common(SpecShape::Integer, SpecShape::Float) == SpecShape::Float,
        spec_common(SpecShape::Float, SpecShape::Integer) == SpecShape::Float,
{
}

/// Optional stickiness: once either side of a unification is `Optional`,
/// the result is `Optional`.
pub proof fn lemma_optional_sticky(a: SpecShape, b: SpecShape)
    ensures
        a is Optional || b is Optional ==> spec_common(a, b) is Optional,
{
}

/// Whether some field of `fs` is named `k`.
pub open spec fn has_field(fs: Seq<(Seq<char>, SpecShape)>, k: Seq<char>) -> bool {
    exists|i: int| 0 <= i < fs.len() && fs[i].0 == k
}

/// The shape of the field of `fs` named `k` (unique when the keys are).
pub open spec fn field_shape(fs: Seq<(Seq<char>, SpecShape)>, k: Seq<char>) -> SpecShape {
    let i = choose|i: int| 0 <= i < fs.len() && fs[i].0 == k;
    fs[i].1
}

/// With unique keys, the field at index `i` is the one its name finds.
proof fn lemma_field_at(fs: Seq<(Seq<char>, SpecShape)>, i: int)
    requires
        keys_unique(fs),
        0 <= i < fs.len(),
    ensures
        has_field(fs, fs[i].0),
        field_shape(fs, fs[i].0) == fs[i].1,
{
    assert(0 <= i < fs.len() && fs[i].0 == fs[i].0);
    let c = choose|c: int| 0 <= c < fs.len() && fs[c].0 == fs[i].0;
    if c != i {
        if c < i {
            assert(fs[c].0 != fs[i].0);
        } else {
            assert(fs[i].0 != fs[c].0);
        }
    }
}

proof fn lemma_unique_drop_first(f: Seq<(Seq<char>, SpecShape)>)
    requires
        keys_unique(f),
        f.len() > 0,
    ensures
        keys_unique(f.drop_first()),
        forall|i: int| 0 <= i < f.len() - 1 ==> #[trigger] f.drop_first()[i] == f[i + 1],
{
    assert forall|i: int| 0 <= i < f.len() - 1 implies #[trigger] f.drop_first()[i] == f[i + 1] by {}
}

proof fn lemma_remove_props(f: Seq<(Seq<char>, SpecShape)>, j: int)
    requires
        keys_unique(f),
        0 <= j < f.len(),
    ensures
        keys_unique(f.remove(j)),
        f.remove(j).len() == f.len() - 1,
        forall|i: int| 0 <= i < j ==> #[trigger] f.remove(j)[i] == f[i],
        forall|i: int| j <= i < f.len() - 1 ==> #[trigger] f.remove(j)[i] == f[i + 1],
        forall|k: Seq<char>| k != f[j].0 ==> (has_field(f.remove(j), k) <==> has_field(f, k)),
        forall|k: Seq<char>|
            k != f[j].0 && has_field(f, k) ==> field_shape(f.remove(j), k) == field_shape(f, k),
        !has_field(f.remove(j), f[j].0),
{
    let g = f.remove(j);
    assert forall|i: int| 0 <= i < j implies #[trigger] g[i] == f[i] by {}
    assert forall|i: int| j <= i < f.len() - 1 implies #[trigger] g[i] == f[i + 1] by {}
    assert forall|k: Seq<char>| k != f[j].0 && has_field(f, k) implies has_field(g, k)
        && field_shape(g, k) == field_shape(f, k) by {
        let i = choose|i: int| 0 <= i < f.len() && f[i].0 == k;
        let i2 = if i < j {
            i
        } else {
            i - 1
        };
        assert(g[i2] == f[i]);
        assert(0 <= i2 < g.len() && g[i2].0 == k);
        lemma_field_at(f, i);
        assert(keys_unique(g)) by {
            assert forall|x: int, y: int| 0 <= x < y < g.len() implies g[x].0 != g[y].0 by {
                let fx = if x < j {
                    x
                } else {
                    x + 1
                };
                let fy = if y < j {
                    y
                } else {
                    y + 1
                };
                assert(g[x] == f[fx]);
                assert(g[y] == f[fy]);
            }
        }
        lemma_field_at(g, i2);
    }
    assert forall|k: Seq<char>| k != f[j].0 && has_field(g, k) implies has_field(f, k) by {
        let i = choose|i: int| 0 <= i < g.len() && g[i].0 == k;
        let fi = if i < j {
            i
        } else {
            i + 1
        };
        assert(g[i] == f[fi]);
        assert(0 <= fi < f.len() && f[fi].0 == k);
    }
    assert(keys_unique(g)) by {
        assert forall|x: int, y: int| 0 <= x < y < g.len() implies g[x].0 != g[y].0 by {
            let fx = if x < j {
                x
            } else {
                x + 1
            };
            let fy = if y < j {
                y
            } else {
                y + 1
            };
            assert(g[x] == f[fx]);
            assert(g[y] == f[fy]);
        }
    }
    if has_field(g, f[j].0) {
        let i = choose|i: int| 0 <= i < g.len() && g[i].0 == f[j].0;
        let fi = if i < j {
            i
        } else {
            i + 1
        };
        assert(g[i] == f[fi]);
        assert(fi != j);
        if fi < j {
            assert(f[fi].0 != f[j].0);
        } else {
            assert(f[j].0 != f[fi].0);
        }
    }
}

/// Field-merge completeness: every key of either record appears exactly
/// once in the merge; a key of only one side keeps its shape made
/// optional, and a key of both carries the unification of the two shapes.
pub proof fn lemma_field_merge_complete(
    f1: Seq<(Seq<char>, SpecShape)>,
    f2: Seq<(Seq<char>, SpecShape)>,
)
    requires
        keys_unique(f1),
        keys_unique(f2),
    ensures
        keys_unique(spec_common_fields(f1, f2)),
        forall|k: Seq<char>|
            has_field(#[trigger] spec_common_fields(f1, f2), k) <==> has_field(f1, k)
                || has_field(f2, k),
        forall|k: Seq<char>|
            has_field(f1, k) && has_field(f2, k) ==> field_shape(
                #[trigger] spec_common_fields(f1, f2),
                k,
            ) == spec_common(field_shape(f1, k), field_shape(f2, k)),
        forall|k: Seq<char>|
            has_field(f1, k) && !has_field(f2, k) ==> field_shape(
                #[trigger] spec_common_fields(f1, f2),
                k,
            ) == spec_make_optional(field_shape(f1, k)),
        forall|k: Seq<char>|
            !has_field(f1, k) && has_field(f2, k) ==> field_shape(
                #[trigger] spec_common_fields(f1, f2),
                k,
            ) == spec_make_optional(field_shape(f2, k)),
    decreases f1, f2,
{
    let m = spec_common_fields(f1, f2);
    if f1.len() == 0 {
        assert(m == optionalized(f2));
        assert(m.len() == f2.len());
        assert forall|i: int| 0 <= i < f2.len() implies #[trigger] m[i] == (
            f2[i].0,
            spec_make_optional(f2[i].1),
        ) by {}
        assert(keys_unique(m));
        assert forall|k: Seq<char>| has_field(m, k) implies has_field(f2, k) by {
            let i = choose|i: int| 0 <= i < m.len() && m[i].0 == k;
            assert(f2[i].0 == k);
        }
        assert forall|k: Seq<char>| has_field(f2, k) implies has_field(m, k) && field_shape(m, k)
            == spec_make_optional(field_shape(f2, k)) by {
            let i = choose|i: int| 0 <= i < f2.len() && f2[i].0 == k;
            assert(m[i].0 == k);
            lemma_field_at(f2, i);
            lemma_field_at(m, i);
        }
        assert(forall|k: Seq<char>| !has_field(f1, k)) by {}
    } else {
        let k0 = f1[0].0;
        let j = spec_key_index(f2, k0);
        lemma_key_index_first(f2, k0);
        lemma_field_at(f1, 0);
        lemma_unique_drop_first(f1);
        let f1t = f1.drop_first();
        assert(!has_field(f1t, k0)) by {
            if has_field(f1t, k0) {
                let i = choose|i: int| 0 <= i < f1t.len() && f1t[i].0 == k0;
                assert(f1t[i] == f1[i + 1]);
                assert(f1[0].0 != f1[i + 1].0);
            }
        }
        assert forall|k: Seq<char>| k != k0 implies (has_field(f1t, k) <==> has_field(f1, k)) by {
            if has_field(f1, k) {
                let i = choose|i: int| 0 <= i < f1.len() && f1[i].0 == k;
                assert(i != 0);
                assert(f1t[i - 1] == f1[i]);
            }
            if has_field(f1t, k) {
                let i = choose|i: int| 0 <= i < f1t.len() && f1t[i].0 == k;
                assert(f1t[i] == f1[i + 1]);
            }
        }
        assert forall|k: Seq<char>| k != k0 && has_field(f1, k) implies field_shape(f1t, k)
            == field_shape(f1, k) by {
            let i = choose|i: int| 0 <= i < f1.len() && f1[i].0 == k;
            assert(i != 0);
            assert(f1t[i - 1] == f1[i]);
            lemma_field_at(f1, i);
            lemma_field_at(f1t, i - 1);
        }
        if j >= 0 {
            let h = (k0, spec_common(f1[0].1, f2[j].1));
            let f2r = f2.remove(j);
            lemma_remove_props(f2, j);
            lemma_field_merge_complete(f1t, f2r);
            let mt = spec_common_fields(f1t, f2r);
            assert(m == seq![h] + mt);
            lemma_field_at(f2, j);
            assert(!has_field(mt, k0));
            lemma_merge_cons(h, mt, f1, f2, f1t, f2r);
        } else {
            let h = (k0, spec_make_optional(f1[0].1));
            lemma_field_merge_complete(f1t, f2);
            let mt = spec_common_fields(f1t, f2);
            assert(m == seq![h] + mt);
            assert(!has_field(f2, k0)) by {
                if has_field(f2, k0) {
                    let i = choose|i: int| 0 <= i < f2.len() && f2[i].0 == k0;
                }
            }
            assert(!has_field(mt, k0));
            lemma_merge_cons2(h, mt, f1, f2, f1t);
        }
    }
}

/// Putting one merged field in front of the merge of the remainders.
#[verifier::rlimit(60)]
proof fn lemma_merge_cons(
    h: (Seq<char>, SpecShape),
    mt: Seq<(Seq<char>, SpecShape)>,
    f1: Seq<(Seq<char>, SpecShape)>,
    f2: Seq<(Seq<char>, SpecShape)>,
    f1t: Seq<(Seq<char>, SpecShape)>,
    f2r: Seq<(Seq<char>, SpecShape)>,
)
    requires
        keys_unique(f1),
        keys_unique(f2),
        keys_unique(mt),
        f1.len() > 0,
        f1t == f1.drop_first(),
        h.0 == f1[0].0,
        0 <= spec_key_index(f2, f1[0].0) < f2.len(),
        f2[spec_key_index(f2, f1[0].0)].0 == f1[0].0,
        f2r == f2.remove(spec_key_index(f2, f1[0].0)),
        h.1 == spec_common(field_shape(f1, h.0), field_shape(f2, h.0)),
        !has_field(mt, h.0),
        !has_field(f1t, h.0),
        !has_field(f2r, h.0),
        forall|k: Seq<char>| k != h.0 ==> (has_field(f1t, k) <==> has_field(f1, k)),
        forall|k: Seq<char>|
            k != h.0 && has_field(f1, k) ==> field_shape(f1t, k) == field_shape(f1, k),
        forall|k: Seq<char>| k != h.0 ==> (has_field(f2r, k) <==> has_field(f2, k)),
        forall|k: Seq<char>|
            k != h.0 && has_field(f2, k) ==> field_shape(f2r, k) == field_shape(f2, k),
        forall|k: Seq<char>|
            has_field(mt, k) <==> has_field(f1t, k) || has_field(f2r, k),
        forall|k: Seq<char>|
            has_field(f1t, k) && has_field(f2r, k) ==> field_shape(mt, k) == spec_common(
                field_shape(f1t, k),
                field_shape(f2r, k),
            ),
        forall|k: Seq<char>|
            has_field(f1t, k) && !has_field(f2r, k) ==> field_shape(mt, k) == spec_make_optional(
                field_shape(f1t, k),
            ),
        forall|k: Seq<char>|
            !has_field(f1t, k) && has_field(f2r, k) ==> field_shape(mt, k) == spec_make_optional(
                field_shape(f2r, k),
            ),
    ensures
        keys_unique(seq![h] + mt),
        forall|k: Seq<char>|
            has_field(seq![h] + mt, k) <==> has_field(f1, k) || has_field(f2, k),
        forall|k: Seq<char>|
            has_field(f1, k) && has_field(f2, k) ==> field_shape(seq![h] + mt, k) == spec_common(
                field_shape(f1, k),
                field_shape(f2, k),
            ),
        forall|k: Seq<char>|
            has_field(f1, k) && !has_field(f2, k) ==> field_shape(seq![h] + mt, k)
                == spec_make_optional(field_shape(f1, k)),
        forall|k: Seq<char>|
            !has_field(f1, k) && has_field(f2, k) ==> field_shape(seq![h] + mt, k)
                == spec_make_optional(field_shape(f2, k)),
{
    let m = seq![h] + mt;
    assert(m[0] == h);
    assert forall|i: int| 1 <= i < m.len() implies #[trigger] m[i] == mt[i - 1] by {}
    assert(keys_unique(m)) by {
        assert forall|x: int, y: int| 0 <= x < y < m.len() implies m[x].0 != m[y].0 by {
            if x == 0 {
                assert(m[y] == mt[y - 1]);
                if m[y].0 == h.0 {
                    assert(0 <= y - 1 < mt.len() && mt[y - 1].0 == h.0);
                }
            } else {
                assert(m[x] == mt[x - 1]);
                assert(m[y] == mt[y - 1]);
            }
        }
    }
    assert forall|k: Seq<char>| has_field(m, k) implies has_field(f1, k) || has_field(f2, k) by {
        let i = choose|i: int| 0 <= i < m.len() && m[i].0 == k;
        if i == 0 {
            lemma_field_at(f1, 0);
        } else {
            assert(m[i] == mt[i - 1]);
            assert(0 <= i - 1 < mt.len() && mt[i - 1].0 == k);
        }
    }
    assert forall|k: Seq<char>| has_field(f1, k) || has_field(f2, k) implies has_field(m, k)
        && field_shape(m, k) == (if has_field(f1, k) && has_field(f2, k) {
        spec_common(field_shape(f1, k), field_shape(f2, k))
    } else if has_field(f1, k) {
        spec_make_optional(field_shape(f1, k))
    } else {
        spec_make_optional(field_shape(f2, k))
    }) by {
        if k == h.0 {
            assert(m[0].0 == k);
            lemma_field_at(m, 0);
            assert(has_field(f2, k)) by {
                let j = spec_key_index(f2, h.0);
                assert(0 <= j < f2.len() && f2[j].0 == h.0);
            }
        } else {
            assert(has_field(mt, k));
            let i = choose|i: int| 0 <= i < mt.len() && mt[i].0 == k;
            assert(m[i + 1] == mt[i]);
            lemma_field_at(m, i + 1);
            lemma_field_at(mt, i);
        }
    }
}

/// Putting one optional field (whose key the other record lacks) in front
/// of the merge of the remainders.
#[verifier::rlimit(60)]
proof fn lemma_merge_cons2(
    h: (Seq<char>, SpecShape),
    mt: Seq<(Seq<char>, SpecShape)>,
    f1: Seq<(Seq<char>, SpecShape)>,
    f2: Seq<(Seq<char>, SpecShape)>,
    f1t: Seq<(Seq<char>, SpecShape)>,
)
    requires
        keys_unique(f1),
        keys_unique(f2),
        keys_unique(mt),
        f1.len() > 0,
        f1t == f1.drop_first(),
        h.0 == f1[0].0,
        h.1 == spec_make_optional(field_shape(f1, h.0)),
        !has_field(f2, h.0),
        !has_field(mt, h.0),
        !has_field(f1t, h.0),
        forall|k: Seq<char>| k != h.0 ==> (has_field(f1t, k) <==> has_field(f1, k)),
        forall|k: Seq<char>|
            k != h.0 && has_field(f1, k) ==> field_shape(f1t, k) == field_shape(f1, k),
        forall|k: Seq<char>|
            has_field(mt, k) <==> has_field(f1t, k) || has_field(f2, k),
        forall|k: Seq<char>|
            has_field(f1t, k) && has_field(f2, k) ==> field_shape(mt, k) == spec_common(
                field_shape(f1t, k),
                field_shape(f2, k),
            ),
        forall|k: Seq<char>|
            has_field(f1t, k) && !has_field(f2, k) ==> field_shape(mt, k) == spec_make_optional(
                field_shape(f1t, k),
            ),
        forall|k: Seq<char>|
            !has_field(f1t, k) && has_field(f2, k) ==> field_shape(mt, k) == spec_make_optional(
                field_shape(f2, k),
            ),
    ensures
        keys_unique(seq![h] + mt),
        forall|k: Seq<char>|
            has_field(seq![h] + mt, k) <==> has_field(f1, k) || has_field(f2, k),
        forall|k: Seq<char>|
            has_field(f1, k) && has_field(f2, k) ==> field_shape(seq![h] + mt, k) == spec_common(
                field_shape(f1, k),
                field_shape(f2, k),
            ),
        forall|k: Seq<char>|
            has_field(f1, k) && !has_field(f2, k) ==> field_shape(seq![h] + mt, k)
                == spec_make_optional(field_shape(f1, k)),
        forall|k: Seq<char>|
            !has_field(f1, k) && has_field(f2, k) ==> field_shape(seq![h] + mt, k)
                == spec_make_optional(field_shape(f2, k)),
{
    let m = seq![h] + mt;
    assert(m[0] == h);
    assert forall|i: int| 1 <= i < m.len() implies #[trigger] m[i] == mt[i - 1] by {}
    assert(keys_unique(m)) by {
        assert forall|x: int, y: int| 0 <= x < y < m.len() implies m[x].0 != m[y].0 by {
            if x == 0 {
                assert(m[y] == mt[y - 1]);
                if m[y].0 == h.0 {
                    assert(0 <= y - 1 < mt.len() && mt[y - 1].0 == h.0);
                }
            } else {
                assert(m[x] == mt[x - 1]);
                assert(m[y] == mt[y - 1]);
            }
        }
    }
    assert forall|k: Seq<char>| has_field(m, k) implies has_field(f1, k) || has_field(f2, k) by {
        let i = choose|i: int| 0 <= i < m.len() && m[i].0 == k;
        if i == 0 {
            lemma_field_at(f1, 0);
        } else {
            assert(m[i] == mt[i - 1]);
            assert(0 <= i - 1 < mt.len() && mt[i - 1].0 == k);
        }
    }
    assert forall|k: Seq<char>| has_field(f1, k) || has_field(f2, k) implies has_field(m, k)
        && field_shape(m, k) == (if has_field(f1, k) && has_field(f2, k) {
        spec_common(field_shape(f1, k), field_shape(f2, k))
    } else if has_field(f1, k) {
        spec_make_optional(field_shape(f1, k))
    } else {
        spec_make_optional(field_shape(f2, k))
    }) by {
        if k == h.0 {
            assert(m[0].0 == k);
            lemma_field_at(m, 0);
        } else {
            assert(has_field(mt, k));
            let i = choose|i: int| 0 <= i < mt.len() && mt[i].0 == k;
            assert(m[i + 1] == mt[i]);
            lemma_field_at(m, i + 1);
            lemma_field_at(mt, i);
        }
    }
}

/// Making a well-formed shape optional keeps it well-formed.
proof fn lemma_make_optional_wf(a: SpecShape)
    requires
        shape_wf(a),
    ensures
        shape_wf(spec_make_optional(a)),
        spec_make_optional(a) is Optional,
{
}

/// Unification preserves well-formedness: in particular, `Optional` never
/// comes out nested.
pub proof fn lemma_common_shape_wf(a: SpecShape, b: SpecShape)
    requires
        shape_wf(a),
        shape_wf(b),
    ensures
        shape_wf(spec_common(a, b)),
    decreases a, b,
{
    if a == b {
    } else {
        match (a, b) {
            (a2, SpecShape::Bottom) => {},
            (SpecShape::Bottom, b2) => {},
            (SpecShape::Integer, SpecShape::Float) => {},
            (SpecShape::Float, SpecShape::Integer) => {},
            (SpecShape::Optional(x), SpecShape::Optional(y)) => {
                lemma_common_shape_wf(*x, *y);
                lemma_make_optional_wf(spec_common(*x, *y));
            },
            (SpecShape::Optional(x), b2) => {
                if !(b2 is Bottom) && !(b2 is Optional) && !(a is Integer && b2 is Float) && !(
                a is Float && b2 is Integer) {
                    lemma_common_shape_wf(*x, b2);
                    lemma_make_optional_wf(spec_common(*x, b2));
                }
            },
            (a2, SpecShape::Optional(y)) => {
                lemma_common_shape_wf(a2, *y);
                lemma_make_optional_wf(spec_common(a2, *y));
            },
            (SpecShape::List(x), SpecShape::List(y)) => {
                lemma_common_shape_wf(*x, *y);
            },
            (SpecShape::Record(f1), SpecShape::Record(f2)) => {
                lemma_common_fields_wf(f1, f2);
                lemma_field_merge_complete(f1, f2);
            },
            _ => {},
        }
    }
}

/// Every shape in a field merge of well-formed records is well-formed.
proof fn lemma_common_fields_wf(f1: Seq<(Seq<char>, SpecShape)>, f2: Seq<(Seq<char>, SpecShape)>)
    requires
        keys_unique(f1),
        keys_unique(f2),
        forall|i: int| 0 <= i < f1.len() ==> shape_wf(#[trigger] f1[i].1),
        forall|i: int| 0 <= i < f2.len() ==> shape_wf(#[trigger] f2[i].1),
    ensures
        forall|i: int|
            0 <= i < spec_common_fields(f1, f2).len() ==> shape_wf(
                #[trigger] spec_common_fields(f1, f2)[i].1,
            ),
    decreases f1, f2,
{
    let m = spec_common_fields(f1, f2);
    if f1.len() == 0 {
        assert forall|i: int| 0 <= i < m.len() implies shape_wf(m[i].1) by {
            assert(m[i] == (f2[i].0, spec_make_optional(f2[i].1)));
            lemma_make_optional_wf(f2[i].1);
        }
    } else {
        let k0 = f1[0].0;
        let j = spec_key_index(f2, k0);
        lemma_key_index_first(f2, k0);
        lemma_unique_drop_first(f1);
        let f1t = f1.drop_first();
        assert forall|i: int| 0 <= i < f1t.len() implies shape_wf(#[trigger] f1t[i].1) by {
            assert(f1t[i] == f1[i + 1]);
        }
        if j >= 0 {
            lemma_remove_props(f2, j);
            let f2r = f2.remove(j);
            assert forall|i: int| 0 <= i < f2r.len() implies shape_wf(#[trigger] f2r[i].1) by {
                if i < j {
                    assert(f2r[i] == f2[i]);
                } else {
                    assert(f2r[i] == f2[i + 1]);
                }
            }
            lemma_common_shape_wf(f1[0].1, f2[j].1);
            lemma_common_fields_wf(f1t, f2r);
            let mt = spec_common_fields(f1t, f2r);
            assert(m == seq![(k0, spec_common(f1[0].1, f2[j].1))] + mt);
            assert forall|i: int| 0 <= i < m.len() implies shape_wf(m[i].1) by {
                if i == 0 {
                    assert(m[0] == (k0, spec_common(f1[0].1, f2[j].1)));
                } else {
                    assert(m[i] == mt[i - 1]);
                }
            }
        } else {
            lemma_make_optional_wf(f1[0].1);
            lemma_common_fields_wf(f1t, f2);
            let mt = spec_common_fields(f1t, f2);
            assert(m == seq![(k0, spec_make_optional(f1[0].1))] + mt);
            assert forall|i: int| 0 <= i < m.len() implies shape_wf(m[i].1) by {
                if i == 0 {
                    assert(m[0] == (k0, spec_make_optional(f1[0].1)));
                } else {
                    assert(m[i] == mt[i - 1]);
                }
            }
        }
    }
}

/// When two shapes unify symmetrically: wherever the unification walks
/// into a pair of records, their common key prefix agrees position by
/// position (one record's key list is a prefix of the other's). Merging
/// records whose key lists disagree in order or interleave is the one
/// place where unification prefers its first argument's field order, so
/// it is excluded here.
pub open spec fn merge_aligned(a: SpecShape, b: SpecShape) -> bool
    decreases a, b,
    via merge_aligned_decreases
{
    match (a, b) {
        (SpecShape::Optional(x), SpecShape::Optional(y)) => merge_aligned(*x, *y),
        (SpecShape::Optional(x), b2) => merge_aligned(*x, b2),
        (a2, SpecShape::Optional(y)) => merge_aligned(a2, *y),
        (SpecShape::List(x), SpecShape::List(y)) => merge_aligned(*x, *y),
        (SpecShape::Record(f1), SpecShape::Record(f2)) => {
            let n = if f1.len() <= f2.len() {
                f1.len() as int
            } else {
                f2.len() as int
            };
            &&& forall|i: int| 0 <= i < n ==> (#[trigger] f1[i]).0 == f2[i].0
            &&& forall|i: int|
                0 <= i < n ==> merge_aligned((#[trigger] f1[i]).1, f2[i].1)
        },
        _ => true,
    }
}

#[via_fn]
proof fn merge_aligned_decreases(a: SpecShape, b: SpecShape) {
    match (a, b) {
        (SpecShape::Record(f1), SpecShape::Record(f2)) => {
            let n = if f1.len() <= f2.len() {
                f1.len() as int
            } else {
                f2.len() as int
            };
            assert forall|i: int| 0 <= i < n implies (decreases_to!(a => f1[i].1)) by {
                vstd::seq::axiom_seq_index_decreases(f1, i);
                assert(decreases_to!(f1[i] => f1[i].1));
            }
        },
        _ => {},
    }
}

/// Commutativity of unification, on every pair of shapes whose record
/// merges are aligned; `merge_aligned` names exactly the scope on which
/// the field order of the result does not depend on the argument order.
pub proof fn lemma_common_shape_commutes(a: SpecShape, b: SpecShape)
    requires
        merge_aligned(a, b),
    ensures
        spec_common(a, b) == spec_common(b, a),
    decreases a, b,
{
    if a == b {
    } else {
        match (a, b) {
            (a2, SpecShape::Bottom) => {},
            (SpecShape::Bottom, b2) => {},
            (SpecShape::Integer, SpecShape::Float) => {},
            (SpecShape::Float, SpecShape::Integer) => {},
            (SpecShape::Optional(x), SpecShape::Optional(y)) => {
                lemma_common_shape_commutes(*x, *y);
            },
            (SpecShape::Optional(x), b2) => {
                lemma_common_shape_commutes(*x, b2);
            },
            (a2, SpecShape::Optional(y)) => {
                lemma_common_shape_commutes(a2, *y);
            },
            (SpecShape::List(x), SpecShape::List(y)) => {
                lemma_common_shape_commutes(*x, *y);
            },
            (SpecShape::Record(f1), SpecShape::Record(f2)) => {
                lemma_common_fields_commutes(f1, f2);
            },
            _ => {},
        }
    }
}

/// Merging two aligned field lists is symmetric.
proof fn lemma_common_fields_commutes(
    f1: Seq<(Seq<char>, SpecShape)>,
    f2: Seq<(Seq<char>, SpecShape)>,
)
    requires
        ({
            let n = if f1.len() <= f2.len() {
                f1.len() as int
            } else {
                f2.len() as int
            };
            &&& forall|i: int| 0 <= i < n ==> (#[trigger] f1[i]).0 == f2[i].0
            &&& forall|i: int|
                0 <= i < n ==> merge_aligned((#[trigger] f1[i]).1, f2[i].1)
        }),
    ensures
        spec_common_fields(f1, f2) == spec_common_fields(f2, f1),
    decreases f1, f2,
{
    if f1.len() == 0 && f2.len() == 0 {
        assert(optionalized(f1) =~= optionalized(f2));
    } else if f1.len() == 0 {
        let k0 = f2[0].0;
        assert(spec_key_index(f1, k0) == -1);
        let f2t = f2.drop_first();
        lemma_common_fields_commutes(f1, f2t);
        assert(spec_common_fields(f2, f1) == seq![(k0, spec_make_optional(f2[0].1))]
            + spec_common_fields(f2t, f1));
        assert(spec_common_fields(f1, f2t) == optionalized(f2t));
        assert(optionalized(f2) =~= seq![(k0, spec_make_optional(f2[0].1))] + optionalized(f2t));
    } else if f2.len() == 0 {
        let k0 = f1[0].0;
        assert(spec_key_index(f2, k0) == -1);
        let f1t = f1.drop_first();
        lemma_common_fields_commutes(f1t, f2);
        assert(spec_common_fields(f1, f2) == seq![(k0, spec_make_optional(f1[0].1))]
            + spec_common_fields(f1t, f2));
        assert(spec_common_fields(f2, f1t) == optionalized(f1t));
        assert(optionalized(f1) =~= seq![(k0, spec_make_optional(f1[0].1))] + optionalized(f1t));
    } else {
        let k0 = f1[0].0;
        assert(f2[0].0 == k0);
        assert(spec_key_index(f2, k0) == 0);
        assert(spec_key_index(f1, k0) == 0);
        let f1t = f1.drop_first();
        let f2t = f2.drop_first();
        assert(f2.remove(0) =~= f2t);
        assert(f1.remove(0) =~= f1t);
        assert(merge_aligned(f1[0].1, f2[0].1));
        vstd::seq::axiom_seq_index_decreases(f1, 0);
        assert(decreases_to!(f1[0] => f1[0].1));
        lemma_common_shape_commutes(f1[0].1, f2[0].1);
        assert forall|i: int|
            0 <= i < (if f1t.len() <= f2t.len() {
                f1t.len() as int
            } else {
                f2t.len() as int
            }) implies (#[trigger] f1t[i]).0 == f2t[i].0 && merge_aligned(f1t[i].1, f2t[i].1) by {
            assert(f1t[i] == f1[i + 1]);
            assert(f2t[i] == f2[i + 1]);
        }
        lemma_common_fields_commutes(f1t, f2t);
        assert(spec_common_fields(f1, f2) == seq![(k0, spec_common(f1[0].1, f2[0].1))]
            + spec_common_fields(f1t, f2t));
        assert(spec_common_fields(f2, f1) == seq![(k0, spec_common(f2[0].1, f1[0].1))]
            + spec_common_fields(f2t, f1t));
    }
}

} // verus!
