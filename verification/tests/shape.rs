use typegen::shape::Shape::{Bool, Bottom, Float, Integer, List, Optional, Record, Str, Top};
use typegen::shape::{common_field_shapes, common_shape, fold_shapes, shape_to_string, Shape};
use typegen::typegen;

#[test]
fn unify() {
    assert_eq!(common_shape(Bool, Bool), Bool);
    assert_eq!(common_shape(Bool, Integer), Top);
    assert_eq!(common_shape(Integer, Float), Float);
    assert_eq!(
        common_shape(Optional(Box::new(Bottom)), Top),
        Optional(Box::new(Top))
    );
    assert_eq!(
        common_shape(Optional(Box::new(Bottom)), Bool),
        Optional(Box::new(Bool))
    );
    assert_eq!(
        common_shape(Optional(Box::new(Bottom)), Optional(Box::new(Integer))),
        Optional(Box::new(Integer))
    );
    assert_eq!(
        common_shape(List(Box::new(Float)), List(Box::new(Integer))),
        List(Box::new(Float))
    );
    assert_eq!(
        common_shape(Top, Optional(Box::new(Integer))),
        Optional(Box::new(Top))
    );
    assert_eq!(
        common_shape(Optional(Box::new(Integer)), Optional(Box::new(Float))),
        Optional(Box::new(Float))
    );
    assert_eq!(
        common_shape(Optional(Box::new(Str)), Optional(Box::new(Integer))),
        Optional(Box::new(Top))
    );
}

#[test]
fn unify_records() {
    let f1 = vec![
        ("a".to_string(), Integer),
        ("b".to_string(), Bool),
        ("c".to_string(), Integer),
        ("d".to_string(), Str),
    ];
    let f2 = vec![
        ("a".to_string(), Integer),
        ("c".to_string(), Float),
        ("d".to_string(), Optional(Box::new(Bottom))),
        ("e".to_string(), Top),
    ];
    assert_eq!(
        common_field_shapes(f1, f2),
        vec![
            ("a".to_string(), Integer),
            ("b".to_string(), Optional(Box::new(Bool))),
            ("c".to_string(), Float),
            ("d".to_string(), Optional(Box::new(Str))),
            ("e".to_string(), Optional(Box::new(Top))),
        ]
    );
}

#[test]
fn unify_identity() {
    // Bottom is the identity element, on either side.
    let samples = vec![
        Bottom,
        Top,
        Bool,
        Str,
        Integer,
        Float,
        Optional(Box::new(Bool)),
        List(Box::new(Integer)),
        Record(vec![("k".to_string(), Str)]),
    ];
    for s in samples {
        let t = common_shape(Bottom, dup(&s));
        assert_eq!(t, s);
        let t = common_shape(dup(&s), Bottom);
        assert_eq!(t, s);
    }
}

// Rebuilds a sample shape; the library's shapes are deliberately not
// clonable, and these tests only need a handful of small values.
fn dup(s: &Shape) -> Shape {
    match s {
        Bottom => Bottom,
        Top => Top,
        Bool => Bool,
        Str => Str,
        Integer => Integer,
        Float => Float,
        Optional(x) => Optional(Box::new(dup(x))),
        List(x) => List(Box::new(dup(x))),
        Record(fs) => Record(fs.iter().map(|(k, v)| (k.clone(), dup(v))).collect()),
    }
}

#[test]
fn unify_commutes_on_aligned_inputs() {
    let pairs = vec![
        (Bool, Str),
        (Integer, Float),
        (Optional(Box::new(Integer)), Float),
        (List(Box::new(Integer)), List(Box::new(Float))),
        (
            Record(vec![("a".to_string(), Integer)]),
            Record(vec![("a".to_string(), Float), ("b".to_string(), Bool)]),
        ),
    ];
    for (a, b) in pairs {
        assert_eq!(
            common_shape(dup(&a), dup(&b)),
            common_shape(b, a)
        );
    }
}

#[test]
fn optional_never_nests() {
    let unified = common_shape(
        Optional(Box::new(Integer)),
        Optional(Box::new(Optional(Box::new(Integer)))),
    );
    assert_eq!(unified, Optional(Box::new(Integer)));
    let unified = common_shape(Optional(Box::new(Bool)), Bool);
    assert_eq!(unified, Optional(Box::new(Bool)));
}

#[test]
fn fold() {
    assert_eq!(fold_shapes(vec![]), Bottom);
    assert_eq!(fold_shapes(vec![Integer, Float, Integer]), Float);
    assert_eq!(fold_shapes(vec![Bool, Str]), Top);
    assert_eq!(
        fold_shapes(vec![Bool, Optional(Box::new(Bottom))]),
        Optional(Box::new(Bool))
    );
}

#[test]
fn render() {
    assert_eq!(shape_to_string(&Bottom), "bottom");
    assert_eq!(shape_to_string(&Top), "top");
    assert_eq!(shape_to_string(&Optional(Box::new(Str))), "str?");
    assert_eq!(shape_to_string(&List(Box::new(Integer))), "int[]");
    assert_eq!(shape_to_string(&Record(vec![])), "{\n}");
    assert_eq!(
        shape_to_string(&Record(vec![
            ("foo".to_string(), Bool),
            ("bar".to_string(), Record(vec![("baz".to_string(), Float)])),
        ])),
        "{\n    foo: bool,\n    bar: {\n        baz: float,\n    },\n}"
    );
}

#[test]
fn render_is_pure() {
    let shape = Record(vec![
        ("a".to_string(), List(Box::new(Optional(Box::new(Integer))))),
        ("b".to_string(), Str),
    ]);
    let first = shape_to_string(&shape);
    let second = shape_to_string(&shape);
    assert_eq!(first, second);
}

#[test]
fn typegen_end_to_end() {
    assert_eq!(typegen(b"{}"), Ok("{\n}".to_string()));
    assert_eq!(
        typegen(br#"{"foo": true}"#),
        Ok("{\n    foo: bool,\n}".to_string())
    );
    assert_eq!(
        typegen(br#"[true, "hello"]"#),
        Ok("top[]".to_string())
    );
    assert_eq!(
        typegen(br#"[{"a": 1}, {"a": 2.5, "b": null}]"#),
        Ok("{\n    a: float,\n    b: bottom?,\n}[]".to_string())
    );
    assert_eq!(
        typegen(b"[true"),
        Err(typegen::jsoninputerr::JsonInputErr::UnexpectedEndOfInput)
    );
    assert_eq!(
        typegen(b"true false"),
        Err(typegen::jsoninputerr::JsonInputErr::InvalidJson)
    );
}
