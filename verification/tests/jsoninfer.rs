use typegen::jsoninfer::FromJson;
use typegen::jsoninputerr::JsonInputErr;
use typegen::shape::Shape;

#[test]
fn infer_object() {
    assert_eq!(Shape::from_json(r#"{}"#.as_bytes()), Ok(Shape::Record(vec![])));
    assert_eq!(
        Shape::from_json(
            r#"{
                "foo": true
            }"#
            .as_bytes()
        ),
        Ok(Shape::Record(vec![("foo".to_string(), Shape::Bool)]))
    );
    assert_eq!(
        Shape::from_json(
            r#"{
                "foo": true,
                "bar": false
            }"#
            .as_bytes()
        ),
        Ok(Shape::Record(vec![
            ("foo".to_string(), Shape::Bool),
            ("bar".to_string(), Shape::Bool)
        ]))
    );

    assert_eq!(
        Shape::from_json(
            r#"{
                "foo": true
                "bar": false
            }"#
            .as_bytes()
        ),
        Err(JsonInputErr::InvalidJson)
    );
    assert_eq!(
        Shape::from_json(
            r#"{
                "foo": true,
            }"#
            .as_bytes()
        ),
        Err(JsonInputErr::InvalidJson)
    );
    assert_eq!(
        Shape::from_json(
            r#"{
                "foo": true,
            "#
            .as_bytes()
        ),
        Err(JsonInputErr::UnexpectedEndOfInput)
    );
}

#[test]
fn infer_array() {
    assert_eq!(
        Shape::from_json(r#"[]"#.as_bytes()),
        Ok(Shape::List(Box::new(Shape::Bottom)))
    );
    assert_eq!(
        Shape::from_json(r#"[true]"#.as_bytes()),
        Ok(Shape::List(Box::new(Shape::Bool)))
    );
    assert_eq!(
        Shape::from_json(r#"[true, false]"#.as_bytes()),
        Ok(Shape::List(Box::new(Shape::Bool)))
    );
    assert_eq!(
        Shape::from_json(r#"[true, "hello"]"#.as_bytes()),
        Ok(Shape::List(Box::new(Shape::Top)))
    );

    assert_eq!(
        Shape::from_json(r#"[true false]"#.as_bytes()),
        Err(JsonInputErr::InvalidJson)
    );
    assert_eq!(
        Shape::from_json(r#"[true,]"#.as_bytes()),
        Err(JsonInputErr::InvalidJson)
    );
    assert_eq!(
        Shape::from_json(r#"[true"#.as_bytes()),
        Err(JsonInputErr::UnexpectedEndOfInput)
    );
}

#[test]
fn infer_scalars() {
    assert_eq!(Shape::from_json(b"true"), Ok(Shape::Bool));
    assert_eq!(Shape::from_json(b"false"), Ok(Shape::Bool));
    assert_eq!(Shape::from_json(b"null"), Ok(Shape::Optional(Box::new(Shape::Bottom))));
    assert_eq!(Shape::from_json(b"\"hi\""), Ok(Shape::Str));
    assert_eq!(Shape::from_json(b"42"), Ok(Shape::Integer));
    assert_eq!(Shape::from_json(b"-7"), Ok(Shape::Integer));
    assert_eq!(Shape::from_json(b"3.25"), Ok(Shape::Float));
    // The float/integer split is purely textual: no decimal point means
    // integer, exponent or not.
    assert_eq!(Shape::from_json(b"1e10"), Ok(Shape::Integer));
}

#[test]
fn infer_nested() {
    assert_eq!(
        Shape::from_json(br#"{"a": [1, 2.5], "b": {"c": null}}"#),
        Ok(Shape::Record(vec![
            ("a".to_string(), Shape::List(Box::new(Shape::Float))),
            (
                "b".to_string(),
                Shape::Record(vec![(
                    "c".to_string(),
                    Shape::Optional(Box::new(Shape::Bottom))
                )])
            ),
        ]))
    );
    assert_eq!(
        Shape::from_json(br#"[{"a": 1}, {"b": true}]"#),
        Ok(Shape::List(Box::new(Shape::Record(vec![
            ("a".to_string(), Shape::Optional(Box::new(Shape::Integer))),
            ("b".to_string(), Shape::Optional(Box::new(Shape::Bool))),
        ]))))
    );
}

#[test]
fn infer_errors() {
    // A repeated object key is rejected rather than silently appended.
    assert_eq!(
        Shape::from_json(br#"{"a": 1, "a": 2}"#),
        Err(JsonInputErr::InvalidJson)
    );
    // An unrecognized escape byte carries the offending byte.
    assert_eq!(
        Shape::from_json(br#""a\qb""#),
        Err(JsonInputErr::InvalidEscape(b'q'))
    );
    // A bad hex digit in a unicode escape is an escape error too.
    assert_eq!(
        Shape::from_json(br#""\u12g4""#),
        Err(JsonInputErr::InvalidEscape(b'g'))
    );
    // A stray continuation byte is not valid UTF-8.
    assert_eq!(Shape::from_json(b"\"\xff\""), Err(JsonInputErr::InvalidUtf8));
    // A surrogate escape does not name a Unicode scalar value.
    assert_eq!(Shape::from_json(br#""\uD800""#), Err(JsonInputErr::InvalidUtf8));
    // A number run without a digit is malformed.
    assert_eq!(Shape::from_json(b"-"), Err(JsonInputErr::InvalidJson));
    // A value cannot start with punctuation.
    assert_eq!(Shape::from_json(b","), Err(JsonInputErr::InvalidJson));
    assert_eq!(Shape::from_json(b""), Err(JsonInputErr::UnexpectedEndOfInput));
    assert_eq!(Shape::from_json(b"tru"), Err(JsonInputErr::UnexpectedEndOfInput));
    assert_eq!(Shape::from_json(b"@"), Err(JsonInputErr::InvalidJson));
}

#[test]
fn infer_escapes() {
    // Escapes and multi-byte UTF-8 decode into the key text.
    assert_eq!(
        Shape::from_json("{\"a\\u0041b\": true}".as_bytes()),
        Ok(Shape::Record(vec![("aAb".to_string(), Shape::Bool)]))
    );
    assert_eq!(
        Shape::from_json("{\"tab\\there\": 1}".as_bytes()),
        Ok(Shape::Record(vec![("tab\there".to_string(), Shape::Integer)]))
    );
    assert_eq!(
        Shape::from_json("{\"caf\u{e9}\": 1}".as_bytes()),
        Ok(Shape::Record(vec![("caf\u{e9}".to_string(), Shape::Integer)]))
    );
}

#[test]
fn infer_multibyte_keys() {
    // Two-, three- and four-byte UTF-8 sequences decode into key text.
    assert_eq!(
        Shape::from_json("{\"\u{e9}\u{4e16}\u{1f600}\": 0}".as_bytes()),
        Ok(Shape::Record(vec![(
            "\u{e9}\u{4e16}\u{1f600}".to_string(),
            Shape::Integer
        )]))
    );
    // A unicode escape equals the character written directly.
    assert_eq!(
        Shape::from_json("{\"\\u00e9\": 0}".as_bytes()),
        Ok(Shape::Record(vec![("\u{e9}".to_string(), Shape::Integer)]))
    );
}

#[test]
fn infer_whitespace() {
    assert_eq!(
        Shape::from_json(b" \t\r\n [ \n1 , 2 ] \n"),
        Ok(Shape::List(Box::new(Shape::Integer)))
    );
    assert_eq!(
        Shape::from_json(b"  { \"a\" : [ [ true ] ] }  "),
        Ok(Shape::Record(vec![(
            "a".to_string(),
            Shape::List(Box::new(Shape::List(Box::new(Shape::Bool))))
        )]))
    );
}

#[test]
fn infer_rejects_trailing_input() {
    // One complete document per invocation: anything but whitespace after
    // the value is malformed.
    assert_eq!(Shape::from_json(b"true false"), Err(JsonInputErr::InvalidJson));
    assert_eq!(Shape::from_json(b"{} {}"), Err(JsonInputErr::InvalidJson));
    assert_eq!(Shape::from_json(b"1 2"), Err(JsonInputErr::InvalidJson));
    assert_eq!(Shape::from_json(b"[1] \""), Err(JsonInputErr::InvalidJson));
    // Trailing whitespace alone is fine.
    assert_eq!(Shape::from_json(b"true \t\n "), Ok(Shape::Bool));
}
