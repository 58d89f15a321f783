use wordpack::{from_slice, to_vec_compact, Shape, Value};

fn text(s: &str) -> Value {
    Value::Text(s.as_bytes().to_vec())
}

#[test]
fn test_vec_round_trip() {
    let input = Value::List(vec![Value::U64(1), Value::U64(2), Value::U64(3)]);
    let data = to_vec_compact(&input).unwrap();
    let shape = Shape::List(Box::new(Shape::U64));
    let output = from_slice(data.as_slice(), &shape).unwrap();
    assert_eq!(input, output);
}

#[test]
fn test_map_round_trip() {
    // Entries in key order, as an ordered map serializes them.
    let input = Value::Dict(vec![
        (text("bar"), Value::U32(2)),
        (text("baz"), Value::U32(3)),
        (text("foo"), Value::U32(1)),
    ]);
    let data = to_vec_compact(&input).unwrap();
    let shape = Shape::Dict(Box::new(Shape::Text), Box::new(Shape::U32));
    let output = from_slice(data.as_slice(), &shape).unwrap();
    assert_eq!(input, output);
}

#[test]
fn test_tuple_round_trip() {
    let input = Value::Tuple(vec![Value::U32(1), Value::U64(2)]);
    let data = to_vec_compact(&input).unwrap();
    let shape = Shape::Tuple(vec![Shape::U32, Shape::U64]);
    let output = from_slice(data.as_slice(), &shape).unwrap();
    assert_eq!(input, output);
}

#[test]
fn test_nested_round_trip() {
    let input = Value::Tuple(vec![
        Value::List(vec![Value::U8(1), Value::U8(231), Value::U8(123)]),
        Value::Opt(Some(Box::new(Value::Opt(Some(Box::new(Value::U32(7))))))),
        Value::Char('a'),
        Value::I128(-34720471290497230i128),
        Value::Variant(1, true, vec![Value::U8(5), Value::Bool(true)]),
    ]);
    let shape = Shape::Tuple(vec![
        Shape::List(Box::new(Shape::U8)),
        Shape::Opt(Box::new(Shape::Opt(Box::new(Shape::U32)))),
        Shape::Char,
        Shape::I128,
        Shape::Enum(vec![
            wordpack::VariantShape { scoped: false, fields: vec![] },
            wordpack::VariantShape { scoped: true, fields: vec![Shape::U8, Shape::Bool] },
        ]),
    ]);
    let data = to_vec_compact(&input).unwrap();
    let output = from_slice(data.as_slice(), &shape).unwrap();
    assert_eq!(input, output);
}
