use wordpack::{to_vec_compact, Value};

#[test]
fn serializer_test_struct() {
    let expected = [
        1,
        -4_i32 as u32,
        4,
        -5_i32 as u32,
        5,
        -6_i32 as u32,
        6,
        f32::to_bits(3.14f32),
        -7_i32 as u32,
        0xffffffff,
        7,
        0x00000000,
        f64::to_bits(2.71).checked_rem(0x100000000).unwrap() as u32,
        f64::to_bits(2.71).checked_shr(32).unwrap() as u32,
    ];

    let input = Value::Tuple(vec![
        Value::Bool(true),
        Value::I8(-4),
        Value::U8(4),
        Value::I16(-5),
        Value::U16(5),
        Value::I32(-6),
        Value::U32(6),
        Value::F32Bits(3.14f32.to_bits()),
        Value::I64(-7),
        Value::U64(7),
        Value::F64Bits(2.71f64.to_bits()),
    ]);
    assert_eq!(expected, to_vec_compact(&input).unwrap().as_slice());
}

#[test]
fn test_str() {
    let expected = [1, 0x00000061, 3, 0x00636261];
    let input = Value::Tuple(vec![
        Value::Text("a".as_bytes().to_vec()),
        Value::Text("abc".as_bytes().to_vec()),
    ]);
    assert_eq!(expected, to_vec_compact(&input).unwrap().as_slice());
}
