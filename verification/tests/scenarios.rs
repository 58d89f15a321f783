use wordpack::{from_slice, to_vec_compact, to_vec_compact_with_capacity, Error, Serializer, Shape,
    Value, VariantShape, align_up};

#[test]
fn packing_layout_three_bytes() {
    // Three byte-packed values inside a declared-length-3 sequence: the
    // count as its own word, the bytes packed into one word.
    let input = Value::List(vec![Value::U8(1), Value::U8(231), Value::U8(123)]);
    let data = to_vec_compact(&input).unwrap();
    assert_eq!(data, vec![3, 1 | (231 << 8) | (123 << 16)]);
}

#[test]
fn depth_zero_flush_pads_with_zero() {
    // A byte-packed value followed by closing the last scope flushes a
    // partial word whose unused lanes are zero.
    let input = Value::Tuple(vec![Value::U8(9)]);
    let data = to_vec_compact(&input).unwrap();
    assert_eq!(data, vec![9]);
    assert_eq!(data[0] >> 8, 0);
}

#[test]
fn forced_flush_precedes_direct_word() {
    // A byte-packed value then a direct word in the same scope: the
    // pending partial word is flushed first, never interleaved.
    let input = Value::Tuple(vec![Value::U8(7), Value::U32(5)]);
    let data = to_vec_compact(&input).unwrap();
    assert_eq!(data, vec![7, 5]);
}

#[test]
fn float_bits_encode_like_unsigned() {
    let b32 = 3.14f32.to_bits();
    let b64 = 2.71f64.to_bits();
    assert_eq!(
        to_vec_compact(&Value::F32Bits(b32)).unwrap(),
        to_vec_compact(&Value::U32(b32)).unwrap()
    );
    assert_eq!(
        to_vec_compact(&Value::F64Bits(b64)).unwrap(),
        to_vec_compact(&Value::U64(b64)).unwrap()
    );
}

#[test]
fn wide_values_split_low_half_first() {
    let data = to_vec_compact(&Value::U64(0x0102030405060708)).unwrap();
    assert_eq!(data, vec![0x05060708, 0x01020304]);
    let data = to_vec_compact(&Value::U128(0x000102030405060708090a0b0c0d0e0f)).unwrap();
    assert_eq!(data, vec![0x0c0d0e0f, 0x08090a0b, 0x04050607, 0x00010203]);
}

#[test]
fn option_encoding() {
    assert_eq!(to_vec_compact(&Value::Opt(None)).unwrap(), vec![0]);
    assert_eq!(
        to_vec_compact(&Value::Opt(Some(Box::new(Value::U8(5))))).unwrap(),
        vec![1, 5]
    );
    let nested = Value::Opt(Some(Box::new(Value::Opt(None))));
    let shape = Shape::Opt(Box::new(Shape::Opt(Box::new(Shape::U16))));
    let data = to_vec_compact(&nested).unwrap();
    assert_eq!(from_slice(data.as_slice(), &shape).unwrap(), nested);
}

#[test]
fn byte_buffer_layout_and_recovery() {
    // A length word equal to the byte count, then raw bytes zero-padded
    // to the next word boundary.
    let input = Value::Bytes(vec![1, 2, 3, 4, 5]);
    let data = to_vec_compact(&input).unwrap();
    assert_eq!(data, vec![5, 0x04030201, 5]);
    let output = from_slice(data.as_slice(), &Shape::Bytes).unwrap();
    assert_eq!(input, output);
}

#[test]
fn unknown_length_is_unsupported() {
    // A sequence or map of unknown length fails and produces no output.
    let mut s = Serializer::new(Vec::new());
    assert_eq!(s.serialize_seq(None), Err(Error::NotSupported));
    assert_eq!(s.serialize_map(None), Err(Error::NotSupported));
    assert_eq!(s.collect_str(), Err(Error::NotSupported));
    assert!(s.into_stream().is_empty());
}

#[test]
fn truncated_input_fails() {
    let data = to_vec_compact(&Value::U64(7)).unwrap();
    assert_eq!(data.len(), 2);
    assert_eq!(from_slice(&data[0..1], &Shape::U64), Err(Error::UnexpectedEnd));
    // A declared count larger than the remaining input.
    assert_eq!(
        from_slice(&[3, 1][..], &Shape::List(Box::new(Shape::U32))),
        Err(Error::UnexpectedEnd)
    );
}

#[test]
fn malformed_words_fail() {
    assert_eq!(from_slice(&[2][..], &Shape::Bool), Err(Error::BadBool));
    assert_eq!(from_slice(&[0xD800][..], &Shape::Char), Err(Error::BadChar));
    assert_eq!(
        from_slice(&[7][..], &Shape::Opt(Box::new(Shape::U8))),
        Err(Error::BadOption)
    );
    let one_variant = Shape::Enum(vec![VariantShape { scoped: false, fields: vec![] }]);
    assert_eq!(from_slice(&[5][..], &one_variant), Err(Error::BadVariant));
}

#[test]
fn golden_vector_prefix() {
    let input = Value::Tuple(vec![
        Value::List(vec![Value::U8(1), Value::U8(231), Value::U8(123)]),
        Value::List(vec![Value::U16(124), Value::U16(41374)]),
        Value::List(vec![
            Value::U32(14710471),
            Value::U32(3590275702),
            Value::U32(1),
            Value::U32(2),
        ]),
    ]);
    let data = to_vec_compact(&input).unwrap();
    assert_eq!(
        data,
        vec![3, 1 | (231 << 8) | (123 << 16), 2, 124, 41374, 4, 14710471, 3590275702, 1, 2]
    );
}

#[test]
fn capacity_hint_never_affects_output() {
    let input = Value::List(vec![Value::U16(1), Value::U16(2)]);
    let plain = to_vec_compact(&input).unwrap();
    for cap in [0usize, 1, 64] {
        assert_eq!(to_vec_compact_with_capacity(&input, cap).unwrap(), plain);
    }
}

#[test]
fn unit_variant_is_just_its_index() {
    let data = to_vec_compact(&Value::Variant(2, false, vec![])).unwrap();
    assert_eq!(data, vec![2]);
    let shape = Shape::Enum(vec![
        VariantShape { scoped: false, fields: vec![] },
        VariantShape { scoped: false, fields: vec![] },
        VariantShape { scoped: false, fields: vec![] },
    ]);
    assert_eq!(
        from_slice(data.as_slice(), &shape).unwrap(),
        Value::Variant(2, false, vec![])
    );
}

#[test]
fn dict_packs_its_entries() {
    let input = Value::Dict(vec![(Value::U8(1), Value::U8(2))]);
    let data = to_vec_compact(&input).unwrap();
    assert_eq!(data, vec![1, 0x0201]);
}

#[test]
fn char_round_trip() {
    let data = to_vec_compact(&Value::Char('a')).unwrap();
    assert_eq!(data, vec![97]);
    assert_eq!(from_slice(data.as_slice(), &Shape::Char).unwrap(), Value::Char('a'));
}

#[test]
fn top_level_byte_is_a_full_word() {
    // Outside any composite a byte costs a full standalone word.
    assert_eq!(to_vec_compact(&Value::U8(200)).unwrap(), vec![200]);
    assert_eq!(
        from_slice(&[200][..], &Shape::U8).unwrap(),
        Value::U8(200)
    );
}

#[test]
fn align_up_rounds_to_multiples() {
    assert_eq!(align_up(0, 4), 0);
    assert_eq!(align_up(1, 4), 4);
    assert_eq!(align_up(17, 8), 24);
    assert_eq!(align_up(16, 8), 16);
}
