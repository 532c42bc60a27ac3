use bitcodec::{
    deserialize, serialize, BitBuffer, BitOrdering, EndianEncoding, Shape, Value, VariantShape,
};

#[test]
fn bit() {
    let data = vec![0x23u8];
    let buf = BitBuffer::from_bytes(BitOrdering::LsbFirst, &data);
    let shape = Shape::Record(vec![
        Shape::Bool,
        Shape::Bool,
        Shape::Bool,
        Shape::Bool,
        Shape::Bool,
        Shape::Bool,
        Shape::Bool,
        Shape::Bool,
    ]);
    let obj = deserialize(&buf, &shape, EndianEncoding::little()).unwrap();
    assert_eq!(
        obj,
        Value::Record(vec![
            Value::Bool(true),
            Value::Bool(true),
            Value::Bool(false),
            Value::Bool(false),
            Value::Bool(false),
            Value::Bool(true),
            Value::Bool(false),
            Value::Bool(false),
        ])
    );
    let out = serialize(&obj, BitOrdering::LsbFirst, EndianEncoding::little()).unwrap();
    assert_eq!(out, BitBuffer::from_bytes(BitOrdering::LsbFirst, &data));
}

#[test]
fn bytes() {
    let data = vec![0x01u8, 0x02, 0x03];
    let buf = BitBuffer::from_bytes(BitOrdering::LsbFirst, &data);
    let shape = Shape::Record(vec![Shape::U8, Shape::U8, Shape::U8]);
    let obj = deserialize(&buf, &shape, EndianEncoding::little()).unwrap();
    assert_eq!(
        obj,
        Value::Record(vec![Value::U8(0x01), Value::U8(0x02), Value::U8(0x03)])
    );
    let out = serialize(&obj, BitOrdering::LsbFirst, EndianEncoding::little()).unwrap();
    assert_eq!(out, BitBuffer::from_bytes(BitOrdering::LsbFirst, &data));
}

#[test]
fn bits() {
    let data = vec![0x23u8, 0x01];
    let buf = BitBuffer::from_bytes(BitOrdering::LsbFirst, &data);
    let shape = Shape::Record(vec![Shape::Bits(7), Shape::Bool, Shape::U8]);
    let obj = deserialize(&buf, &shape, EndianEncoding::little()).unwrap();
    match &obj {
        Value::Record(fields) => {
            assert_eq!(fields.len(), 3);
            match &fields[0] {
                Value::Bits(container) => {
                    assert_eq!(container.as_byte().unwrap(), 0x23);
                }
                other => panic!("expected a bit container, got {:?}", other),
            }
            assert_eq!(fields[1], Value::Bool(false));
            assert_eq!(fields[2], Value::U8(0x01));
        }
        other => panic!("expected a record, got {:?}", other),
    }
    let out = serialize(&obj, BitOrdering::LsbFirst, EndianEncoding::little()).unwrap();
    assert_eq!(out, BitBuffer::from_bytes(BitOrdering::LsbFirst, &data));
    assert_eq!(out.to_bytes(), data);
}

#[test]
fn vector_test() {
    let obj = Value::Record(vec![
        Value::F64Bits(1.104321f64.to_bits()),
        Value::Sequence(vec![
            Value::Bool(true),
            Value::Bool(true),
            Value::Bool(false),
            Value::Bool(false),
            Value::Bool(true),
            Value::Bool(true),
        ]),
    ]);
    let bits = serialize(&obj, BitOrdering::LsbFirst, EndianEncoding::little()).unwrap();
    assert_eq!(bits.len(), 102);
    let shape = Shape::Record(vec![Shape::F64, Shape::Sequence(Box::new(Shape::Bool))]);
    let obj2 = deserialize(&bits, &shape, EndianEncoding::little()).unwrap();
    assert_eq!(obj, obj2);
}

#[test]
fn enum_test() {
    let test = Value::Sequence(vec![
        Value::Enum(0, vec![Value::Bool(true)]),
        Value::Enum(1, vec![Value::U32(102040)]),
        Value::Enum(0, vec![Value::Bool(false)]),
    ]);
    let bits = serialize(&test, BitOrdering::LsbFirst, EndianEncoding::little()).unwrap();
    let shape = Shape::Sequence(Box::new(Shape::Enum(vec![
        VariantShape {
            fields: vec![Shape::Bool],
        },
        VariantShape {
            fields: vec![Shape::U32],
        },
    ])));
    let test2 = deserialize(&bits, &shape, EndianEncoding::little()).unwrap();
    assert_eq!(test, test2);
}

#[test]
fn signed_and_float_round_trip() {
    let obj = Value::Record(vec![
        Value::I8(-1),
        Value::I16(-2),
        Value::I32(-100000),
        Value::I64(i64::MIN),
        Value::F32Bits(1.5f32.to_bits()),
        Value::U64(u64::MAX),
        Value::U16(0xBEEF),
    ]);
    let shape = Shape::Record(vec![
        Shape::I8,
        Shape::I16,
        Shape::I32,
        Shape::I64,
        Shape::F32,
        Shape::U64,
        Shape::U16,
    ]);
    for order in [BitOrdering::LsbFirst, BitOrdering::MsbFirst] {
        for encoding in [EndianEncoding::little(), EndianEncoding::big()] {
            let bits = serialize(&obj, order, encoding).unwrap();
            assert_eq!(bits.len(), 8 + 16 + 32 + 64 + 32 + 64 + 16);
            let obj2 = deserialize(&bits, &shape, encoding).unwrap();
            assert_eq!(obj, obj2);
        }
    }
}

#[test]
fn byte_buffer_round_trip() {
    let obj = Value::Bytes(vec![9, 8, 7]);
    let bits = serialize(&obj, BitOrdering::LsbFirst, EndianEncoding::little()).unwrap();
    assert_eq!(bits.len(), 32 + 24);
    assert_eq!(bits.to_bytes(), vec![3, 0, 0, 0, 9, 8, 7]);
    let obj2 = deserialize(&bits, &Shape::Bytes, EndianEncoding::little()).unwrap();
    assert_eq!(obj, obj2);
}

#[test]
fn empty_sequence_short_circuits() {
    let obj = Value::Sequence(vec![]);
    let bits = serialize(&obj, BitOrdering::LsbFirst, EndianEncoding::little()).unwrap();
    assert_eq!(bits.len(), 32);
    assert_eq!(bits.to_bytes(), vec![0, 0, 0, 0]);
    let shape = Shape::Sequence(Box::new(Shape::U32));
    let obj2 = deserialize(&bits, &shape, EndianEncoding::little()).unwrap();
    assert_eq!(obj2, Value::Sequence(vec![]));
}

#[test]
fn nested_round_trip_msb_big() {
    let obj = Value::Record(vec![
        Value::Sequence(vec![
            Value::Record(vec![Value::U8(1), Value::Bool(true)]),
            Value::Record(vec![Value::U8(2), Value::Bool(false)]),
        ]),
        Value::Bytes(vec![0xAA, 0xBB]),
        Value::Enum(1, vec![]),
    ]);
    let shape = Shape::Record(vec![
        Shape::Sequence(Box::new(Shape::Record(vec![Shape::U8, Shape::Bool]))),
        Shape::Bytes,
        Shape::Enum(vec![
            VariantShape {
                fields: vec![Shape::U64],
            },
            VariantShape { fields: vec![] },
        ]),
    ]);
    let bits = serialize(&obj, BitOrdering::MsbFirst, EndianEncoding::big()).unwrap();
    let obj2 = deserialize(&bits, &shape, EndianEncoding::big()).unwrap();
    assert_eq!(obj, obj2);
}
