use bitcodec::{
    deserialize, serialize, BitBuffer, BitContainer, BitDeserializer, BitOrdering, BitSerializer,
    EndianEncoding, Error, Shape, Value,
};

#[test]
fn lsb_bit_packing() {
    let obj = Value::Record(vec![
        Value::Bool(true),
        Value::Bool(true),
        Value::Bool(false),
        Value::Bool(false),
        Value::Bool(false),
        Value::Bool(true),
        Value::Bool(false),
        Value::Bool(false),
    ]);
    let bits = serialize(&obj, BitOrdering::LsbFirst, EndianEncoding::little()).unwrap();
    assert_eq!(bits.len(), 8);
    assert_eq!(bits.to_bytes(), vec![0x23]);
}

#[test]
fn msb_bit_packing() {
    let obj = Value::Record(vec![
        Value::Bool(true),
        Value::Bool(true),
        Value::Bool(false),
        Value::Bool(false),
        Value::Bool(false),
        Value::Bool(true),
        Value::Bool(false),
        Value::Bool(false),
    ]);
    let bits = serialize(&obj, BitOrdering::MsbFirst, EndianEncoding::little()).unwrap();
    assert_eq!(bits.to_bytes(), vec![0xC4]);
}

#[test]
fn endianness_places_bytes() {
    let little = serialize(
        &Value::U16(0x0102),
        BitOrdering::LsbFirst,
        EndianEncoding::little(),
    )
    .unwrap();
    assert_eq!(little.to_bytes(), vec![0x02, 0x01]);
    let big = serialize(
        &Value::U16(0x0102),
        BitOrdering::LsbFirst,
        EndianEncoding::big(),
    )
    .unwrap();
    assert_eq!(big.to_bytes(), vec![0x01, 0x02]);
}

#[test]
fn length_field_is_little_endian_u32() {
    let obj = Value::Enum(102040, vec![]);
    let bits = serialize(&obj, BitOrdering::LsbFirst, EndianEncoding::little()).unwrap();
    // 102040 = 0x18E98
    assert_eq!(bits.to_bytes(), vec![0x98, 0x8E, 0x01, 0x00]);
}

#[test]
fn partial_final_byte_is_zero_filled() {
    let mut buf = BitBuffer::new(BitOrdering::LsbFirst);
    buf.push_bit(true);
    buf.push_bit(true);
    buf.push_bit(false);
    assert_eq!(buf.to_bytes(), vec![0x03]);
}

#[test]
fn read_past_end_is_out_of_range() {
    let data = vec![0x01u8, 0x02];
    let buf = BitBuffer::from_bytes(BitOrdering::LsbFirst, &data);
    let r = deserialize(&buf, &Shape::U32, EndianEncoding::little());
    assert!(matches!(r, Err(Error::OutOfRange)));
    let empty = BitBuffer::new(BitOrdering::LsbFirst);
    let r2 = deserialize(&empty, &Shape::Bool, EndianEncoding::little());
    assert!(matches!(r2, Err(Error::OutOfRange)));
}

#[test]
fn truncated_sequence_is_out_of_range() {
    // A length field promising three booleans, but only one bit following.
    let mut ser = BitSerializer::new(BitOrdering::LsbFirst, EndianEncoding::little());
    ser.serialize_u32(3).unwrap();
    ser.serialize_bool(true).unwrap();
    let buf = ser.vec;
    let shape = Shape::Sequence(Box::new(Shape::Bool));
    let r = deserialize(&buf, &shape, EndianEncoding::little());
    assert!(matches!(r, Err(Error::OutOfRange)));
}

#[test]
fn unsupported_shapes_are_reported() {
    let buf = BitBuffer::from_bytes(BitOrdering::LsbFirst, &vec![0u8; 8]);
    for shape in [Shape::Char, Shape::Str, Shape::Mapping, Shape::Optional] {
        let r = deserialize(&buf, &shape, EndianEncoding::little());
        assert!(matches!(r, Err(Error::Unsupported)));
    }
    let r = serialize(
        &Value::Char('x'),
        BitOrdering::LsbFirst,
        EndianEncoding::little(),
    );
    assert!(matches!(r, Err(Error::Unsupported)));
    let r2 = serialize(
        &Value::Str("nope".to_string()),
        BitOrdering::LsbFirst,
        EndianEncoding::little(),
    );
    assert!(matches!(r2, Err(Error::Unsupported)));
}

#[test]
fn unknown_discriminant_is_an_error() {
    let data = vec![5u8, 0, 0, 0];
    let buf = BitBuffer::from_bytes(BitOrdering::LsbFirst, &data);
    let shape = Shape::Enum(vec![
        bitcodec::VariantShape { fields: vec![] },
        bitcodec::VariantShape { fields: vec![] },
    ]);
    let r = deserialize(&buf, &shape, EndianEncoding::little());
    match r {
        Err(Error::Message(m)) => {
            assert_eq!(m, "no variant carries the decoded discriminant index");
        }
        other => panic!("expected a message error, got {:?}", other),
    }
}

#[test]
fn container_narrow_enough_becomes_a_byte() {
    let c = BitContainer::new(vec![true, true, false, false, false, true, false]);
    assert_eq!(c.width(), 7);
    assert_eq!(c.as_byte().unwrap(), 0x23);
}

#[test]
fn container_too_wide_for_a_byte() {
    let c = BitContainer::new(vec![true; 12]);
    match c.as_byte() {
        Err(Error::Message(m)) => {
            assert_eq!(
                m,
                "Tried to convert a bit vector larger then a single byte into a single byte."
            );
        }
        other => panic!("expected a message error, got {:?}", other),
    }
    // The same container still travels bit by bit.
    let obj = Value::Bits(BitContainer::new(vec![true; 12]));
    let bits = serialize(&obj, BitOrdering::LsbFirst, EndianEncoding::little()).unwrap();
    assert_eq!(bits.len(), 12);
    let obj2 = deserialize(&bits, &Shape::Bits(12), EndianEncoding::little()).unwrap();
    assert_eq!(obj, obj2);
}

#[test]
fn cursor_advances_and_never_rewinds() {
    let data = vec![0xFFu8, 0x00];
    let buf = BitBuffer::from_bytes(BitOrdering::LsbFirst, &data);
    let mut de = BitDeserializer::new(&buf, EndianEncoding::little());
    assert_eq!(de.offset(), 0);
    let first = de.read_bits(3).unwrap();
    assert_eq!(first, vec![true, true, true]);
    assert_eq!(de.offset(), 3);
    let second = de.read_bits(6).unwrap();
    assert_eq!(second, vec![true, true, true, true, true, false]);
    assert_eq!(de.offset(), 9);
    assert!(matches!(de.read_bits(8), Err(Error::OutOfRange)));
    assert_eq!(de.offset(), 9);
}

#[test]
fn buffer_views_bytes_as_bits() {
    let data = vec![0x80u8];
    let lsb = BitBuffer::from_bytes(BitOrdering::LsbFirst, &data);
    let msb = BitBuffer::from_bytes(BitOrdering::MsbFirst, &data);
    let mut lsb_de = BitDeserializer::new(&lsb, EndianEncoding::little());
    let mut msb_de = BitDeserializer::new(&msb, EndianEncoding::little());
    assert_eq!(
        lsb_de.read_bits(8).unwrap(),
        vec![false, false, false, false, false, false, false, true]
    );
    assert_eq!(
        msb_de.read_bits(8).unwrap(),
        vec![true, false, false, false, false, false, false, false]
    );
}

#[test]
fn storage_words_pack_and_unpack() {
    let buf = BitBuffer::from_words(BitOrdering::LsbFirst, &vec![0xABCDu64], 16);
    assert_eq!(buf.len(), 16);
    assert_eq!(buf.to_words(16), vec![0xABCD]);
    assert_eq!(buf.to_bytes(), vec![0xCD, 0xAB]);
    let wide = BitBuffer::from_words(BitOrdering::MsbFirst, &vec![u64::MAX - 1], 64);
    assert_eq!(wide.to_words(64), vec![u64::MAX - 1]);
}

#[test]
fn words_agree_with_bytes_at_width_eight() {
    let data = vec![0x23u8, 0x01];
    for order in [BitOrdering::LsbFirst, BitOrdering::MsbFirst] {
        let buf = BitBuffer::from_bytes(order, &data);
        assert_eq!(buf.to_words(8), vec![0x23, 0x01]);
    }
}

#[test]
fn serialized_value_in_wide_words() {
    let bits = serialize(
        &Value::U32(0xDEADBEEF),
        BitOrdering::LsbFirst,
        EndianEncoding::little(),
    )
    .unwrap();
    assert_eq!(bits.to_words(32), vec![0xDEADBEEF]);
    let padded = serialize(
        &Value::Record(vec![Value::Bool(true), Value::Bool(true)]),
        BitOrdering::LsbFirst,
        EndianEncoding::little(),
    )
    .unwrap();
    assert_eq!(padded.to_words(32), vec![0x3]);
}
