use vstd::prelude::*;

use crate::bits::{byte_bits, byte_of_bits, bytes_bits, BitOrdering};
use crate::container::BitContainer;
use crate::encoding::{len_field_bits, uint_bytes, uint_of_bytes, Endianness};

verus! {

/// A structured value this codec can walk: the closed union of shapes the
/// structured-value traversal drives through the codec.  Floating-point
/// payloads travel as their raw bit patterns.  Characters and strings can be
/// carried here, but the codec rejects them as unsupported.
#[derive(Debug, PartialEq)]
pub enum Value {
    Bool(bool),
    U8(u8),
    U16(u16),
    U32(u32),
    U64(u64),
    I8(i8),
    I16(i16),
    I32(i32),
    I64(i64),
    F32Bits(u32),
    F64Bits(u64),
    Char(char),
    Str(String),
    /// An opaque byte buffer, length-prefixed on the wire.
    Bytes(Vec<u8>),
    /// A tuple, tuple struct or struct: a fixed arity known to both sides,
    /// so the fields are written back to back with no framing.
    Record(Vec<Value>),
    /// A variable-length sequence, written with a length prefix.
    Sequence(Vec<Value>),
    /// A fixed-width sub-byte container, written as its bits with no framing.
    Bits(BitContainer),
    /// An enum value: the variant's discriminant index and its payload fields.
    Enum(u32, Vec<Value>),
}

/// The target shape a deserialize call reconstructs: the mirror of `Value`,
/// describing what to decode rather than what was decoded.
#[derive(Debug, PartialEq)]
pub enum Shape {
    Bool,
    U8,
    U16,
    U32,
    U64,
    I8,
    I16,
    I32,
    I64,
    F32,
    F64,
    Char,
    Str,
    Mapping,
    Optional,
    Bytes,
    Record(Vec<Shape>),
    Sequence(Box<Shape>),
    /// A sub-byte container of the given declared width.
    Bits(usize),
    Enum(Vec<VariantShape>),
}

/// The payload shape of one enum variant.
#[derive(Debug, PartialEq)]
pub struct VariantShape {
    pub fields: Vec<Shape>,
}

/// The mathematical model of a `Value`: the same tree with sequences in place
/// of vectors.
pub enum SpecValue {
    Bool(bool),
    U8(u8),
    U16(u16),
    U32(u32),
    U64(u64),
    I8(i8),
    I16(i16),
    I32(i32),
    I64(i64),
    F32Bits(u32),
    F64Bits(u64),
    Char(char),
    Str(Seq<char>),
    Bytes(Seq<u8>),
    Record(Seq<SpecValue>),
    Sequence(Seq<SpecValue>),
    Bits(Seq<bool>),
    Enum(u32, Seq<SpecValue>),
}

pub open spec fn view_of(v: Value) -> SpecValue
    decreases v, 0nat,
{
    match v {
        Value::Bool(b) => SpecValue::Bool(b),
        Value::U8(x) => SpecValue::U8(x),
        Value::U16(x) => SpecValue::U16(x),
        Value::U32(x) => SpecValue::U32(x),
        Value::U64(x) => SpecValue::U64(x),
        Value::I8(x) => SpecValue::I8(x),
        Value::I16(x) => SpecValue::I16(x),
        Value::I32(x) => SpecValue::I32(x),
        Value::I64(x) => SpecValue::I64(x),
        Value::F32Bits(x) => SpecValue::F32Bits(x),
        Value::F64Bits(x) => SpecValue::F64Bits(x),
        Value::Char(c) => SpecValue::Char(c),
        Value::Str(s) => SpecValue::Str(s@),
        Value::Bytes(bs) => SpecValue::Bytes(bs@),
        Value::Record(fs) => SpecValue::Record(views_from(fs@, 0)),
        Value::Sequence(es) => SpecValue::Sequence(views_from(es@, 0)),
        Value::Bits(c) => SpecValue::Bits(c@),
        Value::Enum(d, fs) => SpecValue::Enum(d, views_from(fs@, 0)),
    }
}

pub open spec fn views_from(vs: Seq<Value>, i: nat) -> Seq<SpecValue>
    decreases vs, vs.len() - i,
{
    if i >= vs.len() {
        Seq::empty()
    } else {
        seq![view_of(vs[i as int])] + views_from(vs, i + 1)
    }
}

impl View for Value {
    type V = SpecValue;

    open spec fn view(&self) -> SpecValue {
        view_of(*self)
    }
}

pub proof fn lemma_views_from(vs: Seq<Value>, i: nat)
    requires
        i <= vs.len(),
    ensures
        views_from(vs, i).len() == vs.len() - i,
        forall|k: int|
            0 <= k < vs.len() - i ==> views_from(vs, i)[k] == view_of(vs[i + k]),
    decreases vs.len() - i,
{
    if i < vs.len() {
        lemma_views_from(vs, i + 1);
    }
}

/// What makes a value one this codec cannot write, if anything: the first
/// failure that a serialize call walking the value meets, fields in declared
/// order.
pub enum EncodeFailure {
    /// A character or a string stands somewhere in the value.
    Unsupported,
    /// A length-prefixed aggregate is too long for the 32-bit length field.
    LengthOverflow,
}

pub open spec fn enc_failure(sv: SpecValue) -> Option<EncodeFailure>
    decreases sv, 0nat,
{
    match sv {
        SpecValue::Char(_) => Option::Some(EncodeFailure::Unsupported),
        SpecValue::Str(_) => Option::Some(EncodeFailure::Unsupported),
        SpecValue::Bytes(bs) => if bs.len() > u32::MAX {
            Option::Some(EncodeFailure::LengthOverflow)
        } else {
            Option::None
        },
        SpecValue::Record(fs) => enc_failure_from(fs, 0),
        SpecValue::Sequence(es) => if es.len() > u32::MAX {
            Option::Some(EncodeFailure::LengthOverflow)
        } else {
            enc_failure_from(es, 0)
        },
        SpecValue::Enum(_, fs) => enc_failure_from(fs, 0),
        _ => Option::None,
    }
}

pub open spec fn enc_failure_from(vs: Seq<SpecValue>, i: nat) -> Option<EncodeFailure>
    decreases vs, vs.len() - i,
{
    if i >= vs.len() {
        Option::None
    } else {
        match enc_failure(vs[i as int]) {
            Option::Some(k) => Option::Some(k),
            Option::None => enc_failure_from(vs, i + 1),
        }
    }
}

/// Whether this codec models the value: no characters and no strings anywhere
/// in it, and every length-prefixed aggregate short enough for the 32-bit
/// length field.
pub open spec fn encodable(sv: SpecValue) -> bool {
    enc_failure(sv) is None
}

/// Whether a value is of the given shape, so that decoding what the value
/// serializes to under that shape is meaningful.
pub open spec fn shape_matches(sv: SpecValue, s: Shape) -> bool
    decreases sv, 0nat,
{
    match sv {
        SpecValue::Bool(_) => s is Bool,
        SpecValue::U8(_) => s is U8,
        SpecValue::U16(_) => s is U16,
        SpecValue::U32(_) => s is U32,
        SpecValue::U64(_) => s is U64,
        SpecValue::I8(_) => s is I8,
        SpecValue::I16(_) => s is I16,
        SpecValue::I32(_) => s is I32,
        SpecValue::I64(_) => s is I64,
        SpecValue::F32Bits(_) => s is F32,
        SpecValue::F64Bits(_) => s is F64,
        SpecValue::Char(_) => s is Char,
        SpecValue::Str(_) => s is Str,
        SpecValue::Bytes(_) => s is Bytes,
        SpecValue::Record(fs) => s matches Shape::Record(ss) && fs.len() == ss@.len()
            && matches_fields(fs, ss@, 0),
        SpecValue::Sequence(es) => s matches Shape::Sequence(t) && matches_elems(es, *t, 0),
        SpecValue::Bits(bv) => s matches Shape::Bits(w) && bv.len() == w,
        SpecValue::Enum(d, fs) => s matches Shape::Enum(vars) && d < vars@.len() && fs.len()
            == vars@[d as int].fields@.len() && matches_fields(fs, vars@[d as int].fields@, 0),
    }
}

pub open spec fn matches_fields(vs: Seq<SpecValue>, ss: Seq<Shape>, i: nat) -> bool
    decreases vs, vs.len() - i,
{
    if i >= vs.len() {
        true
    } else {
        i < ss.len() && shape_matches(vs[i as int], ss[i as int]) && matches_fields(vs, ss, i + 1)
    }
}

pub open spec fn matches_elems(vs: Seq<SpecValue>, t: Shape, i: nat) -> bool
    decreases vs, vs.len() - i,
{
    if i >= vs.len() {
        true
    } else {
        shape_matches(vs[i as int], t) && matches_elems(vs, t, i + 1)
    }
}

/// The wire format: the exact bits a value serializes to under a bit ordering
/// and an encoding strategy.  Meaningful only for encodable values.
pub open spec fn enc(order: BitOrdering, e: Endianness, sv: SpecValue) -> Seq<bool>
    decreases sv, 0nat,
{
    match sv {
        SpecValue::Bool(b) => seq![b],
        SpecValue::U8(x) => byte_bits(order, x),
        SpecValue::U16(x) => bytes_bits(order, uint_bytes(e, x as nat, 2)),
        SpecValue::U32(x) => bytes_bits(order, uint_bytes(e, x as nat, 4)),
        SpecValue::U64(x) => bytes_bits(order, uint_bytes(e, x as nat, 8)),
        SpecValue::I8(x) => byte_bits(order, x as u8),
        SpecValue::I16(x) => bytes_bits(order, uint_bytes(e, (x as u16) as nat, 2)),
        SpecValue::I32(x) => bytes_bits(order, uint_bytes(e, (x as u32) as nat, 4)),
        SpecValue::I64(x) => bytes_bits(order, uint_bytes(e, (x as u64) as nat, 8)),
        SpecValue::F32Bits(x) => bytes_bits(order, uint_bytes(e, x as nat, 4)),
        SpecValue::F64Bits(x) => bytes_bits(order, uint_bytes(e, x as nat, 8)),
        SpecValue::Char(_) => Seq::empty(),
        SpecValue::Str(_) => Seq::empty(),
        SpecValue::Bytes(bs) => len_field_bits(order, e, bs.len()) + bytes_bits(order, bs),
        SpecValue::Record(fs) => enc_from(order, e, fs, 0),
        SpecValue::Sequence(es) => len_field_bits(order, e, es.len()) + enc_from(order, e, es, 0),
        SpecValue::Bits(bv) => bv,
        SpecValue::Enum(d, fs) => len_field_bits(order, e, d as nat) + enc_from(order, e, fs, 0),
    }
}

pub open spec fn enc_from(order: BitOrdering, e: Endianness, vs: Seq<SpecValue>, i: nat) -> Seq<
    bool,
>
    decreases vs, vs.len() - i,
{
    if i >= vs.len() {
        Seq::empty()
    } else {
        enc(order, e, vs[i as int]) + enc_from(order, e, vs, i + 1)
    }
}

/// Why a decode step failed.
pub enum DecodeError {
    /// The next field needs more bits than remain.
    OutOfRange,
    /// The target shape holds a kind this codec does not model.
    Unsupported,
    /// A decoded discriminant index names no variant of the target shape.
    UnknownVariant,
}

/// The outcome of decoding one value: the value and the cursor after it, or
/// the failure that aborts the whole call.
pub enum DecodeResult {
    Done(SpecValue, int),
    Fail(DecodeError),
}

/// The outcome of decoding a run of values.
pub enum DecodeManyResult {
    Done(Seq<SpecValue>, int),
    Fail(DecodeError),
}

/// The bytes read by taking `w` groups of eight bits from `off` on.
pub open spec fn read_bytes_spec(order: BitOrdering, bits: Seq<bool>, off: int, w: nat) -> Seq<
    u8,
> {
    Seq::new(w, |i: int| byte_of_bits(order, bits.subrange(off + 8 * i, off + 8 * i + 8)))
}

/// The value carried by the `w` bytes at `off`, if that many bits remain.
pub open spec fn read_uint(
    order: BitOrdering,
    e: Endianness,
    bits: Seq<bool>,
    off: int,
    w: nat,
) -> Option<nat> {
    if off + 8 * w <= bits.len() {
        Option::Some(uint_of_bytes(e, read_bytes_spec(order, bits, off, w)))
    } else {
        Option::None
    }
}

/// The decode relation: what value the bits at `off` hold under the target
/// shape, and where the cursor stands after it; never rewinding, and failing
/// hard on a read past the end.
pub open spec fn dec(
    order: BitOrdering,
    e: Endianness,
    bits: Seq<bool>,
    off: int,
    s: Shape,
) -> DecodeResult
    decreases s, 0nat,
{
    match s {
        Shape::Bool => if off + 1 <= bits.len() {
            DecodeResult::Done(SpecValue::Bool(bits[off]), off + 1)
        } else {
            DecodeResult::Fail(DecodeError::OutOfRange)
        },
        Shape::U8 => match read_uint(order, e, bits, off, 1) {
            Option::Some(n) => DecodeResult::Done(SpecValue::U8(n as u8), off + 8),
            Option::None => DecodeResult::Fail(DecodeError::OutOfRange),
        },
        Shape::U16 => match read_uint(order, e, bits, off, 2) {
            Option::Some(n) => DecodeResult::Done(SpecValue::U16(n as u16), off + 16),
            Option::None => DecodeResult::Fail(DecodeError::OutOfRange),
        },
        Shape::U32 => match read_uint(order, e, bits, off, 4) {
            Option::Some(n) => DecodeResult::Done(SpecValue::U32(n as u32), off + 32),
            Option::None => DecodeResult::Fail(DecodeError::OutOfRange),
        },
        Shape::U64 => match read_uint(order, e, bits, off, 8) {
            Option::Some(n) => DecodeResult::Done(SpecValue::U64(n as u64), off + 64),
            Option::None => DecodeResult::Fail(DecodeError::OutOfRange),
        },
        Shape::I8 => match read_uint(order, e, bits, off, 1) {
            Option::Some(n) => DecodeResult::Done(SpecValue::I8((n as u8) as i8), off + 8),
            Option::None => DecodeResult::Fail(DecodeError::OutOfRange),
        },
        Shape::I16 => match read_uint(order, e, bits, off, 2) {
            Option::Some(n) => DecodeResult::Done(SpecValue::I16((n as u16) as i16), off + 16),
            Option::None => DecodeResult::Fail(DecodeError::OutOfRange),
        },
        Shape::I32 => match read_uint(order, e, bits, off, 4) {
            Option::Some(n) => DecodeResult::Done(SpecValue::I32((n as u32) as i32), off + 32),
            Option::None => DecodeResult::Fail(DecodeError::OutOfRange),
        },
        Shape::I64 => match read_uint(order, e, bits, off, 8) {
            Option::Some(n) => DecodeResult::Done(SpecValue::I64((n as u64) as i64), off + 64),
            Option::None => DecodeResult::Fail(DecodeError::OutOfRange),
        },
        Shape::F32 => match read_uint(order, e, bits, off, 4) {
            Option::Some(n) => DecodeResult::Done(SpecValue::F32Bits(n as u32), off + 32),
            Option::None => DecodeResult::Fail(DecodeError::OutOfRange),
        },
        Shape::F64 => match read_uint(order, e, bits, off, 8) {
            Option::Some(n) => DecodeResult::Done(SpecValue::F64Bits(n as u64), off + 64),
            Option::None => DecodeResult::Fail(DecodeError::OutOfRange),
        },
        Shape::Char => DecodeResult::Fail(DecodeError::Unsupported),
        Shape::Str => DecodeResult::Fail(DecodeError::Unsupported),
        Shape::Mapping => DecodeResult::Fail(DecodeError::Unsupported),
        Shape::Optional => DecodeResult::Fail(DecodeError::Unsupported),
        Shape::Bytes => match read_uint(order, e, bits, off, 4) {
            Option::Some(n) => if off + 32 + 8 * n <= bits.len() {
                DecodeResult::Done(
                    SpecValue::Bytes(read_bytes_spec(order, bits, off + 32, n)),
                    off + 32 + 8 * n,
                )
            } else {
                DecodeResult::Fail(DecodeError::OutOfRange)
            },
            Option::None => DecodeResult::Fail(DecodeError::OutOfRange),
        },
        Shape::Record(ss) => match dec_fields(order, e, bits, off, ss@, 0) {
            DecodeManyResult::Done(vs, end) => DecodeResult::Done(SpecValue::Record(vs), end),
            DecodeManyResult::Fail(k) => DecodeResult::Fail(k),
        },
        Shape::Sequence(t) => match read_uint(order, e, bits, off, 4) {
            Option::Some(n) => match dec_many(order, e, bits, off + 32, *t, n) {
                DecodeManyResult::Done(vs, end) => DecodeResult::Done(
                    SpecValue::Sequence(vs),
                    end,
                ),
                DecodeManyResult::Fail(k) => DecodeResult::Fail(k),
            },
            Option::None => DecodeResult::Fail(DecodeError::OutOfRange),
        },
        Shape::Bits(w) => if off + w <= bits.len() {
            DecodeResult::Done(SpecValue::Bits(bits.subrange(off, off + w)), off + w)
        } else {
            DecodeResult::Fail(DecodeError::OutOfRange)
        },
        Shape::Enum(vars) => match read_uint(order, e, bits, off, 4) {
            Option::Some(d) => if d < vars@.len() {
                match dec_fields(order, e, bits, off + 32, vars@[d as int].fields@, 0) {
                    DecodeManyResult::Done(vs, end) => DecodeResult::Done(
                        SpecValue::Enum(d as u32, vs),
                        end,
                    ),
                    DecodeManyResult::Fail(k) => DecodeResult::Fail(k),
                }
            } else {
                DecodeResult::Fail(DecodeError::UnknownVariant)
            },
            Option::None => DecodeResult::Fail(DecodeError::OutOfRange),
        },
    }
}

/// Decode the fields from `i` on of a record whose field shapes are `ss`.
pub open spec fn dec_fields(
    order: BitOrdering,
    e: Endianness,
    bits: Seq<bool>,
    off: int,
    ss: Seq<Shape>,
    i: nat,
) -> DecodeManyResult
    decreases ss, ss.len() - i,
{
    if i >= ss.len() {
        DecodeManyResult::Done(Seq::empty(), off)
    } else {
        match dec(order, e, bits, off, ss[i as int]) {
            DecodeResult::Done(v, mid) => match dec_fields(order, e, bits, mid, ss, i + 1) {
                DecodeManyResult::Done(vs, end) => DecodeManyResult::Done(seq![v] + vs, end),
                DecodeManyResult::Fail(k) => DecodeManyResult::Fail(k),
            },
            DecodeResult::Fail(k) => DecodeManyResult::Fail(k),
        }
    }
}

/// Decode `n` more elements of element shape `t`.
pub open spec fn dec_many(
    order: BitOrdering,
    e: Endianness,
    bits: Seq<bool>,
    off: int,
    t: Shape,
    n: nat,
) -> DecodeManyResult
    decreases t, n,
{
    if n == 0 {
        DecodeManyResult::Done(Seq::empty(), off)
    } else {
        match dec(order, e, bits, off, t) {
            DecodeResult::Done(v, mid) => match dec_many(order, e, bits, mid, t, (n - 1) as nat) {
                DecodeManyResult::Done(vs, end) => DecodeManyResult::Done(seq![v] + vs, end),
                DecodeManyResult::Fail(k) => DecodeManyResult::Fail(k),
            },
            DecodeResult::Fail(k) => DecodeManyResult::Fail(k),
        }
    }
}

} // verus!
