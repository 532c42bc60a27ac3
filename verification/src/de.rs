use vstd::prelude::*;

use crate::bits::{byte_from_bits, byte_of_bits, BitBuffer};
use crate::container::BitContainer;
use crate::encoding::EndianEncoding;
use crate::error::Error;
use crate::value::{
    dec, dec_fields, dec_many, lemma_views_from, read_bytes_spec, read_uint, view_of, views_from,
    DecodeError, DecodeManyResult, DecodeResult, Shape, SpecValue, Value,
};

verus! {

/// The consumer role of the traversal: a monotonic read cursor into a
/// borrowed bit slice, decoding each requested shape under the active
/// encoding strategy.  The cursor never rewinds, and a request for more bits
/// than remain is a hard error, never a silent zero-fill.
pub struct BitDeserializer<'a> {
    pub bits: &'a BitBuffer,
    pub endian: EndianEncoding,
    offset: usize,
}

/// The error a deserialize call reports for each kind of decode failure.
pub open spec fn fails_with(k: DecodeError, e: Error) -> bool {
    match k {
        DecodeError::OutOfRange => e is OutOfRange,
        DecodeError::Unsupported => e is Unsupported,
        DecodeError::UnknownVariant => e matches Error::Message(m) && m@
            == "no variant carries the decoded discriminant index"@,
    }
}

impl<'a> BitDeserializer<'a> {
    /// The read cursor: how many bits have been consumed.
    pub closed spec fn pos(self) -> nat {
        self.offset as nat
    }

    /// The borrowed bit slice this deserializer reads.
    pub closed spec fn buffer(self) -> BitBuffer {
        *self.bits
    }

    /// The active encoding strategy.
    pub closed spec fn encoding(self) -> EndianEncoding {
        self.endian
    }

    pub fn new(bits: &'a BitBuffer, endian: EndianEncoding) -> (r: BitDeserializer<'a>)
        ensures
            r.buffer() == *bits,
            r.encoding() == endian,
            r.pos() == 0,
    {
        BitDeserializer { bits, endian, offset: 0 }
    }

    pub fn offset(&self) -> (n: usize)
        ensures
            n == self.pos(),
    {
        self.offset
    }

    /// Consume the next `count` bits, advancing the cursor past them.
    pub fn read_bits(&mut self, count: usize) -> (r: Result<Vec<bool>, Error>)
        ensures
            final(self).buffer() == old(self).buffer(),
            final(self).encoding() == old(self).encoding(),
            old(self).pos() + count <= old(self).buffer()@.len() ==> (r matches Ok(v) && v@ == old(
                self,
            ).buffer()@.subrange(old(self).pos() as int, old(self).pos() + count)
                && final(self).pos() == old(self).pos() + count),
            old(self).pos() + count > old(self).buffer()@.len() ==> (r matches Err(e) && e
                is OutOfRange && final(self).pos() == old(self).pos()),
    {
        let total = self.bits.len();
        match self.bits.read_range(self.offset, count) {
            Ok(v) => {
                proof {
                    assert(self.offset + count <= total);
                }
                self.offset = self.offset + count;
                Ok(v)
            },
            Err(e) => Err(e),
        }
    }

    /// Consume the next `count` groups of eight bits as bytes.
    fn read_bytes(&mut self, count: usize) -> (r: Result<Vec<u8>, Error>)
        ensures
            final(self).buffer() == old(self).buffer(),
            final(self).encoding() == old(self).encoding(),
            old(self).pos() + 8 * count <= old(self).buffer()@.len() ==> (r matches Ok(bs) && bs@
                == read_bytes_spec(
                old(self).buffer().ordering(),
                old(self).buffer()@,
                old(self).pos() as int,
                count as nat,
            ) && final(self).pos() == old(self).pos() + 8 * count),
            old(self).pos() + 8 * count > old(self).buffer()@.len() ==> (r matches Err(e) && e
                is OutOfRange && final(self).pos() == old(self).pos()),
    {
        let n = self.bits.len();
        if self.offset > n {
            return Err(Error::OutOfRange);
        }
        let remaining = n - self.offset;
        if count > remaining / 8 {
            return Err(Error::OutOfRange);
        }
        let ghost pos0 = self.pos() as int;
        let ghost sbits = self.bits@;
        let ghost ord = self.bits.ordering();
        let order = self.bits.order();
        let mut bs: Vec<u8> = Vec::new();
        let mut j: usize = 0;
        while j < count
            invariant
                j <= count,
                self.buffer() == old(self).buffer(),
                self.encoding() == old(self).encoding(),
                sbits == self.buffer()@,
                ord == self.buffer().ordering(),
                order == ord,
                pos0 + 8 * count <= sbits.len(),
                self.pos() == pos0 + 8 * j,
                bs@.len() == j,
                forall|k: int|
                    0 <= k < j ==> bs@[k] == byte_of_bits(
                        ord,
                        sbits.subrange(pos0 + 8 * k, pos0 + 8 * k + 8),
                    ),
            decreases count - j,
        {
            let chunk = match self.read_bits(8) {
                Ok(c) => c,
                Err(e) => {
                    proof {
                        assert(false);
                    }
                    return Err(e);
                },
            };
            let b = byte_from_bits(order, &chunk);
            bs.push(b);
            j = j + 1;
        }
        proof {
            assert(bs@ =~= read_bytes_spec(ord, sbits, pos0, count as nat));
        }
        Ok(bs)
    }

    /// Consume a `width`-byte unsigned value under the strategy's byte order.
    fn read_uint_exec(&mut self, width: usize) -> (r: Result<u64, Error>)
        requires
            width <= 8,
        ensures
            final(self).buffer() == old(self).buffer(),
            final(self).encoding() == old(self).encoding(),
            ({
                let n = read_uint(
                    old(self).buffer().ordering(),
                    old(self).encoding().endianness,
                    old(self).buffer()@,
                    old(self).pos() as int,
                    width as nat,
                );
                match r {
                    Ok(v) => n matches Some(m) && v as nat == m && final(self).pos() == old(
                        self,
                    ).pos() + 8 * width,
                    Err(e) => n is None && e is OutOfRange && final(self).pos() == old(
                        self,
                    ).pos(),
                }
            }),
    {
        let bytes = match self.read_bytes(width) {
            Ok(bs) => bs,
            Err(e) => {
                return Err(e);
            },
        };
        let e = self.endian;
        let v = e.uint_from_bytes(&bytes);
        Ok(v)
    }

    /// What the cursor-advancing methods promise about one decoded shape.
    pub open spec fn decodes(
        pre: BitDeserializer<'a>,
        post: BitDeserializer<'a>,
        s: Shape,
        r: Result<Value, Error>,
    ) -> bool {
        &&& post.buffer() == pre.buffer()
        &&& post.encoding() == pre.encoding()
        &&& match dec(
            pre.buffer().ordering(),
            pre.encoding().endianness,
            pre.buffer()@,
            pre.pos() as int,
            s,
        ) {
            DecodeResult::Done(sv, end) => r matches Ok(v) && view_of(v) == sv && post.pos() as int
                == end,
            DecodeResult::Fail(k) => r matches Err(e) && fails_with(k, e),
        }
    }

    /// A boolean consumes exactly one bit.
    pub fn deserialize_bool(&mut self) -> (r: Result<bool, Error>)
        ensures
            final(self).buffer() == old(self).buffer(),
            final(self).encoding() == old(self).encoding(),
            ({
                let d = dec(
                    old(self).buffer().ordering(),
                    old(self).encoding().endianness,
                    old(self).buffer()@,
                    old(self).pos() as int,
                    Shape::Bool,
                );
                match r {
                    Ok(b) => d matches DecodeResult::Done(sv, end) && sv == SpecValue::Bool(b)
                        && final(self).pos() as int == end,
                    Err(e) => d matches DecodeResult::Fail(k) && fails_with(k, e),
                }
            }),
    {
        match self.read_bits(1) {
            Ok(v) => Ok(v[0]),
            Err(e) => Err(e),
        }
    }

    /// An unsigned byte consumes eight raw bits, no endianness involved.
    pub fn deserialize_u8(&mut self) -> (r: Result<u8, Error>)
        ensures
            final(self).buffer() == old(self).buffer(),
            final(self).encoding() == old(self).encoding(),
            ({
                let d = dec(
                    old(self).buffer().ordering(),
                    old(self).encoding().endianness,
                    old(self).buffer()@,
                    old(self).pos() as int,
                    Shape::U8,
                );
                match r {
                    Ok(x) => d matches DecodeResult::Done(sv, end) && sv == SpecValue::U8(x)
                        && final(self).pos() as int == end,
                    Err(e) => d matches DecodeResult::Fail(k) && fails_with(k, e),
                }
            }),
    {
        match self.read_uint_exec(1) {
            Ok(v) => Ok(v as u8),
            Err(e) => Err(e),
        }
    }

    pub fn deserialize_u16(&mut self) -> (r: Result<u16, Error>)
        ensures
            final(self).buffer() == old(self).buffer(),
            final(self).encoding() == old(self).encoding(),
            ({
                let d = dec(
                    old(self).buffer().ordering(),
                    old(self).encoding().endianness,
                    old(self).buffer()@,
                    old(self).pos() as int,
                    Shape::U16,
                );
                match r {
                    Ok(x) => d matches DecodeResult::Done(sv, end) && sv == SpecValue::U16(x)
                        && final(self).pos() as int == end,
                    Err(e) => d matches DecodeResult::Fail(k) && fails_with(k, e),
                }
            }),
    {
        match self.read_uint_exec(2) {
            Ok(v) => Ok(v as u16),
            Err(e) => Err(e),
        }
    }

    pub fn deserialize_u32(&mut self) -> (r: Result<u32, Error>)
        ensures
            final(self).buffer() == old(self).buffer(),
            final(self).encoding() == old(self).encoding(),
            ({
                let d = dec(
                    old(self).buffer().ordering(),
                    old(self).encoding().endianness,
                    old(self).buffer()@,
                    old(self).pos() as int,
                    Shape::U32,
                );
                match r {
                    Ok(x) => d matches DecodeResult::Done(sv, end) && sv == SpecValue::U32(x)
                        && final(self).pos() as int == end,
                    Err(e) => d matches DecodeResult::Fail(k) && fails_with(k, e),
                }
            }),
    {
        match self.read_uint_exec(4) {
            Ok(v) => Ok(v as u32),
            Err(e) => Err(e),
        }
    }

    pub fn deserialize_u64(&mut self) -> (r: Result<u64, Error>)
        ensures
            final(self).buffer() == old(self).buffer(),
            final(self).encoding() == old(self).encoding(),
            ({
                let d = dec(
                    old(self).buffer().ordering(),
                    old(self).encoding().endianness,
                    old(self).buffer()@,
                    old(self).pos() as int,
                    Shape::U64,
                );
                match r {
                    Ok(x) => d matches DecodeResult::Done(sv, end) && sv == SpecValue::U64(x)
                        && final(self).pos() as int == end,
                    Err(e) => d matches DecodeResult::Fail(k) && fails_with(k, e),
                }
            }),
    {
        match self.read_uint_exec(8) {
            Ok(v) => Ok(v),
            Err(e) => Err(e),
        }
    }

    pub fn deserialize_i8(&mut self) -> (r: Result<i8, Error>)
        ensures
            final(self).buffer() == old(self).buffer(),
            final(self).encoding() == old(self).encoding(),
            ({
                let d = dec(
                    old(self).buffer().ordering(),
                    old(self).encoding().endianness,
                    old(self).buffer()@,
                    old(self).pos() as int,
                    Shape::I8,
                );
                match r {
                    Ok(x) => d matches DecodeResult::Done(sv, end) && sv == SpecValue::I8(x)
                        && final(self).pos() as int == end,
                    Err(e) => d matches DecodeResult::Fail(k) && fails_with(k, e),
                }
            }),
    {
        match self.read_uint_exec(1) {
            Ok(v) => Ok((v as u8) as i8),
            Err(e) => Err(e),
        }
    }

    pub fn deserialize_i16(&mut self) -> (r: Result<i16, Error>)
        ensures
            final(self).buffer() == old(self).buffer(),
            final(self).encoding() == old(self).encoding(),
            ({
                let d = dec(
                    old(self).buffer().ordering(),
                    old(self).encoding().endianness,
                    old(self).buffer()@,
                    old(self).pos() as int,
                    Shape::I16,
                );
                match r {
                    Ok(x) => d matches DecodeResult::Done(sv, end) && sv == SpecValue::I16(x)
                        && final(self).pos() as int == end,
                    Err(e) => d matches DecodeResult::Fail(k) && fails_with(k, e),
                }
            }),
    {
        match self.read_uint_exec(2) {
            Ok(v) => Ok((v as u16) as i16),
            Err(e) => Err(e),
        }
    }

    pub fn deserialize_i32(&mut self) -> (r: Result<i32, Error>)
        ensures
            final(self).buffer() == old(self).buffer(),
            final(self).encoding() == old(self).encoding(),
            ({
                let d = dec(
                    old(self).buffer().ordering(),
                    old(self).encoding().endianness,
                    old(self).buffer()@,
                    old(self).pos() as int,
                    Shape::I32,
                );
                match r {
                    Ok(x) => d matches DecodeResult::Done(sv, end) && sv == SpecValue::I32(x)
                        && final(self).pos() as int == end,
                    Err(e) => d matches DecodeResult::Fail(k) && fails_with(k, e),
                }
            }),
    {
        match self.read_uint_exec(4) {
            Ok(v) => Ok((v as u32) as i32),
            Err(e) => Err(e),
        }
    }

    pub fn deserialize_i64(&mut self) -> (r: Result<i64, Error>)
        ensures
            final(self).buffer() == old(self).buffer(),
            final(self).encoding() == old(self).encoding(),
            ({
                let d = dec(
                    old(self).buffer().ordering(),
                    old(self).encoding().endianness,
                    old(self).buffer()@,
                    old(self).pos() as int,
                    Shape::I64,
                );
                match r {
                    Ok(x) => d matches DecodeResult::Done(sv, end) && sv == SpecValue::I64(x)
                        && final(self).pos() as int == end,
                    Err(e) => d matches DecodeResult::Fail(k) && fails_with(k, e),
                }
            }),
    {
        match self.read_uint_exec(8) {
            Ok(v) => Ok(v as i64),
            Err(e) => Err(e),
        }
    }

    /// A 32-bit float's raw bit pattern; the caller reassembles the float.
    pub fn deserialize_f32_bits(&mut self) -> (r: Result<u32, Error>)
        ensures
            final(self).buffer() == old(self).buffer(),
            final(self).encoding() == old(self).encoding(),
            ({
                let d = dec(
                    old(self).buffer().ordering(),
                    old(self).encoding().endianness,
                    old(self).buffer()@,
                    old(self).pos() as int,
                    Shape::F32,
                );
                match r {
                    Ok(x) => d matches DecodeResult::Done(sv, end) && sv == SpecValue::F32Bits(x)
                        && final(self).pos() as int == end,
                    Err(e) => d matches DecodeResult::Fail(k) && fails_with(k, e),
                }
            }),
    {
        match self.read_uint_exec(4) {
            Ok(v) => Ok(v as u32),
            Err(e) => Err(e),
        }
    }

    /// A 64-bit float's raw bit pattern; the caller reassembles the float.
    pub fn deserialize_f64_bits(&mut self) -> (r: Result<u64, Error>)
        ensures
            final(self).buffer() == old(self).buffer(),
            final(self).encoding() == old(self).encoding(),
            ({
                let d = dec(
                    old(self).buffer().ordering(),
                    old(self).encoding().endianness,
                    old(self).buffer()@,
                    old(self).pos() as int,
                    Shape::F64,
                );
                match r {
                    Ok(x) => d matches DecodeResult::Done(sv, end) && sv == SpecValue::F64Bits(x)
                        && final(self).pos() as int == end,
                    Err(e) => d matches DecodeResult::Fail(k) && fails_with(k, e),
                }
            }),
    {
        match self.read_uint_exec(8) {
            Ok(v) => Ok(v),
            Err(e) => Err(e),
        }
    }

    /// An opaque byte buffer: one 32-bit length field, then that many raw
    /// bytes.
    pub fn deserialize_bytes(&mut self) -> (r: Result<Vec<u8>, Error>)
        ensures
            final(self).buffer() == old(self).buffer(),
            final(self).encoding() == old(self).encoding(),
            ({
                let d = dec(
                    old(self).buffer().ordering(),
                    old(self).encoding().endianness,
                    old(self).buffer()@,
                    old(self).pos() as int,
                    Shape::Bytes,
                );
                match r {
                    Ok(bs) => d matches DecodeResult::Done(sv, end) && sv == SpecValue::Bytes(bs@)
                        && final(self).pos() as int == end,
                    Err(e) => d matches DecodeResult::Fail(k) && fails_with(k, e),
                }
            }),
    {
        let e = self.endian;
        let len = match e.deserialize_len(self) {
            Ok(l) => l,
            Err(er) => {
                return Err(er);
            },
        };
        match self.read_bytes(len) {
            Ok(bs) => Ok(bs),
            Err(er) => Err(er),
        }
    }

    /// Deserialize a whole structured value of the given target shape: the
    /// traversal entry point that mirrors serialization field for field.
    pub fn deserialize_value(&mut self, shape: &Shape) -> (r: Result<Value, Error>)
        ensures
            Self::decodes(*old(self), *final(self), *shape, r),
        decreases shape, 0nat,
    {
        match shape {
            Shape::Bool => match self.deserialize_bool() {
                Ok(b) => Ok(Value::Bool(b)),
                Err(e) => Err(e),
            },
            Shape::U8 => match self.deserialize_u8() {
                Ok(x) => Ok(Value::U8(x)),
                Err(e) => Err(e),
            },
            Shape::U16 => match self.deserialize_u16() {
                Ok(x) => Ok(Value::U16(x)),
                Err(e) => Err(e),
            },
            Shape::U32 => match self.deserialize_u32() {
                Ok(x) => Ok(Value::U32(x)),
                Err(e) => Err(e),
            },
            Shape::U64 => match self.deserialize_u64() {
                Ok(x) => Ok(Value::U64(x)),
                Err(e) => Err(e),
            },
            Shape::I8 => match self.deserialize_i8() {
                Ok(x) => Ok(Value::I8(x)),
                Err(e) => Err(e),
            },
            Shape::I16 => match self.deserialize_i16() {
                Ok(x) => Ok(Value::I16(x)),
                Err(e) => Err(e),
            },
            Shape::I32 => match self.deserialize_i32() {
                Ok(x) => Ok(Value::I32(x)),
                Err(e) => Err(e),
            },
            Shape::I64 => match self.deserialize_i64() {
                Ok(x) => Ok(Value::I64(x)),
                Err(e) => Err(e),
            },
            Shape::F32 => match self.deserialize_f32_bits() {
                Ok(x) => Ok(Value::F32Bits(x)),
                Err(e) => Err(e),
            },
            Shape::F64 => match self.deserialize_f64_bits() {
                Ok(x) => Ok(Value::F64Bits(x)),
                Err(e) => Err(e),
            },
            Shape::Char => Err(Error::Unsupported),
            Shape::Str => Err(Error::Unsupported),
            Shape::Mapping => Err(Error::Unsupported),
            Shape::Optional => Err(Error::Unsupported),
            Shape::Bytes => match self.deserialize_bytes() {
                Ok(bs) => Ok(Value::Bytes(bs)),
                Err(e) => Err(e),
            },
            Shape::Bits(w) => match self.read_bits(*w) {
                Ok(v) => Ok(Value::Bits(BitContainer::new(v))),
                Err(e) => Err(e),
            },
            Shape::Record(ss) => match self.deserialize_fields(ss) {
                Ok(vals) => Ok(Value::Record(vals)),
                Err(e) => Err(e),
            },
            Shape::Sequence(t) => {
                let e = self.endian;
                match e.deserialize_len(self) {
                    Ok(n) => match self.deserialize_elems(&**t, n) {
                        Ok(vals) => Ok(Value::Sequence(vals)),
                        Err(er) => Err(er),
                    },
                    Err(er) => Err(er),
                }
            },
            Shape::Enum(vars) => {
                let e = self.endian;
                match e.deserialize_len(self) {
                    Ok(d) => {
                        if d >= vars.len() {
                            Err(
                                Error::Message(
                                    "no variant carries the decoded discriminant index".to_string(),
                                ),
                            )
                        } else {
                            match self.deserialize_fields(&vars[d].fields) {
                                Ok(vals) => Ok(Value::Enum(d as u32, vals)),
                                Err(er) => Err(er),
                            }
                        }
                    },
                    Err(er) => Err(er),
                }
            },
        }
    }

    /// Deserialize a run of fields in declared order, with no framing of its
    /// own: the shared path of records, sequence elements and enum payloads.
    fn deserialize_fields(&mut self, ss: &Vec<Shape>) -> (r: Result<Vec<Value>, Error>)
        ensures
            final(self).buffer() == old(self).buffer(),
            final(self).encoding() == old(self).encoding(),
            ({
                let d = dec_fields(
                    old(self).buffer().ordering(),
                    old(self).encoding().endianness,
                    old(self).buffer()@,
                    old(self).pos() as int,
                    ss@,
                    0,
                );
                match r {
                    Ok(vals) => d matches DecodeManyResult::Done(vs, end) && views_from(vals@, 0)
                        == vs && final(self).pos() as int == end,
                    Err(e) => d matches DecodeManyResult::Fail(k) && fails_with(k, e),
                }
            }),
        decreases ss@, 1nat,
    {
        let ghost ord = self.buffer().ordering();
        let ghost ee = self.encoding().endianness;
        let ghost sbits = self.buffer()@;
        let ghost pos0 = self.pos() as int;
        let ghost total = dec_fields(ord, ee, sbits, pos0, ss@, 0);
        let n = ss.len();
        let mut vals: Vec<Value> = Vec::new();
        let mut i: usize = 0;
        proof {
            assert(views_from(vals@, 0) + Seq::<SpecValue>::empty() =~= views_from(vals@, 0));
        }
        while i < n
            invariant
                i <= n,
                n == ss@.len(),
                self.buffer() == old(self).buffer(),
                self.encoding() == old(self).encoding(),
                ord == self.buffer().ordering(),
                ee == self.encoding().endianness,
                sbits == self.buffer()@,
                pos0 == old(self).pos() as int,
                total == dec_fields(ord, ee, sbits, pos0, ss@, 0),
                vals@.len() == i,
                ({
                    match dec_fields(ord, ee, sbits, self.pos() as int, ss@, i as nat) {
                        DecodeManyResult::Done(vs, end) => total matches DecodeManyResult::Done(
                            tvs,
                            tend,
                        ) && tvs == views_from(vals@, 0) + vs && tend == end,
                        DecodeManyResult::Fail(k) => total == DecodeManyResult::Fail(k),
                    }
                }),
            decreases n - i,
        {
            let ghost mid = self.pos() as int;
            let ghost prev_vals = vals@;
            match self.deserialize_value(&ss[i]) {
                Ok(v) => {
                    vals.push(v);
                    i = i + 1;
                    proof {
                        lemma_views_from(prev_vals, 0);
                        lemma_views_from(vals@, 0);
                        assert(views_from(vals@, 0) =~= views_from(prev_vals, 0) + seq![
                            view_of(v),
                        ]);
                        let stepped = dec_fields(ord, ee, sbits, self.pos() as int, ss@, i as nat);
                        match stepped {
                            DecodeManyResult::Done(vs, end) => {
                                assert(views_from(prev_vals, 0) + (seq![view_of(v)] + vs) =~= (
                                views_from(prev_vals, 0) + seq![view_of(v)]) + vs);
                            },
                            DecodeManyResult::Fail(_) => {},
                        }
                    }
                },
                Err(er) => {
                    proof {
                        match dec(ord, ee, sbits, mid, ss@[i as int]) {
                            DecodeResult::Fail(k) => {
                                assert(dec_fields(ord, ee, sbits, mid, ss@, i as nat)
                                    == DecodeManyResult::Fail(k));
                                assert(total == DecodeManyResult::Fail(k));
                                assert(fails_with(k, er));
                            },
                            DecodeResult::Done(_, _) => {
                                assert(false);
                            },
                        }
                    }
                    return Err(er);
                },
            }
        }
        proof {
            assert(views_from(vals@, 0) + Seq::<SpecValue>::empty() =~= views_from(vals@, 0));
        }
        Ok(vals)
    }

    /// Deserialize exactly `n` elements of one element shape: the
    /// length-prefixed body of a sequence.  An explicit zero length
    /// short-circuits: no element is requested.
    fn deserialize_elems(&mut self, t: &Shape, n: usize) -> (r: Result<Vec<Value>, Error>)
        ensures
            final(self).buffer() == old(self).buffer(),
            final(self).encoding() == old(self).encoding(),
            ({
                let d = dec_many(
                    old(self).buffer().ordering(),
                    old(self).encoding().endianness,
                    old(self).buffer()@,
                    old(self).pos() as int,
                    *t,
                    n as nat,
                );
                match r {
                    Ok(vals) => d matches DecodeManyResult::Done(vs, end) && views_from(vals@, 0)
                        == vs && final(self).pos() as int == end,
                    Err(e) => d matches DecodeManyResult::Fail(k) && fails_with(k, e),
                }
            }),
        decreases t, 1nat,
    {
        let ghost ord = self.buffer().ordering();
        let ghost ee = self.encoding().endianness;
        let ghost sbits = self.buffer()@;
        let ghost pos0 = self.pos() as int;
        let ghost total = dec_many(ord, ee, sbits, pos0, *t, n as nat);
        let mut vals: Vec<Value> = Vec::new();
        let mut i: usize = 0;
        proof {
            assert(views_from(vals@, 0) + Seq::<SpecValue>::empty() =~= views_from(vals@, 0));
        }
        while i < n
            invariant
                i <= n,
                self.buffer() == old(self).buffer(),
                self.encoding() == old(self).encoding(),
                ord == self.buffer().ordering(),
                ee == self.encoding().endianness,
                sbits == self.buffer()@,
                pos0 == old(self).pos() as int,
                total == dec_many(ord, ee, sbits, pos0, *t, n as nat),
                vals@.len() == i,
                ({
                    match dec_many(ord, ee, sbits, self.pos() as int, *t, (n - i) as nat) {
                        DecodeManyResult::Done(vs, end) => total matches DecodeManyResult::Done(
                            tvs,
                            tend,
                        ) && tvs == views_from(vals@, 0) + vs && tend == end,
                        DecodeManyResult::Fail(k) => total == DecodeManyResult::Fail(k),
                    }
                }),
            decreases n - i,
        {
            let ghost mid = self.pos() as int;
            let ghost prev_vals = vals@;
            match self.deserialize_value(t) {
                Ok(v) => {
                    vals.push(v);
                    i = i + 1;
                    proof {
                        lemma_views_from(prev_vals, 0);
                        lemma_views_from(vals@, 0);
                        assert(views_from(vals@, 0) =~= views_from(prev_vals, 0) + seq![
                            view_of(v),
                        ]);
                        let stepped = dec_many(
                            ord,
                            ee,
                            sbits,
                            self.pos() as int,
                            *t,
                            (n - i) as nat,
                        );
                        match stepped {
                            DecodeManyResult::Done(vs, end) => {
                                assert(views_from(prev_vals, 0) + (seq![view_of(v)] + vs) =~= (
                                views_from(prev_vals, 0) + seq![view_of(v)]) + vs);
                            },
                            DecodeManyResult::Fail(_) => {},
                        }
                    }
                },
                Err(er) => {
                    proof {
                        match dec(ord, ee, sbits, mid, *t) {
                            DecodeResult::Fail(k) => {
                                assert(dec_many(ord, ee, sbits, mid, *t, (n - i) as nat)
                                    == DecodeManyResult::Fail(k));
                                assert(total == DecodeManyResult::Fail(k));
                                assert(fails_with(k, er));
                            },
                            DecodeResult::Done(_, _) => {
                                assert(false);
                            },
                        }
                    }
                    return Err(er);
                },
            }
        }
        proof {
            assert(views_from(vals@, 0) + Seq::<SpecValue>::empty() =~= views_from(vals@, 0));
        }
        Ok(vals)
    }
}

impl EndianEncoding {
    /// Read one 32-bit length field at the cursor: the length-first framing
    /// under which every variable-length aggregate and enum discriminant is
    /// written.
    pub fn deserialize_len(&self, de: &mut BitDeserializer<'_>) -> (r: Result<usize, Error>)
        requires
            self == old(de).encoding(),
        ensures
            final(de).buffer() == old(de).buffer(),
            final(de).encoding() == old(de).encoding(),
            ({
                let n = read_uint(
                    old(de).buffer().ordering(),
                    self.endianness,
                    old(de).buffer()@,
                    old(de).pos() as int,
                    4,
                );
                match r {
                    Ok(l) => n matches Some(m) && l as nat == m && final(de).pos() == old(
                        de,
                    ).pos() + 32,
                    Err(e) => n is None && e is OutOfRange && final(de).pos() == old(de).pos(),
                }
            }),
    {
        match de.read_uint_exec(4) {
            Ok(v) => {
                proof {
                    crate::encoding::lemma_uint_of_bytes_bound(
                        self.endianness,
                        read_bytes_spec(
                            old(de).buffer().ordering(),
                            old(de).buffer()@,
                            old(de).pos() as int,
                            4,
                        ),
                    );
                    vstd::arithmetic::power2::lemma2_to64();
                }
                Ok(v as usize)
            },
            Err(e) => Err(e),
        }
    }
}

} // verus!
