use vstd::prelude::*;

use crate::bits::{byte_bits, bytes_bits, BitBuffer, BitOrdering};
use crate::container::BitContainer;
use crate::encoding::{len_field_bits, uint_bytes, EndianEncoding};
use crate::error::Error;
use crate::value::{
    enc, enc_failure, enc_failure_from, enc_from, lemma_views_from, view_of, views_from,
    EncodeFailure, Value,
};

verus! {

/// The producer role of the traversal: walks a value's shape and appends the
/// correct bits to an owned buffer under the active encoding strategy.
pub struct BitSerializer {
    pub vec: BitBuffer,
    pub endian: EndianEncoding,
}

/// A serializer keeps its bit ordering and its strategy for its whole life.
pub open spec fn config_kept(pre: BitSerializer, post: BitSerializer) -> bool {
    post.vec.ordering() == pre.vec.ordering() && post.endian == pre.endian
}

/// The error a serialize call reports for each kind of failure.
pub open spec fn reports(k: EncodeFailure, e: Error) -> bool {
    match k {
        EncodeFailure::Unsupported => e is Unsupported,
        EncodeFailure::LengthOverflow => e is Message,
    }
}

impl BitSerializer {
    pub fn new(order: BitOrdering, endian: EndianEncoding) -> (r: BitSerializer)
        ensures
            r.vec@ == Seq::<bool>::empty(),
            r.vec.ordering() == order,
            r.endian == endian,
    {
        BitSerializer { vec: BitBuffer::new(order), endian }
    }

    /// A boolean is exactly one bit.
    pub fn serialize_bool(&mut self, v: bool) -> (r: Result<(), Error>)
        ensures
            config_kept(*old(self), *final(self)),
            r matches Ok(()),
            final(self).vec@ == old(self).vec@ + seq![v],
    {
        self.vec.push_bit(v);
        proof {
            assert(old(self).vec@.push(v) =~= old(self).vec@ + seq![v]);
        }
        Ok(())
    }

    /// An unsigned byte goes to the wire verbatim: eight raw bits, no
    /// endianness involved.
    pub fn serialize_u8(&mut self, v: u8) -> (r: Result<(), Error>)
        ensures
            config_kept(*old(self), *final(self)),
            r matches Ok(()),
            final(self).vec@ == old(self).vec@ + byte_bits(old(self).vec.ordering(), v),
    {
        self.vec.push_byte(v);
        Ok(())
    }

    /// Append the `width` low bytes of `v` in the strategy's byte order.
    fn serialize_uint(&mut self, v: u64, width: usize)
        ensures
            config_kept(*old(self), *final(self)),
            final(self).vec@ == old(self).vec@ + bytes_bits(
                old(self).vec.ordering(),
                uint_bytes(old(self).endian.endianness, v as nat, width as nat),
            ),
    {
        let e = self.endian;
        let bytes = e.uint_bytes_vec(v, width);
        self.vec.push_bytes(&bytes);
    }

    pub fn serialize_u16(&mut self, v: u16) -> (r: Result<(), Error>)
        ensures
            config_kept(*old(self), *final(self)),
            r matches Ok(()),
            final(self).vec@ == old(self).vec@ + bytes_bits(
                old(self).vec.ordering(),
                uint_bytes(old(self).endian.endianness, v as nat, 2),
            ),
    {
        self.serialize_uint(v as u64, 2);
        Ok(())
    }

    pub fn serialize_u32(&mut self, v: u32) -> (r: Result<(), Error>)
        ensures
            config_kept(*old(self), *final(self)),
            r matches Ok(()),
            final(self).vec@ == old(self).vec@ + bytes_bits(
                old(self).vec.ordering(),
                uint_bytes(old(self).endian.endianness, v as nat, 4),
            ),
    {
        self.serialize_uint(v as u64, 4);
        Ok(())
    }

    pub fn serialize_u64(&mut self, v: u64) -> (r: Result<(), Error>)
        ensures
            config_kept(*old(self), *final(self)),
            r matches Ok(()),
            final(self).vec@ == old(self).vec@ + bytes_bits(
                old(self).vec.ordering(),
                uint_bytes(old(self).endian.endianness, v as nat, 8),
            ),
    {
        self.serialize_uint(v, 8);
        Ok(())
    }

    /// A signed byte is one raw byte, its two's-complement pattern.
    pub fn serialize_i8(&mut self, v: i8) -> (r: Result<(), Error>)
        ensures
            config_kept(*old(self), *final(self)),
            r matches Ok(()),
            final(self).vec@ == old(self).vec@ + byte_bits(old(self).vec.ordering(), v as u8),
    {
        self.serialize_u8(v as u8)
    }

    pub fn serialize_i16(&mut self, v: i16) -> (r: Result<(), Error>)
        ensures
            config_kept(*old(self), *final(self)),
            r matches Ok(()),
            final(self).vec@ == old(self).vec@ + bytes_bits(
                old(self).vec.ordering(),
                uint_bytes(old(self).endian.endianness, (v as u16) as nat, 2),
            ),
    {
        self.serialize_uint((v as u16) as u64, 2);
        Ok(())
    }

    pub fn serialize_i32(&mut self, v: i32) -> (r: Result<(), Error>)
        ensures
            config_kept(*old(self), *final(self)),
            r matches Ok(()),
            final(self).vec@ == old(self).vec@ + bytes_bits(
                old(self).vec.ordering(),
                uint_bytes(old(self).endian.endianness, (v as u32) as nat, 4),
            ),
    {
        self.serialize_uint((v as u32) as u64, 4);
        Ok(())
    }

    pub fn serialize_i64(&mut self, v: i64) -> (r: Result<(), Error>)
        ensures
            config_kept(*old(self), *final(self)),
            r matches Ok(()),
            final(self).vec@ == old(self).vec@ + bytes_bits(
                old(self).vec.ordering(),
                uint_bytes(old(self).endian.endianness, (v as u64) as nat, 8),
            ),
    {
        self.serialize_uint(v as u64, 8);
        Ok(())
    }

    /// A 32-bit float travels as its raw bit pattern, like a `u32`.
    pub fn serialize_f32_bits(&mut self, v: u32) -> (r: Result<(), Error>)
        ensures
            config_kept(*old(self), *final(self)),
            r matches Ok(()),
            final(self).vec@ == old(self).vec@ + bytes_bits(
                old(self).vec.ordering(),
                uint_bytes(old(self).endian.endianness, v as nat, 4),
            ),
    {
        self.serialize_uint(v as u64, 4);
        Ok(())
    }

    /// A 64-bit float travels as its raw bit pattern, like a `u64`.
    pub fn serialize_f64_bits(&mut self, v: u64) -> (r: Result<(), Error>)
        ensures
            config_kept(*old(self), *final(self)),
            r matches Ok(()),
            final(self).vec@ == old(self).vec@ + bytes_bits(
                old(self).vec.ordering(),
                uint_bytes(old(self).endian.endianness, v as nat, 8),
            ),
    {
        self.serialize_uint(v, 8);
        Ok(())
    }

    /// Characters are not modelled by this codec.
    pub fn serialize_char(&mut self, _v: char) -> (r: Result<(), Error>)
        ensures
            *final(self) == *old(self),
            r matches Err(e) && e is Unsupported,
    {
        Err(Error::Unsupported)
    }

    /// Strings are not modelled by this codec.
    pub fn serialize_str(&mut self, _v: &str) -> (r: Result<(), Error>)
        ensures
            *final(self) == *old(self),
            r matches Err(e) && e is Unsupported,
    {
        Err(Error::Unsupported)
    }

    /// An opaque byte buffer: its length as a 32-bit field, then the raw
    /// bytes.  A buffer too long for the length field is refused whole.
    pub fn serialize_bytes(&mut self, v: &Vec<u8>) -> (r: Result<(), Error>)
        ensures
            config_kept(*old(self), *final(self)),
            v@.len() <= u32::MAX ==> (r matches Ok(())) && final(self).vec@ == old(self).vec@
                + len_field_bits(old(self).vec.ordering(), old(self).endian.endianness, v@.len())
                + bytes_bits(old(self).vec.ordering(), v@),
            v@.len() > u32::MAX ==> (r matches Err(e) && e is Message) && final(self).vec@ == old(
                self,
            ).vec@,
    {
        let e = self.endian;
        match e.serialize_len(&mut self.vec, v.len()) {
            Ok(()) => {
                self.vec.push_bytes(v);
                Ok(())
            },
            Err(er) => Err(er),
        }
    }

    /// A sub-byte container: its bits, back to back, with no framing, since
    /// its width is statically known to both sides.
    pub fn serialize_container(&mut self, c: &BitContainer) -> (r: Result<(), Error>)
        ensures
            config_kept(*old(self), *final(self)),
            r matches Ok(()),
            final(self).vec@ == old(self).vec@ + c@,
    {
        let n = c.width();
        let mut i: usize = 0;
        while i < n
            invariant
                i <= n,
                n == c@.len(),
                self.endian == old(self).endian,
                self.vec.ordering() == old(self).vec.ordering(),
                self.vec@ =~= old(self).vec@ + c@.subrange(0, i as int),
            decreases n - i,
        {
            self.vec.push_bit(c.bit(i));
            i = i + 1;
        }
        proof {
            assert(c@.subrange(0, n as int) =~= c@);
        }
        Ok(())
    }

    /// Serialize a whole structured value: the traversal entry point that
    /// walks the value's shape and appends each field's encoding in declared
    /// order.
    pub fn serialize_value(&mut self, value: &Value) -> (r: Result<(), Error>)
        ensures
            config_kept(*old(self), *final(self)),
            enc_failure(view_of(*value)) is None ==> (r matches Ok(())) && final(self).vec@ == old(
                self,
            ).vec@ + enc(old(self).vec.ordering(), old(self).endian.endianness, view_of(*value)),
            enc_failure(view_of(*value)) matches Some(k) ==> (r matches Err(e) && reports(k, e)),
        decreases value, 0nat,
    {
        match value {
            Value::Bool(b) => self.serialize_bool(*b),
            Value::U8(x) => self.serialize_u8(*x),
            Value::U16(x) => self.serialize_u16(*x),
            Value::U32(x) => self.serialize_u32(*x),
            Value::U64(x) => self.serialize_u64(*x),
            Value::I8(x) => self.serialize_i8(*x),
            Value::I16(x) => self.serialize_i16(*x),
            Value::I32(x) => self.serialize_i32(*x),
            Value::I64(x) => self.serialize_i64(*x),
            Value::F32Bits(x) => self.serialize_f32_bits(*x),
            Value::F64Bits(x) => self.serialize_f64_bits(*x),
            Value::Char(c) => self.serialize_char(*c),
            Value::Str(s) => self.serialize_str(s.as_str()),
            Value::Bytes(bs) => self.serialize_bytes(bs),
            Value::Bits(c) => self.serialize_container(c),
            Value::Record(fs) => self.serialize_fields(fs),
            Value::Sequence(es) => {
                proof {
                    lemma_views_from(es@, 0);
                }
                let e = self.endian;
                match e.serialize_len(&mut self.vec, es.len()) {
                    Ok(()) => {
                        let r = self.serialize_fields(es);
                        proof {
                            if enc_failure(view_of(*value)) is None {
                                assert(old(self).vec@ + len_field_bits(
                                    old(self).vec.ordering(),
                                    old(self).endian.endianness,
                                    es@.len(),
                                ) + enc_from(
                                    old(self).vec.ordering(),
                                    old(self).endian.endianness,
                                    views_from(es@, 0),
                                    0,
                                ) =~= old(self).vec@ + enc(
                                    old(self).vec.ordering(),
                                    old(self).endian.endianness,
                                    view_of(*value),
                                ));
                            }
                        }
                        r
                    },
                    Err(er) => Err(er),
                }
            },
            Value::Enum(d, fs) => {
                proof {
                    lemma_views_from(fs@, 0);
                }
                let e = self.endian;
                match e.serialize_len(&mut self.vec, *d as usize) {
                    Ok(()) => {
                        let r = self.serialize_fields(fs);
                        proof {
                            if enc_failure(view_of(*value)) is None {
                                assert(old(self).vec@ + len_field_bits(
                                    old(self).vec.ordering(),
                                    old(self).endian.endianness,
                                    *d as nat,
                                ) + enc_from(
                                    old(self).vec.ordering(),
                                    old(self).endian.endianness,
                                    views_from(fs@, 0),
                                    0,
                                ) =~= old(self).vec@ + enc(
                                    old(self).vec.ordering(),
                                    old(self).endian.endianness,
                                    view_of(*value),
                                ));
                            }
                        }
                        r
                    },
                    Err(er) => {
                        proof {
                            assert(false);
                        }
                        Err(er)
                    },
                }
            },
        }
    }

    /// Serialize a run of fields in declared order, with no framing of its
    /// own: the shared path of records, sequence elements and enum payloads.
    fn serialize_fields(&mut self, fs: &Vec<Value>) -> (r: Result<(), Error>)
        ensures
            config_kept(*old(self), *final(self)),
            enc_failure_from(views_from(fs@, 0), 0) is None ==> (r matches Ok(()))
                && final(self).vec@ == old(self).vec@ + enc_from(
                old(self).vec.ordering(),
                old(self).endian.endianness,
                views_from(fs@, 0),
                0,
            ),
            enc_failure_from(views_from(fs@, 0), 0) matches Some(k) ==> (r matches Err(e)
                && reports(k, e)),
        decreases fs@, 1nat,
    {
        let ghost ord = old(self).vec.ordering();
        let ghost end = old(self).endian.endianness;
        let ghost svs = views_from(fs@, 0);
        proof {
            lemma_views_from(fs@, 0);
        }
        let n = fs.len();
        let mut i: usize = 0;
        while i < n
            invariant
                i <= n,
                n == fs@.len(),
                svs == views_from(fs@, 0),
                svs.len() == n,
                forall|k: int| 0 <= k < n ==> svs[k] == view_of(fs@[k]),
                self.endian == old(self).endian,
                self.vec.ordering() == old(self).vec.ordering(),
                ord == old(self).vec.ordering(),
                end == old(self).endian.endianness,
                enc_failure_from(svs, 0) == enc_failure_from(svs, i as nat),
                old(self).vec@ + enc_from(ord, end, svs, 0) =~= self.vec@ + enc_from(
                    ord,
                    end,
                    svs,
                    i as nat,
                ),
            decreases n - i,
        {
            let ghost prev = self.vec@;
            match self.serialize_value(&fs[i]) {
                Ok(()) => {
                    proof {
                        assert(enc_failure_from(svs, i as nat) == enc_failure_from(
                            svs,
                            (i + 1) as nat,
                        ));
                        assert(prev + (enc(ord, end, svs[i as int]) + enc_from(
                            ord,
                            end,
                            svs,
                            (i + 1) as nat,
                        )) =~= (prev + enc(ord, end, svs[i as int])) + enc_from(
                            ord,
                            end,
                            svs,
                            (i + 1) as nat,
                        ));
                    }
                    i = i + 1;
                },
                Err(er) => {
                    proof {
                        assert(enc_failure(svs[i as int]) matches Some(k) && reports(k, er));
                    }
                    return Err(er);
                },
            }
        }
        proof {
            assert(enc_from(ord, end, svs, n as nat) =~= Seq::<bool>::empty());
            assert(self.vec@ =~= old(self).vec@ + enc_from(ord, end, svs, 0));
        }
        Ok(())
    }
}

} // verus!
