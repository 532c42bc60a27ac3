use vstd::prelude::*;
use vstd::arithmetic::power2::*;

use crate::bits::{
    byte_bits, bytes_bits, lemma_byte_of_byte_bits, lemma_bytes_bits_len, BitOrdering,
};
use crate::encoding::{
    len_field_bits, lemma_uint_bytes_len, lemma_uint_of_uint_bytes, nat_of_le_bytes, uint_bytes,
    uint_of_bytes, Endianness,
};
use crate::value::{
    dec, dec_fields, dec_many, enc, enc_failure, enc_failure_from, enc_from, encodable,
    matches_elems, matches_fields, read_bytes_spec, read_uint, shape_matches, DecodeManyResult,
    DecodeResult, Shape, SpecValue,
};

verus! {

/// Bits that hold the flattened bytes `bs` read back as exactly those bytes.
pub proof fn lemma_read_back_bytes(order: BitOrdering, bits: Seq<bool>, off: int, bs: Seq<u8>)
    requires
        0 <= off,
        off + 8 * bs.len() <= bits.len(),
        bits.subrange(off, off + 8 * bs.len()) == bytes_bits(order, bs),
    ensures
        read_bytes_spec(order, bits, off, bs.len()) == bs,
{
    broadcast use lemma_bytes_bits_len;

    assert forall|i: int| 0 <= i < bs.len() implies read_bytes_spec(order, bits, off, bs.len())[i]
        == bs[i] by {
        crate::bits::lemma_bytes_bits_index(order, bs, i);
        assert(bits.subrange(off + 8 * i, off + 8 * i + 8) =~= bytes_bits(order, bs).subrange(
            8 * i,
            8 * i + 8,
        ));
        lemma_byte_of_byte_bits(order, bs[i]);
    }
    assert(read_bytes_spec(order, bits, off, bs.len()) =~= bs);
}

/// Bits that hold a `w`-byte field carrying `n` read back as exactly `n`.
pub proof fn lemma_read_back_uint(
    order: BitOrdering,
    e: Endianness,
    bits: Seq<bool>,
    off: int,
    n: nat,
    w: nat,
)
    requires
        0 <= off,
        n < pow2(8 * w),
        off + 8 * w <= bits.len(),
        bits.subrange(off, off + 8 * (w as int)) == bytes_bits(order, uint_bytes(e, n, w)),
    ensures
        read_uint(order, e, bits, off, w) == Option::Some(n),
{
    lemma_uint_bytes_len(e, n, w);
    lemma_read_back_bytes(order, bits, off, uint_bytes(e, n, w));
    lemma_uint_of_uint_bytes(e, n, w);
}

/// Bits that hold a concatenation hold each part, one after the other.
pub proof fn lemma_split_concat(bits: Seq<bool>, off: int, a: Seq<bool>, b: Seq<bool>)
    requires
        0 <= off,
        off + a.len() + b.len() <= bits.len(),
        bits.subrange(off, off + a.len() + b.len()) == a + b,
    ensures
        bits.subrange(off, off + a.len()) == a,
        bits.subrange(off + a.len(), off + a.len() + b.len()) == b,
{
    let whole = bits.subrange(off, off + a.len() + b.len());
    assert forall|k: int| 0 <= k < a.len() implies bits.subrange(off, off + a.len())[k]
        == a[k] by {
        assert(whole[k] == (a + b)[k]);
    }
    assert(bits.subrange(off, off + a.len()) =~= a);
    assert forall|k: int|
        0 <= k < b.len() implies bits.subrange(off + a.len(), off + a.len() + b.len())[k]
        == b[k] by {
        assert(whole[a.len() + k] == (a + b)[a.len() + k]);
    }
    assert(bits.subrange(off + a.len(), off + a.len() + b.len()) =~= b);
}

/// Round-trip, stated over the wire model: an encodable value of a matching
/// shape, written at `off` in a longer bit sequence, decodes from there back
/// to itself, the cursor ending right after it.
pub proof fn lemma_round_trip(
    order: BitOrdering,
    e: Endianness,
    bits: Seq<bool>,
    off: int,
    sv: SpecValue,
    s: Shape,
)
    requires
        encodable(sv),
        shape_matches(sv, s),
        0 <= off,
        off + enc(order, e, sv).len() <= bits.len(),
        bits.subrange(off, off + enc(order, e, sv).len()) == enc(order, e, sv),
    ensures
        dec(order, e, bits, off, s) == DecodeResult::Done(sv, off + enc(order, e, sv).len()),
    decreases sv, 0nat,
{
    broadcast use lemma_bytes_bits_len;
    broadcast use lemma_uint_bytes_len;

    lemma2_to64();
    lemma2_to64_rest();
    match sv {
        SpecValue::Bool(b) => {
            assert(bits.subrange(off, off + 1)[0] == bits[off]);
        },
        SpecValue::U8(x) => {
            assert(byte_bits(order, x) =~= bytes_bits(order, uint_bytes(e, x as nat, 1))) by {
                assert(uint_bytes(e, x as nat, 1) =~= seq![x]);
                lemma_byte_of_byte_bits(order, x);
                assert(bytes_bits(order, seq![x]) =~= byte_bits(order, x));
            }
            lemma_byte_of_byte_bits(order, x);
            lemma_read_back_uint(order, e, bits, off, x as nat, 1);
        },
        SpecValue::U16(x) => {
            lemma_read_back_uint(order, e, bits, off, x as nat, 2);
        },
        SpecValue::U32(x) => {
            lemma_read_back_uint(order, e, bits, off, x as nat, 4);
        },
        SpecValue::U64(x) => {
            lemma_read_back_uint(order, e, bits, off, x as nat, 8);
        },
        SpecValue::I8(x) => {
            assert(byte_bits(order, x as u8) =~= bytes_bits(
                order,
                uint_bytes(e, (x as u8) as nat, 1),
            )) by {
                assert(uint_bytes(e, (x as u8) as nat, 1) =~= seq![x as u8]);
                lemma_byte_of_byte_bits(order, x as u8);
                assert(bytes_bits(order, seq![x as u8]) =~= byte_bits(order, x as u8));
            }
            lemma_byte_of_byte_bits(order, x as u8);
            lemma_read_back_uint(order, e, bits, off, (x as u8) as nat, 1);
            assert(((x as u8) as i8) == x) by (bit_vector);
            assert((((x as u8) as nat) as u8) == (x as u8));
        },
        SpecValue::I16(x) => {
            lemma_read_back_uint(order, e, bits, off, (x as u16) as nat, 2);
            assert(((x as u16) as i16) == x) by (bit_vector);
            assert((((x as u16) as nat) as u16) == (x as u16));
        },
        SpecValue::I32(x) => {
            lemma_read_back_uint(order, e, bits, off, (x as u32) as nat, 4);
            assert(((x as u32) as i32) == x) by (bit_vector);
            assert((((x as u32) as nat) as u32) == (x as u32));
        },
        SpecValue::I64(x) => {
            lemma_read_back_uint(order, e, bits, off, (x as u64) as nat, 8);
            assert(((x as u64) as i64) == x) by (bit_vector);
            assert((((x as u64) as nat) as u64) == (x as u64));
        },
        SpecValue::F32Bits(x) => {
            lemma_read_back_uint(order, e, bits, off, x as nat, 4);
        },
        SpecValue::F64Bits(x) => {
            lemma_read_back_uint(order, e, bits, off, x as nat, 8);
        },
        SpecValue::Char(_) => {},
        SpecValue::Str(_) => {},
        SpecValue::Bytes(bs) => {
            let lf = len_field_bits(order, e, bs.len());
            assert(lf.len() == 32);
            lemma_split_concat(bits, off, lf, bytes_bits(order, bs));
            lemma_read_back_uint(order, e, bits, off, bs.len(), 4);
            lemma_read_back_bytes(order, bits, off + 32, bs);
        },
        SpecValue::Record(fs) => {
            match s {
                Shape::Record(ss) => {
                    lemma_round_trip_fields(order, e, bits, off, fs, ss@, 0);
                    assert(fs.skip(0) =~= fs);
                },
                _ => {},
            }
        },
        SpecValue::Sequence(es) => {
            match s {
                Shape::Sequence(t) => {
                    let lf = len_field_bits(order, e, es.len());
                    assert(lf.len() == 32);
                    let tail = enc_from(order, e, es, 0);
                    lemma_split_concat(bits, off, lf, tail);
                    lemma_read_back_uint(order, e, bits, off, es.len(), 4);
                    lemma_round_trip_elems(order, e, bits, off + 32, es, *t, 0);
                    assert(es.skip(0) =~= es);
                },
                _ => {},
            }
        },
        SpecValue::Bits(bv) => {
            assert(bits.subrange(off, off + bv.len()) == bv);
        },
        SpecValue::Enum(d, fs) => {
            match s {
                Shape::Enum(vars) => {
                    let lf = len_field_bits(order, e, d as nat);
                    assert(lf.len() == 32);
                    let tail = enc_from(order, e, fs, 0);
                    lemma_split_concat(bits, off, lf, tail);
                    lemma_read_back_uint(order, e, bits, off, d as nat, 4);
                    lemma_round_trip_fields(order, e, bits, off + 32, fs, vars@[d as int].fields@, 0);
                    assert(fs.skip(0) =~= fs);
                },
                _ => {},
            }
        },
    }
}

/// Round-trip for the fields from `i` on of a record or enum payload.
pub proof fn lemma_round_trip_fields(
    order: BitOrdering,
    e: Endianness,
    bits: Seq<bool>,
    off: int,
    vs: Seq<SpecValue>,
    ss: Seq<Shape>,
    i: nat,
)
    requires
        i <= vs.len(),
        vs.len() == ss.len(),
        enc_failure_from(vs, i) is None,
        matches_fields(vs, ss, i),
        0 <= off,
        off + enc_from(order, e, vs, i).len() <= bits.len(),
        bits.subrange(off, off + enc_from(order, e, vs, i).len()) == enc_from(order, e, vs, i),
    ensures
        dec_fields(order, e, bits, off, ss, i) == DecodeManyResult::Done(
            vs.skip(i as int),
            off + enc_from(order, e, vs, i).len(),
        ),
    decreases vs, vs.len() - i,
{
    if i >= vs.len() {
        assert(vs.skip(i as int) =~= Seq::<SpecValue>::empty());
    } else {
        let head = enc(order, e, vs[i as int]);
        let tail = enc_from(order, e, vs, i + 1);
        assert(enc_from(order, e, vs, i) == head + tail);
        lemma_split_concat(bits, off, head, tail);
        lemma_round_trip(order, e, bits, off, vs[i as int], ss[i as int]);
        lemma_round_trip_fields(order, e, bits, off + head.len(), vs, ss, i + 1);
        assert(vs.skip(i as int) =~= seq![vs[i as int]] + vs.skip(i + 1 as int));
    }
}

/// Round-trip for `vs.len() - i` sequence elements of one element shape.
pub proof fn lemma_round_trip_elems(
    order: BitOrdering,
    e: Endianness,
    bits: Seq<bool>,
    off: int,
    vs: Seq<SpecValue>,
    t: Shape,
    i: nat,
)
    requires
        i <= vs.len(),
        enc_failure_from(vs, i) is None,
        matches_elems(vs, t, i),
        0 <= off,
        off + enc_from(order, e, vs, i).len() <= bits.len(),
        bits.subrange(off, off + enc_from(order, e, vs, i).len()) == enc_from(order, e, vs, i),
    ensures
        dec_many(order, e, bits, off, t, (vs.len() - i) as nat) == DecodeManyResult::Done(
            vs.skip(i as int),
            off + enc_from(order, e, vs, i).len(),
        ),
    decreases vs, vs.len() - i,
{
    if i >= vs.len() {
        assert(vs.skip(i as int) =~= Seq::<SpecValue>::empty());
    } else {
        let head = enc(order, e, vs[i as int]);
        let tail = enc_from(order, e, vs, i + 1);
        assert(enc_from(order, e, vs, i) == head + tail);
        lemma_split_concat(bits, off, head, tail);
        lemma_round_trip(order, e, bits, off, vs[i as int], t);
        lemma_round_trip_elems(order, e, bits, off + head.len(), vs, t, i + 1);
        assert(vs.skip(i as int) =~= seq![vs[i as int]] + vs.skip(i + 1 as int));
    }
}

/// The cursor invariant: a successful decode only moves the cursor forward,
/// and never past the end of the slice.
pub proof fn lemma_cursor_advances(
    order: BitOrdering,
    e: Endianness,
    bits: Seq<bool>,
    off: int,
    s: Shape,
)
    requires
        0 <= off <= bits.len(),
    ensures
        dec(order, e, bits, off, s) matches DecodeResult::Done(sv, end) ==> off <= end
            <= bits.len(),
    decreases s, 0nat,
{
    match s {
        Shape::Record(ss) => {
            lemma_cursor_advances_fields(order, e, bits, off, ss@, 0);
        },
        Shape::Sequence(t) => {
            if off + 32 <= bits.len() {
                match read_uint(order, e, bits, off, 4) {
                    Option::Some(n) => {
                        lemma_cursor_advances_many(order, e, bits, off + 32, *t, n);
                    },
                    Option::None => {},
                }
            }
        },
        Shape::Enum(vars) => {
            if off + 32 <= bits.len() {
                match read_uint(order, e, bits, off, 4) {
                    Option::Some(d) => {
                        if d < vars@.len() {
                            lemma_cursor_advances_fields(
                                order,
                                e,
                                bits,
                                off + 32,
                                vars@[d as int].fields@,
                                0,
                            );
                        }
                    },
                    Option::None => {},
                }
            }
        },
        _ => {},
    }
}

pub proof fn lemma_cursor_advances_fields(
    order: BitOrdering,
    e: Endianness,
    bits: Seq<bool>,
    off: int,
    ss: Seq<Shape>,
    i: nat,
)
    requires
        0 <= off <= bits.len(),
    ensures
        dec_fields(order, e, bits, off, ss, i) matches DecodeManyResult::Done(vs, end) ==> off
            <= end <= bits.len(),
    decreases ss, ss.len() - i,
{
    if i < ss.len() {
        lemma_cursor_advances(order, e, bits, off, ss[i as int]);
        match dec(order, e, bits, off, ss[i as int]) {
            DecodeResult::Done(_, mid) => {
                lemma_cursor_advances_fields(order, e, bits, mid, ss, i + 1);
            },
            DecodeResult::Fail(_) => {},
        }
    }
}

pub proof fn lemma_cursor_advances_many(
    order: BitOrdering,
    e: Endianness,
    bits: Seq<bool>,
    off: int,
    t: Shape,
    n: nat,
)
    requires
        0 <= off <= bits.len(),
    ensures
        dec_many(order, e, bits, off, t, n) matches DecodeManyResult::Done(vs, end) ==> off <= end
            <= bits.len(),
    decreases t, n,
{
    if n > 0 {
        lemma_cursor_advances(order, e, bits, off, t);
        match dec(order, e, bits, off, t) {
            DecodeResult::Done(_, mid) => {
                lemma_cursor_advances_many(order, e, bits, mid, t, (n - 1) as nat);
            },
            DecodeResult::Fail(_) => {},
        }
    }
}

/// Round-trip at the buffer boundary: deserializing exactly the bits that an
/// encodable value serializes to, under the same bit ordering and strategy
/// and against a matching shape, gives the value back and consumes every bit.
pub proof fn lemma_serialize_deserialize(
    order: BitOrdering,
    e: Endianness,
    sv: SpecValue,
    s: Shape,
)
    requires
        encodable(sv),
        shape_matches(sv, s),
    ensures
        dec(order, e, enc(order, e, sv), 0, s) == DecodeResult::Done(
            sv,
            enc(order, e, sv).len() as int,
        ),
{
    let body = enc(order, e, sv);
    assert(body.subrange(0, body.len() as int) =~= body);
    lemma_round_trip(order, e, body, 0, sv, s);
}

/// Bits written back from the bytes that were read out of them are those
/// very bits.
pub proof fn lemma_write_back_bytes(order: BitOrdering, bits: Seq<bool>, off: int, w: nat)
    requires
        0 <= off,
        off + 8 * w <= bits.len(),
    ensures
        bytes_bits(order, read_bytes_spec(order, bits, off, w)) == bits.subrange(
            off,
            off + 8 * w,
        ),
{
    broadcast use lemma_bytes_bits_len;

    let bs = read_bytes_spec(order, bits, off, w);
    assert forall|k: int| 0 <= k < 8 * w implies bytes_bits(order, bs)[k] == bits[off + k] by {
        let i = k / 8;
        let r = k % 8;
        crate::bits::lemma_bytes_bits_index(order, bs, i);
        crate::bits::lemma_byte_bits_of_bits(order, bits.subrange(off + 8 * i, off + 8 * i + 8));
        assert(bytes_bits(order, bs)[k] == bytes_bits(order, bs).subrange(8 * i, 8 * i + 8)[r]);
        assert(byte_bits(order, bs[i])[r] == bits.subrange(off + 8 * i, off + 8 * i + 8)[r]);
    }
    assert(bytes_bits(order, bs) =~= bits.subrange(off, off + 8 * w));
}

/// Prepending one value shifts a run's encoding by one position.
pub proof fn lemma_enc_from_cons(
    order: BitOrdering,
    e: Endianness,
    v: SpecValue,
    vs: Seq<SpecValue>,
    i: nat,
)
    ensures
        enc_from(order, e, seq![v] + vs, i + 1) == enc_from(order, e, vs, i),
    decreases vs.len() - i,
{
    if i < vs.len() {
        lemma_enc_from_cons(order, e, v, vs, i + 1);
        assert((seq![v] + vs)[i + 1 as int] == vs[i as int]);
    } else {
        assert(enc_from(order, e, seq![v] + vs, i + 1) =~= enc_from(order, e, vs, i));
    }
}

pub proof fn lemma_matches_fields_pointwise(vs: Seq<SpecValue>, ss: Seq<Shape>, j: nat)
    requires
        vs.len() <= ss.len(),
        forall|k: int| 0 <= k < vs.len() ==> shape_matches(#[trigger] vs[k], ss[k]),
    ensures
        matches_fields(vs, ss, j),
    decreases vs.len() - j,
{
    if j < vs.len() {
        lemma_matches_fields_pointwise(vs, ss, j + 1);
    }
}

pub proof fn lemma_matches_elems_pointwise(vs: Seq<SpecValue>, t: Shape, j: nat)
    requires
        forall|k: int| 0 <= k < vs.len() ==> shape_matches(#[trigger] vs[k], t),
    ensures
        matches_elems(vs, t, j),
    decreases vs.len() - j,
{
    if j < vs.len() {
        lemma_matches_elems_pointwise(vs, t, j + 1);
    }
}

pub proof fn lemma_enc_failure_from_pointwise(vs: Seq<SpecValue>, j: nat)
    requires
        forall|k: int| 0 <= k < vs.len() ==> enc_failure(#[trigger] vs[k]) is None,
    ensures
        enc_failure_from(vs, j) is None,
    decreases vs.len() - j,
{
    if j < vs.len() {
        lemma_enc_failure_from_pointwise(vs, j + 1);
    }
}

/// The converse of the round trip: whatever a decode accepts is of the
/// target shape, is encodable, and re-encodes to exactly the bits it
/// consumed.  Together with the round trip this makes decoding and the wire
/// format mutual inverses.
pub proof fn lemma_decode_encode(
    order: BitOrdering,
    e: Endianness,
    bits: Seq<bool>,
    off: int,
    s: Shape,
)
    requires
        0 <= off <= bits.len(),
    ensures
        dec(order, e, bits, off, s) matches DecodeResult::Done(sv, end) ==> {
            &&& shape_matches(sv, s)
            &&& encodable(sv)
            &&& off <= end <= bits.len()
            &&& enc(order, e, sv) == bits.subrange(off, end)
        },
    decreases s, 0nat,
{
    broadcast use lemma_bytes_bits_len;
    broadcast use lemma_uint_bytes_len;

    lemma2_to64();
    lemma2_to64_rest();
    match s {
        Shape::Bool => {
            if off + 1 <= bits.len() {
                assert(seq![bits[off]] =~= bits.subrange(off, off + 1));
            }
        },
        Shape::U8 => {
            if off + 8 <= bits.len() {
                let bs = read_bytes_spec(order, bits, off, 1);
                assert(bs.drop_first() =~= Seq::<u8>::empty());
                assert(bs.reverse() =~= bs);
                assert(nat_of_le_bytes(Seq::<u8>::empty()) == 0);
                assert(uint_of_bytes(e, bs) == bs[0]);
                crate::bits::lemma_byte_bits_of_bits(order, bits.subrange(off, off + 8));
            }
        },
        Shape::U16 => {
            lemma_reencode_uint(order, e, bits, off, 2);
        },
        Shape::U32 => {
            lemma_reencode_uint(order, e, bits, off, 4);
        },
        Shape::U64 => {
            lemma_reencode_uint(order, e, bits, off, 8);
        },
        Shape::I8 => {
            if off + 8 <= bits.len() {
                let bs = read_bytes_spec(order, bits, off, 1);
                assert(bs.drop_first() =~= Seq::<u8>::empty());
                assert(bs.reverse() =~= bs);
                assert(nat_of_le_bytes(Seq::<u8>::empty()) == 0);
                assert(uint_of_bytes(e, bs) == bs[0]);
                crate::bits::lemma_byte_bits_of_bits(order, bits.subrange(off, off + 8));
                let b = bs[0];
                assert(((b as i8) as u8) == b) by (bit_vector);
            }
        },
        Shape::I16 => {
            lemma_reencode_uint(order, e, bits, off, 2);
            if off + 16 <= bits.len() {
                let n = uint_of_bytes(e, read_bytes_spec(order, bits, off, 2));
                let m = n as u16;
                assert(((m as i16) as u16) == m) by (bit_vector);
            }
        },
        Shape::I32 => {
            lemma_reencode_uint(order, e, bits, off, 4);
            if off + 32 <= bits.len() {
                let n = uint_of_bytes(e, read_bytes_spec(order, bits, off, 4));
                let m = n as u32;
                assert(((m as i32) as u32) == m) by (bit_vector);
            }
        },
        Shape::I64 => {
            lemma_reencode_uint(order, e, bits, off, 8);
            if off + 64 <= bits.len() {
                let n = uint_of_bytes(e, read_bytes_spec(order, bits, off, 8));
                let m = n as u64;
                assert(((m as i64) as u64) == m) by (bit_vector);
            }
        },
        Shape::F32 => {
            lemma_reencode_uint(order, e, bits, off, 4);
        },
        Shape::F64 => {
            lemma_reencode_uint(order, e, bits, off, 8);
        },
        Shape::Char => {},
        Shape::Str => {},
        Shape::Mapping => {},
        Shape::Optional => {},
        Shape::Bytes => {
            if off + 32 <= bits.len() {
                let lfb = read_bytes_spec(order, bits, off, 4);
                let n = uint_of_bytes(e, lfb);
                crate::encoding::lemma_uint_of_bytes_bound(e, lfb);
                if off + 32 + 8 * n <= bits.len() {
                    lemma_write_back_bytes(order, bits, off, 4);
                    crate::encoding::lemma_uint_bytes_of_uint_of_bytes(e, lfb);
                    lemma_write_back_bytes(order, bits, off + 32, n);
                    assert(bits.subrange(off, off + 32) + bits.subrange(
                        off + 32,
                        off + 32 + 8 * n,
                    ) =~= bits.subrange(off, off + 32 + 8 * n));
                }
            }
        },
        Shape::Record(ss) => {
            lemma_decode_encode_fields(order, e, bits, off, ss@, 0);
            match dec_fields(order, e, bits, off, ss@, 0) {
                DecodeManyResult::Done(vs, end) => {
                    lemma_matches_fields_pointwise(vs, ss@, 0);
                    lemma_enc_failure_from_pointwise(vs, 0);
                },
                DecodeManyResult::Fail(_) => {},
            }
        },
        Shape::Sequence(t) => {
            if off + 32 <= bits.len() {
                let lfb = read_bytes_spec(order, bits, off, 4);
                let n = uint_of_bytes(e, lfb);
                crate::encoding::lemma_uint_of_bytes_bound(e, lfb);
                lemma_decode_encode_many(order, e, bits, off + 32, *t, n);
                match dec_many(order, e, bits, off + 32, *t, n) {
                    DecodeManyResult::Done(vs, end) => {
                        lemma_matches_elems_pointwise(vs, *t, 0);
                        lemma_enc_failure_from_pointwise(vs, 0);
                        lemma_write_back_bytes(order, bits, off, 4);
                        crate::encoding::lemma_uint_bytes_of_uint_of_bytes(e, lfb);
                        assert(bits.subrange(off, off + 32) + bits.subrange(off + 32, end)
                            =~= bits.subrange(off, end));
                    },
                    DecodeManyResult::Fail(_) => {},
                }
            }
        },
        Shape::Bits(w) => {
            if off + w <= bits.len() {
                assert(bits.subrange(off, off + w).len() == w as int);
            }
        },
        Shape::Enum(vars) => {
            if off + 32 <= bits.len() {
                let lfb = read_bytes_spec(order, bits, off, 4);
                let d = uint_of_bytes(e, lfb);
                crate::encoding::lemma_uint_of_bytes_bound(e, lfb);
                if d < vars@.len() {
                    lemma_decode_encode_fields(order, e, bits, off + 32, vars@[d as int].fields@, 0);
                    match dec_fields(order, e, bits, off + 32, vars@[d as int].fields@, 0) {
                        DecodeManyResult::Done(vs, end) => {
                            lemma_matches_fields_pointwise(vs, vars@[d as int].fields@, 0);
                            lemma_enc_failure_from_pointwise(vs, 0);
                            lemma_write_back_bytes(order, bits, off, 4);
                            crate::encoding::lemma_uint_bytes_of_uint_of_bytes(e, lfb);
                            assert(bits.subrange(off, off + 32) + bits.subrange(off + 32, end)
                                =~= bits.subrange(off, end));
                        },
                        DecodeManyResult::Fail(_) => {},
                    }
                }
            }
        },
    }
}

/// The converse direction for a fixed-width unsigned field: what was read
/// re-encodes to the very bits it came from.
proof fn lemma_reencode_uint(order: BitOrdering, e: Endianness, bits: Seq<bool>, off: int, w: nat)
    requires
        0 <= off,
    ensures
        off + 8 * w <= bits.len() ==> {
            let n = uint_of_bytes(e, read_bytes_spec(order, bits, off, w));
            &&& n < pow2(8 * w)
            &&& bytes_bits(order, uint_bytes(e, n, w)) == bits.subrange(off, off + 8 * w)
        },
{
    if off + 8 * w <= bits.len() {
        let bs = read_bytes_spec(order, bits, off, w);
        crate::encoding::lemma_uint_of_bytes_bound(e, bs);
        crate::encoding::lemma_uint_bytes_of_uint_of_bytes(e, bs);
        lemma_write_back_bytes(order, bits, off, w);
    }
}

/// The converse direction for the fields from `i` on of a record or enum
/// payload.
pub proof fn lemma_decode_encode_fields(
    order: BitOrdering,
    e: Endianness,
    bits: Seq<bool>,
    off: int,
    ss: Seq<Shape>,
    i: nat,
)
    requires
        0 <= off <= bits.len(),
        i <= ss.len(),
    ensures
        dec_fields(order, e, bits, off, ss, i) matches DecodeManyResult::Done(vs, end) ==> {
            &&& vs.len() == ss.len() - i
            &&& forall|j: int| 0 <= j < vs.len() ==> shape_matches(#[trigger] vs[j], ss[i + j])
            &&& forall|j: int| 0 <= j < vs.len() ==> enc_failure(#[trigger] vs[j]) is None
            &&& off <= end <= bits.len()
            &&& enc_from(order, e, vs, 0) == bits.subrange(off, end)
        },
    decreases ss, ss.len() - i,
{
    if i >= ss.len() {
        assert(enc_from(order, e, Seq::<SpecValue>::empty(), 0) =~= bits.subrange(off, off));
    } else {
        lemma_decode_encode(order, e, bits, off, ss[i as int]);
        match dec(order, e, bits, off, ss[i as int]) {
            DecodeResult::Done(v, mid) => {
                lemma_decode_encode_fields(order, e, bits, mid, ss, i + 1);
                match dec_fields(order, e, bits, mid, ss, i + 1) {
                    DecodeManyResult::Done(vs2, end) => {
                        let vs = seq![v] + vs2;
                        lemma_enc_from_cons(order, e, v, vs2, 0);
                        assert(vs[0] == v);
                        assert(enc_from(order, e, vs, 0) =~= bits.subrange(off, end)) by {
                            assert(bits.subrange(off, mid) + bits.subrange(mid, end)
                                =~= bits.subrange(off, end));
                        }
                        assert forall|j: int| 0 <= j < vs.len() implies shape_matches(
                            #[trigger] vs[j],
                            ss[i + j],
                        ) by {
                            if j > 0 {
                                assert(vs[j] == vs2[j - 1]);
                            }
                        }
                        assert forall|j: int| 0 <= j < vs.len() implies enc_failure(
                            #[trigger] vs[j],
                        ) is None by {
                            if j > 0 {
                                assert(vs[j] == vs2[j - 1]);
                            }
                        }
                    },
                    DecodeManyResult::Fail(_) => {},
                }
            },
            DecodeResult::Fail(_) => {},
        }
    }
}

/// The converse direction for `n` sequence elements of one element shape.
pub proof fn lemma_decode_encode_many(
    order: BitOrdering,
    e: Endianness,
    bits: Seq<bool>,
    off: int,
    t: Shape,
    n: nat,
)
    requires
        0 <= off <= bits.len(),
    ensures
        dec_many(order, e, bits, off, t, n) matches DecodeManyResult::Done(vs, end) ==> {
            &&& vs.len() == n
            &&& forall|j: int| 0 <= j < vs.len() ==> shape_matches(#[trigger] vs[j], t)
            &&& forall|j: int| 0 <= j < vs.len() ==> enc_failure(#[trigger] vs[j]) is None
            &&& off <= end <= bits.len()
            &&& enc_from(order, e, vs, 0) == bits.subrange(off, end)
        },
    decreases t, n,
{
    if n == 0 {
        assert(enc_from(order, e, Seq::<SpecValue>::empty(), 0) =~= bits.subrange(off, off));
    } else {
        lemma_decode_encode(order, e, bits, off, t);
        match dec(order, e, bits, off, t) {
            DecodeResult::Done(v, mid) => {
                lemma_decode_encode_many(order, e, bits, mid, t, (n - 1) as nat);
                match dec_many(order, e, bits, mid, t, (n - 1) as nat) {
                    DecodeManyResult::Done(vs2, end) => {
                        let vs = seq![v] + vs2;
                        lemma_enc_from_cons(order, e, v, vs2, 0);
                        assert(vs[0] == v);
                        assert(enc_from(order, e, vs, 0) =~= bits.subrange(off, end)) by {
                            assert(bits.subrange(off, mid) + bits.subrange(mid, end)
                                =~= bits.subrange(off, end));
                        }
                        assert forall|j: int| 0 <= j < vs.len() implies shape_matches(
                            #[trigger] vs[j],
                            t,
                        ) by {
                            if j > 0 {
                                assert(vs[j] == vs2[j - 1]);
                            }
                        }
                        assert forall|j: int| 0 <= j < vs.len() implies enc_failure(
                            #[trigger] vs[j],
                        ) is None by {
                            if j > 0 {
                                assert(vs[j] == vs2[j - 1]);
                            }
                        }
                    },
                    DecodeManyResult::Fail(_) => {},
                }
            },
            DecodeResult::Fail(_) => {},
        }
    }
}

} // verus!
