use vstd::prelude::*;
use vstd::arithmetic::power2::*;

use crate::bits::{bytes_bits, reversed_vec, BitBuffer, BitOrdering};
use crate::error::Error;

verus! {

/// The arrangement of the bytes of a multi-byte primitive on the wire.
#[derive(Clone, Copy, Debug, PartialEq, Eq, Structural)]
pub enum Endianness {
    Little,
    Big,
}

/// The `width` low bytes of `n`, least significant byte first.
pub open spec fn le_bytes(n: nat, width: nat) -> Seq<u8>
    decreases width,
{
    if width == 0 {
        Seq::empty()
    } else {
        seq![(n % 256) as u8] + le_bytes(n / 256, (width - 1) as nat)
    }
}

/// The value whose bytes, least significant first, are `s`.
pub open spec fn nat_of_le_bytes(s: Seq<u8>) -> nat
    decreases s.len(),
{
    if s.len() == 0 {
        0
    } else {
        (s[0] as nat) + 256 * nat_of_le_bytes(s.drop_first())
    }
}

/// The `width` bytes that carry `n` under the given endianness.
pub open spec fn uint_bytes(e: Endianness, n: nat, width: nat) -> Seq<u8> {
    match e {
        Endianness::Little => le_bytes(n, width),
        Endianness::Big => le_bytes(n, width).reverse(),
    }
}

/// The value carried by the bytes `s` under the given endianness.
pub open spec fn uint_of_bytes(e: Endianness, s: Seq<u8>) -> nat {
    match e {
        Endianness::Little => nat_of_le_bytes(s),
        Endianness::Big => nat_of_le_bytes(s.reverse()),
    }
}

/// The bits of a 32-bit length field holding `n`, as written before every
/// variable-length aggregate and every enum discriminant.
pub open spec fn len_field_bits(order: BitOrdering, e: Endianness, n: nat) -> Seq<bool> {
    bytes_bits(order, uint_bytes(e, n, 4))
}

pub broadcast proof fn lemma_le_bytes_len(n: nat, width: nat)
    ensures
        #[trigger] le_bytes(n, width).len() == width,
    decreases width,
{
    if width > 0 {
        lemma_le_bytes_len(n / 256, (width - 1) as nat);
    }
}

pub broadcast proof fn lemma_nat_of_le_bytes_bound(s: Seq<u8>)
    ensures
        #[trigger] nat_of_le_bytes(s) < pow2(8 * s.len()),
    decreases s.len(),
{
    if s.len() == 0 {
        lemma2_to64();
    } else {
        lemma_nat_of_le_bytes_bound(s.drop_first());
        lemma_pow2_adds(8, 8 * (s.len() - 1) as nat);
        lemma2_to64();
        assert(s[0] + 256 * nat_of_le_bytes(s.drop_first()) < 256 * pow2(8 * (s.len() - 1) as nat))
            by (nonlinear_arith)
            requires
                s[0] < 256,
                nat_of_le_bytes(s.drop_first()) < pow2(8 * (s.len() - 1) as nat),
        ;
    }
}

pub broadcast proof fn lemma_uint_bytes_len(e: Endianness, n: nat, width: nat)
    ensures
        #[trigger] uint_bytes(e, n, width).len() == width,
{
    broadcast use lemma_le_bytes_len;

    if e is Big {
        assert(le_bytes(n, width).reverse().len() == le_bytes(n, width).len());
    }
}

pub proof fn lemma_uint_of_bytes_bound(e: Endianness, s: Seq<u8>)
    ensures
        uint_of_bytes(e, s) < pow2(8 * s.len()),
{
    broadcast use lemma_nat_of_le_bytes_bound;

    if e is Big {
        assert(s.reverse().len() == s.len());
    }
}

/// Reading the bytes of a value gives the value back.
pub proof fn lemma_uint_of_uint_bytes(e: Endianness, n: nat, width: nat)
    requires
        n < pow2(8 * width),
    ensures
        uint_of_bytes(e, uint_bytes(e, n, width)) == n,
    decreases width,
{
    if e is Big {
        assert(le_bytes(n, width).reverse().reverse() =~= le_bytes(n, width));
    }
    if width == 0 {
        lemma2_to64();
    } else {
        lemma_pow2_adds(8, 8 * (width - 1) as nat);
        lemma2_to64();
        assert(n / 256 < pow2(8 * (width - 1) as nat)) by (nonlinear_arith)
            requires
                n < 256 * pow2(8 * (width - 1) as nat),
        ;
        lemma_uint_of_uint_bytes(Endianness::Little, n / 256, (width - 1) as nat);
        assert(le_bytes(n, width).drop_first() =~= le_bytes(n / 256, (width - 1) as nat));
    }
}

/// Writing back the bytes that a value was read from gives those bytes back.
pub proof fn lemma_le_bytes_of_nat_of_le_bytes(s: Seq<u8>)
    ensures
        le_bytes(nat_of_le_bytes(s), s.len()) == s,
    decreases s.len(),
{
    broadcast use lemma_le_bytes_len;

    if s.len() == 0 {
        assert(le_bytes(nat_of_le_bytes(s), s.len()) =~= s);
    } else {
        let n = nat_of_le_bytes(s);
        lemma_le_bytes_of_nat_of_le_bytes(s.drop_first());
        assert(n % 256 == s[0] as nat);
        assert(n / 256 == nat_of_le_bytes(s.drop_first()));
        assert(le_bytes(n, s.len()) =~= s);
    }
}

pub proof fn lemma_uint_bytes_of_uint_of_bytes(e: Endianness, s: Seq<u8>)
    ensures
        uint_bytes(e, uint_of_bytes(e, s), s.len()) == s,
{
    match e {
        Endianness::Little => {
            lemma_le_bytes_of_nat_of_le_bytes(s);
        },
        Endianness::Big => {
            lemma_le_bytes_of_nat_of_le_bytes(s.reverse());
            assert(s.reverse().len() == s.len());
            assert(le_bytes(nat_of_le_bytes(s.reverse()), s.len()).reverse() =~= s) by {
                assert(s.reverse().reverse() =~= s);
            }
        },
    }
}

/// The stateless encoding strategy of this codec: primitive bytes under a
/// chosen endianness, lengths and discriminants as 32-bit fields in the same
/// byte order.  Swapping the endianness changes only how the bytes of a
/// multi-byte primitive are arranged, never the bit ordering of the buffer.
#[derive(Clone, Copy, Debug, PartialEq, Eq, Structural)]
pub struct EndianEncoding {
    pub endianness: Endianness,
}

impl Default for EndianEncoding {
    /// The reference strategy is little-endian.
    fn default() -> (r: EndianEncoding)
        ensures
            r.endianness == Endianness::Little,
    {
        EndianEncoding { endianness: Endianness::Little }
    }
}

impl EndianEncoding {
    /// The reference strategy: little-endian primitives, 32-bit length fields.
    pub fn little() -> (r: EndianEncoding)
        ensures
            r.endianness == Endianness::Little,
    {
        EndianEncoding { endianness: Endianness::Little }
    }

    pub fn big() -> (r: EndianEncoding)
        ensures
            r.endianness == Endianness::Big,
    {
        EndianEncoding { endianness: Endianness::Big }
    }

    /// The `width` low bytes of `n` under this strategy's byte order.
    pub fn uint_bytes_vec(&self, n: u64, width: usize) -> (r: Vec<u8>)
        ensures
            r@ == uint_bytes(self.endianness, n as nat, width as nat),
    {
        let mut le: Vec<u8> = Vec::new();
        let mut cur: u64 = n;
        let mut j: usize = 0;
        while j < width
            invariant
                j <= width,
                le@.len() == j,
                le@ + le_bytes(cur as nat, (width - j) as nat) =~= le_bytes(
                    n as nat,
                    width as nat,
                ),
            decreases width - j,
        {
            let ghost prev = le@;
            let ghost prev_cur = cur as nat;
            let ghost prev_j = j;
            le.push((cur % 256) as u8);
            cur = cur / 256;
            j = j + 1;
            proof {
                assert(le_bytes(prev_cur, (width - prev_j) as nat) == seq![(prev_cur % 256) as u8]
                    + le_bytes(prev_cur / 256, (width - prev_j - 1) as nat));
                assert(le@ + le_bytes(cur as nat, (width - j) as nat) =~= prev + le_bytes(
                    prev_cur,
                    (width - prev_j) as nat,
                ));
            }
        }
        proof {
            assert(le@ =~= le_bytes(n as nat, width as nat));
        }
        match self.endianness {
            Endianness::Little => le,
            Endianness::Big => reversed_vec(&le),
        }
    }

    /// The value carried by up to eight bytes under this strategy's byte order.
    pub fn uint_from_bytes(&self, bytes: &Vec<u8>) -> (r: u64)
        requires
            bytes@.len() <= 8,
        ensures
            r as nat == uint_of_bytes(self.endianness, bytes@),
    {
        broadcast use lemma_nat_of_le_bytes_bound;

        let le = match self.endianness {
            Endianness::Little => {
                let ghost s = bytes@;
                let copy = bytes.clone();
                proof {
                    assert(copy@ == s);
                }
                copy
            },
            Endianness::Big => reversed_vec(bytes),
        };
        let n = le.len();
        let mut val: u64 = 0;
        let mut j: usize = n;
        proof {
            assert(le@.skip(n as int) =~= Seq::<u8>::empty());
        }
        while j > 0
            invariant
                j <= n,
                n == le@.len() <= 8,
                val as nat == nat_of_le_bytes(le@.skip(j as int)),
            decreases j,
        {
            proof {
                lemma_nat_of_le_bytes_bound(le@.skip(j as int));
                if 8 * (n - j) < 64 {
                    lemma_pow2_strictly_increases((8 * (n - j)) as nat, 64);
                }
                lemma2_to64();
                assert(le@.skip(j - 1).drop_first() =~= le@.skip(j as int));
                lemma_pow2_adds((8 * (n - j)) as nat, 8);
                assert(256 * val + 256 <= pow2((8 * (n - j) + 8) as nat)) by (nonlinear_arith)
                    requires
                        (val as nat) < pow2((8 * (n - j)) as nat),
                        pow2((8 * (n - j) + 8) as nat) == 256 * pow2((8 * (n - j)) as nat),
                ;
                if 8 * (n - j) + 8 < 64 {
                    lemma_pow2_strictly_increases((8 * (n - j) + 8) as nat, 64);
                }
                lemma2_to64_rest();
            }
            j = j - 1;
            val = 256 * val + (le[j] as u64);
        }
        proof {
            assert(le@.skip(0) =~= le@);
            if self.endianness is Big {
                assert(le@ == bytes@.reverse());
            }
        }
        val
    }

    /// Append a 32-bit length field holding `len`.  A length that the field
    /// cannot carry is reported, and the buffer left as it was.
    pub fn serialize_len(&self, buf: &mut BitBuffer, len: usize) -> (r: Result<(), Error>)
        ensures
            final(buf).ordering() == old(buf).ordering(),
            len <= u32::MAX ==> (r matches Ok(())) && final(buf)@ == old(buf)@ + len_field_bits(
                old(buf).ordering(),
                self.endianness,
                len as nat,
            ),
            len > u32::MAX ==> (r matches Err(e) && e is Message) && final(buf)@ == old(buf)@,
    {
        if len > 0xffff_ffff_usize {
            return Err(
                Error::Message("a length does not fit the 32-bit length field".to_string()),
            );
        }
        let bytes = self.uint_bytes_vec(len as u64, 4);
        buf.push_bytes(&bytes);
        Ok(())
    }
}

} // verus!
