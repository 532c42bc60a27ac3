use vstd::prelude::*;
use vstd::arithmetic::power2::*;

use crate::bits::{lemma_nat_of_bits_bound, nat_of_bits};
use crate::error::Error;

verus! {

/// Declares a bit container's width at the type level.
pub trait ContainerSize {
    /// The declared width, as a specification-level value.
    spec fn spec_size() -> nat;

    /// The declared width of the container, in bits.
    fn size() -> (n: usize)
        ensures
            n as nat == Self::spec_size(),
    ;
}

/// A collection of bits with a declared capacity.  It takes part in the
/// structured-value traversal as a fixed-length run of single bits, so it
/// serializes and deserializes through the same per-bit path as booleans do,
/// but with a statically known, non-length-prefixed length.
#[derive(Debug, PartialEq)]
pub struct BitContainer {
    bits: Vec<bool>,
}

impl View for BitContainer {
    type V = Seq<bool>;

    closed spec fn view(&self) -> Seq<bool> {
        self.bits@
    }
}

impl BitContainer {
    /// A container holding exactly the given bits; its width is their count.
    pub fn new(bits: Vec<bool>) -> (r: BitContainer)
        ensures
            r@ == bits@,
    {
        BitContainer { bits }
    }

    /// An all-clear container of the width that `T` declares.
    pub fn sized<T: ContainerSize>() -> (r: BitContainer)
        ensures
            r@ == Seq::new(T::spec_size(), |i: int| false),
    {
        let n = T::size();
        let mut bits: Vec<bool> = Vec::new();
        let mut j: usize = 0;
        while j < n
            invariant
                j <= n,
                bits@ =~= Seq::new(j as nat, |i: int| false),
            decreases n - j,
        {
            bits.push(false);
            j = j + 1;
        }
        proof {
            assert(bits@ =~= Seq::new(T::spec_size(), |i: int| false));
        }
        BitContainer { bits }
    }

    /// The container's declared width, in bits.
    pub fn width(&self) -> (n: usize)
        ensures
            n == self@.len(),
    {
        self.bits.len()
    }

    pub fn bit(&self, i: usize) -> (b: bool)
        requires
            i < self@.len(),
        ensures
            b == self@[i as int],
    {
        self.bits[i]
    }

    /// The bits themselves, in order.
    pub fn as_bits(&self) -> (r: &Vec<bool>)
        ensures
            r@ == self@,
    {
        &self.bits
    }

    /// If the container is eight bits or under, view it as a single byte,
    /// bit 0 the least significant.  A wider container has no single-byte
    /// view, and says so.
    pub fn as_byte(&self) -> (r: Result<u8, Error>)
        ensures
            self@.len() <= 8 ==> (r matches Ok(b) && b as nat == nat_of_bits(self@)),
            self@.len() > 8 ==> (r matches Err(e) && e matches Error::Message(m) && m@
                == "Tried to convert a bit vector larger then a single byte into a single byte."@),
    {
        broadcast use lemma_nat_of_bits_bound;

        if self.bits.len() > 8 {
            return Err(
                Error::Message(
                    "Tried to convert a bit vector larger then a single byte into a single byte.".to_string(),
                ),
            );
        }
        proof {
            lemma2_to64();
            assert(self.bits@.skip(self.bits@.len() as int) =~= Seq::<bool>::empty());
        }
        let n = self.bits.len();
        let mut val: u8 = 0;
        let mut j: usize = n;
        while j > 0
            invariant
                j <= n,
                n == self.bits@.len() <= 8,
                val as nat == nat_of_bits(self.bits@.skip(j as int)),
            decreases j,
        {
            proof {
                lemma2_to64();
                lemma_nat_of_bits_bound(self.bits@.skip(j as int));
                if n - j < 7 {
                    lemma_pow2_strictly_increases((n - j) as nat, 7);
                }
                assert(self.bits@.skip(j - 1).drop_first() =~= self.bits@.skip(j as int));
            }
            j = j - 1;
            val = 2 * val + (if self.bits[j] {
                1
            } else {
                0
            });
        }
        proof {
            assert(self.bits@.skip(0) =~= self.bits@);
        }
        Ok(val)
    }
}

} // verus!
