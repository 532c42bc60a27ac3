use vstd::prelude::*;
use vstd::arithmetic::power2::*;

use crate::error::Error;

verus! {

/// The mapping of bit position to significance inside a storage word:
/// the least significant bit comes first, or the most significant one does.
#[derive(Clone, Copy, Debug, PartialEq, Eq, Structural)]
pub enum BitOrdering {
    LsbFirst,
    MsbFirst,
}

/// The `width` low bits of `n`, least significant bit first.
pub open spec fn bits_of_nat(n: nat, width: nat) -> Seq<bool>
    decreases width,
{
    if width == 0 {
        Seq::empty()
    } else {
        seq![n % 2 == 1] + bits_of_nat(n / 2, (width - 1) as nat)
    }
}

/// The value whose bits, least significant first, are `s`.
pub open spec fn nat_of_bits(s: Seq<bool>) -> nat
    decreases s.len(),
{
    if s.len() == 0 {
        0
    } else {
        (if s[0] {
            1nat
        } else {
            0nat
        }) + 2 * nat_of_bits(s.drop_first())
    }
}

/// The eight bits of a byte, arranged as the given bit ordering stores them.
pub open spec fn byte_bits(order: BitOrdering, b: u8) -> Seq<bool> {
    match order {
        BitOrdering::LsbFirst => bits_of_nat(b as nat, 8),
        BitOrdering::MsbFirst => bits_of_nat(b as nat, 8).reverse(),
    }
}

/// The byte whose bits, arranged as the given bit ordering stores them, are `s`.
pub open spec fn byte_of_bits(order: BitOrdering, s: Seq<bool>) -> u8 {
    match order {
        BitOrdering::LsbFirst => nat_of_bits(s) as u8,
        BitOrdering::MsbFirst => nat_of_bits(s.reverse()) as u8,
    }
}

/// All bits of a byte sequence: each byte contributes its eight bits in order.
pub open spec fn bytes_bits(order: BitOrdering, bs: Seq<u8>) -> Seq<bool>
    decreases bs.len(),
{
    if bs.len() == 0 {
        Seq::empty()
    } else {
        byte_bits(order, bs[0]) + bytes_bits(order, bs.drop_first())
    }
}

pub broadcast proof fn lemma_bits_of_nat_len(n: nat, width: nat)
    ensures
        #[trigger] bits_of_nat(n, width).len() == width,
    decreases width,
{
    if width > 0 {
        lemma_bits_of_nat_len(n / 2, (width - 1) as nat);
    }
}

pub broadcast proof fn lemma_nat_of_bits_bound(s: Seq<bool>)
    ensures
        #[trigger] nat_of_bits(s) < pow2(s.len()),
    decreases s.len(),
{
    if s.len() == 0 {
        lemma2_to64();
    } else {
        lemma_nat_of_bits_bound(s.drop_first());
        lemma_pow2_unfold(s.len());
    }
}

/// Reading the bits of a value gives the value back.
pub proof fn lemma_nat_of_bits_of_nat(n: nat, width: nat)
    requires
        n < pow2(width),
    ensures
        nat_of_bits(bits_of_nat(n, width)) == n,
    decreases width,
{
    if width == 0 {
        lemma2_to64();
    } else {
        lemma_pow2_unfold(width);
        lemma_nat_of_bits_of_nat(n / 2, (width - 1) as nat);
        assert(bits_of_nat(n, width).drop_first() =~= bits_of_nat(n / 2, (width - 1) as nat));
    }
}

/// Writing back the bits that a value was read from gives those bits back.
pub proof fn lemma_bits_of_nat_of_bits(s: Seq<bool>)
    ensures
        bits_of_nat(nat_of_bits(s), s.len()) == s,
    decreases s.len(),
{
    broadcast use lemma_bits_of_nat_len;

    if s.len() == 0 {
        assert(bits_of_nat(nat_of_bits(s), s.len()) =~= s);
    } else {
        let n = nat_of_bits(s);
        lemma_bits_of_nat_of_bits(s.drop_first());
        assert(n % 2 == if s[0] { 1nat } else { 0nat });
        assert(n / 2 == nat_of_bits(s.drop_first()));
        assert(bits_of_nat(n, s.len()) =~= s);
    }
}

pub proof fn lemma_reverse_reverse(s: Seq<bool>)
    ensures
        s.reverse().reverse() == s,
{
    assert(s.reverse().reverse() =~= s);
}

/// A byte's bits, read back under the same ordering, give the byte.
pub proof fn lemma_byte_of_byte_bits(order: BitOrdering, b: u8)
    ensures
        byte_bits(order, b).len() == 8,
        byte_of_bits(order, byte_bits(order, b)) == b,
{
    broadcast use lemma_bits_of_nat_len;

    lemma2_to64();
    lemma_nat_of_bits_of_nat(b as nat, 8);
    if order is MsbFirst {
        lemma_reverse_reverse(bits_of_nat(b as nat, 8));
    }
}

/// Eight bits, written back as the byte they were read into, give those bits.
pub proof fn lemma_byte_bits_of_bits(order: BitOrdering, s: Seq<bool>)
    requires
        s.len() == 8,
    ensures
        byte_bits(order, byte_of_bits(order, s)) == s,
{
    broadcast use lemma_nat_of_bits_bound;

    lemma2_to64();
    match order {
        BitOrdering::LsbFirst => {
            lemma_bits_of_nat_of_bits(s);
        },
        BitOrdering::MsbFirst => {
            lemma_bits_of_nat_of_bits(s.reverse());
            lemma_reverse_reverse(s);
        },
    }
}

pub broadcast proof fn lemma_bytes_bits_len(order: BitOrdering, bs: Seq<u8>)
    ensures
        #[trigger] bytes_bits(order, bs).len() == 8 * bs.len(),
    decreases bs.len(),
{
    broadcast use lemma_bits_of_nat_len;

    if bs.len() > 0 {
        lemma_bytes_bits_len(order, bs.drop_first());
    }
}

/// Each byte's eight bits stand at their own spot in the flattened sequence.
pub proof fn lemma_bytes_bits_index(order: BitOrdering, bs: Seq<u8>, i: int)
    requires
        0 <= i < bs.len(),
    ensures
        bytes_bits(order, bs).subrange(8 * i, 8 * i + 8) == byte_bits(order, bs[i]),
    decreases bs.len(),
{
    broadcast use lemma_bytes_bits_len;

    lemma_byte_of_byte_bits(order, bs[0]);
    if i == 0 {
        assert(bytes_bits(order, bs).subrange(0, 8) =~= byte_bits(order, bs[0]));
    } else {
        lemma_bytes_bits_index(order, bs.drop_first(), i - 1);
        assert(bytes_bits(order, bs).subrange(8 * i, 8 * i + 8) =~= bytes_bits(
            order,
            bs.drop_first(),
        ).subrange(8 * (i - 1), 8 * (i - 1) + 8));
    }
}

/// The bits of `s` packed into bytes under the given ordering, eight per byte,
/// a last partial byte filled up with `false` bits.
pub open spec fn packed_bytes(order: BitOrdering, s: Seq<bool>) -> Seq<u8>
    decreases s.len(),
{
    if s.len() == 0 {
        Seq::empty()
    } else if s.len() < 8 {
        seq![byte_of_bits(order, s + Seq::new((8 - s.len()) as nat, |i: int| false))]
    } else {
        seq![byte_of_bits(order, s.take(8))] + packed_bytes(order, s.skip(8))
    }
}

/// The value of up to 64 bits arranged as the given ordering stores them in
/// one storage word.
pub open spec fn word_of_bits(order: BitOrdering, s: Seq<bool>) -> u64 {
    match order {
        BitOrdering::LsbFirst => nat_of_bits(s) as u64,
        BitOrdering::MsbFirst => nat_of_bits(s.reverse()) as u64,
    }
}

/// The `width` low bits of one storage word, arranged per the ordering.
pub open spec fn word_bits(order: BitOrdering, x: u64, width: nat) -> Seq<bool> {
    match order {
        BitOrdering::LsbFirst => bits_of_nat(x as nat, width),
        BitOrdering::MsbFirst => bits_of_nat(x as nat, width).reverse(),
    }
}

/// All bits of a storage word sequence: each word contributes its `width`
/// low bits in order.
pub open spec fn words_bits(order: BitOrdering, ws: Seq<u64>, width: nat) -> Seq<bool>
    decreases ws.len(),
{
    if ws.len() == 0 {
        Seq::empty()
    } else {
        word_bits(order, ws[0], width) + words_bits(order, ws.drop_first(), width)
    }
}

/// The bits of `s` packed into storage words of `width` bits each, a last
/// partial word filled up with `false` bits.
pub open spec fn packed_words(order: BitOrdering, s: Seq<bool>, width: nat) -> Seq<u64>
    recommends
        1 <= width <= 64,
    decreases s.len(),
{
    if s.len() == 0 || width == 0 {
        Seq::empty()
    } else if s.len() < width {
        seq![word_of_bits(order, s + Seq::new((width - s.len()) as nat, |i: int| false))]
    } else {
        seq![word_of_bits(order, s.take(width as int))] + packed_words(
            order,
            s.skip(width as int),
            width,
        )
    }
}

/// Build a vector holding the elements of `v` in reverse order.
pub(crate) fn reversed_vec<T: Copy>(v: &Vec<T>) -> (r: Vec<T>)
    ensures
        r@ == v@.reverse(),
{
    let n = v.len();
    let mut r: Vec<T> = Vec::new();
    let mut j: usize = 0;
    while j < n
        invariant
            j <= n,
            n == v@.len(),
            r@.len() == j,
            forall|k: int| 0 <= k < j ==> r@[k] == v@[n - 1 - k],
        decreases n - j,
    {
        r.push(v[n - 1 - j]);
        j = j + 1;
    }
    proof {
        assert(r@ =~= v@.reverse());
    }
    r
}

/// Build a vector holding the eight bits of a byte under the given ordering.
fn byte_bits_vec(order: BitOrdering, b: u8) -> (r: Vec<bool>)
    ensures
        r@ == byte_bits(order, b),
{
    let mut r: Vec<bool> = Vec::new();
    let mut cur: u8 = b;
    let mut j: usize = 0;
    while j < 8
        invariant
            j <= 8,
            r@.len() == j,
            r@ + bits_of_nat(cur as nat, (8 - j) as nat) =~= bits_of_nat(b as nat, 8),
        decreases 8 - j,
    {
        let ghost prev = r@;
        let ghost prev_cur = cur as nat;
        let ghost prev_j = j;
        r.push(cur % 2 == 1);
        cur = cur / 2;
        j = j + 1;
        proof {
            assert(bits_of_nat(prev_cur, (8 - prev_j) as nat) == seq![prev_cur % 2 == 1]
                + bits_of_nat(prev_cur / 2, (8 - prev_j - 1) as nat));
            assert(r@ + bits_of_nat(cur as nat, (8 - j) as nat) =~= prev + bits_of_nat(
                prev_cur,
                (8 - prev_j) as nat,
            ));
        }
    }
    proof {
        assert(r@ =~= bits_of_nat(b as nat, 8));
    }
    match order {
        BitOrdering::LsbFirst => r,
        BitOrdering::MsbFirst => reversed_vec(&r),
    }
}

/// Assemble eight bits, least significant first, into their value.
fn nat8_of_bits(bits: &Vec<bool>) -> (b: u8)
    requires
        bits@.len() == 8,
    ensures
        b as nat == nat_of_bits(bits@),
{
    broadcast use lemma_nat_of_bits_bound;

    proof {
        lemma2_to64();
    }
    let mut val: u16 = 0;
    let mut j: usize = 8;
    while j > 0
        invariant
            j <= 8,
            bits@.len() == 8,
            val as nat == nat_of_bits(bits@.skip(j as int)),
        decreases j,
    {
        proof {
            lemma2_to64();
            lemma_nat_of_bits_bound(bits@.skip(j - 1));
            if (8 - j + 1) < 8 {
                lemma_pow2_strictly_increases((8 - j + 1) as nat, 8);
            }
            assert(bits@.skip(j - 1).drop_first() =~= bits@.skip(j as int));
        }
        j = j - 1;
        let bitv: u16 = if bits[j] {
            1
        } else {
            0
        };
        val = 2 * val + bitv;
    }
    proof {
        assert(bits@.skip(0) =~= bits@);
        lemma_nat_of_bits_bound(bits@);
        lemma2_to64();
    }
    val as u8
}

/// Assemble eight bits, arranged under the given ordering, into their byte.
pub fn byte_from_bits(order: BitOrdering, bits: &Vec<bool>) -> (b: u8)
    requires
        bits@.len() == 8,
    ensures
        b == byte_of_bits(order, bits@),
{
    proof {
        lemma_nat_of_bits_bound(bits@);
        lemma_nat_of_bits_bound(bits@.reverse());
        lemma2_to64();
    }
    match order {
        BitOrdering::LsbFirst => nat8_of_bits(bits),
        BitOrdering::MsbFirst => {
            let rev = reversed_vec(bits);
            nat8_of_bits(&rev)
        },
    }
}

/// Packing a byte buffer's bit view back into bytes reproduces the buffer
/// exactly, under either bit ordering: no byte boundary drifts.
pub proof fn lemma_packed_bytes_of_bytes_bits(order: BitOrdering, bs: Seq<u8>)
    ensures
        packed_bytes(order, bytes_bits(order, bs)) == bs,
    decreases bs.len(),
{
    broadcast use lemma_bytes_bits_len;

    if bs.len() == 0 {
        assert(packed_bytes(order, bytes_bits(order, bs)) =~= bs);
    } else {
        let s = bytes_bits(order, bs);
        lemma_byte_of_byte_bits(order, bs[0]);
        assert(s.take(8) =~= byte_bits(order, bs[0]));
        assert(s.skip(8) =~= bytes_bits(order, bs.drop_first()));
        lemma_packed_bytes_of_bytes_bits(order, bs.drop_first());
        assert(packed_bytes(order, s) =~= bs);
    }
}

/// Build a vector holding the `width` low bits of one storage word under the
/// given ordering.
fn word_bits_vec(order: BitOrdering, x: u64, width: usize) -> (r: Vec<bool>)
    ensures
        r@ == word_bits(order, x, width as nat),
{
    let mut r: Vec<bool> = Vec::new();
    let mut cur: u64 = x;
    let mut j: usize = 0;
    while j < width
        invariant
            j <= width,
            r@.len() == j,
            r@ + bits_of_nat(cur as nat, (width - j) as nat) =~= bits_of_nat(
                x as nat,
                width as nat,
            ),
        decreases width - j,
    {
        let ghost prev = r@;
        let ghost prev_cur = cur as nat;
        let ghost prev_j = j;
        r.push(cur % 2 == 1);
        cur = cur / 2;
        j = j + 1;
        proof {
            assert(bits_of_nat(prev_cur, (width - prev_j) as nat) == seq![prev_cur % 2 == 1]
                + bits_of_nat(prev_cur / 2, (width - prev_j - 1) as nat));
            assert(r@ + bits_of_nat(cur as nat, (width - j) as nat) =~= prev + bits_of_nat(
                prev_cur,
                (width - prev_j) as nat,
            ));
        }
    }
    proof {
        assert(r@ =~= bits_of_nat(x as nat, width as nat));
    }
    match order {
        BitOrdering::LsbFirst => r,
        BitOrdering::MsbFirst => reversed_vec(&r),
    }
}

/// Assemble up to 64 bits, least significant first, into their value.
fn nat64_of_bits(bits: &Vec<bool>) -> (b: u64)
    requires
        bits@.len() <= 64,
    ensures
        b as nat == nat_of_bits(bits@),
{
    broadcast use lemma_nat_of_bits_bound;

    let n = bits.len();
    proof {
        assert(bits@.skip(n as int) =~= Seq::<bool>::empty());
    }
    let mut val: u64 = 0;
    let mut j: usize = n;
    while j > 0
        invariant
            j <= n,
            n == bits@.len() <= 64,
            val as nat == nat_of_bits(bits@.skip(j as int)),
        decreases j,
    {
        proof {
            lemma2_to64();
            lemma2_to64_rest();
            lemma_nat_of_bits_bound(bits@.skip(j as int));
            if n - j < 63 {
                lemma_pow2_strictly_increases((n - j) as nat, 63);
            }
            assert(bits@.skip(j - 1).drop_first() =~= bits@.skip(j as int));
        }
        j = j - 1;
        let bitv: u64 = if bits[j] {
            1
        } else {
            0
        };
        val = 2 * val + bitv;
    }
    proof {
        assert(bits@.skip(0) =~= bits@);
    }
    val
}

/// Assemble up to 64 bits, arranged under the given ordering, into one
/// storage word.
pub fn word_from_bits(order: BitOrdering, bits: &Vec<bool>) -> (w: u64)
    requires
        bits@.len() <= 64,
    ensures
        w == word_of_bits(order, bits@),
{
    proof {
        lemma_nat_of_bits_bound(bits@);
        lemma_nat_of_bits_bound(bits@.reverse());
        lemma2_to64();
        assert(bits@.reverse().len() == bits@.len());
        if bits@.len() < 64 {
            lemma_pow2_strictly_increases(bits@.len(), 64);
        }
    }
    match order {
        BitOrdering::LsbFirst => nat64_of_bits(bits),
        BitOrdering::MsbFirst => {
            let rev = reversed_vec(bits);
            nat64_of_bits(&rev)
        },
    }
}

/// An ordered, growable sequence of bits with a fixed bit ordering.  Appending
/// never fails; random-access reads past the end fail with `OutOfRange`.
#[derive(Debug, PartialEq)]
pub struct BitBuffer {
    order: BitOrdering,
    bits: Vec<bool>,
}

impl View for BitBuffer {
    type V = Seq<bool>;

    closed spec fn view(&self) -> Seq<bool> {
        self.bits@
    }
}

impl BitBuffer {
    /// The bit ordering this buffer packs and unpacks bytes with.
    pub closed spec fn ordering(self) -> BitOrdering {
        self.order
    }

    pub fn new(order: BitOrdering) -> (r: BitBuffer)
        ensures
            r@ == Seq::<bool>::empty(),
            r.ordering() == order,
    {
        BitBuffer { order, bits: Vec::new() }
    }

    pub fn order(&self) -> (r: BitOrdering)
        ensures
            r == self.ordering(),
    {
        self.order
    }

    pub fn len(&self) -> (n: usize)
        ensures
            n == self@.len(),
    {
        self.bits.len()
    }

    /// Append a single bit.
    pub fn push_bit(&mut self, b: bool)
        ensures
            final(self)@ == old(self)@.push(b),
            final(self).ordering() == old(self).ordering(),
    {
        self.bits.push(b);
    }

    /// Append the eight bits of a byte, arranged per this buffer's ordering.
    pub fn push_byte(&mut self, b: u8)
        ensures
            final(self)@ == old(self)@ + byte_bits(old(self).ordering(), b),
            final(self).ordering() == old(self).ordering(),
    {
        let mut v = byte_bits_vec(self.order, b);
        self.bits.append(&mut v);
    }

    /// Append a whole byte buffer, each byte contributing eight bits in order.
    pub fn push_bytes(&mut self, bytes: &Vec<u8>)
        ensures
            final(self)@ == old(self)@ + bytes_bits(old(self).ordering(), bytes@),
            final(self).ordering() == old(self).ordering(),
    {
        let n = bytes.len();
        let mut i: usize = 0;
        proof {
            assert(bytes@.skip(0) =~= bytes@);
        }
        while i < n
            invariant
                i <= n,
                n == bytes@.len(),
                self.order == old(self).ordering(),
                self.bits@ + bytes_bits(self.order, bytes@.skip(i as int)) =~= old(self)@
                    + bytes_bits(self.order, bytes@),
            decreases n - i,
        {
            let ghost prev = self.bits@;
            self.push_byte(bytes[i]);
            i = i + 1;
            proof {
                assert(bytes@.skip(i - 1).drop_first() =~= bytes@.skip(i as int));
                assert(self.bits@ + bytes_bits(self.order, bytes@.skip(i as int)) =~= prev
                    + bytes_bits(self.order, bytes@.skip(i - 1)));
            }
        }
        proof {
            assert(bytes@.skip(n as int) =~= Seq::<u8>::empty());
            assert(self.bits@ =~= old(self)@ + bytes_bits(self.order, bytes@));
        }
    }

    /// View caller-supplied bytes as a bit sequence under the given ordering.
    pub fn from_bytes(order: BitOrdering, bytes: &Vec<u8>) -> (r: BitBuffer)
        ensures
            r@ == bytes_bits(order, bytes@),
            r.ordering() == order,
    {
        let mut r = BitBuffer::new(order);
        r.push_bytes(bytes);
        r
    }

    /// Pack the bits into bytes, eight per byte under this buffer's ordering,
    /// a last partial byte filled up with cleared bits.
    pub fn to_bytes(&self) -> (r: Vec<u8>)
        ensures
            r@ == packed_bytes(self.ordering(), self@),
    {
        let n = self.bits.len();
        let mut r: Vec<u8> = Vec::new();
        let mut i: usize = 0;
        proof {
            assert(self.bits@.skip(0) =~= self.bits@);
        }
        while i < n
            invariant
                i <= n,
                n == self.bits@.len(),
                r@ + packed_bytes(self.order, self.bits@.skip(i as int)) =~= packed_bytes(
                    self.order,
                    self.bits@,
                ),
            decreases n - i,
        {
            let chunk_end: usize = if n - i >= 8 {
                i + 8
            } else {
                n
            };
            let mut chunk: Vec<bool> = Vec::new();
            let mut j: usize = i;
            while j < chunk_end
                invariant
                    i <= j <= chunk_end,
                    chunk_end <= n,
                    n == self.bits@.len(),
                    chunk@ =~= self.bits@.subrange(i as int, j as int),
                decreases chunk_end - j,
            {
                chunk.push(self.bits[j]);
                j = j + 1;
            }
            while chunk.len() < 8
                invariant
                    chunk@.len() >= chunk_end - i,
                    chunk@.len() <= 8,
                    chunk@ =~= self.bits@.subrange(i as int, chunk_end as int) + Seq::new(
                        (chunk@.len() - (chunk_end - i)) as nat,
                        |k: int| false,
                    ),
                decreases 8 - chunk@.len(),
            {
                chunk.push(false);
            }
            let b = byte_from_bits(self.order, &chunk);
            let ghost prev = r@;
            r.push(b);
            proof {
                let rest = self.bits@.skip(i as int);
                if n - i >= 8 {
                    assert(rest.take(8) =~= self.bits@.subrange(i as int, chunk_end as int));
                    assert(chunk@ =~= rest.take(8));
                    assert(rest.skip(8) =~= self.bits@.skip(chunk_end as int));
                    assert(packed_bytes(self.order, rest) == seq![byte_of_bits(self.order, rest.take(8))]
                        + packed_bytes(self.order, rest.skip(8)));
                } else {
                    assert(rest =~= self.bits@.subrange(i as int, chunk_end as int));
                    assert(chunk@ =~= rest + Seq::new((8 - rest.len()) as nat, |k: int| false));
                    assert(self.bits@.skip(chunk_end as int) =~= Seq::<bool>::empty());
                    assert(packed_bytes(self.order, rest) == seq![byte_of_bits(self.order, chunk@)]);
                }
                assert(prev + packed_bytes(self.order, rest) =~= (prev + seq![b]) + packed_bytes(
                    self.order,
                    self.bits@.skip(chunk_end as int),
                ));
            }
            i = chunk_end;
        }
        proof {
            assert(self.bits@.skip(n as int) =~= Seq::<bool>::empty());
            assert(r@ =~= packed_bytes(self.order, self.bits@));
        }
        r
    }

    /// View caller-supplied storage words as a bit sequence: each word
    /// contributes its `width` low bits under the given ordering.
    pub fn from_words(order: BitOrdering, words: &Vec<u64>, width: usize) -> (r: BitBuffer)
        ensures
            r.ordering() == order,
            r@ == words_bits(order, words@, width as nat),
    {
        let mut r = BitBuffer::new(order);
        let n = words.len();
        let mut i: usize = 0;
        proof {
            assert(words@.skip(0) =~= words@);
        }
        while i < n
            invariant
                i <= n,
                n == words@.len(),
                r.order == order,
                r.bits@ + words_bits(order, words@.skip(i as int), width as nat) =~= words_bits(
                    order,
                    words@,
                    width as nat,
                ),
            decreases n - i,
        {
            let ghost prev = r.bits@;
            let mut v = word_bits_vec(order, words[i], width);
            r.bits.append(&mut v);
            i = i + 1;
            proof {
                assert(words@.skip(i - 1).drop_first() =~= words@.skip(i as int));
                assert(r.bits@ + words_bits(order, words@.skip(i as int), width as nat) =~= prev
                    + words_bits(order, words@.skip(i - 1), width as nat));
            }
        }
        proof {
            assert(words@.skip(n as int) =~= Seq::<u64>::empty());
            assert(r.bits@ =~= words_bits(order, words@, width as nat));
        }
        r
    }

    /// Pack the bits into storage words of `width` bits each under this
    /// buffer's ordering, a last partial word filled up with cleared bits.
    pub fn to_words(&self, width: usize) -> (r: Vec<u64>)
        requires
            1 <= width <= 64,
        ensures
            r@ == packed_words(self.ordering(), self@, width as nat),
    {
        let n = self.bits.len();
        let mut r: Vec<u64> = Vec::new();
        let mut i: usize = 0;
        proof {
            assert(self.bits@.skip(0) =~= self.bits@);
        }
        while i < n
            invariant
                1 <= width <= 64,
                i <= n,
                n == self.bits@.len(),
                r@ + packed_words(self.order, self.bits@.skip(i as int), width as nat)
                    =~= packed_words(self.order, self.bits@, width as nat),
            decreases n - i,
        {
            let chunk_end: usize = if n - i >= width {
                i + width
            } else {
                n
            };
            let mut chunk: Vec<bool> = Vec::new();
            let mut j: usize = i;
            while j < chunk_end
                invariant
                    i <= j <= chunk_end,
                    chunk_end <= n,
                    n == self.bits@.len(),
                    chunk@ =~= self.bits@.subrange(i as int, j as int),
                decreases chunk_end - j,
            {
                chunk.push(self.bits[j]);
                j = j + 1;
            }
            while chunk.len() < width
                invariant
                    chunk@.len() >= chunk_end - i,
                    chunk@.len() <= width,
                    chunk@ =~= self.bits@.subrange(i as int, chunk_end as int) + Seq::new(
                        (chunk@.len() - (chunk_end - i)) as nat,
                        |k: int| false,
                    ),
                decreases width - chunk@.len(),
            {
                chunk.push(false);
            }
            let w = word_from_bits(self.order, &chunk);
            let ghost prev = r@;
            r.push(w);
            proof {
                let rest = self.bits@.skip(i as int);
                if n - i >= width {
                    assert(rest.take(width as int) =~= self.bits@.subrange(
                        i as int,
                        chunk_end as int,
                    ));
                    assert(chunk@ =~= rest.take(width as int));
                    assert(rest.skip(width as int) =~= self.bits@.skip(chunk_end as int));
                    assert(packed_words(self.order, rest, width as nat) == seq![
                        word_of_bits(self.order, rest.take(width as int)),
                    ] + packed_words(self.order, rest.skip(width as int), width as nat));
                } else {
                    assert(rest =~= self.bits@.subrange(i as int, chunk_end as int));
                    assert(chunk@ =~= rest + Seq::new((width - rest.len()) as nat, |k: int| false));
                    assert(self.bits@.skip(chunk_end as int) =~= Seq::<bool>::empty());
                    assert(packed_words(self.order, rest, width as nat) == seq![
                        word_of_bits(self.order, chunk@),
                    ]);
                }
                assert(prev + packed_words(self.order, rest, width as nat) =~= (prev + seq![w])
                    + packed_words(self.order, self.bits@.skip(chunk_end as int), width as nat));
            }
            i = chunk_end;
        }
        proof {
            assert(self.bits@.skip(n as int) =~= Seq::<bool>::empty());
            assert(r@ =~= packed_words(self.order, self.bits@, width as nat));
        }
        r
    }

    /// Read `count` bits starting at `offset`.
    pub fn read_range(&self, offset: usize, count: usize) -> (r: Result<Vec<bool>, Error>)
        ensures
            offset + count <= self@.len() ==> (r matches Ok(v) && v@ == self@.subrange(
                offset as int,
                offset + count,
            )),
            offset + count > self@.len() ==> (r matches Err(e) && e is OutOfRange),
    {
        if count > self.bits.len() || offset > self.bits.len() - count {
            return Err(Error::OutOfRange);
        }
        let end: usize = offset + count;
        let mut v: Vec<bool> = Vec::new();
        let mut i: usize = offset;
        while i < end
            invariant
                end == offset + count,
                end <= self.bits@.len(),
                offset <= i <= end,
                v@ =~= self.bits@.subrange(offset as int, i as int),
            decreases end - i,
        {
            v.push(self.bits[i]);
            i = i + 1;
        }
        Ok(v)
    }
}

} // verus!
