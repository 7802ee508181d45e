//! A row of a matrix over GF(2): a bit per variable, packed in 64-bit
//! chunks, and a right-hand side.

use vstd::prelude::*;

verus! {

/// Bit `o` of the chunk `c`.
pub open spec fn chunk_bit(c: u64, o: u64) -> bool {
    (c >> o) & 1 == 1
}

pub proof fn lemma_zero_chunk(o: u64)
    requires
        o < 64,
    ensures
        !chunk_bit(0, o),
{
    assert((0u64 >> o) & 1 != 1) by (bit_vector)
        requires
            o < 64,
    ;
}

pub proof fn lemma_set_chunk(c: u64, o: u64, k: u64)
    requires
        o < 64,
        k < 64,
    ensures
        chunk_bit(c | (1u64 << o), k) == (chunk_bit(c, k) || k == o),
{
    assert((((c | (1u64 << o)) >> k) & 1 == 1) == (((c >> k) & 1 == 1) || k == o)) by (bit_vector)
        requires
            o < 64,
            k < 64,
    ;
}

pub proof fn lemma_xor_chunk(a: u64, b: u64, k: u64)
    requires
        k < 64,
    ensures
        chunk_bit(a ^ b, k) == (chunk_bit(a, k) != chunk_bit(b, k)),
{
    assert((((a ^ b) >> k) & 1 == 1) == (((a >> k) & 1 == 1) != ((b >> k) & 1 == 1))) by (bit_vector)
        requires
            k < 64,
    ;
}

pub proof fn lemma_test_chunk(c: u64, o: u64)
    requires
        o < 64,
    ensures
        ((c & (1u64 << o)) != 0) == chunk_bit(c, o),
{
    assert(((c & (1u64 << o)) != 0) == ((c >> o) & 1 == 1)) by (bit_vector)
        requires
            o < 64,
    ;
}

pub proof fn lemma_nonzero_chunk(c: u64)
    requires
        c != 0,
    ensures
        exists|o: u64| o < 64 && #[trigger] chunk_bit(c, o),
{
    assert(c == 0 || ((c >> 0u64) & 1 == 1) || ((c >> 1u64) & 1 == 1) || ((c >> 2u64) & 1 == 1) || ((c >> 3u64) & 1 == 1) || ((c >> 4u64) & 1 == 1) || ((c >> 5u64) & 1 == 1) || ((c >> 6u64) & 1 == 1) || ((c >> 7u64) & 1 == 1) || ((c >> 8u64) & 1 == 1) || ((c >> 9u64) & 1 == 1) || ((c >> 10u64) & 1 == 1) || ((c >> 11u64) & 1 == 1) || ((c >> 12u64) & 1 == 1) || ((c >> 13u64) & 1 == 1) || ((c >> 14u64) & 1 == 1) || ((c >> 15u64) & 1 == 1) || ((c >> 16u64) & 1 == 1) || ((c >> 17u64) & 1 == 1) || ((c >> 18u64) & 1 == 1) || ((c >> 19u64) & 1 == 1) || ((c >> 20u64) & 1 == 1) || ((c >> 21u64) & 1 == 1) || ((c >> 22u64) & 1 == 1) || ((c >> 23u64) & 1 == 1) || ((c >> 24u64) & 1 == 1) || ((c >> 25u64) & 1 == 1) || ((c >> 26u64) & 1 == 1) || ((c >> 27u64) & 1 == 1) || ((c >> 28u64) & 1 == 1) || ((c >> 29u64) & 1 == 1) || ((c >> 30u64) & 1 == 1) || ((c >> 31u64) & 1 == 1) || ((c >> 32u64) & 1 == 1) || ((c >> 33u64) & 1 == 1) || ((c >> 34u64) & 1 == 1) || ((c >> 35u64) & 1 == 1) || ((c >> 36u64) & 1 == 1) || ((c >> 37u64) & 1 == 1) || ((c >> 38u64) & 1 == 1) || ((c >> 39u64) & 1 == 1) || ((c >> 40u64) & 1 == 1) || ((c >> 41u64) & 1 == 1) || ((c >> 42u64) & 1 == 1) || ((c >> 43u64) & 1 == 1) || ((c >> 44u64) & 1 == 1) || ((c >> 45u64) & 1 == 1) || ((c >> 46u64) & 1 == 1) || ((c >> 47u64) & 1 == 1) || ((c >> 48u64) & 1 == 1) || ((c >> 49u64) & 1 == 1) || ((c >> 50u64) & 1 == 1) || ((c >> 51u64) & 1 == 1) || ((c >> 52u64) & 1 == 1) || ((c >> 53u64) & 1 == 1) || ((c >> 54u64) & 1 == 1) || ((c >> 55u64) & 1 == 1) || ((c >> 56u64) & 1 == 1) || ((c >> 57u64) & 1 == 1) || ((c >> 58u64) & 1 == 1) || ((c >> 59u64) & 1 == 1) || ((c >> 60u64) & 1 == 1) || ((c >> 61u64) & 1 == 1) || ((c >> 62u64) & 1 == 1) || ((c >> 63u64) & 1 == 1)) by (bit_vector);
    if (c >> 0u64) & 1 == 1 {
        assert(chunk_bit(c, 0u64));
    }
    if (c >> 1u64) & 1 == 1 {
        assert(chunk_bit(c, 1u64));
    }
    if (c >> 2u64) & 1 == 1 {
        assert(chunk_bit(c, 2u64));
    }
    if (c >> 3u64) & 1 == 1 {
        assert(chunk_bit(c, 3u64));
    }
    if (c >> 4u64) & 1 == 1 {
        assert(chunk_bit(c, 4u64));
    }
    if (c >> 5u64) & 1 == 1 {
        assert(chunk_bit(c, 5u64));
    }
    if (c >> 6u64) & 1 == 1 {
        assert(chunk_bit(c, 6u64));
    }
    if (c >> 7u64) & 1 == 1 {
        assert(chunk_bit(c, 7u64));
    }
    if (c >> 8u64) & 1 == 1 {
        assert(chunk_bit(c, 8u64));
    }
    if (c >> 9u64) & 1 == 1 {
        assert(chunk_bit(c, 9u64));
    }
    if (c >> 10u64) & 1 == 1 {
        assert(chunk_bit(c, 10u64));
    }
    if (c >> 11u64) & 1 == 1 {
        assert(chunk_bit(c, 11u64));
    }
    if (c >> 12u64) & 1 == 1 {
        assert(chunk_bit(c, 12u64));
    }
    if (c >> 13u64) & 1 == 1 {
        assert(chunk_bit(c, 13u64));
    }
    if (c >> 14u64) & 1 == 1 {
        assert(chunk_bit(c, 14u64));
    }
    if (c >> 15u64) & 1 == 1 {
        assert(chunk_bit(c, 15u64));
    }
    if (c >> 16u64) & 1 == 1 {
        assert(chunk_bit(c, 16u64));
    }
    if (c >> 17u64) & 1 == 1 {
        assert(chunk_bit(c, 17u64));
    }
    if (c >> 18u64) & 1 == 1 {
        assert(chunk_bit(c, 18u64));
    }
    if (c >> 19u64) & 1 == 1 {
        assert(chunk_bit(c, 19u64));
    }
    if (c >> 20u64) & 1 == 1 {
        assert(chunk_bit(c, 20u64));
    }
    if (c >> 21u64) & 1 == 1 {
        assert(chunk_bit(c, 21u64));
    }
    if (c >> 22u64) & 1 == 1 {
        assert(chunk_bit(c, 22u64));
    }
    if (c >> 23u64) & 1 == 1 {
        assert(chunk_bit(c, 23u64));
    }
    if (c >> 24u64) & 1 == 1 {
        assert(chunk_bit(c, 24u64));
    }
    if (c >> 25u64) & 1 == 1 {
        assert(chunk_bit(c, 25u64));
    }
    if (c >> 26u64) & 1 == 1 {
        assert(chunk_bit(c, 26u64));
    }
    if (c >> 27u64) & 1 == 1 {
        assert(chunk_bit(c, 27u64));
    }
    if (c >> 28u64) & 1 == 1 {
        assert(chunk_bit(c, 28u64));
    }
    if (c >> 29u64) & 1 == 1 {
        assert(chunk_bit(c, 29u64));
    }
    if (c >> 30u64) & 1 == 1 {
        assert(chunk_bit(c, 30u64));
    }
    if (c >> 31u64) & 1 == 1 {
        assert(chunk_bit(c, 31u64));
    }
    if (c >> 32u64) & 1 == 1 {
        assert(chunk_bit(c, 32u64));
    }
    if (c >> 33u64) & 1 == 1 {
        assert(chunk_bit(c, 33u64));
    }
    if (c >> 34u64) & 1 == 1 {
        assert(chunk_bit(c, 34u64));
    }
    if (c >> 35u64) & 1 == 1 {
        assert(chunk_bit(c, 35u64));
    }
    if (c >> 36u64) & 1 == 1 {
        assert(chunk_bit(c, 36u64));
    }
    if (c >> 37u64) & 1 == 1 {
        assert(chunk_bit(c, 37u64));
    }
    if (c >> 38u64) & 1 == 1 {
        assert(chunk_bit(c, 38u64));
    }
    if (c >> 39u64) & 1 == 1 {
        assert(chunk_bit(c, 39u64));
    }
    if (c >> 40u64) & 1 == 1 {
        assert(chunk_bit(c, 40u64));
    }
    if (c >> 41u64) & 1 == 1 {
        assert(chunk_bit(c, 41u64));
    }
    if (c >> 42u64) & 1 == 1 {
        assert(chunk_bit(c, 42u64));
    }
    if (c >> 43u64) & 1 == 1 {
        assert(chunk_bit(c, 43u64));
    }
    if (c >> 44u64) & 1 == 1 {
        assert(chunk_bit(c, 44u64));
    }
    if (c >> 45u64) & 1 == 1 {
        assert(chunk_bit(c, 45u64));
    }
    if (c >> 46u64) & 1 == 1 {
        assert(chunk_bit(c, 46u64));
    }
    if (c >> 47u64) & 1 == 1 {
        assert(chunk_bit(c, 47u64));
    }
    if (c >> 48u64) & 1 == 1 {
        assert(chunk_bit(c, 48u64));
    }
    if (c >> 49u64) & 1 == 1 {
        assert(chunk_bit(c, 49u64));
    }
    if (c >> 50u64) & 1 == 1 {
        assert(chunk_bit(c, 50u64));
    }
    if (c >> 51u64) & 1 == 1 {
        assert(chunk_bit(c, 51u64));
    }
    if (c >> 52u64) & 1 == 1 {
        assert(chunk_bit(c, 52u64));
    }
    if (c >> 53u64) & 1 == 1 {
        assert(chunk_bit(c, 53u64));
    }
    if (c >> 54u64) & 1 == 1 {
        assert(chunk_bit(c, 54u64));
    }
    if (c >> 55u64) & 1 == 1 {
        assert(chunk_bit(c, 55u64));
    }
    if (c >> 56u64) & 1 == 1 {
        assert(chunk_bit(c, 56u64));
    }
    if (c >> 57u64) & 1 == 1 {
        assert(chunk_bit(c, 57u64));
    }
    if (c >> 58u64) & 1 == 1 {
        assert(chunk_bit(c, 58u64));
    }
    if (c >> 59u64) & 1 == 1 {
        assert(chunk_bit(c, 59u64));
    }
    if (c >> 60u64) & 1 == 1 {
        assert(chunk_bit(c, 60u64));
    }
    if (c >> 61u64) & 1 == 1 {
        assert(chunk_bit(c, 61u64));
    }
    if (c >> 62u64) & 1 == 1 {
        assert(chunk_bit(c, 62u64));
    }
    if (c >> 63u64) & 1 == 1 {
        assert(chunk_bit(c, 63u64));
    }
}

/// One equation over GF(2): the sum of the variables whose bit is set
/// equals `rhs`.
#[derive(Debug)]
pub struct BitRow {
    pub chunks: Vec<u64>,
    pub rhs: bool,
}

impl BitRow {
    /// Whether variable `k` takes part in the equation.
    pub open spec fn bit(&self, k: int) -> bool {
        0 <= k && k / 64 < self.chunks@.len() && chunk_bit(self.chunks@[k / 64], (k % 64) as u64)
    }

    /// No variable takes part.
    pub open spec fn is_zero(&self) -> bool {
        forall|i: int| 0 <= i < self.chunks@.len() ==> self.chunks@[i] == 0
    }

    /// The sum over GF(2) of the values, in `m`, of the variables below `k`
    /// that take part.
    pub open spec fn sum(&self, m: Seq<bool>, k: int) -> bool
        decreases k,
    {
        if k <= 0 {
            false
        } else {
            self.sum(m, k - 1) != (self.bit(k - 1) && m[k - 1])
        }
    }

    /// The equation holds in the model `m`.
    pub open spec fn holds(&self, m: Seq<bool>) -> bool {
        self.sum(m, m.len() as int) == self.rhs
    }

    /// A row without variables, wide enough for `size` of them.
    pub fn new(size: usize, rhs: bool) -> (r: BitRow)
        requires
            size <= usize::MAX - 63,
        ensures
            r.chunks@.len() == (size + 63) / 64,
            r.rhs == rhs,
            r.is_zero(),
            forall|k: int| !r.bit(k),
    {
        let num_chunks = (size + 63) / 64;
        let r = BitRow { chunks: vec![0; num_chunks], rhs };
        proof {
            assert forall|k: int| !r.bit(k) by {
                if 0 <= k && k / 64 < r.chunks@.len() {
                    lemma_zero_chunk((k % 64) as u64);
                }
            }
        }
        r
    }

    /// Sets the bit of variable `idx`, if the row is wide enough for it.
    pub fn set_bit(&mut self, idx: usize)
        ensures
            final(self).rhs == old(self).rhs,
            final(self).chunks@.len() == old(self).chunks@.len(),
            forall|k: int|
                #[trigger] final(self).bit(k) == (old(self).bit(k) || (k == idx && idx / 64 < old(self).chunks@.len())),
    {
        let chunk = idx / 64;
        let offset = idx % 64;
        if chunk < self.chunks.len() {
            let c = self.chunks[chunk];
            self.chunks[chunk] = c | (1u64 << (offset as u64));
            proof {
                assert forall|k: int|
                    #[trigger] self.bit(k) == (old(self).bit(k) || (k == idx && idx / 64 < old(self).chunks@.len())) by {
                    if 0 <= k && k / 64 < self.chunks@.len() {
                        if k / 64 == chunk {
                            lemma_set_chunk(c, offset as u64, (k % 64) as u64);
                        }
                    }
                }
            }
        }
    }

    /// The bit of variable `idx`.
    pub fn get_bit(&self, idx: usize) -> (r: bool)
        ensures
            r == self.bit(idx as int),
    {
        let chunk = idx / 64;
        let offset = idx % 64;
        if chunk < self.chunks.len() {
            proof {
                lemma_test_chunk(self.chunks@[chunk as int], offset as u64);
            }
            (self.chunks[chunk] & (1u64 << (offset as u64))) != 0
        } else {
            false
        }
    }

    /// Adds `other` to this row over GF(2), chunk by chunk as far as both reach.
    pub fn xor_with(&mut self, other: &BitRow)
        ensures
            final(self).rhs == (old(self).rhs != other.rhs),
            final(self).chunks@.len() == old(self).chunks@.len(),
            forall|k: int|
                #[trigger] final(self).bit(k) == (if 0 <= k && k / 64 < other.chunks@.len() && k / 64 < old(
                    self,
                ).chunks@.len() {
                    old(self).bit(k) != other.bit(k)
                } else {
                    old(self).bit(k)
                }),
    {
        let mut i: usize = 0;
        while i < self.chunks.len() && i < other.chunks.len()
            invariant
                self.rhs == old(self).rhs,
                self.chunks@.len() == old(self).chunks@.len(),
                forall|j: int| i <= j < self.chunks@.len() ==> self.chunks@[j] == old(self).chunks@[j],
                forall|j: int| 0 <= j < i ==> self.chunks@[j] == old(self).chunks@[j] ^ other.chunks@[j],
                i <= self.chunks@.len(),
                i <= other.chunks@.len(),
            decreases self.chunks.len() - i,
        {
            let c = self.chunks[i];
            self.chunks[i] = c ^ other.chunks[i];
            i = i + 1;
        }
        self.rhs = self.rhs ^ other.rhs;
        proof {
            assert forall|k: int|
                #[trigger] self.bit(k) == (if 0 <= k && k / 64 < other.chunks@.len() && k / 64 < self.chunks@.len() {
                    old(self).bit(k) != other.bit(k)
                } else {
                    old(self).bit(k)
                }) by {
                if 0 <= k && k / 64 < self.chunks@.len() && k / 64 < other.chunks@.len() {
                    lemma_xor_chunk(old(self).chunks@[k / 64], other.chunks@[k / 64], (k % 64) as u64);
                }
            }
        }
    }

    /// A row is zero iff none of its bits is set.
    pub proof fn lemma_zero_bits(&self)
        ensures
            self.is_zero() <==> forall|k: int| !self.bit(k),
    {
        if self.is_zero() {
            assert forall|k: int| !self.bit(k) by {
                if 0 <= k && k / 64 < self.chunks@.len() {
                    lemma_zero_chunk((k % 64) as u64);
                }
            }
        } else {
            let i = choose|i: int| 0 <= i < self.chunks@.len() && self.chunks@[i] != 0;
            lemma_nonzero_chunk(self.chunks@[i]);
            let o = choose|o: u64| o < 64 && #[trigger] chunk_bit(self.chunks@[i], o);
            let k = 64 * i + o;
            assert(k / 64 == i && k % 64 == o);
            assert(self.bit(k));
        }
    }

    /// Whether no variable takes part.
    pub fn is_zero_row(&self) -> (r: bool)
        ensures
            r == self.is_zero(),
            r <==> forall|k: int| !self.bit(k),
    {
        proof {
            self.lemma_zero_bits();
        }
        let mut i: usize = 0;
        while i < self.chunks.len()
            invariant
                i <= self.chunks@.len(),
                forall|j: int| 0 <= j < i ==> self.chunks@[j] == 0,
            decreases self.chunks.len() - i,
        {
            if self.chunks[i] != 0 {
                proof {
                    self.lemma_zero_bits();
                }
                return false;
            }
            i = i + 1;
        }
        proof {
            assert forall|k: int| !self.bit(k) by {
                if 0 <= k && k / 64 < self.chunks@.len() {
                    lemma_zero_chunk((k % 64) as u64);
                }
            }
        }
        true
    }
}

/// If both rows hold in `m`, so does their sum.
pub proof fn lemma_xor_sum(a: &BitRow, b: &BitRow, c: &BitRow, m: Seq<bool>, k: int)
    requires
        forall|j: int| 0 <= j < k ==> #[trigger] c.bit(j) == (a.bit(j) != b.bit(j)),
    ensures
        c.sum(m, k) == (a.sum(m, k) != b.sum(m, k)),
    decreases k,
{
    if k > 0 {
        lemma_xor_sum(a, b, c, m, k - 1);
        assert(c.bit(k - 1) == (a.bit(k - 1) != b.bit(k - 1)));
    }
}

/// A row without bits below `k` sums to false.
pub proof fn lemma_zero_sum(a: &BitRow, m: Seq<bool>, k: int)
    requires
        forall|j: int| 0 <= j < k ==> !#[trigger] a.bit(j),
    ensures
        !a.sum(m, k),
    decreases k,
{
    if k > 0 {
        lemma_zero_sum(a, m, k - 1);
        assert(!a.bit(k - 1));
    }
}

/// Setting a bit that was clear flips the sum by the value of its variable.
pub proof fn lemma_set_sum(a: &BitRow, b: &BitRow, v: int, m: Seq<bool>, k: int)
    requires
        0 <= v,
        !a.bit(v),
        forall|j: int| 0 <= j < k ==> #[trigger] b.bit(j) == (a.bit(j) || j == v),
    ensures
        b.sum(m, k) == (if v < k {
            a.sum(m, k) != m[v]
        } else {
            a.sum(m, k)
        }),
    decreases k,
{
    if k > 0 {
        lemma_set_sum(a, b, v, m, k - 1);
        assert(b.bit(k - 1) == (a.bit(k - 1) || k - 1 == v));
    }
}

} // verus!
