//! The free-space bitmap: one bit per block, set when the block is in use.

use super::FsError;
use crate::layout::zero_bytes;
use vstd::prelude::*;

verus! {

#[derive(Debug)]
pub struct Bitmap {
    bits: Vec<u8>,
    total_blocks: u64,
}

/// Bit `k` (0 = least significant) of a byte.
pub open spec fn bit_of(byte: u8, k: int) -> bool {
    (byte >> (k as u8)) & 1 == 1
}

/// Bit `i` of a little-endian bit string.
pub open spec fn bit_at(bytes: Seq<u8>, i: int) -> bool {
    bit_of(bytes[i / 8], i % 8)
}

/// Number of clear entries in a sequence of bits.
pub open spec fn count_clear(s: Seq<bool>) -> nat
    decreases s.len(),
{
    if s.len() == 0 {
        0
    } else {
        count_clear(s.drop_last()) + if s.last() {
            0nat
        } else {
            1nat
        }
    }
}

proof fn lemma_bit_set(b: u8, k: u8, j: u8)
    by (bit_vector)
    requires
        k < 8,
        j < 8,
    ensures
        ((b | (1u8 << k)) >> j) & 1 == 1 <==> (j == k || (b >> j) & 1 == 1),
{
}

proof fn lemma_bit_clear(b: u8, k: u8, j: u8)
    by (bit_vector)
    requires
        k < 8,
        j < 8,
    ensures
        ((b & !(1u8 << k)) >> j) & 1 == 1 <==> (j != k && (b >> j) & 1 == 1),
{
}

proof fn lemma_bit_zero(j: u8)
    by (bit_vector)
    ensures
        (0u8 >> j) & 1 != 1,
{
}

/// Setting a clear bit removes one from the count of clear bits; clearing a
/// set bit adds one.
pub proof fn lemma_count_clear_update(s: Seq<bool>, i: int, v: bool)
    requires
        0 <= i < s.len(),
    ensures
        s[i] == v ==> count_clear(s.update(i, v)) == count_clear(s),
        !s[i] && v ==> count_clear(s.update(i, v)) + 1 == count_clear(s),
        s[i] && !v ==> count_clear(s.update(i, v)) == count_clear(s) + 1,
    decreases s.len(),
{
    let t = s.update(i, v);
    if i == s.len() - 1 {
        assert(t.drop_last() =~= s.drop_last());
    } else {
        lemma_count_clear_update(s.drop_last(), i, v);
        assert(t.drop_last() =~= s.drop_last().update(i, v));
    }
}

/// No more blocks are free than there are blocks.
pub proof fn lemma_count_clear_bound(s: Seq<bool>)
    ensures
        count_clear(s) <= s.len(),
    decreases s.len(),
{
    if s.len() > 0 {
        lemma_count_clear_bound(s.drop_last());
    }
}

impl View for Bitmap {
    type V = Seq<bool>;

    /// Bit `i` tells whether block `i` is in use.
    closed spec fn view(&self) -> Seq<bool> {
        Seq::new(self.total_blocks as nat, |i: int| bit_at(self.bits@, i))
    }
}

impl Bitmap {
    /// The byte vector covers exactly the bitmap's blocks.
    pub closed spec fn wf(&self) -> bool {
        self.bits@.len() == (self.total_blocks + 7) / 8
    }

    /// The number of blocks the bitmap covers.
    pub closed spec fn total(&self) -> u64 {
        self.total_blocks
    }

    /// The bytes of the bitmap.
    pub closed spec fn bytes(&self) -> Seq<u8> {
        self.bits@
    }

    /// The bitmap has one flag per block it covers.
    pub proof fn lemma_len(&self)
        ensures
            self@.len() == self.total(),
    {
    }

    pub fn new(total_blocks: u64) -> (res: Self)
        requires
            (total_blocks + 7) / 8 <= usize::MAX,
        ensures
            res.wf(),
            res.total() == total_blocks,
            res@ == Seq::new(total_blocks as nat, |i: int| false),
    {
        let len = ((total_blocks / 8) + if total_blocks % 8 == 0 {
            0
        } else {
            1
        }) as usize;
        let bits = zero_bytes(len);
        let res = Self { bits, total_blocks };
        assert forall|i: int| 0 <= i < total_blocks implies !bit_at(res.bits@, i) by {
            lemma_bit_zero((i % 8) as u8);
        }
        assert(res@ =~= Seq::new(total_blocks as nat, |i: int| false));
        res
    }

    pub fn from_bytes(bytes: &[u8], total_blocks: u64) -> (res: Self)
        requires
            (total_blocks + 7) / 8 <= usize::MAX,
        ensures
            res.wf(),
            res.total() == total_blocks,
            res.bytes() == (if bytes@.len() >= (total_blocks + 7) / 8 {
                bytes@.subrange(0, ((total_blocks + 7) / 8) as int)
            } else {
                bytes@ + Seq::new((((total_blocks + 7) / 8) - bytes@.len()) as nat, |i: int| 0u8)
            }),
    {
        let len = ((total_blocks / 8) + if total_blocks % 8 == 0 {
            0
        } else {
            1
        }) as usize;
        let mut bits = zero_bytes(len);
        let n = if len < bytes.len() {
            len
        } else {
            bytes.len()
        };
        let mut i: usize = 0;
        while i < n
            invariant
                n <= len,
                n <= bytes@.len(),
                bits@.len() == len,
                i <= n,
                forall|j: int| 0 <= j < i ==> bits@[j] == bytes@[j],
                forall|j: int| i <= j < len ==> bits@[j] == 0,
            decreases n - i,
        {
            bits.set(i, bytes[i]);
            i += 1;
        }
        let res = Self { bits, total_blocks };
        assert(res.bits@ =~= (if bytes@.len() >= len {
            bytes@.subrange(0, len as int)
        } else {
            bytes@ + Seq::new((len - bytes@.len()) as nat, |i: int| 0u8)
        }));
        res
    }

    pub fn as_bytes(&self) -> (res: &[u8])
        requires
            self.wf(),
        ensures
            res@ == self.bytes(),
            res@.len() == (self.total() + 7) / 8,
            forall|i: int| 0 <= i < self.total() ==> #[trigger] self@[i] == bit_at(res@, i),
    {
        self.bits.as_slice()
    }

    pub fn is_set(&self, block: u64) -> (res: bool)
        requires
            self.wf(),
        ensures
            res == (block < self.total() && self@[block as int]),
    {
        if block >= self.total_blocks {
            return false;
        }
        let n = self.bits.len();
        assert(block / 8 < n);
        let idx = (block / 8) as usize;
        let k = (block % 8) as u8;
        assert(idx as int == block as int / 8);
        assert(k as int == block as int % 8);
        assert(self@[block as int] == bit_of(self.bits@[idx as int], k as int));
        (self.bits[idx] >> k) & 1 == 1
    }

    pub fn set(&mut self, block: u64)
        requires
            old(self).wf(),
        ensures
            final(self).wf(),
            final(self).total() == old(self).total(),
            final(self)@ == if block < old(self).total() {
                old(self)@.update(block as int, true)
            } else {
                old(self)@
            },
    {
        if block < self.total_blocks {
            let n = self.bits.len();
            assert(block / 8 < n);
            let idx = (block / 8) as usize;
            let k = (block % 8) as u8;
            let byte = self.bits[idx];
            self.bits.set(idx, byte | (1u8 << k));
            proof {
                assert forall|i: int| 0 <= i < self.total_blocks implies #[trigger] bit_at(
                    self.bits@,
                    i,
                ) == old(self)@.update(block as int, true)[i] by {
                    if i / 8 == idx {
                        lemma_bit_set(byte, k, (i % 8) as u8);
                    }
                }
                assert(self@ =~= old(self)@.update(block as int, true));
            }
        }
    }

    pub fn clear(&mut self, block: u64)
        requires
            old(self).wf(),
        ensures
            final(self).wf(),
            final(self).total() == old(self).total(),
            final(self)@ == if block < old(self).total() {
                old(self)@.update(block as int, false)
            } else {
                old(self)@
            },
    {
        if block < self.total_blocks {
            let n = self.bits.len();
            assert(block / 8 < n);
            let idx = (block / 8) as usize;
            let k = (block % 8) as u8;
            let byte = self.bits[idx];
            self.bits.set(idx, byte & !(1u8 << k));
            proof {
                assert forall|i: int| 0 <= i < self.total_blocks implies #[trigger] bit_at(
                    self.bits@,
                    i,
                ) == old(self)@.update(block as int, false)[i] by {
                    if i / 8 == idx {
                        lemma_bit_clear(byte, k, (i % 8) as u8);
                    }
                }
                assert(self@ =~= old(self)@.update(block as int, false));
            }
        }
    }

    pub fn count_free(&self) -> (res: u64)
        requires
            self.wf(),
        ensures
            res == count_clear(self@),
    {
        let mut count: u64 = 0;
        let mut block: u64 = 0;
        while block < self.total_blocks
            invariant
                self.wf(),
                block <= self.total(),
                self@.len() == self.total(),
                count == count_clear(self@.take(block as int)),
                count <= block,
            decreases self.total() - block,
        {
            proof {
                assert(self@.take(block + 1).drop_last() =~= self@.take(block as int));
            }
            if !self.is_set(block) {
                count += 1;
            }
            block += 1;
        }
        assert(self@.take(self.total() as int) =~= self@);
        count
    }

    pub fn alloc_from(&mut self, from: u64) -> (res: Result<u64, FsError>)
        requires
            old(self).wf(),
        ensures
            final(self).wf(),
            final(self).total() == old(self).total(),
            match res {
                Ok(b) => from <= b < old(self).total() && !old(self)@[b as int] && (forall|j: int|
                    from <= j < b ==> old(self)@[j]) && final(self)@ == old(self)@.update(
                    b as int,
                    true,
                ),
                Err(e) => e is NoSpace && final(self)@ == old(self)@ && (forall|j: int|
                    from <= j < old(self).total() ==> old(self)@[j]),
            },
    {
        let mut block = from;
        while block < self.total_blocks
            invariant
                from <= block,
                self == old(self),
                self.wf(),
                forall|j: int| from <= j < block ==> self@[j],
            decreases self.total() - block,
        {
            if !self.is_set(block) {
                self.set(block);
                return Ok(block);
            }
            block += 1;
        }
        Err(FsError::NoSpace)
    }
}

} // verus!
