use vstd::prelude::*;

verus! {

use crate::bits::{bits_of, bv_all, bv_from_elem, bv_get, bv_set};

/// Smallest admissible piece size.
pub const MIN_PIECE_SIZE: usize = 16384;

/// Largest admissible piece size. Smaller than the minimum, which collapses
/// the clamp below to the minimum in every case; the literal values are kept
/// as the design fixes them.
pub const MAX_PIECE_SIZE: usize = 1024;

/// Ceiling division.
pub fn div_upper(value: usize, by: usize) -> (r: usize)
    requires
        by >= 1,
    ensures
        r == (value + by - 1) / (by as int),
{
    if value == 0 {
        proof {
            vstd::arithmetic::div_mod::lemma_basic_div((by - 1) as int, by as int);
        }
        0
    } else {
        let q = (value - 1) / by + 1;
        proof {
            vstd::arithmetic::div_mod::lemma_div_plus_one((value - 1) as int, by as int);
            assert(1 + (value - 1) as int / (by as int) == ((by as int) + (value - 1)) / (
            by as int));
            assert(q == (value + by - 1) / (by as int));
        }
        q
    }
}

/// Derived chunk parameters of a storage of `total` bytes.
pub open spec fn spec_piece_count(total: int) -> int {
    (total + MIN_PIECE_SIZE - 1) / (MIN_PIECE_SIZE as int)
}

/// Tracks which fixed-size chunks of the address space are locally present,
/// grouped four at a time into pieces aligned with the Merkle tree's leaf
/// granularity.
pub struct ChunkMap {
    /// one bit per chunk
    pub bitmap: bit_vec::BitVec,
    pub chunk_size: usize,
    pub chunk_count: usize,
    pub piece_size: usize,
    pub piece_count: usize,
    pub chunks_in_piece: usize,
}

impl ChunkMap {
    /// Which chunks are present.
    pub open spec fn bits(&self) -> Seq<bool> {
        bits_of(self.bitmap)
    }

    /// The parameters cohere: the piece size is the clamped power of two,
    /// chunks quarter the pieces, and the bitmap holds a bit per chunk.
    pub open spec fn wf(&self) -> bool {
        &&& self.piece_size == MIN_PIECE_SIZE
        &&& self.chunk_size == MIN_PIECE_SIZE / 4
        &&& self.chunks_in_piece == 4
        &&& self.chunk_count == 4 * self.piece_count
        &&& self.bits().len() == self.chunk_count
        &&& self.piece_count * self.piece_size <= usize::MAX
    }

    /// The piece size for a storage of `total_size` bytes: the largest power
    /// of two not above the total, clamped between the two bounds. With the
    /// fixed bounds the clamp always yields the minimum piece size.
    pub fn piece_size(total_size: usize) -> (r: usize)
        ensures
            r == MIN_PIECE_SIZE,
    {
        let mut value: usize = 0;
        if total_size > 0 {
            value = 1;
            while value <= total_size / 2
                invariant
                    1 <= value <= total_size,
                decreases total_size - value,
            {
                value = value * 2;
            }
        }

        let capped = if value < MAX_PIECE_SIZE {
            value
        } else {
            MAX_PIECE_SIZE
        };
        if capped > MIN_PIECE_SIZE {
            capped
        } else {
            MIN_PIECE_SIZE
        }
    }

    #[inline(always)]
    pub fn chunk_size(piece_size: usize) -> (r: usize)
        ensures
            r == piece_size as int / 4,
    {
        piece_size / 4
    }

    /// Parameters derived from the total size, with every chunk marked
    /// present or absent as given.
    pub fn new(total_size: usize, all_set: bool) -> (r: Self)
        requires
            total_size <= usize::MAX - MIN_PIECE_SIZE,
        ensures
            r.wf(),
            r.piece_count == spec_piece_count(total_size as int),
            r.bits() =~= Seq::new((4 * spec_piece_count(total_size as int)) as nat, |i: int| all_set),
            r.piece_count * r.piece_size >= total_size,
    {
        let piece_size = Self::piece_size(total_size);
        let chunk_size = Self::chunk_size(piece_size);
        let piece_count = div_upper(total_size, piece_size);
        let chunks_in_piece = div_upper(piece_size, chunk_size);
        proof {
            assert(piece_count == spec_piece_count(total_size as int));
            assert(piece_size == 16384);
            assert(chunk_size == 4096) by {
                assert(16384int / 4 == 4096);
            };
            assert(chunks_in_piece == (16384 + 4096 - 1) as int / 4096);
            assert((16384 + 4096 - 1) as int / 4096 == 4) by {
                vstd::arithmetic::div_mod::lemma_fundamental_div_mod(20479, 4096);
            };
            vstd::arithmetic::div_mod::lemma_fundamental_div_mod(
                total_size + 16384 - 1,
                16384,
            );
            assert(piece_count * 16384 <= total_size + 16383);
            assert(piece_count * 16384 >= total_size);
            assert(4 * piece_count <= usize::MAX);
        }
        let chunk_count = piece_count * chunks_in_piece;
        let bitmap = bv_from_elem(chunk_count, all_set);

        ChunkMap { bitmap, chunk_size, chunk_count, piece_size, piece_count, chunks_in_piece }
    }

    /// Whether chunk `i` is present; false out of range.
    pub fn get(&self, i: usize) -> (r: bool)
        ensures
            r == (i < self.bits().len() && self.bits()[i as int]),
    {
        match bv_get(&self.bitmap, i) {
            Some(b) => b,
            None => false,
        }
    }

    /// Mark chunk `i` present.
    pub fn set(&mut self, i: usize)
        requires
            i < old(self).bits().len(),
        ensures
            final(self).bits() == old(self).bits().update(i as int, true),
            final(self).chunk_size == old(self).chunk_size,
            final(self).chunk_count == old(self).chunk_count,
            final(self).piece_size == old(self).piece_size,
            final(self).piece_count == old(self).piece_count,
            final(self).chunks_in_piece == old(self).chunks_in_piece,
    {
        bv_set(&mut self.bitmap, i, true)
    }

    /// The presence bit of every chunk, in index order.
    pub fn snapshot_bits(&self) -> (r: Vec<bool>)
        requires
            self.wf(),
        ensures
            r@.len() == self.bits().len(),
            forall|i: int| 0 <= i < r@.len() ==> #[trigger] r@[i] == self.bits()[i],
    {
        let mut r: Vec<bool> = Vec::new();
        let mut i: usize = 0;
        let n = self.chunk_count;
        while i < n
            invariant
                self.wf(),
                n == self.bits().len(),
                i <= n,
                r@.len() == i,
                forall|t: int| 0 <= t < i ==> #[trigger] r@[t] == self.bits()[t],
            decreases n - i,
        {
            r.push(self.get(i));
            i = i + 1;
        }
        r
    }

    /// Rebuild a chunk map for the given total size from persisted bits,
    /// checking that the bit count fits the derived parameters.
    pub fn from_parts(total_size: usize, bits: &Vec<bool>) -> (r: Option<Self>)
        requires
            total_size <= usize::MAX - MIN_PIECE_SIZE,
        ensures
            r matches Some(m) ==> {
                &&& m.wf()
                &&& m.piece_count == spec_piece_count(total_size as int)
                &&& m.bits().len() == bits@.len()
                &&& forall|i: int| 0 <= i < bits@.len() ==> #[trigger] m.bits()[i] == bits@[i]
            },
            bits@.len() == 4 * spec_piece_count(total_size as int) ==> r is Some,
            bits@.len() != 4 * spec_piece_count(total_size as int) ==> r is None,
    {
        let mut m = Self::new(total_size, false);
        if bits.len() != m.chunk_count {
            return None;
        }
        let n = m.chunk_count;
        let mut i: usize = 0;
        while i < n
            invariant
                m.wf(),
                m.piece_count == spec_piece_count(total_size as int),
                n == m.bits().len(),
                n == bits@.len(),
                i <= n,
                forall|t: int| 0 <= t < i ==> #[trigger] m.bits()[t] == bits@[t],
                forall|t: int| i <= t < n ==> !(#[trigger] m.bits()[t]),
            decreases n - i,
        {
            if bits[i] {
                m.set(i);
            }
            i = i + 1;
        }
        Some(m)
    }

    /// Whether every chunk is present.
    pub fn all(&self) -> (r: bool)
        ensures
            r == (forall|i: int| 0 <= i < self.bits().len() ==> self.bits()[i]),
    {
        let r = bv_all(&self.bitmap);
        proof {
            if r {
                assert forall|i: int| 0 <= i < self.bits().len() implies self.bits()[i] by {
                    assert(bits_of(self.bitmap)[i]);
                }
            } else {
                let w = choose|i: int|
                    !(0 <= i < bits_of(self.bitmap).len() ==> bits_of(self.bitmap)[i]);
                assert(!self.bits()[w]);
            }
        }
        r
    }
}

} // verus!
