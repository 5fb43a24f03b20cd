use vstd::prelude::*;

verus! {

use crate::errors::StorageError;
use crate::resource::Resource;
use crate::storage::GenericStorage;

/// The number of blocks the iterator yields over `total` bytes.
pub open spec fn spec_block_count(total: int, block_size: int) -> int {
    (total + block_size - 1) / block_size
}

/// Produces the successive non-overlapping blocks of a storage's address
/// space, at most `block_size` bytes each, starting at offset zero; only
/// the last block may be shorter. The sequence is finite: it ends once the
/// offset reaches the total size, and a read error also ends it by jumping
/// the offset to the total size.
pub struct StorageIterator {
    block_size: usize,
    offset: usize,
}

impl StorageIterator {
    pub closed spec fn spec_block_size(&self) -> int {
        self.block_size as int
    }

    pub closed spec fn spec_offset(&self) -> int {
        self.offset as int
    }

    pub fn new(block_size: usize) -> (r: Self)
        requires
            block_size >= 1,
        ensures
            r.spec_block_size() == block_size,
            r.spec_offset() == 0,
    {
        StorageIterator { block_size, offset: 0 }
    }

    /// The next block, or None once the address space is exhausted. On a
    /// read error the offset jumps to the total size, ending the sequence.
    pub fn next_block<R: Resource>(&mut self, storage: &mut GenericStorage<R>) -> (r: Result<
        Option<Vec<u8>>,
        StorageError,
    >)
        requires
            old(self).spec_block_size() >= 1,
            0 <= old(self).spec_offset(),
            old(storage).wf(),
        ensures
            final(self).spec_block_size() == old(self).spec_block_size(),
            final(storage).wf(),
            final(storage).data() == old(storage).data(),
            final(storage).sizes() == old(storage).sizes(),
            final(storage).locations() == old(storage).locations(),
            final(storage).spec_name() == old(storage).spec_name(),
            old(self).spec_offset() >= old(storage).data().len() ==> (r matches Ok(b) && b
                is None && final(self).spec_offset() == old(self).spec_offset()),
            r matches Ok(b) ==> (old(self).spec_offset() < old(storage).data().len() ==> (b matches
                Some(v) && v@ == old(storage).data().subrange(
                old(self).spec_offset(),
                if old(self).spec_offset() + old(self).spec_block_size() <= old(
                    storage,
                ).data().len() {
                    old(self).spec_offset() + old(self).spec_block_size()
                } else {
                    old(storage).data().len() as int
                },
            ) && final(self).spec_offset() == old(self).spec_offset() + v@.len())),
            r is Err ==> final(self).spec_offset() == old(storage).data().len(),
    {
        let total = storage.size();
        if self.offset >= total {
            return Ok(None);
        }

        let n = if total - self.offset >= self.block_size {
            self.block_size
        } else {
            total - self.offset
        };

        match storage.read(self.offset, n) {
            Ok(v) => {
                self.offset = self.offset + n;
                Ok(Some(v))
            },
            Err(e) => {
                self.offset = total;
                Err(e)
            },
        }
    }

    /// At most `ceil(total / block_size)` blocks remain from the start.
    pub fn size_hint<R: Resource>(&self, storage: &GenericStorage<R>) -> (r: (
        usize,
        Option<usize>,
    ))
        requires
            self.spec_block_size() >= 1,
            storage.wf(),
            storage.data().len() + self.spec_block_size() <= usize::MAX,
        ensures
            r.0 == 0,
            r.1 == Some(
                (spec_block_count(storage.data().len() as int, self.spec_block_size()) as usize),
            ),
    {
        let len = (storage.size() + self.block_size - 1) / self.block_size;
        (0, Some(len))
    }
}

} // verus!
