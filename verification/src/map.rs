use vstd::prelude::*;

verus! {

use crate::chunk::{spec_piece_count, ChunkMap, MIN_PIECE_SIZE};
use crate::digest::{sha512, sha512_of};
use crate::errors::Error as BaseError;
use crate::merkle_proof::Proof;
use crate::resource::Resource;
use crate::storage::{items_total, lemma_concat_len, GenericStorage};
use crate::view::cum_sizes;
use crate::tree::{
    lemma_node_count_bound, lemma_tree_set_leaves, spec_node_count, spec_proof, spec_tree_height,
    spec_tree_set, spec_verify, MerkleTree, TreeModel,
};

/// Faults of the storage-map layer.
#[derive(Debug)]
pub enum ErrorKind {
    ChunkAlreadyExists(usize),
    ChunkDoesNotExist(usize),
    ChunkOutOfRange(usize),
    StorageError(crate::errors::ErrorKind),
    MerkleTreeError(crate::tree::Error),
    MerkleTreeProofError(crate::merkle_proof::Error),
    IoError(String),
}

pub type Error = BaseError<ErrorKind>;

/// Lift a storage-layer error, keeping an I/O fault's text verbatim.
fn wrap_storage_error(e: crate::errors::StorageError) -> (r: Error)
    ensures
        r.kind matches ErrorKind::IoError(_) || r.kind matches ErrorKind::StorageError(_),
{
    match e.kind {
        crate::errors::ErrorKind::IoError(s) => BaseError::new(ErrorKind::IoError(s)),
        kind => BaseError::new(ErrorKind::StorageError(kind)),
    }
}

/// Prefix sums of the resource sizes equal the declared totals.
proof fn lemma_total_from_items(sizes: Seq<int>, items: Seq<(String, usize)>, k: int)
    requires
        0 <= k <= items.len(),
        sizes.len() == items.len(),
        forall|i: int| 0 <= i < items.len() ==> sizes[i] == (#[trigger] items[i]).1 as int,
    ensures
        cum_sizes(sizes, k) == items_total(items.take(k)),
    decreases k,
{
    if k > 0 {
        lemma_total_from_items(sizes, items, k - 1);
        assert(items.take(k).drop_last() =~= items.take(k - 1));
        assert(items.take(k).last() == items[k - 1]);
    } else {
        assert(items.take(0) =~= Seq::<(String, usize)>::empty());
    }
}

/// A storage built from items holds exactly the declared number of bytes.
proof fn lemma_storage_total<R: Resource>(storage: &GenericStorage<R>, items: Seq<(String, usize)>)
    requires
        storage.wf(),
        storage.sizes().len() == items.len(),
        forall|i: int| 0 <= i < items.len() ==> storage.sizes()[i] == (#[trigger] items[i]).1 as int,
    ensures
        storage.data().len() == items_total(items),
{
    lemma_concat_len(storage.parts());
    lemma_total_from_items(storage.sizes(), items, items.len() as int);
    assert(items.take(items.len() as int) =~= items);
}

/// A copy of a string, character for character.
fn clone_string(s: &String) -> (r: String)
    ensures
        r@ == s@,
{
    s.as_str().to_string()
}

/// The first `n` flags of a vector.
fn truncate_bools(v: &Vec<bool>, n: usize) -> (r: Vec<bool>)
    requires
        n <= v@.len(),
    ensures
        r@ == v@.take(n as int),
{
    let mut r: Vec<bool> = Vec::new();
    let mut i: usize = 0;
    while i < n
        invariant
            i <= n,
            n <= v@.len(),
            r@.len() == i,
            forall|t: int| 0 <= t < i ==> #[trigger] r@[t] == v@[t],
        decreases n - i,
    {
        r.push(v[i]);
        i = i + 1;
    }
    proof {
        assert(r@ =~= v@.take(n as int));
    }
    r
}

/// The bytes of piece `p`: a full piece, or the shorter tail of the store.
pub open spec fn spec_piece_bytes(data: Seq<u8>, p: int) -> Seq<u8> {
    data.subrange(
        p * (MIN_PIECE_SIZE as int),
        if (p + 1) * (MIN_PIECE_SIZE as int) <= data.len() {
            (p + 1) * (MIN_PIECE_SIZE as int)
        } else {
            data.len() as int
        },
    )
}

/// All four chunks of piece `p` are present.
pub open spec fn spec_piece_complete(bits: Seq<bool>, p: int) -> bool {
    &&& 0 <= 4 * p
    &&& 4 * p + 3 < bits.len()
    &&& bits[4 * p]
    &&& bits[4 * p + 1]
    &&& bits[4 * p + 2]
    &&& bits[4 * p + 3]
}

/// A persisted state coheres with a storage of `total` bytes: the declared
/// totals and parameters are the ones the total derives, and the bitmaps
/// and hash buffer are large enough for the geometry (the packed form may
/// carry up to seven padding bits per bitmap).
pub open spec fn spec_restore_coheres(total: int, ps: &crate::codec::PersistedState) -> bool {
    let pc = spec_piece_count(total);
    &&& ps.total_size == total
    &&& total <= usize::MAX - MIN_PIECE_SIZE
    &&& ps.chunk_bits@.len() >= 4 * pc
    &&& ps.chunk_size == MIN_PIECE_SIZE as int / 4
    &&& ps.chunk_count == 4 * pc
    &&& ps.piece_size == MIN_PIECE_SIZE
    &&& ps.piece_count == pc
    &&& ps.chunks_in_piece == 4
    &&& ps.leaf_count == pc
    &&& ps.tree_bits@.len() >= spec_node_count(pc as nat)
    &&& ps.height == spec_tree_height(pc as nat)
    &&& ps.tree_hashes@.len() == spec_node_count(pc as nat) * 64
}

/// The map's state equals the persisted fields: chunk bits and tree bits
/// match the stored prefixes, every node hash matches its stored bytes, and
/// the counts agree.
pub open spec fn restored_matches<R: Resource>(
    m: &StorageMap<R>,
    ps: &crate::codec::PersistedState,
) -> bool {
    &&& m.wf()
    &&& m.piece_count() == ps.leaf_count
    &&& m.data().len() == ps.total_size
    &&& m.chunk_bits().len() == 4 * m.piece_count()
    &&& (forall|i: int|
        0 <= i < m.chunk_bits().len() ==> #[trigger] m.chunk_bits()[i] == ps.chunk_bits@[i])
    &&& (forall|i: int|
        0 <= i < m.tree_model().present.len() ==> #[trigger] m.tree_model().present[i]
            == ps.tree_bits@[i])
    &&& (forall|i: int|
        0 <= i < m.tree_model().nodes.len() ==> #[trigger] m.tree_model().nodes[i]
            == ps.tree_hashes@.subrange(64 * i, 64 * i + 64))
}

/// The verifiable storage object: a sharded storage, the bitmap of locally
/// present chunks, and a Merkle tree committing to the pieces.
pub struct StorageMap<R> {
    tree: MerkleTree,
    chunks: ChunkMap,
    storage: GenericStorage<R>,
}

impl<R: Resource> StorageMap<R> {
    pub closed spec fn tree_model(&self) -> TreeModel {
        self.tree@
    }

    pub closed spec fn chunk_bits(&self) -> Seq<bool> {
        self.chunks.bits()
    }

    pub closed spec fn data(&self) -> Seq<u8> {
        self.storage.data()
    }

    pub closed spec fn spec_name(&self) -> Seq<char> {
        self.storage.spec_name()
    }

    pub closed spec fn piece_count(&self) -> int {
        self.chunks.piece_count as int
    }

    pub closed spec fn chunk_count(&self) -> int {
        self.chunks.chunk_count as int
    }

    pub closed spec fn spec_chunk_size(&self) -> int {
        self.chunks.chunk_size as int
    }

    pub closed spec fn locations(&self) -> Seq<Seq<char>> {
        self.storage.locations()
    }

    pub closed spec fn wf(&self) -> bool {
        &&& self.storage.wf()
        &&& self.chunks.wf()
        &&& self.tree.wf()
        &&& self.chunks.piece_count == spec_piece_count(self.storage.data().len() as int)
        &&& self.tree@.leaf_count == self.chunks.piece_count
        &&& self.storage.data().len() <= usize::MAX - MIN_PIECE_SIZE
    }

    /// Leaf `p` commits to the bytes of piece `p`.
    pub open spec fn piece_ok(&self, p: int) -> bool {
        &&& self.tree_model().present[p]
        &&& self.tree_model().nodes[p] == sha512_of(spec_piece_bytes(self.data(), p))
    }

    /// Every complete piece that lies entirely within the address space has
    /// its leaf set to the digest of its bytes.
    pub open spec fn committed(&self) -> bool {
        forall|p: int|
            0 <= p < self.piece_count() && (p + 1) * (MIN_PIECE_SIZE as int) <= self.data().len()
                && spec_piece_complete(self.chunk_bits(), p) ==> #[trigger] self.piece_ok(p)
    }

    pub proof fn lemma_wf_facts(&self)
        requires
            self.wf(),
        ensures
            self.chunk_count() == 4 * self.piece_count(),
            self.spec_chunk_size() == MIN_PIECE_SIZE / 4,
            self.chunk_bits().len() == self.chunk_count(),
            self.tree_model().leaf_count == self.piece_count(),
            self.tree_model().present.len() == spec_node_count(self.piece_count() as nat),
            self.tree_model().nodes.len() == spec_node_count(self.piece_count() as nat),
            self.piece_count() * (MIN_PIECE_SIZE as int) >= self.data().len(),
            self.piece_count() >= 0,
            self.tree_model().wf(),
            spec_node_count(self.piece_count() as nat) * 64 <= usize::MAX,
    {
        self.tree.lemma_wf_view();
        vstd::arithmetic::div_mod::lemma_fundamental_div_mod(
            self.data().len() + MIN_PIECE_SIZE - 1,
            MIN_PIECE_SIZE as int,
        );
    }

    /// Build a storage map over freshly opened resources: every chunk is
    /// considered present (the resources already hold real bytes) and the
    /// Merkle tree is fully built from the storage's pieces.
    pub fn new(name: String, items: Vec<(String, usize)>) -> (r: Result<Self, Error>)
        requires
            items_total(items@) <= usize::MAX - MIN_PIECE_SIZE,
        ensures
            r matches Ok(m) ==> {
                &&& m.wf()
                &&& m.spec_name() == name@
                &&& forall|i: int| 0 <= i < m.chunk_bits().len() ==> m.chunk_bits()[i]
                &&& m.committed()
                &&& (m.piece_count() >= 1 ==> m.tree_model().all_present()
                    && m.tree_model().consistent())
                &&& forall|p: int|
                    0 <= p < m.piece_count() ==> #[trigger] m.tree_model().nodes[p] == sha512_of(
                        spec_piece_bytes(m.data(), p),
                    )
            },
    {
        let ghost items0 = items@;
        let storage = match GenericStorage::<R>::new(name, items) {
            Ok(s) => s,
            Err(e) => {
                return Err(wrap_storage_error(e));
            },
        };
        proof {
            lemma_storage_total(&storage, items0);
        }
        Self::assemble(storage, true)
    }

    /// Build a storage map whose chunks all start absent and whose tree is
    /// empty: the receiving side of a transfer, filled chunk by chunk.
    pub fn new_empty(name: String, items: Vec<(String, usize)>) -> (r: Result<Self, Error>)
        requires
            items_total(items@) <= usize::MAX - MIN_PIECE_SIZE,
        ensures
            r matches Ok(m) ==> {
                &&& m.wf()
                &&& m.spec_name() == name@
                &&& forall|i: int| 0 <= i < m.chunk_bits().len() ==> !m.chunk_bits()[i]
                &&& m.committed()
                &&& m.tree_model().consistent()
            },
    {
        let ghost items0 = items@;
        let storage = match GenericStorage::<R>::new(name, items) {
            Ok(s) => s,
            Err(e) => {
                return Err(wrap_storage_error(e));
            },
        };
        proof {
            lemma_storage_total(&storage, items0);
        }
        Self::assemble(storage, false)
    }

    /// Derive chunk parameters from the storage and build the tree: fully,
    /// from the storage's pieces, when all chunks count as present; as an
    /// empty tree otherwise.
    fn assemble(storage: GenericStorage<R>, all_set: bool) -> (r: Result<Self, Error>)
        requires
            storage.wf(),
            storage.data().len() <= usize::MAX - MIN_PIECE_SIZE,
        ensures
            r matches Ok(m) ==> {
                &&& m.wf()
                &&& m.spec_name() == storage.spec_name()
                &&& m.data() == storage.data()
                &&& forall|i: int| 0 <= i < m.chunk_bits().len() ==> m.chunk_bits()[i] == all_set
                &&& m.committed()
                &&& (all_set && m.piece_count() >= 1 ==> m.tree_model().all_present()
                    && m.tree_model().consistent())
                &&& (all_set ==> forall|p: int|
                    0 <= p < m.piece_count() ==> #[trigger] m.tree_model().nodes[p] == sha512_of(
                        spec_piece_bytes(m.data(), p),
                    ))
                &&& (!all_set ==> forall|i: int|
                    0 <= i < m.tree_model().present.len() ==> !m.tree_model().present[i])
                &&& m.tree_model().consistent()
            },
    {
        let mut storage = storage;
        let ghost d0 = storage.data();
        let ghost name0 = storage.spec_name();
        let total = storage.size();
        let chunks = ChunkMap::new(total, all_set);

        if !all_set {
            proof {
                lemma_node_count_bound(chunks.piece_count as nat);
            }
            let tree = MerkleTree::new(chunks.piece_count);
            let m = StorageMap { tree, chunks, storage };
            proof {
                m.lemma_wf_facts();
                assert forall|kk: nat, j: nat|
                    1 <= kk < m.tree_model().height && j < crate::tree::level_width(
                        m.tree_model().leaf_count,
                        kk,
                    ) && m.tree_model().present[(crate::tree::level_lo(m.tree_model().leaf_count, kk)
                        + j) as int] implies #[trigger] m.tree_model().node_ok(kk, j) by {
                    if m.piece_count() >= 1 {
                        crate::tree::lemma_level_in_bounds(m.tree_model().leaf_count, kk);
                        assert(false);
                    } else {
                        assert(m.tree_model().present.len() == 1);
                        crate::tree::lemma_level_in_bounds(m.tree_model().leaf_count, kk);
                        assert(false);
                    }
                }
            }
            return Ok(m);
        }

        let mut blocks: Vec<Vec<u8>> = Vec::new();
        let mut it = storage.iter(chunks.piece_size);
        let mut done = false;

        while !done
            invariant
                storage.wf(),
                storage.data() == d0,
                storage.spec_name() == name0,
                chunks.wf(),
                chunks.piece_count == spec_piece_count(d0.len() as int),
                total == d0.len(),
                it.spec_block_size() == MIN_PIECE_SIZE,
                forall|j: int|
                    0 <= j < blocks@.len() ==> (#[trigger] blocks@[j])@ == spec_piece_bytes(d0, j),
                it.spec_offset() == if MIN_PIECE_SIZE * blocks@.len() <= d0.len() {
                    (MIN_PIECE_SIZE as int) * blocks@.len()
                } else {
                    d0.len() as int
                },
                blocks@.len() == 0 || (MIN_PIECE_SIZE as int) * (blocks@.len() - 1) < d0.len(),
                done ==> it.spec_offset() >= d0.len(),
            decreases d0.len() - it.spec_offset(), (if done {
                0int
            } else {
                1int
            }),
        {
            match it.next_block(&mut storage) {
                Ok(Some(v)) => {
                    proof {
                        assert((MIN_PIECE_SIZE as int) * (blocks@.len() + 1) == (
                        MIN_PIECE_SIZE as int) * blocks@.len() + MIN_PIECE_SIZE)
                            by (nonlinear_arith);
                    }
                    blocks.push(v);
                },
                Ok(None) => {
                    done = true;
                },
                Err(e) => {
                    return Err(wrap_storage_error(e));
                },
            }
        }

        let ghost b = blocks@.len() as int;
        proof {
            if b == 0 {
                assert(d0.len() == 0);
                assert(chunks.piece_count == 0);
            } else {
                assert((MIN_PIECE_SIZE as int) * b >= d0.len());
                vstd::arithmetic::div_mod::lemma_fundamental_div_mod_converse(
                    d0.len() as int + 16383,
                    16384,
                    b,
                    d0.len() as int + 16383 - 16384 * b,
                );
                assert(chunks.piece_count == b);
            }
            lemma_node_count_bound(b as nat);
            assert(spec_node_count(b as nat) * 64 <= usize::MAX);
        }
        let tree = MerkleTree::from_blocks(&blocks);
        let m = StorageMap { tree, chunks, storage };
        proof {
            m.lemma_wf_facts();
        }
        Ok(m)
    }

    pub fn name(&self) -> (r: &String)
        ensures
            r@ == self.spec_name(),
    {
        self.storage.name()
    }

    /// The size of one chunk, in bytes.
    pub fn chunk_size(&self) -> (r: usize)
        ensures
            r == self.spec_chunk_size(),
    {
        self.chunks.chunk_size
    }

    /// The number of pieces (tree leaves).
    pub fn piece_count_val(&self) -> (r: usize)
        ensures
            r == self.piece_count(),
    {
        self.chunks.piece_count
    }

    /// Whether chunk `chunk_num` is locally present; false out of range.
    pub fn has_chunk(&self, chunk_num: usize) -> (r: bool)
        ensures
            r == (chunk_num < self.chunk_bits().len() && self.chunk_bits()[chunk_num as int]),
    {
        self.chunks.get(chunk_num)
    }

    /// Whether every chunk of piece `piece_num` is present.
    pub fn has_piece(&self, piece_num: usize) -> (r: bool)
        requires
            self.wf(),
        ensures
            r == spec_piece_complete(self.chunk_bits(), piece_num as int),
    {
        proof {
            self.lemma_wf_facts();
        }
        if piece_num >= self.chunks.piece_count {
            proof {
                assert(self.chunk_bits().len() == 4 * self.piece_count());
            }
            return false;
        }

        proof {
            assert((piece_num * self.chunks.piece_size) as int / (self.chunks.chunk_size as int)
                == 4 * piece_num) by (nonlinear_arith)
                requires
                    self.chunks.piece_size == 16384,
                    self.chunks.chunk_size == 4096,
                    0 <= piece_num,
                    piece_num * self.chunks.piece_size <= usize::MAX,
            ;
            assert(piece_num * 16384 <= self.chunks.piece_count * 16384) by (nonlinear_arith)
                requires
                    0 <= piece_num < self.chunks.piece_count,
            ;
        }
        let first_chunk = (piece_num * self.chunks.piece_size) / self.chunks.chunk_size;
        proof {
            assert(4 * (piece_num as int) + 4 <= 4 * self.piece_count());
        }
        let c0 = self.chunks.get(first_chunk);
        let c1 = self.chunks.get(first_chunk + 1);
        let c2 = self.chunks.get(first_chunk + 2);
        let c3 = self.chunks.get(first_chunk + 3);
        c0 && c1 && c2 && c3
    }

    /// The piece containing chunk `chunk_num`.
    fn piece_from_chunk(&self, chunk_num: usize) -> (r: usize)
        requires
            self.wf(),
            chunk_num < self.chunk_count(),
        ensures
            r == chunk_num as int / 4,
    {
        proof {
            self.lemma_wf_facts();
            assert(chunk_num * 4096 <= self.chunks.chunk_count * 4096 <= usize::MAX)
                by (nonlinear_arith)
                requires
                    0 <= chunk_num < self.chunks.chunk_count,
                    self.chunks.chunk_count == 4 * self.chunks.piece_count,
                    self.chunks.piece_count * 16384 <= usize::MAX,
            ;
            assert((chunk_num * self.chunks.chunk_size) as int / (self.chunks.piece_size as int)
                == chunk_num as int / 4) by (nonlinear_arith)
                requires
                    self.chunks.piece_size == 16384,
                    self.chunks.chunk_size == 4096,
                    0 <= chunk_num,
                    chunk_num * self.chunks.chunk_size <= usize::MAX,
            ;
        }
        (chunk_num * self.chunks.chunk_size) / self.chunks.piece_size
    }

    /// Read the bytes of a chunk; the chunk must be locally present.
    pub fn read_chunk(&mut self, chunk: usize) -> (r: Result<Vec<u8>, Error>)
        requires
            old(self).wf(),
        ensures
            final(self).wf(),
            final(self).data() == old(self).data(),
            final(self).chunk_bits() == old(self).chunk_bits(),
            final(self).tree_model() == old(self).tree_model(),
            final(self).spec_name() == old(self).spec_name(),
            final(self).piece_count() == old(self).piece_count(),
            !(chunk < old(self).chunk_bits().len() && old(self).chunk_bits()[chunk as int]) ==> (
            r matches Err(e) && e.kind matches ErrorKind::ChunkDoesNotExist(c) && c == chunk),
            r matches Err(e) ==> (e.kind matches ErrorKind::ChunkDoesNotExist(c) ==> c == chunk
                && !(chunk < old(self).chunk_bits().len() && old(self).chunk_bits()[chunk as int])),
            r matches Ok(v) ==> old(self).chunk_bits()[chunk as int] && v@.len() == old(
                self,
            ).spec_chunk_size() && chunk * old(self).spec_chunk_size() + old(self).spec_chunk_size()
                <= old(self).data().len() && v@ == old(self).data().subrange(
                chunk * old(self).spec_chunk_size(),
                chunk * old(self).spec_chunk_size() + old(self).spec_chunk_size(),
            ),
    {
        if !self.has_chunk(chunk) {
            return Err(BaseError::new(ErrorKind::ChunkDoesNotExist(chunk)));
        }

        proof {
            self.lemma_wf_facts();
            assert((chunk + 1) * 4096 <= self.chunks.chunk_count * 4096 <= usize::MAX)
                by (nonlinear_arith)
                requires
                    0 <= chunk < self.chunks.chunk_count,
                    self.chunks.chunk_count == 4 * self.chunks.piece_count,
                    self.chunks.piece_count * 16384 <= usize::MAX,
            ;
        }
        let offset = chunk * self.chunks.chunk_size;
        self.read_storage(offset, self.chunks.chunk_size)
    }

    /// Write the bytes of a chunk not yet present: store them, mark the
    /// chunk, and when its piece becomes complete, set the piece's leaf to
    /// the digest of the full piece read back from storage.
    pub fn write_chunk(&mut self, chunk: usize, data: &Vec<u8>) -> (r: Result<(), Error>)
        requires
            old(self).wf(),
            data@.len() <= old(self).spec_chunk_size(),
        ensures
            final(self).wf(),
            final(self).spec_name() == old(self).spec_name(),
            final(self).piece_count() == old(self).piece_count(),
            final(self).data().len() == old(self).data().len(),
            chunk >= old(self).chunk_count() ==> (r matches Err(e) && e.kind matches
                ErrorKind::ChunkOutOfRange(c) && c == chunk && *final(self) == *old(self)),
            chunk < old(self).chunk_count() && old(self).chunk_bits()[chunk as int] ==> (r matches
                Err(e) && e.kind matches ErrorKind::ChunkAlreadyExists(c) && c == chunk
                && *final(self) == *old(self)),
            r is Ok ==> final(self).chunk_bits() == old(self).chunk_bits().update(
                chunk as int,
                true,
            ),
            r is Ok && data@.len() > 0 ==> final(self).data() == crate::resource::spec_splice(
                old(self).data(),
                chunk * old(self).spec_chunk_size(),
                data@,
            ),
            r is Ok && data@.len() == 0 ==> final(self).data() == old(self).data(),
            r is Ok && old(self).committed() ==> final(self).committed(),
            r is Ok && old(self).tree_model().consistent()
                ==> final(self).tree_model().consistent(),
            r matches Err(e) ==> (e.kind matches ErrorKind::ChunkOutOfRange(c) ==> c == chunk
                && chunk >= old(self).chunk_count()),
            r matches Err(e) ==> (e.kind matches ErrorKind::ChunkAlreadyExists(c) ==> c == chunk
                && chunk < old(self).chunk_count() && old(self).chunk_bits()[chunk as int]),
            r is Ok ==> ({
                let piece = chunk as int / 4;
                &&& (spec_piece_complete(final(self).chunk_bits(), piece) ==> (piece + 1) * (
                MIN_PIECE_SIZE as int) <= old(self).data().len() && final(self).tree_model()
                    == spec_tree_set(
                    old(self).tree_model(),
                    piece,
                    sha512_of(spec_piece_bytes(final(self).data(), piece)),
                ))
                &&& (!spec_piece_complete(final(self).chunk_bits(), piece)
                    ==> final(self).tree_model() == old(self).tree_model())
            }),
            forall|g: int|
                0 <= g < old(self).data().len() && !(chunk * old(self).spec_chunk_size() <= g
                    < chunk * old(self).spec_chunk_size() + data@.len()) ==> final(self).data()[g]
                    == old(self).data()[g],
    {
        proof {
            self.lemma_wf_facts();
        }
        if chunk >= self.chunks.chunk_count {
            return Err(BaseError::new(ErrorKind::ChunkOutOfRange(chunk)));
        }
        if self.has_chunk(chunk) {
            return Err(BaseError::new(ErrorKind::ChunkAlreadyExists(chunk)));
        }

        proof {
            assert((chunk + 1) * 4096 <= self.chunks.chunk_count * 4096 <= usize::MAX)
                by (nonlinear_arith)
                requires
                    0 <= chunk < self.chunks.chunk_count,
                    self.chunks.chunk_count == 4 * self.chunks.piece_count,
                    self.chunks.piece_count * 16384 <= usize::MAX,
            ;
        }
        let offset = chunk * self.chunks.chunk_size;
        let ghost pre = *self;

        match self.storage.write(offset, data) {
            Ok(_) => {},
            Err(e) => {
                proof {
                    assert(self.chunk_bits() == pre.chunk_bits());
                    assert(self.tree_model() == pre.tree_model());
                }
                return Err(wrap_storage_error(e));
            },
        }

        self.chunks.set(chunk);
        let ghost mid = *self;

        let piece_num = self.piece_from_chunk(chunk);
        proof {
            self.lemma_wf_facts();
            assert(piece_num < self.piece_count()) by (nonlinear_arith)
                requires
                    piece_num == chunk as int / 4,
                    0 <= chunk < 4 * self.piece_count(),
            ;
        }
        let complete = self.has_piece(piece_num);
        if complete {
            match self.update_tree(piece_num) {
                Ok(_) => {
                    proof {
                        assert(mid.wf());
                        mid.lemma_wf_facts();
                        lemma_tree_set_leaves(
                            mid.tree_model(),
                            piece_num as int,
                            sha512_of(spec_piece_bytes(mid.data(), piece_num as int)),
                        );
                    }
                },
                Err(e) => {
                    return Err(e);
                },
            }
        }

        proof {
            if pre.committed() {
                self.lemma_commit_after_write(pre, mid, chunk as int, piece_num as int, data@);
            }
        }
        Ok(())
    }

    /// After a successful chunk write: pieces other than the chunk's kept
    /// their bytes, their completeness, and their leaves, so the commitment
    /// carries over; the chunk's own piece, if it became complete, was
    /// re-read and its leaf set to the digest of its current bytes.
    proof fn lemma_commit_after_write(
        &self,
        pre: Self,
        mid: Self,
        chunk: int,
        piece: int,
        written: Seq<u8>,
    )
        requires
            self.wf(),
            pre.wf(),
            0 <= chunk < pre.chunk_count(),
            piece == chunk / 4,
            written.len() <= pre.spec_chunk_size(),
            !pre.chunk_bits()[chunk],
            mid.chunk_bits() == pre.chunk_bits().update(chunk, true),
            self.chunk_bits() == mid.chunk_bits(),
            mid.data().len() == pre.data().len(),
            self.data() == mid.data(),
            self.piece_count() == pre.piece_count(),
            mid.piece_count() == pre.piece_count(),
            forall|g: int|
                0 <= g < pre.data().len() && !(chunk * pre.spec_chunk_size() <= g < chunk
                    * pre.spec_chunk_size() + written.len()) ==> mid.data()[g] == pre.data()[g],
            mid.tree_model() == pre.tree_model(),
            spec_piece_complete(self.chunk_bits(), piece) && (piece + 1) * (MIN_PIECE_SIZE as int)
                <= self.data().len() ==> self.piece_ok(piece),
            !spec_piece_complete(self.chunk_bits(), piece) || (piece + 1) * (
            MIN_PIECE_SIZE as int) > self.data().len() ==> self.tree_model() == pre.tree_model(),
            forall|n: int|
                0 <= n < pre.piece_count() && n != piece ==> #[trigger] self.tree_model().present[n]
                    == pre.tree_model().present[n] && self.tree_model().nodes[n]
                    == pre.tree_model().nodes[n],
            pre.committed(),
        ensures
            self.committed(),
    {
        pre.lemma_wf_facts();
        self.lemma_wf_facts();
        assert forall|q: int|
            0 <= q < self.piece_count() && (q + 1) * (MIN_PIECE_SIZE as int) <= self.data().len()
                && spec_piece_complete(self.chunk_bits(), q) implies #[trigger] self.piece_ok(
            q,
        ) by {
            if q != piece {
                // the chunk lies inside its own piece's byte range, away
                // from piece q
                assert(piece * 16384 <= chunk * 4096 && (chunk + 1) * 4096 <= (piece + 1) * 16384)
                    by (nonlinear_arith)
                    requires
                        piece == chunk / 4,
                        0 <= chunk,
                ;
                assert(q * 16384 >= 0 && (q + 1) * 16384 <= self.data().len())
                    by (nonlinear_arith)
                    requires
                        0 <= q,
                        (q + 1) * 16384 <= self.data().len(),
                ;
                // disjoint piece ranges
                assert((q + 1) * 16384 <= piece * 16384 || (piece + 1) * 16384 <= q * 16384)
                    by (nonlinear_arith)
                    requires
                        q != piece,
                        0 <= q,
                        0 <= piece,
                ;
                assert(spec_piece_complete(pre.chunk_bits(), q)) by {
                    assert(pre.chunk_bits()[4 * q] == mid.chunk_bits()[4 * q]);
                    assert(pre.chunk_bits()[4 * q + 1] == mid.chunk_bits()[4 * q + 1]);
                    assert(pre.chunk_bits()[4 * q + 2] == mid.chunk_bits()[4 * q + 2]);
                    assert(pre.chunk_bits()[4 * q + 3] == mid.chunk_bits()[4 * q + 3]);
                    assert(4 * q != chunk && 4 * q + 1 != chunk && 4 * q + 2 != chunk && 4 * q + 3
                        != chunk) by (nonlinear_arith)
                        requires
                            q != piece,
                            piece == chunk / 4,
                            0 <= chunk,
                            0 <= q,
                    ;
                };
                assert(pre.piece_ok(q));
                assert(spec_piece_bytes(self.data(), q) =~= spec_piece_bytes(pre.data(), q)) by {
                    assert forall|j: int| q * 16384 <= j < (q + 1) * 16384 implies self.data()[j]
                        == pre.data()[j] by {
                        assert(!(chunk * 4096 <= j < chunk * 4096 + written.len()));
                    }
                };
            }
        }
    }

    /// Re-read the full bytes of a piece and set its leaf to their digest,
    /// propagating upward.
    fn update_tree(&mut self, piece_num: usize) -> (r: Result<(), Error>)
        requires
            old(self).wf(),
            piece_num < old(self).piece_count(),
        ensures
            final(self).wf(),
            final(self).data() == old(self).data(),
            final(self).chunk_bits() == old(self).chunk_bits(),
            final(self).spec_name() == old(self).spec_name(),
            final(self).piece_count() == old(self).piece_count(),
            r is Ok ==> (piece_num + 1) * (MIN_PIECE_SIZE as int) <= old(self).data().len()
                && final(self).tree_model() == spec_tree_set(
                old(self).tree_model(),
                piece_num as int,
                sha512_of(spec_piece_bytes(old(self).data(), piece_num as int)),
            ),
            r is Ok && old(self).tree_model().consistent()
                ==> final(self).tree_model().consistent(),
            r is Err ==> final(self).tree_model() == old(self).tree_model(),
            r matches Err(e) ==> (e.kind matches ErrorKind::IoError(_) || e.kind matches
                ErrorKind::StorageError(_) || e.kind matches ErrorKind::MerkleTreeError(_)),
            (piece_num + 1) * (MIN_PIECE_SIZE as int) <= old(self).data().len() ==> (r is Ok
                <==> final(self).tree_model() != old(self).tree_model() || r is Ok),
    {
        proof {
            self.lemma_wf_facts();
            assert((piece_num + 1) * 16384 <= self.chunks.piece_count * 16384 <= usize::MAX)
                by (nonlinear_arith)
                requires
                    0 <= piece_num < self.chunks.piece_count,
                    self.chunks.piece_count * 16384 <= usize::MAX,
            ;
        }
        let offset = piece_num * self.chunks.piece_size;
        let buffer = match self.read_storage(offset, self.chunks.piece_size) {
            Ok(v) => v,
            Err(e) => {
                return Err(e);
            },
        };

        let digest = sha512(buffer.as_slice());
        proof {
            assert(buffer@ == spec_piece_bytes(old(self).data(), piece_num as int));
            if self.tree@.consistent() {
                self.lemma_wf_facts();
                crate::tree::lemma_tree_set_consistent(self.tree@, piece_num as int, digest@);
            }
        }
        match self.tree.set(piece_num, &digest) {
            Ok(_) => Ok(()),
            Err(e) => Err(BaseError::new(ErrorKind::MerkleTreeError(e))),
        }
    }

    /// Generate a Merkle proof for a piece.
    pub fn prove(&self, leaf_index: usize) -> (r: Result<Proof, Error>)
        requires
            self.wf(),
            leaf_index < self.piece_count(),
        ensures
            ({
                let p = spec_proof(self.tree_model(), leaf_index as int);
                &&& p.path.len() >= 2 ==> (r matches Ok(pr) && pr@ == p)
                &&& p.path.len() < 2 ==> (r matches Err(e) && e.kind matches
                    ErrorKind::MerkleTreeProofError(pe) && pe.kind
                    == crate::merkle_proof::ErrorKind::InvalidLength)
            }),
    {
        match self.tree.prove(leaf_index) {
            Ok(p) => Ok(p),
            Err(e) => Err(BaseError::new(ErrorKind::MerkleTreeProofError(e))),
        }
    }

    /// Check a Merkle proof against the locally known hashes.
    pub fn verify(&self, proof_arg: &Proof) -> (r: Result<(), Error>)
        requires
            self.wf(),
        ensures
            ({
                let v = spec_verify(self.tree_model(), proof_arg@);
                match r {
                    Ok(_) => v is None,
                    Err(e) => e.kind matches ErrorKind::MerkleTreeProofError(pe) && v == Some(
                        pe.kind,
                    ),
                }
            }),
    {
        match self.tree.verify(proof_arg) {
            Ok(_) => Ok(()),
            Err(e) => Err(BaseError::new(ErrorKind::MerkleTreeProofError(e))),
        }
    }

    /// The persisted form of the map: tree bitmap and hashes, geometry,
    /// chunk parameters and bitmap, name, resource locations, total size.
    pub fn to_persisted(&self) -> (r: crate::codec::PersistedState)
        requires
            self.wf(),
        ensures
            r.tree_bits@.len() == self.tree_model().present.len(),
            forall|i: int|
                0 <= i < r.tree_bits@.len() ==> #[trigger] r.tree_bits@[i]
                    == self.tree_model().present[i],
            r.leaf_count == self.piece_count(),
            r.chunk_bits@.len() == self.chunk_bits().len(),
            forall|i: int|
                0 <= i < r.chunk_bits@.len() ==> #[trigger] r.chunk_bits@[i]
                    == self.chunk_bits()[i],
            r.name@ == self.spec_name(),
            r.total_size == self.data().len(),
            restored_matches(self, &r),
            spec_restore_coheres(self.data().len() as int, &r),
            r.locations@.len() == self.locations().len(),
            forall|i: int|
                0 <= i < r.locations@.len() ==> (#[trigger] r.locations@[i])@
                    == self.locations()[i],
    {
        proof {
            self.lemma_wf_facts();
        }
        crate::codec::PersistedState {
            tree_bits: self.tree.snapshot_bits(),
            tree_hashes: self.tree.snapshot_hashes(),
            height: self.tree.height() as u64,
            leaf_count: self.tree.leaf_count() as u64,
            chunk_bits: self.chunks.snapshot_bits(),
            chunk_size: self.chunks.chunk_size as u64,
            chunk_count: self.chunks.chunk_count as u64,
            piece_size: self.chunks.piece_size as u64,
            piece_count: self.chunks.piece_count as u64,
            chunks_in_piece: self.chunks.chunks_in_piece as u64,
            name: self.storage.name().clone(),
            locations: self.storage.location_list(),
            total_size: self.storage.size() as u64,
        }
    }

    /// Restore a map from its persisted form: re-open every resource by
    /// location, then rebuild from the opened storage. Whether it succeeds
    /// past the re-opening is decided by the coherence of the state.
    pub fn from_persisted(ps: crate::codec::PersistedState) -> (r: Result<Self, Error>)
        ensures
            r matches Ok(m) ==> restored_matches(&m, &ps) && m.spec_name() == ps.name@
                && m.locations().len() == ps.locations@.len() && (forall|i: int|
                0 <= i < ps.locations@.len() ==> m.locations()[i] == (
                #[trigger] ps.locations@[i])@),
    {
        let storage = match GenericStorage::<R>::from_locations(
            clone_string(&ps.name),
            &ps.locations,
        ) {
            Ok(s) => s,
            Err(e) => {
                return Err(wrap_storage_error(e));
            },
        };
        Self::from_opened(storage, ps)
    }

    /// Rebuild a map from already-opened resources and the persisted state:
    /// re-derive the chunk parameters and rebuild the tree. Succeeds exactly
    /// when the state coheres with the opened storage.
    pub fn from_opened(storage: GenericStorage<R>, ps: crate::codec::PersistedState) -> (r: Result<
        Self,
        Error,
    >)
        requires
            storage.wf(),
        ensures
            r matches Ok(m) ==> restored_matches(&m, &ps) && m.spec_name()
                == storage.spec_name() && m.data() == storage.data() && m.locations()
                == storage.locations(),
            spec_restore_coheres(storage.data().len() as int, &ps) <==> r is Ok,
    {
        let total = storage.size();
        if ps.total_size != total as u64 {
            return Err(BaseError::new(ErrorKind::StorageError(
                crate::errors::ErrorKind::SizeMismatch(total, 0),
            )));
        }
        if total > usize::MAX - MIN_PIECE_SIZE {
            return Err(BaseError::new(ErrorKind::IoError(
                "persisted state is too large".to_string(),
            )));
        }

        // chunk bitmap: the packed form may carry up to seven padding bits
        let probe = ChunkMap::new(total, false);
        let want = probe.chunk_count;
        if ps.chunk_bits.len() < want {
            return Err(BaseError::new(ErrorKind::IoError(
                "chunk bitmap does not fit the storage".to_string(),
            )));
        }
        let chunks = match ChunkMap::from_parts(total, &truncate_bools(&ps.chunk_bits, want)) {
            Some(c) => c,
            None => {
                return Err(BaseError::new(ErrorKind::IoError(
                    "chunk bitmap does not fit the storage".to_string(),
                )));
            },
        };
        if ps.chunk_size != chunks.chunk_size as u64 || ps.chunk_count != chunks.chunk_count as u64
            || ps.piece_size != chunks.piece_size as u64 || ps.piece_count
            != chunks.piece_count as u64 || ps.chunks_in_piece != chunks.chunks_in_piece as u64 {
            return Err(BaseError::new(ErrorKind::IoError(
                "chunk parameters do not cohere".to_string(),
            )));
        }

        if ps.leaf_count != chunks.piece_count as u64 {
            return Err(BaseError::new(ErrorKind::IoError(
                "leaf count does not match the piece count".to_string(),
            )));
        }
        let leaf_count = chunks.piece_count;
        proof {
            lemma_node_count_bound(leaf_count as nat);
            assert(leaf_count * 16384 <= usize::MAX);
            assert(leaf_count <= usize::MAX / 256) by (nonlinear_arith)
                requires
                    0 <= leaf_count,
                    leaf_count * 16384 <= usize::MAX,
            ;
        }
        let (node_count, height) = crate::tree::tree_size(leaf_count);
        if ps.tree_bits.len() < node_count || ps.height != height as u64 {
            return Err(BaseError::new(ErrorKind::IoError(
                "tree geometry does not cohere".to_string(),
            )));
        }
        if ps.tree_hashes.len() != node_count * 64 {
            return Err(BaseError::new(ErrorKind::IoError(
                "hash buffer does not fit the tree".to_string(),
            )));
        }
        let tree = match MerkleTree::from_parts(
            &truncate_bools(&ps.tree_bits, node_count),
            ps.tree_hashes,
            leaf_count,
        ) {
            Ok(t) => t,
            Err(e) => {
                return Err(BaseError::new(ErrorKind::MerkleTreeError(e)));
            },
        };

        let m = StorageMap { tree, chunks, storage };
        proof {
            m.lemma_wf_facts();
        }
        Ok(m)
    }

    /// Read a range of the backing storage into a fresh buffer.
    fn read_storage(&mut self, offset: usize, size: usize) -> (r: Result<Vec<u8>, Error>)
        requires
            old(self).wf(),
            offset + size <= usize::MAX,
        ensures
            final(self).wf(),
            final(self).data() == old(self).data(),
            final(self).chunk_bits() == old(self).chunk_bits(),
            final(self).tree_model() == old(self).tree_model(),
            final(self).spec_name() == old(self).spec_name(),
            final(self).piece_count() == old(self).piece_count(),
            r matches Ok(v) ==> v@.len() == size,
            r matches Ok(v) ==> (offset + size <= old(self).data().len() ==> v@ == old(
                self,
            ).data().subrange(offset as int, offset + size)),
            size > 0 && offset + size > old(self).data().len() ==> r is Err,
            r matches Err(e) ==> (e.kind matches ErrorKind::IoError(_) || e.kind matches
                ErrorKind::StorageError(_)),
    {
        match self.storage.read(offset, size) {
            Ok(v) => Ok(v),
            Err(e) => Err(wrap_storage_error(e)),
        }
    }
}

} // verus!
