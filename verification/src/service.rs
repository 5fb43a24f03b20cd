use vstd::prelude::*;

verus! {

use crate::codec::{decode_state, encode_state, spec_blob, PersistedState};
use crate::map::{restored_matches, spec_piece_complete};
use crate::errors::Error as BaseError;
use crate::merkle_proof::Proof;
use crate::resource::Resource;
use crate::map::StorageMap;

/// Faults of the request-handling shell.
#[derive(Debug)]
pub enum ErrorKind {
    IoError(String),
    SerializationError(String),
    StorageError(crate::errors::ErrorKind),
    StorageMapError(crate::map::ErrorKind),
    StorageAlreadyExists,
    StorageDoesNotExist,
    MailboxError(String),
}

pub type Error = BaseError<ErrorKind>;

/// How a storage-map fault appears at the service surface.
pub open spec fn wrap_map_kind(k: crate::map::ErrorKind) -> ErrorKind {
    match k {
        crate::map::ErrorKind::IoError(s) => ErrorKind::IoError(s),
        crate::map::ErrorKind::StorageError(k2) => ErrorKind::StorageError(k2),
        other => ErrorKind::StorageMapError(other),
    }
}

/// Lift a storage-map error, keeping I/O and storage faults distinct.
fn wrap_map_error(e: crate::map::Error) -> (r: Error)
    ensures
        r.kind == wrap_map_kind(e.kind),
{
    match e.kind {
        crate::map::ErrorKind::IoError(s) => BaseError::new(ErrorKind::IoError(s)),
        crate::map::ErrorKind::StorageError(kind) => BaseError::new(ErrorKind::StorageError(kind)),
        kind => BaseError::new(ErrorKind::StorageMapError(kind)),
    }
}

/// The type a request's reply carries.
pub trait ValueHint {
    type Value;
}

pub struct Create {
    pub id: String,
    pub resources: Vec<(String, usize)>,
}

pub struct Load {
    pub id: String,
    pub blob: Vec<u8>,
}

pub struct Save {
    pub id: String,
    pub location: String,
}

pub struct ReadChunk {
    pub id: String,
    pub chunk: usize,
}

pub struct WriteChunk {
    pub id: String,
    pub chunk: usize,
    pub data: Vec<u8>,
}

pub struct HasChunk {
    pub id: String,
    pub chunk: usize,
}

pub struct HasPiece {
    pub id: String,
    pub piece: usize,
}

pub struct Prove {
    pub id: String,
    pub leaf_index: usize,
}

pub struct VerifyProof {
    pub id: String,
    pub proof: Proof,
}

impl ValueHint for Create {
    type Value = String;
}

impl ValueHint for Load {
    type Value = String;
}

impl ValueHint for Save {
    type Value = ();
}

impl ValueHint for ReadChunk {
    type Value = Vec<u8>;
}

impl ValueHint for WriteChunk {
    type Value = ();
}

impl ValueHint for HasChunk {
    type Value = bool;
}

impl ValueHint for HasPiece {
    type Value = bool;
}

impl ValueHint for Prove {
    type Value = Proof;
}

impl ValueHint for VerifyProof {
    type Value = ();
}

/// The versioned persistence envelope: new variants can be added without
/// breaking old blobs.
pub enum VersionedStorageMap<R> {
    V1(StorageMap<R>),
}

impl<R: Resource> VersionedStorageMap<R> {
    pub fn wrap(storage: StorageMap<R>) -> (r: Self)
        ensures
            r matches VersionedStorageMap::V1(m) && m == storage,
    {
        VersionedStorageMap::V1(storage)
    }

    pub fn try_unwrap(&self) -> (r: Result<&StorageMap<R>, Error>)
        ensures
            r matches Ok(m) && *self matches VersionedStorageMap::V1(v) && *m == v,
    {
        match self {
            VersionedStorageMap::V1(map) => Ok(map),
        }
    }
}

/// One storage map's worker state: it serves its requests sequentially,
/// holding the map once created or loaded.
pub struct StorageMapActor<R> {
    holder: Option<VersionedStorageMap<R>>,
}

impl<R: Resource> StorageMapActor<R> {
    /// The map this worker holds, when one has been created or loaded.
    pub closed spec fn held(&self) -> Option<StorageMap<R>> {
        match self.holder {
            Some(VersionedStorageMap::V1(m)) => Some(m),
            None => None,
        }
    }

    pub open spec fn holds_map(&self) -> bool {
        self.held() is Some
    }

    pub closed spec fn map_wf(&self) -> bool {
        match self.holder {
            Some(VersionedStorageMap::V1(m)) => m.wf(),
            None => true,
        }
    }

    pub fn new() -> (r: Self)
        ensures
            !r.holds_map(),
            r.map_wf(),
    {
        StorageMapActor { holder: None }
    }

    /// Create a fresh, fully built storage map; an error when this worker
    /// already holds one.
    pub fn handle_create(&mut self, id: String, resources: Vec<(String, usize)>) -> (r: Result<
        String,
        Error,
    >)
        requires
            old(self).map_wf(),
            crate::storage::items_total(resources@) <= usize::MAX
                - crate::chunk::MIN_PIECE_SIZE,
        ensures
            final(self).map_wf(),
            old(self).holds_map() ==> (r matches Err(e) && e.kind matches
                ErrorKind::StorageAlreadyExists && *final(self) == *old(self)),
            r is Ok ==> final(self).holds_map(),
    {
        if self.holder.is_some() {
            return Err(BaseError::new(ErrorKind::StorageAlreadyExists));
        }

        let map = match StorageMap::<R>::new(id, resources) {
            Ok(m) => m,
            Err(e) => {
                return Err(wrap_map_error(e));
            },
        };
        let name = map.name().clone();
        self.holder = Some(VersionedStorageMap::wrap(map));
        Ok(name)
    }

    /// Restore a storage map from a persisted blob; an error when this
    /// worker already holds one or the blob does not parse.
    pub fn handle_load(&mut self, blob: &Vec<u8>) -> (r: Result<String, Error>)
        requires
            old(self).map_wf(),
        ensures
            final(self).map_wf(),
            old(self).holds_map() ==> (r matches Err(e) && e.kind matches
                ErrorKind::StorageAlreadyExists && *final(self) == *old(self)),
            r is Ok ==> final(self).holds_map(),
    {
        if self.holder.is_some() {
            return Err(BaseError::new(ErrorKind::StorageAlreadyExists));
        }

        let state = match decode_state(blob) {
            Some(ps) => ps,
            None => {
                return Err(BaseError::new(ErrorKind::SerializationError(
                    "the blob does not parse".to_string(),
                )));
            },
        };
        let map = match StorageMap::<R>::from_persisted(state) {
            Ok(m) => m,
            Err(e) => {
                return Err(wrap_map_error(e));
            },
        };
        let name = map.name().clone();
        self.holder = Some(VersionedStorageMap::wrap(map));
        Ok(name)
    }

    /// Serialize the held map into its persisted blob.
    pub fn handle_save(&self) -> (r: Result<Vec<u8>, Error>)
        requires
            self.map_wf(),
        ensures
            !self.holds_map() ==> (r matches Err(e) && e.kind matches
                ErrorKind::StorageDoesNotExist),
            self.held() matches Some(m) ==> (r matches Ok(b) && exists|ps: PersistedState|
                b@ == #[trigger] spec_blob(&ps) && restored_matches(&m, &ps) && ps.name@
                == m.spec_name()),
    {
        let map = match &self.holder {
            Some(h) => match h.try_unwrap() {
                Ok(m) => m,
                Err(e) => {
                    return Err(e);
                },
            },
            None => {
                return Err(BaseError::new(ErrorKind::StorageDoesNotExist));
            },
        };
        proof {
            map.lemma_wf_facts();
        }
        let state = map.to_persisted();
        proof {
            assert(state.tree_bits@.len() * 64 <= usize::MAX);
            assert(state.chunk_bits@.len() == 4 * map.piece_count());
            assert(4 * map.piece_count() + 7 <= usize::MAX) by {
                assert(map.piece_count() * 16384 >= 4 * map.piece_count());
            };
        }
        Ok(encode_state(&state))
    }

    pub fn handle_read_chunk(&mut self, chunk: usize) -> (r: Result<Vec<u8>, Error>)
        requires
            old(self).map_wf(),
        ensures
            final(self).map_wf(),
            !old(self).holds_map() ==> (r matches Err(e) && e.kind matches
                ErrorKind::StorageDoesNotExist),
            old(self).held() matches Some(m) ==> ({
                &&& (final(self).held() matches Some(m2) && m2.data() == m.data()
                    && m2.chunk_bits() == m.chunk_bits() && m2.tree_model() == m.tree_model()
                    && m2.spec_name() == m.spec_name())
                &&& (!(chunk < m.chunk_bits().len() && m.chunk_bits()[chunk as int]) ==> (r
                    matches Err(e) && e.kind matches ErrorKind::StorageMapError(k) && k matches
                    crate::map::ErrorKind::ChunkDoesNotExist(c) && c == chunk))
                &&& (r matches Ok(v) ==> m.chunk_bits()[chunk as int] && v@.len()
                    == m.spec_chunk_size() && v@ == m.data().subrange(
                    chunk * m.spec_chunk_size(),
                    chunk * m.spec_chunk_size() + m.spec_chunk_size(),
                ))
            }),
    {
        match &mut self.holder {
            Some(VersionedStorageMap::V1(map)) => match map.read_chunk(chunk) {
                Ok(v) => Ok(v),
                Err(e) => Err(wrap_map_error(e)),
            },
            None => Err(BaseError::new(ErrorKind::StorageDoesNotExist)),
        }
    }

    pub fn handle_write_chunk(&mut self, chunk: usize, data: &Vec<u8>) -> (r: Result<(), Error>)
        requires
            old(self).map_wf(),
        ensures
            final(self).map_wf(),
            !old(self).holds_map() ==> (r matches Err(e) && e.kind matches
                ErrorKind::StorageDoesNotExist),
            old(self).held() matches Some(m) ==> ({
                &&& (data@.len() > m.spec_chunk_size() ==> (r matches Err(e) && e.kind matches
                    ErrorKind::StorageMapError(k) && k matches
                    crate::map::ErrorKind::ChunkOutOfRange(c) && c == chunk && *final(self)
                    == *old(self)))
                &&& (r is Ok ==> (final(self).held() matches Some(m2) && m2.chunk_bits()
                    == m.chunk_bits().update(chunk as int, true) && (data@.len() > 0 ==> m2.data()
                    == crate::resource::spec_splice(
                    m.data(),
                    chunk * m.spec_chunk_size(),
                    data@,
                ))))
            }),
    {
        match &mut self.holder {
            Some(VersionedStorageMap::V1(map)) => {
                proof {
                    map.lemma_wf_facts();
                }
                if data.len() > chunk_size_of(map) {
                    return Err(BaseError::new(ErrorKind::StorageMapError(
                        crate::map::ErrorKind::ChunkOutOfRange(chunk),
                    )));
                }
                match map.write_chunk(chunk, data) {
                    Ok(_) => Ok(()),
                    Err(e) => Err(wrap_map_error(e)),
                }
            },
            None => Err(BaseError::new(ErrorKind::StorageDoesNotExist)),
        }
    }

    pub fn handle_has_chunk(&self, chunk: usize) -> (r: Result<bool, Error>)
        requires
            self.map_wf(),
        ensures
            !self.holds_map() ==> (r matches Err(e) && e.kind matches
                ErrorKind::StorageDoesNotExist),
            self.held() matches Some(m) ==> (r matches Ok(b) && b == (chunk
                < m.chunk_bits().len() && m.chunk_bits()[chunk as int])),
    {
        match &self.holder {
            Some(VersionedStorageMap::V1(map)) => Ok(map.has_chunk(chunk)),
            None => Err(BaseError::new(ErrorKind::StorageDoesNotExist)),
        }
    }

    pub fn handle_has_piece(&self, piece: usize) -> (r: Result<bool, Error>)
        requires
            self.map_wf(),
        ensures
            !self.holds_map() ==> (r matches Err(e) && e.kind matches
                ErrorKind::StorageDoesNotExist),
            self.held() matches Some(m) ==> (r matches Ok(b) && b == spec_piece_complete(
                m.chunk_bits(),
                piece as int,
            )),
    {
        match &self.holder {
            Some(VersionedStorageMap::V1(map)) => Ok(map.has_piece(piece)),
            None => Err(BaseError::new(ErrorKind::StorageDoesNotExist)),
        }
    }

    pub fn handle_prove(&self, leaf_index: usize) -> (r: Result<Proof, Error>)
        requires
            self.map_wf(),
        ensures
            !self.holds_map() ==> (r matches Err(e) && e.kind matches
                ErrorKind::StorageDoesNotExist),
            self.held() matches Some(m) ==> ({
                if leaf_index < m.piece_count() {
                    let p = crate::tree::spec_proof(m.tree_model(), leaf_index as int);
                    &&& (p.path.len() >= 2 ==> (r matches Ok(pr) && pr@ == p))
                    &&& (p.path.len() < 2 ==> (r matches Err(e) && e.kind matches
                        ErrorKind::StorageMapError(k) && k matches
                        crate::map::ErrorKind::MerkleTreeProofError(pe) && pe.kind
                        == crate::merkle_proof::ErrorKind::InvalidLength))
                } else {
                    r matches Err(e) && e.kind matches ErrorKind::StorageMapError(k) && k matches
                        crate::map::ErrorKind::MerkleTreeProofError(pe) && pe.kind
                        == crate::merkle_proof::ErrorKind::IndexOutOfRange
                }
            }),
    {
        match &self.holder {
            Some(VersionedStorageMap::V1(map)) => {
                proof {
                    map.lemma_wf_facts();
                }
                if leaf_index >= piece_count_of(map) {
                    return Err(BaseError::new(ErrorKind::StorageMapError(
                        crate::map::ErrorKind::MerkleTreeProofError(
                            crate::merkle_proof::Error::new(
                                crate::merkle_proof::ErrorKind::IndexOutOfRange,
                            ),
                        ),
                    )));
                }
                match map.prove(leaf_index) {
                    Ok(p) => Ok(p),
                    Err(e) => Err(wrap_map_error(e)),
                }
            },
            None => Err(BaseError::new(ErrorKind::StorageDoesNotExist)),
        }
    }

    pub fn handle_verify(&self, proof_arg: &Proof) -> (r: Result<(), Error>)
        requires
            self.map_wf(),
        ensures
            !self.holds_map() ==> (r matches Err(e) && e.kind matches
                ErrorKind::StorageDoesNotExist),
            self.held() matches Some(m) ==> (match r {
                Ok(_) => crate::tree::spec_verify(m.tree_model(), proof_arg@) is None,
                Err(e) => e.kind matches ErrorKind::StorageMapError(k) && k matches
                    crate::map::ErrorKind::MerkleTreeProofError(pe) && crate::tree::spec_verify(
                    m.tree_model(),
                    proof_arg@,
                ) == Some(pe.kind),
            }),
    {
        match &self.holder {
            Some(VersionedStorageMap::V1(map)) => match map.verify(proof_arg) {
                Ok(_) => Ok(()),
                Err(e) => Err(wrap_map_error(e)),
            },
            None => Err(BaseError::new(ErrorKind::StorageDoesNotExist)),
        }
    }
}

/// The held map's chunk size, in bytes.
fn chunk_size_of<R: Resource>(map: &StorageMap<R>) -> (r: usize)
    requires
        map.wf(),
    ensures
        r == map.spec_chunk_size(),
{
    map.chunk_size()
}

/// The held map's piece count.
fn piece_count_of<R: Resource>(map: &StorageMap<R>) -> (r: usize)
    requires
        map.wf(),
    ensures
        r == map.piece_count(),
{
    map.piece_count_val()
}

} // verus!
