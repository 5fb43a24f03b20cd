use vstd::prelude::*;

verus! {

use vstd::pervasive::VecAdditionalExecFns;

use crate::errors::{ErrorKind, StorageError};
use crate::shard::Shard;

/// The error kinds a resource may report: positioning and lower-level
/// faults, never the storage layer's own view or size diagnostics.
pub open spec fn resource_fault(k: ErrorKind) -> bool {
    ||| k matches ErrorKind::InvalidOffset(_)
    ||| k matches ErrorKind::IoError(_)
    ||| k matches ErrorKind::LocationError(_)
    ||| k matches ErrorKind::MemoryError(_)
    ||| k matches ErrorKind::Custom(_)
}

/// A sequence with a segment replaced, starting at `offset`.
pub open spec fn spec_splice(data: Seq<u8>, offset: int, x: Seq<u8>) -> Seq<u8> {
    data.take(offset) + x + data.skip(offset + x.len())
}

/// One backing byte container of fixed size, addressed by shards in its own
/// coordinates and identified by a textual location. The library ships an
/// in-memory implementation; implementations over an outside medium (files)
/// live with their callers and are trusted to meet these contracts.
pub trait Resource: Sized {
    /// The bytes the resource holds. An implementation over an outside
    /// medium may keep the default: its contents are then unknown to the
    /// contracts, which is exactly the trust placed in it.
    open spec fn contents(&self) -> Seq<u8> {
        Seq::empty()
    }

    /// The resource's location string.
    open spec fn location_view(&self) -> Seq<char> {
        Seq::empty()
    }

    /// Open an existing resource; fails when the location does not exist.
    fn open(location: &String) -> (r: Result<Self, StorageError>)
        ensures
            r matches Ok(res) ==> res.location_view() == location@,
            r matches Err(e) ==> resource_fault(e.kind),
    ;

    /// Create the resource with the given size, pre-allocated.
    fn create(location: &String, size: &usize) -> (r: Result<Self, StorageError>)
        ensures
            r matches Ok(res) ==> res.location_view() == location@ && res.contents().len()
                == *size,
            r matches Err(e) ==> resource_fault(e.kind),
    ;

    /// Whether a resource already exists at the location.
    fn exists_at(location: &String) -> bool;

    /// Size of the container at a location, read from its metadata.
    fn metadata_size(location: &String) -> (r: Result<usize, StorageError>)
        ensures
            r matches Err(e) ==> resource_fault(e.kind),
    ;

    fn size(&self) -> (r: usize)
        ensures
            r == self.contents().len(),
    ;

    fn location(&self) -> (r: String)
        ensures
            r@ == self.location_view(),
    ;

    /// Read the shard's range of bytes.
    fn read_at(&mut self, shard: &Shard) -> (r: Result<Vec<u8>, StorageError>)
        requires
            shard.start <= shard.end,
            shard.end <= old(self).contents().len(),
        ensures
            final(self).contents() == old(self).contents(),
            final(self).location_view() == old(self).location_view(),
            r matches Ok(v) ==> v@ == old(self).contents().subrange(
                shard.start as int,
                shard.end as int,
            ),
            r matches Err(e) ==> resource_fault(e.kind),
    ;

    /// Write the shard's range of bytes. A failed write may leave part of
    /// the range changed; bytes outside the range are never touched.
    fn write_at(&mut self, shard: &Shard, data: &Vec<u8>) -> (r: Result<usize, StorageError>)
        requires
            shard.start <= shard.end,
            shard.end <= old(self).contents().len(),
            data@.len() == shard.end - shard.start,
        ensures
            final(self).contents().len() == old(self).contents().len(),
            final(self).location_view() == old(self).location_view(),
            forall|i: int|
                0 <= i < old(self).contents().len() && !(shard.start <= i < shard.end)
                    ==> final(self).contents()[i] == old(self).contents()[i],
            r matches Ok(n) ==> n == shard.end - shard.start && final(self).contents()
                == spec_splice(old(self).contents(), shard.start as int, data@),
            r matches Err(e) ==> resource_fault(e.kind),
    ;
}

/// Size a memory resource opens with when no explicit size is given.
pub const DEFAULT_MEM_RESOURCE_SIZE: usize = 65536;

/// An in-memory resource: a byte vector filled with a deterministic
/// repeating pattern, standing in for a pre-allocated medium.
#[derive(Debug)]
pub struct MemResource {
    data: Vec<u8>,
    loc: String,
}

impl MemResource {
    fn filled(location: &String, size: usize) -> (r: MemResource)
        ensures
            r.loc@ == location@,
            r.data@.len() == size,
            forall|i: int| 0 <= i < size ==> r.data@[i] == (i % 256) as u8,
    {
        let mut data: Vec<u8> = Vec::new();
        let mut i: usize = 0;
        while i < size
            invariant
                i <= size,
                data@.len() == i,
                forall|j: int| 0 <= j < i ==> data@[j] == (j % 256) as u8,
            decreases size - i,
        {
            data.push((i % 256) as u8);
            i = i + 1;
        }
        MemResource { data, loc: location.clone() }
    }
}

impl Resource for MemResource {
    closed spec fn contents(&self) -> Seq<u8> {
        self.data@
    }

    closed spec fn location_view(&self) -> Seq<char> {
        self.loc@
    }

    /// Opening takes the default size; nothing persists between resources.
    fn open(location: &String) -> (r: Result<Self, StorageError>)
        ensures
            r matches Ok(res) && res.location_view() == location@ && res.contents().len()
                == DEFAULT_MEM_RESOURCE_SIZE,
    {
        Ok(Self::filled(location, DEFAULT_MEM_RESOURCE_SIZE))
    }

    fn create(location: &String, size: &usize) -> (r: Result<Self, StorageError>)
        ensures
            r matches Ok(res) && res.location_view() == location@ && res.contents().len() == *size
                && forall|i: int| 0 <= i < *size ==> res.contents()[i] == (i % 256) as u8,
    {
        Ok(Self::filled(location, *size))
    }

    fn exists_at(location: &String) -> (r: bool)
        ensures
            r == false,
    {
        false
    }

    fn metadata_size(location: &String) -> (r: Result<usize, StorageError>)
        ensures
            r matches Ok(n) && n == DEFAULT_MEM_RESOURCE_SIZE,
    {
        Ok(DEFAULT_MEM_RESOURCE_SIZE)
    }

    fn size(&self) -> (r: usize)
        ensures
            r == self.contents().len(),
    {
        self.data.len()
    }

    fn location(&self) -> (r: String)
        ensures
            r@ == self.location_view(),
    {
        self.loc.clone()
    }

    fn read_at(&mut self, shard: &Shard) -> (r: Result<Vec<u8>, StorageError>)
        ensures
            final(self).contents() == old(self).contents(),
            final(self).location_view() == old(self).location_view(),
            r matches Ok(v) && v@ == old(self).contents().subrange(
                shard.start as int,
                shard.end as int,
            ),
    {
        let mut v: Vec<u8> = Vec::new();
        let mut i: usize = shard.start;
        while i < shard.end
            invariant
                shard.start <= i <= shard.end,
                shard.end <= self.data@.len(),
                self == old(self),
                v@ =~= self.data@.subrange(shard.start as int, i as int),
            decreases shard.end - i,
        {
            v.push(self.data[i]);
            i = i + 1;
        }
        proof {
            assert(v@ =~= self.data@.subrange(shard.start as int, shard.end as int));
        }
        Ok(v)
    }

    fn write_at(&mut self, shard: &Shard, data: &Vec<u8>) -> (r: Result<usize, StorageError>)
        ensures
            final(self).contents().len() == old(self).contents().len(),
            final(self).location_view() == old(self).location_view(),
            forall|i: int|
                0 <= i < old(self).contents().len() && !(shard.start <= i < shard.end)
                    ==> final(self).contents()[i] == old(self).contents()[i],
            r matches Ok(n) && n == shard.end - shard.start && final(self).contents()
                == spec_splice(old(self).contents(), shard.start as int, data@),
    {
        let count = shard.end - shard.start;
        let mut i: usize = 0;
        while i < count
            invariant
                i <= count,
                count == shard.end - shard.start,
                shard.end <= self.data@.len(),
                data@.len() == count,
                self.data@.len() == old(self).data@.len(),
                self.loc == old(self).loc,
                forall|j: int|
                    0 <= j < self.data@.len() && !(shard.start <= j < shard.start + i)
                        ==> self.data@[j] == old(self).data@[j],
                forall|j: int| 0 <= j < i ==> self.data@[shard.start + j] == data@[j],
            decreases count - i,
        {
            self.data.set(shard.start + i, data[i]);
            i = i + 1;
        }
        proof {
            assert(self.data@ =~= spec_splice(old(self).data@, shard.start as int, data@));
        }
        Ok(count)
    }
}

} // verus!
