use vstd::prelude::*;

verus! {

use crate::errors::{Error, ErrorKind, StorageError};
use crate::resource::{resource_fault, spec_splice, Resource};
use crate::shard::Shard;
use crate::iter::StorageIterator;
use crate::view::{cum_sizes, shard_sum, spec_clamp, view_partition, UniformView};

/// Concatenation of a sequence of byte sequences, in order.
pub open spec fn spec_concat(parts: Seq<Seq<u8>>) -> Seq<u8>
    decreases parts.len(),
{
    if parts.len() == 0 {
        Seq::empty()
    } else {
        parts.first() + spec_concat(parts.drop_first())
    }
}

/// The byte length of each part.
pub open spec fn part_sizes(parts: Seq<Seq<u8>>) -> Seq<int> {
    parts.map_values(|p: Seq<u8>| p.len() as int)
}

/// Prefix sums only read the prefix.
pub proof fn lemma_cum_first(sizes: Seq<int>, i: int)
    requires
        1 <= i <= sizes.len(),
        sizes.len() >= 1,
    ensures
        cum_sizes(sizes, i) == sizes[0] + cum_sizes(sizes.drop_first(), i - 1),
    decreases i,
{
    if i == 1 {
        assert(cum_sizes(sizes, 1) == cum_sizes(sizes, 0) + sizes[0]);
        assert(cum_sizes(sizes.drop_first(), 0) == 0);
    } else {
        lemma_cum_first(sizes, i - 1);
        assert(cum_sizes(sizes, i) == cum_sizes(sizes, i - 1) + sizes[i - 1]);
        assert(cum_sizes(sizes.drop_first(), i - 1) == cum_sizes(sizes.drop_first(), i - 2)
            + sizes.drop_first()[i - 2]);
        assert(sizes.drop_first()[i - 2] == sizes[i - 1]);
    }
}

/// Prefix sums of non-negative sizes are non-negative and monotone.
pub proof fn lemma_cum_mono(sizes: Seq<int>, i: int, j: int)
    requires
        0 <= i <= j <= sizes.len(),
        forall|t: int| 0 <= t < sizes.len() ==> sizes[t] >= 0,
    ensures
        0 <= cum_sizes(sizes, i) <= cum_sizes(sizes, j),
    decreases j,
{
    if i < j {
        lemma_cum_mono(sizes, i, j - 1);
    } else if i > 0 {
        lemma_cum_mono(sizes, i - 1, i - 1);
    }
}

/// The concatenation's length is the sum of the part sizes.
pub proof fn lemma_concat_len(parts: Seq<Seq<u8>>)
    ensures
        spec_concat(parts).len() == cum_sizes(part_sizes(parts), parts.len() as int),
    decreases parts.len(),
{
    if parts.len() > 0 {
        lemma_concat_len(parts.drop_first());
        assert(part_sizes(parts.drop_first()) =~= part_sizes(parts).drop_first());
        lemma_cum_first(part_sizes(parts), parts.len() as int);
    }
}

/// Byte `j` of part `i` sits at global position `cum(i) + j`.
pub proof fn lemma_concat_index(parts: Seq<Seq<u8>>, i: int, j: int)
    requires
        0 <= i < parts.len(),
        0 <= j < parts[i].len(),
    ensures
        0 <= cum_sizes(part_sizes(parts), i),
        cum_sizes(part_sizes(parts), i) + j < spec_concat(parts).len(),
        spec_concat(parts)[cum_sizes(part_sizes(parts), i) + j] == parts[i][j],
    decreases i,
{
    lemma_concat_len(parts);
    lemma_cum_mono(part_sizes(parts), i, i);
    lemma_cum_mono(part_sizes(parts), i + 1, parts.len() as int);
    if i == 0 {
        assert(cum_sizes(part_sizes(parts), 0) == 0);
        assert(spec_concat(parts)[j] == parts.first()[j]);
    } else {
        lemma_concat_index(parts.drop_first(), i - 1, j);
        assert(part_sizes(parts.drop_first()) =~= part_sizes(parts).drop_first());
        lemma_cum_first(part_sizes(parts), i);
        assert(spec_concat(parts)[parts.first().len() + (cum_sizes(
            part_sizes(parts.drop_first()),
            i - 1,
        ) + j)] == spec_concat(parts.drop_first())[cum_sizes(part_sizes(parts.drop_first()), i - 1)
            + j]);
    }
}

/// Replacing one part with another of the same length leaves every byte
/// outside that part's global range unchanged.
pub proof fn lemma_concat_update_frame(parts: Seq<Seq<u8>>, i: int, q: Seq<u8>, g: int)
    requires
        0 <= i < parts.len(),
        q.len() == parts[i].len(),
        0 <= g < spec_concat(parts).len(),
        !(cum_sizes(part_sizes(parts), i) <= g < cum_sizes(part_sizes(parts), i) + q.len()),
    ensures
        spec_concat(parts.update(i, q)).len() == spec_concat(parts).len(),
        spec_concat(parts.update(i, q))[g] == spec_concat(parts)[g],
    decreases i,
{
    lemma_concat_update_len(parts, i, q);
    if i == 0 {
        assert(parts.update(0, q).first() == q);
        assert(parts.update(0, q).drop_first() =~= parts.drop_first());
        assert(g >= q.len());
    } else {
        assert(parts.update(i, q).first() == parts.first());
        assert(parts.update(i, q).drop_first() =~= parts.drop_first().update(i - 1, q));
        assert(part_sizes(parts.drop_first()) =~= part_sizes(parts).drop_first());
        lemma_cum_first(part_sizes(parts), i);
        if g < parts.first().len() {
            assert(spec_concat(parts.update(i, q))[g] == parts.first()[g]);
            assert(spec_concat(parts)[g] == parts.first()[g]);
        } else {
            lemma_concat_update_frame(parts.drop_first(), i - 1, q, g - parts.first().len());
        }
    }
}

/// Replacing one part preserves the total length.
pub proof fn lemma_concat_update_len(parts: Seq<Seq<u8>>, i: int, q: Seq<u8>)
    requires
        0 <= i < parts.len(),
        q.len() == parts[i].len(),
    ensures
        spec_concat(parts.update(i, q)).len() == spec_concat(parts).len(),
    decreases i,
{
    if i == 0 {
        assert(parts.update(0, q).first() == q);
        assert(parts.update(0, q).drop_first() =~= parts.drop_first());
    } else {
        assert(parts.update(i, q).first() == parts.first());
        assert(parts.update(i, q).drop_first() =~= parts.drop_first().update(i - 1, q));
        lemma_concat_update_len(parts.drop_first(), i - 1, q);
    }
}

/// Sum of the declared sizes of a list of items.
pub open spec fn items_total(items: Seq<(String, usize)>) -> int
    decreases items.len(),
{
    if items.len() == 0 {
        0
    } else {
        items_total(items.drop_last()) + items.last().1
    }
}

/// An ordered list of resources presenting one flat logical byte address
/// space: logical offset `k` falls into the resource whose cumulative size
/// range contains `k`. Insertion order is preserved; resources are
/// addressed by position, and construction does not key or deduplicate by
/// location.
pub struct GenericStorage<R> {
    name: String,
    resources: Vec<R>,
    total_size: usize,
}

impl<R: Resource> GenericStorage<R> {
    /// The contents of each resource, in order.
    pub closed spec fn parts(&self) -> Seq<Seq<u8>> {
        self.resources@.map_values(|r: R| r.contents())
    }

    /// The whole logical byte space.
    pub open spec fn data(&self) -> Seq<u8> {
        spec_concat(self.parts())
    }

    /// The size of each resource, in order.
    pub open spec fn sizes(&self) -> Seq<int> {
        part_sizes(self.parts())
    }

    /// The location of each resource, in order.
    pub closed spec fn locations(&self) -> Seq<Seq<char>> {
        self.resources@.map_values(|r: R| r.location_view())
    }

    pub closed spec fn spec_name(&self) -> Seq<char> {
        self.name@
    }

    pub closed spec fn spec_total(&self) -> int {
        self.total_size as int
    }

    /// The recorded total size matches the resources.
    pub closed spec fn wf(&self) -> bool {
        self.total_size as int == self.data().len()
    }

    pub proof fn lemma_wf_facts(&self)
        requires
            self.wf(),
        ensures
            self.spec_total() == self.data().len(),
            self.sizes().len() == self.locations().len(),
            forall|i: int| 0 <= i < self.sizes().len() ==> self.sizes()[i] >= 0,
    {
    }

    /// The declared size of every item, read from resource metadata.
    pub fn collect(items: &Vec<String>) -> (r: Result<Vec<(String, usize)>, StorageError>)
        ensures
            r matches Ok(v) ==> v@.len() == items@.len() && forall|i: int|
                0 <= i < v@.len() ==> (#[trigger] v@[i]).0@ == items@[i]@,
    {
        let mut results: Vec<(String, usize)> = Vec::new();
        let mut i: usize = 0;
        while i < items.len()
            invariant
                i <= items@.len(),
                results@.len() == i,
                forall|j: int| 0 <= j < i ==> (#[trigger] results@[j]).0@ == items@[j]@,
            decreases items@.len() - i,
        {
            let location = &items[i];
            match R::metadata_size(location) {
                Ok(size) => {
                    results.push((location.clone(), size));
                },
                Err(e) => {
                    return Err(e);
                },
            }
            i = i + 1;
        }
        Ok(results)
    }

    /// Open each item's resource if it exists, else create it at the
    /// declared size; fail with a size mismatch when an existing resource's
    /// actual size differs from the declared one. Order is preserved.
    pub fn new(name: String, items: Vec<(String, usize)>) -> (r: Result<Self, StorageError>)
        requires
            items_total(items@) <= usize::MAX,
        ensures
            r matches Ok(s) ==> {
                &&& s.wf()
                &&& s.spec_name() == name@
                &&& s.sizes().len() == items@.len()
                &&& forall|i: int|
                    0 <= i < items@.len() ==> s.sizes()[i] == (#[trigger] items@[i]).1 as int
                &&& forall|i: int|
                    0 <= i < items@.len() ==> s.locations()[i] == (#[trigger] items@[i]).0@
            },
            r matches Err(e) ==> (e.kind matches ErrorKind::SizeMismatch(a, d) ==> a != d),
    {
        let mut storage = GenericStorage { name, resources: Vec::new(), total_size: 0 };
        let ghost gname = storage.name@;
        let mut i: usize = 0;
        proof {
            assert(storage.parts() =~= Seq::<Seq<u8>>::empty());
            assert(spec_concat(Seq::<Seq<u8>>::empty()) =~= Seq::<u8>::empty());
            assert(items@.skip(0) =~= items@);
        }
        while i < items.len()
            invariant
                i <= items@.len(),
                storage.wf(),
                storage.name@ == gname,
                storage.resources@.len() == i,
                storage.spec_total() + items_total(items@.skip(i as int)) <= usize::MAX,
                forall|j: int|
                    0 <= j < i ==> storage.sizes()[j] == (#[trigger] items@[j]).1 as int,
                forall|j: int|
                    0 <= j < i ==> storage.locations()[j] == (#[trigger] items@[j]).0@,
            decreases items@.len() - i,
        {
            proof {
                lemma_items_total_skip(items@, i as int);
            }
            let location = &items[i].0;
            let size = items[i].1;
            let resource = if R::exists_at(location) {
                match R::open(location) {
                    Ok(res) => res,
                    Err(e) => {
                        return Err(e);
                    },
                }
            } else {
                match R::create(location, &size) {
                    Ok(res) => res,
                    Err(e) => {
                        return Err(e);
                    },
                }
            };

            if resource.size() != size {
                return Err(Error::new(ErrorKind::SizeMismatch(resource.size(), size)));
            }

            let ghost old_parts = storage.parts();
            let ghost rc = resource.contents();
            storage.total_size = storage.total_size + size;
            storage.resources.push(resource);
            proof {
                assert(storage.parts() =~= old_parts.push(rc));
                lemma_concat_push(old_parts, rc);
                assert forall|j: int| 0 <= j < i + 1 implies storage.sizes()[j] == (
                #[trigger] items@[j]).1 as int by {
                    if j < i {
                        assert(old_parts[j] == storage.parts()[j]);
                    }
                }
                assert forall|j: int| 0 <= j < i + 1 implies storage.locations()[j] == (
                #[trigger] items@[j]).0@ by {}
            }
            i = i + 1;
        }
        proof {
            assert(items@.skip(i as int) =~= Seq::<(String, usize)>::empty());
        }
        Ok(storage)
    }

    pub fn name(&self) -> (r: &String)
        ensures
            r@ == self.spec_name(),
    {
        &self.name
    }

    pub fn size(&self) -> (r: usize)
        requires
            self.wf(),
        ensures
            r == self.data().len(),
    {
        self.total_size
    }

    /// The view of the logical range `[offset, offset + size)`: the ordered
    /// shards it maps to. Building succeeds exactly when the range lies
    /// within the address space (an empty range always does).
    pub fn view_range(&self, offset: usize, size: usize) -> (r: Result<
        Vec<(usize, Shard)>,
        StorageError,
    >)
        requires
            self.wf(),
            offset + size <= usize::MAX,
        ensures
            (size == 0 || offset + size <= self.data().len()) <==> r is Ok,
            r matches Ok(v) ==> view_partition(v@, self.sizes(), offset as int, size as int),
            size == 0 ==> (r matches Ok(v) && v@.len() == 0),
            r matches Err(e) ==> (e.kind matches ErrorKind::ViewBuildError(s, en, _o) && s
                == offset && en == offset + size),
    {
        proof {
            self.lemma_wf_facts();
            lemma_concat_len(self.parts());
        }
        let mut builder = UniformView::new(offset, offset + size);
        let mut i: usize = 0;
        let mut done = false;

        while i < self.resources.len() && !done
            invariant
                self.wf(),
                i <= self.resources@.len(),
                builder.wf(),
                builder.spec_start() == offset,
                builder.spec_end() == offset + size,
                builder.sizes_seen() =~= self.sizes().take(i as int),
                builder.spec_offset() == cum_sizes(self.sizes(), i as int),
                builder.spec_consumed() == spec_clamp(
                    builder.spec_offset() - offset,
                    size as int,
                ),
                size == 0 ==> builder.entries().len() == 0,
                done ==> builder.spec_consumed() == builder.spec_len(),
            decreases self.resources@.len() - i, (if done { 0int } else { 1int }),
        {
            proof {
                self.lemma_wf_facts();
                lemma_concat_len(self.parts());
                lemma_cum_mono(self.sizes(), i as int, i as int);
                lemma_cum_mono(self.sizes(), i + 1, self.sizes().len() as int);
                assert(cum_sizes(self.sizes(), i + 1) == cum_sizes(self.sizes(), i as int)
                    + self.sizes()[i as int]);
            }
            let sz = self.resources[i].size();
            let cont = builder.add(sz);
            proof {
                assert(builder.sizes_seen() =~= self.sizes().take(i + 1));
            }
            if !cont {
                done = true;
            }
            i = i + 1;
        }

        let ghost seen = builder.sizes_seen();
        let ghost b_consumed = builder.spec_consumed();
        let ghost b_offset = builder.spec_offset();
        let ghost steps = i as int;

        proof {
            self.lemma_wf_facts();
            lemma_concat_len(self.parts());
            let k = seen.len() as int;
            assert(k == steps);
            lemma_cum_mono(self.sizes(), k, self.sizes().len() as int);
            if !done {
                assert(seen =~= self.sizes());
            }
            if b_consumed == size {
                if size > 0 {
                    // the walk covered the whole range, which therefore lies
                    // inside the address space
                    assert(b_offset >= offset + size);
                    assert(b_offset == cum_sizes(self.sizes(), k));
                    assert(offset + size <= self.data().len());
                }
            } else {
                // the walk ran out of resources short of the range's end
                assert(!done);
                assert(b_offset == cum_sizes(self.sizes(), self.sizes().len() as int));
                assert(b_offset == self.data().len());
                assert(size > 0 && offset + size > self.data().len());
            }
        }

        match builder.build() {
            Ok(v) => {
                proof {
                    reveal(view_partition);
                    let k = seen.len() as int;
                    assert(view_partition(v@, seen, offset as int, size as int));
                    assert forall|t: int| 0 <= t < v@.len() implies {
                        &&& (#[trigger] v@[t]).0 < self.sizes().len()
                        &&& v@[t].1.start <= v@[t].1.end
                        &&& v@[t].1.end <= self.sizes()[v@[t].0 as int]
                        &&& cum_sizes(self.sizes(), v@[t].0 as int) + v@[t].1.start == offset
                            + shard_sum(v@.take(t))
                    } by {
                        let idx = v@[t].0 as int;
                        assert(idx < seen.len());
                        lemma_cum_take(self.sizes(), k, idx);
                        assert(seen =~= self.sizes().take(k));
                        assert(seen[idx] == self.sizes()[idx]);
                    }
                    assert(view_partition(v@, self.sizes(), offset as int, size as int));
                }
                Ok(v)
            },
            Err(e) => Err(e),
        }
    }

    /// A lazy sequence of fixed-size blocks spanning the address space.
    pub fn iter(&self, block_size: usize) -> (r: StorageIterator)
        requires
            block_size >= 1,
        ensures
            r.spec_block_size() == block_size,
            r.spec_offset() == 0,
    {
        StorageIterator::new(block_size)
    }

    /// The location of every resource, in order.
    pub fn location_list(&self) -> (r: Vec<String>)
        ensures
            r@.len() == self.locations().len(),
            forall|i: int| 0 <= i < r@.len() ==> (#[trigger] r@[i])@ == self.locations()[i],
    {
        let mut r: Vec<String> = Vec::new();
        let mut i: usize = 0;
        let n = self.resources.len();
        while i < n
            invariant
                n == self.resources@.len(),
                i <= n,
                r@.len() == i,
                forall|t: int| 0 <= t < i ==> (#[trigger] r@[t])@ == self.locations()[t],
            decreases n - i,
        {
            r.push(self.resources[i].location());
            i = i + 1;
        }
        r
    }

    /// Re-open every resource by location, taking each one's size from the
    /// live medium.
    pub fn from_locations(name: String, locations: &Vec<String>) -> (r: Result<Self, StorageError>)
        ensures
            r matches Ok(s) ==> {
                &&& s.wf()
                &&& s.spec_name() == name@
                &&& s.locations().len() == locations@.len()
                &&& forall|i: int|
                    0 <= i < locations@.len() ==> s.locations()[i] == (#[trigger] locations@[i])@
            },
    {
        let mut storage = GenericStorage { name, resources: Vec::new(), total_size: 0 };
        let ghost gname = storage.name@;
        let mut i: usize = 0;
        proof {
            assert(storage.parts() =~= Seq::<Seq<u8>>::empty());
            assert(spec_concat(Seq::<Seq<u8>>::empty()) =~= Seq::<u8>::empty());
        }
        while i < locations.len()
            invariant
                i <= locations@.len(),
                storage.wf(),
                storage.name@ == gname,
                storage.resources@.len() == i,
                forall|j: int|
                    0 <= j < i ==> storage.locations()[j] == (#[trigger] locations@[j])@,
            decreases locations@.len() - i,
        {
            let resource = match R::open(&locations[i]) {
                Ok(res) => res,
                Err(e) => {
                    return Err(e);
                },
            };
            let size = resource.size();
            if size > usize::MAX - storage.total_size {
                return Err(Error::new(ErrorKind::SizeMismatch(size, usize::MAX)));
            }

            let ghost old_parts = storage.parts();
            let ghost rc = resource.contents();
            storage.total_size = storage.total_size + size;
            storage.resources.push(resource);
            proof {
                assert(storage.parts() =~= old_parts.push(rc));
                lemma_concat_push(old_parts, rc);
                assert forall|j: int| 0 <= j < i + 1 implies storage.locations()[j] == (
                #[trigger] locations@[j])@ by {}
            }
            i = i + 1;
        }
        Ok(storage)
    }

    /// Read `len` bytes at logical `offset`: translate the range into
    /// shards and read each one in order.
    pub fn read(&mut self, offset: usize, len: usize) -> (r: Result<Vec<u8>, StorageError>)
        requires
            old(self).wf(),
            offset + len <= usize::MAX,
        ensures
            final(self).wf(),
            final(self).data() == old(self).data(),
            final(self).sizes() == old(self).sizes(),
            final(self).locations() == old(self).locations(),
            final(self).spec_name() == old(self).spec_name(),
            r matches Ok(v) ==> v@.len() == len,
            r matches Ok(v) ==> (offset + len <= old(self).data().len() ==> v@ == old(
                self,
            ).data().subrange(offset as int, offset + len)),
            len > 0 && offset + len > old(self).data().len() ==> r is Err,
            len == 0 ==> r is Ok,
            r matches Err(e) ==> (e.kind matches ErrorKind::ViewBuildError(_s, _en, _o) ==> len > 0
                && offset + len > old(self).data().len()),
    {
        let ghost old_sizes = self.sizes();
        let ghost old_parts = self.parts();
        let ghost old_data = self.data();
        proof {
            self.lemma_wf_facts();
            lemma_concat_len(old_parts);
        }
        let view = match self.view_range(offset, len) {
            Ok(v) => v,
            Err(e) => {
                return Err(e);
            },
        };

        if len == 0 {
            proof {
                if offset <= old_data.len() {
                    assert(Seq::<u8>::empty() =~= old_data.subrange(offset as int, offset as int));
                }
            }
            return Ok(Vec::new());
        }

        let mut result: Vec<u8> = Vec::new();
        let mut t: usize = 0;
        while t < view.len()
            invariant
                self.wf(),
                self.parts() == old_parts,
                self.sizes() == old_sizes,
                self.locations() == old(self).locations(),
                self.spec_name() == old(self).spec_name(),
                old(self).parts() == old_parts,
                old_data == spec_concat(old_parts),
                old_sizes == part_sizes(old_parts),
                t <= view@.len(),
                offset + len <= usize::MAX,
                len > 0,
                offset + len <= old_data.len(),
                view_partition(view@, old_sizes, offset as int, len as int),
                result@.len() == shard_sum(view@.take(t as int)),
                result@ == old_data.subrange(
                    offset as int,
                    offset + shard_sum(view@.take(t as int)),
                ),
            decreases view@.len() - t,
        {
            let ghost sum_t = shard_sum(view@.take(t as int));
            let idx = view[t].0;
            let shard = view[t].1;
            proof {
                lemma_partition_segment(old_parts, view@, t as int, offset as int, len as int);
            }

            let seg_result = self.read_entry(idx, &shard);
            let seg = match seg_result {
                Ok(v) => v,
                Err(e) => {
                    return Err(e);
                },
            };
            result.extend_from_slice(seg.as_slice());
            proof {
                let c = shard.end - shard.start;
                assert(shard_sum(view@.take(t + 1)) == sum_t + c) by {
                    assert(view@.take(t + 1).drop_last() =~= view@.take(t as int));
                    assert(view@.take(t + 1).last() == view@[t as int]);
                };
                assert(result@ =~= old_data.subrange(offset as int, offset + sum_t + c)) by {
                    assert(seg@ == old_data.subrange(offset + sum_t, offset + sum_t + c));
                };
            }
            t = t + 1;
        }

        proof {
            assert(shard_sum(view@) == len) by {
                reveal(view_partition);
            };
            assert(view@.take(view@.len() as int) =~= view@);
            assert(result@.len() == len);
        }
        Ok(result)
    }

    /// Read one shard of a view.
    fn read_entry(&mut self, idx: usize, shard: &Shard) -> (r: Result<Vec<u8>, StorageError>)
        requires
            old(self).wf(),
            idx < old(self).sizes().len(),
            shard.start <= shard.end,
            shard.end <= old(self).sizes()[idx as int],
        ensures
            final(self).wf(),
            final(self).parts() == old(self).parts(),
            final(self).sizes() == old(self).sizes(),
            final(self).locations() == old(self).locations(),
            final(self).spec_name() == old(self).spec_name(),
            r matches Ok(v) ==> v@ == old(self).parts()[idx as int].subrange(
                shard.start as int,
                shard.end as int,
            ),
            r matches Err(e) ==> resource_fault(e.kind),
    {
        let res = self.resources[idx].read_at(shard);
        proof {
            assert(self.parts() =~= old(self).parts());
            assert(self.locations() =~= old(self).locations());
        }
        res
    }

    /// Write one shard of a view; on success the shard's global range holds
    /// the given bytes, and in every case all bytes outside it are kept.
    fn write_entry(&mut self, idx: usize, shard: &Shard, seg: &Vec<u8>) -> (r: Result<
        usize,
        StorageError,
    >)
        requires
            old(self).wf(),
            idx < old(self).sizes().len(),
            shard.start <= shard.end,
            shard.end <= old(self).sizes()[idx as int],
            seg@.len() == shard.end - shard.start,
        ensures
            final(self).wf(),
            final(self).sizes() == old(self).sizes(),
            final(self).locations() == old(self).locations(),
            final(self).spec_name() == old(self).spec_name(),
            final(self).data().len() == old(self).data().len(),
            forall|g: int|
                0 <= g < old(self).data().len() && !(cum_sizes(old(self).sizes(), idx as int)
                    + shard.start <= g < cum_sizes(old(self).sizes(), idx as int) + shard.end)
                    ==> final(self).data()[g] == old(self).data()[g],
            r is Ok ==> forall|j: int|
                0 <= j < shard.end - shard.start ==> #[trigger] final(self).data()[cum_sizes(
                    old(self).sizes(),
                    idx as int,
                ) + shard.start + j] == seg@[j],
            r matches Err(e) ==> resource_fault(e.kind),
    {
        let ghost pre_parts = self.parts();
        let ghost gidx = idx as int;
        let ghost cum_idx = cum_sizes(part_sizes(pre_parts), gidx);
        proof {
            self.lemma_wf_facts();
            lemma_concat_len(pre_parts);
            lemma_cum_mono(part_sizes(pre_parts), gidx, gidx);
            lemma_cum_mono(part_sizes(pre_parts), gidx + 1, pre_parts.len() as int);
        }

        let wrote = self.resources[idx].write_at(shard, seg);

        proof {
            let post_parts = self.parts();
            let q = post_parts[gidx];
            assert(post_parts =~= pre_parts.update(gidx, q));
            assert(q.len() == pre_parts[gidx].len());
            assert(part_sizes(post_parts) =~= part_sizes(pre_parts));
            assert(self.locations() =~= old(self).locations());
            lemma_concat_update_len(pre_parts, gidx, q);
            assert forall|g: int|
                0 <= g < spec_concat(pre_parts).len() && !(cum_idx + shard.start <= g < cum_idx
                    + shard.end) implies spec_concat(post_parts)[g] == spec_concat(
                pre_parts,
            )[g] by {
                if cum_idx <= g < cum_idx + pre_parts[gidx].len() {
                    let j = g - cum_idx;
                    lemma_concat_index(pre_parts, gidx, j);
                    lemma_concat_index(post_parts, gidx, j);
                    assert(cum_sizes(part_sizes(post_parts), gidx) == cum_idx);
                    assert(post_parts[gidx][j] == pre_parts[gidx][j]);
                } else {
                    lemma_concat_update_frame(pre_parts, gidx, q, g);
                }
            }
            if wrote is Ok {
                assert(post_parts[gidx] == spec_splice(pre_parts[gidx], shard.start as int, seg@));
                assert forall|j: int| 0 <= j < shard.end - shard.start implies #[trigger] spec_concat(
                    post_parts,
                )[cum_idx + shard.start + j] == seg@[j] by {
                    lemma_concat_index(post_parts, gidx, shard.start + j);
                    assert(cum_sizes(part_sizes(post_parts), gidx) == cum_idx);
                    assert(spec_splice(pre_parts[gidx], shard.start as int, seg@)[shard.start + j]
                        == seg@[j]);
                }
            }
        }
        wrote
    }

    /// Write the given bytes at logical `offset`: translate the range into
    /// shards and write each one in order. A failed write may leave the
    /// bytes of earlier shards in place; bytes outside the addressed range
    /// are never touched.
    pub fn write(&mut self, offset: usize, from: &Vec<u8>) -> (r: Result<usize, StorageError>)
        requires
            old(self).wf(),
            offset + from@.len() <= usize::MAX,
        ensures
            final(self).wf(),
            final(self).data().len() == old(self).data().len(),
            final(self).sizes() == old(self).sizes(),
            final(self).locations() == old(self).locations(),
            final(self).spec_name() == old(self).spec_name(),
            forall|g: int|
                0 <= g < old(self).data().len() && !(offset <= g < offset + from@.len())
                    ==> final(self).data()[g] == old(self).data()[g],
            r matches Ok(n) ==> n == from@.len(),
            r is Ok && from@.len() > 0 ==> final(self).data() == spec_splice(
                old(self).data(),
                offset as int,
                from@,
            ),
            r is Ok && from@.len() == 0 ==> final(self).data() == old(self).data(),
            from@.len() == 0 ==> r is Ok,
            from@.len() > 0 && offset + from@.len() > old(self).data().len() ==> r is Err
                && final(self).data() == old(self).data(),
            r matches Err(e) ==> (e.kind matches ErrorKind::ViewBuildError(_s, _en, _o)
                ==> from@.len() > 0 && offset + from@.len() > old(self).data().len()),
    {
        let len = from.len();
        let ghost old_sizes = self.sizes();
        let ghost old_data = self.data();
        proof {
            self.lemma_wf_facts();
            lemma_concat_len(self.parts());
        }
        let view = match self.view_range(offset, len) {
            Ok(v) => v,
            Err(e) => {
                return Err(e);
            },
        };

        if len == 0 {
            return Ok(0);
        }

        let mut pos: usize = 0;
        let mut t: usize = 0;
        while t < view.len()
            invariant
                self.wf(),
                self.sizes() == old_sizes,
                self.locations() == old(self).locations(),
                self.spec_name() == old(self).spec_name(),
                self.data().len() == old_data.len(),
                old(self).data() == old_data,
                old(self).sizes() == old_sizes,
                old_data.len() == spec_concat(old(self).parts()).len(),
                from@.len() == len,
                offset + len <= usize::MAX,
                len > 0,
                offset + len <= old_data.len(),
                view_partition(view@, old_sizes, offset as int, len as int),
                t <= view@.len(),
                pos == shard_sum(view@.take(t as int)),
                forall|g: int|
                    0 <= g < old_data.len() && !(offset <= g < offset + pos) ==> self.data()[g]
                        == old_data[g],
                forall|j: int| 0 <= j < pos ==> #[trigger] self.data()[offset + j] == from@[j],
            decreases view@.len() - t,
        {
            let ghost sum_t = shard_sum(view@.take(t as int));
            let ghost pre_data = self.data();
            let idx = view[t].0;
            let shard = view[t].1;

            proof {
                lemma_concat_len(self.parts());
                lemma_partition_segment(self.parts(), view@, t as int, offset as int, len as int);
                assert(shard_sum(view@.take(t + 1)) == sum_t + (shard.end - shard.start)) by {
                    assert(view@.take(t + 1).drop_last() =~= view@.take(t as int));
                    assert(view@.take(t + 1).last() == view@[t as int]);
                };
                lemma_shard_sum_mono(view@, t + 1, view@.len() as int);
                assert(view@.take(view@.len() as int) =~= view@);
                assert(shard_sum(view@) == len) by {
                    reveal(view_partition);
                };
            }

            let c = shard.end - shard.start;
            let seg = copy_range(from, pos, pos + c);
            let ghost cum_idx = cum_sizes(old_sizes, idx as int);

            match self.write_entry(idx, &shard, &seg) {
                Ok(_) => {
                    proof {
                        assert(cum_idx + shard.start == offset + sum_t);
                        assert forall|j: int| 0 <= j < pos + c implies #[trigger] self.data()[offset
                            + j] == from@[j] by {
                            if j < pos {
                                assert(self.data()[offset + j] == pre_data[offset + j]);
                            } else {
                                assert(self.data()[cum_idx + shard.start + (j - pos)] == seg@[j
                                    - pos]);
                            }
                        }
                    }
                    pos = pos + c;
                    t = t + 1;
                },
                Err(e) => {
                    return Err(e);
                },
            }
        }

        proof {
            assert(shard_sum(view@) == len) by {
                reveal(view_partition);
            };
            assert(view@.take(view@.len() as int) =~= view@);
            assert(pos == len);
            lemma_splice_from_pointwise(self.data(), old_data, offset as int, from@);
        }
        Ok(len)
    }
}

/// The global range of entry `t` of a complete view sits inside the
/// addressed range, and carries exactly that entry's resource bytes.
#[verifier::rlimit(100)]
#[verifier::spinoff_prover]
pub proof fn lemma_partition_segment(
    parts: Seq<Seq<u8>>,
    entries: Seq<(usize, Shard)>,
    t: int,
    start: int,
    length: int,
)
    requires
        view_partition(entries, part_sizes(parts), start, length),
        0 <= t < entries.len(),
        0 <= start,
        start + length <= spec_concat(parts).len(),
    ensures
        ({
            let idx = entries[t].0 as int;
            let sh = entries[t].1;
            let pos = start + shard_sum(entries.take(t));
            &&& idx < parts.len()
            &&& sh.start <= sh.end
            &&& sh.end <= parts[idx].len()
            &&& start <= pos
            &&& pos + (sh.end - sh.start) <= start + length
            &&& cum_sizes(part_sizes(parts), idx) + sh.start == pos
            &&& spec_concat(parts).subrange(pos, pos + (sh.end - sh.start)) == parts[idx].subrange(
                sh.start as int,
                sh.end as int,
            )
        }),
{
    reveal(view_partition);
    let idx = entries[t].0 as int;
    let sh = entries[t].1;
    let pos = start + shard_sum(entries.take(t));
    let c = sh.end - sh.start;
    assert(part_sizes(parts)[idx] == parts[idx].len());
    lemma_shard_sum_mono(entries, 0, t);
    lemma_shard_sum_mono(entries, t + 1, entries.len() as int);
    assert(entries.take(entries.len() as int) =~= entries);
    assert(shard_sum(entries.take(t + 1)) == shard_sum(entries.take(t)) + c) by {
        assert(entries.take(t + 1).drop_last() =~= entries.take(t));
        assert(entries.take(t + 1).last() == entries[t]);
    };
    lemma_concat_len(parts);
    let sub_l = spec_concat(parts).subrange(pos, pos + c);
    let sub_r = parts[idx].subrange(sh.start as int, sh.end as int);
    assert forall|j: int| 0 <= j < c implies #[trigger] sub_l[j] == sub_r[j] by {
        lemma_concat_index(parts, idx, sh.start + j);
        assert(cum_sizes(part_sizes(parts), idx) + sh.start == pos);
        assert(sub_l[j] == spec_concat(parts)[pos + j]);
        assert(spec_concat(parts)[cum_sizes(part_sizes(parts), idx) + (sh.start + j)]
            == parts[idx][sh.start + j]);
        assert(sub_r[j] == parts[idx][sh.start + j]);
    }
    assert(sub_l =~= sub_r);
}

/// Shard sums of prefixes are non-negative and monotone.
pub proof fn lemma_shard_sum_mono(entries: Seq<(usize, Shard)>, t1: int, t2: int)
    requires
        0 <= t1 <= t2 <= entries.len(),
    ensures
        0 <= shard_sum(entries.take(t1)) <= shard_sum(entries.take(t2)),
    decreases t2,
{
    if t1 < t2 {
        lemma_shard_sum_mono(entries, t1, t2 - 1);
        assert(entries.take(t2).drop_last() =~= entries.take(t2 - 1));
    } else if t1 > 0 {
        lemma_shard_sum_mono(entries, t1 - 1, t1 - 1);
        assert(entries.take(t1).drop_last() =~= entries.take(t1 - 1));
    } else {
        assert(entries.take(0) =~= Seq::<(usize, Shard)>::empty());
    }
}

/// The bytes a range addresses: writing a range and reading it back yields
/// the written bytes, and a write changes nothing else of the store.
pub proof fn lemma_write_read_identity(data: Seq<u8>, offset: int, x: Seq<u8>)
    requires
        0 <= offset,
        offset + x.len() <= data.len(),
    ensures
        spec_splice(data, offset, x).len() == data.len(),
        spec_splice(data, offset, x).subrange(offset, offset + x.len()) == x,
        forall|g: int|
            0 <= g < data.len() && !(offset <= g < offset + x.len()) ==> spec_splice(
                data,
                offset,
                x,
            )[g] == data[g],
{
    assert(spec_splice(data, offset, x).subrange(offset, offset + x.len()) =~= x);
}

/// A sequence that agrees with `dold` outside the window and holds `x`
/// inside it is exactly the splice of `x` into `dold`.
pub proof fn lemma_splice_from_pointwise(dnew: Seq<u8>, dold: Seq<u8>, offset: int, x: Seq<u8>)
    requires
        dnew.len() == dold.len(),
        0 <= offset,
        offset + x.len() <= dold.len(),
        forall|g: int|
            0 <= g < dold.len() && !(offset <= g < offset + x.len()) ==> dnew[g] == dold[g],
        forall|j: int| 0 <= j < x.len() ==> #[trigger] dnew[offset + j] == x[j],
    ensures
        dnew == spec_splice(dold, offset, x),
{
    assert forall|g: int| 0 <= g < dnew.len() implies dnew[g] == spec_splice(dold, offset, x)[g] by {
        if offset <= g < offset + x.len() {
            assert(dnew[offset + (g - offset)] == x[g - offset]);
        }
    }
    assert(dnew =~= spec_splice(dold, offset, x));
}

/// Copy of the bytes `[a, b)` of a vector.
fn copy_range(src: &Vec<u8>, a: usize, b: usize) -> (r: Vec<u8>)
    requires
        a <= b,
        b <= src@.len(),
    ensures
        r@ == src@.subrange(a as int, b as int),
{
    let mut r: Vec<u8> = Vec::new();
    let mut i: usize = a;
    while i < b
        invariant
            a <= i <= b,
            b <= src@.len(),
            r@ =~= src@.subrange(a as int, i as int),
        decreases b - i,
    {
        r.push(src[i]);
        i = i + 1;
    }
    proof {
        assert(r@ =~= src@.subrange(a as int, b as int));
    }
    r
}

/// Prefix sums only read the first `i` sizes.
pub proof fn lemma_cum_take(sizes: Seq<int>, k: int, i: int)
    requires
        0 <= i <= k <= sizes.len(),
    ensures
        cum_sizes(sizes.take(k), i) == cum_sizes(sizes, i),
    decreases i,
{
    if i > 0 {
        lemma_cum_take(sizes, k, i - 1);
    }
}

/// Skipping one item removes its size from the total.
pub proof fn lemma_items_total_skip(items: Seq<(String, usize)>, i: int)
    requires
        0 <= i < items.len(),
    ensures
        items_total(items.skip(i)) == items[i].1 + items_total(items.skip(i + 1)),
        items_total(items.skip(i)) >= 0,
        items_total(items.skip(i + 1)) >= 0,
    decreases items.len() - i,
{
    lemma_items_total_nonneg(items.skip(i + 1));
    lemma_items_total_first(items.skip(i));
    assert(items.skip(i).first() == items[i]);
    assert(items.skip(i).drop_first() =~= items.skip(i + 1));
}

/// A total over fewer items is no larger.
pub proof fn lemma_items_total_nonneg(items: Seq<(String, usize)>)
    ensures
        items_total(items) >= 0,
    decreases items.len(),
{
    if items.len() > 0 {
        lemma_items_total_nonneg(items.drop_last());
    }
}

/// The total equals the first item's size plus the rest.
pub proof fn lemma_items_total_first(items: Seq<(String, usize)>)
    requires
        items.len() >= 1,
    ensures
        items_total(items) == items.first().1 + items_total(items.drop_first()),
    decreases items.len(),
{
    if items.len() == 1 {
        assert(items.drop_last() =~= Seq::<(String, usize)>::empty());
        assert(items.drop_first() =~= Seq::<(String, usize)>::empty());
    } else {
        lemma_items_total_first(items.drop_last());
        assert(items.drop_last().drop_first() =~= items.drop_first().drop_last());
        assert(items.drop_last().first() == items.first());
        assert(items.drop_first().last() == items.last());
    }
}

/// Appending a part appends its bytes to the concatenation.
pub proof fn lemma_concat_push(parts: Seq<Seq<u8>>, q: Seq<u8>)
    ensures
        spec_concat(parts.push(q)) == spec_concat(parts) + q,
    decreases parts.len(),
{
    if parts.len() == 0 {
        assert(parts.push(q).first() == q);
        assert(parts.push(q).drop_first() =~= Seq::<Seq<u8>>::empty());
        assert(spec_concat(Seq::<Seq<u8>>::empty()) =~= Seq::<u8>::empty());
        assert(spec_concat(parts) =~= Seq::<u8>::empty());
        assert(spec_concat(parts.push(q)) =~= q + Seq::<u8>::empty());
        assert(spec_concat(parts.push(q)) =~= spec_concat(parts) + q);
    } else {
        assert(parts.push(q).first() == parts.first());
        assert(parts.push(q).drop_first() =~= parts.drop_first().push(q));
        lemma_concat_push(parts.drop_first(), q);
        assert(spec_concat(parts.push(q)) =~= spec_concat(parts) + q);
    }
}

} // verus!
