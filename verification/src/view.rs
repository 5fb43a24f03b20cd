use vstd::prelude::*;

verus! {

use crate::errors::{Error, ErrorKind, StorageError};
use crate::shard::{Shard, Size};

/// Sum of the sizes of the first `i` resources.
pub open spec fn cum_sizes(sizes: Seq<int>, i: int) -> int
    decreases i,
{
    if i <= 0 {
        0
    } else {
        cum_sizes(sizes, i - 1) + sizes[i - 1]
    }
}

/// Appending a size leaves earlier prefix sums unchanged.
pub proof fn lemma_cum_push(sizes: Seq<int>, x: int, i: int)
    requires
        0 <= i <= sizes.len(),
    ensures
        cum_sizes(sizes.push(x), i) == cum_sizes(sizes, i),
    decreases i,
{
    if i > 0 {
        lemma_cum_push(sizes, x, i - 1);
    }
}

/// Total bytes covered by a sequence of view entries.
pub open spec fn shard_sum(entries: Seq<(usize, Shard)>) -> int
    decreases entries.len(),
{
    if entries.len() == 0 {
        0
    } else {
        shard_sum(entries.drop_last()) + entries.last().1.spec_size()
    }
}

/// Whether a resource of `size` bytes, offered when the running offset and
/// consumed count stand as given, contributes a shard to the view of
/// `[start, end)`.
pub open spec fn spec_contributes(
    offset: int,
    consumed: int,
    start: int,
    end: int,
    size: int,
) -> bool {
    &&& offset < end
    &&& size > 0
    &&& offset + size > start
    &&& consumed < end - start
}

/// The shard a contributing resource adds: its local start, and as many
/// bytes as it holds past that or as remain to be consumed.
pub open spec fn spec_contribution(
    offset: int,
    consumed: int,
    start: int,
    end: int,
    size: int,
) -> Shard {
    let sh_start = if offset >= start {
        0
    } else {
        start - offset
    };
    let c = if size - sh_start <= end - start - consumed {
        size - sh_start
    } else {
        end - start - consumed
    };
    Shard { start: sh_start as usize, end: (sh_start + c) as usize }
}

/// A value clamped into `[0, hi]`.
pub open spec fn spec_clamp(v: int, hi: int) -> int {
    if v <= 0 {
        0
    } else if v >= hi {
        hi
    } else {
        v
    }
}

/// A valid partition of the logical range `[start, start + length)`: every
/// shard lies within its resource's bounds, entries name resources in
/// strictly increasing order, each entry begins exactly where the previous
/// one ended, and the shard sizes sum to `length`.
#[verifier::opaque]
pub open spec fn view_partition(
    entries: Seq<(usize, Shard)>,
    sizes: Seq<int>,
    start: int,
    length: int,
) -> bool {
    &&& (forall|t: int|
        0 <= t < entries.len() ==> {
            &&& (#[trigger] entries[t]).0 < sizes.len()
            &&& entries[t].1.start <= entries[t].1.end
            &&& entries[t].1.end <= sizes[entries[t].0 as int]
            &&& cum_sizes(sizes, entries[t].0 as int) + entries[t].1.start == start + shard_sum(
                entries.take(t),
            )
        })
    &&& (forall|t: int| 0 <= t < entries.len() - 1 ==> (#[trigger] entries[t]).0 < entries[t + 1].0)
    &&& shard_sum(entries) == length
}

/// Builds the view of a contiguous logical range `[start, end)` over the
/// resources of a storage, offered one at a time in address order.
pub struct UniformView {
    /// Input start index
    start: usize,
    /// Input end index
    end: usize,
    /// Local offset: total size of the resources seen so far
    offset: usize,
    /// Bytes consumed into the view
    consumed: usize,
    /// Resulting view vector
    view: Vec<(usize, Shard)>,
    /// Number of resources seen so far
    seen: usize,
    /// Sizes of the resources seen so far
    sizes: Ghost<Seq<int>>,
}

impl UniformView {
    pub closed spec fn spec_start(&self) -> int {
        self.start as int
    }

    pub closed spec fn spec_end(&self) -> int {
        self.end as int
    }

    /// Length of the requested range.
    pub open spec fn spec_len(&self) -> int {
        if self.spec_start() <= self.spec_end() {
            self.spec_end() - self.spec_start()
        } else {
            0
        }
    }

    pub closed spec fn spec_consumed(&self) -> int {
        self.consumed as int
    }

    pub closed spec fn spec_offset(&self) -> int {
        self.offset as int
    }

    pub closed spec fn sizes_seen(&self) -> Seq<int> {
        self.sizes@
    }

    pub closed spec fn entries(&self) -> Seq<(usize, Shard)> {
        self.view@
    }

    pub closed spec fn wf(&self) -> bool {
        &&& self.start <= self.end
        &&& (forall|i: int| 0 <= i < self.sizes@.len() ==> self.sizes@[i] >= 0)
        &&& self.seen == self.sizes@.len()
        &&& self.offset == cum_sizes(self.sizes@, self.sizes@.len() as int)
        &&& self.consumed == spec_clamp(
            self.offset - self.start,
            self.end - self.start,
        )
        &&& view_partition(self.view@, self.sizes@, self.start as int, self.consumed as int)
    }

    pub fn new(start: usize, end: usize) -> (r: Self)
        requires
            start <= end,
        ensures
            r.wf(),
            r.spec_start() == start,
            r.spec_end() == end,
            r.sizes_seen() == Seq::<int>::empty(),
            r.entries() == Seq::<(usize, Shard)>::empty(),
            r.spec_consumed() == 0,
            r.spec_offset() == 0,
    {
        let r = Self {
            start,
            end,
            offset: 0,
            consumed: 0,
            view: Vec::new(),
            seen: 0,
            sizes: Ghost(Seq::empty()),
        };
        proof {
            reveal(view_partition);
            assert(r.view@ =~= Seq::<(usize, Shard)>::empty());
            assert(r.sizes@ =~= Seq::<int>::empty());
        }
        r
    }

    /// Offer the next resource, by size. A resource wholly before the range
    /// (or empty) contributes nothing; one overlapping it contributes a
    /// shard; the walk reports `false` once the range is fully covered.
    pub fn add(&mut self, size: usize) -> (r: bool)
        requires
            old(self).wf(),
            old(self).spec_offset() + size <= usize::MAX,
            old(self).sizes_seen().len() < usize::MAX,
        ensures
            final(self).wf(),
            final(self).spec_start() == old(self).spec_start(),
            final(self).spec_end() == old(self).spec_end(),
            final(self).sizes_seen() == old(self).sizes_seen().push(size as int),
            final(self).spec_offset() == old(self).spec_offset() + size,
            final(self).spec_consumed() == spec_clamp(
                final(self).spec_offset() - final(self).spec_start(),
                final(self).spec_len(),
            ),
            final(self).entries() == if spec_contributes(
                old(self).spec_offset(),
                old(self).spec_consumed(),
                old(self).spec_start(),
                old(self).spec_end(),
                size as int,
            ) {
                old(self).entries().push(
                    (
                        old(self).sizes_seen().len() as usize,
                        spec_contribution(
                            old(self).spec_offset(),
                            old(self).spec_consumed(),
                            old(self).spec_start(),
                            old(self).spec_end(),
                            size as int,
                        ),
                    ),
                )
            } else {
                old(self).entries()
            },
            r == false ==> final(self).spec_consumed() == final(self).spec_len(),
            final(self).spec_len() > 0 ==> (r <==> final(self).spec_consumed()
                < final(self).spec_len()),
    {
        proof {
            reveal(view_partition);
        }
        let ghost old_sizes = self.sizes@;
        let ghost old_entries = self.view@;
        let offset0 = self.offset;
        let idx = self.seen;
        self.offset = self.offset + size;
        self.seen = self.seen + 1;
        proof {
            self.sizes@ = self.sizes@.push(size as int);
            assert(cum_sizes(self.sizes@, self.sizes@.len() as int) == cum_sizes(
                self.sizes@,
                self.sizes@.len() - 1,
            ) + size);
            lemma_cum_push(old_sizes, size as int, old_sizes.len() as int);
        }

        proof {
            assert forall|t: int| 0 <= t < old_entries.len() implies {
                &&& (#[trigger] old_entries[t]).0 < self.sizes@.len()
                &&& old_entries[t].1.start <= old_entries[t].1.end
                &&& old_entries[t].1.end <= self.sizes@[old_entries[t].0 as int]
                &&& cum_sizes(self.sizes@, old_entries[t].0 as int) + old_entries[t].1.start
                    == self.start + shard_sum(old_entries.take(t))
            } by {
                lemma_cum_push(old_sizes, size as int, old_entries[t].0 as int);
            }
        }

        if offset0 >= self.end {
            return false;
        }
        if size == 0 || offset0 + size <= self.start {
            return true;
        }

        let length = self.end - self.start;
        if self.consumed >= length {
            return false;
        }

        let sh_start = if offset0 >= self.start {
            0
        } else {
            self.start - offset0
        };
        let remaining = length - self.consumed;
        let avail = size - sh_start;
        let c = if avail <= remaining {
            avail
        } else {
            remaining
        };

        let shard = Shard { start: sh_start, end: sh_start + c };
        self.consumed = self.consumed + c;
        self.view.push((idx, shard));

        proof {
            let entries = self.view@;
            let sizes = self.sizes@;
            assert(entries.drop_last() =~= old_entries);
            assert(entries.last() == (idx, shard));
            assert(shard_sum(entries) == shard_sum(old_entries) + shard.spec_size());
            assert(cum_sizes(sizes, idx as int) == offset0);
            assert forall|t: int| 0 <= t < entries.len() implies {
                &&& (#[trigger] entries[t]).0 < sizes.len()
                &&& entries[t].1.start <= entries[t].1.end
                &&& entries[t].1.end <= sizes[entries[t].0 as int]
                &&& cum_sizes(sizes, entries[t].0 as int) + entries[t].1.start == self.start
                    + shard_sum(entries.take(t))
            } by {
                if t < old_entries.len() {
                    assert(entries[t] == old_entries[t]);
                    assert(entries.take(t) =~= old_entries.take(t));
                } else {
                    assert(entries[t] == (idx, shard));
                    assert(entries.take(t) =~= old_entries);
                }
            }
            assert forall|t: int| 0 <= t < entries.len() - 1 implies (#[trigger] entries[t]).0
                < entries[t + 1].0 by {
                if t + 1 < old_entries.len() {
                    assert(old_entries[t].0 < old_entries[t + 1].0);
                } else {
                    assert(entries[t].0 < old_sizes.len());
                }
            }
        }

        self.consumed != length
    }

    /// Finish the walk: the view is complete when exactly the requested
    /// number of bytes was consumed; otherwise the request ran past the end
    /// of the storage and building fails.
    pub fn build(self) -> (r: Result<Vec<(usize, Shard)>, StorageError>)
        requires
            self.wf(),
        ensures
            self.spec_consumed() == self.spec_len() ==> (r matches Ok(v) && v@ == self.entries()
                && view_partition(
                v@,
                self.sizes_seen(),
                self.spec_start(),
                self.spec_len(),
            )),
            self.spec_consumed() != self.spec_len() ==> (r matches Err(e) && e.kind matches
                ErrorKind::ViewBuildError(s, en, o) && s == self.spec_start() && en
                == self.spec_end() && o == self.spec_offset()),
    {
        proof {
            reveal(view_partition);
        }
        let length = self.end - self.start;
        if self.consumed != length {
            return Err(Error::new(ErrorKind::ViewBuildError(self.start, self.end, self.offset)));
        }

        Ok(self.view)
    }
}

impl Size for UniformView {
    fn size(&self) -> (r: usize)
        ensures
            r == self.spec_len(),
    {
        if self.end < self.start {
            return 0;
        }
        self.end - self.start
    }
}

} // verus!
