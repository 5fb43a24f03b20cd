use vstd::prelude::*;

verus! {

/// Something with a size in bytes.
pub trait Size {
    fn size(&self) -> usize;
}

/// A byte range `[start, end)` within one resource, in the resource's own
/// coordinates.
#[derive(Clone, Copy, Debug, PartialEq, Eq, Structural)]
pub struct Shard {
    pub start: usize,
    pub end: usize,
}

impl Shard {
    /// Number of bytes in the range; an inverted range is empty.
    pub open spec fn spec_size(&self) -> int {
        if self.start > self.end {
            0
        } else {
            self.end - self.start
        }
    }
}

impl Size for Shard {
    fn size(&self) -> (r: usize)
        ensures
            r == self.spec_size(),
    {
        if self.start > self.end {
            return 0;
        }
        return self.end - self.start;
    }
}

} // verus!
