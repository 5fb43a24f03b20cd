use vstd::prelude::*;

verus! {

/// Half-open range `[start, end)` of node indices forming one level of a
/// Merkle tree laid out in a flat array.
#[derive(Clone, Copy, Debug, PartialEq, Eq, Structural)]
pub struct Level {
    pub start: usize,
    pub end: usize,
}

impl Level {
    /// Number of nodes in the level; an inverted range is empty.
    pub open spec fn spec_len(&self) -> int {
        if self.start >= self.end {
            0
        } else {
            self.end - self.start
        }
    }

    /// Width of the level above: half the nodes, odd tail rounded up.
    pub open spec fn spec_upper_len(&self) -> int {
        (self.spec_len() + 1) / 2
    }

    pub fn new(start: usize, end: usize) -> (r: Self)
        ensures
            r == (Level { start, end }),
    {
        Level { start, end }
    }

    pub fn is_empty(&self) -> (r: bool)
        ensures
            r == (self.start >= self.end),
    {
        self.start >= self.end
    }

    pub fn len(&self) -> (r: usize)
        ensures
            r == self.spec_len(),
    {
        if self.is_empty() {
            return 0;
        }
        self.end - self.start
    }

    pub fn contains(&self, index: usize) -> (r: bool)
        ensures
            r == (self.start <= index < self.end),
    {
        index >= self.start && index < self.end
    }

    /// The level directly above this one: it begins where this level ends and
    /// holds one node per sibling pair, the odd tail counting as a pair.
    pub fn down(&self) -> (r: Option<Level>)
        requires
            self.start < self.end ==> self.end + self.spec_upper_len() <= usize::MAX,
        ensures
            self.start >= self.end ==> r is None,
            self.start < self.end ==> (r matches Some(l) && l.start == self.end && l.end
                == self.end + self.spec_upper_len()),
    {
        if self.is_empty() {
            return None;
        }

        let half = (self.len() + 1) / 2;
        Some(Level::new(self.end, self.end + half))
    }
}

/// A node index together with the level that holds it.
#[derive(Clone, Copy, Debug, PartialEq, Eq, Structural)]
pub struct IndexedLevel {
    pub index: usize,
    pub level: Level,
}

impl IndexedLevel {
    /// The index lies inside its level.
    pub open spec fn wf(&self) -> bool {
        self.level.start <= self.index < self.level.end
    }

    /// Index of the parent node, in the level above.
    pub open spec fn spec_parent(&self) -> int {
        self.level.end + (self.index - self.level.start) / 2
    }

    /// Left node of the sibling pair containing the index.
    pub open spec fn spec_left(&self) -> int {
        if (self.index - self.level.start) % 2 == 1 {
            self.index - 1
        } else {
            self.index as int
        }
    }

    /// Right node of the sibling pair, absent at an odd tail.
    pub open spec fn spec_right(&self) -> Option<int> {
        if (self.index - self.level.start) % 2 == 1 {
            Some(self.index as int)
        } else if self.index == self.level.end - 1 {
            None
        } else {
            Some(self.index + 1)
        }
    }

    pub fn new(index: usize, start: usize, end: usize) -> (r: Option<Self>)
        ensures
            start <= index < end ==> (r matches Some(il) && il.index == index && il.level
                == (Level { start, end })),
            !(start <= index < end) ==> r is None,
    {
        let level = Level { start, end };

        if level.contains(index) && !level.is_empty() {
            Some(IndexedLevel { index, level })
        } else {
            None
        }
    }

    /// Move up one level, onto the parent node.
    pub fn down(&self) -> (r: Option<IndexedLevel>)
        requires
            self.wf(),
            self.level.end + self.level.spec_upper_len() <= usize::MAX,
        ensures
            r matches Some(il) && il.index == self.spec_parent() && il.level.start
                == self.level.end && il.level.end == self.level.end + self.level.spec_upper_len(),
            r matches Some(il) && il.wf(),
    {
        if let Some(level) = self.level.down() {
            Some(IndexedLevel { index: self.parent(), level })
        } else {
            None
        }
    }

    /// Both nodes of the sibling pair containing the index, in left-right
    /// order; the right one is absent at an odd tail.
    pub fn siblings(&self) -> (r: [Option<usize>; 2])
        requires
            self.wf(),
        ensures
            r@.len() == 2,
            r@[0] == Some(self.spec_left() as usize),
            self.spec_right() matches Some(v) ==> r@[1] == Some(v as usize),
            self.spec_right() is None ==> r@[1] is None,
    {
        let left;
        let right;

        if (self.index - self.level.start) % 2 == 1 {
            left = Some(self.index - 1);
            right = Some(self.index);
        } else {
            left = Some(self.index);
            right = if self.index == self.level.end - 1 {
                None
            } else {
                Some(self.index + 1)
            };
        }

        [left, right]
    }

    /// The other node of the pair, absent at an odd tail.
    pub fn sibling(&self) -> (r: Option<usize>)
        requires
            self.wf(),
        ensures
            (self.index - self.level.start) % 2 == 1 ==> r == Some((self.index - 1) as usize),
            (self.index - self.level.start) % 2 == 0 && self.index == self.level.end - 1 ==> r
                is None,
            (self.index - self.level.start) % 2 == 0 && self.index < self.level.end - 1 ==> r
                == Some((self.index + 1) as usize),
    {
        if (self.index - self.level.start) % 2 == 1 {
            Some(self.index - 1)
        } else if self.index == self.level.end - 1 {
            None
        } else {
            Some(self.index + 1)
        }
    }

    pub fn parent(&self) -> (r: usize)
        requires
            self.wf(),
            self.level.end + (self.index - self.level.start) / 2 <= usize::MAX,
        ensures
            r == self.spec_parent(),
    {
        self.level.end + ((self.index - self.level.start) / 2)
    }
}

} // verus!
