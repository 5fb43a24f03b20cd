use vstd::prelude::*;

verus! {

/// Faults found while checking a proof against local knowledge.
#[derive(Clone, Copy, Debug, PartialEq, Eq, Structural)]
pub enum ErrorKind {
    IndexOutOfRange,
    InvalidLength,
    InvalidIndex,
    InvalidHash,
    PartialProof,
}

#[derive(Clone, Copy, Debug)]
pub struct Error {
    pub kind: ErrorKind,
}

impl Error {
    pub fn new(kind: ErrorKind) -> (r: Self)
        ensures
            r.kind == kind,
    {
        Error { kind }
    }
}

/// Ghost model of a Merkle proof.
#[verifier::ext_equal]
pub struct ProofModel {
    pub leaf_index: int,
    pub leaf_hash: Seq<u8>,
    pub path: Seq<Option<Seq<u8>>>,
    pub partial: bool,
}

/// A Merkle proof: a leaf index and hash, and the ordered sibling hashes
/// from the leaf level upward. An entry is absent where the node had no
/// sibling (odd tail). `partial` marks a proof taken from a tree that was
/// not fully built; its path may be shorter than the tree height.
#[derive(Clone, Debug)]
pub struct Proof {
    pub leaf_index: usize,
    pub leaf_hash: Vec<u8>,
    pub path: Vec<Option<Vec<u8>>>,
    pub partial: bool,
}

/// The bytes of one path entry, or None.
pub open spec fn entry_view(e: Option<Vec<u8>>) -> Option<Seq<u8>> {
    match e {
        Some(h) => Some(h@),
        None => None,
    }
}

/// The mathematical view of a path: each entry's bytes, or None.
pub open spec fn spec_entries(v: Seq<Option<Vec<u8>>>) -> Seq<Option<Seq<u8>>> {
    v.map_values(|e: Option<Vec<u8>>| entry_view(e))
}

impl View for Proof {
    type V = ProofModel;

    open spec fn view(&self) -> ProofModel {
        ProofModel {
            leaf_index: self.leaf_index as int,
            leaf_hash: self.leaf_hash@,
            path: spec_entries(self.path@),
            partial: self.partial,
        }
    }
}

/// The two paths agree on every entry up to the shorter length.
pub open spec fn spec_prefix_eq(a: Seq<Option<Seq<u8>>>, b: Seq<Option<Seq<u8>>>) -> bool {
    let end = if a.len() <= b.len() {
        a.len() as int
    } else {
        b.len() as int
    };
    forall|i: int| 0 <= i < end ==> a[i] == b[i]
}

/// Outcome of validating proof `b` against the locally generated proof `a`:
/// the indices must agree; two complete proofs must have equal path lengths;
/// the paths must agree up to the shorter length; and the partial flags must
/// match. `None` means the proof is accepted.
pub open spec fn spec_validate(a: ProofModel, b: ProofModel) -> Option<ErrorKind> {
    if a.leaf_index != b.leaf_index {
        Some(ErrorKind::InvalidIndex)
    } else if !a.partial && !b.partial && a.path.len() != b.path.len() {
        Some(ErrorKind::InvalidLength)
    } else if !spec_prefix_eq(a.path, b.path) {
        Some(ErrorKind::InvalidHash)
    } else if a.partial != b.partial {
        Some(ErrorKind::PartialProof)
    } else {
        None
    }
}

/// Whether two path entries hold the same hash (or are both absent).
fn entry_eq(a: &Option<Vec<u8>>, b: &Option<Vec<u8>>) -> (r: bool)
    ensures
        r == ({
            let av = match *a {
                Some(v) => Some(v@),
                None => None,
            };
            let bv = match *b {
                Some(v) => Some(v@),
                None => None,
            };
            av == bv
        }),
{
    match (a, b) {
        (None, None) => true,
        (Some(x), Some(y)) => {
            let mut i: usize = 0;
            if x.len() != y.len() {
                return false;
            }
            while i < x.len()
                invariant
                    i <= x@.len(),
                    x@.len() == y@.len(),
                    *a == Some(*x),
                    *b == Some(*y),
                    forall|j: int| 0 <= j < i ==> x@[j] == y@[j],
                decreases x@.len() - i,
            {
                if x[i] != y[i] {
                    proof {
                        assert(x@[i as int] != y@[i as int]);
                        assert(x@ != y@);
                    }
                    return false;
                }
                i = i + 1;
            }
            proof {
                assert(x@ =~= y@);
            }
            true
        },
        _ => false,
    }
}

impl Proof {
    /// Check another proof against this one: same leaf, agreeing paths up to
    /// the shorter length, equal lengths when both claim completeness, and
    /// matching partial flags.
    pub fn validate(&self, other: &Proof) -> (r: Result<(), Error>)
        ensures
            match r {
                Ok(_) => spec_validate(self@, other@) is None,
                Err(e) => spec_validate(self@, other@) == Some(e.kind),
            },
    {
        if self.leaf_index != other.leaf_index {
            return Err(Error::new(ErrorKind::InvalidIndex));
        }
        if !self.partial && !other.partial {
            if self.path.len() != other.path.len() {
                return Err(Error::new(ErrorKind::InvalidLength));
            }
        }

        let end = if self.path.len() <= other.path.len() {
            self.path.len()
        } else {
            other.path.len()
        };

        let mut i: usize = 0;
        while i < end
            invariant
                i <= end,
                end == if self@.path.len() <= other@.path.len() {
                    self@.path.len() as int
                } else {
                    other@.path.len() as int
                },
                self@.leaf_index == other@.leaf_index,
                (!self@.partial && !other@.partial) ==> self@.path.len() == other@.path.len(),
                forall|j: int| 0 <= j < i ==> self@.path[j] == other@.path[j],
            decreases end - i,
        {
            if !entry_eq(&self.path[i], &other.path[i]) {
                proof {
                    assert(self@.path[i as int] != other@.path[i as int]);
                    assert(!spec_prefix_eq(self@.path, other@.path));
                }
                return Err(Error::new(ErrorKind::InvalidHash));
            }
            i = i + 1;
        }

        proof {
            assert(spec_prefix_eq(self@.path, other@.path));
        }
        if self.partial != other.partial {
            return Err(Error::new(ErrorKind::PartialProof));
        }
        Ok(())
    }
}

} // verus!
