use vstd::prelude::*;

verus! {

use vstd::pervasive::VecAdditionalExecFns;

use crate::bits::{bits_of, bv_all, bv_from_elem, bv_get, bv_set};
use crate::digest::sha512_of;
use crate::level::IndexedLevel;
use crate::merkle_proof::Proof;

// ---------------------------------------------------------------------------
// Geometry of a tree laid out level by level, leaves first.
// ---------------------------------------------------------------------------

/// Number of nodes in level `k` of a tree over `l` leaves: each level holds
/// one node per sibling pair of the level below, the odd tail counting as a
/// pair of its own.
pub open spec fn level_width(l: nat, k: nat) -> nat
    decreases k,
{
    if k == 0 {
        l
    } else {
        (level_width(l, (k - 1) as nat) + 1) / 2
    }
}

/// Index of the first node of level `k` in the flat node array.
pub open spec fn level_lo(l: nat, k: nat) -> nat
    decreases k,
{
    if k == 0 {
        0
    } else {
        level_lo(l, (k - 1) as nat) + level_width(l, (k - 1) as nat)
    }
}

/// Number of levels, counting until a level holds a single node.
pub open spec fn raw_height(l: nat) -> nat
    decreases l,
{
    if l <= 1 {
        1
    } else {
        1 + raw_height((l + 1) / 2)
    }
}

/// Total number of nodes over all levels.
pub open spec fn raw_size(l: nat) -> nat
    decreases l,
{
    if l <= 1 {
        l
    } else {
        l + raw_size((l + 1) / 2)
    }
}

/// Height of the tree built over `l` leaves; a single leaf (or none) is
/// padded with a distinct root, so the height is always at least 2.
pub open spec fn spec_tree_height(l: nat) -> nat {
    if l <= 1 {
        2
    } else {
        raw_height(l)
    }
}

/// Node count of the tree built over `l` leaves, including the padding root
/// when there are fewer than two leaves.
pub open spec fn spec_node_count(l: nat) -> nat {
    if l <= 1 {
        l + 1
    } else {
        raw_size(l)
    }
}

/// The level structure one step up equals the level structure of a tree over
/// half as many leaves, shifted past level zero.
proof fn lemma_level_shift(l: nat, k: nat)
    requires
        l >= 2,
    ensures
        level_width(l, k + 1) == level_width((l + 1) / 2, k),
        level_lo(l, k + 1) == l + level_lo((l + 1) / 2, k),
    decreases k,
{
    let c = (l + 1) / 2;
    if k == 0 {
        assert(level_width(l, 0) == l);
        assert(level_width(l, 1) == (level_width(l, 0) + 1) / 2);
        assert(level_width(c, 0) == c);
        assert(level_lo(l, 1) == level_lo(l, 0) + level_width(l, 0));
        assert(level_lo(c, 0) == 0);
    } else {
        lemma_level_shift(l, (k - 1) as nat);
        assert(level_width(l, k + 1) == (level_width(l, k) + 1) / 2);
        assert(level_width(c, k) == (level_width(c, (k - 1) as nat) + 1) / 2);
        assert(level_lo(l, k + 1) == level_lo(l, k) + level_width(l, k));
        assert(level_lo(c, k) == level_lo(c, (k - 1) as nat) + level_width(c, (k - 1) as nat));
    }
}

/// Every level of a non-empty tree holds at least one node.
pub proof fn lemma_width_pos(l: nat, k: nat)
    requires
        l >= 1,
    ensures
        level_width(l, k) >= 1,
    decreases k,
{
    if k > 0 {
        lemma_width_pos(l, (k - 1) as nat);
    }
}

/// Level starts are non-decreasing in the level number.
pub proof fn lemma_lo_monotone(l: nat, k1: nat, k2: nat)
    requires
        k1 <= k2,
    ensures
        level_lo(l, k1) <= level_lo(l, k2),
    decreases k2,
{
    if k1 < k2 {
        lemma_lo_monotone(l, k1, (k2 - 1) as nat);
    }
}

/// In the raw layout the last level holds exactly one node, and the node
/// count is the index one past it.
proof fn lemma_raw_geometry(l: nat)
    requires
        l >= 1,
    ensures
        raw_height(l) >= 1,
        level_width(l, (raw_height(l) - 1) as nat) == 1,
        level_lo(l, (raw_height(l) - 1) as nat) + 1 == raw_size(l),
    decreases l,
{
    if l == 1 {
        assert(raw_height(1) == 1);
        assert(level_width(1, 0) == 1);
        assert(level_lo(1, 0) == 0);
        assert(raw_size(1) == 1);
    } else {
        let c = (l + 1) / 2;
        assert(1 <= c < l);
        lemma_raw_geometry(c);
        assert(raw_height(l) == 1 + raw_height(c));
        assert(raw_size(l) == l + raw_size(c));
        lemma_level_shift(l, (raw_height(c) - 1) as nat);
    }
}

/// The last level of the tree holds exactly its root, and the node count is
/// the index one past the root.
pub proof fn lemma_tree_geometry(l: nat)
    requires
        l >= 1,
    ensures
        spec_tree_height(l) >= 2,
        level_width(l, (spec_tree_height(l) - 1) as nat) == 1,
        level_lo(l, (spec_tree_height(l) - 1) as nat) + 1 == spec_node_count(l),
        spec_node_count(l) >= 2,
{
    if l == 1 {
        assert(level_width(1, 0) == 1);
        assert(level_width(1, 1) == (level_width(1, 0) + 1) / 2);
        assert(level_lo(1, 1) == level_lo(1, 0) + level_width(1, 0));
    } else {
        lemma_raw_geometry(l);
        assert(raw_height(l) == 1 + raw_height((l + 1) / 2));
        lemma_raw_size_bounds(l);
    }
}

/// Every level up to the root ends within the node array.
pub proof fn lemma_level_in_bounds(l: nat, k: nat)
    requires
        l >= 1,
        k + 1 <= spec_tree_height(l),
    ensures
        level_lo(l, k) + level_width(l, k) <= spec_node_count(l),
        level_lo(l, k + 1) == level_lo(l, k) + level_width(l, k),
{
    lemma_tree_geometry(l);
    lemma_lo_monotone(l, k + 1, spec_tree_height(l));
    lemma_width_pos(l, (spec_tree_height(l) - 1) as nat);
    if k + 1 == spec_tree_height(l) {
    } else {
        lemma_lo_monotone(l, k + 1, (spec_tree_height(l) - 1) as nat);
    }
}

proof fn lemma_raw_size_bounds(l: nat)
    ensures
        raw_size(l) >= l,
        raw_height(l) >= 1,
        raw_height(l) <= spec_node_count(l),
        l >= 2 ==> raw_height(l) >= 2,
    decreases l,
{
    if l >= 2 {
        let c = (l + 1) / 2;
        lemma_raw_size_bounds(c);
        assert(raw_size(l) == l + raw_size(c));
        assert(raw_height(l) == 1 + raw_height(c));
        assert(spec_node_count(c) <= raw_size(c) + 1);
    }
}

/// There are strictly more nodes than leaves.
pub proof fn lemma_node_count_ge(l: nat)
    ensures
        spec_node_count(l) >= l + 1,
{
    if l >= 2 {
        let c = (l + 1) / 2;
        lemma_raw_size_bounds(c);
        assert(raw_size(l) == l + raw_size(c));
    }
}

/// The flat array over `l` leaves holds fewer than `4 l + 2` nodes.
pub proof fn lemma_node_count_bound(l: nat)
    ensures
        spec_node_count(l) <= 4 * l + 2,
    decreases l,
{
    if l >= 2 {
        let c = (l + 1) / 2;
        lemma_node_count_bound(c);
        assert(raw_size(l) == l + raw_size(c));
        assert(raw_size(c) <= spec_node_count(c));
        assert(2 * c <= l + 1);
    }
}

/// Node count and height of a tree over `leaf_count` leaves: the sum and the
/// number of the level sizes `leaf_count, ceil(leaf_count / 2), ...` down to
/// a single node, a lone leaf being padded with a distinct root.
pub fn tree_size(leaf_count: usize) -> (r: (usize, usize))
    requires
        spec_node_count(leaf_count as nat) <= usize::MAX,
    ensures
        r.0 == spec_node_count(leaf_count as nat),
        r.1 == spec_tree_height(leaf_count as nat),
{
    proof {
        lemma_raw_size_bounds(leaf_count as nat);
    }
    let mut lc = leaf_count;
    let mut height: usize = 1;
    let mut sum: usize = lc;

    while lc > 1
        invariant
            spec_node_count(leaf_count as nat) <= usize::MAX,
            sum + raw_size(lc as nat) == raw_size(leaf_count as nat) + lc,
            height + raw_height(lc as nat) == raw_height(leaf_count as nat) + 1,
            raw_height(leaf_count as nat) <= spec_node_count(leaf_count as nat),
            raw_size(leaf_count as nat) <= spec_node_count(leaf_count as nat),
            lc <= leaf_count,
        decreases lc,
    {
        proof {
            let c = ((lc + 1) / 2) as nat;
            lemma_raw_size_bounds(c);
            lemma_raw_size_bounds(lc as nat);
            assert(raw_size(lc as nat) == lc + raw_size(c));
            assert(raw_height(lc as nat) == 1 + raw_height(c));
        }
        lc = (lc + 1) / 2;
        height = height + 1;
        sum = sum + lc;
    }

    proof {
        assert(raw_size(lc as nat) == lc);
        assert(raw_height(lc as nat) == 1);
        if leaf_count >= 2 {
            lemma_raw_size_bounds(leaf_count as nat);
        }
    }
    if height == 1 {
        sum = sum + 1;
        height = height + 1;
    }

    (sum, height)
}

// ---------------------------------------------------------------------------
// The tree itself.
// ---------------------------------------------------------------------------

/// Errors of tree-level operations.
#[derive(Clone, Debug)]
pub struct Error {
    pub message: String,
}

/// Ghost model of a Merkle tree: which nodes are set, their hashes, and the
/// shape of the flat layout.
#[verifier::ext_equal]
pub struct TreeModel {
    pub present: Seq<bool>,
    pub nodes: Seq<Seq<u8>>,
    pub leaf_count: nat,
    pub height: nat,
}

impl TreeModel {
    pub open spec fn node_count(&self) -> nat {
        spec_node_count(self.leaf_count)
    }

    pub open spec fn wf(&self) -> bool {
        &&& self.height == spec_tree_height(self.leaf_count)
        &&& self.present.len() == self.node_count()
        &&& self.nodes.len() == self.node_count()
    }

    pub open spec fn all_present(&self) -> bool {
        forall|i: int| 0 <= i < self.present.len() ==> self.present[i]
    }

    /// The bytes a parent's hash is computed from: the hashes of its two
    /// children in order, or of the lone left child at an odd tail.
    pub open spec fn child_input(&self, k: nat, j: nat) -> Seq<u8> {
        let lo = level_lo(self.leaf_count, (k - 1) as nat);
        let w = level_width(self.leaf_count, (k - 1) as nat);
        if 2 * j + 1 < w {
            self.nodes[(lo + 2 * j) as int] + self.nodes[(lo + 2 * j + 1) as int]
        } else {
            self.nodes[(lo + 2 * j) as int]
        }
    }

    pub open spec fn children_present(&self, k: nat, j: nat) -> bool {
        let lo = level_lo(self.leaf_count, (k - 1) as nat);
        let w = level_width(self.leaf_count, (k - 1) as nat);
        &&& self.present[(lo + 2 * j) as int]
        &&& 2 * j + 1 < w ==> self.present[(lo + 2 * j + 1) as int]
    }

    /// Node `j` of level `k` carries the digest of its set children.
    pub open spec fn node_ok(&self, k: nat, j: nat) -> bool {
        &&& self.children_present(k, j)
        &&& self.nodes[(level_lo(self.leaf_count, k) + j) as int] == sha512_of(self.child_input(k, j))
    }

    /// Every set internal node was computed from children that are set.
    pub open spec fn consistent(&self) -> bool {
        forall|k: nat, j: nat|
            1 <= k < self.height && j < level_width(self.leaf_count, k) && self.present[(level_lo(self.leaf_count, k) + j) as int] ==> #[trigger] self.node_ok(k, j)
    }

    /// The model with one node written and marked set; a write outside the
    /// node array changes nothing.
    pub open spec fn with_node(&self, i: int, h: Seq<u8>) -> TreeModel {
        if 0 <= i < self.nodes.len() && i < self.present.len() {
            TreeModel {
                present: self.present.update(i, true),
                nodes: self.nodes.update(i, h),
                leaf_count: self.leaf_count,
                height: self.height,
            }
        } else {
            *self
        }
    }
}

/// Left node of the sibling pair of node `i` in a level starting at `start`.
pub open spec fn pair_left(start: int, i: int) -> int {
    if (i - start) % 2 == 1 {
        i - 1
    } else {
        i
    }
}

/// Whether the pair has a right node; it does not at an odd tail.
pub open spec fn pair_has_right(start: int, end: int, i: int) -> bool {
    (i - start) % 2 == 1 || i < end - 1
}

/// Right node of the sibling pair.
pub open spec fn pair_right(start: int, i: int) -> int {
    pair_left(start, i) + 1
}

/// Parent of node `i` of level `[start, end)`, in the level above.
pub open spec fn spec_parent(start: int, end: int, i: int) -> int {
    end + (i - start) / 2
}

/// Propagation stops when a required member of the pair is not set.
pub open spec fn spec_stops(m: TreeModel, i: int, start: int, end: int) -> bool {
    !m.present[pair_left(start, i)] || (pair_has_right(start, end, i) && !m.present[pair_right(
        start,
        i,
    )])
}

/// The bytes fed to the parent's digest: the pair's hashes in order, or the
/// lone left hash at an odd tail.
pub open spec fn spec_pair_input(m: TreeModel, i: int, start: int, end: int) -> Seq<u8> {
    if pair_has_right(start, end, i) {
        m.nodes[pair_left(start, i)] + m.nodes[pair_right(start, i)]
    } else {
        m.nodes[pair_left(start, i)]
    }
}

/// Upward propagation from node `i` of level `[start, end)` for the given
/// number of remaining levels: write the parent from the pair's hashes and
/// ascend, or stop at the first missing sibling.
pub open spec fn spec_build_down(m: TreeModel, i: int, start: int, end: int, levels: nat) -> TreeModel
    decreases levels,
{
    if levels == 0 {
        m
    } else if spec_stops(m, i, start, end) {
        m
    } else {
        let p = spec_parent(start, end, i);
        let m1 = m.with_node(p, sha512_of(spec_pair_input(m, i, start, end)));
        spec_build_down(m1, p, end, end + (end - start + 1) / 2, (levels - 1) as nat)
    }
}

/// Propagation writes only parents: every node below the current level's
/// end keeps its state.
pub proof fn lemma_build_down_frame(m: TreeModel, i: int, start: int, end: int, levels: nat)
    requires
        0 <= start <= i < end,
    ensures
        forall|n: int|
            0 <= n < end ==> #[trigger] spec_build_down(m, i, start, end, levels).present[n]
                == m.present[n],
        forall|n: int|
            0 <= n < end ==> #[trigger] spec_build_down(m, i, start, end, levels).nodes[n]
                == m.nodes[n],
    decreases levels,
{
    if levels > 0 && !spec_stops(m, i, start, end) {
        let p = spec_parent(start, end, i);
        assert(p >= end);
        let end2 = end + (end - start + 1) / 2;
        assert((i - start) / 2 < (end - start + 1) / 2);
        let m1 = m.with_node(p, sha512_of(spec_pair_input(m, i, start, end)));
        lemma_build_down_frame(m1, p, end, end2, (levels - 1) as nat);
        assert(spec_build_down(m, i, start, end, levels) == spec_build_down(
            m1,
            p,
            end,
            end2,
            (levels - 1) as nat,
        ));
        assert forall|n: int| 0 <= n < end implies #[trigger] spec_build_down(
            m,
            i,
            start,
            end,
            levels,
        ).present[n] == m.present[n] && spec_build_down(m, i, start, end, levels).nodes[n]
            == m.nodes[n] by {
            assert(spec_build_down(m1, p, end, end2, (levels - 1) as nat).present[n]
                == m1.present[n]);
            assert(spec_build_down(m1, p, end, end2, (levels - 1) as nat).nodes[n] == m1.nodes[n]);
        }
    }
}

/// Setting a leaf changes no other leaf: the write touches the leaf and
/// then only parents above the leaf level.
pub proof fn lemma_tree_set_leaves(m: TreeModel, leaf: int, h: Seq<u8>)
    requires
        m.wf(),
        0 <= leaf < m.leaf_count,
    ensures
        spec_tree_set(m, leaf, h).present[leaf],
        spec_tree_set(m, leaf, h).nodes[leaf] == h,
        forall|n: int|
            0 <= n < m.leaf_count && n != leaf ==> #[trigger] spec_tree_set(m, leaf, h).present[n]
                == m.present[n],
        forall|n: int|
            0 <= n < m.leaf_count && n != leaf ==> #[trigger] spec_tree_set(m, leaf, h).nodes[n]
                == m.nodes[n],
{
    lemma_node_count_ge(m.leaf_count);
    let m1 = m.with_node(leaf, h);
    lemma_build_down_frame(m1, leaf, 0, m.leaf_count as int, (m.height - 1) as nat);
}

/// Consistency everywhere except possibly at one node position.
pub open spec fn consistent_except(m: TreeModel, ek: nat, ej: nat) -> bool {
    forall|kk: nat, j: nat|
        1 <= kk < m.height && j < level_width(m.leaf_count, kk) && m.present[(level_lo(
            m.leaf_count,
            kk,
        ) + j) as int] && !(kk == ek && j == ej) ==> #[trigger] m.node_ok(kk, j)
}

/// Distinct level positions name distinct nodes.
proof fn lemma_node_pos_injective(l: nat, k1: nat, j1: nat, k2: nat, j2: nat)
    requires
        l >= 1,
        k1 + 1 <= spec_tree_height(l),
        k2 + 1 <= spec_tree_height(l),
        j1 < level_width(l, k1),
        j2 < level_width(l, k2),
        !(k1 == k2 && j1 == j2),
    ensures
        level_lo(l, k1) + j1 != level_lo(l, k2) + j2,
{
    if k1 == k2 {
    } else if k1 < k2 {
        lemma_level_in_bounds(l, k1);
        lemma_lo_monotone(l, k1 + 1, k2);
    } else {
        lemma_level_in_bounds(l, k2);
        lemma_lo_monotone(l, k2 + 1, k1);
    }
}

/// Writing one node breaks no other node's consistency, except possibly at
/// its own parent's position.
proof fn lemma_node_ok_frame(m: TreeModel, mk: nat, mj: nat, h: Seq<u8>, kk: nat, j: nat)
    requires
        m.wf(),
        m.leaf_count >= 1,
        mk + 1 <= m.height,
        mj < level_width(m.leaf_count, mk),
        1 <= kk < m.height,
        j < level_width(m.leaf_count, kk),
        !(kk == mk && j == mj),
        !(kk == mk + 1 && j == mj / 2),
        m.node_ok(kk, j),
    ensures
        m.with_node((level_lo(m.leaf_count, mk) + mj) as int, h).node_ok(kk, j),
{
    let big_l = m.leaf_count;
    let p = (level_lo(big_l, mk) + mj) as int;
    let m1 = m.with_node(p, h);
    lemma_level_in_bounds(big_l, kk);
    lemma_level_in_bounds(big_l, (kk - 1) as nat);
    lemma_node_pos_injective(big_l, mk, mj, kk, j);
    // the node's own hash is untouched
    assert(m1.nodes[(level_lo(big_l, kk) + j) as int] == m.nodes[(level_lo(big_l, kk)
        + j) as int]);
    // and so are its children: the written node's parent position is the
    // only position whose children include the written node
    let w = level_width(big_l, (kk - 1) as nat);
    assert(2 * j < w && (2 * j + 1 < w + 1));
    if kk - 1 == mk && 2 * j == mj {
        assert(kk == mk + 1 && j == mj / 2);
        assert(false);
    }
    lemma_node_pos_injective(big_l, mk, mj, (kk - 1) as nat, (2 * j) as nat);
    if 2 * j + 1 < w {
        if kk - 1 == mk && 2 * j + 1 == mj {
            assert(kk == mk + 1 && j == mj / 2);
            assert(false);
        }
        lemma_node_pos_injective(big_l, mk, mj, (kk - 1) as nat, (2 * j + 1) as nat);
    }
    assert(m1.child_input(kk, j) == m.child_input(kk, j));
    assert(m1.children_present(kk, j));
}

/// Upward propagation restores consistency: starting at a set node of level
/// `k` whose parent, if set, has its children present, and with every other
/// set internal node consistent, the walk ends in a fully consistent tree.
#[verifier::rlimit(100)]
proof fn lemma_build_down_keeps_consistent(m: TreeModel, i: int, k: nat)
    requires
        m.wf(),
        m.leaf_count >= 1,
        k <= m.height - 1,
        level_lo(m.leaf_count, k) <= i < level_lo(m.leaf_count, k) + level_width(m.leaf_count, k),
        m.present[i],
        consistent_except(m, k + 1, ((i - level_lo(m.leaf_count, k)) / 2) as nat),
        k + 1 < m.height ==> (m.present[(level_lo(m.leaf_count, k + 1) + (i - level_lo(
            m.leaf_count,
            k,
        )) / 2) as int] ==> (m.present[pair_left(level_lo(m.leaf_count, k) as int, i)] && (
        pair_has_right(
            level_lo(m.leaf_count, k) as int,
            level_lo(m.leaf_count, k) as int + level_width(m.leaf_count, k) as int,
            i,
        ) ==> m.present[pair_right(level_lo(m.leaf_count, k) as int, i)]))),
    ensures
        spec_build_down(
            m,
            i,
            level_lo(m.leaf_count, k) as int,
            (level_lo(m.leaf_count, k) + level_width(m.leaf_count, k)) as int,
            (m.height - 1 - k) as nat,
        ).consistent(),
    decreases m.height - 1 - k,
{
    let big_l = m.leaf_count;
    let lo = level_lo(big_l, k) as int;
    let w = level_width(big_l, k) as int;
    let hi = lo + w;
    let levels = (m.height - 1 - k) as nat;
    let jp = ((i - lo) / 2) as nat;
    lemma_level_in_bounds(big_l, k);
    lemma_tree_geometry(big_l);

    if levels == 0 {
        // at the root level nothing is excepted: the exception position
        // lies beyond the last level
        assert forall|kk: nat, j: nat|
            1 <= kk < m.height && j < level_width(big_l, kk) && m.present[(level_lo(big_l, kk)
                + j) as int] implies #[trigger] m.node_ok(kk, j) by {
            assert(!(kk == k + 1 && j == jp));
        }
    } else {
        lemma_level_in_bounds(big_l, k + 1);
        assert((i - lo) / 2 < (w + 1) / 2);
        assert(jp < level_width(big_l, k + 1));
        let p = spec_parent(lo, hi, i);
        assert(p == level_lo(big_l, k + 1) + jp);
        assert(0 <= p < m.present.len());
        let l = pair_left(lo, i);
        assert(l == lo + 2 * jp);

        if spec_stops(m, i, lo, hi) {
            // a required sibling is missing, so the pair is incomplete and,
            // by the guard, the parent is not set: nothing is excepted
            assert(!m.present[p]);
            assert forall|kk: nat, j: nat|
                1 <= kk < m.height && j < level_width(big_l, kk) && m.present[(level_lo(big_l, kk)
                    + j) as int] implies #[trigger] m.node_ok(kk, j) by {
                if kk == k + 1 && j == jp {
                    assert(false);
                }
            }
        } else {
            let h_p = sha512_of(spec_pair_input(m, i, lo, hi));
            let m1 = m.with_node(p, h_p);
            assert(spec_build_down(m, i, lo, hi, levels) == spec_build_down(
                m1,
                p,
                hi,
                hi + (w + 1) / 2,
                (levels - 1) as nat,
            ));
            assert(hi == level_lo(big_l, k + 1));
            assert(hi + (w + 1) / 2 == level_lo(big_l, k + 1) + level_width(big_l, k + 1));

            // the freshly written parent is consistent by construction
            assert(m1.node_ok(k + 1, jp)) by {
                assert(m1.nodes[p] == h_p);
                assert(m1.present[l] && m1.nodes[l] == m.nodes[l]);
                if pair_has_right(lo, hi, i) {
                    let r = pair_right(lo, i);
                    assert(r == lo + 2 * jp + 1);
                    assert(2 * jp + 1 < w);
                    assert(m1.present[r] && m1.nodes[r] == m.nodes[r]);
                } else {
                    assert(!(2 * jp + 1 < w));
                }
                assert(m1.child_input(k + 1, jp) == spec_pair_input(m, i, lo, hi));
            };

            // every other set node keeps its consistency, except possibly
            // the next parent up
            let jpp = (jp / 2) as nat;
            assert(consistent_except(m1, k + 2, jpp)) by {
                assert forall|kk: nat, j: nat|
                    1 <= kk < m1.height && j < level_width(big_l, kk) && m1.present[(level_lo(
                        big_l,
                        kk,
                    ) + j) as int] && !(kk == k + 2 && j == jpp) implies #[trigger] m1.node_ok(
                    kk,
                    j,
                ) by {
                    if kk == k + 1 && j == jp {
                        assert(m1.node_ok(k + 1, jp));
                    } else {
                        lemma_level_in_bounds(big_l, kk);
                        lemma_node_pos_injective(big_l, k + 1, jp, kk, j);
                        assert(m.present[(level_lo(big_l, kk) + j) as int]);
                        assert(m.node_ok(kk, j));
                        lemma_node_ok_frame(m, k + 1, jp, h_p, kk, j);
                    }
                }
            };

            // if the next parent up is set, its children are present: the
            // written node, and its sibling by the old consistency
            assert(k + 2 < m.height ==> (m1.present[(level_lo(big_l, k + 2) + jpp) as int] ==> (
            m1.present[pair_left(hi, p)] && (pair_has_right(hi, hi + (w + 1) / 2, p)
                ==> m1.present[pair_right(hi, p)])))) by {
                if k + 2 < m.height {
                    lemma_level_in_bounds(big_l, k + 2);
                    assert(jpp < level_width(big_l, k + 2)) by {
                        assert(jp < level_width(big_l, k + 1));
                        assert(jp / 2 < (level_width(big_l, k + 1) + 1) / 2);
                    };
                    let pp = (level_lo(big_l, k + 2) + jpp) as int;
                    if m1.present[pp] {
                        lemma_node_pos_injective(big_l, k + 1, jp, k + 2, jpp);
                        assert(m.present[pp]);
                        assert(m.node_ok(k + 2, jpp));
                        assert(m.children_present(k + 2, jpp));
                        assert(pair_left(hi, p) == level_lo(big_l, k + 1) + 2 * jpp);
                        if pair_has_right(hi, hi + (w + 1) / 2, p) {
                            assert(pair_right(hi, p) == level_lo(big_l, k + 1) + 2 * jpp + 1);
                            assert(2 * jpp + 1 < level_width(big_l, k + 1));
                        }
                    }
                }
            };

            lemma_build_down_keeps_consistent(m1, p, k + 1);
        }
    }
}

/// Setting a leaf preserves consistency: the propagation recomputes every
/// set ancestor it reaches, and stops only where the stale parent was never
/// set.
pub proof fn lemma_tree_set_consistent(m: TreeModel, leaf: int, h: Seq<u8>)
    requires
        m.wf(),
        m.leaf_count >= 1,
        m.consistent(),
        0 <= leaf < m.leaf_count,
    ensures
        spec_tree_set(m, leaf, h).consistent(),
{
    let big_l = m.leaf_count;
    lemma_node_count_ge(big_l);
    lemma_tree_geometry(big_l);
    let m1 = m.with_node(leaf, h);
    let jp = ((leaf - 0) / 2) as nat;

    lemma_level_in_bounds(big_l, 0);
    lemma_level_in_bounds(big_l, 1);

    assert(consistent_except(m1, 1, jp)) by {
        assert forall|kk: nat, j: nat|
            1 <= kk < m1.height && j < level_width(big_l, kk) && m1.present[(level_lo(big_l, kk)
                + j) as int] && !(kk == 1 && j == jp) implies #[trigger] m1.node_ok(kk, j) by {
            lemma_level_in_bounds(big_l, kk);
            lemma_node_pos_injective(big_l, 0, leaf as nat, kk, j);
            assert(m.present[(level_lo(big_l, kk) + j) as int]);
            assert(m.node_ok(kk, j));
            lemma_node_ok_frame(m, 0, leaf as nat, h, kk, j);
        }
    };

    assert(1 < m.height ==> (m1.present[(level_lo(big_l, 1) + jp) as int] ==> (m1.present[
    pair_left(0, leaf)] && (pair_has_right(0, big_l as int, leaf) ==> m1.present[pair_right(
        0,
        leaf,
    )])))) by {
        if m1.present[(level_lo(big_l, 1) + jp) as int] {
            assert(jp < level_width(big_l, 1)) by {
                assert(leaf / 2 < (big_l + 1) / 2);
            };
            let pp = (level_lo(big_l, 1) + jp) as int;
            lemma_node_pos_injective(big_l, 0, leaf as nat, 1, jp);
            assert(m.present[pp]);
            assert(m.node_ok(1, jp));
            assert(m.children_present(1, jp));
            assert(pair_left(0, leaf) == 2 * jp);
            if pair_has_right(0, big_l as int, leaf) {
                assert(pair_right(0, leaf) == 2 * jp + 1);
                assert(2 * jp + 1 < big_l);
            }
        }
    };

    lemma_build_down_keeps_consistent(m1, leaf, 0);
    assert(level_lo(big_l, 0) == 0 && level_width(big_l, 0) == big_l);
}

/// Propagation already performed is not repeated: running the walk again
/// from the same node over its own result changes nothing.
proof fn lemma_build_down_idem(m: TreeModel, i: int, start: int, end: int, levels: nat)
    requires
        0 <= start <= i < end,
    ensures
        spec_build_down(
            spec_build_down(m, i, start, end, levels),
            i,
            start,
            end,
            levels,
        ) == spec_build_down(m, i, start, end, levels),
    decreases levels,
{
    if levels == 0 {
    } else if spec_stops(m, i, start, end) {
    } else {
        let p = spec_parent(start, end, i);
        let e2 = end + (end - start + 1) / 2;
        let h_p = sha512_of(spec_pair_input(m, i, start, end));
        let m1 = m.with_node(p, h_p);
        let t1 = spec_build_down(m1, p, end, e2, (levels - 1) as nat);
        assert(spec_build_down(m, i, start, end, levels) == t1);

        assert(p >= end);
        assert((i - start) / 2 < (end - start + 1) / 2);
        assert(p < e2);
        lemma_build_down_frame(m1, p, end, e2, (levels - 1) as nat);
        lemma_build_down_shape(m1, p, end, e2, (levels - 1) as nat);

        let l = pair_left(start, i);
        assert(start <= l < end);
        assert(t1.present[l] == m.present[l] && t1.nodes[l] == m.nodes[l]) by {
            assert(t1.present[l] == m1.present[l] && t1.nodes[l] == m1.nodes[l]);
        };
        if pair_has_right(start, end, i) {
            let r = pair_right(start, i);
            assert(start <= r < end);
            assert(t1.present[r] == m.present[r] && t1.nodes[r] == m.nodes[r]) by {
                assert(t1.present[r] == m1.present[r] && t1.nodes[r] == m1.nodes[r]);
            };
        }
        assert(!spec_stops(t1, i, start, end));
        assert(spec_pair_input(t1, i, start, end) == spec_pair_input(m, i, start, end));

        // the parent already carries the digest, so re-writing it is the
        // identity
        assert(t1.with_node(p, h_p) == t1) by {
            if 0 <= p < t1.nodes.len() && p < t1.present.len() {
                assert(t1.present[p] == m1.present[p] && t1.nodes[p] == m1.nodes[p]);
                assert(m1.present.len() == m.present.len() && m1.nodes.len() == m.nodes.len());
                assert(m1.present[p] && m1.nodes[p] == h_p);
                assert(t1.with_node(p, h_p).present =~= t1.present);
                assert(t1.with_node(p, h_p).nodes =~= t1.nodes);
                assert(t1.with_node(p, h_p) =~= t1);
            }
        };

        lemma_build_down_idem(m1, p, end, e2, (levels - 1) as nat);
        assert(spec_build_down(t1, i, start, end, levels) == spec_build_down(
            t1.with_node(p, h_p),
            p,
            end,
            e2,
            (levels - 1) as nat,
        ));
    }
}

/// Setting the same leaf hash twice yields the same tree state as setting
/// it once.
pub proof fn lemma_tree_set_idempotent(m: TreeModel, leaf: int, h: Seq<u8>)
    requires
        m.wf(),
        0 <= leaf < m.leaf_count,
    ensures
        spec_tree_set(spec_tree_set(m, leaf, h), leaf, h) == spec_tree_set(m, leaf, h),
{
    lemma_node_count_ge(m.leaf_count);
    let m1 = m.with_node(leaf, h);
    let big_l = m.leaf_count as int;
    let levels = (m.height - 1) as nat;
    let t1 = spec_build_down(m1, leaf, 0, big_l, levels);
    lemma_build_down_frame(m1, leaf, 0, big_l, levels);
    lemma_build_down_shape(m1, leaf, 0, big_l, levels);
    assert(t1.present[leaf] && t1.nodes[leaf] == h) by {
        assert(t1.present[leaf] == m1.present[leaf] && t1.nodes[leaf] == m1.nodes[leaf]);
    };
    assert(t1.with_node(leaf, h) == t1) by {
        assert(t1.with_node(leaf, h).present =~= t1.present);
        assert(t1.with_node(leaf, h).nodes =~= t1.nodes);
        assert(t1.with_node(leaf, h) =~= t1);
    };
    assert(t1.leaf_count == m.leaf_count && t1.height == m.height);
    lemma_build_down_idem(m1, leaf, 0, big_l, levels);
    assert(spec_tree_set(t1, leaf, h) == spec_build_down(t1, leaf, 0, big_l, levels));
}

/// Sibling of node `i` in level `[start, end)`: absent at an odd tail.
pub open spec fn spec_sib(start: int, end: int, i: int) -> Option<int> {
    if (i - start) % 2 == 1 {
        Some(i - 1)
    } else if i == end - 1 {
        None
    } else {
        Some(i + 1)
    }
}

/// The proof path from node `i` of level `[start, end)` upward: at each
/// level the sibling's hash if the sibling exists and is set, None where the
/// node has no sibling. The path ends early at a sibling that exists but is
/// not set.
pub open spec fn spec_path(m: TreeModel, i: int, start: int, end: int, levels: nat) -> Seq<
    Option<Seq<u8>>,
>
    decreases levels,
{
    if levels == 0 {
        Seq::empty()
    } else {
        let up = spec_path(
            m,
            spec_parent(start, end, i),
            end,
            end + (end - start + 1) / 2,
            (levels - 1) as nat,
        );
        match spec_sib(start, end, i) {
            Some(s) => if m.present[s] {
                seq![Some(m.nodes[s])] + up
            } else {
                Seq::empty()
            },
            None => seq![Option::<Seq<u8>>::None] + up,
        }
    }
}

/// The proof the tree generates for a leaf.
pub open spec fn spec_proof(m: TreeModel, i: int) -> crate::merkle_proof::ProofModel {
    crate::merkle_proof::ProofModel {
        leaf_index: i,
        leaf_hash: m.nodes[i],
        path: spec_path(m, i, 0, m.leaf_count as int, m.height),
        partial: !m.all_present(),
    }
}

/// Outcome of checking a proof against the tree: the leaf must be in range,
/// the path long enough, the leaf hash equal to the locally stored one, and
/// the proof must validate against a locally generated proof for the same
/// leaf. `None` means the proof is accepted.
pub open spec fn spec_verify(m: TreeModel, p: crate::merkle_proof::ProofModel) -> Option<
    crate::merkle_proof::ErrorKind,
> {
    if p.leaf_index >= m.leaf_count {
        Some(crate::merkle_proof::ErrorKind::IndexOutOfRange)
    } else if p.path.len() < 2 {
        Some(crate::merkle_proof::ErrorKind::InvalidLength)
    } else if p.leaf_hash != m.nodes[p.leaf_index] {
        Some(crate::merkle_proof::ErrorKind::InvalidHash)
    } else if spec_path(m, p.leaf_index, 0, m.leaf_count as int, m.height).len() < 2 {
        Some(crate::merkle_proof::ErrorKind::InvalidLength)
    } else {
        crate::merkle_proof::spec_validate(spec_proof(m, p.leaf_index), p)
    }
}

/// The tree after a leaf hash is written and propagated upward.
pub open spec fn spec_tree_set(m: TreeModel, leaf: int, h: Seq<u8>) -> TreeModel {
    spec_build_down(m.with_node(leaf, h), leaf, 0, m.leaf_count as int, (m.height - 1) as nat)
}

/// Propagation changes neither the shape of the tree nor the lengths of its
/// model sequences.
pub proof fn lemma_build_down_shape(m: TreeModel, i: int, start: int, end: int, levels: nat)
    ensures
        spec_build_down(m, i, start, end, levels).leaf_count == m.leaf_count,
        spec_build_down(m, i, start, end, levels).height == m.height,
        spec_build_down(m, i, start, end, levels).present.len() == m.present.len(),
        spec_build_down(m, i, start, end, levels).nodes.len() == m.nodes.len(),
    decreases levels,
{
    if levels > 0 && !spec_stops(m, i, start, end) {
        let p = spec_parent(start, end, i);
        let m1 = m.with_node(p, sha512_of(spec_pair_input(m, i, start, end)));
        lemma_build_down_shape(m1, p, end, end + (end - start + 1) / 2, (levels - 1) as nat);
    }
}

/// A Merkle tree over SHA-512 piece hashes, laid out in a single flat node
/// array indexed level by level, bottom up. A bit per node records whether
/// its hash has been written.
pub struct MerkleTree {
    /// tree nodes that have been set
    bitmap: bit_vec::BitVec,
    /// tree node hashes, 64 bytes per node
    hashes: Vec<u8>,
    /// tree height (levels)
    height: usize,
    /// tree leaf count
    leaf_count: usize,
}

impl View for MerkleTree {
    type V = TreeModel;

    closed spec fn view(&self) -> TreeModel {
        TreeModel {
            present: bits_of(self.bitmap),
            nodes: Seq::new(
                spec_node_count(self.leaf_count as nat),
                |i: int| self.hashes@.subrange(64 * i, 64 * i + 64),
            ),
            leaf_count: self.leaf_count as nat,
            height: self.height as nat,
        }
    }
}

impl MerkleTree {
    pub closed spec fn wf(&self) -> bool {
        &&& self.height == spec_tree_height(self.leaf_count as nat)
        &&& bits_of(self.bitmap).len() == spec_node_count(self.leaf_count as nat)
        &&& self.hashes@.len() == spec_node_count(self.leaf_count as nat) * 64
        &&& spec_node_count(self.leaf_count as nat) * 64 <= usize::MAX
    }

    pub proof fn lemma_wf_view(&self)
        requires
            self.wf(),
        ensures
            self@.wf(),
            spec_node_count(self@.leaf_count) * 64 <= usize::MAX,
            forall|i: int| 0 <= i < self@.nodes.len() ==> (#[trigger] self@.nodes[i]).len() == 64,
    {
        assert forall|i: int| 0 <= i < self@.nodes.len() implies (#[trigger] self@.nodes[i]).len()
            == 64 by {
            assert(64 * i + 64 <= self.hashes@.len());
        }
    }

    /// An empty tree of the shape determined by the leaf count: no node set.
    pub fn new(leaf_count: usize) -> (r: Self)
        requires
            spec_node_count(leaf_count as nat) * 64 <= usize::MAX,
        ensures
            r.wf(),
            r@.leaf_count == leaf_count,
            r@.present =~= Seq::new(spec_node_count(leaf_count as nat), |i: int| false),
            forall|i: int|
                0 <= i < r@.node_count() ==> #[trigger] r@.nodes[i] == Seq::new(64, |_j: int| 0u8),
    {
        let (size, height) = tree_size(leaf_count);
        let hashes = vec![0u8; size * 64];
        let bitmap = bv_from_elem(size, false);

        let r = MerkleTree { bitmap, hashes, height, leaf_count };
        proof {
            assert forall|i: int| 0 <= i < r@.node_count() implies #[trigger] r@.nodes[i]
                == Seq::new(64, |_j: int| 0u8) by {
                assert(64 * i + 64 <= r.hashes@.len());
                assert(r@.nodes[i] =~= Seq::new(64, |_j: int| 0u8));
            }
        }
        r
    }

    pub fn leaf_count(&self) -> (r: usize)
        ensures
            r == self@.leaf_count,
    {
        self.leaf_count
    }

    pub fn height(&self) -> (r: usize)
        ensures
            r == self@.height,
    {
        self.height
    }

    /// Whether the node at `index` has been set; false out of range.
    pub fn has(&self, index: usize) -> (r: bool)
        ensures
            r == (index < self@.present.len() && self@.present[index as int]),
    {
        match bv_get(&self.bitmap, index) {
            Some(b) => b,
            None => false,
        }
    }

    /// Whether every node of the tree has been set.
    pub fn built(&self) -> (r: bool)
        ensures
            r == self@.all_present(),
    {
        let r = bv_all(&self.bitmap);
        proof {
            if r {
                assert forall|i: int| 0 <= i < self@.present.len() implies self@.present[i] by {
                    assert(bits_of(self.bitmap)[i]);
                }
            } else {
                let w = choose|i: int| !(0 <= i < bits_of(self.bitmap).len() ==> bits_of(self.bitmap)[i]);
                assert(!self@.present[w]);
            }
        }
        r
    }

    /// The 64 bytes of node `index` in the flat hash buffer.
    fn get_hash(&self, index: usize) -> (r: Vec<u8>)
        requires
            self.wf(),
            index < self@.node_count(),
        ensures
            r@ == self@.nodes[index as int],
            r@.len() == 64,
    {
        proof {
            assert(64 * (index as int) + 64 <= self.hashes@.len());
        }
        let byte_index = index * 64;
        let mut r: Vec<u8> = Vec::new();
        let mut i: usize = 0;
        while i < 64
            invariant
                i <= 64,
                self.wf(),
                index < self@.node_count(),
                byte_index == index * 64,
                r@.len() == i,
                r@ =~= self.hashes@.subrange(64 * (index as int), 64 * (index as int) + i),
            decreases 64 - i,
        {
            r.push(self.hashes[byte_index + i]);
            i = i + 1;
        }
        proof {
            assert(r@ =~= self@.nodes[index as int]);
        }
        r
    }

    /// Write the 64 bytes of node `index` and mark the node set.
    fn set_hash(&mut self, index: usize, hash: &Vec<u8>)
        requires
            old(self).wf(),
            index < old(self)@.node_count(),
            hash@.len() == 64,
        ensures
            final(self).wf(),
            final(self)@ =~= old(self)@.with_node(index as int, hash@),
    {
        proof {
            assert(64 * (index as int) + 64 <= self.hashes@.len());
        }
        let byte_index = index * 64;
        let mut i: usize = 0;
        while i < 64
            invariant
                i <= 64,
                byte_index == index * 64,
                64 * (index as int) + 64 <= self.hashes@.len(),
                self.hashes@.len() == old(self).hashes@.len(),
                self.bitmap == old(self).bitmap,
                self.height == old(self).height,
                self.leaf_count == old(self).leaf_count,
                hash@.len() == 64,
                forall|b: int|
                    0 <= b < self.hashes@.len() && !(64 * (index as int) <= b < 64 * (index as int)
                        + i) ==> self.hashes@[b] == old(self).hashes@[b],
                forall|b: int|
                    0 <= b < i ==> self.hashes@[64 * (index as int) + b] == hash@[b],
            decreases 64 - i,
        {
            self.hashes.set(byte_index + i, hash[i]);
            i = i + 1;
        }
        bv_set(&mut self.bitmap, index, true);
        proof {
            let m0 = old(self)@;
            let m1 = self@;
            assert forall|n: int| 0 <= n < m1.nodes.len() implies m1.nodes[n]
                == m0.with_node(index as int, hash@).nodes[n] by {
                assert(64 * n + 64 <= self.hashes@.len());
                if n == index as int {
                    assert(m1.nodes[n] =~= hash@);
                } else {
                    assert(m1.nodes[n] =~= m0.nodes[n]);
                }
            }
            assert(m1.nodes =~= m0.with_node(index as int, hash@).nodes);
        }
    }

    /// Upward hash propagation: starting at a leaf's sibling pair, write
    /// each ascending parent whose required children are all set, stopping
    /// silently at the first missing sibling.
    fn build_down(&mut self, leaf_index: usize)
        requires
            old(self).wf(),
            leaf_index < old(self)@.leaf_count,
        ensures
            final(self).wf(),
            final(self)@ == spec_build_down(
                old(self)@,
                leaf_index as int,
                0,
                old(self)@.leaf_count as int,
                (old(self)@.height - 1) as nat,
            ),
    {
        let ghost m0 = old(self)@;
        let ghost big_l = old(self).leaf_count as nat;
        proof {
            lemma_tree_geometry(big_l);
        }
        let height = self.height;
        let mut ilevel = IndexedLevel::new(leaf_index, 0, self.leaf_count).unwrap();
        let mut step: usize = 0;

        while step < height - 1
            invariant
                m0 == old(self)@,
                self.wf(),
                self.leaf_count == old(self).leaf_count,
                self.height == old(self).height,
                height == self.height,
                big_l == self.leaf_count as nat,
                1 <= big_l,
                height == spec_tree_height(big_l),
                height >= 2,
                step <= height - 1,
                ilevel.level.start == level_lo(big_l, step as nat),
                ilevel.level.end == level_lo(big_l, step as nat) + level_width(big_l, step as nat),
                ilevel.wf(),
                spec_build_down(m0, leaf_index as int, 0, big_l as int, (height - 1) as nat)
                    == spec_build_down(
                    self@,
                    ilevel.index as int,
                    ilevel.level.start as int,
                    ilevel.level.end as int,
                    (height - 1 - step) as nat,
                ),
            decreases height - 1 - step,
        {
            let ghost m_pre = self@;
            let ghost i_s = ilevel.level.start as int;
            let ghost i_e = ilevel.level.end as int;
            let ghost idx = ilevel.index as int;
            let ghost levels = (height - 1 - step) as nat;

            proof {
                lemma_level_in_bounds(big_l, step as nat);
                lemma_level_in_bounds(big_l, (step + 1) as nat);
                self.lemma_wf_view();
                assert(i_e <= self@.node_count());
            }

            let sibs = ilevel.siblings();
            let mut input: Vec<u8> = Vec::new();

            let li = sibs[0].unwrap();
            proof {
                assert(li as int == pair_left(i_s, idx));
                assert(0 <= pair_left(i_s, idx) < m_pre.present.len());
            }
            if !self.has(li) {
                proof {
                    assert(spec_stops(m_pre, idx, i_s, i_e));
                    assert(spec_build_down(m_pre, idx, i_s, i_e, levels) == m_pre);
                    assert(spec_build_down(m0, leaf_index as int, 0, big_l as int, (height - 1) as nat) == m_pre);
                    assert(self@ == m_pre);
                }
                return ;
            }
            let lh = self.get_hash(li);
            input.extend_from_slice(lh.as_slice());

            match sibs[1] {
                Some(ri) => {
                    proof {
                        assert(ri as int == pair_right(i_s, idx));
                        assert(pair_has_right(i_s, i_e, idx));
                        assert(0 <= pair_right(i_s, idx) < m_pre.present.len());
                    }
                    if !self.has(ri) {
                        proof {
                            assert(spec_stops(m_pre, idx, i_s, i_e));
                            assert(spec_build_down(m_pre, idx, i_s, i_e, levels) == m_pre);
                            assert(spec_build_down(m0, leaf_index as int, 0, big_l as int, (height - 1) as nat) == m_pre);
                            assert(self@ == m_pre);
                        }
                        return ;
                    }
                    let rh = self.get_hash(ri);
                    input.extend_from_slice(rh.as_slice());
                    proof {
                        assert(input@ =~= m_pre.nodes[pair_left(i_s, idx)] + m_pre.nodes[pair_right(
                            i_s,
                            idx,
                        )]);
                        assert(input@ == spec_pair_input(m_pre, idx, i_s, i_e));
                    }
                },
                None => {
                    proof {
                        assert(!pair_has_right(i_s, i_e, idx));
                        assert(input@ =~= m_pre.nodes[pair_left(i_s, idx)]);
                        assert(input@ == spec_pair_input(m_pre, idx, i_s, i_e));
                    }
                },
            }

            proof {
                assert((idx - i_s) / 2 < (level_width(big_l, step as nat) + 1) / 2);
            }
            let parent = ilevel.parent();
            let digest = crate::digest::sha512(input.as_slice());
            self.set_hash(parent, &digest);

            proof {
                assert(self@ == m_pre.with_node(parent as int, sha512_of(input@)));
                assert(!spec_stops(m_pre, idx, i_s, i_e));
                assert(spec_parent(i_s, i_e, idx) == parent as int);
                assert(spec_build_down(m_pre, idx, i_s, i_e, levels) == spec_build_down(
                    self@,
                    parent as int,
                    i_e,
                    i_e + (i_e - i_s + 1) / 2,
                    (levels - 1) as nat,
                ));
            }

            ilevel = ilevel.down().unwrap();
            step = step + 1;
        }
    }

    /// Write a leaf hash, mark the leaf present, and propagate upward while
    /// each parent's required children are present.
    pub fn set(&mut self, leaf_index: usize, hash: &Vec<u8>) -> (r: Result<(), Error>)
        requires
            old(self).wf(),
            hash@.len() == 64,
        ensures
            final(self).wf(),
            final(self)@.leaf_count == old(self)@.leaf_count,
            final(self)@.height == old(self)@.height,
            leaf_index >= old(self)@.leaf_count ==> r is Err && final(self)@ == old(self)@,
            leaf_index < old(self)@.leaf_count ==> r is Ok && final(self)@ == spec_tree_set(
                old(self)@,
                leaf_index as int,
                hash@,
            ),
            old(self)@.consistent() && leaf_index < old(self)@.leaf_count
                ==> final(self)@.consistent(),
    {
        if leaf_index >= self.leaf_count {
            return Err(Error { message: "leaf index out of range".to_string() });
        }

        proof {
            lemma_node_count_ge(self.leaf_count as nat);
        }
        self.set_hash(leaf_index, hash);
        proof {
            assert(self@ == old(self)@.with_node(leaf_index as int, hash@));
            lemma_build_down_shape(
                self@,
                leaf_index as int,
                0,
                self@.leaf_count as int,
                (self@.height - 1) as nat,
            );
        }
        self.build_down(leaf_index);
        proof {
            if old(self)@.consistent() {
                lemma_tree_set_consistent(old(self)@, leaf_index as int, hash@);
            }
        }
        Ok(())
    }

    /// The hash stored for a leaf; an error when the index is out of range.
    pub fn get(&self, leaf_index: usize) -> (r: Result<Vec<u8>, Error>)
        requires
            self.wf(),
        ensures
            leaf_index < self@.leaf_count ==> (r matches Ok(h) && h@ == self@.nodes[leaf_index as int]),
            leaf_index >= self@.leaf_count ==> r is Err,
    {
        if leaf_index >= self.leaf_count {
            return Err(Error { message: "leaf index out of range".to_string() });
        }

        proof {
            lemma_node_count_ge(self.leaf_count as nat);
        }
        Ok(self.get_hash(leaf_index))
    }

    /// The 64 bytes of any node, leaf or internal; an error out of range.
    pub fn node_hash(&self, index: usize) -> (r: Result<Vec<u8>, Error>)
        requires
            self.wf(),
        ensures
            index < self@.node_count() ==> (r matches Ok(h) && h@ == self@.nodes[index as int]),
            index >= self@.node_count() ==> r is Err,
    {
        let (size, _) = tree_size(self.leaf_count);
        if index >= size {
            return Err(Error { message: "node index out of range".to_string() });
        }
        Ok(self.get_hash(index))
    }

    /// The set-bit of every node, in index order.
    pub fn snapshot_bits(&self) -> (r: Vec<bool>)
        requires
            self.wf(),
        ensures
            r@.len() == self@.node_count(),
            forall|i: int| 0 <= i < r@.len() ==> #[trigger] r@[i] == self@.present[i],
    {
        let (size, _) = tree_size(self.leaf_count);
        let mut r: Vec<bool> = Vec::new();
        let mut i: usize = 0;
        while i < size
            invariant
                self.wf(),
                size == self@.node_count(),
                i <= size,
                r@.len() == i,
                forall|t: int| 0 <= t < i ==> #[trigger] r@[t] == self@.present[t],
            decreases size - i,
        {
            r.push(self.has(i));
            i = i + 1;
        }
        r
    }

    /// The flat hash buffer: 64 bytes per node, in index order.
    pub fn snapshot_hashes(&self) -> (r: Vec<u8>)
        requires
            self.wf(),
        ensures
            r@.len() == self@.node_count() * 64,
            forall|i: int|
                0 <= i < self@.node_count() ==> r@.subrange(64 * i, 64 * i + 64)
                    == #[trigger] self@.nodes[i],
    {
        let mut r: Vec<u8> = Vec::new();
        let mut i: usize = 0;
        let n = self.hashes.len();
        while i < n
            invariant
                i <= n,
                n == self.hashes@.len(),
                r@ =~= self.hashes@.subrange(0, i as int),
            decreases n - i,
        {
            r.push(self.hashes[i]);
            i = i + 1;
        }
        proof {
            assert(r@ =~= self.hashes@);
            assert forall|i2: int| 0 <= i2 < self@.node_count() implies r@.subrange(
                64 * i2,
                64 * i2 + 64,
            ) == #[trigger] self@.nodes[i2] by {
                assert(64 * i2 + 64 <= self.hashes@.len());
                assert(r@.subrange(64 * i2, 64 * i2 + 64) =~= self.hashes@.subrange(
                    64 * i2,
                    64 * i2 + 64,
                ));
            }
        }
        r
    }

    /// Rebuild a tree from its persisted parts, checking that they fit the
    /// geometry determined by the leaf count.
    pub fn from_parts(bits: &Vec<bool>, hashes: Vec<u8>, leaf_count: usize) -> (r: Result<
        Self,
        Error,
    >)
        requires
            leaf_count <= usize::MAX / 256,
        ensures
            r matches Ok(t) ==> {
                &&& t.wf()
                &&& t@.leaf_count == leaf_count
                &&& t@.present.len() == bits@.len()
                &&& (forall|i: int| 0 <= i < bits@.len() ==> #[trigger] t@.present[i] == bits@[i])
                &&& (forall|i: int|
                    0 <= i < t@.node_count() ==> #[trigger] t@.nodes[i] == hashes@.subrange(
                        64 * i,
                        64 * i + 64,
                    ))
            },
            bits@.len() == spec_node_count(leaf_count as nat) && hashes@.len()
                == spec_node_count(leaf_count as nat) * 64 ==> r is Ok,
            bits@.len() != spec_node_count(leaf_count as nat) ==> r is Err,
            hashes@.len() != spec_node_count(leaf_count as nat) * 64 ==> r is Err,
    {
        proof {
            lemma_node_count_bound(leaf_count as nat);
        }
        let (size, height) = tree_size(leaf_count);
        if bits.len() != size {
            return Err(Error { message: "bitmap does not fit the tree size".to_string() });
        }
        if hashes.len() != size * 64 {
            return Err(Error { message: "hash buffer does not fit the tree size".to_string() });
        }

        let mut bitmap = bv_from_elem(size, false);
        let mut i: usize = 0;
        while i < size
            invariant
                i <= size,
                size == bits@.len(),
                bits_of(bitmap).len() == size,
                forall|t: int| 0 <= t < i ==> #[trigger] bits_of(bitmap)[t] == bits@[t],
                forall|t: int| i <= t < size ==> !(#[trigger] bits_of(bitmap)[t]),
            decreases size - i,
        {
            if bits[i] {
                bv_set(&mut bitmap, i, true);
            }
            i = i + 1;
        }

        let t = MerkleTree { bitmap, hashes, height, leaf_count };
        Ok(t)
    }

    /// Build every internal level bottom-up from the set leaves.
    fn build(&mut self)
        requires
            old(self).wf(),
            old(self)@.leaf_count >= 1,
            forall|i: int| 0 <= i < old(self)@.leaf_count ==> old(self)@.present[i],
        ensures
            final(self).wf(),
            final(self)@.leaf_count == old(self)@.leaf_count,
            final(self)@.height == old(self)@.height,
            final(self)@.all_present(),
            final(self)@.consistent(),
            forall|i: int|
                0 <= i < old(self)@.leaf_count ==> final(self)@.nodes[i] == old(self)@.nodes[i],
    {
        let ghost big_l = old(self).leaf_count as nat;
        proof {
            lemma_tree_geometry(big_l);
        }
        let height = self.height;
        let mut k: usize = 0;
        let mut lo: usize = 0;
        let mut w = self.leaf_count;

        while k + 1 < height
            invariant
                self.wf(),
                self.leaf_count == old(self).leaf_count,
                self.height == old(self).height,
                height == self.height,
                big_l == self.leaf_count as nat,
                1 <= big_l,
                height == spec_tree_height(big_l),
                height >= 2,
                k <= height - 1,
                lo == level_lo(big_l, k as nat),
                w == level_width(big_l, k as nat),
                forall|i: int| 0 <= i < lo + w ==> self@.present[i],
                forall|kk: nat, j: nat|
                    1 <= kk <= k && j < level_width(big_l, kk) ==> #[trigger] self@.node_ok(kk, j),
                forall|i: int|
                    0 <= i < old(self)@.leaf_count ==> self@.nodes[i] == old(self)@.nodes[i],
            decreases height - 1 - k,
        {
            proof {
                lemma_level_in_bounds(big_l, k as nat);
                lemma_level_in_bounds(big_l, (k + 1) as nat);
                lemma_width_pos(big_l, (k + 1) as nat);
                self.lemma_wf_view();
            }
            let w2 = (w + 1) / 2;
            let mut j: usize = 0;

            while j < w2
                invariant
                    self.wf(),
                    self.leaf_count == old(self).leaf_count,
                    self.height == old(self).height,
                    height == self.height,
                    big_l == self.leaf_count as nat,
                    1 <= big_l,
                    height == spec_tree_height(big_l),
                    k + 1 < height,
                    lo == level_lo(big_l, k as nat),
                    w == level_width(big_l, k as nat),
                    w2 == level_width(big_l, (k + 1) as nat),
                    lo + w == level_lo(big_l, (k + 1) as nat),
                    lo + w + w2 <= self@.node_count(),
                    j <= w2,
                    forall|i: int| 0 <= i < lo + w + j ==> self@.present[i],
                    forall|kk: nat, jj: nat|
                        1 <= kk <= k && jj < level_width(big_l, kk) ==> #[trigger] self@.node_ok(
                            kk,
                            jj,
                        ),
                    forall|jj: nat| jj < j ==> #[trigger] self@.node_ok((k + 1) as nat, jj),
                    forall|i: int|
                        0 <= i < old(self)@.leaf_count ==> self@.nodes[i] == old(self)@.nodes[i],
                decreases w2 - j,
            {
                let ghost m_pre = self@;
                proof {
                    self.lemma_wf_view();
                    assert(2 * j < w + 1);
                }
                let li = lo + 2 * j;
                let mut input = self.get_hash(li);
                if 2 * j + 1 < w {
                    let rh = self.get_hash(li + 1);
                    input.extend_from_slice(rh.as_slice());
                    proof {
                        assert(input@ =~= m_pre.nodes[li as int] + m_pre.nodes[li as int + 1]);
                    }
                }
                let parent = lo + w + j;
                let digest = crate::digest::sha512(input.as_slice());
                self.set_hash(parent, &digest);

                proof {
                    let m_post = self@;
                    assert(m_post == m_pre.with_node(parent as int, sha512_of(input@)));
                    assert forall|i: int| 0 <= i < m_pre.nodes.len() && i != parent as int implies
                        m_post.nodes[i] == m_pre.nodes[i] && m_post.present[i]
                        == m_pre.present[i] by {}
                    assert(input@ == m_post.child_input((k + 1) as nat, j as nat));
                    assert(m_post.children_present((k + 1) as nat, j as nat));
                    assert(m_post.node_ok((k + 1) as nat, j as nat));
                    assert(level_lo(big_l, 1) == level_lo(big_l, 0) + level_width(big_l, 0));
                    lemma_lo_monotone(big_l, 1, (k + 1) as nat);
                    assert(parent as int >= big_l);
                    assert forall|kk: nat, jj: nat|
                        1 <= kk <= k && jj < level_width(big_l, kk) implies #[trigger] m_post.node_ok(
                        kk,
                        jj,
                    ) by {
                        assert(m_pre.node_ok(kk, jj));
                        lemma_level_in_bounds(big_l, (kk - 1) as nat);
                        lemma_level_in_bounds(big_l, kk);
                        lemma_lo_monotone(big_l, (kk + 1) as nat, (k + 1) as nat);
                        assert(2 * jj <= level_width(big_l, (kk - 1) as nat) - 1);
                        assert(level_lo(big_l, kk) + jj < level_lo(big_l, (k + 1) as nat));
                        assert(level_lo(big_l, (k + 1) as nat) <= parent as int);
                        assert(m_post.nodes[(level_lo(big_l, kk) + jj) as int] == m_pre.nodes[(
                        level_lo(big_l, kk) + jj) as int]);
                        assert(m_post.child_input(kk, jj) == m_pre.child_input(kk, jj));
                    }
                    assert forall|jj: nat| jj < j + 1 implies #[trigger] m_post.node_ok(
                        (k + 1) as nat,
                        jj,
                    ) by {
                        if jj < j {
                            assert(m_pre.node_ok((k + 1) as nat, jj));
                        }
                    }
                }
                j = j + 1;
            }

            lo = lo + w;
            w = w2;
            k = k + 1;
        }

        proof {
            lemma_tree_geometry(big_l);
            assert(lo + w == self@.node_count());
            assert forall|i: int| 0 <= i < self@.present.len() implies self@.present[i] by {}
            assert forall|kk: nat, j: nat|
                1 <= kk < self@.height && j < level_width(big_l, kk) && self@.present[(level_lo(
                    big_l,
                    kk,
                ) + j) as int] implies #[trigger] self@.node_ok(kk, j) by {
                assert(kk <= k);
            }
        }
    }

    /// Build a tree from data blocks: leaf `i` holds the digest of block
    /// `i`, every leaf is set, and all internal nodes are computed bottom-up
    /// so that the tree is fully built.
    pub fn from_blocks(blocks: &Vec<Vec<u8>>) -> (r: Self)
        requires
            spec_node_count(blocks@.len()) * 64 <= usize::MAX,
        ensures
            r.wf(),
            r@.leaf_count == blocks@.len(),
            forall|i: int| 0 <= i < blocks@.len() ==> r@.nodes[i] == sha512_of(blocks@[i]@),
            blocks@.len() >= 1 ==> r@.all_present() && r@.consistent(),
            blocks@.len() == 0 ==> !r@.all_present(),
    {
        let mut tree = MerkleTree::new(blocks.len());
        proof {
            lemma_node_count_ge(blocks@.len());
        }
        let mut i: usize = 0;
        while i < blocks.len()
            invariant
                tree.wf(),
                tree@.leaf_count == blocks@.len(),
                i <= blocks@.len(),
                blocks@.len() < tree@.node_count(),
                forall|j: int|
                    0 <= j < i ==> tree@.present[j] && tree@.nodes[j] == sha512_of(blocks@[j]@),
                forall|j: int| i <= j < tree@.present.len() ==> !tree@.present[j],
            decreases blocks@.len() - i,
        {
            let h = crate::digest::sha512(blocks[i].as_slice());
            tree.set_hash(i, &h);
            i = i + 1;
        }
        if blocks.len() > 0 {
            tree.build();
        } else {
            proof {
                assert(!tree@.present[0]);
            }
        }
        tree
    }

    /// Generate a proof for a leaf: walk up the levels collecting sibling
    /// hashes, ending early at a sibling that exists but is not yet set. A
    /// path shorter than two entries is rejected.
    pub fn prove(&self, leaf_index: usize) -> (r: Result<Proof, crate::merkle_proof::Error>)
        requires
            self.wf(),
            leaf_index < self@.leaf_count,
        ensures
            ({
                let p = spec_proof(self@, leaf_index as int);
                &&& p.path.len() >= 2 ==> (r matches Ok(pr) && pr@ == p)
                &&& p.path.len() < 2 ==> (r matches Err(e) && e.kind
                    == crate::merkle_proof::ErrorKind::InvalidLength)
            }),
    {
        let ghost m = self@;
        let ghost big_l = self.leaf_count as nat;
        proof {
            lemma_tree_geometry(big_l);
            lemma_node_count_ge(big_l);
            self.lemma_wf_view();
        }
        let height = self.height;
        let mut path: Vec<Option<Vec<u8>>> = Vec::new();
        let mut ilevel = IndexedLevel::new(leaf_index, 0, self.leaf_count).unwrap();
        let mut step: usize = 0;
        let mut stop = false;

        while step < height && !stop
            invariant
                m == self@,
                self.wf(),
                big_l == self.leaf_count as nat,
                1 <= big_l,
                height == self.height,
                height == spec_tree_height(big_l),
                height >= 2,
                step <= height,
                !stop ==> ilevel.level.start == level_lo(big_l, step as nat),
                !stop ==> ilevel.level.end == level_lo(big_l, step as nat) + level_width(
                    big_l,
                    step as nat,
                ),
                !stop ==> ilevel.wf(),
                spec_path(m, leaf_index as int, 0, big_l as int, height as nat) == if stop {
                    crate::merkle_proof::spec_entries(path@)
                } else {
                    crate::merkle_proof::spec_entries(path@) + spec_path(
                        m,
                        ilevel.index as int,
                        ilevel.level.start as int,
                        ilevel.level.end as int,
                        (height - step) as nat,
                    )
                },
            decreases height - step, (if stop { 0int } else { 1int }),
        {
            let ghost i_s = ilevel.level.start as int;
            let ghost i_e = ilevel.level.end as int;
            let ghost idx = ilevel.index as int;
            let ghost old_path = path@;

            proof {
                lemma_level_in_bounds(big_l, step as nat);
                self.lemma_wf_view();
            }

            let entry: Option<Vec<u8>>;
            match ilevel.sibling() {
                Some(index) => {
                    proof {
                        assert(spec_sib(i_s, i_e, idx) == Some(index as int));
                        assert(0 <= index < m.present.len());
                    }
                    if self.has(index) {
                        entry = Some(self.get_hash(index));
                    } else {
                        stop = true;
                        entry = None;
                        proof {
                            assert(spec_path(m, idx, i_s, i_e, (height - step) as nat)
                                =~= Seq::<Option<Seq<u8>>>::empty());
                            assert(crate::merkle_proof::spec_entries(path@) + Seq::<
                                Option<Seq<u8>>,
                            >::empty() =~= crate::merkle_proof::spec_entries(path@));
                        }
                    }
                },
                None => {
                    proof {
                        assert(spec_sib(i_s, i_e, idx) is None);
                    }
                    entry = None;
                },
            }

            if !stop {
                let ghost ev = crate::merkle_proof::entry_view(entry);
                path.push(entry);
                proof {
                    assert(crate::merkle_proof::spec_entries(path@) =~= crate::merkle_proof::spec_entries(
                        old_path,
                    ).push(ev));
                    assert(spec_path(m, idx, i_s, i_e, (height - step) as nat) == seq![ev]
                        + spec_path(
                        m,
                        spec_parent(i_s, i_e, idx),
                        i_e,
                        i_e + (i_e - i_s + 1) / 2,
                        (height - step - 1) as nat,
                    ));
                    assert(crate::merkle_proof::spec_entries(old_path) + (seq![ev] + spec_path(
                        m,
                        spec_parent(i_s, i_e, idx),
                        i_e,
                        i_e + (i_e - i_s + 1) / 2,
                        (height - step - 1) as nat,
                    )) =~= crate::merkle_proof::spec_entries(path@) + spec_path(
                        m,
                        spec_parent(i_s, i_e, idx),
                        i_e,
                        i_e + (i_e - i_s + 1) / 2,
                        (height - step - 1) as nat,
                    ));
                }
                ilevel = ilevel.down().unwrap();
                step = step + 1;
            }
        }

        if path.len() < 2 {
            return Err(crate::merkle_proof::Error::new(
                crate::merkle_proof::ErrorKind::InvalidLength,
            ));
        }

        proof {
            lemma_node_count_ge(big_l);
        }
        Ok(
            Proof {
                leaf_index,
                leaf_hash: self.get_hash(leaf_index),
                path,
                partial: !self.built(),
            },
        )
    }

    /// Check a proof against the locally known hashes: the leaf must be in
    /// range, the path long enough, the leaf hash equal to the stored one,
    /// and the proof must validate against a locally generated one.
    pub fn verify(&self, proof_arg: &Proof) -> (r: Result<(), crate::merkle_proof::Error>)
        requires
            self.wf(),
        ensures
            ({
                let v = spec_verify(self@, proof_arg@);
                match r {
                    Ok(_) => v is None,
                    Err(e) => v == Some(e.kind),
                }
            }),
    {
        if proof_arg.leaf_index >= self.leaf_count {
            return Err(crate::merkle_proof::Error::new(
                crate::merkle_proof::ErrorKind::IndexOutOfRange,
            ));
        }
        if proof_arg.path.len() < 2 {
            return Err(crate::merkle_proof::Error::new(
                crate::merkle_proof::ErrorKind::InvalidLength,
            ));
        }

        proof {
            lemma_node_count_ge(self.leaf_count as nat);
        }
        let local_hash = self.get_hash(proof_arg.leaf_index);
        if !hash_eq(&local_hash, &proof_arg.leaf_hash) {
            return Err(crate::merkle_proof::Error::new(
                crate::merkle_proof::ErrorKind::InvalidHash,
            ));
        }

        match self.prove(proof_arg.leaf_index) {
            Ok(local) => local.validate(proof_arg),
            Err(e) => Err(e),
        }
    }
}

/// Tree layout: in a fully built consistent tree — as `from_blocks`
/// produces — the node count is as the geometry dictates, and every internal
/// node carries the digest of its children: the two in order, or the lone
/// left child alone at an odd tail.
pub proof fn lemma_built_tree_nodes(m: TreeModel, kk: nat, j: nat)
    requires
        m.wf(),
        m.leaf_count >= 1,
        m.all_present(),
        m.consistent(),
        1 <= kk < m.height,
        j < level_width(m.leaf_count, kk),
    ensures
        m.node_count() == spec_node_count(m.leaf_count),
        m.node_ok(kk, j),
{
    lemma_level_in_bounds(m.leaf_count, kk);
    lemma_lo_monotone(m.leaf_count, kk, kk);
    assert(m.present[(level_lo(m.leaf_count, kk) + j) as int]);
}

/// On a fully built tree the proof path from any node runs the full
/// remaining height: every sibling on the way is set.
proof fn lemma_path_full(m: TreeModel, i: int, k: nat)
    requires
        m.wf(),
        m.leaf_count >= 1,
        m.all_present(),
        k < m.height,
        level_lo(m.leaf_count, k) <= i < level_lo(m.leaf_count, k) + level_width(m.leaf_count, k),
    ensures
        spec_path(
            m,
            i,
            level_lo(m.leaf_count, k) as int,
            (level_lo(m.leaf_count, k) + level_width(m.leaf_count, k)) as int,
            (m.height - k) as nat,
        ).len() == m.height - k,
    decreases m.height - k,
{
    let big_l = m.leaf_count;
    let lo = level_lo(big_l, k) as int;
    let w = level_width(big_l, k) as int;
    let hi = lo + w;
    lemma_level_in_bounds(big_l, k);
    lemma_tree_geometry(big_l);
    let levels = (m.height - k) as nat;
    let p = spec_parent(lo, hi, i);

    match spec_sib(lo, hi, i) {
        Some(s) => {
            assert(lo <= s < hi);
            assert(0 <= s < m.present.len());
            assert(m.present[s]);
        },
        None => {},
    }

    if k + 1 == m.height {
        assert(spec_path(m, p, hi, hi + (hi - lo + 1) / 2, 0) =~= Seq::<Option<Seq<u8>>>::empty());
        assert(spec_path(m, i, lo, hi, 1).len() == 1);
    } else {
        lemma_level_in_bounds(big_l, k + 1);
        assert(level_width(big_l, k + 1) == (level_width(big_l, k) + 1) / 2);
        assert((i - lo) / 2 < (w + 1) / 2);
        assert(level_lo(big_l, k + 1) <= p < level_lo(big_l, k + 1) + level_width(big_l, k + 1));
        lemma_path_full(m, p, k + 1);
        assert(spec_path(m, p, hi, hi + (hi - lo + 1) / 2, (levels - 1) as nat).len() == m.height
            - k - 1);
    }
}

/// Proof round-trip: a fully built tree accepts every proof it generates.
pub proof fn lemma_proof_round_trip(m: TreeModel, i: int)
    requires
        m.wf(),
        m.leaf_count >= 1,
        m.all_present(),
        0 <= i < m.leaf_count,
    ensures
        spec_proof(m, i).path.len() == m.height >= 2,
        spec_verify(m, spec_proof(m, i)) is None,
{
    lemma_tree_geometry(m.leaf_count);
    lemma_node_count_ge(m.leaf_count);
    assert(level_lo(m.leaf_count, 0) == 0);
    assert(level_width(m.leaf_count, 0) == m.leaf_count);
    lemma_path_full(m, i, 0);
    let p = spec_proof(m, i);
    assert(crate::merkle_proof::spec_prefix_eq(p.path, p.path));
    assert(crate::merkle_proof::spec_validate(p, p) is None);
}

/// Tampering detection: on a fully built tree, a proof for a valid leaf that
/// claims completeness but differs anywhere from the generated one is
/// rejected as InvalidHash (a changed leaf hash or path entry) or
/// InvalidLength (a changed path length).
pub proof fn lemma_proof_tamper(m: TreeModel, i: int, q: crate::merkle_proof::ProofModel)
    requires
        m.wf(),
        m.leaf_count >= 1,
        m.all_present(),
        0 <= i < m.leaf_count,
        q.leaf_index == i,
        q.partial == false,
        q != spec_proof(m, i),
    ensures
        spec_verify(m, q) == Some(crate::merkle_proof::ErrorKind::InvalidHash) || spec_verify(m, q)
            == Some(crate::merkle_proof::ErrorKind::InvalidLength),
{
    lemma_proof_round_trip(m, i);
    let p = spec_proof(m, i);
    if q.path.len() < 2 {
    } else if q.leaf_hash != m.nodes[i] {
    } else if q.path.len() != p.path.len() {
        assert(crate::merkle_proof::spec_validate(p, q) == Some(
            crate::merkle_proof::ErrorKind::InvalidLength,
        ));
    } else if !crate::merkle_proof::spec_prefix_eq(p.path, q.path) {
        assert(crate::merkle_proof::spec_validate(p, q) == Some(
            crate::merkle_proof::ErrorKind::InvalidHash,
        ));
    } else {
        assert forall|j: int| 0 <= j < p.path.len() implies p.path[j] == q.path[j] by {}
        assert(p.path =~= q.path);
        assert(p =~= q);
        assert(false);
    }
}

/// Partial-proof detection, first half: on a tree that is not fully built,
/// a generated proof whose partial flag is forged to claim completeness is
/// rejected as PartialProof.
pub proof fn lemma_forged_complete_proof(m: TreeModel, i: int, q: crate::merkle_proof::ProofModel)
    requires
        m.wf(),
        m.leaf_count >= 1,
        !m.all_present(),
        0 <= i < m.leaf_count,
        spec_proof(m, i).path.len() >= 2,
        q == (crate::merkle_proof::ProofModel { partial: false, ..spec_proof(m, i) }),
    ensures
        spec_verify(m, q) == Some(crate::merkle_proof::ErrorKind::PartialProof),
{
    let p = spec_proof(m, i);
    assert(crate::merkle_proof::spec_prefix_eq(p.path, q.path));
    assert(crate::merkle_proof::spec_validate(p, q) == Some(
        crate::merkle_proof::ErrorKind::PartialProof,
    ));
}

/// Partial-proof detection, second half: a truthful partial proof, its path
/// a shortened prefix of the full one, is rejected by a fully built tree as
/// PartialProof.
pub proof fn lemma_partial_proof_against_built(
    m: TreeModel,
    i: int,
    q: crate::merkle_proof::ProofModel,
)
    requires
        m.wf(),
        m.leaf_count >= 1,
        m.all_present(),
        0 <= i < m.leaf_count,
        q.leaf_index == i,
        q.partial == true,
        q.leaf_hash == m.nodes[i],
        2 <= q.path.len() <= spec_proof(m, i).path.len(),
        q.path == spec_proof(m, i).path.take(q.path.len() as int),
    ensures
        spec_verify(m, q) == Some(crate::merkle_proof::ErrorKind::PartialProof),
{
    let p = spec_proof(m, i);
    lemma_proof_round_trip(m, i);
    assert forall|j: int| 0 <= j < q.path.len() implies p.path[j] == q.path[j] by {
        assert(q.path[j] == p.path.take(q.path.len() as int)[j]);
    }
    assert(crate::merkle_proof::spec_prefix_eq(p.path, q.path));
    assert(crate::merkle_proof::spec_validate(p, q) == Some(
        crate::merkle_proof::ErrorKind::PartialProof,
    ));
}

/// Whether two hashes hold the same bytes.
fn hash_eq(a: &Vec<u8>, b: &Vec<u8>) -> (r: bool)
    ensures
        r == (a@ == b@),
{
    if a.len() != b.len() {
        return false;
    }
    let mut i: usize = 0;
    while i < a.len()
        invariant
            i <= a@.len(),
            a@.len() == b@.len(),
            forall|j: int| 0 <= j < i ==> a@[j] == b@[j],
        decreases a@.len() - i,
    {
        if a[i] != b[i] {
            proof {
                assert(a@[i as int] != b@[i as int]);
                assert(a@ != b@);
            }
            return false;
        }
        i = i + 1;
    }
    proof {
        assert(a@ =~= b@);
    }
    true
}

} // verus!
