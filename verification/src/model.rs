//! The mathematical model of an embedding.
//!
//! For a well formed tree model (see [`crate::tree::wf_tree`]) these spec
//! functions define, per node, every quantity the embedder computes: the
//! extent of the node's own label, the extent of its whole subtree, its
//! level, its horizontal center and its post-order rank.  The contracts of
//! the embedder are stated in terms of these functions.
//!
//! All functions recurse either towards larger indices (into children,
//! which always have larger indices than their parent) or towards smaller
//! indices (to the parent); both directions are well founded without any
//! well-formedness assumption, so every function is total.  On indices that
//! a well formed tree cannot present the functions return harmless default
//! values.

use vstd::prelude::*;

use crate::tree::{NodeView, node_extent};

verus! {

/// The larger of two integers.
pub open spec fn int_max(a: int, b: int) -> int {
    if a >= b {
        a
    } else {
        b
    }
}

/// The extent of the subtree rooted in node `i`: the horizontal footprint
/// the node reserves for itself and all of its descendants.  It is the
/// maximum of the node's own label extent and the summed extents of the
/// subtrees of its children.
pub open spec fn subtree_extent(t: Seq<NodeView>, i: int) -> int
    decreases t.len() - i, t[i].children.len() + 1,
{
    if 0 <= i < t.len() {
        int_max(node_extent(t[i]), children_extent(t, i, t[i].children.len() as int))
    } else {
        0
    }
}

/// The summed subtree extents of the first `k` children of node `i`.
pub open spec fn children_extent(t: Seq<NodeView>, i: int, k: int) -> int
    decreases t.len() - i, k,
{
    if !(0 <= i < t.len()) || k <= 0 || k > t[i].children.len() {
        0
    } else {
        let c = t[i].children[k - 1];
        children_extent(t, i, k - 1) + if i < c < t.len() {
            subtree_extent(t, c)
        } else {
            0
        }
    }
}

/// The number of nodes in the subtree rooted in node `i`.
pub open spec fn subtree_size(t: Seq<NodeView>, i: int) -> int
    decreases t.len() - i, t[i].children.len() + 1,
{
    if 0 <= i < t.len() {
        1 + children_size(t, i, t[i].children.len() as int)
    } else {
        0
    }
}

/// The summed sizes of the subtrees of the first `k` children of node `i`.
pub open spec fn children_size(t: Seq<NodeView>, i: int, k: int) -> int
    decreases t.len() - i, k,
{
    if !(0 <= i < t.len()) || k <= 0 || k > t[i].children.len() {
        0
    } else {
        let c = t[i].children[k - 1];
        children_size(t, i, k - 1) + if i < c < t.len() {
            subtree_size(t, c)
        } else {
            0
        }
    }
}

/// The level of node `i`: its number of ancestors.  The root has level `0`.
pub open spec fn level_of(t: Seq<NodeView>, i: int) -> int
    decreases i,
{
    if !(0 < i < t.len()) {
        0
    } else {
        let p = t[i].parent->Some_0;
        if t[i].parent is Some && 0 <= p < i {
            level_of(t, p) + 1
        } else {
            0
        }
    }
}

/// The position of node `i` in the children list of its parent.
pub open spec fn child_pos(t: Seq<NodeView>, i: int) -> int {
    t[t[i].parent->Some_0].children.index_of(i)
}

/// The horizontal center of node `i`.
///
/// The root is centered in its own subtree extent.  The children of a node
/// are packed contiguously, from left to right in declaration order, into a
/// block of their summed subtree extents that is centered below the parent;
/// every child is centered within its own reserved footprint.
pub open spec fn center_of(t: Seq<NodeView>, i: int) -> int
    decreases i,
{
    if !(0 <= i < t.len()) {
        0
    } else if i == 0 {
        subtree_extent(t, 0) / 2
    } else {
        let p = t[i].parent->Some_0;
        if t[i].parent is Some && 0 <= p < i {
            center_of(t, p) - children_extent(t, p, t[p].children.len() as int) / 2
                + children_extent(t, p, child_pos(t, i)) + subtree_extent(t, i) / 2
        } else {
            0
        }
    }
}

/// The first post-order rank inside the subtree rooted in node `i`: the
/// rank of its leftmost descendant leaf.
pub open spec fn post_start(t: Seq<NodeView>, i: int) -> int
    decreases i,
{
    if !(0 < i < t.len()) {
        0
    } else {
        let p = t[i].parent->Some_0;
        if t[i].parent is Some && 0 <= p < i {
            post_start(t, p) + children_size(t, p, child_pos(t, i))
        } else {
            0
        }
    }
}

/// The post-order rank of node `i`: a post-order traversal visits the
/// subtrees of the children in declaration order and the node itself last,
/// so the node occupies the last slot of its subtree's rank interval.
pub open spec fn post_rank(t: Seq<NodeView>, i: int) -> int {
    post_start(t, i) + subtree_size(t, i) - 1
}

/// Every subtree extent is at least the node's own extent, which is
/// positive, and the summed child extents are nonnegative and grow with
/// the number of children taken.
pub proof fn lemma_subtree_extent_pos(t: Seq<NodeView>, i: int)
    requires
        0 <= i < t.len(),
    ensures
        subtree_extent(t, i) >= node_extent(t[i]) >= 1,
        subtree_extent(t, i) >= children_extent(t, i, t[i].children.len() as int),
    decreases t.len() - i, t[i].children.len() + 1,
{
}

pub proof fn lemma_children_extent_nonneg(t: Seq<NodeView>, i: int, k: int)
    ensures
        children_extent(t, i, k) >= 0,
    decreases t.len() - i, k,
{
    if 0 <= i < t.len() && 0 < k <= t[i].children.len() {
        lemma_children_extent_nonneg(t, i, k - 1);
        let c = t[i].children[k - 1];
        if i < c < t.len() {
            lemma_subtree_extent_pos(t, c);
        }
    }
}

/// Taking more children never shrinks the summed extent.
pub proof fn lemma_children_extent_monotone(t: Seq<NodeView>, i: int, k1: int, k2: int)
    requires
        0 <= k1 <= k2,
        0 <= i < t.len() ==> k2 <= t[i].children.len(),
    ensures
        children_extent(t, i, k1) <= children_extent(t, i, k2),
    decreases k2 - k1,
{
    if k1 < k2 && 0 <= i < t.len() {
        lemma_children_extent_monotone(t, i, k1, k2 - 1);
        let c = t[i].children[k2 - 1];
        if i < c < t.len() {
            lemma_subtree_extent_pos(t, c);
        }
    }
}

/// Every subtree holds at least the node itself, and the summed child
/// sizes are nonnegative and grow with the number of children taken.
pub proof fn lemma_subtree_size_pos(t: Seq<NodeView>, i: int)
    requires
        0 <= i < t.len(),
    ensures
        subtree_size(t, i) >= 1,
        subtree_size(t, i) == 1 + children_size(t, i, t[i].children.len() as int),
    decreases t.len() - i, t[i].children.len() + 1,
{
    lemma_children_size_nonneg(t, i, t[i].children.len() as int);
}

pub proof fn lemma_children_size_nonneg(t: Seq<NodeView>, i: int, k: int)
    ensures
        children_size(t, i, k) >= 0,
    decreases t.len() - i, k,
{
    if 0 <= i < t.len() && 0 < k <= t[i].children.len() {
        lemma_children_size_nonneg(t, i, k - 1);
        let c = t[i].children[k - 1];
        if i < c < t.len() {
            lemma_subtree_size_pos(t, c);
        }
    }
}

pub proof fn lemma_children_size_monotone(t: Seq<NodeView>, i: int, k1: int, k2: int)
    requires
        0 <= k1 <= k2,
        0 <= i < t.len() ==> k2 <= t[i].children.len(),
    ensures
        children_size(t, i, k1) <= children_size(t, i, k2),
    decreases k2 - k1,
{
    if k1 < k2 && 0 <= i < t.len() {
        lemma_children_size_monotone(t, i, k1, k2 - 1);
        let c = t[i].children[k2 - 1];
        if i < c < t.len() {
            lemma_subtree_size_pos(t, c);
        }
    }
}

/// Levels are nonnegative and bounded by the node's index: every step to
/// the parent strictly decreases the index.
pub proof fn lemma_level_bounds(t: Seq<NodeView>, i: int)
    ensures
        0 <= level_of(t, i),
        level_of(t, i) <= i || level_of(t, i) == 0,
    decreases i,
{
    if 0 < i < t.len() {
        let p = t[i].parent->Some_0;
        if t[i].parent is Some && 0 <= p < i {
            lemma_level_bounds(t, p);
        }
    }
}

/// The left edge of the footprint node `i` reserves.  Because the center
/// sits at the left edge plus half the extent, rounded down, the half
/// cancels exactly: the footprint is the half-open interval from
/// `foot_left` of width [`subtree_extent`].
pub open spec fn foot_left(t: Seq<NodeView>, i: int) -> int {
    center_of(t, i) - subtree_extent(t, i) / 2
}

} // verus!
