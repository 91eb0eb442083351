//! Ancestry, subtree counting, and the facts that make the post-order
//! ranks of a well formed tree a permutation.
//!
//! The central device is [`masked_sum`]: the sum of a weight sequence over
//! the indices that satisfy a predicate.  Taking the predicate "node `a` is
//! an ancestor of the index" shows that the recursively defined weight of a
//! subtree counts every descendant exactly once ([`lemma_weight_eq`]); with
//! the weight one per node this bounds subtree sizes and makes post-order
//! ranks injective, and with the label extent as the weight it bounds every
//! subtree extent by the total extent of the tree.

use vstd::prelude::*;

use crate::model::{
    center_of,
    child_pos,
    foot_left,
    level_of,
    children_extent,
    children_size,
    lemma_children_extent_monotone,
    lemma_children_extent_nonneg,
    lemma_children_size_monotone,
    lemma_children_size_nonneg,
    lemma_subtree_extent_pos,
    lemma_subtree_size_pos,
    post_rank,
    post_start,
    subtree_extent,
    subtree_size,
};
use crate::tree::{node_extent, total_extent_of, wf_tree, NodeView};

verus! {

/// Whether node `a` is node `i` itself or one of its ancestors.
pub open spec fn is_anc(t: Seq<NodeView>, a: int, i: int) -> bool
    decreases i,
{
    if !(0 <= i < t.len()) {
        false
    } else if i == a {
        true
    } else if i == 0 {
        false
    } else {
        let p = t[i].parent->Some_0;
        if t[i].parent is Some && 0 <= p < i {
            is_anc(t, a, p)
        } else {
            false
        }
    }
}

/// The sum of `wt` over all indices from `m` on that satisfy `p`.
pub open spec fn masked_sum(wt: Seq<int>, p: spec_fn(int) -> bool, m: int) -> int
    decreases wt.len() - m,
{
    if !(0 <= m < wt.len()) {
        0
    } else {
        (if p(m) {
            wt[m]
        } else {
            0
        }) + masked_sum(wt, p, m + 1)
    }
}

/// An ancestor has a smaller or equal index: parent links only ever point
/// to earlier inserted nodes.
pub proof fn lemma_anc_bounds(t: Seq<NodeView>, a: int, i: int)
    requires
        is_anc(t, a, i),
    ensures
        0 <= a <= i < t.len(),
    decreases i,
{
    if i != a {
        lemma_anc_bounds(t, a, t[i].parent->Some_0);
    }
}

/// In a well formed tree the root is an ancestor of every node.
pub proof fn lemma_anc_root(t: Seq<NodeView>, i: int)
    requires
        wf_tree(t),
        0 <= i < t.len(),
    ensures
        is_anc(t, 0, i),
    decreases i,
{
    if i != 0 {
        lemma_anc_root(t, t[i].parent->Some_0);
    }
}

/// Ancestry is transitive.
pub proof fn lemma_anc_trans(t: Seq<NodeView>, a: int, b: int, i: int)
    requires
        is_anc(t, a, b),
        is_anc(t, b, i),
    ensures
        is_anc(t, a, i),
    decreases i,
{
    if i != b {
        lemma_anc_trans(t, a, b, t[i].parent->Some_0);
    }
}

/// Two ancestors of one node lie on one parent chain, so one of them is an
/// ancestor of the other.
pub proof fn lemma_anc_linear(t: Seq<NodeView>, a: int, b: int, i: int)
    requires
        is_anc(t, a, i),
        is_anc(t, b, i),
    ensures
        is_anc(t, a, b) || is_anc(t, b, a),
    decreases i,
{
    if i == a || i == b {
    } else {
        lemma_anc_linear(t, a, b, t[i].parent->Some_0);
    }
}

/// A child is a descendant of its parent.
pub proof fn lemma_anc_of_child(t: Seq<NodeView>, i: int, k: int)
    requires
        wf_tree(t),
        0 <= i < t.len(),
        0 <= k < t[i].children.len(),
    ensures
        is_anc(t, i, t[i].children[k]),
{
    let c = t[i].children[k];
    assert(t[c].parent == Some(i));
    assert(is_anc(t, i, i));
    assert(is_anc(t, i, c));
}

/// A strict descendant of `a` lies in the subtree of exactly one child of
/// `a`: this is the child on the descendant's parent chain.
pub proof fn lemma_anc_via_some_child(t: Seq<NodeView>, a: int, i: int)
    requires
        wf_tree(t),
        is_anc(t, a, i),
        a != i,
    ensures
        exists|k: int|
            0 <= k < t[a].children.len() && is_anc(t, #[trigger] t[a].children[k], i),
    decreases i,
{
    lemma_anc_bounds(t, a, i);
    let p = t[i].parent->Some_0;
    if p == a {
        assert(t[a].children.contains(i));
        let k = choose|k: int| 0 <= k < t[a].children.len() && t[a].children[k] == i;
        assert(is_anc(t, t[a].children[k], i));
    } else {
        lemma_anc_via_some_child(t, a, p);
        let k = choose|k: int|
            0 <= k < t[a].children.len() && is_anc(t, #[trigger] t[a].children[k], p);
        let c = t[a].children[k];
        lemma_anc_bounds(t, c, p);
        assert(is_anc(t, c, i));
    }
}

/// Distinct children of one node have disjoint subtrees.
pub proof fn lemma_children_disjoint(t: Seq<NodeView>, a: int, k1: int, k2: int, j: int)
    requires
        wf_tree(t),
        0 <= a < t.len(),
        0 <= k1 < t[a].children.len(),
        0 <= k2 < t[a].children.len(),
        k1 != k2,
        is_anc(t, t[a].children[k1], j),
    ensures
        !is_anc(t, t[a].children[k2], j),
{
    let c1 = t[a].children[k1];
    let c2 = t[a].children[k2];
    if is_anc(t, c2, j) {
        lemma_anc_linear(t, c1, c2, j);
        if is_anc(t, c1, c2) {
            assert(c1 != c2);
            assert(t[c2].parent == Some(a));
            assert(is_anc(t, c1, a));
            lemma_anc_bounds(t, c1, a);
            assert(false);
        } else {
            assert(c1 != c2);
            assert(t[c1].parent == Some(a));
            assert(is_anc(t, c2, a));
            lemma_anc_bounds(t, c2, a);
            assert(false);
        }
    }
}

/// Two predicates that agree from `m` on give the same masked sum.
pub proof fn lemma_masked_congruent(wt: Seq<int>, p1: spec_fn(int) -> bool, p2: spec_fn(
    int,
) -> bool, m: int)
    requires
        forall|j: int| m <= j < wt.len() ==> #[trigger] p1(j) == p2(j),
    ensures
        masked_sum(wt, p1, m) == masked_sum(wt, p2, m),
    decreases wt.len() - m,
{
    if 0 <= m < wt.len() {
        lemma_masked_congruent(wt, p1, p2, m + 1);
    }
}

/// A masked sum splits over a disjunction of two predicates that never
/// both hold.
pub proof fn lemma_masked_split(wt: Seq<int>, p: spec_fn(int) -> bool, p1: spec_fn(
    int,
) -> bool, p2: spec_fn(int) -> bool, m: int)
    requires
        forall|j: int| #[trigger] p(j) == (p1(j) || p2(j)),
        forall|j: int| !(#[trigger] p1(j) && p2(j)),
    ensures
        masked_sum(wt, p, m) == masked_sum(wt, p1, m) + masked_sum(wt, p2, m),
    decreases wt.len() - m,
{
    if 0 <= m < wt.len() {
        lemma_masked_split(wt, p, p1, p2, m + 1);
        assert(p(m) == (p1(m) || p2(m)));
        assert(!(p1(m) && p2(m)));
    }
}

/// A predicate that holds for exactly one index sums to that entry.
pub proof fn lemma_masked_singleton(wt: Seq<int>, p: spec_fn(int) -> bool, j0: int, m: int)
    requires
        0 <= m <= j0 < wt.len(),
        forall|j: int| #[trigger] p(j) <==> j == j0,
    ensures
        masked_sum(wt, p, m) == wt[j0],
    decreases wt.len() - m,
{
    if m < j0 {
        lemma_masked_singleton(wt, p, j0, m + 1);
    } else {
        lemma_masked_empty(wt, p, j0 + 1);
    }
}

/// A predicate that holds nowhere from `m` on sums to zero.
pub proof fn lemma_masked_empty(wt: Seq<int>, p: spec_fn(int) -> bool, m: int)
    requires
        forall|j: int| m <= j < wt.len() ==> !#[trigger] p(j),
    ensures
        masked_sum(wt, p, m) == 0,
    decreases wt.len() - m,
{
    if 0 <= m < wt.len() {
        lemma_masked_empty(wt, p, m + 1);
    }
}

/// With nonnegative weights, a weaker predicate gives a smaller sum.
pub proof fn lemma_masked_monotone(wt: Seq<int>, p1: spec_fn(int) -> bool, p2: spec_fn(
    int,
) -> bool, m: int)
    requires
        forall|j: int| #[trigger] p1(j) ==> p2(j),
        forall|j: int| 0 <= j < wt.len() ==> wt[j] >= 0,
    ensures
        masked_sum(wt, p1, m) <= masked_sum(wt, p2, m),
    decreases wt.len() - m,
{
    if 0 <= m < wt.len() {
        lemma_masked_monotone(wt, p1, p2, m + 1);
    }
}

/// The weight of the subtree rooted in `i`, for an arbitrary per-node
/// weight sequence: the node's own weight plus the weights of the subtrees
/// of its children.  [`subtree_size`] is this sum for the weight one per
/// node, and the subtree extent is bounded by it for the weight
/// [`node_extent`].
pub open spec fn weight_sum(t: Seq<NodeView>, wt: Seq<int>, i: int) -> int
    decreases t.len() - i, t[i].children.len() + 1,
{
    if 0 <= i < t.len() {
        wt[i] + weight_children(t, wt, i, t[i].children.len() as int)
    } else {
        0
    }
}

/// The summed weights of the subtrees of the first `k` children of `i`.
pub open spec fn weight_children(t: Seq<NodeView>, wt: Seq<int>, i: int, k: int) -> int
    decreases t.len() - i, k,
{
    if !(0 <= i < t.len()) || k <= 0 || k > t[i].children.len() {
        0
    } else {
        let c = t[i].children[k - 1];
        weight_children(t, wt, i, k - 1) + if i < c < t.len() {
            weight_sum(t, wt, c)
        } else {
            0
        }
    }
}

/// The subtree weight counts the weight of every descendant exactly once:
/// it equals the sum of the weights over the indices whose ancestor `i`
/// is.  This is the formal content of "the subtrees of the children
/// partition the descendants".
pub proof fn lemma_weight_eq(t: Seq<NodeView>, wt: Seq<int>, i: int)
    requires
        wf_tree(t),
        0 <= i < t.len(),
        wt.len() == t.len(),
    ensures
        weight_sum(t, wt, i) == masked_sum(wt, |j: int| is_anc(t, i, j), 0),
    decreases t.len() - i, t[i].children.len() + 1,
{
    let cn = t[i].children.len() as int;
    lemma_weight_children_eq(t, wt, i, cn);
    let anc_i = |j: int| is_anc(t, i, j);
    let self_i = |j: int| j == i;
    let strict_i = |j: int| is_anc(t, i, j) && j != i;
    let covered = |j: int|
        exists|k2: int| 0 <= k2 < cn && is_anc(t, #[trigger] t[i].children[k2], j);
    assert(is_anc(t, i, i));
    assert forall|j: int| #[trigger] anc_i(j) == (self_i(j) || strict_i(j)) by {}
    assert forall|j: int| !(#[trigger] self_i(j) && strict_i(j)) by {}
    lemma_masked_split(wt, anc_i, self_i, strict_i, 0);
    lemma_masked_singleton(wt, self_i, i, 0);
    assert forall|j: int| 0 <= j < wt.len() implies #[trigger] strict_i(j) == covered(j) by {
        if strict_i(j) {
            lemma_anc_via_some_child(t, i, j);
        }
        if covered(j) {
            let k2 = choose|k2: int|
                0 <= k2 < cn && is_anc(t, #[trigger] t[i].children[k2], j);
            let c = t[i].children[k2];
            lemma_anc_of_child(t, i, k2);
            lemma_anc_trans(t, i, c, j);
            lemma_anc_bounds(t, c, j);
        }
    }
    lemma_masked_congruent(wt, strict_i, covered, 0);
}

proof fn lemma_weight_children_eq(t: Seq<NodeView>, wt: Seq<int>, i: int, k: int)
    requires
        wf_tree(t),
        0 <= i < t.len(),
        wt.len() == t.len(),
        0 <= k <= t[i].children.len(),
    ensures
        weight_children(t, wt, i, k) == masked_sum(
            wt,
            |j: int| exists|k2: int| 0 <= k2 < k && is_anc(t, #[trigger] t[i].children[k2], j),
            0,
        ),
    decreases t.len() - i, k,
{
    let covered_k = |j: int|
        exists|k2: int| 0 <= k2 < k && is_anc(t, #[trigger] t[i].children[k2], j);
    if k == 0 {
        assert forall|j: int| 0 <= j < wt.len() implies !#[trigger] covered_k(j) by {}
        lemma_masked_empty(wt, covered_k, 0);
    } else {
        lemma_weight_children_eq(t, wt, i, k - 1);
        let covered_km1 = |j: int|
            exists|k2: int| 0 <= k2 < k - 1 && is_anc(t, #[trigger] t[i].children[k2], j);
        let c = t[i].children[k - 1];
        let anc_c = |j: int| is_anc(t, c, j);
        lemma_weight_eq(t, wt, c);
        assert forall|j: int| #[trigger] covered_k(j) == (covered_km1(j) || anc_c(j)) by {
            if covered_k(j) {
                let k2 = choose|k2: int|
                    0 <= k2 < k && is_anc(t, #[trigger] t[i].children[k2], j);
                if k2 == k - 1 {
                    assert(anc_c(j));
                } else {
                    assert(covered_km1(j));
                }
            }
            if covered_km1(j) {
                assert(covered_k(j));
            }
            if anc_c(j) {
                assert(0 <= k - 1 < k && is_anc(t, t[i].children[k - 1], j));
                assert(covered_k(j));
            }
        }
        assert forall|j: int| !(#[trigger] covered_km1(j) && anc_c(j)) by {
            if covered_km1(j) && anc_c(j) {
                let k2 = choose|k2: int|
                    0 <= k2 < k - 1 && is_anc(t, #[trigger] t[i].children[k2], j);
                lemma_children_disjoint(t, i, k2, k - 1, j);
            }
        }
        lemma_masked_split(wt, covered_k, covered_km1, anc_c, 0);
    }
}

/// The weight one for every node.
pub open spec fn unit_weights(n: int) -> Seq<int> {
    Seq::new(n as nat, |j: int| 1)
}

/// The label extent of every node as its weight.
pub open spec fn extent_weights(t: Seq<NodeView>) -> Seq<int> {
    Seq::new(t.len(), |j: int| node_extent(t[j]))
}

proof fn lemma_size_is_weight(t: Seq<NodeView>, i: int)
    ensures
        subtree_size(t, i) == weight_sum(t, unit_weights(t.len() as int), i),
    decreases t.len() - i, t[i].children.len() + 1,
{
    if 0 <= i < t.len() {
        lemma_children_size_is_weight(t, i, t[i].children.len() as int);
    }
}

proof fn lemma_children_size_is_weight(t: Seq<NodeView>, i: int, k: int)
    ensures
        children_size(t, i, k) == weight_children(t, unit_weights(t.len() as int), i, k),
    decreases t.len() - i, k,
{
    if 0 <= i < t.len() && 0 < k <= t[i].children.len() {
        lemma_children_size_is_weight(t, i, k - 1);
        let c = t[i].children[k - 1];
        if i < c < t.len() {
            lemma_size_is_weight(t, c);
        }
    }
}

/// The subtree extent is bounded by the subtree weight under
/// [`extent_weights`]: the maximum of own extent and child sum never
/// exceeds own extent plus child sum.
proof fn lemma_extent_le_weight(t: Seq<NodeView>, i: int)
    ensures
        0 <= i < t.len() ==> subtree_extent(t, i) <= weight_sum(t, extent_weights(t), i),
    decreases t.len() - i, t[i].children.len() + 1,
{
    if 0 <= i < t.len() {
        lemma_children_extent_le_weight(t, i, t[i].children.len() as int);
        lemma_weight_children_nonneg(t, extent_weights(t), i, t[i].children.len() as int);
    }
}

proof fn lemma_children_extent_le_weight(t: Seq<NodeView>, i: int, k: int)
    ensures
        children_extent(t, i, k) <= weight_children(t, extent_weights(t), i, k),
    decreases t.len() - i, k,
{
    if 0 <= i < t.len() && 0 < k <= t[i].children.len() {
        lemma_children_extent_le_weight(t, i, k - 1);
        let c = t[i].children[k - 1];
        if i < c < t.len() {
            lemma_extent_le_weight(t, c);
        }
    }
}

proof fn lemma_weight_children_nonneg(t: Seq<NodeView>, wt: Seq<int>, i: int, k: int)
    requires
        forall|j: int| 0 <= j < wt.len() ==> #[trigger] wt[j] >= 0,
        wt.len() == t.len(),
    ensures
        weight_children(t, wt, i, k) >= 0,
    decreases t.len() - i, k,
{
    if 0 <= i < t.len() && 0 < k <= t[i].children.len() {
        lemma_weight_children_nonneg(t, wt, i, k - 1);
        let c = t[i].children[k - 1];
        if i < c < t.len() {
            lemma_weight_children_nonneg(t, wt, c, t[c].children.len() as int);
            assert(wt[c] >= 0);
            assert(weight_sum(t, wt, c) >= 0);
        }
    }
}

/// The masked sum of the unit weights over all indices from `m` counts
/// those indices.
proof fn lemma_masked_units_total(n: int, p: spec_fn(int) -> bool, m: int)
    requires
        0 <= m <= n,
        forall|j: int| 0 <= j < n ==> #[trigger] p(j),
    ensures
        masked_sum(unit_weights(n), p, m) == n - m,
    decreases n - m,
{
    if m < n {
        lemma_masked_units_total(n, p, m + 1);
    }
}

/// Removing the last entry from the weights removes exactly its term.
proof fn lemma_masked_drop_last(wt: Seq<int>, p: spec_fn(int) -> bool, m: int)
    requires
        wt.len() > 0,
        0 <= m <= wt.len() - 1,
    ensures
        masked_sum(wt, p, m) == masked_sum(wt.take(wt.len() - 1), p, m) + (if p(wt.len() - 1) {
            wt[wt.len() - 1]
        } else {
            0
        }),
    decreases wt.len() - m,
{
    let short = wt.take(wt.len() - 1);
    assert(short.len() == wt.len() - 1);
    if m < wt.len() - 1 {
        lemma_masked_drop_last(wt, p, m + 1);
        assert(short[m] == wt[m]);
    } else {
        assert(masked_sum(wt, p, m + 1) == 0);
        assert(masked_sum(short, p, m) == 0);
        assert(masked_sum(wt, p, m) == if p(m) { wt[m] } else { 0 });
    }
}

/// The masked sum of the extent weights over every index is the total
/// extent of the tree.
proof fn lemma_masked_extents_total(t: Seq<NodeView>, p: spec_fn(int) -> bool)
    requires
        forall|j: int| 0 <= j < t.len() ==> #[trigger] p(j),
    ensures
        masked_sum(extent_weights(t), p, 0) == total_extent_of(t),
    decreases t.len(),
{
    if t.len() == 0 {
    } else {
        let t0 = t.drop_last();
        assert(extent_weights(t).take(t.len() - 1) =~= extent_weights(t0));
        lemma_masked_extents_total(t0, p);
        lemma_masked_drop_last(extent_weights(t), p, 0);
    }
}

/// In a well formed tree the subtree of the root holds every node, and no
/// subtree holds more nodes than the tree.
pub proof fn lemma_subtree_size_bounds(t: Seq<NodeView>, i: int)
    requires
        wf_tree(t),
        0 <= i < t.len(),
    ensures
        1 <= subtree_size(t, i) <= t.len(),
        i == 0 ==> subtree_size(t, 0) == t.len(),
    decreases 0int,
{
    let n = t.len() as int;
    let ones = unit_weights(n);
    let anc_i = |j: int| is_anc(t, i, j);
    let tt = |j: int| 0 <= j < n;
    lemma_subtree_size_pos(t, i);
    lemma_size_is_weight(t, i);
    lemma_weight_eq(t, ones, i);
    assert forall|j: int| #[trigger] anc_i(j) ==> tt(j) by {
        if anc_i(j) {
            lemma_anc_bounds(t, i, j);
        }
    }
    assert(forall|j: int| 0 <= j < n ==> #[trigger] ones[j] >= 0);
    lemma_masked_monotone(ones, anc_i, tt, 0);
    lemma_masked_units_total(n, tt, 0);
    if i == 0 {
        assert forall|j: int| 0 <= j < ones.len() implies #[trigger] anc_i(j) == tt(j) by {
            lemma_anc_root(t, j);
        }
        lemma_masked_congruent(ones, anc_i, tt, 0);
    }
}

/// In a well formed tree no subtree extent exceeds the total extent of
/// the tree.
pub proof fn lemma_subtree_extent_bound(t: Seq<NodeView>, i: int)
    requires
        wf_tree(t),
        0 <= i < t.len(),
    ensures
        subtree_extent(t, i) <= total_extent_of(t),
{
    let wts = extent_weights(t);
    let anc_i = |j: int| is_anc(t, i, j);
    let tt = |j: int| 0 <= j < t.len();
    lemma_extent_le_weight(t, i);
    lemma_weight_eq(t, wts, i);
    assert forall|j: int| #[trigger] anc_i(j) ==> tt(j) by {
        if anc_i(j) {
            lemma_anc_bounds(t, i, j);
        }
    }
    assert(forall|j: int| 0 <= j < wts.len() ==> #[trigger] wts[j] >= 0);
    lemma_masked_monotone(wts, anc_i, tt, 0);
    lemma_masked_extents_total(t, tt);
}

/// The position [`child_pos`] of a non-root node is a valid index into the
/// children list of its parent and holds the node.
pub proof fn lemma_child_pos(t: Seq<NodeView>, c: int)
    requires
        wf_tree(t),
        1 <= c < t.len(),
    ensures
        0 <= child_pos(t, c) < t[t[c].parent->Some_0].children.len(),
        t[t[c].parent->Some_0].children[child_pos(t, c)] == c,
{
    let p = t[c].parent->Some_0;
    assert(t[p].children.contains(c));
    let k = choose|k: int| 0 <= k < t[p].children.len() && t[p].children[k] == c;
    assert(t[p].children[k] == c);
}

/// The post-order interval of a child lies within the child block of its
/// parent, which ends one slot before the parent's own rank.
pub proof fn lemma_start_in_parent(t: Seq<NodeView>, c: int)
    requires
        wf_tree(t),
        1 <= c < t.len(),
    ensures
        post_start(t, c) >= post_start(t, t[c].parent->Some_0),
        post_start(t, c) + subtree_size(t, c) <= post_start(t, t[c].parent->Some_0)
            + subtree_size(t, t[c].parent->Some_0) - 1,
{
    let p = t[c].parent->Some_0;
    let pos = child_pos(t, c);
    lemma_child_pos(t, c);
    lemma_children_size_nonneg(t, p, pos);
    assert(children_size(t, p, pos + 1) == children_size(t, p, pos) + subtree_size(t, c));
    lemma_children_size_monotone(t, p, pos + 1, t[p].children.len() as int);
    lemma_subtree_size_pos(t, p);
}

/// Every post-order interval lies within the interval of the root, which
/// starts at zero.
pub proof fn lemma_rank_range(t: Seq<NodeView>, i: int)
    requires
        wf_tree(t),
        0 <= i < t.len(),
    ensures
        0 <= post_start(t, i),
        post_start(t, i) + subtree_size(t, i) <= t.len(),
        0 <= post_rank(t, i) < t.len(),
    decreases i,
{
    lemma_subtree_size_pos(t, i);
    lemma_subtree_size_bounds(t, i);
    if i == 0 {
        lemma_subtree_size_bounds(t, 0);
    } else {
        let p = t[i].parent->Some_0;
        lemma_rank_range(t, p);
        lemma_start_in_parent(t, i);
    }
}

/// The post-order interval of a descendant is contained in the interval of
/// each of its ancestors.
pub proof fn lemma_anc_interval(t: Seq<NodeView>, a: int, i: int)
    requires
        wf_tree(t),
        is_anc(t, a, i),
    ensures
        post_start(t, a) <= post_start(t, i),
        post_start(t, i) + subtree_size(t, i) <= post_start(t, a) + subtree_size(t, a),
        a != i ==> post_start(t, i) + subtree_size(t, i) <= post_start(t, a) + subtree_size(
            t,
            a,
        ) - 1,
    decreases i,
{
    lemma_anc_bounds(t, a, i);
    if i != a {
        let p = t[i].parent->Some_0;
        lemma_anc_interval(t, a, p);
        lemma_start_in_parent(t, i);
    }
}

/// The post-order intervals of two incomparable descendants of `a` are
/// disjoint: walking down from `a`, the two either part at distinct
/// children — whose blocks are disjoint — or stay below one child, where
/// the claim repeats one level deeper.
pub proof fn lemma_disjoint_intervals(t: Seq<NodeView>, a: int, i: int, j: int)
    requires
        wf_tree(t),
        is_anc(t, a, i),
        is_anc(t, a, j),
        !is_anc(t, i, j),
        !is_anc(t, j, i),
    ensures
        post_start(t, i) + subtree_size(t, i) <= post_start(t, j) || post_start(t, j)
            + subtree_size(t, j) <= post_start(t, i),
    decreases t.len() - a,
{
    lemma_anc_bounds(t, a, i);
    lemma_anc_bounds(t, a, j);
    assert(a != i && a != j);
    lemma_anc_via_some_child(t, a, i);
    lemma_anc_via_some_child(t, a, j);
    let ki = choose|k: int| 0 <= k < t[a].children.len() && is_anc(t, #[trigger] t[a].children[k], i);
    let kj = choose|k: int| 0 <= k < t[a].children.len() && is_anc(t, #[trigger] t[a].children[k], j);
    let ci = t[a].children[ki];
    let cj = t[a].children[kj];
    if ki == kj {
        lemma_disjoint_intervals(t, ci, i, j);
    } else {
        lemma_anc_interval(t, ci, i);
        lemma_anc_interval(t, cj, j);
        lemma_child_pos(t, ci);
        lemma_child_pos(t, cj);
        assert(t[ci].parent == Some(a));
        assert(t[cj].parent == Some(a));
        let pi = child_pos(t, ci);
        let pj = child_pos(t, cj);
        assert(t[a].children[pi] == ci && t[a].children[ki] == ci);
        assert(pi == ki && pj == kj);
        if ki < kj {
            assert(children_size(t, a, ki + 1) == children_size(t, a, ki) + subtree_size(t, ci));
            lemma_children_size_monotone(t, a, ki + 1, kj);
        } else {
            assert(children_size(t, a, kj + 1) == children_size(t, a, kj) + subtree_size(t, cj));
            lemma_children_size_monotone(t, a, kj + 1, ki);
        }
    }
}

/// Post-order ranks are injective: distinct nodes receive distinct ranks.
/// Together with [`lemma_rank_range`] and [`lemma_subtree_size_bounds`]
/// this makes the ranks of an `n`-node tree a permutation of `0..n`.
pub proof fn lemma_rank_injective(t: Seq<NodeView>, i: int, j: int)
    requires
        wf_tree(t),
        0 <= i < t.len(),
        0 <= j < t.len(),
        i != j,
    ensures
        post_rank(t, i) != post_rank(t, j),
{
    lemma_subtree_size_pos(t, i);
    lemma_subtree_size_pos(t, j);
    if is_anc(t, i, j) {
        lemma_anc_interval(t, i, j);
    } else if is_anc(t, j, i) {
        lemma_anc_interval(t, j, i);
    } else {
        lemma_anc_root(t, i);
        lemma_anc_root(t, j);
        lemma_disjoint_intervals(t, 0, i, j);
    }
}

/// Integer halving is monotone.
pub proof fn lemma_half_monotone(a: int, b: int)
    requires
        a <= b,
    ensures
        a / 2 <= b / 2,
{
    vstd::arithmetic::div_mod::lemma_div_is_ordered(a, b, 2);
}

/// The rounded-up half `x - x / 2` is monotone as well.
pub proof fn lemma_other_half_monotone(a: int, b: int)
    requires
        0 <= a <= b,
    ensures
        a - a / 2 <= b - b / 2,
{
    vstd::arithmetic::div_mod::lemma_fundamental_div_mod(a, 2);
    vstd::arithmetic::div_mod::lemma_fundamental_div_mod(b, 2);
    vstd::arithmetic::div_mod::lemma_div_is_ordered(a + 1, b + 1, 2);
    vstd::arithmetic::div_mod::lemma_fundamental_div_mod(a + 1, 2);
    vstd::arithmetic::div_mod::lemma_fundamental_div_mod(b + 1, 2);
}

/// Every node is centered inside its own footprint, and every footprint
/// lies inside the footprint of the root: the centers the embedder
/// computes stay between `0` and the extent of the whole layout.
pub proof fn lemma_center_bounds(t: Seq<NodeView>, i: int)
    requires
        wf_tree(t),
        0 <= i < t.len(),
    ensures
        subtree_extent(t, i) / 2 <= center_of(t, i),
        center_of(t, i) + subtree_extent(t, i) - subtree_extent(t, i) / 2 <= subtree_extent(
            t,
            0,
        ),
    decreases i,
{
    lemma_subtree_extent_pos(t, i);
    if i == 0 {
    } else {
        let p = t[i].parent->Some_0;
        let se_i = subtree_extent(t, i);
        let se_p = subtree_extent(t, p);
        lemma_center_bounds(t, p);
        lemma_child_pos(t, i);
        let pos = child_pos(t, i);
        let cn = t[p].children.len() as int;
        let ce_all = children_extent(t, p, cn);
        let ce_pos = children_extent(t, p, pos);
        lemma_subtree_extent_pos(t, p);
        lemma_children_extent_nonneg(t, p, pos);
        assert(center_of(t, i) == center_of(t, p) - ce_all / 2 + ce_pos + se_i / 2);
        lemma_half_monotone(ce_all, se_p);
        assert(children_extent(t, p, pos + 1) == ce_pos + se_i);
        lemma_children_extent_monotone(t, p, pos + 1, cn);
        lemma_other_half_monotone(ce_all, se_p);
    }
}

/// Inside the child list of `a`, every rank offset below the summed block
/// sizes falls into the block of some child.
proof fn lemma_find_child_block(t: Seq<NodeView>, a: int, k: int, j: int)
    requires
        wf_tree(t),
        0 <= a < t.len(),
        0 <= j <= t[a].children.len(),
        post_start(t, a) <= k,
        k < post_start(t, a) + children_size(t, a, j),
    ensures
        exists|kc: int|
            0 <= kc < j && post_start(t, a) + children_size(t, a, kc) <= k < post_start(t, a)
                + children_size(t, a, #[trigger] (kc + 1)),
    decreases j,
{
    if j == 0 {
    } else {
        if k >= post_start(t, a) + children_size(t, a, j - 1) {
            assert(0 <= j - 1 < j && post_start(t, a) + children_size(t, a, j - 1) <= k
                < post_start(t, a) + children_size(t, a, (j - 1) + 1));
        } else {
            lemma_find_child_block(t, a, k, j - 1);
        }
    }
}

/// Every rank inside the interval of `a` is taken by some descendant of
/// `a`: together with [`lemma_rank_range`] and [`lemma_rank_injective`]
/// the post-order ranks of an `n`-node tree are a permutation of `0..n`.
pub proof fn lemma_rank_surjective_from(t: Seq<NodeView>, a: int, k: int)
    requires
        wf_tree(t),
        0 <= a < t.len(),
        post_start(t, a) <= k <= post_rank(t, a),
    ensures
        exists|i: int| #[trigger] is_anc(t, a, i) && post_rank(t, i) == k,
    decreases t.len() - a,
{
    if k == post_rank(t, a) {
        assert(is_anc(t, a, a));
        assert(is_anc(t, a, a) && post_rank(t, a) == k);
    } else {
        lemma_subtree_size_pos(t, a);
        let m = t[a].children.len() as int;
        lemma_find_child_block(t, a, k, m);
        let kc = choose|kc: int|
            0 <= kc < m && post_start(t, a) + children_size(t, a, kc) <= k < post_start(t, a)
                + children_size(t, a, #[trigger] (kc + 1));
        let c = t[a].children[kc];
        assert(0 <= kc < t[a].children.len());
        assert(a < c < t.len());
        assert(t[c].parent == Some(a));
        lemma_child_pos(t, c);
        assert(t[a].children[child_pos(t, c)] == c);
        assert(child_pos(t, c) == kc);
        assert(post_start(t, c) == post_start(t, a) + children_size(t, a, kc));
        assert(children_size(t, a, kc + 1) == children_size(t, a, kc) + subtree_size(t, c));
        assert(post_start(t, c) <= k <= post_rank(t, c));
        lemma_rank_surjective_from(t, c, k);
        let i = choose|i: int| #[trigger] is_anc(t, c, i) && post_rank(t, i) == k;
        lemma_anc_of_child(t, a, kc);
        lemma_anc_trans(t, a, c, i);
        assert(is_anc(t, a, i) && post_rank(t, i) == k);
    }
}

/// Every position of the embedding is the rank of exactly one node.
pub proof fn lemma_rank_surjective(t: Seq<NodeView>, k: int)
    requires
        wf_tree(t),
        0 <= k < t.len(),
    ensures
        exists|i: int| 0 <= i < t.len() && #[trigger] post_rank(t, i) == k,
{
    lemma_subtree_size_bounds(t, 0);
    lemma_subtree_size_pos(t, 0);
    lemma_rank_surjective_from(t, 0, k);
    let i = choose|i: int| #[trigger] is_anc(t, 0, i) && post_rank(t, i) == k;
    lemma_anc_bounds(t, 0, i);
    assert(0 <= i < t.len() && post_rank(t, i) == k);
}

/// The footprint of a child lies within the footprint of its parent.
pub proof fn lemma_foot_in_parent(t: Seq<NodeView>, c: int)
    requires
        wf_tree(t),
        1 <= c < t.len(),
    ensures
        foot_left(t, t[c].parent->Some_0) <= foot_left(t, c),
        foot_left(t, c) + subtree_extent(t, c) <= foot_left(t, t[c].parent->Some_0)
            + subtree_extent(t, t[c].parent->Some_0),
{
    let p = t[c].parent->Some_0;
    let pos = child_pos(t, c);
    let cn = t[p].children.len() as int;
    lemma_child_pos(t, c);
    let ce_all = children_extent(t, p, cn);
    let ce_pos = children_extent(t, p, pos);
    lemma_subtree_extent_pos(t, p);
    lemma_subtree_extent_pos(t, c);
    lemma_children_extent_nonneg(t, p, pos);
    assert(center_of(t, c) == center_of(t, p) - ce_all / 2 + ce_pos + subtree_extent(t, c) / 2);
    lemma_half_monotone(ce_all, subtree_extent(t, p));
    assert(children_extent(t, p, pos + 1) == ce_pos + subtree_extent(t, c));
    lemma_children_extent_monotone(t, p, pos + 1, cn);
    lemma_other_half_monotone(ce_all, subtree_extent(t, p));
}

/// The footprint of a descendant lies within the footprint of each of its
/// ancestors.
pub proof fn lemma_foot_anc(t: Seq<NodeView>, a: int, i: int)
    requires
        wf_tree(t),
        is_anc(t, a, i),
    ensures
        foot_left(t, a) <= foot_left(t, i),
        foot_left(t, i) + subtree_extent(t, i) <= foot_left(t, a) + subtree_extent(t, a),
    decreases i,
{
    lemma_anc_bounds(t, a, i);
    if i != a {
        let p = t[i].parent->Some_0;
        lemma_foot_anc(t, a, p);
        lemma_foot_in_parent(t, i);
    }
}

/// The footprints of two incomparable nodes are disjoint: walking down
/// from a common ancestor, the two part at distinct children, whose
/// contiguously packed footprints cannot overlap.
pub proof fn lemma_foot_disjoint(t: Seq<NodeView>, a: int, i: int, j: int)
    requires
        wf_tree(t),
        is_anc(t, a, i),
        is_anc(t, a, j),
        !is_anc(t, i, j),
        !is_anc(t, j, i),
    ensures
        foot_left(t, i) + subtree_extent(t, i) <= foot_left(t, j) || foot_left(t, j)
            + subtree_extent(t, j) <= foot_left(t, i),
    decreases t.len() - a,
{
    lemma_anc_bounds(t, a, i);
    lemma_anc_bounds(t, a, j);
    assert(a != i && a != j);
    lemma_anc_via_some_child(t, a, i);
    lemma_anc_via_some_child(t, a, j);
    let ki = choose|k: int| 0 <= k < t[a].children.len() && is_anc(t, #[trigger] t[a].children[k], i);
    let kj = choose|k: int| 0 <= k < t[a].children.len() && is_anc(t, #[trigger] t[a].children[k], j);
    let ci = t[a].children[ki];
    let cj = t[a].children[kj];
    if ki == kj {
        lemma_foot_disjoint(t, ci, i, j);
    } else {
        lemma_foot_anc(t, ci, i);
        lemma_foot_anc(t, cj, j);
        lemma_child_pos(t, ci);
        lemma_child_pos(t, cj);
        assert(t[ci].parent == Some(a));
        assert(t[cj].parent == Some(a));
        assert(t[a].children[child_pos(t, ci)] == ci && t[a].children[ki] == ci);
        assert(child_pos(t, ci) == ki && child_pos(t, cj) == kj);
        let cn = t[a].children.len() as int;
        let ce_all = children_extent(t, a, cn);
        lemma_subtree_extent_pos(t, ci);
        lemma_subtree_extent_pos(t, cj);
        assert(foot_left(t, ci) == center_of(t, a) - ce_all / 2 + children_extent(t, a, ki));
        assert(foot_left(t, cj) == center_of(t, a) - ce_all / 2 + children_extent(t, a, kj));
        if ki < kj {
            assert(children_extent(t, a, ki + 1) == children_extent(t, a, ki) + subtree_extent(
                t,
                ci,
            ));
            lemma_children_extent_monotone(t, a, ki + 1, kj);
        } else {
            assert(children_extent(t, a, kj + 1) == children_extent(t, a, kj) + subtree_extent(
                t,
                cj,
            ));
            lemma_children_extent_monotone(t, a, kj + 1, ki);
        }
    }
}

/// Levels strictly increase along proper ancestry.
pub proof fn lemma_anc_level(t: Seq<NodeView>, a: int, i: int)
    requires
        wf_tree(t),
        is_anc(t, a, i),
        a != i,
    ensures
        level_of(t, a) < level_of(t, i),
    decreases i,
{
    lemma_anc_bounds(t, a, i);
    let p = t[i].parent->Some_0;
    if p != a {
        lemma_anc_level(t, a, p);
    }
}

} // verus!
