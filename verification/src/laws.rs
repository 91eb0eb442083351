//! The laws of the embedding: the properties every embedding that
//! [`crate::embedder::Embedder::embed`] produces is proven to have, stated
//! as public proof functions.

use vstd::prelude::*;

use crate::ancestry::{
    is_anc, lemma_center_bounds, lemma_child_pos, lemma_half_monotone, lemma_rank_range,
    lemma_rank_surjective,
};
use crate::embedder::{embedding_ok, find_ord, lemma_embedding_resolvable, placed_item_of, PlacedItemView};
use crate::svg_drawer::{line_elem_of, text_elem_of};
use crate::model::{
    center_of, child_pos, children_extent, int_max, lemma_children_extent_monotone,
    lemma_children_extent_nonneg, lemma_subtree_extent_pos, level_of, post_rank, subtree_extent,
};
use crate::tree::{can_move, move_node_view, node_extent, wf_tree, NodeView};

verus! {

/// Every node except the root lies one level below its parent.
pub proof fn lemma_child_level(t: Seq<NodeView>, c: int)
    requires
        wf_tree(t),
        1 <= c < t.len(),
    ensures
        level_of(t, c) == level_of(t, t[c].parent->Some_0) + 1,
{
}

/// In an embedding, every item with a parent reference lies one level
/// below the item its reference resolves to, and the reference is a valid
/// position.
pub proof fn lemma_embedding_levels(t: Seq<NodeView>, e: Seq<PlacedItemView>)
    requires
        wf_tree(t),
        embedding_ok(t, e),
    ensures
        forall|k: int|
            0 <= k < e.len() && (#[trigger] e[k]).parent is Some ==> 0 <= e[k].parent->Some_0
                < e.len() && e[k].y_order == e[e[k].parent->Some_0].y_order + 1,
{
    assert forall|k: int|
        0 <= k < e.len() && (#[trigger] e[k]).parent is Some implies 0 <= e[k].parent->Some_0
        < e.len() && e[k].y_order == e[e[k].parent->Some_0].y_order + 1 by {
        lemma_rank_surjective(t, k);
        let i = choose|i: int| 0 <= i < t.len() && #[trigger] post_rank(t, i) == k;
        assert(e[k] == placed_item_of(t, i));
        let p = t[i].parent->Some_0;
        assert(t[i].parent is Some);
        assert(i != 0);
        lemma_rank_range(t, p);
        assert(e[k].parent->Some_0 == post_rank(t, p));
        assert(e[post_rank(t, p)] == placed_item_of(t, p));
        lemma_child_level(t, i);
    }
}

/// Every item's own extent is the character count of its label plus one
/// unit of padding, and its subtree extent is at least its own extent.
pub proof fn lemma_embedding_extents(t: Seq<NodeView>, e: Seq<PlacedItemView>)
    requires
        wf_tree(t),
        embedding_ok(t, e),
    ensures
        forall|k: int|
            0 <= k < e.len() ==> (#[trigger] e[k]).x_extent == e[k].text.len() + 1 && e[k].x_extent
                <= e[k].x_extent_children,
{
    assert forall|k: int|
        0 <= k < e.len() implies (#[trigger] e[k]).x_extent == e[k].text.len() + 1 && e[k].x_extent
        <= e[k].x_extent_children by {
        lemma_rank_surjective(t, k);
        let i = choose|i: int| 0 <= i < t.len() && #[trigger] post_rank(t, i) == k;
        assert(e[k] == placed_item_of(t, i));
        lemma_subtree_extent_pos(t, i);
    }
}

/// The subtree extent of a node is not in general at least the sum of its
/// children's subtree extents plus its own: it is exactly the maximum of
/// the node's own extent and that sum ([`children_extent`] taken over the
/// whole children list).
pub proof fn lemma_subtree_extent_formula(t: Seq<NodeView>, i: int)
    requires
        0 <= i < t.len(),
    ensures
        subtree_extent(t, i) == int_max(
            node_extent(t[i]),
            children_extent(t, i, t[i].children.len() as int),
        ),
{
}

/// Sibling footprints are packed contiguously: the left edge of each
/// child's footprint is the left edge of its elder sibling's footprint
/// advanced by exactly that sibling's subtree extent — no gap and no
/// overlap.  When the elder sibling's subtree extent is even, this is the
/// same as saying that the younger child's left edge equals the elder
/// child's center plus half its subtree extent.
pub proof fn lemma_sibling_packing(t: Seq<NodeView>, p: int, k: int)
    requires
        wf_tree(t),
        0 <= p < t.len(),
        0 <= k,
        k + 1 < t[p].children.len(),
    ensures
        ({
            let c1 = t[p].children[k];
            let c2 = t[p].children[k + 1];
            center_of(t, c2) - subtree_extent(t, c2) / 2 == (center_of(t, c1) - subtree_extent(
                t,
                c1,
            ) / 2) + subtree_extent(t, c1)
        }),
        ({
            let c1 = t[p].children[k];
            let c2 = t[p].children[k + 1];
            subtree_extent(t, c1) % 2 == 0 ==> center_of(t, c2) - subtree_extent(t, c2) / 2
                == center_of(t, c1) + subtree_extent(t, c1) / 2
        }),
{
    let c1 = t[p].children[k];
    let c2 = t[p].children[k + 1];
    assert(p < c1 < t.len() && p < c2 < t.len());
    assert(t[c1].parent == Some(p));
    assert(t[c2].parent == Some(p));
    lemma_child_pos(t, c1);
    lemma_child_pos(t, c2);
    assert(t[p].children[child_pos(t, c1)] == c1);
    assert(child_pos(t, c1) == k);
    assert(child_pos(t, c2) == k + 1);
    assert(children_extent(t, p, k + 1) == children_extent(t, p, k) + subtree_extent(t, c1));
}

/// Every child is horizontally placed within the footprint of its parent:
/// its center differs from the parent's center by at most half the
/// parent's subtree extent.
pub proof fn lemma_child_within_parent(t: Seq<NodeView>, c: int)
    requires
        wf_tree(t),
        1 <= c < t.len(),
    ensures
        center_of(t, t[c].parent->Some_0) - subtree_extent(t, t[c].parent->Some_0) / 2
            <= center_of(t, c),
        center_of(t, c) <= center_of(t, t[c].parent->Some_0) + subtree_extent(
            t,
            t[c].parent->Some_0,
        ) / 2,
{
    let p = t[c].parent->Some_0;
    let pos = child_pos(t, c);
    let cn = t[p].children.len() as int;
    lemma_child_pos(t, c);
    let ce_all = children_extent(t, p, cn);
    let ce_pos = children_extent(t, p, pos);
    let se_c = subtree_extent(t, c);
    let se_p = subtree_extent(t, p);
    lemma_subtree_extent_pos(t, p);
    lemma_subtree_extent_pos(t, c);
    lemma_children_extent_nonneg(t, p, pos);
    lemma_half_monotone(ce_all, se_p);
    lemma_half_monotone(0, se_c);
    assert(center_of(t, c) == center_of(t, p) - ce_all / 2 + ce_pos + se_c / 2);
    // Lower bound: the child block starts no further left than half the
    // parent's footprint left of the parent's center.
    assert(center_of(t, p) - se_p / 2 <= center_of(t, c));
    // Upper bound: the child's center lies strictly inside its own
    // footprint, whose right edge stays within the child block.
    assert(children_extent(t, p, pos + 1) == ce_pos + se_c);
    lemma_children_extent_monotone(t, p, pos + 1, cn);
    assert(se_c / 2 <= se_c - 1) by {
        vstd::arithmetic::div_mod::lemma_fundamental_div_mod(se_c, 2);
    }
    assert(center_of(t, c) <= center_of(t, p) - ce_all / 2 + ce_all - 1);
    assert(ce_all - ce_all / 2 - 1 <= se_p / 2) by {
        vstd::arithmetic::div_mod::lemma_fundamental_div_mod(ce_all, 2);
        vstd::arithmetic::div_mod::lemma_fundamental_div_mod(se_p, 2);
        lemma_half_monotone(ce_all, se_p);
    }
}

/// The level a `text` element's vertical position encodes.
pub open spec fn level_from_y(y: int) -> int {
    (y - 25) / 35
}

/// The center a `text` element's horizontal position encodes, given the
/// character count of its label.
pub open spec fn center_from_x(x: int, chars: int) -> int {
    (x - 10 + 5 * chars) / 10
}

/// The center a `line` endpoint's horizontal position encodes.
pub open spec fn center_from_scaled_x(x: int) -> int {
    (x - 10) / 10
}

/// The level of the parent a `line` element's upper endpoint encodes.
pub open spec fn parent_level_from_y1(y1: int) -> int {
    (y1 - 35) / 35
}

/// The level of the child a `line` element's lower endpoint encodes.
pub open spec fn child_level_from_y2(y2: int) -> int {
    (y2 - 15) / 35
}

/// Rendering one item to its `text` element loses nothing: the label, the
/// emphasis, the level and the center can all be read back off the
/// element.
pub proof fn lemma_text_elem_roundtrip(it: PlacedItemView)
    requires
        it.y_order >= 0,
        it.x_center >= 0,
    ensures
        text_elem_of(it).label == it.text,
        text_elem_of(it).bold == it.is_emphasized,
        level_from_y(text_elem_of(it).y) == it.y_order,
        center_from_x(text_elem_of(it).x, it.text.len() as int) == it.x_center,
{
    vstd::arithmetic::div_mod::lemma_div_multiples_vanish(it.y_order, 35);
    vstd::arithmetic::div_mod::lemma_div_multiples_vanish(it.x_center, 10);
}

/// Rendering a parent link to its `line` element loses nothing: the
/// levels and centers of both endpoints can be read back off the element.
pub proof fn lemma_line_elem_roundtrip(parent: PlacedItemView, it: PlacedItemView)
    requires
        parent.y_order >= 0,
        parent.x_center >= 0,
        it.y_order >= 0,
        it.x_center >= 0,
    ensures
        center_from_scaled_x(line_elem_of(parent, it).x1) == parent.x_center,
        parent_level_from_y1(line_elem_of(parent, it).y1) == parent.y_order,
        center_from_scaled_x(line_elem_of(parent, it).x2) == it.x_center,
        child_level_from_y2(line_elem_of(parent, it).y2) == it.y_order,
{
    vstd::arithmetic::div_mod::lemma_div_multiples_vanish(parent.y_order, 35);
    vstd::arithmetic::div_mod::lemma_div_multiples_vanish(parent.x_center, 10);
    vstd::arithmetic::div_mod::lemma_div_multiples_vanish(it.y_order, 35);
    vstd::arithmetic::div_mod::lemma_div_multiples_vanish(it.x_center, 10);
}

/// The rendered document can be read back: for every item of an
/// embedding, its `text` element recovers the item's label, level, center
/// and emphasis, and the `line` element of every non-root item connects
/// exactly the positions of the item and of the item its parent reference
/// names.
pub proof fn lemma_embedding_svg_roundtrip(t: Seq<NodeView>, e: Seq<PlacedItemView>)
    requires
        wf_tree(t),
        embedding_ok(t, e),
    ensures
        forall|k: int|
            0 <= k < e.len() ==> {
                let tv = text_elem_of(#[trigger] e[k]);
                tv.label == e[k].text && tv.bold == e[k].is_emphasized && level_from_y(tv.y)
                    == e[k].y_order && center_from_x(tv.x, e[k].text.len() as int)
                    == e[k].x_center
            },
        forall|k: int|
            0 <= k < e.len() && (#[trigger] e[k]).parent is Some ==> {
                let po = e[k].parent->Some_0;
                let lv = line_elem_of(e[find_ord(e, po)], e[k]);
                &&& find_ord(e, po) == po
                &&& center_from_scaled_x(lv.x1) == e[po].x_center
                &&& parent_level_from_y1(lv.y1) == e[po].y_order
                &&& center_from_scaled_x(lv.x2) == e[k].x_center
                &&& child_level_from_y2(lv.y2) == e[k].y_order
            },
{
    assert forall|k: int| 0 <= k < e.len() implies e[k].y_order >= 0 && e[k].x_center >= 0 by {
        lemma_rank_surjective(t, k);
        let i = choose|i: int| 0 <= i < t.len() && #[trigger] post_rank(t, i) == k;
        assert(e[k] == placed_item_of(t, i));
        crate::model::lemma_level_bounds(t, i);
        lemma_center_bounds(t, i);
        lemma_subtree_extent_pos(t, i);
        lemma_half_monotone(0, subtree_extent(t, i));
    }
    assert forall|k: int|
        0 <= k < e.len() implies {
        let tv = text_elem_of(#[trigger] e[k]);
        tv.label == e[k].text && tv.bold == e[k].is_emphasized && level_from_y(tv.y)
            == e[k].y_order && center_from_x(tv.x, e[k].text.len() as int) == e[k].x_center
    } by {
        lemma_text_elem_roundtrip(e[k]);
    }
    lemma_embedding_resolvable(t, e);
    assert forall|k: int|
        0 <= k < e.len() && (#[trigger] e[k]).parent is Some implies {
        let po = e[k].parent->Some_0;
        let lv = line_elem_of(e[find_ord(e, po)], e[k]);
        &&& find_ord(e, po) == po
        &&& center_from_scaled_x(lv.x1) == e[po].x_center
        &&& parent_level_from_y1(lv.y1) == e[po].y_order
        &&& center_from_scaled_x(lv.x2) == e[k].x_center
        &&& child_level_from_y2(lv.y2) == e[k].y_order
    } by {
        let po = e[k].parent->Some_0;
        assert(0 <= po < e.len() && find_ord(e, po) == po);
        lemma_line_elem_roundtrip(e[po], e[k]);
    }
}

/// The subtree extent of a node depends only on the labels and children
/// lists inside its subtree: two trees that agree there agree on the
/// extent.
proof fn lemma_subtree_extent_congruent(t1: Seq<NodeView>, t2: Seq<NodeView>, j: int)
    requires
        wf_tree(t1),
        t1.len() == t2.len(),
        0 <= j < t1.len(),
        forall|k: int|
            #[trigger] is_anc(t1, j, k) ==> t1[k].children == t2[k].children && t1[k].label
                == t2[k].label,
    ensures
        subtree_extent(t2, j) == subtree_extent(t1, j),
    decreases t1.len() - j, t1[j].children.len() + 1,
{
    assert(is_anc(t1, j, j));
    lemma_children_extent_congruent(t1, t2, j, t1[j].children.len() as int);
}

proof fn lemma_children_extent_congruent(t1: Seq<NodeView>, t2: Seq<NodeView>, j: int, k: int)
    requires
        wf_tree(t1),
        t1.len() == t2.len(),
        0 <= j < t1.len(),
        0 <= k <= t1[j].children.len(),
        forall|k2: int|
            #[trigger] is_anc(t1, j, k2) ==> t1[k2].children == t2[k2].children && t1[k2].label
                == t2[k2].label,
    ensures
        children_extent(t2, j, k) == children_extent(t1, j, k),
    decreases t1.len() - j, k,
{
    assert(is_anc(t1, j, j));
    if k > 0 {
        lemma_children_extent_congruent(t1, t2, j, k - 1);
        let c = t1[j].children[k - 1];
        assert(j < c < t1.len());
        assert(t1[c].parent == Some(j));
        assert(is_anc(t1, j, c)) by {
            crate::ancestry::lemma_anc_of_child(t1, j, k - 1);
        }
        assert forall|k2: int| #[trigger] is_anc(t1, c, k2) implies t1[k2].children
            == t2[k2].children && t1[k2].label == t2[k2].label by {
            crate::ancestry::lemma_anc_trans(t1, j, c, k2);
        }
        lemma_subtree_extent_congruent(t1, t2, c);
    }
}

/// Moving a node to a new parent changes no level outside the moved
/// subtree.
proof fn lemma_move_level(t: Seq<NodeView>, n: int, np: int, j: int)
    requires
        wf_tree(t),
        can_move(t, n, np),
        0 <= j < t.len(),
        !is_anc(t, n, j),
    ensures
        level_of(move_node_view(t, n, np), j) == level_of(t, j),
    decreases j,
{
    let t2 = move_node_view(t, n, np);
    if j > 0 {
        assert(j != n);
        assert(t2[j].parent == t[j].parent);
        let p = t[j].parent->Some_0;
        assert(!is_anc(t, n, p));
        lemma_move_level(t, n, np, p);
    }
}

/// Reassigning a subtree to a different parent and re-embedding changes
/// the layout only along the affected lineage:
/// every label keeps its extent, every node outside the moved subtree
/// keeps its level, and every node that is an ancestor neither of the old
/// nor of the new parent keeps its subtree extent.  (The centers of
/// unrelated branches can still shift, since the branches left and right
/// of a widened or narrowed lineage get pushed aside; the embedding as a
/// whole remains a pure function of the final structure.)
pub proof fn lemma_move_changes_only_lineage(t: Seq<NodeView>, n: int, np: int)
    requires
        wf_tree(t),
        can_move(t, n, np),
    ensures
        forall|j: int|
            0 <= j < t.len() ==> node_extent(move_node_view(t, n, np)[j]) == node_extent(t[j]),
        forall|j: int|
            0 <= j < t.len() && !is_anc(t, n, j) ==> level_of(move_node_view(t, n, np), j)
                == #[trigger] level_of(t, j),
        forall|j: int|
            0 <= j < t.len() && !is_anc(t, j, t[n].parent->Some_0) && !is_anc(t, j, np)
                ==> subtree_extent(move_node_view(t, n, np), j) == #[trigger] subtree_extent(t, j),
{
    let t2 = move_node_view(t, n, np);
    let p0 = t[n].parent->Some_0;
    assert forall|j: int| 0 <= j < t.len() implies node_extent(t2[j]) == node_extent(t[j]) by {}
    assert forall|j: int| 0 <= j < t.len() && !is_anc(t, n, j) implies level_of(t2, j)
        == #[trigger] level_of(t, j) by {
        lemma_move_level(t, n, np, j);
    }
    assert forall|j: int|
        0 <= j < t.len() && !is_anc(t, j, p0) && !is_anc(t, j, np) implies subtree_extent(t2, j)
        == #[trigger] subtree_extent(t, j) by {
        assert forall|k: int| #[trigger] is_anc(t, j, k) implies t[k].children == t2[k].children
            && t[k].label == t2[k].label by {
            assert(k != p0 && k != np);
        }
        lemma_subtree_extent_congruent(t, t2, j);
    }
}

/// Exactly one item of a nonempty embedding has no parent reference: the
/// root's, which — being visited last in post-order — is the last item.
pub proof fn lemma_unique_root_item(t: Seq<NodeView>, e: Seq<PlacedItemView>)
    requires
        wf_tree(t),
        embedding_ok(t, e),
    ensures
        forall|k: int| 0 <= k < e.len() ==> ((#[trigger] e[k]).parent is None <==> k == e.len() - 1),
{
    assert forall|k: int|
        0 <= k < e.len() implies ((#[trigger] e[k]).parent is None <==> k == e.len() - 1) by {
        lemma_rank_surjective(t, k);
        let i = choose|i: int| 0 <= i < t.len() && #[trigger] post_rank(t, i) == k;
        assert(e[k] == placed_item_of(t, i));
        crate::ancestry::lemma_subtree_size_bounds(t, 0);
        crate::model::lemma_subtree_size_pos(t, 0);
        assert(post_rank(t, 0) == t.len() - 1);
        if i == 0 {
            assert(e[k].parent is None);
        } else {
            crate::ancestry::lemma_rank_injective(t, 0, i);
        }
    }
}

/// Within one level, positions identify nodes: two distinct nodes on the
/// same level have distinct centers — footprints never overlap, not even
/// across different branches of the tree.  In particular the endpoint
/// coordinates of a rendered `line` element name the parent and the child
/// unambiguously.
pub proof fn lemma_same_level_distinct_centers(t: Seq<NodeView>, i: int, j: int)
    requires
        wf_tree(t),
        0 <= i < t.len(),
        0 <= j < t.len(),
        i != j,
        level_of(t, i) == level_of(t, j),
    ensures
        center_of(t, i) != center_of(t, j),
{
    if is_anc(t, i, j) {
        crate::ancestry::lemma_anc_level(t, i, j);
    } else if is_anc(t, j, i) {
        crate::ancestry::lemma_anc_level(t, j, i);
    } else {
        crate::ancestry::lemma_anc_root(t, i);
        crate::ancestry::lemma_anc_root(t, j);
        crate::ancestry::lemma_foot_disjoint(t, 0, i, j);
        lemma_subtree_extent_pos(t, i);
        lemma_subtree_extent_pos(t, j);
        lemma_half_monotone(0, subtree_extent(t, i));
        lemma_half_monotone(0, subtree_extent(t, j));
        assert(subtree_extent(t, i) / 2 < subtree_extent(t, i)) by {
            vstd::arithmetic::div_mod::lemma_fundamental_div_mod(subtree_extent(t, i), 2);
        }
        assert(subtree_extent(t, j) / 2 < subtree_extent(t, j)) by {
            vstd::arithmetic::div_mod::lemma_fundamental_div_mod(subtree_extent(t, j), 2);
        }
    }
}

/// The record-level form: two distinct items of an embedding on the same
/// level carry distinct centers.
pub proof fn lemma_embedding_no_overlap(t: Seq<NodeView>, e: Seq<PlacedItemView>)
    requires
        wf_tree(t),
        embedding_ok(t, e),
    ensures
        forall|k1: int, k2: int|
            0 <= k1 < e.len() && 0 <= k2 < e.len() && k1 != k2 && (#[trigger] e[k1]).y_order == (
            #[trigger] e[k2]).y_order ==> e[k1].x_center != e[k2].x_center,
{
    assert forall|k1: int, k2: int|
        0 <= k1 < e.len() && 0 <= k2 < e.len() && k1 != k2 && (#[trigger] e[k1]).y_order == (
        #[trigger] e[k2]).y_order implies e[k1].x_center != e[k2].x_center by {
        lemma_rank_surjective(t, k1);
        lemma_rank_surjective(t, k2);
        let i1 = choose|i: int| 0 <= i < t.len() && #[trigger] post_rank(t, i) == k1;
        let i2 = choose|i: int| 0 <= i < t.len() && #[trigger] post_rank(t, i) == k2;
        assert(e[k1] == placed_item_of(t, i1));
        assert(e[k2] == placed_item_of(t, i2));
        assert(i1 != i2);
        lemma_same_level_distinct_centers(t, i1, i2);
    }
}

} // verus!
