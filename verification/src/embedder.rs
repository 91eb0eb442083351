//! The embedder: it places the nodes of a tree in the plane.

use vstd::prelude::*;

use crate::ancestry::{
    lemma_center_bounds, lemma_child_pos, lemma_half_monotone, lemma_other_half_monotone,
    lemma_rank_injective, lemma_rank_range, lemma_subtree_extent_bound, lemma_subtree_size_bounds,
};
use crate::model::{
    center_of, child_pos, children_extent, children_size, lemma_children_extent_monotone,
    lemma_children_extent_nonneg, lemma_children_size_monotone, lemma_level_bounds,
    lemma_subtree_extent_pos, lemma_subtree_size_pos, level_of, post_rank, post_start,
    subtree_extent, subtree_size,
};
use crate::tree::{node_extent, wf_tree, LayoutTree, NodeView};

verus! {

/// The embedding of a whole tree: one [`PlacedTreeItem`] per node, ordered
/// by post-order rank.
pub type Embedding = Vec<PlacedTreeItem>;

/// The embedding information for one single tree node.
#[derive(Debug, Clone, Default)]
pub struct PlacedTreeItem {
    /// The node's level; the root has level 0.  Determines the vertical
    /// position of the node.
    pub y_order: usize,
    /// The logical x coordinate of the node's center.
    pub x_center: usize,
    /// The x extent of the node's own label, in logical coordinate units.
    pub x_extent: usize,
    /// The maximum of the node's own extent and the summed extents of the
    /// subtrees of its children: the footprint the node reserves.
    pub x_extent_children: usize,
    /// The node's display text.
    pub text: String,
    /// Whether a renderer should emphasize this node.
    pub is_emphasized: bool,
    /// The `ord` of the parent's item, if there is a parent.
    pub parent: Option<usize>,
    /// A unique number reflecting the topological post-ordering of the
    /// nodes in the tree.
    pub ord: usize,
}

/// The mathematical model of one placed item.
#[verifier::ext_equal]
pub ghost struct PlacedItemView {
    /// The node's level.
    pub y_order: int,
    /// The horizontal center.
    pub x_center: int,
    /// The extent of the node's own label.
    pub x_extent: int,
    /// The extent of the node's subtree.
    pub x_extent_children: int,
    /// The display text.
    pub text: Seq<char>,
    /// The emphasis flag.
    pub is_emphasized: bool,
    /// The `ord` of the parent's item.
    pub parent: Option<int>,
    /// The post-order rank of the node.
    pub ord: int,
}

impl View for PlacedTreeItem {
    type V = PlacedItemView;

    open spec fn view(&self) -> PlacedItemView {
        PlacedItemView {
            y_order: self.y_order as int,
            x_center: self.x_center as int,
            x_extent: self.x_extent as int,
            x_extent_children: self.x_extent_children as int,
            text: self.text@,
            is_emphasized: self.is_emphasized,
            parent: match self.parent {
                Some(p) => Some(p as int),
                None => None,
            },
            ord: self.ord as int,
        }
    }
}

/// The models of all items of an embedding.
pub open spec fn items_view(e: Seq<PlacedTreeItem>) -> Seq<PlacedItemView> {
    e.map_values(|it: PlacedTreeItem| it@)
}

/// The item that the embedding of tree `t` holds for node `i`: every field
/// is the corresponding quantity of the layout model, and the parent link
/// carries the post-order rank of the parent.
pub open spec fn placed_item_of(t: Seq<NodeView>, i: int) -> PlacedItemView {
    PlacedItemView {
        y_order: level_of(t, i),
        x_center: center_of(t, i),
        x_extent: node_extent(t[i]),
        x_extent_children: subtree_extent(t, i),
        text: t[i].label,
        is_emphasized: t[i].emphasized,
        parent: match t[i].parent {
            None => None,
            Some(p) => Some(post_rank(t, p)),
        },
        ord: post_rank(t, i),
    }
}

/// What the embedder guarantees: one item per node, stored at the node's
/// post-order rank, with `ord` equal to the item's position.
pub open spec fn embedding_ok(t: Seq<NodeView>, e: Seq<PlacedItemView>) -> bool {
    &&& e.len() == t.len()
    &&& forall|k: int| 0 <= k < e.len() ==> (#[trigger] e[k]).ord == k
    &&& forall|i: int| 0 <= i < t.len() ==> e[#[trigger] post_rank(t, i)] == placed_item_of(t, i)
}

/// The embedder.  Its single public method [`Embedder::embed`] arranges
/// the nodes of a tree in the plane.
pub struct Embedder;

impl Embedder {
    /// Computes for every node, from the last inserted node towards the
    /// root, the extent of its own label, the summed extents of its
    /// children's subtrees and the extent of its whole subtree.  Children
    /// always have larger indices than their parent, so walking the arena
    /// backwards visits every child before its parent.
    fn compute_extents(tree: &LayoutTree) -> (r: (Vec<usize>, Vec<usize>, Vec<usize>))
        requires
            tree.wf(),
        ensures
            r.0@.len() == tree@.len(),
            r.1@.len() == tree@.len(),
            r.2@.len() == tree@.len(),
            forall|j: int|
                0 <= j < tree@.len() ==> (#[trigger] r.0@[j]) as int == node_extent(tree@[j]),
            forall|j: int|
                0 <= j < tree@.len() ==> (#[trigger] r.1@[j]) as int == children_extent(
                    tree@,
                    j,
                    tree@[j].children.len() as int,
                ),
            forall|j: int|
                0 <= j < tree@.len() ==> (#[trigger] r.2@[j]) as int == subtree_extent(tree@, j),
    {
        let ghost t = tree@;
        let n = tree.node_count();
        let mut ext: Vec<usize> = vec![0; n];
        let mut sumch: Vec<usize> = vec![0; n];
        let mut se: Vec<usize> = vec![0; n];
        let mut i = n;
        while i > 0
            invariant
                tree.wf(),
                t == tree@,
                n == t.len(),
                0 <= i <= n,
                ext@.len() == n,
                sumch@.len() == n,
                se@.len() == n,
                forall|j: int| i <= j < n ==> (#[trigger] ext@[j]) as int == node_extent(t[j]),
                forall|j: int|
                    i <= j < n ==> (#[trigger] sumch@[j]) as int == children_extent(
                        t,
                        j,
                        t[j].children.len() as int,
                    ),
                forall|j: int| i <= j < n ==> (#[trigger] se@[j]) as int == subtree_extent(t, j),
            decreases i,
        {
            i = i - 1;
            proof {
                tree.lemma_wf();
                lemma_subtree_extent_pos(t, i as int);
                lemma_subtree_extent_bound(t, i as int);
            }
            let chars = tree.label_at(i).as_str().unicode_len();
            let e = chars + 1;
            let cs = tree.children_of(i);
            let m = cs.len();
            let mut sum: usize = 0;
            let mut k: usize = 0;
            while k < m
                invariant
                    tree.wf(),
                    t == tree@,
                    n == t.len(),
                    0 <= i < n,
                    se@.len() == n,
                    cs@.map_values(|c: usize| c as int) == t[i as int].children,
                    m == t[i as int].children.len(),
                    0 <= k <= m,
                    forall|j: int| i < j < n ==> (#[trigger] se@[j]) as int == subtree_extent(t, j),
                    sum as int == children_extent(t, i as int, k as int),
                decreases m - k,
            {
                let c = cs[k];
                proof {
                    tree.lemma_wf();
                    assert(t[i as int].children[k as int] == c as int);
                    assert(i < c < n);
                    lemma_children_extent_monotone(t, i as int, k as int + 1, m as int);
                    lemma_subtree_extent_pos(t, i as int);
                    lemma_subtree_extent_bound(t, i as int);
                    assert(children_extent(t, i as int, k as int + 1) == children_extent(
                        t,
                        i as int,
                        k as int,
                    ) + subtree_extent(t, c as int));
                }
                sum = sum + se[c];
                k = k + 1;
            }
            ext[i] = e;
            sumch[i] = sum;
            se[i] = if e >= sum {
                e
            } else {
                sum
            };
        }
        (ext, sumch, se)
    }

    /// Computes the post-order rank of every node: a bottom-up pass first
    /// determines every subtree's size, a top-down pass then assigns every
    /// subtree its contiguous rank interval — the children's blocks in
    /// declaration order, the node itself on the last slot.
    fn compute_post_order(tree: &LayoutTree) -> (rank: Vec<usize>)
        requires
            tree.wf(),
        ensures
            rank@.len() == tree@.len(),
            forall|j: int|
                0 <= j < tree@.len() ==> (#[trigger] rank@[j]) as int == post_rank(tree@, j),
    {
        let ghost t = tree@;
        let n = tree.node_count();
        let mut size: Vec<usize> = vec![0; n];
        let mut i = n;
        while i > 0
            invariant
                tree.wf(),
                t == tree@,
                n == t.len(),
                0 <= i <= n,
                size@.len() == n,
                forall|j: int| i <= j < n ==> (#[trigger] size@[j]) as int == subtree_size(t, j),
            decreases i,
        {
            i = i - 1;
            proof {
                tree.lemma_wf();
                lemma_subtree_size_bounds(t, i as int);
            }
            let cs = tree.children_of(i);
            let m = cs.len();
            let mut sum: usize = 0;
            let mut k: usize = 0;
            while k < m
                invariant
                    tree.wf(),
                    t == tree@,
                    n == t.len(),
                    0 <= i < n,
                    size@.len() == n,
                    cs@.map_values(|c: usize| c as int) == t[i as int].children,
                    m == t[i as int].children.len(),
                    0 <= k <= m,
                    forall|j: int| i < j < n ==> (#[trigger] size@[j]) as int == subtree_size(t, j),
                    sum as int == children_size(t, i as int, k as int),
                decreases m - k,
            {
                let c = cs[k];
                proof {
                    tree.lemma_wf();
                    assert(t[i as int].children[k as int] == c as int);
                    assert(i < c < n);
                    lemma_children_size_monotone(t, i as int, k as int + 1, m as int);
                    lemma_subtree_size_pos(t, i as int);
                    lemma_subtree_size_bounds(t, i as int);
                    assert(children_size(t, i as int, k as int + 1) == children_size(
                        t,
                        i as int,
                        k as int,
                    ) + subtree_size(t, c as int));
                }
                sum = sum + size[c];
                k = k + 1;
            }
            size[i] = 1 + sum;
        }
        let mut start: Vec<usize> = vec![0; n];
        let mut i: usize = 0;
        while i < n
            invariant
                tree.wf(),
                t == tree@,
                n == t.len(),
                0 <= i <= n,
                size@.len() == n,
                start@.len() == n,
                forall|j: int| 0 <= j < n ==> (#[trigger] size@[j]) as int == subtree_size(t, j),
                forall|j: int|
                    0 <= j < n && (j == 0 || t[j].parent->Some_0 < i as int) ==> (
                    #[trigger] start@[j]) as int == post_start(t, j),
            decreases n - i,
        {
            proof {
                tree.lemma_wf();
                lemma_rank_range(t, i as int);
                lemma_subtree_size_pos(t, i as int);
            }
            let cs = tree.children_of(i);
            let m = cs.len();
            let mut cur: usize = start[i];
            let mut k: usize = 0;
            while k < m
                invariant
                    tree.wf(),
                    t == tree@,
                    n == t.len(),
                    0 <= i < n,
                    size@.len() == n,
                    start@.len() == n,
                    cs@.map_values(|c: usize| c as int) == t[i as int].children,
                    m == t[i as int].children.len(),
                    0 <= k <= m,
                    forall|j: int| 0 <= j < n ==> (#[trigger] size@[j]) as int == subtree_size(t, j),
                    forall|j: int|
                        0 <= j < n && (j == 0 || t[j].parent->Some_0 < i as int) ==> (
                        #[trigger] start@[j]) as int == post_start(t, j),
                    forall|k2: int|
                        0 <= k2 < k ==> (#[trigger] start@[t[i as int].children[k2]]) as int
                            == post_start(t, t[i as int].children[k2]),
                    cur as int == post_start(t, i as int) + children_size(t, i as int, k as int),
                decreases m - k,
            {
                let c = cs[k];
                proof {
                    tree.lemma_wf();
                    assert(t[i as int].children[k as int] == c as int);
                    assert(i < c < n);
                    assert(t[c as int].parent == Some(i as int));
                    lemma_child_pos(t, c as int);
                    assert(t[i as int].children[child_pos(t, c as int)] == c as int);
                    assert(child_pos(t, c as int) == k as int);
                    lemma_children_size_monotone(t, i as int, k as int + 1, m as int);
                    lemma_subtree_size_pos(t, i as int);
                    lemma_rank_range(t, i as int);
                    assert(children_size(t, i as int, k as int + 1) == children_size(
                        t,
                        i as int,
                        k as int,
                    ) + subtree_size(t, c as int));
                }
                start[c] = cur;
                cur = cur + size[c];
                k = k + 1;
            }
            proof {
                assert forall|j: int|
                    0 <= j < n && (j == 0 || t[j].parent->Some_0 < i as int + 1) implies (
                #[trigger] start@[j]) as int == post_start(t, j) by {
                    if j != 0 && t[j].parent->Some_0 == i as int {
                        lemma_child_pos(t, j);
                        assert(start@[t[i as int].children[child_pos(t, j)]] as int == post_start(
                            t,
                            t[i as int].children[child_pos(t, j)],
                        ));
                    }
                }
            }
            i = i + 1;
        }
        proof {
            tree.lemma_wf();
            assert forall|j: int| 0 <= j < n implies (#[trigger] start@[j]) as int == post_start(
                t,
                j,
            ) by {
                if j != 0 {
                    assert(t[j].parent->Some_0 < n);
                }
            }
        }
        let mut rank: Vec<usize> = vec![0; n];
        let mut i: usize = 0;
        while i < n
            invariant
                tree.wf(),
                t == tree@,
                n == t.len(),
                0 <= i <= n,
                size@.len() == n,
                start@.len() == n,
                rank@.len() == n,
                forall|j: int| 0 <= j < n ==> (#[trigger] size@[j]) as int == subtree_size(t, j),
                forall|j: int| 0 <= j < n ==> (#[trigger] start@[j]) as int == post_start(t, j),
                forall|j: int| 0 <= j < i ==> (#[trigger] rank@[j]) as int == post_rank(t, j),
            decreases n - i,
        {
            proof {
                tree.lemma_wf();
                lemma_rank_range(t, i as int);
                lemma_subtree_size_pos(t, i as int);
            }
            rank[i] = start[i] + size[i] - 1;
            i = i + 1;
        }
        rank
    }

    /// Assigns every node its level: the root has level zero, every other
    /// node lies one level below its parent.  Parents have smaller indices
    /// than their children, so a single forward pass suffices.
    fn apply_y_order(tree: &LayoutTree) -> (level: Vec<usize>)
        requires
            tree.wf(),
        ensures
            level@.len() == tree@.len(),
            forall|j: int|
                0 <= j < tree@.len() ==> (#[trigger] level@[j]) as int == level_of(tree@, j),
    {
        let ghost t = tree@;
        let n = tree.node_count();
        let mut level: Vec<usize> = vec![0; n];
        let mut i: usize = 0;
        while i < n
            invariant
                tree.wf(),
                t == tree@,
                n == t.len(),
                0 <= i <= n,
                level@.len() == n,
                forall|j: int| 0 <= j < i ==> (#[trigger] level@[j]) as int == level_of(t, j),
            decreases n - i,
        {
            proof {
                tree.lemma_wf();
                lemma_level_bounds(t, i as int);
            }
            match tree.parent_of(i) {
                None => {
                    proof {
                        assert(i == 0);
                    }
                    level[i] = 0;
                },
                Some(p) => {
                    proof {
                        assert(0 <= p < i);
                        lemma_level_bounds(t, p as int);
                    }
                    level[i] = level[p] + 1;
                },
            }
            i = i + 1;
        }
        level
    }

    /// Assigns every node its horizontal center, from the root downwards,
    /// layer order being implied by the index order: the root is centered
    /// in its own footprint; below every node a cursor starts at the left
    /// edge of the centered block of its children and packs the children's
    /// footprints contiguously, centering each child within its own.
    fn apply_x_center(tree: &LayoutTree, sumch: &Vec<usize>, se: &Vec<usize>) -> (center: Vec<
        usize,
    >)
        requires
            tree.wf(),
            sumch@.len() == tree@.len(),
            se@.len() == tree@.len(),
            forall|j: int|
                0 <= j < tree@.len() ==> (#[trigger] sumch@[j]) as int == children_extent(
                    tree@,
                    j,
                    tree@[j].children.len() as int,
                ),
            forall|j: int|
                0 <= j < tree@.len() ==> (#[trigger] se@[j]) as int == subtree_extent(tree@, j),
        ensures
            center@.len() == tree@.len(),
            forall|j: int|
                0 <= j < tree@.len() ==> (#[trigger] center@[j]) as int == center_of(tree@, j),
    {
        let ghost t = tree@;
        let n = tree.node_count();
        let mut center: Vec<usize> = vec![0; n];
        if n == 0 {
            return center;
        }
        proof {
            tree.lemma_wf();
            lemma_subtree_extent_pos(t, 0);
            lemma_subtree_extent_bound(t, 0);
        }
        center[0] = se[0] / 2;
        let mut i: usize = 0;
        while i < n
            invariant
                tree.wf(),
                t == tree@,
                n == t.len(),
                0 <= i <= n,
                center@.len() == n,
                sumch@.len() == n,
                se@.len() == n,
                forall|j: int|
                    0 <= j < n ==> (#[trigger] sumch@[j]) as int == children_extent(
                        t,
                        j,
                        t[j].children.len() as int,
                    ),
                forall|j: int| 0 <= j < n ==> (#[trigger] se@[j]) as int == subtree_extent(t, j),
                forall|j: int|
                    0 <= j < n && (j == 0 || t[j].parent->Some_0 < i as int) ==> (
                    #[trigger] center@[j]) as int == center_of(t, j),
            decreases n - i,
        {
            proof {
                tree.lemma_wf();
                lemma_center_bounds(t, i as int);
                lemma_subtree_extent_pos(t, i as int);
                lemma_subtree_extent_bound(t, 0);
                lemma_half_monotone(
                    children_extent(t, i as int, t[i as int].children.len() as int),
                    subtree_extent(t, i as int),
                );
                lemma_children_extent_nonneg(t, i as int, t[i as int].children.len() as int);
            }
            let cs = tree.children_of(i);
            let m = cs.len();
            let mut cur: usize = center[i] - sumch[i] / 2;
            let mut k: usize = 0;
            while k < m
                invariant
                    tree.wf(),
                    t == tree@,
                    n == t.len(),
                    0 <= i < n,
                    center@.len() == n,
                    sumch@.len() == n,
                    se@.len() == n,
                    cs@.map_values(|c: usize| c as int) == t[i as int].children,
                    m == t[i as int].children.len(),
                    0 <= k <= m,
                    forall|j: int|
                        0 <= j < n ==> (#[trigger] sumch@[j]) as int == children_extent(
                            t,
                            j,
                            t[j].children.len() as int,
                        ),
                    forall|j: int| 0 <= j < n ==> (#[trigger] se@[j]) as int == subtree_extent(
                        t,
                        j,
                    ),
                    forall|j: int|
                        0 <= j < n && (j == 0 || t[j].parent->Some_0 < i as int) ==> (
                        #[trigger] center@[j]) as int == center_of(t, j),
                    forall|k2: int|
                        0 <= k2 < k ==> (#[trigger] center@[t[i as int].children[k2]]) as int
                            == center_of(t, t[i as int].children[k2]),
                    cur as int == center_of(t, i as int) - children_extent(
                        t,
                        i as int,
                        t[i as int].children.len() as int,
                    ) / 2 + children_extent(t, i as int, k as int),
                decreases m - k,
            {
                let c = cs[k];
                proof {
                    tree.lemma_wf();
                    assert(t[i as int].children[k as int] == c as int);
                    assert(i < c < n);
                    assert(t[c as int].parent == Some(i as int));
                    lemma_child_pos(t, c as int);
                    assert(t[i as int].children[child_pos(t, c as int)] == c as int);
                    assert(child_pos(t, c as int) == k as int);
                    lemma_center_bounds(t, i as int);
                    lemma_center_bounds(t, c as int);
                    lemma_subtree_extent_pos(t, i as int);
                    lemma_subtree_extent_pos(t, c as int);
                    lemma_subtree_extent_bound(t, 0);
                    let cn = t[i as int].children.len() as int;
                    lemma_children_extent_monotone(t, i as int, k as int + 1, cn);
                    assert(children_extent(t, i as int, k as int + 1) == children_extent(
                        t,
                        i as int,
                        k as int,
                    ) + subtree_extent(t, c as int));
                    lemma_children_extent_nonneg(t, i as int, cn);
                    lemma_other_half_monotone(
                        children_extent(t, i as int, cn),
                        subtree_extent(t, i as int),
                    );
                    lemma_half_monotone(0, subtree_extent(t, c as int));
                }
                center[c] = cur + se[c] / 2;
                cur = cur + se[c];
                k = k + 1;
            }
            proof {
                assert forall|j: int|
                    0 <= j < n && (j == 0 || t[j].parent->Some_0 < i as int + 1) implies (
                #[trigger] center@[j]) as int == center_of(t, j) by {
                    if j != 0 && t[j].parent->Some_0 == i as int {
                        lemma_child_pos(t, j);
                        assert(center@[t[i as int].children[child_pos(t, j)]] as int == center_of(
                            t,
                            t[i as int].children[child_pos(t, j)],
                        ));
                    }
                }
            }
            i = i + 1;
        }
        center
    }

    /// Collects the computed quantities into the final embedding: one item
    /// per node, stored at the node's post-order rank, which is also the
    /// item's `ord`; the parent link carries the parent's rank.
    fn transfer_result(
        tree: &LayoutTree,
        ext: &Vec<usize>,
        se: &Vec<usize>,
        level: &Vec<usize>,
        center: &Vec<usize>,
        rank: &Vec<usize>,
    ) -> (r: Embedding)
        requires
            tree.wf(),
            ext@.len() == tree@.len(),
            se@.len() == tree@.len(),
            level@.len() == tree@.len(),
            center@.len() == tree@.len(),
            rank@.len() == tree@.len(),
            forall|j: int|
                0 <= j < tree@.len() ==> (#[trigger] ext@[j]) as int == node_extent(tree@[j]),
            forall|j: int|
                0 <= j < tree@.len() ==> (#[trigger] se@[j]) as int == subtree_extent(tree@, j),
            forall|j: int|
                0 <= j < tree@.len() ==> (#[trigger] level@[j]) as int == level_of(tree@, j),
            forall|j: int|
                0 <= j < tree@.len() ==> (#[trigger] center@[j]) as int == center_of(tree@, j),
            forall|j: int|
                0 <= j < tree@.len() ==> (#[trigger] rank@[j]) as int == post_rank(tree@, j),
        ensures
            embedding_ok(tree@, items_view(r@)),
    {
        let ghost t = tree@;
        let n = tree.node_count();
        let mut out: Embedding = Vec::with_capacity(n);
        let mut k: usize = 0;
        while k < n
            invariant
                0 <= k <= n,
                out@.len() == k,
                forall|j: int| 0 <= j < k ==> (#[trigger] out@[j])@.ord == j,
            decreases n - k,
        {
            out.push(
                PlacedTreeItem {
                    y_order: 0,
                    x_center: 0,
                    x_extent: 0,
                    x_extent_children: 0,
                    text: String::new(),
                    is_emphasized: false,
                    parent: None,
                    ord: k,
                },
            );
            k = k + 1;
        }
        let mut i: usize = 0;
        while i < n
            invariant
                tree.wf(),
                t == tree@,
                n == t.len(),
                0 <= i <= n,
                out@.len() == n,
                ext@.len() == n,
                se@.len() == n,
                level@.len() == n,
                center@.len() == n,
                rank@.len() == n,
                forall|j: int| 0 <= j < n ==> (#[trigger] ext@[j]) as int == node_extent(t[j]),
                forall|j: int| 0 <= j < n ==> (#[trigger] se@[j]) as int == subtree_extent(t, j),
                forall|j: int| 0 <= j < n ==> (#[trigger] level@[j]) as int == level_of(t, j),
                forall|j: int| 0 <= j < n ==> (#[trigger] center@[j]) as int == center_of(t, j),
                forall|j: int| 0 <= j < n ==> (#[trigger] rank@[j]) as int == post_rank(t, j),
                forall|j: int| 0 <= j < n ==> (#[trigger] out@[j])@.ord == j,
                forall|i2: int|
                    0 <= i2 < i ==> items_view(out@)[#[trigger] post_rank(t, i2)] == placed_item_of(
                        t,
                        i2,
                    ),
            decreases n - i,
        {
            proof {
                tree.lemma_wf();
                lemma_rank_range(t, i as int);
            }
            let po = match tree.parent_of(i) {
                None => None,
                Some(p) => {
                    proof {
                        assert(0 <= (p as int) < i);
                        lemma_rank_range(t, p as int);
                    }
                    Some(rank[p])
                },
            };
            let item = PlacedTreeItem {
                y_order: level[i],
                x_center: center[i],
                x_extent: ext[i],
                x_extent_children: se[i],
                text: tree.label_at(i).clone(),
                is_emphasized: tree.emphasized_at(i),
                parent: po,
                ord: rank[i],
            };
            let ghost old_out = out@;
            let ri = rank[i];
            out[ri] = item;
            proof {
                assert(item@ =~~= placed_item_of(t, i as int));
                assert forall|i2: int|
                    0 <= i2 < i + 1 implies items_view(out@)[#[trigger] post_rank(t, i2)]
                    == placed_item_of(t, i2) by {
                    if i2 < i {
                        lemma_rank_injective(t, i2, i as int);
                        lemma_rank_range(t, i2);
                        assert(items_view(out@)[post_rank(t, i2)] == items_view(old_out)[post_rank(
                            t,
                            i2,
                        )]);
                    }
                }
            }
            i = i + 1;
        }
        out
    }

    /// This method creates an embedding of the nodes of the given tree in
    /// the plane.
    ///
    /// The result holds one item per tree node, ordered and keyed by the
    /// node's post-order rank: the item at position `k` carries `ord == k`,
    /// and the item of every node states exactly the level, center, extent,
    /// subtree extent, label, emphasis and parent rank that the layout
    /// model assigns to that node.  An empty tree yields an empty
    /// embedding.
    ///
    /// # Complexity
    ///
    /// The algorithm runs in time linear in the number of nodes (counting
    /// one unit per label character).
    pub fn embed(tree: &LayoutTree) -> (r: Embedding)
        requires
            tree.wf(),
        ensures
            embedding_ok(tree@, items_view(r@)),
    {
        let (ext, sumch, se) = Self::compute_extents(tree);
        let rank = Self::compute_post_order(tree);
        let level = Self::apply_y_order(tree);
        let center = Self::apply_x_center(tree, &sumch, &se);
        Self::transfer_result(tree, &ext, &se, &level, &center, &rank)
    }
}

/// Whether some item of the embedding carries the ordinal `ord`.
pub open spec fn has_ord(e: Seq<PlacedItemView>, ord: int) -> bool {
    exists|j: int| 0 <= j < e.len() && (#[trigger] e[j]).ord == ord
}

/// The position of the first item carrying the ordinal `ord`, or `e.len()`
/// when there is none.
pub open spec fn find_ord(e: Seq<PlacedItemView>, ord: int) -> int {
    find_ord_from(e, ord, 0)
}

/// The position of the first item at `m` or later carrying the ordinal
/// `ord`, or `e.len()` when there is none.
pub open spec fn find_ord_from(e: Seq<PlacedItemView>, ord: int, m: int) -> int
    decreases e.len() - m,
{
    if !(0 <= m < e.len()) {
        e.len() as int
    } else if e[m].ord == ord {
        m
    } else {
        find_ord_from(e, ord, m + 1)
    }
}

/// Whether every parent reference of the embedding resolves to some item:
/// what a drawer needs to connect each node to its parent.
pub open spec fn parents_resolvable(e: Seq<PlacedItemView>) -> bool {
    forall|k: int|
        0 <= k < e.len() && (#[trigger] e[k]).parent is Some ==> has_ord(e, e[k].parent->Some_0)
}

/// A found ordinal lies in range and is the first hit.
pub proof fn lemma_find_ord_from(e: Seq<PlacedItemView>, ord: int, m: int)
    requires
        0 <= m <= e.len(),
    ensures
        m <= find_ord_from(e, ord, m) <= e.len(),
        find_ord_from(e, ord, m) < e.len() ==> e[find_ord_from(e, ord, m)].ord == ord,
        forall|j: int| m <= j < find_ord_from(e, ord, m) ==> (#[trigger] e[j]).ord != ord,
        (exists|j: int| m <= j < e.len() && (#[trigger] e[j]).ord == ord) ==> find_ord_from(
            e,
            ord,
            m,
        ) < e.len(),
    decreases e.len() - m,
{
    if m < e.len() && e[m].ord != ord {
        lemma_find_ord_from(e, ord, m + 1);
    }
}

/// An embedding the embedder produced resolves every parent reference,
/// and — because the ordinals are positional — resolves it to the
/// position the reference names.
pub proof fn lemma_embedding_resolvable(t: Seq<NodeView>, e: Seq<PlacedItemView>)
    requires
        wf_tree(t),
        embedding_ok(t, e),
    ensures
        parents_resolvable(e),
        forall|k: int|
            0 <= k < e.len() && (#[trigger] e[k]).parent is Some ==> 0 <= e[k].parent->Some_0
                < e.len() && find_ord(e, e[k].parent->Some_0) == e[k].parent->Some_0,
{
    assert forall|k: int|
        0 <= k < e.len() && (#[trigger] e[k]).parent is Some implies 0 <= e[k].parent->Some_0
        < e.len() && find_ord(e, e[k].parent->Some_0) == e[k].parent->Some_0 && has_ord(
        e,
        e[k].parent->Some_0,
    ) by {
        crate::ancestry::lemma_rank_surjective(t, k);
        let i = choose|i: int| 0 <= i < t.len() && #[trigger] post_rank(t, i) == k;
        assert(e[k] == placed_item_of(t, i));
        let p = t[i].parent->Some_0;
        assert(i != 0);
        lemma_rank_range(t, p);
        let po = e[k].parent->Some_0;
        assert(po == post_rank(t, p));
        assert(e[po].ord == po);
        lemma_find_ord_from(e, po, 0);
        assert(find_ord(e, po) <= po);
        assert(e[find_ord(e, po)].ord == find_ord(e, po));
    }
}

/// The node whose post-order rank is `k`.
pub open spec fn node_at_rank(t: Seq<NodeView>, k: int) -> int {
    choose|i: int| 0 <= i < t.len() && post_rank(t, i) == k
}

/// The embedding of a tree as a value of the model: the item of every
/// node, ordered by post-order rank.
pub open spec fn spec_embedding_of(t: Seq<NodeView>) -> Seq<PlacedItemView> {
    Seq::new(t.len(), |k: int| placed_item_of(t, node_at_rank(t, k)))
}

/// There is exactly one embedding of a well formed tree: every embedding
/// with [`embedding_ok`] equals [`spec_embedding_of`] the tree.
pub proof fn lemma_embedding_canonical(t: Seq<NodeView>, e: Seq<PlacedItemView>)
    requires
        wf_tree(t),
        embedding_ok(t, e),
    ensures
        e == spec_embedding_of(t),
{
    assert forall|k: int| 0 <= k < e.len() implies e[k] == spec_embedding_of(t)[k] by {
        crate::ancestry::lemma_rank_surjective(t, k);
        assert(exists|i: int| 0 <= i < t.len() && post_rank(t, i) == k);
        let i = node_at_rank(t, k);
        assert(0 <= i < t.len() && post_rank(t, i) == k);
        assert(e[post_rank(t, i)] == placed_item_of(t, i));
    }
    assert(e =~= spec_embedding_of(t));
}

} // verus!
