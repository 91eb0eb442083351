//! The input tree of the embedder.
//!
//! A [`LayoutTree`] is an arena of nodes.  Every node carries its display
//! label, its emphasis flag, the index of its parent and the ordered list of
//! its children.  Nodes are addressed by the `usize` index under which they
//! were inserted; a parent is always inserted before its children, so every
//! child index is strictly greater than the index of its parent.  This makes
//! the parent relation well founded by construction: the tree cannot contain
//! a cycle.

use vstd::prelude::*;

use crate::layouter_error::LayouterError;

verus! {

/// The mathematical model of one tree node.
#[verifier::ext_equal]
pub ghost struct NodeView {
    /// The display text of the node.
    pub label: Seq<char>,
    /// Whether a renderer should emphasize the node.
    pub emphasized: bool,
    /// The index of the parent node; `None` exactly for the root.
    pub parent: Option<int>,
    /// The indices of the children, in declaration order.
    pub children: Seq<int>,
}

/// The structural well-formedness of a tree model: node `0` is the root,
/// every other node has a parent with a smaller index, and the children
/// lists are exactly consistent with the parent links (each non-root node
/// appears in the children list of its parent and in no other, exactly
/// once).
pub open spec fn wf_tree(t: Seq<NodeView>) -> bool {
    &&& (t.len() > 0 ==> t[0].parent is None)
    &&& (forall|i: int|
        1 <= i < t.len() ==> (#[trigger] t[i].parent) is Some && 0 <= t[i].parent->Some_0 < i)
    &&& (forall|i: int, k: int|
        0 <= i < t.len() && 0 <= k < t[i].children.len() ==> i < #[trigger] t[i].children[k]
            < t.len())
    &&& (forall|i: int, k: int|
        0 <= i < t.len() && 0 <= k < t[i].children.len() ==> t[#[trigger] t[i].children[k]].parent
            == Some(i))
    &&& (forall|i: int, k1: int, k2: int|
        0 <= i < t.len() && 0 <= k1 < t[i].children.len() && 0 <= k2 < t[i].children.len()
            && #[trigger] t[i].children[k1] == #[trigger] t[i].children[k2] ==> k1 == k2)
    &&& (forall|c: int|
        1 <= c < t.len() ==> t[(#[trigger] t[c].parent)->Some_0].children.contains(c))
}

/// The layout width a single node reserves for its own label: one unit per
/// character plus one unit of padding.
pub open spec fn node_extent(v: NodeView) -> int {
    v.label.len() as int + 1
}

/// The sum of [`node_extent`] over all nodes of the tree.
pub open spec fn total_extent_of(t: Seq<NodeView>) -> int
    decreases t.len(),
{
    if t.len() == 0 {
        0
    } else {
        total_extent_of(t.drop_last()) + node_extent(t.last())
    }
}

/// One node of a [`LayoutTree`].
struct TreeNode {
    label: String,
    emphasized: bool,
    parent: Option<usize>,
    children: Vec<usize>,
}

impl View for TreeNode {
    type V = NodeView;

    closed spec fn view(&self) -> NodeView {
        NodeView {
            label: self.label@,
            emphasized: self.emphasized,
            parent: match self.parent {
                Some(p) => Some(p as int),
                None => None,
            },
            children: self.children@.map_values(|c: usize| c as int),
        }
    }
}

/// An ordered, rooted tree, the input of the embedder.
///
/// The tree starts empty.  [`LayoutTree::add_node`] inserts the root (when
/// the tree is empty) or appends a new child to an existing node;
/// [`LayoutTree::move_node`] reassigns an existing subtree to an earlier
/// inserted node.  Nodes are addressed by the index that `add_node`
/// returned.
pub struct LayoutTree {
    nodes: Vec<TreeNode>,
    total_extent: usize,
}

impl View for LayoutTree {
    type V = Seq<NodeView>;

    closed spec fn view(&self) -> Seq<NodeView> {
        self.nodes@.map_values(|n: TreeNode| n@)
    }
}

impl LayoutTree {
    /// A tree is well formed when its model is structurally well formed and
    /// the cached total extent is the sum of all node extents.  The cache
    /// in particular bounds the width of the whole layout by `usize::MAX`.
    pub closed spec fn wf(self) -> bool {
        &&& wf_tree(self@)
        &&& self.total_extent as int == total_extent_of(self@)
    }

    /// Well-formedness seen from outside: the model is structurally well
    /// formed and its total width fits the machine word.
    pub proof fn lemma_wf(self)
        requires
            self.wf(),
        ensures
            wf_tree(self@),
            0 <= total_extent_of(self@) <= usize::MAX,
    {
    }

    /// Creates an empty tree.
    pub fn new() -> (r: Self)
        ensures
            r.wf(),
            r@ == Seq::<NodeView>::empty(),
    {
        let r = Self { nodes: Vec::new(), total_extent: 0 };
        proof {
            assert(r@ =~= Seq::<NodeView>::empty());
        }
        r
    }

    /// The number of nodes in the tree.
    pub fn node_count(&self) -> (r: usize)
        ensures
            r == self@.len(),
    {
        self.nodes.len()
    }

    /// Inserts a new node and returns its index.
    ///
    /// With `parent == None` the node becomes the root, which is only
    /// possible while the tree is empty.  With `parent == Some(p)` the node
    /// is appended as the last child of node `p`.  The insertion is refused
    /// when the parent does not exist, when a root is inserted into a
    /// non-empty tree, or when the label would push the total layout width
    /// beyond `usize::MAX`.
    pub fn add_node(&mut self, label: String, emphasized: bool, parent: Option<usize>) -> (r:
        crate::layouter_error::Result<usize>)
        requires
            old(self).wf(),
        ensures
            final(self).wf(),
            r is Ok <==> parent_slot_ok(old(self)@, parent_view(parent)) && extent_fits(
                old(self)@,
                label@,
            ),
            r is Ok ==> r->Ok_0 == old(self)@.len(),
            r is Ok ==> final(self)@ == add_node_view(
                old(self)@,
                label@,
                emphasized,
                parent_view(parent),
            ),
            r is Err ==> final(self)@ == old(self)@,
    {
        let n = self.nodes.len();
        match parent {
            None => {
                if n != 0 {
                    return Err(LayouterError::from_description(
                        "A root can only be inserted into an empty tree.".to_owned(),
                    ));
                }
            },
            Some(p) => {
                if p >= n {
                    return Err(LayouterError::from_description(
                        "The given parent node does not exist.".to_owned(),
                    ));
                }
            },
        }
        let chars = label.as_str().unicode_len();
        let new_total = match chars.checked_add(1) {
            Some(ext) => match self.total_extent.checked_add(ext) {
                Some(t) => t,
                None => {
                    return Err(LayouterError::from_description(
                        "The label does not fit into the layout space.".to_owned(),
                    ));
                },
            },
            None => {
                return Err(LayouterError::from_description(
                    "The label does not fit into the layout space.".to_owned(),
                ));
            },
        };
        self.nodes.push(TreeNode { label, emphasized, parent, children: Vec::new() });
        if let Some(p) = parent {
            self.nodes[p].children.push(n);
        }
        self.total_extent = new_total;
        proof {
            lemma_total_extent_push(old(self)@, final(self)@[n as int]);
            assert(final(self)@ =~~= add_node_view(
                old(self)@,
                label@,
                emphasized,
                parent_view(parent),
            ));
            lemma_add_node_wf(old(self)@, label@, emphasized, parent_view(parent));
        }
        Ok(n)
    }

    /// The label of node `i`.
    pub fn label_at(&self, i: usize) -> (r: &String)
        requires
            i < self@.len(),
        ensures
            r@ == self@[i as int].label,
    {
        &self.nodes[i].label
    }

    /// The emphasis flag of node `i`.
    pub fn emphasized_at(&self, i: usize) -> (r: bool)
        requires
            i < self@.len(),
        ensures
            r == self@[i as int].emphasized,
    {
        self.nodes[i].emphasized
    }

    /// The parent of node `i`, `None` for the root.
    pub fn parent_of(&self, i: usize) -> (r: Option<usize>)
        requires
            i < self@.len(),
        ensures
            parent_view(r) == self@[i as int].parent,
    {
        self.nodes[i].parent
    }

    /// The children of node `i`, in declaration order.
    pub fn children_of(&self, i: usize) -> (r: &Vec<usize>)
        requires
            i < self@.len(),
        ensures
            r@.map_values(|c: usize| c as int) == self@[i as int].children,
    {
        &self.nodes[i].children
    }

    /// Reassigns the subtree rooted in node `n` to the node `new_parent`,
    /// appending `n` to the end of the children of `new_parent`.
    ///
    /// The move is refused when `n` is the root or does not exist, and when
    /// `new_parent` was not inserted before `n`: a destination with a larger
    /// index could place a node above its own ancestor, so only earlier
    /// inserted nodes are accepted.
    pub fn move_node(&mut self, n: usize, new_parent: usize) -> (r: crate::layouter_error::Result<()>)
        requires
            old(self).wf(),
        ensures
            final(self).wf(),
            r is Ok <==> can_move(old(self)@, n as int, new_parent as int),
            r is Ok ==> final(self)@ == move_node_view(old(self)@, n as int, new_parent as int),
            r is Err ==> final(self)@ == old(self)@,
    {
        if n == 0 || n >= self.nodes.len() {
            return Err(LayouterError::from_description(
                "Only an existing node other than the root can be moved.".to_owned(),
            ));
        }
        if new_parent >= n {
            return Err(LayouterError::from_description(
                "A node can only be moved to a node that was inserted before it.".to_owned(),
            ));
        }
        let p0 = match self.nodes[n].parent {
            Some(p) => p,
            None => {
                // Unreachable: every node other than the root has a parent.
                proof {
                    assert(self@[n as int].parent is Some);
                }
                return Err(LayouterError::from_description(
                    "Only an existing node other than the root can be moved.".to_owned(),
                ));
            },
        };
        proof {
            assert(self@[p0 as int].children.contains(n as int));
        }
        let cl = self.nodes[p0].children.len();
        let mut k: usize = 0;
        while self.nodes[p0].children[k] != n
            invariant
                old(self).wf(),
                *self == *old(self),
                1 <= n < self@.len(),
                p0 < self@.len(),
                p0 == self@[n as int].parent->Some_0,
                cl == self@[p0 as int].children.len(),
                0 <= k < cl,
                exists|j: int|
                    k <= j < self@[p0 as int].children.len() && self@[p0 as int].children[j]
                        == n as int,
            decreases self@[p0 as int].children.len() - k,
        {
            proof {
                assert(self@[p0 as int].children[k as int] != n as int);
            }
            k = k + 1;
        }
        proof {
            assert(self@[p0 as int].children[k as int] == n as int);
            let cs = self@[p0 as int].children;
            assert(cs[k as int] == n as int);
            assert(cs.index_of(n as int) == k as int) by {
                let j = cs.index_of(n as int);
                assert(cs.contains(n as int));
                assert(0 <= j < cs.len() && cs[j] == n as int);
            }
        }
        self.nodes[p0].children.remove(k);
        self.nodes[new_parent].children.push(n);
        self.nodes[n].parent = Some(new_parent);
        proof {
            assert(final(self)@ =~~= move_node_view(old(self)@, n as int, new_parent as int));
            lemma_move_node_wf(old(self)@, n as int, new_parent as int);
            lemma_total_extent_same_labels(
                old(self)@,
                move_node_view(old(self)@, n as int, new_parent as int),
            );
        }
        Ok(())
    }
}

/// Whether node `n` can be reassigned to node `np`: `n` exists and is not
/// the root, and `np` was inserted before `n`.
pub open spec fn can_move(t: Seq<NodeView>, n: int, np: int) -> bool {
    1 <= n < t.len() && 0 <= np < n
}

/// The model of the tree after a successful move of node `n` under `np`:
/// `n` leaves the children list of its old parent, is appended to the
/// children list of `np`, and records `np` as its parent.  Everything else
/// is unchanged.
pub open spec fn move_node_view(t: Seq<NodeView>, n: int, np: int) -> Seq<NodeView> {
    let p0 = t[n].parent->Some_0;
    let t1 = t.update(
        p0,
        NodeView { children: t[p0].children.remove(t[p0].children.index_of(n)), ..t[p0] },
    );
    let t2 = t1.update(np, NodeView { children: t1[np].children.push(n), ..t1[np] });
    t2.update(n, NodeView { parent: Some(np), ..t2[n] })
}

proof fn lemma_move_node_wf(t: Seq<NodeView>, n: int, np: int)
    requires
        wf_tree(t),
        can_move(t, n, np),
    ensures
        wf_tree(move_node_view(t, n, np)),
{
    let r = move_node_view(t, n, np);
    let p0 = t[n].parent->Some_0;
    let cs = t[p0].children;
    let kn = cs.index_of(n);
    assert(cs.contains(n));
    assert(0 <= kn < cs.len() && cs[kn] == n);
    cs.remove_ensures(kn);
    let rem = cs.remove(kn);
    // Values of the shortened list: every entry is an entry of the old list
    // at an index other than `kn`, so in particular none of them is `n`.
    assert forall|j: int| 0 <= j < rem.len() implies exists|j0: int|
        0 <= j0 < cs.len() && j0 != kn && #[trigger] rem[j] == cs[j0] && (forall|j2: int|
            0 <= j2 < rem.len() && j2 != j ==> rem[j2] != cs[j0]) by {
        let j0 = if j < kn {
            j
        } else {
            j + 1
        };
        assert(rem[j] == cs[j0]);
        assert forall|j2: int| 0 <= j2 < rem.len() && j2 != j implies rem[j2] != cs[j0] by {
            let j02 = if j2 < kn {
                j2
            } else {
                j2 + 1
            };
            assert(rem[j2] == cs[j02]);
        }
    }
    assert(r.len() == t.len());
    // Parent links.
    assert forall|i: int| 1 <= i < r.len() implies (#[trigger] r[i].parent) is Some && 0
        <= r[i].parent->Some_0 < i by {
        if i != n {
            assert(r[i].parent == t[i].parent);
        }
    }
    // Children bounds.
    assert forall|i: int, k: int| 0 <= i < r.len() && 0 <= k < r[i].children.len() implies i
        < #[trigger] r[i].children[k] < r.len() by {
        lemma_move_children_entry(t, n, np, i, k);
    }
    // Child to parent consistency.
    assert forall|i: int, k: int| 0 <= i < r.len() && 0 <= k < r[i].children.len() implies r[(
    #[trigger] r[i].children[k]) as int].parent == Some(i) by {
        lemma_move_children_entry(t, n, np, i, k);
        let c = r[i].children[k];
        if c == n {
            assert(i == np);
        } else {
            assert(r[c].parent == t[c].parent);
            assert(t[c].parent == Some(i));
        }
    }
    // Uniqueness within one children list.
    assert forall|i: int, k1: int, k2: int|
        0 <= i < r.len() && 0 <= k1 < r[i].children.len() && 0 <= k2 < r[i].children.len()
            && #[trigger] r[i].children[k1] == #[trigger] r[i].children[k2] implies k1 == k2 by {
        lemma_move_children_entry(t, n, np, i, k1);
        lemma_move_children_entry(t, n, np, i, k2);
        if k1 != k2 {
            let c = r[i].children[k1];
            if i == p0 && i == np {
                let pushed = rem.push(n);
                assert(r[i].children == pushed);
                if c == n {
                    assert(k1 == rem.len() && k2 == rem.len());
                } else {
                    let k01 = if k1 < kn { k1 } else { k1 + 1 };
                    let k02 = if k2 < kn { k2 } else { k2 + 1 };
                    assert(cs[k01] == c);
                    assert(cs[k02] == c);
                }
            } else if i == p0 {
                let k01 = if k1 < kn { k1 } else { k1 + 1 };
                let k02 = if k2 < kn { k2 } else { k2 + 1 };
                assert(rem[k1] == cs[k01]);
                assert(rem[k2] == cs[k02]);
            } else if i == np {
                if c == n {
                    assert(t[n].parent == Some(p0));
                    if k1 < t[np].children.len() {
                        assert(t[np].children[k1] == n);
                        assert(t[n].parent == Some(np));
                        assert(false);
                    }
                    if k2 < t[np].children.len() {
                        assert(t[np].children[k2] == n);
                        assert(t[n].parent == Some(np));
                        assert(false);
                    }
                }
            }
        }
    }
    // Every non-root node still occurs in the children list of its parent.
    assert forall|c: int| 1 <= c < r.len() implies r[(
    #[trigger] r[c].parent)->Some_0].children.contains(c) by {
        let q = r[c].parent->Some_0;
        if c == n {
            assert(q == np);
            let pc = r[np].children;
            assert(pc[pc.len() - 1] == n);
        } else {
            let q0 = t[c].parent->Some_0;
            assert(q == q0);
            assert(t[q0].children.contains(c));
            let k0 = choose|k0: int| 0 <= k0 < t[q0].children.len() && t[q0].children[k0] == c;
            if q0 == p0 {
                assert(cs[k0] == c && c != n);
                let kr = if k0 < kn {
                    k0
                } else {
                    k0 - 1
                };
                assert(k0 != kn);
                assert(rem[kr] == cs[k0]);
                if q0 == np {
                    assert(r[q0].children == rem.push(n));
                    assert(r[q0].children[kr] == c);
                } else {
                    assert(r[q0].children[kr] == c);
                }
            } else if q0 == np {
                assert(r[q0].children[k0] == c);
            } else {
                assert(r[q0].children[k0] == c);
            }
        }
    }
}

/// Where each entry of a children list of the moved tree comes from: either
/// it is the moved node `n`, newly appended to the list of `np`, or it is an
/// entry that the same node already had before the move.
proof fn lemma_move_children_entry(t: Seq<NodeView>, n: int, np: int, i: int, k: int)
    requires
        wf_tree(t),
        can_move(t, n, np),
        0 <= i < t.len(),
        0 <= k < move_node_view(t, n, np)[i].children.len(),
    ensures
        (i == np && k == move_node_view(t, n, np)[i].children.len() - 1 && move_node_view(
            t,
            n,
            np,
        )[i].children[k] == n) || (exists|k0: int|
            0 <= k0 < t[i].children.len() && #[trigger] t[i].children[k0] == move_node_view(
                t,
                n,
                np,
            )[i].children[k] && t[i].children[k0] != n),
{
    let r = move_node_view(t, n, np);
    let p0 = t[n].parent->Some_0;
    let cs = t[p0].children;
    let kn = cs.index_of(n);
    assert(cs.contains(n));
    cs.remove_ensures(kn);
    let rem = cs.remove(kn);
    if i == p0 && i == np {
        if k < rem.len() {
            let k0 = if k < kn {
                k
            } else {
                k + 1
            };
            assert(rem[k] == cs[k0]);
            assert(k0 != kn);
            assert(t[i].children[k0] == r[i].children[k]);
            assert(t[i].children[k0] != n) by {
                if cs[k0] == n {
                    assert(cs[kn] == n);
                }
            }
        }
    } else if i == p0 {
        let k0 = if k < kn {
            k
        } else {
            k + 1
        };
        assert(rem[k] == cs[k0]);
        assert(k0 != kn);
        assert(t[i].children[k0] != n) by {
            if cs[k0] == n {
                assert(cs[kn] == n);
            }
        }
    } else if i == np {
        if k < t[np].children.len() {
            assert(r[i].children[k] == t[i].children[k]);
            assert(t[i].children[k] != n) by {
                if t[np].children[k] == n {
                    assert(t[n].parent == Some(np));
                }
            }
        }
    } else {
        assert(r[i].children == t[i].children);
        assert(t[i].children[k] != n) by {
            if t[i].children[k] == n {
                assert(t[n].parent == Some(i));
            }
        }
    }
}

/// The model of an exec parent argument.
pub open spec fn parent_view(parent: Option<usize>) -> Option<int> {
    match parent {
        Some(p) => Some(p as int),
        None => None,
    }
}

/// Whether `parent` designates a valid insertion slot in `t`: an existing
/// node, or — for a root — the still empty tree.
pub open spec fn parent_slot_ok(t: Seq<NodeView>, parent: Option<int>) -> bool {
    match parent {
        None => t.len() == 0,
        Some(p) => 0 <= p < t.len(),
    }
}

/// Whether a new label still fits into the layout space: the total extent
/// of all nodes must remain representable in a machine word.
pub open spec fn extent_fits(t: Seq<NodeView>, label: Seq<char>) -> bool {
    total_extent_of(t) + label.len() + 1 <= usize::MAX
}

/// The model of the tree after a successful insertion: the new node is
/// appended at index `t.len()`, and — unless it is the root — also appended
/// to the children list of its parent.
pub open spec fn add_node_view(
    t: Seq<NodeView>,
    label: Seq<char>,
    emphasized: bool,
    parent: Option<int>,
) -> Seq<NodeView> {
    let node = NodeView { label, emphasized, parent, children: Seq::empty() };
    match parent {
        None => t.push(node),
        Some(p) => t.update(
            p,
            NodeView { children: t[p].children.push(t.len() as int), ..t[p] },
        ).push(node),
    }
}

proof fn lemma_total_extent_push(t: Seq<NodeView>, v: NodeView)
    ensures
        total_extent_of(t.push(v)) == total_extent_of(t) + node_extent(v),
{
    assert(t.push(v).drop_last() =~= t);
}

/// Appending the new node to the children list of `p` does not change any
/// node extent, so the total extent of the updated prefix equals the total
/// extent of the original prefix.
proof fn lemma_total_extent_same_labels(t1: Seq<NodeView>, t2: Seq<NodeView>)
    requires
        t1.len() == t2.len(),
        forall|i: int| 0 <= i < t1.len() ==> t1[i].label == #[trigger] t2[i].label,
    ensures
        total_extent_of(t1) == total_extent_of(t2),
    decreases t1.len(),
{
    if t1.len() > 0 {
        lemma_total_extent_same_labels(t1.drop_last(), t2.drop_last());
    }
}

proof fn lemma_add_node_wf(t: Seq<NodeView>, label: Seq<char>, emphasized: bool, parent: Option<
    int,
>)
    requires
        wf_tree(t),
        parent_slot_ok(t, parent),
    ensures
        wf_tree(add_node_view(t, label, emphasized, parent)),
        total_extent_of(add_node_view(t, label, emphasized, parent)) == total_extent_of(t)
            + label.len() + 1,
{
    let r = add_node_view(t, label, emphasized, parent);
    let n = t.len() as int;
    match parent {
        None => {
            lemma_total_extent_push(t, r[n]);
            assert forall|c: int| 1 <= c < r.len() implies r[(
                #[trigger] r[c].parent)->Some_0].children.contains(c) by {
                assert(r[c] == t[c]);
            }
        },
        Some(p) => {
            let up = t.update(p, NodeView { children: t[p].children.push(n), ..t[p] });
            lemma_total_extent_same_labels(t, up);
            lemma_total_extent_push(up, r[n]);
            assert forall|i: int, k: int|
                0 <= i < r.len() && 0 <= k < r[i].children.len() implies i
                < #[trigger] r[i].children[k] < r.len() by {
                if i == p && k == t[p].children.len() {
                } else {
                    assert(r[i].children[k] == t[i].children[k]);
                }
            }
            assert forall|i: int, k: int|
                0 <= i < r.len() && 0 <= k < r[i].children.len() implies r[(
                #[trigger] r[i].children[k]) as int].parent == Some(i) by {
                if i == p && k == t[p].children.len() {
                } else {
                    assert(r[i].children[k] == t[i].children[k]);
                    assert(t[i].children[k] < n);
                }
            }
            assert forall|i: int, k1: int, k2: int|
                0 <= i < r.len() && 0 <= k1 < r[i].children.len() && 0 <= k2
                < r[i].children.len() && #[trigger] r[i].children[k1] == #[trigger] r[i].children[k2]
                implies k1 == k2 by {
                if i == p {
                    let last = t[p].children.len() as int;
                    if k1 != k2 {
                        if k1 == last {
                            assert(r[i].children[k2] == t[i].children[k2]);
                            assert(t[i].children[k2] < n);
                        } else if k2 == last {
                            assert(r[i].children[k1] == t[i].children[k1]);
                            assert(t[i].children[k1] < n);
                        } else {
                            assert(r[i].children[k1] == t[i].children[k1]);
                            assert(r[i].children[k2] == t[i].children[k2]);
                        }
                    }
                }
            }
            assert forall|c: int| 1 <= c < r.len() implies r[(
                #[trigger] r[c].parent)->Some_0].children.contains(c) by {
                if c == n {
                    assert(r[p].children[t[p].children.len() as int] == n);
                } else {
                    let q = t[c].parent->Some_0;
                    assert(t[q].children.contains(c));
                    let k = choose|k: int| 0 <= k < t[q].children.len() && t[q].children[k] == c;
                    assert(r[q].children[k] == c);
                }
            }
        },
    }
}

} // verus!
