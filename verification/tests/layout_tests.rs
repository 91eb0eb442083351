use id_tree_layout::Embedder;
use id_tree_layout::LayoutTree;
use id_tree_layout::LayouterError;
use id_tree_layout::PlacedTreeItem;

fn scenario_tree() -> LayoutTree {
    //      0
    //     / \
    //    1   2
    //   / \
    //  3   4
    let mut tree = LayoutTree::new();
    let root = tree.add_node("0".to_string(), false, None).unwrap();
    let n1 = tree.add_node("1".to_string(), false, Some(root)).unwrap();
    tree.add_node("2".to_string(), false, Some(root)).unwrap();
    tree.add_node("3".to_string(), false, Some(n1)).unwrap();
    tree.add_node("4".to_string(), false, Some(n1)).unwrap();
    tree
}

fn find<'a>(embedding: &'a [PlacedTreeItem], text: &str) -> &'a PlacedTreeItem {
    embedding.iter().find(|e| e.text == text).unwrap()
}

#[test]
fn ords_are_post_order() {
    let tree = scenario_tree();
    let embedding = Embedder::embed(&tree);

    // A post-order traversal visits 3, 4, 1, 2, 0; the items are stored
    // in that order and each item's ord is its position.
    let texts: Vec<&str> = embedding.iter().map(|e| e.text.as_str()).collect();
    assert_eq!(texts, vec!["3", "4", "1", "2", "0"]);
    for (k, e) in embedding.iter().enumerate() {
        assert_eq!(e.ord, k);
    }
    // Parent references carry the parent's ord.
    assert_eq!(find(&embedding, "3").parent, Some(2));
    assert_eq!(find(&embedding, "4").parent, Some(2));
    assert_eq!(find(&embedding, "1").parent, Some(4));
    assert_eq!(find(&embedding, "2").parent, Some(4));
    assert_eq!(find(&embedding, "0").parent, None);
}

#[test]
fn levels_step_by_one() {
    let tree = scenario_tree();
    let embedding = Embedder::embed(&tree);
    for e in embedding.iter() {
        match e.parent {
            None => assert_eq!(e.y_order, 0),
            Some(p) => {
                let parent = embedding.iter().find(|x| x.ord == p).unwrap();
                assert_eq!(e.y_order, parent.y_order + 1);
            }
        }
    }
}

#[test]
fn extent_is_label_length_plus_padding() {
    let mut tree = LayoutTree::new();
    let root = tree.add_node("abc".to_string(), false, None).unwrap();
    tree.add_node(String::new(), false, Some(root)).unwrap();
    let embedding = Embedder::embed(&tree);
    let root_item = find(&embedding, "abc");
    assert_eq!(root_item.x_extent, 4);
    // A label of zero length still reserves one unit of extent.
    let leaf = find(&embedding, "");
    assert_eq!(leaf.x_extent, 1);
    assert_eq!(leaf.x_extent_children, 1);
    for e in embedding.iter() {
        assert!(e.x_extent_children >= e.x_extent);
    }
}

#[test]
fn subtree_extent_is_max_of_own_and_child_sum() {
    let tree = scenario_tree();
    let embedding = Embedder::embed(&tree);
    // The root's own extent is 2; its children reserve 4 + 2 units.
    assert_eq!(find(&embedding, "0").x_extent_children, 6);
    // Node 1's own extent is 2; its children reserve 2 + 2 units.
    assert_eq!(find(&embedding, "1").x_extent_children, 4);
    // A wide label dominates the sum of its children's footprints.
    let mut wide = LayoutTree::new();
    let root = wide
        .add_node("a-very-wide-root".to_string(), false, None)
        .unwrap();
    wide.add_node("1".to_string(), false, Some(root)).unwrap();
    wide.add_node("2".to_string(), false, Some(root)).unwrap();
    let embedding = Embedder::embed(&wide);
    let root_item = find(&embedding, "a-very-wide-root");
    assert_eq!(root_item.x_extent, 17);
    assert_eq!(root_item.x_extent_children, 17);
    // The children stay centered below the parent: the block of their
    // summed footprints starts half that sum left of the parent's center.
    assert_eq!(root_item.x_center, 8);
    assert_eq!(find(&embedding, "1").x_center, 7);
    assert_eq!(find(&embedding, "2").x_center, 9);
}

#[test]
fn sibling_footprints_are_contiguous() {
    let tree = scenario_tree();
    let embedding = Embedder::embed(&tree);
    let n1 = find(&embedding, "1");
    let n2 = find(&embedding, "2");
    // Node 2's footprint starts exactly where node 1's footprint ends.
    assert_eq!(
        n2.x_center - n2.x_extent_children / 2,
        (n1.x_center - n1.x_extent_children / 2) + n1.x_extent_children
    );
    let n3 = find(&embedding, "3");
    let n4 = find(&embedding, "4");
    assert_eq!(
        n4.x_center - n4.x_extent_children / 2,
        (n3.x_center - n3.x_extent_children / 2) + n3.x_extent_children
    );
    // With even extents this is the textbook no-overlap equation.
    assert_eq!(n4.x_center - n4.x_extent_children / 2, n3.x_center + n3.x_extent_children / 2);
}

#[test]
fn add_node_rejects_bad_parents() {
    let mut tree = LayoutTree::new();
    // A child cannot be inserted into an empty tree.
    assert!(tree.add_node("x".to_string(), false, Some(0)).is_err());
    let root = tree.add_node("r".to_string(), false, None).unwrap();
    assert_eq!(root, 0);
    // A second root is refused.
    assert!(tree.add_node("r2".to_string(), false, None).is_err());
    // A nonexistent parent is refused.
    assert!(tree.add_node("x".to_string(), false, Some(7)).is_err());
    // The failed insertions left the tree unchanged.
    assert_eq!(tree.node_count(), 1);
}

#[test]
fn move_node_rejects_bad_moves() {
    let mut tree = LayoutTree::new();
    let root = tree.add_node("r".to_string(), false, None).unwrap();
    let a = tree.add_node("a".to_string(), false, Some(root)).unwrap();
    let b = tree.add_node("b".to_string(), false, Some(a)).unwrap();
    // The root cannot be moved.
    assert!(tree.move_node(root, a).is_err());
    // A nonexistent node cannot be moved.
    assert!(tree.move_node(9, root).is_err());
    // The destination must have been inserted before the moved node.
    assert!(tree.move_node(a, b).is_err());
    // A valid move succeeds.
    assert!(tree.move_node(b, root).is_ok());
    let embedding = Embedder::embed(&tree);
    let b_item = embedding.iter().find(|e| e.text == "b").unwrap();
    assert_eq!(b_item.y_order, 1);
}

#[test]
fn move_keeps_unrelated_branches() {
    // root with a wide branch `a(w)` and narrow branches b, c.
    let mut tree = LayoutTree::new();
    let root = tree.add_node("r".to_string(), false, None).unwrap();
    let a = tree.add_node("a".to_string(), false, Some(root)).unwrap();
    let b = tree.add_node("b".to_string(), false, Some(root)).unwrap();
    tree.add_node("wide-node".to_string(), false, Some(a)).unwrap();
    let before = Embedder::embed(&tree);
    tree.move_node(3, b).unwrap();
    let after = Embedder::embed(&tree);
    // Extents of the labels and the level of every node outside the moved
    // subtree are unchanged.
    for text in ["r", "a", "b", "wide-node"] {
        let e1 = before.iter().find(|e| e.text == text).unwrap();
        let e2 = after.iter().find(|e| e.text == text).unwrap();
        assert_eq!(e1.x_extent, e2.x_extent);
        if text != "wide-node" {
            assert_eq!(e1.y_order, e2.y_order);
        }
    }
    // The subtree extent of the branch that neither lost nor gained the
    // node is unchanged — here that is no branch, but the root keeps its
    // overall footprint because only the widest child changed place.
    let r1 = before.iter().find(|e| e.text == "r").unwrap();
    let r2 = after.iter().find(|e| e.text == "r").unwrap();
    assert_eq!(r1.x_extent_children, r2.x_extent_children);
}

#[test]
fn error_constructors() {
    let e = LayouterError::from_description("something failed".to_string());
    assert_eq!(e.message(), "something failed");
    assert_eq!(e.description, "something failed");
    assert!(e.io_error.is_none());

    let io = std::io::Error::new(std::io::ErrorKind::Other, "disk gone");
    let e = LayouterError::from_io_error(io);
    assert_eq!(e.description, "IoError");
    assert!(e.io_error.is_some());
}

#[test]
fn tree_getters() {
    let mut tree = LayoutTree::new();
    assert_eq!(tree.node_count(), 0);
    let root = tree.add_node("r".to_string(), true, None).unwrap();
    let a = tree.add_node("a".to_string(), false, Some(root)).unwrap();
    assert_eq!(tree.node_count(), 2);
    assert_eq!(tree.label_at(root).as_str(), "r");
    assert!(tree.emphasized_at(root));
    assert!(!tree.emphasized_at(a));
    assert_eq!(tree.parent_of(root), None);
    assert_eq!(tree.parent_of(a), Some(root));
    assert_eq!(tree.children_of(root), &vec![a]);
}
