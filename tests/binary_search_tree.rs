use data_structures::binary_search_tree::{BinarySearchTree, Node, PreOrderTreeTraversal};

fn tree_of(values: &[i32]) -> BinarySearchTree<i32> {
    let mut tree = BinarySearchTree::new();
    for v in values {
        tree.add(*v);
    }
    tree
}

#[test]
fn bst_empty_tree() {
    let tree: BinarySearchTree<i32> = BinarySearchTree::new();
    assert!(tree.is_empty());
    assert_eq!(tree.size(), 0);
    assert_eq!(tree.height(), 0);
    assert!(!tree.contains(&1));
}

#[test]
fn bst_add_rejects_duplicates() {
    let mut tree = BinarySearchTree::new();
    assert!(tree.add(5));
    assert!(tree.add(3));
    assert!(!tree.add(5));
    assert_eq!(tree.size(), 2);
    assert!(tree.contains(&5));
    assert!(tree.contains(&3));
    assert!(!tree.contains(&4));
}

#[test]
fn bst_height_follows_shape() {
    assert_eq!(tree_of(&[5, 3, 8]).height(), 2);
    assert_eq!(tree_of(&[1, 2, 3, 4]).height(), 4);
    assert_eq!(tree_of(&[4, 2, 6, 1, 3, 5, 7]).height(), 3);
}

#[test]
fn bst_remove_leaf_inner_and_root() {
    let mut tree = tree_of(&[50, 30, 70, 20, 40, 60, 80, 65]);
    assert!(tree.remove(20));
    assert!(!tree.contains(&20));
    assert!(tree.remove(70));
    assert!(!tree.contains(&70));
    assert!(tree.contains(&65) && tree.contains(&60) && tree.contains(&80));
    assert!(tree.remove(50));
    assert!(!tree.contains(&50));
    assert_eq!(tree.size(), 5);
    for v in [30, 40, 60, 65, 80] {
        assert!(tree.contains(&v));
    }
    assert!(!tree.remove(50));
    assert_eq!(tree.size(), 5);
}

#[test]
fn bst_remove_everything() {
    let values = [8, 4, 12, 2, 6, 10, 14, 1, 3];
    let mut tree = tree_of(&values);
    for v in values {
        assert!(tree.remove(v));
    }
    assert!(tree.is_empty());
    assert_eq!(tree.height(), 0);
}

#[test]
fn bst_find_min_and_max() {
    let leaf_a = Node::new(None, None, 2);
    let leaf_b = Node::new(None, None, 9);
    let root = Node::new(Some(leaf_a), Some(leaf_b), 5);
    assert_eq!(BinarySearchTree::find_min(Some(&*root)).map(|n| n.data), Some(2));
    assert_eq!(BinarySearchTree::find_max(Some(&*root)).map(|n| n.data), Some(9));
    assert!(BinarySearchTree::<i32>::find_min(None).is_none());
    assert!(BinarySearchTree::contains_node(&9, Some(&*root)));
    assert!(!BinarySearchTree::contains_node(&4, Some(&*root)));
    assert_eq!(BinarySearchTree::height_node(Some(&*root)), 2);
}

#[test]
fn bst_preorder_traversal() {
    let tree = tree_of(&[5, 3, 8, 1, 4, 9]);
    let mut walk = PreOrderTreeTraversal::new(&tree);
    let mut out = Vec::new();
    while let Some(v) = walk.next() {
        out.push(v);
    }
    assert_eq!(out, vec![5, 3, 1, 4, 8, 9]);
    assert_eq!(walk.next(), None);
}

#[test]
fn bst_preorder_single_node() {
    let tree = tree_of(&[7]);
    let mut walk = PreOrderTreeTraversal::new(&tree);
    assert_eq!(walk.next(), Some(7));
    assert_eq!(walk.next(), None);
}

#[test]
fn bst_find_min_is_leftmost_node() {
    let tree_left = Node::new(None, Some(Node::new(None, None, 3)), 2);
    let root = Node::new(Some(tree_left), None, 5);
    let min = BinarySearchTree::find_min(Some(&*root)).unwrap();
    assert_eq!(min.data, 2);
    assert!(min.left.is_none());
    let max = BinarySearchTree::find_max(Some(&*root)).unwrap();
    assert_eq!(max.data, 5);
    assert!(max.right.is_none());
}

#[test]
fn bst_sizes_follow_add_and_remove() {
    let mut tree = tree_of(&[2, 1, 3]);
    assert_eq!(tree.size(), 3);
    assert!(!tree.add(2));
    assert_eq!(tree.size(), 3);
    assert!(tree.remove(1));
    assert_eq!(tree.size(), 2);
    assert!(!tree.remove(1));
    assert_eq!(tree.size(), 2);
}
