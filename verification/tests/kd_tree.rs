use kdtree::kd_tree::{KdTree, DEFAULT_CAPACITY};

#[test]
fn default() {
    let tree: KdTree<u64> = Default::default();
    assert_eq!(tree.capacity(), DEFAULT_CAPACITY);
}

#[test]
fn new() {
    let tree: KdTree<u64> = KdTree::new();
    assert_eq!(tree.capacity(), DEFAULT_CAPACITY);
}

#[test]
fn with_custom_capacity() {
    let capacity = 712;
    let tree: KdTree<u64> = KdTree::with_capacity(capacity);
    assert_eq!(tree.capacity(), capacity);
}
