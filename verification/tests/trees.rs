use enceladus::arraytree::ArrayTree;

#[test]
fn new_trees_have_no_vertex_and_are_equal() {
    let tree: ArrayTree<u64, u64> = ArrayTree::new();
    let other: ArrayTree<u64, u64> = ArrayTree::new();
    assert_eq!(tree.root_label(), None);
    assert_eq!(tree, other);
    assert_eq!(tree.clone(), other);
}
