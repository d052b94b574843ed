use lutree::{LuTree, TreeError};

#[test]
fn create_lu_trees() {
    let mut i32_tree = LuTree::new();
    let _ = i32_tree.add_node(None, 34);
    let _ = i32_tree.add_node(Some(0), 12);
    let _ = i32_tree.add_node(Some(1), 55);
}

#[test]
fn work_with_lu_tree() {
    // Build tree
    let mut tree = LuTree::new();
    let _ = tree.add_node(None, "0_0");
    let _ = tree.add_node(Some(0), "1_0");
    let _ = tree.add_node(Some(0), "1_1");
    let _ = tree.add_node(Some(1), "2_0");

    // Get node as parent of other node
    assert_eq!(tree.get(tree.parent(3).unwrap()).unwrap(), "1_0");

    // Get children of node
    let l1_children = tree.children(0).unwrap();
    for child in l1_children {
        assert!(child == 1 || child == 2, "Unexpected child!");
    }

    // Get data of node, update and check again
    assert_eq!(tree.get(3).unwrap(), "2_0");
    let new_data = "NewData";
    let _ = tree.set(3, new_data.clone());
    assert_eq!(tree.get(3).unwrap(), new_data);
}

#[test]
fn add_node_returns_dense_handles() {
    let mut tree = LuTree::new();
    assert_eq!(tree.add_node(None, 'a'), Ok(0));
    assert_eq!(tree.add_node(Some(0), 'b'), Ok(1));
    assert_eq!(tree.add_node(Some(0), 'c'), Ok(2));
    assert_eq!(tree.add_node(Some(2), 'd'), Ok(3));
    assert_eq!(tree.children(0), Ok(vec![1, 2]));
    assert_eq!(tree.children(2), Ok(vec![3]));
    assert_eq!(tree.children(3), Ok(vec![]));
}

#[test]
fn add_node_rejects_unallocated_parent() {
    let mut tree: LuTree<u8> = LuTree::new();
    assert_eq!(tree.add_node(Some(0), 1), Err(TreeError::OutOfBounds));
    assert_eq!(tree.add_node(None, 1), Ok(0));
    assert_eq!(tree.add_node(Some(1), 2), Err(TreeError::OutOfBounds));
    assert_eq!(tree.children(0), Ok(vec![]));
    assert_eq!(tree.get(1), Err(TreeError::OutOfBounds));
}

#[test]
fn lu_tree_accessors_are_bounds_checked() {
    let mut tree = LuTree::new();
    let _ = tree.add_node(None, 7u32);
    assert_eq!(tree.parent(0), Err(TreeError::NoParent));
    assert_eq!(tree.parent(1), Err(TreeError::OutOfBounds));
    assert_eq!(tree.children(1), Err(TreeError::OutOfBounds));
    assert_eq!(tree.set(1, 9), Err(TreeError::OutOfBounds));
    assert_eq!(tree.set(0, 9), Ok(()));
    assert_eq!(tree.get(0), Ok(9));
    assert_eq!(TreeError::OutOfBounds.message(), "Access out of bounds!");
    assert_eq!(TreeError::NoParent.message(), "Node has no parent");
}
