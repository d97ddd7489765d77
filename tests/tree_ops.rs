use fibonacci_heap::tree::Tree;

#[test]
fn test_1_2() {
    let mut tree = Tree::new();
    let _ = tree.insert(1);
    {
        let root_node = tree.root();

        assert!(root_node.is_some());
        assert_eq!(root_node.unwrap().value(), 1);
    }

    let _ = tree.insert(2);
    {
        let first_child = tree.root().unwrap().right();

        assert!(first_child.is_some());
        assert_eq!(first_child.unwrap().value(), 2);
    }

    for value in 1..=2i64 {
        let found = &tree.find(value);
        assert!(found.as_ref().is_ok());
        assert!(found.as_ref().unwrap().is_some());
        assert_eq!(found.as_ref().unwrap().unwrap(), value);
    }
}

#[test]
fn test_2_3_1() {
    let mut tree = Tree::new();
    let _ = tree.insert(2);
    let _ = tree.insert(3);
    let _ = tree.insert(1);

    {
        let left_node = tree.root().unwrap().left().unwrap();
        assert_eq!(left_node.value(), 1);
    }

    for value in 1..=3i64 {
        let found = &tree.find(value);
        assert!(found.as_ref().is_ok());
        assert!(found.as_ref().unwrap().is_some());
        assert_eq!(found.as_ref().unwrap().unwrap(), value);
    }
}

#[test]
fn test_remove() {
    let mut tree = Tree::new();
    let _ = tree.insert(1);
    let _ = tree.insert(2);
    let _ = tree.insert(3);

    for value in 1..=3i64 {
        let found = &tree.find(value);
        assert!(found.as_ref().is_ok());
        assert!(found.as_ref().unwrap().is_some());
        assert_eq!(found.as_ref().unwrap().unwrap(), value);
    }
}

#[test]
fn tree_find_missing_value() {
    let mut tree = Tree::new();
    assert_eq!(tree.find(4), Ok(None));
    let _ = tree.insert(4);
    assert_eq!(tree.find(5), Ok(None));
    assert_eq!(tree.find(4), Ok(Some(4)));
}

#[test]
fn tree_remove_inner_node_keeps_others() {
    let mut tree = Tree::new();
    for v in [50i64, 30, 70, 20, 40, 60, 80, 35, 45] {
        let _ = tree.insert(v);
    }
    assert_eq!(tree.remove(30), Ok(Some(30)));
    assert_eq!(tree.find(30), Ok(None));
    for v in [50i64, 70, 20, 40, 60, 80, 35, 45] {
        assert_eq!(tree.find(v), Ok(Some(v)));
    }
    assert_eq!(tree.remove(50), Ok(Some(50)));
    assert_eq!(tree.find(50), Ok(None));
    assert_eq!(tree.root().unwrap().value(), 45);
    assert_eq!(tree.remove(99), Ok(None));
}

#[test]
fn tree_duplicates_are_removed_one_at_a_time() {
    let mut tree = Tree::new();
    let _ = tree.insert(7);
    let _ = tree.insert(7);
    assert_eq!(tree.root().unwrap().left().unwrap().value(), 7);
    assert_eq!(tree.remove(7), Ok(Some(7)));
    assert_eq!(tree.find(7), Ok(Some(7)));
    assert_eq!(tree.remove(7), Ok(Some(7)));
    assert_eq!(tree.find(7), Ok(None));
    assert!(tree.root().is_none());
}
