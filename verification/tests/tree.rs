use bst::{NotFound, Tree};

#[test]
fn test_insert() {
    let mut tree = Tree::new();
    assert!(!tree.find(20));

    tree.insert(10);
    tree.insert(20);
    tree.insert(99);
    tree.insert(15);
    tree.insert(0);

    assert!(tree.find(20));
}

#[test]
fn test_max() {
    let mut tree = Tree::new();

    tree.insert(10);
    tree.insert(20);
    tree.insert(99);
    tree.insert(15);
    tree.insert(0);

    assert_eq!(tree.max().unwrap(), 99);
}

#[test]
fn test_min() {
    let mut tree = Tree::new();

    tree.insert(50);
    tree.insert(20);
    tree.insert(30);
    tree.insert(-1);

    assert_eq!(tree.min().unwrap(), -1);
}

#[test]
fn test_delete() {
    let mut tree = Tree::new();
    assert!(!tree.find(20));

    tree.insert(10);
    tree.insert(20);
    tree.insert(99);
    tree.insert(15);
    tree.insert(0);

    assert!(tree.find(20));

    tree.delete(20);
    assert!(!tree.find(20));
    assert!(tree.find(99));
    assert!(tree.find(15));

    tree.delete(99);
    assert!(!tree.find(99));
    assert!(tree.find(15));

    tree.delete(15);
    assert!(!tree.find(15));
    assert!(tree.find(10));
}

#[test]
fn find_max_min_after_inserts() {
    let mut tree = Tree::new();

    tree.insert(10);
    tree.insert(20);
    tree.insert(99);
    tree.insert(15);
    tree.insert(0);

    assert!(tree.find(20));
    assert_eq!(tree.max(), Ok(99));
    assert_eq!(tree.min(), Ok(0));
}

#[test]
fn empty_tree_reports_nothing() {
    let mut tree = Tree::new();

    assert!(!tree.find(20));
    assert_eq!(tree.max(), Err(NotFound));
    assert_eq!(tree.min(), Err(NotFound));
}

#[test]
fn duplicate_deleted_once_stays_found() {
    let mut tree = Tree::new();

    tree.insert(5);
    tree.insert(5);

    tree.delete(5);
    assert!(tree.find(5));

    tree.delete(5);
    assert!(!tree.find(5));
}

#[test]
fn delete_absent_value_changes_nothing() {
    let mut tree = Tree::new();

    tree.insert(10);
    tree.insert(20);
    tree.insert(99);

    tree.delete(7);
    assert!(tree.find(10));
    assert!(tree.find(20));
    assert!(tree.find(99));
    assert!(!tree.find(7));
    assert_eq!(tree.max(), Ok(99));
    assert_eq!(tree.min(), Ok(10));
}

#[test]
fn delete_root_with_two_children_uses_successor() {
    let mut tree = Tree::new();

    tree.insert(50);
    tree.insert(20);
    tree.insert(80);
    tree.insert(60);
    tree.insert(90);

    tree.delete(50);
    assert!(!tree.find(50));
    assert!(tree.find(20));
    assert!(tree.find(60));
    assert!(tree.find(80));
    assert!(tree.find(90));
    assert_eq!(tree.min(), Ok(20));
    assert_eq!(tree.max(), Ok(90));
}

#[test]
fn duplicates_at_the_extremes() {
    let mut tree = Tree::new();

    tree.insert(7);
    tree.insert(7);
    tree.insert(3);
    tree.insert(9);
    tree.insert(9);

    assert_eq!(tree.min(), Ok(3));
    assert_eq!(tree.max(), Ok(9));

    tree.delete(9);
    assert_eq!(tree.max(), Ok(9));
    tree.delete(9);
    assert_eq!(tree.max(), Ok(7));
}

#[test]
fn skewed_chains_build_and_drop() {
    let mut ascending = Tree::new();
    for v in 0..200 {
        ascending.insert(v);
    }
    assert_eq!(ascending.min(), Ok(0));
    assert_eq!(ascending.max(), Ok(199));
    assert!(ascending.find(199));
    assert!(!ascending.find(200));

    let mut descending = Tree::new();
    for v in 0..200 {
        descending.insert(-v);
    }
    assert_eq!(descending.min(), Ok(-199));
    assert_eq!(descending.max(), Ok(0));

    for v in 0..200 {
        descending.delete(-v);
    }
    assert!(!descending.find(0));
    assert_eq!(descending.max(), Err(NotFound));
}
