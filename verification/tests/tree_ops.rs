use betree::{BeTree, MAX_VALUES_PER_LEAF};

#[test]
fn can_construct() {
    BeTree::<char>::new();
}

#[test]
fn can_insert_single() {
    let mut b = BeTree::new();
    b.insert(0, 'x');
    let result = b.get(0);
    assert_eq!(Some(&'x'), result);
}

#[test]
fn can_insert_two() {
    let mut b = BeTree::new();
    b.insert(0, 'x');
    b.insert(-1, 'y');
    assert_eq!(Some(&'x'), b.get(0));
    assert_eq!(Some(&'y'), b.get(-1));
}

#[test]
fn can_split() {
    let mut b = BeTree::new();
    // insert max_values_per_leaf items
    for i in 0..MAX_VALUES_PER_LEAF {
        b.insert(i as i64, i);
    }
    // are they all there?
    for i in 0..MAX_VALUES_PER_LEAF {
        assert_eq!(Some(&i), b.get(i as i64));
    }
}

#[test]
fn can_clear() {
    let mut b = BeTree::new();
    b.insert(0, 'x');
    b.insert(-1, 'y');
    b.clear();
    assert_eq!(None, b.get(0));
}

#[test]
fn insert_replaces_existing() {
    let mut b = BeTree::new();
    b.insert(0, 'x');
    b.insert(0, 'y');
    assert_eq!(Some(&'y'), b.get(0));
}

#[test]
fn can_delete_existing() {
    let mut b = BeTree::new();
    b.insert(0, 'x');
    b.delete(0);
    assert_eq!(b.get(0), None)
}

#[test]
fn can_delete_only_existing() {
    let mut b = BeTree::new();
    b.insert(0, 'x');
    b.insert(2, 'y');
    b.delete(0);
    assert_eq!(b.get(0), None);
    assert_eq!(Some(&'y'), b.get(2));
}

#[test]
fn can_delete_nothing() {
    let mut b = BeTree::<char>::new();
    b.delete(0);
}
