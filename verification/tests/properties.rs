use betree::{BeTree, MAX_VALUES_PER_LEAF};

// While everything fits one leaf block, the tree is an exact map: every
// inserted key answers with the last value inserted for it.
#[test]
fn round_trip_within_one_leaf() {
    let mut b = BeTree::new();
    b.insert(3, 'c');
    b.insert(1, 'a');
    b.insert(2, 'b');
    b.insert(1, 'z');
    assert_eq!(Some(&'z'), b.get(1));
    assert_eq!(Some(&'b'), b.get(2));
    assert_eq!(Some(&'c'), b.get(3));
    assert_eq!(None, b.get(0));
    assert_eq!(None, b.get(4));
}

#[test]
fn round_trip_descending_keys() {
    let mut b = BeTree::new();
    for i in 0..MAX_VALUES_PER_LEAF {
        b.insert(-(i as i64), i);
    }
    for i in 0..MAX_VALUES_PER_LEAF {
        assert_eq!(Some(&i), b.get(-(i as i64)));
    }
}

// An inserted key is retrievable immediately after its insertion, however
// deep the tree has grown.
#[test]
fn inserted_key_always_found() {
    let mut b = BeTree::new();
    for i in 0..12i64 {
        b.insert(i, i * 10);
        assert_eq!(Some(&(i * 10)), b.get(i));
    }
}

// The branch-growth path: the insertion that overflows a leaf ends up in the
// new rightmost subtree and stays retrievable, as do the keys that remain
// reachable through the routing rule (here the two half-leaf minimums).
#[test]
fn split_keeps_routable_keys() {
    let mut b = BeTree::new();
    for i in 0..(MAX_VALUES_PER_LEAF as i64 + 1) {
        b.insert(i, i);
    }
    assert_eq!(Some(&0), b.get(0));
    assert_eq!(Some(&2), b.get(2));
    assert_eq!(Some(&4), b.get(4));
}

// Replacing an existing key's value, even after a split, leaves every other
// key exactly as it was.
#[test]
fn replace_after_split_keeps_others() {
    let mut b = BeTree::new();
    for i in 0..(MAX_VALUES_PER_LEAF as i64 + 1) {
        b.insert(i, i);
    }
    b.insert(2, 200);
    assert_eq!(Some(&200), b.get(2));
    assert_eq!(Some(&0), b.get(0));
    assert_eq!(Some(&4), b.get(4));
}

// Deleting an absent key is a no-op on any shape of tree.
#[test]
fn delete_absent_after_split() {
    let mut b = BeTree::new();
    for i in 0..(MAX_VALUES_PER_LEAF as i64 + 1) {
        b.insert(i, i);
    }
    b.delete(100);
    b.delete(-7);
    assert_eq!(Some(&0), b.get(0));
    assert_eq!(Some(&2), b.get(2));
    assert_eq!(Some(&4), b.get(4));
}

// A deleted key is never found afterwards, on any shape of tree.
#[test]
fn delete_after_split_removes_key() {
    let mut b = BeTree::new();
    for i in 0..(MAX_VALUES_PER_LEAF as i64 + 1) {
        b.insert(i, i);
    }
    b.delete(2);
    assert_eq!(None, b.get(2));
    b.delete(0);
    assert_eq!(None, b.get(0));
    assert_eq!(Some(&4), b.get(4));
}

// Clearing empties the map whatever was inserted before, and the map is
// usable again afterwards.
#[test]
fn clear_after_split_empties_everything() {
    let mut b = BeTree::new();
    for i in 0..10i64 {
        b.insert(i, i);
    }
    b.clear();
    for i in -2..12i64 {
        assert_eq!(None, b.get(i));
    }
    b.insert(7, 70);
    assert_eq!(Some(&70), b.get(7));
}

// Deleting down to an empty leaf and below is harmless.
#[test]
fn delete_everything_one_leaf() {
    let mut b = BeTree::new();
    b.insert(1, 'a');
    b.insert(2, 'b');
    b.delete(1);
    b.delete(2);
    b.delete(2);
    assert_eq!(None, b.get(1));
    assert_eq!(None, b.get(2));
    b.insert(2, 'c');
    assert_eq!(Some(&'c'), b.get(2));
}

// Deletion can leave a zero-length leaf under a pivot; the pivot stays, its
// boundary keeps its last value, and the emptied subtree is reusable.
#[test]
fn reinsert_after_emptying_subtree() {
    let mut b = BeTree::new();
    for i in 0..(MAX_VALUES_PER_LEAF as i64 + 1) {
        b.insert(i, i);
    }
    // the rightmost subtree holds only the key that grew it
    b.delete(4);
    assert_eq!(None, b.get(4));
    b.insert(4, 400);
    assert_eq!(Some(&400), b.get(4));
    assert_eq!(Some(&0), b.get(0));
}

// Extreme keys behave like any other while the tree is flat.
#[test]
fn extreme_keys() {
    let mut b = BeTree::new();
    b.insert(i64::MIN, 'l');
    b.insert(i64::MAX, 'h');
    b.insert(0, 'm');
    assert_eq!(Some(&'l'), b.get(i64::MIN));
    assert_eq!(Some(&'h'), b.get(i64::MAX));
    assert_eq!(Some(&'m'), b.get(0));
    b.delete(i64::MIN);
    assert_eq!(None, b.get(i64::MIN));
    assert_eq!(Some(&'h'), b.get(i64::MAX));
}

// Exactly as many keys answer as were inserted (distinct) and not deleted,
// while everything fits one leaf block.
#[test]
fn distinct_keys_counted_once() {
    let mut b = BeTree::new();
    b.insert(5, 'a');
    b.insert(6, 'b');
    b.insert(5, 'c');
    b.delete(6);
    let live: Vec<i64> = (0..10).filter(|&k| b.get(k).is_some()).collect();
    assert_eq!(vec![5], live);
}
