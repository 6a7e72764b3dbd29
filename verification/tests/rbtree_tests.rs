use rand::seq::SliceRandom;
use rand::thread_rng;
use rust_stuff::RBTree;

#[test]
fn test_get() {
    let mut tree = RBTree::new();

    for i in (1..1000).rev() {
        tree.insert(i, i);
    }

    for i in 1..1000 {
        assert_eq!(tree.get(i), Some(&i));
    }

    assert_eq!(tree.get(1000), None);
    assert_eq!(tree.min(), Some(&1));
    assert_eq!(tree.max(), Some(&999));
}

#[test]
fn test_remove_min() {
    let mut tree = RBTree::new();

    for i in (1..1000).rev() {
        tree.insert(i, i);
    }
    for i in 1..1000 {
        assert_eq!(tree.remove_min(), Some(i));
    }
}

#[test]
fn test_test_remove() {
    let mut tree = RBTree::new();

    for i in (1..1000).rev() {
        tree.insert(i, i);
    }
    for i in 1..1000 {
        assert_eq!(tree.remove(i), Some(i));
    }

    tree = RBTree::new();

    let mut rng = thread_rng();
    let mut shuffled = (1..1000).collect::<Vec<i64>>();
    shuffled.shuffle(&mut rng);
    for i in shuffled.into_iter() {
        tree.insert(i, i);
    }
    for i in 1..1000 {
        assert_eq!(tree.remove(i), Some(i));
    }
}

#[test]
fn rbtree_insert_existing_key_replaces_value() {
    let mut tree = RBTree::new();
    assert_eq!(tree.insert(7, 70), None);
    assert_eq!(tree.insert(7, 77), Some(70));
    assert_eq!(tree.get(7), Some(&77));
    assert_eq!(tree.remove(7), Some(77));
    assert_eq!(tree.get(7), None);
}
