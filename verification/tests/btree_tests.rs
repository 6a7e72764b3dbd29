use rust_stuff::BTree;

#[test]
fn into_iter_test() {
    let mut r: BTree<i64> = BTree::new();
    for n in 1..1000 {
        r.insert(n, 2 * n);
    }

    let mut r = r.into_iter();
    for n in 1..1000 {
        let (k, v) = r.next().unwrap();
        assert_eq!(k, n);
        assert_eq!(v, 2 * n);
    }

    let mut r: BTree<i64> = BTree::new();
    for n in (1..1000).rev() {
        r.insert(n, 2 * n);
    }

    let mut r = r.into_iter();
    for n in 1..1000 {
        let (k, v) = r.next().unwrap();
        assert_eq!(k, n);
        assert_eq!(v, 2 * n);
    }
}

#[test]
fn iter_test() {
    let mut r: BTree<i64> = BTree::new();
    for n in 1..1000 {
        r.insert(n, 2 * n);
    }

    let mut r = r.iter();
    for n in 1..10 {
        let (k, v) = r.next().unwrap();
        assert_eq!(k, n);
        assert_eq!(*v, 2 * n);
    }

    let mut r: BTree<i64> = BTree::new();
    for n in (1..1000).rev() {
        r.insert(n, 2 * n);
    }

    let mut r = r.iter();
    for n in 1..10 {
        let (k, v) = r.next().unwrap();
        assert_eq!(k, n);
        assert_eq!(*v, 2 * n);
    }
}

#[test]
fn get_test() {
    let mut r: BTree<i64> = BTree::new();
    for n in 1..1000 {
        r.insert(n, 2 * n);
    }

    for n in 1..1000 {
        match r.get(n) {
            Some(i) => assert_eq!(*i, n * 2),
            _ => panic!(),
        }
    }

    assert_eq!(r.get(0), None);

    let mut r: BTree<i64> = BTree::new();
    for n in (1..1000).rev() {
        r.insert(n, 2 * n);
    }

    for n in 1..1000 {
        match r.get(n) {
            Some(i) => assert_eq!(*i, n * 2),
            _ => panic!(),
        }
    }

    assert_eq!(r.get(0), None);
}

#[test]
fn test_remove() {
    let mut r: BTree<i64> = BTree::new();
    for n in 1..1000 {
        r.insert(n, 2 * n);
    }

    for n in 1..1000 {
        match r.remove(n) {
            Some(i) => assert_eq!(i, n * 2),
            _ => panic!("{}", n),
        }
    }

    let mut r: BTree<i64> = BTree::new();
    for n in (1..1000).rev() {
        r.insert(n, 2 * n);
    }

    for n in 1..1000 {
        match r.remove(n) {
            Some(i) => assert_eq!(i, n * 2),
            _ => panic!("{}", n),
        }
    }
}

#[test]
fn test_order() {
    let r: BTree<i64> = BTree::new_with_order(3);
    assert_eq!(r.order(), 4);
}

#[test]
fn insert_existing_key_replaces_value() {
    let mut r: BTree<i64> = BTree::new();
    assert_eq!(r.insert(7, 70), None);
    assert_eq!(r.len(), 1);
    assert_eq!(r.insert(7, 77), Some(70));
    assert_eq!(r.len(), 1);
    assert_eq!(r.get(7), Some(&77));
}
