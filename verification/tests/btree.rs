use okbtree::OkBTree;

#[test]
fn get() {
    let mut btree = OkBTree::new();
    for i in 50..100 {
        btree.insert(i);
    }

    for i in 50..100 {
        assert_eq!(btree.get(&i), Some(&i));
    }

    assert!(btree.get(&49).is_none());
    assert!(btree.get(&100).is_none());
    assert!(btree.get(&0).is_none());

    assert_eq!(btree.first(), Some(&50));
    assert_eq!(btree.last(), Some(&99));
}

#[test]
fn remove_last() {
    let mut btree = OkBTree::new();
    for i in 0..100 {
        btree.insert(i);
    }

    for i in (0..100).rev() {
        assert_eq!(btree.remove_last(), Some(i));
    }
}

#[test]
fn remove_first() {
    let mut btree = OkBTree::new();
    for i in 0..100 {
        btree.insert(i);
    }

    for i in 0..100 {
        assert_eq!(btree.remove_first(), Some(i));
    }
}

#[test]
fn remove() {
    let mut btree = OkBTree::new();
    for i in 0..100 {
        btree.insert(i);
    }

    for i in 0..100 {
        assert_eq!(btree.remove(&i), Some(i));
    }
}

#[test]
fn empty_tree_queries() {
    let mut btree = OkBTree::new();
    assert!(btree.get(&0).is_none());
    assert!(btree.first().is_none());
    assert!(btree.last().is_none());
    assert!(btree.remove(&0).is_none());
    assert!(btree.remove_first().is_none());
    assert!(btree.remove_last().is_none());
}

#[test]
fn single_element() {
    let mut btree = OkBTree::new();
    btree.insert(7);
    assert_eq!(btree.get(&7), Some(&7));
    assert_eq!(btree.first(), Some(&7));
    assert_eq!(btree.last(), Some(&7));
    assert_eq!(btree.remove_first(), Some(7));
    assert!(btree.get(&7).is_none());
    assert!(btree.first().is_none());
    // The tree keeps working after it was emptied.
    btree.insert(9);
    assert_eq!(btree.last(), Some(&9));
}

#[test]
fn insert_in_order_bounds() {
    let mut btree = OkBTree::new();
    for i in 1..=11 {
        btree.insert(i);
    }
    assert_eq!(btree.last(), Some(&11));
    assert_eq!(btree.first(), Some(&1));
    assert_eq!(btree.get(&8), Some(&8));
    assert_eq!(btree.get(&12), None);
    assert_eq!(btree.get(&0), None);
}

#[test]
fn drain_descending_then_empty() {
    let mut btree = OkBTree::new();
    for i in 0..100 {
        btree.insert(i);
    }
    for i in (0..100).rev() {
        assert_eq!(btree.remove_last(), Some(i));
    }
    assert!(btree.remove_last().is_none());
    assert!(btree.first().is_none());
}

#[test]
fn drain_ascending_then_empty() {
    let mut btree = OkBTree::new();
    for i in 0..100 {
        btree.insert(i);
    }
    for i in 0..100 {
        assert_eq!(btree.remove_first(), Some(i));
    }
    assert!(btree.remove_first().is_none());
    assert!(btree.last().is_none());
}

#[test]
fn remove_each_then_empty() {
    let mut btree = OkBTree::new();
    for i in 0..100 {
        btree.insert(i);
    }
    for i in 0..100 {
        assert_eq!(btree.remove(&i), Some(i));
    }
    assert!(btree.get(&50).is_none());
    assert!(btree.first().is_none());
    assert!(btree.last().is_none());
}

#[test]
fn inorder_via_remove_first() {
    let mut btree = OkBTree::new();
    for v in [5, 3, 8, 1, 4, 9, 2, 7, 6, 10] {
        btree.insert(v);
    }
    for i in 1..=10 {
        assert_eq!(btree.remove_first(), Some(i));
    }
    assert!(btree.remove_first().is_none());
}

#[test]
fn permutation_lookup() {
    // A fixed pseudo-random permutation of 0..61: repeated multiplication by
    // a generator modulo the prime 61, with 60 appended.
    let mut keys: Vec<i32> = Vec::new();
    let mut x: i64 = 1;
    for _ in 0..60 {
        keys.push((x - 1) as i32);
        x = (x * 2) % 61;
    }
    keys.push(60);

    let mut btree = OkBTree::new();
    for &k in &keys {
        btree.insert(k);
    }
    for k in 0..=60 {
        assert_eq!(btree.get(&k), Some(&k));
    }
    assert!(btree.get(&-1).is_none());
    assert!(btree.get(&61).is_none());
    assert_eq!(btree.first(), Some(&0));
    assert_eq!(btree.last(), Some(&60));
}

#[test]
fn unordered_drains_sorted() {
    let inserts = [23, 4, 42, 15, 8, 16, 0, -7, 99, 23, 4, -100];
    let sorted = [-100, -7, 0, 4, 8, 15, 16, 23, 42, 99];

    let mut up = OkBTree::new();
    for &v in &inserts {
        up.insert(v);
    }
    for &v in &sorted {
        assert_eq!(up.remove_first(), Some(v));
    }
    assert!(up.remove_first().is_none());

    let mut down = OkBTree::new();
    for &v in &inserts {
        down.insert(v);
    }
    for &v in sorted.iter().rev() {
        assert_eq!(down.remove_last(), Some(v));
    }
    assert!(down.remove_last().is_none());
}

#[test]
fn surviving_set_is_difference() {
    let inserts = [1, 2, 3, 4, 5, 6, 7, 8, 9, 10];
    let removes = [2, 4, 6, 8, 10, 12];
    let mut btree = OkBTree::new();
    for &v in &inserts {
        btree.insert(v);
    }
    for &v in &removes {
        let expect = inserts.contains(&v);
        assert_eq!(btree.remove(&v), if expect { Some(v) } else { None });
    }
    for &v in &inserts {
        let survives = !removes.contains(&v);
        assert_eq!(btree.get(&v).is_some(), survives);
    }
    assert_eq!(btree.first(), Some(&1));
    assert_eq!(btree.last(), Some(&9));
}

#[test]
fn insert_twice_equivalent() {
    let mut once = OkBTree::new();
    let mut twice = OkBTree::new();
    for v in [6, 2, 9] {
        once.insert(v);
        twice.insert(v);
    }
    once.insert(6);
    twice.insert(6);
    twice.insert(6);

    for v in 0..12 {
        assert_eq!(once.get(&v), twice.get(&v));
    }
    for _ in 0..3 {
        assert_eq!(once.remove_first(), twice.remove_first());
    }
    assert_eq!(once.remove_first(), None);
    assert_eq!(twice.remove_first(), None);
}

#[test]
fn duplicate_inserts_size() {
    let mut btree = OkBTree::new();
    for v in [3, 1, 3, 2, 1, 3] {
        btree.insert(v);
    }
    let mut count = 0;
    while btree.remove_first().is_some() {
        count += 1;
    }
    assert_eq!(count, 3);
}

#[test]
fn insert_i32_adds_one() {
    let mut btree = OkBTree::new();
    okbtree::insert_i32(&mut btree);
    assert_eq!(btree.get(&1), Some(&1));
    assert_eq!(btree.first(), Some(&1));
}

#[test]
fn default_is_empty() {
    let btree = OkBTree::default();
    assert!(btree.first().is_none());
}
