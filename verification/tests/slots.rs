use okbtree::arrayvec::DetachedArrayVec;

#[test]
fn slot_array_push_pop_insert_remove() {
    let mut v: DetachedArrayVec<i32, 4> = DetachedArrayVec::new();
    v.push(0, 10);
    v.push(1, 30);
    v.insert(2, 1, 20);
    assert_eq!(v.as_slice(3), &[10, 20, 30]);
    assert_eq!(*v.get(3, 0), 10);
    let removed = v.remove(3, 1);
    assert_eq!(removed, 20);
    assert_eq!(v.pop(2), 30);
    assert_eq!(v.as_slice(1), &[10]);
}

#[test]
fn slot_array_split_off_take_truncate() {
    let mut v: DetachedArrayVec<i32, 4> = DetachedArrayVec::new();
    for (i, x) in [1, 2, 3, 4].into_iter().enumerate() {
        v.push(i, x);
    }
    let tail = v.split_off(4, 2);
    assert_eq!(v.as_slice(2), &[1, 2]);
    assert_eq!(tail.as_slice(2), &[3, 4]);

    let mut w = v.take();
    assert_eq!(v.as_slice(0), &[] as &[i32]);
    assert_eq!(w.as_slice(2), &[1, 2]);

    w.truncate(2, 1);
    assert_eq!(w.as_slice(1), &[1]);
    w.clear(1);
    assert_eq!(w.as_slice(0), &[] as &[i32]);
}

#[test]
fn slot_array_replace_and_iter() {
    let mut v: DetachedArrayVec<i32, 3> = DetachedArrayVec::new();
    v.push(0, 5);
    v.push(1, 6);
    v.push(2, 7);
    assert_eq!(v.replace(3, 1, 60), 6);

    let mut it = v.into_iter(3);
    assert_eq!(it.remaining(), 3);
    assert_eq!(it.next(), Some(5));
    assert_eq!(it.next_back(), Some(7));
    assert_eq!(it.next(), Some(60));
    assert_eq!(it.next(), None);
    assert_eq!(it.next_back(), None);
}
