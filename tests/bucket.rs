use hamt_map::bucket::Bucket;

#[test]
fn bucket_new() {
    Bucket::new(42, 0);
}

#[test]
fn bucket_insert() {
    let b = Bucket::new(42, 0);

    assert_eq!(b.size(), 1);

    let (bb, new) = b.insert(0, 0);

    assert!(new);
    assert_eq!(b.size(), 1);
    assert_eq!(bb.size(), 2);
}

#[test]
fn bucket_remove() {
    let b = Bucket::new(42, 0);

    assert_eq!(b.remove(&42).unwrap().size(), 0);
    assert_eq!(b.insert(0, 0).0.remove(&42).unwrap(), Bucket::new(0, 0));
}

#[test]
fn bucket_get() {
    let b = Bucket::new(42, 0);

    assert_eq!(b.get(&42), Some(&0));
    assert_eq!(b.get(&0), None);
}

#[test]
fn bucket_insert_existing_key_replaces_value() {
    let b = Bucket::new(7, "a");
    let (bb, new) = b.insert(7, "b");

    assert!(!new);
    assert_eq!(bb.size(), 1);
    assert_eq!(bb.get(&7), Some(&"b"));
    assert_eq!(b.get(&7), Some(&"a"));
}

#[test]
fn bucket_remove_absent_key_is_no_change() {
    let b = Bucket::new(1, 10).insert(2, 20).0;

    assert!(b.remove(&3).is_none());
    assert_eq!(b.size(), 2);
}

#[test]
fn bucket_equality_ignores_order() {
    let a = Bucket::new(1, 10).insert(2, 20).0.insert(3, 30).0;
    let b = Bucket::new(3, 30).insert(1, 10).0.insert(2, 20).0;
    let c = Bucket::new(3, 30).insert(1, 10).0.insert(2, 21).0;

    assert_eq!(a, b);
    assert_ne!(a, c);
    assert_ne!(a, a.remove(&2).unwrap());
}

#[test]
fn bucket_is_singleton() {
    let b = Bucket::new(1, 10);

    assert!(b.is_singleton());
    assert!(!b.insert(2, 20).0.is_singleton());
    assert!(!b.remove(&1).unwrap().is_singleton());
}

#[test]
fn bucket_iterates_in_append_order() {
    let b = Bucket::new(5, 50).insert(3, 30).0.insert(9, 90).0.insert(3, 31).0;
    let mut it = b.iter();
    let mut seen = Vec::new();

    while let Some((k, v)) = it.next() {
        seen.push((k, *v));
    }

    assert_eq!(seen, vec![(5, 50), (3, 31), (9, 90)]);
}
