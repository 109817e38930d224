use lifter::union::Union;

#[test]
fn test_union() {
    let mut u = Union::new();
    u.join(1, 2);
    u.join(2, 3);
    assert_eq!(u.find(1), u.find(2));
    assert_eq!(u.find(2), u.find(3));
    assert_eq!(u.find(1), 1);
    assert_eq!(u.find(2), 1);
    assert_eq!(u.find(3), 1);
    u.join(4, 5);
    assert_eq!(u.find(4), u.find(5));
    assert_ne!(u.find(1), u.find(4));
}

#[test]
fn union_find_of_unknown_key_is_itself() {
    let mut u = Union::new();
    assert_eq!(u.lookup(7), None);
    assert_eq!(u.find(7), 7);
    assert_eq!(u.lookup(7), Some(7));
}

#[test]
fn union_lookup_after_join() {
    let mut u = Union::new();
    u.join(10, 20);
    assert_eq!(u.lookup(10), Some(10));
    assert_eq!(u.lookup(20), Some(10));
    assert_eq!(u.lookup(30), None);
}

#[test]
fn union_join_relinks_only_its_arguments() {
    let mut u = Union::new();
    u.join(1, 2);
    u.join(3, 4);
    assert_ne!(u.find(2), u.find(4));
    u.join(2, 4);
    assert_eq!(u.find(2), u.find(4));
    assert_eq!(u.find(4), 1);
    assert_eq!(u.find(3), 3);
}

#[test]
fn union_find_is_stable() {
    let mut u = Union::new();
    u.join(5, 6);
    u.join(6, 7);
    let first = u.find(7);
    let second = u.find(7);
    assert_eq!(first, second);
    assert_eq!(u.find(first), first);
}

#[test]
fn union_sets_partition_keys() {
    let mut u = Union::new();
    u.join(1, 2);
    u.join(2, 3);
    u.join(4, 5);
    let mut sets: Vec<Vec<u64>> = u
        .sets()
        .into_iter()
        .map(|s| {
            let mut v: Vec<u64> = s.into_iter().collect();
            v.sort();
            v
        })
        .collect();
    sets.sort();
    assert_eq!(sets, vec![vec![1, 2, 3], vec![4, 5]]);
}
