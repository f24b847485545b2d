use queue_hash_map::LinkedHashMap;

fn value_pairs(map: &LinkedHashMap<u8, i64>) -> Vec<(u8, i64)> {
    let mut out = Vec::new();
    for (k, v, _) in map.entries() {
        out.push((*k, *v));
    }
    out
}

#[test]
fn value_gt_compares_with_the_stored_value() {
    let mut map: LinkedHashMap<u8, i64> = LinkedHashMap::new();
    map.insert(1, 10);
    assert!(map.value_gt(&1, 11));
    assert!(!map.value_gt(&1, 10));
    assert!(!map.value_gt(&1, 9));
    assert!(!map.value_gt(&1, -100));
    assert!(map.value_gt(&2, -100));
    assert_eq!(value_pairs(&map), vec![(1, 10)]);
}

#[test]
fn value_gt_cas_overwrites_only_with_a_greater_value() {
    let mut map: LinkedHashMap<u8, i64> = LinkedHashMap::new();
    map.insert(1, 10);
    map.insert(2, 20);
    assert!(!map.value_gt_cas(&1, 10));
    assert_eq!(value_pairs(&map), vec![(1, 10), (2, 20)]);
    assert!(!map.value_gt_cas(&1, 9));
    assert_eq!(value_pairs(&map), vec![(1, 10), (2, 20)]);
    assert!(map.value_gt_cas(&1, 11));
    assert_eq!(value_pairs(&map), vec![(1, 11), (2, 20)]);
    assert!(map.value_gt_cas(&2, 1000));
    assert_eq!(value_pairs(&map), vec![(1, 11), (2, 1000)]);
    assert!(!map.value_gt_cas(&2, 999));
    assert_eq!(value_pairs(&map), vec![(1, 11), (2, 1000)]);
    assert_eq!(map.len(), 2);
}

#[test]
fn value_gt_cas_keeps_place_and_time() {
    let mut map: LinkedHashMap<u8, i64> = LinkedHashMap::new();
    map.insert_at(1, 10, 100);
    map.insert_at(2, 20, 200);
    assert!(map.value_gt_cas(&1, 15));
    let mut seen = Vec::new();
    for (k, v, t) in map.entries() {
        seen.push((*k, *v, t));
    }
    assert_eq!(seen, vec![(1, 15, 100), (2, 20, 200)]);
    assert_eq!(map.oldest_time(), Some(100));
}

#[test]
fn insert_or_gt_cas_inserts_an_absent_key_as_the_newest() {
    let mut map: LinkedHashMap<u8, i64> = LinkedHashMap::new();
    map.insert(1, 10);
    map.insert_or_gt_cas(2, -5);
    map.insert_or_gt_cas(1, 5);
    map.insert_or_gt_cas(3, 0);
    map.insert_or_gt_cas(2, -4);
    assert_eq!(value_pairs(&map), vec![(1, 10), (2, -4), (3, 0)]);
}

#[test]
fn values_that_do_not_compare_are_never_overwritten() {
    let mut map: LinkedHashMap<u8, f64> = LinkedHashMap::new();
    map.insert(1, f64::NAN);
    assert!(!map.value_gt(&1, 1.0));
    assert!(!map.value_gt_cas(&1, 1.0));
    map.insert(2, 1.0);
    assert!(!map.value_gt_cas(&2, f64::NAN));
    assert!(map.value_gt_cas(&2, 1.5));
    let second = map.entries()[1];
    assert_eq!(*second.1, 1.5);
}
