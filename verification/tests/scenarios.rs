use queue_hash_map::LinkedHashMap;

fn pairs(map: &LinkedHashMap<i32, i32>) -> Vec<(i32, i32)> {
    let mut out = Vec::new();
    for (k, v, _) in map.entries() {
        out.push((*k, *v));
    }
    out
}

#[test]
fn insert_delete_first_and_reinsert_scenario() {
    let mut map = LinkedHashMap::with_capacity(30);

    map.insert(1, 10);
    map.insert(2, 20);
    assert_eq!(pairs(&map), vec![(1, 10), (2, 20)]);

    map.delete_first();
    map.delete_first();
    assert_eq!(pairs(&map), vec![]);
    assert_eq!(map.len(), 0);

    map.insert(3, 30);
    map.insert(4, 40);
    assert_eq!(pairs(&map), vec![(3, 30), (4, 40)]);

    *map.get_mut(&4).unwrap() = 50;
    assert_eq!(pairs(&map), vec![(3, 30), (4, 50)]);

    map.insert(5, 55);
    map.insert(6, 66);
    assert_eq!(pairs(&map), vec![(3, 30), (4, 50), (5, 55), (6, 66)]);

    map.delete_first();
    map.delete_first();
    assert_eq!(pairs(&map), vec![(5, 55), (6, 66)]);

    map.insert(3, 30);
    assert_eq!(pairs(&map), vec![(5, 55), (6, 66), (3, 30)]);
}

#[test]
fn insert_or_gt_cas_scenario() {
    let mut map: LinkedHashMap<i32, i32> = LinkedHashMap::new();

    map.insert_or_gt_cas(8, 90);
    assert_eq!(pairs(&map), vec![(8, 90)]);

    map.insert_or_gt_cas(8, 50);
    assert_eq!(pairs(&map), vec![(8, 90)]);

    map.insert_or_gt_cas(8, 95);
    assert_eq!(pairs(&map), vec![(8, 95)]);
    assert_eq!(map.len(), 1);
}

#[test]
fn value_gt_is_true_for_an_absent_key() {
    let mut map: LinkedHashMap<i32, i32> = LinkedHashMap::new();
    assert!(map.value_gt(&9, 10));
    map.insert(1, 100);
    assert!(map.value_gt(&9, 10));
    assert_eq!(pairs(&map), vec![(1, 100)]);
}

#[test]
fn walkthrough_of_the_demo_program() {
    let mut map = LinkedHashMap::with_capacity(30);
    map.insert(1, 10);
    map.insert(2, 20);
    map.delete_first();
    map.delete_first();
    map.insert(3, 30);
    map.insert(4, 40);
    *map.get_mut(&4).unwrap() = 50;
    map.insert(5, 55);
    map.insert(6, 66);
    map.delete_first();
    map.delete_first();
    map.insert(3, 30);
    map.delete_first();
    assert_eq!(pairs(&map), vec![(6, 66), (3, 30)]);
    map.insert_or_gt_cas(8, 90);
    map.insert_or_gt_cas(9, 88);
    assert_eq!(pairs(&map), vec![(6, 66), (3, 30), (8, 90), (9, 88)]);
    assert!(!map.value_gt(&9, 10));
    assert!(map.value_gt(&9, 89));
}
