use queue_hash_map::LinkedHashMap;

fn keys(map: &LinkedHashMap<u32, u32>) -> Vec<u32> {
    let mut out = Vec::new();
    for (k, _, _) in map.entries() {
        out.push(*k);
    }
    out
}

fn triples(map: &LinkedHashMap<u32, u32>) -> Vec<(u32, u32, u128)> {
    let mut out = Vec::new();
    for (k, v, t) in map.entries() {
        out.push((*k, *v, t));
    }
    out
}

#[test]
fn a_new_map_is_empty() {
    let map: LinkedHashMap<u32, u32> = LinkedHashMap::new();
    assert_eq!(map.len(), 0);
    assert!(map.entries().is_empty());
    assert!(!map.contains_key(&1));
    assert_eq!(map.oldest_time(), None);
}

#[test]
fn with_capacity_gives_an_empty_map() {
    let mut map: LinkedHashMap<u32, u32> = LinkedHashMap::with_capacity(1000);
    assert_eq!(map.len(), 0);
    assert!(map.entries().is_empty());
    assert!(map.pop_cur().is_none());
    map.insert(1, 2);
    assert_eq!(keys(&map), vec![1]);
}

#[test]
fn inserts_alone_keep_insertion_order() {
    let mut map: LinkedHashMap<u32, u32> = LinkedHashMap::new();
    let order = [7, 3, 9, 1, 8, 2, 100, 0];
    for k in order {
        map.insert(k, k * 2);
    }
    assert_eq!(keys(&map), order.to_vec());
    assert_eq!(map.len(), order.len());
    for k in order {
        assert!(map.contains_key(&k));
    }
}

#[test]
fn insert_at_records_key_value_and_time() {
    let mut map: LinkedHashMap<u32, u32> = LinkedHashMap::new();
    map.insert_at(4, 40, 17);
    map.insert_at(5, 50, 23);
    assert_eq!(triples(&map), vec![(4, 40, 17), (5, 50, 23)]);
}

#[test]
fn inserting_a_present_key_moves_it_to_the_newest_place() {
    let mut map: LinkedHashMap<u32, u32> = LinkedHashMap::new();
    map.insert_at(1, 10, 1);
    map.insert_at(2, 20, 2);
    map.insert_at(3, 30, 3);
    map.insert_at(1, 11, 4);
    assert_eq!(triples(&map), vec![(2, 20, 2), (3, 30, 3), (1, 11, 4)]);
    assert_eq!(map.len(), 3);
    assert_eq!(map.oldest_time(), Some(2));
    map.insert_at(1, 12, 5);
    assert_eq!(triples(&map), vec![(2, 20, 2), (3, 30, 3), (1, 12, 5)]);
}

#[test]
fn the_header_holds_the_time_of_the_oldest_entry() {
    let mut map: LinkedHashMap<u32, u32> = LinkedHashMap::new();
    assert_eq!(map.oldest_time(), None);
    map.insert_at(1, 0, 100);
    assert_eq!(map.oldest_time(), Some(100));
    map.insert_at(2, 0, 200);
    map.insert_at(3, 0, 300);
    assert_eq!(map.oldest_time(), Some(100));
    map.delete(&2);
    assert_eq!(map.oldest_time(), Some(100));
    map.delete(&1);
    assert_eq!(map.oldest_time(), Some(300));
    map.insert_at(4, 0, 400);
    map.delete_first();
    assert_eq!(map.oldest_time(), Some(400));
    map.delete_first();
    assert_eq!(map.oldest_time(), None);
    map.insert_at(5, 0, 500);
    assert_eq!(map.oldest_time(), Some(500));
}

#[test]
fn len_is_the_number_of_entries_in_the_list() {
    let mut map: LinkedHashMap<u32, u32> = LinkedHashMap::new();
    for k in 0..20 {
        map.insert(k, k);
        assert_eq!(map.len(), map.entries().len());
    }
    for k in [3, 19, 0, 7, 7, 42] {
        map.delete(&k);
        assert_eq!(map.len(), map.entries().len());
    }
    assert_eq!(map.len(), 16);
    for _ in 0..5 {
        map.delete_first();
        assert_eq!(map.len(), map.entries().len());
    }
    assert_eq!(map.len(), 11);
    map.insert(3, 33);
    map.insert(8, 88);
    assert_eq!(map.len(), 12);
    assert_eq!(map.len(), map.entries().len());
}

#[test]
fn delete_first_takes_entries_in_insertion_order() {
    let mut map: LinkedHashMap<u32, u32> = LinkedHashMap::new();
    let order = [5, 1, 4, 2, 3];
    for k in order {
        map.insert(k, 0);
    }
    for gone in 0..order.len() {
        assert_eq!(keys(&map), order[gone..].to_vec());
        map.delete_first();
    }
    assert_eq!(map.len(), 0);
    map.delete_first();
    assert_eq!(map.len(), 0);
}

#[test]
fn delete_first_on_an_empty_map_does_nothing() {
    let mut map: LinkedHashMap<u32, u32> = LinkedHashMap::new();
    map.delete_first();
    assert_eq!(map.len(), 0);
    assert!(map.entries().is_empty());
    map.insert(1, 1);
    assert_eq!(keys(&map), vec![1]);
}

#[test]
fn delete_removes_from_the_middle() {
    let mut map: LinkedHashMap<u32, u32> = LinkedHashMap::new();
    for k in 1..=5 {
        map.insert(k, k * 10);
    }
    map.delete(&3);
    assert_eq!(keys(&map), vec![1, 2, 4, 5]);
    assert!(!map.contains_key(&3));
    assert_eq!(map.len(), 4);
}

#[test]
fn delete_removes_the_newest_and_appends_go_on_behind_it() {
    let mut map: LinkedHashMap<u32, u32> = LinkedHashMap::new();
    for k in 1..=3 {
        map.insert(k, k * 10);
    }
    map.delete(&3);
    assert_eq!(keys(&map), vec![1, 2]);
    map.insert(4, 40);
    assert_eq!(keys(&map), vec![1, 2, 4]);
    map.delete(&4);
    map.delete(&2);
    map.insert(5, 50);
    assert_eq!(keys(&map), vec![1, 5]);
}

#[test]
fn delete_removes_the_oldest() {
    let mut map: LinkedHashMap<u32, u32> = LinkedHashMap::new();
    for k in 1..=3 {
        map.insert(k, k * 10);
    }
    map.delete(&1);
    assert_eq!(keys(&map), vec![2, 3]);
    map.delete(&2);
    map.delete(&3);
    assert_eq!(map.len(), 0);
    map.insert(9, 90);
    assert_eq!(keys(&map), vec![9]);
}

#[test]
fn delete_of_an_absent_key_does_nothing() {
    let mut map: LinkedHashMap<u32, u32> = LinkedHashMap::new();
    map.delete(&1);
    assert_eq!(map.len(), 0);
    map.insert(1, 10);
    map.insert(2, 20);
    map.delete(&3);
    map.delete(&3);
    assert_eq!(keys(&map), vec![1, 2]);
}

#[test]
fn a_deleted_key_comes_back_as_the_newest_entry() {
    let mut map: LinkedHashMap<u32, u32> = LinkedHashMap::new();
    map.insert_at(1, 10, 1);
    map.insert_at(2, 20, 2);
    map.insert_at(3, 30, 3);
    map.delete(&1);
    map.insert_at(1, 10, 9);
    assert_eq!(triples(&map), vec![(2, 20, 2), (3, 30, 3), (1, 10, 9)]);
}

#[test]
fn slots_are_reused_without_mixing_entries() {
    let mut map: LinkedHashMap<u32, u32> = LinkedHashMap::new();
    let mut expect: Vec<u32> = Vec::new();
    for round in 0..50u32 {
        for k in 0..4 {
            let key = round * 4 + k;
            map.insert(key, key + 1);
            expect.push(key);
        }
        map.delete_first();
        expect.remove(0);
        let mid = expect[expect.len() / 2];
        map.delete(&mid);
        expect.retain(|k| *k != mid);
        assert_eq!(keys(&map), expect);
        assert_eq!(map.len(), expect.len());
    }
    for (k, v, _) in map.entries() {
        assert_eq!(*v, *k + 1);
    }
}

#[test]
fn get_mut_gives_the_value_or_nothing() {
    let mut map: LinkedHashMap<u32, u32> = LinkedHashMap::new();
    assert!(map.get_mut(&1).is_none());
    map.insert_at(1, 10, 5);
    map.insert_at(2, 20, 6);
    assert_eq!(map.get_mut(&1).map(|v| *v), Some(10));
    *map.get_mut(&2).unwrap() += 5;
    assert_eq!(triples(&map), vec![(1, 10, 5), (2, 25, 6)]);
    assert!(map.get_mut(&3).is_none());
    assert_eq!(map.len(), 2);
}
