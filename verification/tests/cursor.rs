use queue_hash_map::LinkedHashMap;

fn read(map: &mut LinkedHashMap<u32, u32>) -> Option<(u32, u32)> {
    map.pop_cur().map(|(k, v)| (*k, *v))
}

fn cursor_keys(map: &LinkedHashMap<u32, u32>) -> Vec<u32> {
    let mut out = Vec::new();
    for (k, _, _) in map.entries() {
        out.push(*k);
    }
    out
}

#[test]
fn pop_cur_reads_the_first_entries_in_list_order() {
    let mut map: LinkedHashMap<u32, u32> = LinkedHashMap::new();
    for k in 1..=5 {
        map.insert(k, k * 10);
    }
    assert_eq!(read(&mut map), Some((1, 10)));
    assert_eq!(read(&mut map), Some((2, 20)));
    assert_eq!(read(&mut map), Some((3, 30)));
    assert_eq!(map.len(), 5);
    assert_eq!(cursor_keys(&map), vec![1, 2, 3, 4, 5]);
    assert_eq!(read(&mut map), Some((4, 40)));
    assert_eq!(read(&mut map), Some((5, 50)));
    assert_eq!(read(&mut map), None);
    assert_eq!(read(&mut map), None);
    assert_eq!(map.len(), 5);
    assert_eq!(cursor_keys(&map), vec![1, 2, 3, 4, 5]);
}

#[test]
fn pop_cur_on_an_empty_map_is_none() {
    let mut map: LinkedHashMap<u32, u32> = LinkedHashMap::new();
    assert_eq!(read(&mut map), None);
}

#[test]
fn an_exhausted_cursor_moves_onto_the_next_insert() {
    let mut map: LinkedHashMap<u32, u32> = LinkedHashMap::new();
    map.insert(1, 10);
    map.insert(2, 20);
    assert_eq!(read(&mut map), Some((1, 10)));
    assert_eq!(read(&mut map), Some((2, 20)));
    assert_eq!(read(&mut map), None);
    map.insert(3, 30);
    map.insert(4, 40);
    assert_eq!(read(&mut map), Some((3, 30)));
    assert_eq!(read(&mut map), Some((4, 40)));
    assert_eq!(read(&mut map), None);
}

#[test]
fn deleting_the_entry_under_the_cursor_moves_the_cursor_on() {
    let mut map: LinkedHashMap<u32, u32> = LinkedHashMap::new();
    for k in 1..=4 {
        map.insert(k, k * 10);
    }
    assert_eq!(read(&mut map), Some((1, 10)));
    map.delete(&2);
    assert_eq!(read(&mut map), Some((3, 30)));
    map.delete(&4);
    assert_eq!(read(&mut map), None);
}

#[test]
fn deleting_the_oldest_entry_under_the_cursor_moves_the_cursor_on() {
    let mut map: LinkedHashMap<u32, u32> = LinkedHashMap::new();
    for k in 1..=3 {
        map.insert(k, k * 10);
    }
    map.delete_first();
    assert_eq!(read(&mut map), Some((2, 20)));
    map.delete_first();
    assert_eq!(read(&mut map), Some((3, 30)));
    assert_eq!(read(&mut map), None);
}

#[test]
fn deleting_around_the_cursor_keeps_it_on_its_entry() {
    let mut map: LinkedHashMap<u32, u32> = LinkedHashMap::new();
    for k in 1..=5 {
        map.insert(k, k * 10);
    }
    assert_eq!(read(&mut map), Some((1, 10)));
    assert_eq!(read(&mut map), Some((2, 20)));
    map.delete(&1);
    map.delete(&5);
    map.delete_first();
    assert_eq!(read(&mut map), Some((3, 30)));
    assert_eq!(read(&mut map), Some((4, 40)));
    assert_eq!(read(&mut map), None);
}

#[test]
fn deleting_the_last_entry_leaves_the_cursor_with_nothing() {
    let mut map: LinkedHashMap<u32, u32> = LinkedHashMap::new();
    map.insert(1, 10);
    map.delete_first();
    assert_eq!(read(&mut map), None);
    map.insert(2, 20);
    assert_eq!(read(&mut map), Some((2, 20)));
}

#[test]
fn reinserting_the_key_under_the_cursor_moves_the_cursor_on() {
    let mut map: LinkedHashMap<u32, u32> = LinkedHashMap::new();
    map.insert(1, 10);
    map.insert(2, 20);
    map.insert(1, 11);
    assert_eq!(read(&mut map), Some((2, 20)));
    assert_eq!(read(&mut map), Some((1, 11)));
    assert_eq!(read(&mut map), None);
}
