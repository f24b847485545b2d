use queue_hash_map::arena::Arena;
use queue_hash_map::node::Head;
use queue_hash_map::node::Node;

#[test]
fn a_new_node_has_no_neighbours() {
    let node = Node::new(3u8, 'x', 99);
    assert_eq!(node.key, 3);
    assert_eq!(node.value, 'x');
    assert_eq!(node.time, 99);
    assert_eq!(node.pre, None);
    assert_eq!(node.next, None);
}

#[test]
fn an_empty_header_has_no_first_node() {
    let head = Head::empty();
    assert_eq!(head.first, None);
    assert_eq!(head.cur_time, 0);
}

#[test]
fn the_arena_numbers_its_slots_from_zero() {
    let mut arena: Arena<u8, u8> = Arena::new();
    assert_eq!(arena.place(Node::new(1, 10, 0)), 0);
    assert_eq!(arena.place(Node::new(2, 20, 0)), 1);
    assert_eq!(arena.place(Node::new(3, 30, 0)), 2);
    assert_eq!(arena.get(1).key, 2);
    assert_eq!(arena.get(1).value, 20);
}

#[test]
fn the_arena_hands_a_vacant_slot_out_again() {
    let mut arena: Arena<u8, u8> = Arena::new();
    arena.place(Node::new(1, 10, 0));
    arena.place(Node::new(2, 20, 0));
    arena.place(Node::new(3, 30, 0));
    let taken = arena.take(1);
    assert_eq!((taken.key, taken.value), (2, 20));
    assert_eq!(arena.place(Node::new(4, 40, 0)), 1);
    assert_eq!(arena.get(1).key, 4);
    assert_eq!(arena.get(0).key, 1);
    assert_eq!(arena.get(2).key, 3);
    assert_eq!(arena.place(Node::new(5, 50, 0)), 3);
}

#[test]
fn the_arena_sets_links_and_values() {
    let mut arena: Arena<u8, u8> = Arena::new();
    let a = arena.place(Node::new(1, 10, 7));
    let b = arena.place(Node::new(2, 20, 8));
    arena.set_next(a, Some(b));
    arena.set_pre(b, Some(a));
    *arena.value_mut(a) = 11;
    let first = arena.get(a);
    assert_eq!((first.key, first.value, first.time), (1, 11, 7));
    assert_eq!((first.pre, first.next), (None, Some(b)));
    let second = arena.get(b);
    assert_eq!((second.key, second.value, second.time), (2, 20, 8));
    assert_eq!((second.pre, second.next), (Some(a), None));
}
