//! The cells of the insertion-ordered list. Nodes live in the slots of an
//! arena and name their neighbours by slot number.

use vstd::prelude::*;

verus! {

/// One element of the list: an entry and the slots of its neighbours.
pub struct Node<K, V> {
    pub key: K,
    pub value: V,
    pub time: u128,
    pub pre: Option<usize>,
    pub next: Option<usize>,
}

impl<K, V> Node<K, V> {
    /// A node that is not linked to any other yet.
    pub fn new(k: K, v: V, time: u128) -> (node: Self)
        ensures
            node.key == k,
            node.value == v,
            node.time == time,
            node.pre is None,
            node.next is None,
    {
        Node { key: k, value: v, time: time, pre: None, next: None }
    }
}

/// The header of the list: the slot of the oldest node and a copy of that
/// node's insertion time. With no node, `first` is `None` and `cur_time` is
/// zero.
pub struct Head {
    pub first: Option<usize>,
    pub cur_time: u128,
}

impl Head {
    /// The header of a list without nodes.
    pub fn empty() -> (head: Self)
        ensures
            head.first is None,
            head.cur_time == 0,
    {
        Head { first: None, cur_time: 0 }
    }
}

} // verus!
