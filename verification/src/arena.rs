//! Slot storage for the nodes of the list. A node keeps its slot number for
//! as long as it lives, so that links and the hash index can name it by that
//! number. The slot of a node that was taken out is kept on a free list and
//! handed out again before the storage grows.

use crate::node::Node;
use vstd::prelude::*;

verus! {

/// Growable storage of nodes in numbered slots.
pub struct Arena<K, V> {
    slots: Vec<Option<Node<K, V>>>,
    free: Vec<usize>,
}

impl<K, V> View for Arena<K, V> {
    type V = Seq<Option<Node<K, V>>>;

    /// The slots in order of their numbers: `Some` for a node, `None` for a
    /// vacant slot.
    closed spec fn view(&self) -> Seq<Option<Node<K, V>>> {
        self.slots@
    }
}

impl<K, V> Arena<K, V> {
    /// The free list names exactly the vacant slots, each once.
    pub closed spec fn wf(&self) -> bool {
        &&& self.free@.no_duplicates()
        &&& forall|j: int|
            0 <= j < self.free@.len() ==> (#[trigger] self.free@[j]) < self.slots@.len()
                && self.slots@[self.free@[j] as int] is None
        &&& forall|s: usize|
            s < self.slots@.len() && (#[trigger] self.slots@[s as int]) is None
                ==> self.free@.contains(s)
    }

    /// Whether slot `s` holds a node.
    pub open spec fn live(&self, s: usize) -> bool {
        s < self@.len() && self@[s as int] is Some
    }

    /// The node in slot `s`.
    pub open spec fn node(&self, s: usize) -> Node<K, V>
        recommends
            self.live(s),
    {
        self@[s as int]->0
    }

    /// An arena without slots.
    pub fn new() -> (arena: Self)
        ensures
            arena.wf(),
            arena@ == Seq::<Option<Node<K, V>>>::empty(),
    {
        Arena { slots: Vec::new(), free: Vec::new() }
    }

    /// Puts `node` into a vacant slot, or into a new slot at the end when
    /// none is vacant, and returns the slot's number.
    pub fn place(&mut self, node: Node<K, V>) -> (s: usize)
        requires
            old(self).wf(),
        ensures
            final(self).wf(),
            s <= old(self)@.len(),
            s < old(self)@.len() ==> old(self)@[s as int] is None,
            final(self)@ == (if s < old(self)@.len() {
                old(self)@.update(s as int, Some(node))
            } else {
                old(self)@.push(Some(node))
            }),
    {
        let ghost before = *self;
        match self.free.pop() {
            Some(s) => {
                assert(before.free@[before.free@.len() - 1] == s);
                self.slots[s] = Some(node);
                proof {
                    assert forall|t: usize|
                        t < self.slots@.len() && (#[trigger] self.slots@[t as int]) is None
                            implies self.free@.contains(t) by {
                        assert(before.slots@[t as int] is None);
                        assert(before.free@.contains(t));
                        let j = choose|j: int| 0 <= j < before.free@.len() && before.free@[j] == t;
                        assert(self.free@[j] == t);
                    }
                }
                s
            },
            None => {
                self.slots.push(Some(node));
                proof {
                    assert forall|t: usize|
                        t < self.slots@.len() && (#[trigger] self.slots@[t as int]) is None
                            implies self.free@.contains(t) by {
                        assert(before.slots@[t as int] is None);
                        assert(before.free@.contains(t));
                    }
                }
                self.slots.len() - 1
            },
        }
    }

    /// Takes the node out of slot `s` and leaves the slot vacant.
    pub fn take(&mut self, s: usize) -> (node: Node<K, V>)
        requires
            old(self).wf(),
            old(self).live(s),
        ensures
            final(self).wf(),
            final(self)@ == old(self)@.update(s as int, None),
            node == old(self).node(s),
    {
        let ghost before = *self;
        let node = self.slots[s].take().unwrap();
        self.free.push(s);
        proof {
            assert forall|t: usize|
                t < self.slots@.len() && (#[trigger] self.slots@[t as int]) is None
                    implies self.free@.contains(t) by {
                if t == s {
                    assert(self.free@[before.free@.len() as int] == s);
                } else {
                    assert(before.slots@[t as int] is None);
                    assert(before.free@.contains(t));
                    let j = choose|j: int| 0 <= j < before.free@.len() && before.free@[j] == t;
                    assert(self.free@[j] == t);
                }
            }
        }
        node
    }

    /// The node in slot `s`.
    pub fn get(&self, s: usize) -> (node: &Node<K, V>)
        requires
            self.live(s),
        ensures
            *node == self.node(s),
    {
        self.slots[s].as_ref().unwrap()
    }

    /// Makes `link` the predecessor that the node in slot `s` names.
    pub fn set_pre(&mut self, s: usize, link: Option<usize>)
        requires
            old(self).wf(),
            old(self).live(s),
        ensures
            final(self).wf(),
            final(self)@ == old(self)@.update(
                s as int,
                Some(
                    Node {
                        key: old(self).node(s).key,
                        value: old(self).node(s).value,
                        time: old(self).node(s).time,
                        pre: link,
                        next: old(self).node(s).next,
                    },
                ),
            ),
    {
        let node = self.slots[s].as_mut().unwrap();
        node.pre = link;
    }

    /// Makes `link` the successor that the node in slot `s` names.
    pub fn set_next(&mut self, s: usize, link: Option<usize>)
        requires
            old(self).wf(),
            old(self).live(s),
        ensures
            final(self).wf(),
            final(self)@ == old(self)@.update(
                s as int,
                Some(
                    Node {
                        key: old(self).node(s).key,
                        value: old(self).node(s).value,
                        time: old(self).node(s).time,
                        pre: old(self).node(s).pre,
                        next: link,
                    },
                ),
            ),
    {
        let node = self.slots[s].as_mut().unwrap();
        node.next = link;
    }

    /// A mutable reference to the value of the node in slot `s`. What is
    /// written through it is the only thing that changes.
    pub fn value_mut(&mut self, s: usize) -> (value: &mut V)
        requires
            old(self).wf(),
            old(self).live(s),
        ensures
            *value == old(self).node(s).value,
            final(self).wf(),
            final(self)@ == old(self)@.update(
                s as int,
                Some(
                    Node {
                        key: old(self).node(s).key,
                        value: *final(value),
                        time: old(self).node(s).time,
                        pre: old(self).node(s).pre,
                        next: old(self).node(s).next,
                    },
                ),
            ),
    {
        let node = self.slots[s].as_mut().unwrap();
        &mut node.value
    }
}

} // verus!
