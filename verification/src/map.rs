//! The map itself: a hash index from keys to the slots of an arena, and a
//! doubly linked list threaded through the nodes in those slots, oldest
//! first.

use crate::arena::Arena;
use crate::clock::Clock;
use crate::links::accounted;
use crate::links::contents_of;
use crate::links::index_ok;
use crate::links::lemma_appended;
use crate::links::lemma_contents_valid;
use crate::links::lemma_lookup;
use crate::links::lemma_removed;
use crate::links::lemma_slots_bound;
use crate::links::lemma_value_changed;
use crate::links::lemma_walk_next;
use crate::links::lemma_walk_pre;
use crate::links::linked;
use crate::links::list_ok;
use crate::links::live;
use crate::links::same_payloads;
use crate::links::value_changed;
use crate::links::walk_next;
use crate::links::walk_pre;
use crate::model::Contents;
use crate::model::is_expired;
use crate::model::lt_gives;
use crate::model::Entry;
use crate::node::Head;
use crate::node::Node;
use std::collections::hash_map::RandomState;
use std::collections::HashMap;
use std::hash::BuildHasher;
use std::hash::Hash;
use vstd::prelude::*;
use vstd::std_specs::cmp::PartialOrdIs;
use vstd::std_specs::cmp::PartialOrdSpec;
use vstd::std_specs::hash::builds_valid_hashers;
use vstd::std_specs::hash::obeys_key_model;

verus! {

/// A hash map whose entries keep the order of their insertion.
///
/// `map` sends each key to the slot of its node in `arena`. `head.first`,
/// `tail` and the `pre` and `next` of each node thread the list through the
/// arena. `cur` is the slot under the read cursor. `order` is the sequence of
/// slots in list order and `pos` the position of the cursor in it; both exist
/// for the proofs only.
#[verifier::reject_recursive_types(S)]
pub struct LinkedHashMap<K, V, S = RandomState> {
    map: HashMap<K, usize, S>,
    arena: Arena<K, V>,
    head: Head,
    cur: Option<usize>,
    tail: Option<usize>,
    clock: Clock,
    order: Ghost<Seq<usize>>,
    pos: Ghost<nat>,
}

impl<K, V, S> View for LinkedHashMap<K, V, S> {
    type V = Contents<K, V>;

    closed spec fn view(&self) -> Contents<K, V> {
        contents_of(self.arena@, self.order@, self.pos@)
    }
}

impl<K, V, S> LinkedHashMap<K, V, S> {
    /// The links, the header, the tail and the cursor describe the list
    /// `order`, and the arena is in order.
    spec fn list_wf(&self) -> bool {
        &&& self.arena.wf()
        &&& list_ok(self.arena@, self.head, self.cur, self.tail, self.order@, self.pos@)
    }

    /// The invariant of the map. Every constructor establishes it and every
    /// operation keeps it.
    pub closed spec fn wf(&self) -> bool {
        &&& self.list_wf()
        &&& accounted(self.arena@, self.order@)
        &&& obeys_key_model::<K>()
        &&& builds_valid_hashers::<S>()
        &&& index_ok(self.map@, self.arena@, self.order@)
    }

    /// The insertion time that the header holds for the oldest entry, or
    /// `None` when the header says that the list is empty.
    pub closed spec fn head_time(&self) -> Option<u128> {
        if self.head.first is Some {
            Some(self.head.cur_time)
        } else {
            None
        }
    }

    /// The number of keys in the hash index.
    pub closed spec fn index_len(&self) -> nat {
        self.map@.len()
    }

    /// The entries reached from the first node by following `next`, in the
    /// order in which they are met.
    pub closed spec fn reach_forward(&self) -> Seq<Entry<K, V>> {
        walk_next(self.arena@, self.head.first, self.arena@.len())
    }

    /// The entries reached from the newest node by following `pre`, in the
    /// order in which they are met.
    pub closed spec fn reach_backward(&self) -> Seq<Entry<K, V>> {
        walk_pre(self.arena@, self.tail, self.arena@.len())
    }

    /// A well-formed map holds valid contents: no key twice, the cursor
    /// within the entries or just behind them.
    pub proof fn lemma_valid(&self)
        requires
            self.wf(),
        ensures
            self@.valid(),
    {
        lemma_contents_valid(self.map@, self.arena@, self.order@, self.pos@);
    }

    /// The header is consistent with the list: it is in its empty state
    /// exactly when the map is empty, and otherwise the time that it holds
    /// is the insertion time of the entry that is the oldest.
    pub proof fn lemma_head_consistent(&self)
        requires
            self.wf(),
        ensures
            self.head_time() is None <==> self@.len() == 0,
            self@.len() > 0 ==> self.head_time() == Some(self@.entries[0].time),
    {
        if self.order@.len() > 0 {
            assert(linked(self.arena@, self.order@, 0));
        }
    }

    /// Index and list are on a par: the index holds as many keys as the map
    /// has entries, following `next` from the first node reaches exactly the
    /// entries in list order, and following `pre` from the newest node
    /// reaches exactly the same entries in reverse order.
    pub proof fn lemma_index_list_parity(&self)
        requires
            self.wf(),
        ensures
            self.index_len() == self@.len(),
            self.reach_forward() == self@.entries,
            self.reach_backward() == self@.entries.reverse(),
            self.reach_forward().len() == self@.len(),
            self.reach_backward().len() == self@.len(),
    {
        let n = self.order@.len() as int;
        assert forall|i: int| 0 <= i < n implies (#[trigger] self.order@[i])
            < self.arena@.len() by {
            assert(linked(self.arena@, self.order@, i));
        }
        lemma_slots_bound(self.order@, self.arena@.len());
        lemma_walk_next(self.arena@, self.order@, 0, self.arena@.len());
        lemma_walk_pre(self.arena@, self.order@, n - 1, self.arena@.len());
        assert(self.reach_forward() =~= self@.entries);
        assert(self.reach_backward() =~= self@.entries.reverse());
    }
}

/// Whether `link` names the slot `s`.
fn names(link: Option<usize>, s: usize) -> (yes: bool)
    ensures
        yes == (link == Some(s)),
{
    match link {
        Some(t) => t == s,
        None => false,
    }
}

impl<K: Copy + Hash + Eq, V: PartialOrd> LinkedHashMap<K, V> {
    /// An empty map.
    pub fn new() -> (m: Self)
        requires
            obeys_key_model::<K>(),
        ensures
            m.wf(),
            m@ == Contents::<K, V>::empty(),
    {
        Self::with_map(HashMap::new())
    }

    /// An empty map whose index was asked for room for `capacity` keys; its
    /// contents are those of `new`. No node is made ahead of its insertion.
    pub fn with_capacity(capacity: usize) -> (m: Self)
        requires
            obeys_key_model::<K>(),
        ensures
            m.wf(),
            m@ == Contents::<K, V>::empty(),
    {
        Self::with_map(HashMap::with_capacity(capacity))
    }
}

impl<K: Copy + Hash + Eq, V: PartialOrd, S: BuildHasher> LinkedHashMap<K, V, S> {
    /// An empty map around the empty index `map`.
    fn with_map(map: HashMap<K, usize, S>) -> (m: Self)
        requires
            obeys_key_model::<K>(),
            builds_valid_hashers::<S>(),
            map@ == Map::<K, usize>::empty(),
        ensures
            m.wf(),
            m@ == Contents::<K, V>::empty(),
    {
        let m = LinkedHashMap {
            map,
            arena: Arena::new(),
            head: Head::empty(),
            cur: None,
            tail: None,
            clock: Clock::start(),
            order: Ghost(Seq::empty()),
            pos: Ghost(0),
        };
        assert(m@ =~= Contents::<K, V>::empty());
        m
    }

    /// The number of entries.
    pub fn len(&self) -> (n: usize)
        requires
            self.wf(),
        ensures
            n == self@.len(),
    {
        self.map.len()
    }

    /// Whether the map holds an entry for `k`.
    pub fn contains_key(&self, k: &K) -> (found: bool)
        requires
            self.wf(),
        ensures
            found == self@.contains_key(*k),
    {
        proof {
            lemma_lookup(self.map@, self.arena@, self.order@, self.pos@, *k);
        }
        self.map.contains_key(k)
    }

    /// The value stored under `k`, if the map holds an entry for `k`.
    fn get(&self, k: &K) -> (r: Option<&V>)
        requires
            self.wf(),
        ensures
            match r {
                Some(value) => self@.contains_key(*k) && *value == self@.value_of(*k),
                None => !self@.contains_key(*k),
            },
    {
        proof {
            lemma_lookup(self.map@, self.arena@, self.order@, self.pos@, *k);
        }
        match self.map.get(k) {
            Some(s) => Some(&self.arena.get(*s).value),
            None => None,
        }
    }

    /// A mutable reference to the value stored under `k`, if the map holds
    /// an entry for `k`. What is written through the reference becomes the
    /// value of that entry; nothing else changes.
    pub fn get_mut(&mut self, k: &K) -> (r: Option<&mut V>)
        requires
            old(self).wf(),
        ensures
            final(self).wf(),
            match r {
                Some(value) => {
                    &&& old(self)@.contains_key(*k)
                    &&& *value == old(self)@.value_of(*k)
                    &&& final(self)@ == old(self)@.with_value(*k, *final(value))
                },
                None => !old(self)@.contains_key(*k) && final(self)@ == old(self)@,
            },
    {
        let ghost before = *self;
        proof {
            lemma_lookup(before.map@, before.arena@, before.order@, before.pos@, *k);
        }
        let found = match self.map.get(k) {
            Some(s) => Some(*s),
            None => None,
        };
        match found {
            Some(s) => {
                proof {
                    assert forall|slots2: Seq<Option<Node<K, V>>>|
                        #![trigger list_ok(
                            slots2,
                            before.head,
                            before.cur,
                            before.tail,
                            before.order@,
                            before.pos@,
                        )]
                        #![trigger index_ok(before.map@, slots2, before.order@)]
                        #![trigger accounted(slots2, before.order@)]
                        #![trigger contents_of(slots2, before.order@, before.pos@)]
                        value_changed(before.arena@, slots2, s) implies {
                        &&& list_ok(
                            slots2,
                            before.head,
                            before.cur,
                            before.tail,
                            before.order@,
                            before.pos@,
                        )
                        &&& index_ok(before.map@, slots2, before.order@)
                        &&& accounted(slots2, before.order@)
                        &&& contents_of(slots2, before.order@, before.pos@) == before@.with_value(
                            *k,
                            slots2[s as int]->0.value,
                        )
                    } by {
                        lemma_value_changed(
                            before.map@,
                            before.arena@,
                            before.head,
                            before.cur,
                            before.tail,
                            before.order@,
                            before.pos@,
                            slots2,
                            *k,
                        );
                    }
                }
                let value = self.arena.value_mut(s);
                Some(value)
            },
            None => None,
        }
    }

    /// The insertion time of the oldest entry as the header of the list
    /// keeps it, or `None` when the map is empty.
    pub fn oldest_time(&self) -> (t: Option<u128>)
        requires
            self.wf(),
        ensures
            t == (if self@.len() > 0 {
                Some(self@.entries[0].time)
            } else {
                None
            }),
    {
        proof {
            if self.order@.len() > 0 {
                assert(linked(self.arena@, self.order@, 0));
            }
        }
        match self.head.first {
            Some(_) => Some(self.head.cur_time),
            None => None,
        }
    }

    /// All entries, oldest first: for each its key, its value and its
    /// insertion time.
    pub fn entries(&self) -> (out: Vec<(&K, &V, u128)>)
        requires
            self.wf(),
        ensures
            out@.len() == self@.len(),
            forall|i: int|
                0 <= i < out@.len() ==> {
                    &&& *(#[trigger] out@[i]).0 == self@.entries[i].key
                    &&& *out@[i].1 == self@.entries[i].value
                    &&& out@[i].2 == self@.entries[i].time
                },
    {
        let mut out: Vec<(&K, &V, u128)> = Vec::new();
        let mut at = self.head.first;
        let ghost mut i: int = 0;
        while at.is_some()
            invariant
                self.wf(),
                0 <= i <= self.order@.len(),
                at == (if i < self.order@.len() {
                    Some(self.order@[i])
                } else {
                    None
                }),
                out@.len() == i,
                forall|j: int|
                    0 <= j < i ==> {
                        &&& *(#[trigger] out@[j]).0 == self@.entries[j].key
                        &&& *out@[j].1 == self@.entries[j].value
                        &&& out@[j].2 == self@.entries[j].time
                    },
            decreases self.order@.len() - i,
        {
            let s = at.unwrap();
            assert(linked(self.arena@, self.order@, i));
            let node = self.arena.get(s);
            out.push((&node.key, &node.value, node.time));
            at = node.next;
            proof {
                i = i + 1;
            }
        }
        out
    }

    /// The entry under the cursor, and the cursor moves on to the next
    /// entry. `None` when the cursor has nothing left to read. The entries
    /// themselves stay as they are.
    pub fn pop_cur(&mut self) -> (r: Option<(&K, &V)>)
        requires
            old(self).wf(),
        ensures
            final(self).wf(),
            final(self)@ == old(self)@.advance(),
            match r {
                Some((key, value)) => {
                    &&& old(self)@.at_cursor() is Some
                    &&& *key == old(self)@.at_cursor()->0.key
                    &&& *value == old(self)@.at_cursor()->0.value
                },
                None => old(self)@.at_cursor() is None,
            },
    {
        match self.cur {
            Some(c) => {
                assert(linked(self.arena@, self.order@, self.pos@ as int));
                let node = self.arena.get(c);
                self.cur = node.next;
                proof {
                    self.pos@ = self.pos@ + 1;
                }
                Some((&node.key, &node.value))
            },
            None => None,
        }
    }

    /// Links the node in slot `s`, which is not in the list, behind the
    /// newest node. An empty list gets it as its first node, and a cursor
    /// with nothing left to read moves onto it.
    fn attach(&mut self, s: usize)
        requires
            old(self).list_wf(),
            old(self).arena.live(s),
            !old(self).order@.contains(s),
        ensures
            final(self).list_wf(),
            final(self).order@ == old(self).order@.push(s),
            final(self).pos@ == old(self).pos@,
            same_payloads(old(self).arena@, final(self).arena@),
            final(self).map == old(self).map,
            final(self).clock == old(self).clock,
    {
        let ghost before = *self;
        let ghost n = before.order@.len() as int;
        if self.head.first.is_none() {
            self.head.first = Some(s);
            self.head.cur_time = self.arena.get(s).time;
        }
        if self.cur.is_none() {
            self.cur = Some(s);
        }
        match self.tail {
            None => {
                self.arena.set_pre(s, None);
            },
            Some(t) => {
                assert(linked(before.arena@, before.order@, n - 1));
                self.arena.set_next(t, Some(s));
                self.arena.set_pre(s, Some(t));
            },
        }
        self.arena.set_next(s, None);
        self.tail = Some(s);
        proof {
            self.order@ = before.order@.push(s);
            if n > 0 {
                assert(linked(before.arena@, before.order@, 0));
            }
            assert forall|i: int| 0 <= i < self.order@.len() implies #[trigger] linked(
                self.arena@,
                self.order@,
                i,
            ) by {
                if i < n {
                    assert(linked(before.arena@, before.order@, i));
                }
            }
        }
    }

    /// Unlinks the oldest node. A cursor on it moves to its successor. The
    /// header takes the time of the new oldest node, or goes back to its
    /// empty state when no node is left. Nothing happens to an empty list.
    fn detach_first(&mut self)
        requires
            old(self).list_wf(),
        ensures
            final(self).list_wf(),
            final(self).order@ == (if old(self).order@.len() > 0 {
                old(self).order@.remove(0)
            } else {
                old(self).order@
            }),
            final(self).pos@ == (if old(self).pos@ > 0 {
                (old(self).pos@ - 1) as nat
            } else {
                0
            }),
            same_payloads(old(self).arena@, final(self).arena@),
            final(self).map == old(self).map,
            final(self).clock == old(self).clock,
    {
        let ghost before = *self;
        match self.head.first {
            Some(first) => {
                assert(linked(before.arena@, before.order@, 0));
                let next = self.arena.get(first).next;
                if names(self.cur, first) {
                    self.cur = next;
                }
                self.head.first = next;
                match next {
                    Some(second) => {
                        assert(linked(before.arena@, before.order@, 1));
                        self.head.cur_time = self.arena.get(second).time;
                        self.arena.set_pre(second, None);
                    },
                    None => {
                        self.head.cur_time = 0;
                        self.cur = None;
                        self.tail = None;
                    },
                }
                proof {
                    self.order@ = before.order@.remove(0);
                    self.pos@ = if before.pos@ > 0 {
                        (before.pos@ - 1) as nat
                    } else {
                        0
                    };
                    assert forall|i: int| 0 <= i < self.order@.len() implies #[trigger] linked(
                        self.arena@,
                        self.order@,
                        i,
                    ) by {
                        assert(linked(before.arena@, before.order@, i + 1));
                    }
                }
            },
            None => {
                self.cur = None;
                self.tail = None;
            },
        }
    }

    /// Unlinks the node in slot `s` from wherever it stands in the list: its
    /// neighbours are linked to each other, the tail moves back if the node
    /// was the newest, and a cursor on the node moves to its successor. The
    /// oldest node goes the way of `detach_first`.
    fn detach(&mut self, s: usize)
        requires
            old(self).list_wf(),
            old(self).order@.contains(s),
        ensures
            final(self).list_wf(),
            final(self).order@ == old(self).order@.remove(old(self).order@.index_of(s)),
            final(self).pos@ == (if old(self).pos@ > old(self).order@.index_of(s) {
                (old(self).pos@ - 1) as nat
            } else {
                old(self).pos@
            }),
            same_payloads(old(self).arena@, final(self).arena@),
            final(self).map == old(self).map,
            final(self).clock == old(self).clock,
    {
        let ghost before = *self;
        let ghost i = before.order@.index_of(s);
        assert(0 <= i < before.order@.len() && before.order@[i] == s);
        assert(linked(before.arena@, before.order@, i));
        if names(self.head.first, s) {
            self.detach_first();
        } else {
            let node = self.arena.get(s);
            let next = node.next;
            let p = node.pre.unwrap();
            assert(linked(before.arena@, before.order@, i - 1));
            self.arena.set_next(p, next);
            match next {
                Some(n) => {
                    assert(linked(before.arena@, before.order@, i + 1));
                    self.arena.set_pre(n, Some(p));
                },
                None => {
                    self.tail = Some(p);
                },
            }
            if names(self.cur, s) {
                self.cur = next;
            }
            proof {
                assert(linked(before.arena@, before.order@, 0));
                self.order@ = before.order@.remove(i);
                self.pos@ = if before.pos@ > i {
                    (before.pos@ - 1) as nat
                } else {
                    before.pos@
                };
                assert forall|j: int| 0 <= j < self.order@.len() implies #[trigger] linked(
                    self.arena@,
                    self.order@,
                    j,
                ) by {
                    if j < i {
                        assert(linked(before.arena@, before.order@, j));
                    } else {
                        assert(linked(before.arena@, before.order@, j + 1));
                    }
                }
            }
        }
    }

    /// Empties slot `s`, whose node is no longer in the list, and hands the
    /// slot back for reuse.
    fn free_slot(&mut self, s: usize)
        requires
            old(self).list_wf(),
            old(self).arena.live(s),
            !old(self).order@.contains(s),
        ensures
            final(self).list_wf(),
            final(self).arena@ == old(self).arena@.update(s as int, None),
            final(self).order@ == old(self).order@,
            final(self).pos@ == old(self).pos@,
            final(self).map == old(self).map,
            final(self).clock == old(self).clock,
    {
        let ghost before = *self;
        let _ = self.arena.take(s);
        proof {
            assert forall|i: int| 0 <= i < self.order@.len() implies #[trigger] linked(
                self.arena@,
                self.order@,
                i,
            ) by {
                assert(linked(before.arena@, before.order@, i));
            }
            if self.order@.len() > 0 {
                assert(linked(before.arena@, before.order@, 0));
            }
        }
    }

    /// Inserts `k` with value `v` as the newest entry, inserted at time
    /// `now`. An entry that `k` had before is removed first, so that a key
    /// never has two entries: it does not keep its old place in the order.
    /// A cursor with nothing left to read moves onto the new entry.
    pub fn insert_at(&mut self, k: K, v: V, now: u128)
        requires
            old(self).wf(),
        ensures
            final(self).wf(),
            final(self)@ == old(self)@.insert(k, v, now),
    {
        proof {
            lemma_contents_valid(self.map@, self.arena@, self.order@, self.pos@);
            self@.lemma_delete(k);
        }
        self.delete(&k);
        let ghost before = *self;
        proof {
            lemma_lookup(before.map@, before.arena@, before.order@, before.pos@, k);
        }
        let s = self.arena.place(Node::new(k, v, now));
        self.map.insert(k, s);
        proof {
            assert forall|i: int| 0 <= i < self.order@.len() implies #[trigger] linked(
                self.arena@,
                self.order@,
                i,
            ) by {
                assert(linked(before.arena@, before.order@, i));
            }
            if self.order@.len() > 0 {
                assert(linked(before.arena@, before.order@, 0));
            }
            if self.order@.contains(s) {
                let i = choose|i: int| 0 <= i < self.order@.len() && self.order@[i] == s;
                assert(linked(before.arena@, before.order@, i));
            }
        }
        self.attach(s);
        proof {
            lemma_appended(
                before.map@,
                before.arena@,
                before.order@,
                before.pos@,
                self.arena@,
                s,
                Entry { key: k, value: v, time: now },
            );
        }
    }

    /// Inserts `k` with value `v` as the newest entry, stamped with the
    /// reading of the map's clock at the call; see `insert_at`.
    pub fn insert(&mut self, k: K, v: V)
        requires
            old(self).wf(),
        ensures
            final(self).wf(),
            exists|now: u128| final(self)@ == old(self)@.insert(k, v, now),
    {
        let now = self.clock.nanos();
        self.insert_at(k, v, now);
    }

    /// Removes the oldest entry. A cursor on it moves to the next entry.
    /// Nothing happens to an empty map.
    pub fn delete_first(&mut self)
        requires
            old(self).wf(),
        ensures
            final(self).wf(),
            final(self)@ == old(self)@.delete_first(),
    {
        let ghost before = *self;
        match self.head.first {
            Some(first) => {
                assert(linked(before.arena@, before.order@, 0));
                let key = self.arena.get(first).key;
                self.map.remove(&key);
                self.detach_first();
                self.free_slot(first);
                proof {
                    lemma_removed(
                        before.map@,
                        before.arena@,
                        before.order@,
                        before.pos@,
                        self.arena@,
                        0,
                    );
                }
            },
            None => {},
        }
    }

    /// Removes the entry of key `k`, wherever it stands in the order. A
    /// cursor on it moves to the next entry. Nothing happens when the map
    /// holds no such entry.
    pub fn delete(&mut self, k: &K)
        requires
            old(self).wf(),
        ensures
            final(self).wf(),
            final(self)@ == old(self)@.delete(*k),
    {
        let ghost before = *self;
        proof {
            lemma_lookup(before.map@, before.arena@, before.order@, before.pos@, *k);
        }
        let found = match self.map.get(k) {
            Some(s) => Some(*s),
            None => None,
        };
        match found {
            Some(s) => {
                let ghost i = before@.position(*k);
                self.map.remove(k);
                self.detach(s);
                self.free_slot(s);
                proof {
                    lemma_removed(
                        before.map@,
                        before.arena@,
                        before.order@,
                        before.pos@,
                        self.arena@,
                        i,
                    );
                }
            },
            None => {},
        }
    }

    /// Whether `v` would pass the conditional overwrite of `k`: true when
    /// the stored value is strictly less than `v`, and also true when the
    /// map holds no entry for `k` at all. Nothing changes.
    pub fn value_gt(&self, k: &K, v: V) -> (r: bool)
        requires
            self.wf(),
        ensures
            !self@.contains_key(*k) ==> r,
            self@.contains_key(*k) ==> lt_gives(self@.value_of(*k), v, r),
            self@.contains_key(*k) && V::obeys_partial_cmp_spec() ==> r == self@.value_of(
                *k,
            ).is_lt(&v),
    {
        match self.get(k) {
            Some(value) => *value < v,
            None => true,
        }
    }

    /// The conditional overwrite: if the value stored under `k` is strictly
    /// less than `v`, it becomes `v` and the result is true; otherwise
    /// nothing changes and the result is false. The map must hold an entry
    /// for `k`.
    pub fn value_gt_cas(&mut self, k: &K, v: V) -> (r: bool)
        requires
            old(self).wf(),
            old(self)@.contains_key(*k),
        ensures
            final(self).wf(),
            final(self)@ == (if r {
                old(self)@.with_value(*k, v)
            } else {
                old(self)@
            }),
            lt_gives(old(self)@.value_of(*k), v, r),
            V::obeys_partial_cmp_spec() ==> r == old(self)@.value_of(*k).is_lt(&v),
            V::obeys_partial_cmp_spec() ==> final(self)@ == old(self)@.gt_cas(*k, v),
    {
        proof {
            self@.lemma_with_same_value(*k);
        }
        let value = self.get_mut(k).unwrap();
        if *value < v {
            *value = v;
            true
        } else {
            false
        }
    }

    /// Inserts `k` with value `v` if the map holds no entry for `k`;
    /// otherwise overwrites the stored value on the condition that it is
    /// strictly less than `v`, and leaves order and insertion time as they
    /// are.
    pub fn insert_or_gt_cas(&mut self, k: K, v: V)
        requires
            old(self).wf(),
        ensures
            final(self).wf(),
            old(self)@.contains_key(k) ==> exists|r: bool|
                lt_gives(old(self)@.value_of(k), v, r) && final(self)@ == (if r {
                    old(self)@.with_value(k, v)
                } else {
                    old(self)@
                }),
            old(self)@.contains_key(k) && V::obeys_partial_cmp_spec() ==> final(self)@ == old(
                self,
            )@.gt_cas(k, v),
            !old(self)@.contains_key(k) ==> exists|now: u128|
                final(self)@ == old(self)@.insert(k, v, now),
    {
        if self.contains_key(&k) {
            self.value_gt_cas(&k, v);
        } else {
            self.insert(k, v);
        }
    }

    /// Removes the oldest entries for as long as they are, at `now`,
    /// strictly older than `time_out` milliseconds. The sweep stops at the
    /// first entry that is young enough and never looks behind it.
    pub fn release_timeout_at(&mut self, time_out: u64, now: u128)
        requires
            old(self).wf(),
        ensures
            final(self).wf(),
            final(self)@ == old(self)@.release(time_out, now),
    {
        let ghost start = self@;
        loop
            invariant
                self.wf(),
                self@.release(time_out, now) == start.release(time_out, now),
            ensures
                self.wf(),
                self@ == start.release(time_out, now),
            decreases self@.len(),
        {
            proof {
                self@.lemma_release_step(time_out, now);
            }
            match self.head.first {
                Some(first) => {
                    assert(linked(self.arena@, self.order@, 0));
                    let since = self.arena.get(first).time;
                    if is_expired(since, time_out, now) {
                        self.delete_first();
                    } else {
                        break ;
                    }
                },
                None => {
                    break ;
                },
            }
        }
    }

    /// Removes the oldest entries for as long as they are strictly older
    /// than `time_out` milliseconds by the map's clock, read once at the
    /// call; see `release_timeout_at`.
    pub fn release_timeout(&mut self, time_out: u64)
        requires
            old(self).wf(),
        ensures
            final(self).wf(),
            exists|now: u128| final(self)@ == old(self)@.release(time_out, now),
    {
        let now = self.clock.nanos();
        self.release_timeout_at(time_out, now);
    }
}

} // verus!
