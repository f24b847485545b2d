//! What it means for an arena of nodes, a header, a tail and a cursor to
//! form the list of a map, and for a hash index to match that list; and how
//! the contents that they stand for change when a node is linked, unlinked
//! or given a new value.
//!
//! Everything here speaks of plain values: the slots of the arena as a
//! sequence, the index as a map from keys to slot numbers, and the list as
//! the sequence `ord` of its slot numbers, oldest first.

use crate::model::Contents;
use crate::model::Entry;
use crate::node::Head;
use crate::node::Node;
use vstd::prelude::*;

verus! {

/// The link to the slot before position `i` of `ord`.
pub open spec fn pre_of(ord: Seq<usize>, i: int) -> Option<usize> {
    if i == 0 {
        None
    } else {
        Some(ord[i - 1])
    }
}

/// The link to the slot behind position `i` of `ord`.
pub open spec fn next_of(ord: Seq<usize>, i: int) -> Option<usize> {
    if i + 1 == ord.len() {
        None
    } else {
        Some(ord[i + 1])
    }
}

/// The entry that a slot holds, if it holds a node.
pub open spec fn payload<K, V>(slot: Option<Node<K, V>>) -> Option<Entry<K, V>> {
    match slot {
        Some(node) => Some(Entry { key: node.key, value: node.value, time: node.time }),
        None => None,
    }
}

/// Whether slot `s` of `slots` holds a node.
pub open spec fn live<K, V>(slots: Seq<Option<Node<K, V>>>, s: usize) -> bool {
    s < slots.len() && slots[s as int] is Some
}

/// The slot at position `i` of the list `ord` holds a node, and that node
/// names its neighbours in `ord`.
pub open spec fn linked<K, V>(slots: Seq<Option<Node<K, V>>>, ord: Seq<usize>, i: int) -> bool {
    &&& live(slots, ord[i])
    &&& slots[ord[i] as int]->0.pre == pre_of(ord, i)
    &&& slots[ord[i] as int]->0.next == next_of(ord, i)
}

/// The links in `slots`, the header, the tail and the cursor describe the
/// list `ord` with the cursor at position `pos`.
pub open spec fn list_ok<K, V>(
    slots: Seq<Option<Node<K, V>>>,
    head: Head,
    cur: Option<usize>,
    tail: Option<usize>,
    ord: Seq<usize>,
    pos: nat,
) -> bool {
    &&& ord.no_duplicates()
    &&& forall|i: int| 0 <= i < ord.len() ==> #[trigger] linked(slots, ord, i)
    &&& head.first == (if ord.len() == 0 {
        None
    } else {
        Some(ord[0])
    })
    &&& head.cur_time == (if ord.len() == 0 {
        0
    } else {
        slots[ord[0] as int]->0.time
    })
    &&& tail == (if ord.len() == 0 {
        None
    } else {
        Some(ord[ord.len() - 1])
    })
    &&& pos <= ord.len()
    &&& cur == (if pos < ord.len() {
        Some(ord[pos as int])
    } else {
        None
    })
}

/// Every node in `slots` is in the list `ord`.
pub open spec fn accounted<K, V>(slots: Seq<Option<Node<K, V>>>, ord: Seq<usize>) -> bool {
    forall|s: usize| #[trigger] live(slots, s) ==> ord.contains(s)
}

/// The key of the node at position `i` of the list `ord`.
pub open spec fn key_at<K, V>(slots: Seq<Option<Node<K, V>>>, ord: Seq<usize>, i: int) -> K {
    slots[ord[i] as int]->0.key
}

/// The entry at position `i` of the list `ord`.
pub open spec fn entry_at<K, V>(slots: Seq<Option<Node<K, V>>>, ord: Seq<usize>, i: int) -> Entry<
    K,
    V,
> {
    payload(slots[ord[i] as int])->0
}

/// The index `index` holds exactly the keys of the list `ord`, each with the
/// slot of its node.
pub open spec fn index_ok<K, V>(
    index: Map<K, usize>,
    slots: Seq<Option<Node<K, V>>>,
    ord: Seq<usize>,
) -> bool {
    &&& index.dom().finite()
    &&& index.dom().len() == ord.len()
    &&& forall|i: int| 0 <= i < ord.len() ==> live(slots, #[trigger] ord[i])
    &&& forall|i: int|
        0 <= i < ord.len() ==> index.contains_key(#[trigger] key_at(slots, ord, i)) && index[key_at(
            slots,
            ord,
            i,
        )] == ord[i]
    &&& forall|k: K| #[trigger]
        index.contains_key(k) ==> ord.contains(index[k]) && slots[index[k] as int]->0.key == k
}

/// The contents that the list `ord` with the cursor at `pos` stands for.
pub open spec fn contents_of<K, V>(
    slots: Seq<Option<Node<K, V>>>,
    ord: Seq<usize>,
    pos: nat,
) -> Contents<K, V> {
    Contents { entries: Seq::new(ord.len(), |i: int| entry_at(slots, ord, i)), cursor: pos }
}

/// `after` has the slots of `before` and holds in each the entry that
/// `before` holds there; only links may differ.
pub open spec fn same_payloads<K, V>(
    before: Seq<Option<Node<K, V>>>,
    after: Seq<Option<Node<K, V>>>,
) -> bool {
    &&& before.len() == after.len()
    &&& forall|s: int| 0 <= s < before.len() ==> payload(#[trigger] after[s]) == payload(before[s])
}

/// Where the index matches a list without repeated slots, no key occurs
/// twice in the contents.
pub proof fn lemma_contents_valid<K, V>(
    index: Map<K, usize>,
    slots: Seq<Option<Node<K, V>>>,
    ord: Seq<usize>,
    pos: nat,
)
    requires
        index_ok(index, slots, ord),
        ord.no_duplicates(),
        pos <= ord.len(),
    ensures
        contents_of(slots, ord, pos).valid(),
{
    let c = contents_of(slots, ord, pos);
    assert forall|i: int, j: int|
        0 <= i < c.entries.len() && 0 <= j < c.entries.len() && i != j implies (
    #[trigger] c.entries[i]).key != (#[trigger] c.entries[j]).key by {
        assert(c.entries[i].key == key_at(slots, ord, i));
        assert(c.entries[j].key == key_at(slots, ord, j));
        assert(index[key_at(slots, ord, i)] == ord[i]);
        assert(index[key_at(slots, ord, j)] == ord[j]);
    }
}

/// The contents and the index agree on which keys are there, and the index
/// leads to the position that the contents give.
pub proof fn lemma_lookup<K, V>(
    index: Map<K, usize>,
    slots: Seq<Option<Node<K, V>>>,
    ord: Seq<usize>,
    pos: nat,
    k: K,
)
    requires
        index_ok(index, slots, ord),
        ord.no_duplicates(),
        pos <= ord.len(),
    ensures
        contents_of(slots, ord, pos).contains_key(k) == index.contains_key(k),
        index.contains_key(k) ==> {
            let i = contents_of(slots, ord, pos).position(k);
            &&& 0 <= i < ord.len()
            &&& ord[i] == index[k]
            &&& ord.index_of(index[k]) == i
            &&& key_at(slots, ord, i) == k
            &&& entry_at(slots, ord, i).key == k
            &&& live(slots, index[k])
        },
{
    let c = contents_of(slots, ord, pos);
    lemma_contents_valid(index, slots, ord, pos);
    if index.contains_key(k) {
        let s = index[k];
        assert(ord.contains(s));
        let i = choose|i: int| 0 <= i < ord.len() && ord[i] == s;
        assert(key_at(slots, ord, i) == k);
        assert(c.entries[i].key == k);
        assert(c.contains_key(k));
    }
    if c.contains_key(k) {
        let i = c.position(k);
        assert(c.entries[i].key == k);
        assert(key_at(slots, ord, i) == k);
        assert(index.contains_key(key_at(slots, ord, i)));
        let i2 = ord.index_of(index[k]);
        assert(ord[i] == index[k]);
        assert(0 <= i2 < ord.len() && ord[i2] == index[k]);
    }
}

/// Taking position `i` out of the list, its key out of the index and its
/// node out of its slot, with every other slot keeping its entry, gives the
/// contents without the entry at position `i`.
pub proof fn lemma_removed<K, V>(
    index: Map<K, usize>,
    slots: Seq<Option<Node<K, V>>>,
    ord: Seq<usize>,
    pos: nat,
    slots2: Seq<Option<Node<K, V>>>,
    i: int,
)
    requires
        index_ok(index, slots, ord),
        accounted(slots, ord),
        ord.no_duplicates(),
        pos <= ord.len(),
        0 <= i < ord.len(),
        slots2.len() == slots.len(),
        ord[i] < slots.len(),
        slots2[ord[i] as int] is None,
        forall|s: int|
            0 <= s < slots.len() && s != ord[i] ==> payload(#[trigger] slots2[s]) == payload(
                slots[s],
            ),
    ensures
        index_ok(index.remove(key_at(slots, ord, i)), slots2, ord.remove(i)),
        accounted(slots2, ord.remove(i)),
        contents_of(
            slots2,
            ord.remove(i),
            if pos > i {
                (pos - 1) as nat
            } else {
                pos
            },
        ) == contents_of(slots, ord, pos).remove_at(i),
{
    let ord2 = ord.remove(i);
    let index2 = index.remove(key_at(slots, ord, i));
    let c = contents_of(slots, ord, pos);
    lemma_contents_valid(index, slots, ord, pos);
    assert forall|j: int| 0 <= j < ord2.len() implies key_at(slots2, ord2, j) == key_at(
        slots,
        ord,
        if j < i {
            j
        } else {
            j + 1
        },
    ) && entry_at(slots2, ord2, j) == entry_at(
        slots,
        ord,
        if j < i {
            j
        } else {
            j + 1
        },
    ) by {
        let j0 = if j < i {
            j
        } else {
            j + 1
        };
        assert(ord2[j] == ord[j0]);
        assert(ord[j0] != ord[i]);
        assert(index[key_at(slots, ord, j0)] == ord[j0]);
        assert(ord.contains(ord[j0]));
        assert(payload(slots2[ord[j0] as int]) == payload(slots[ord[j0] as int]));
    }
    assert forall|s: usize| #[trigger] live(slots2, s) implies ord2.contains(s) by {
        assert(s != ord[i]);
        assert(payload(slots2[s as int]) == payload(slots[s as int]));
        assert(live(slots, s));
        assert(ord.contains(s));
        let j0 = choose|j0: int| 0 <= j0 < ord.len() && ord[j0] == s;
        let j = if j0 < i {
            j0
        } else {
            j0 - 1
        };
        assert(ord2[j] == s);
    }
    assert(index.contains_key(key_at(slots, ord, i)));
    assert forall|j: int| 0 <= j < ord2.len() implies live(slots2, #[trigger] ord2[j]) by {
        let j0 = if j < i {
            j
        } else {
            j + 1
        };
        assert(ord2[j] == ord[j0]);
        assert(payload(slots2[ord[j0] as int]) == payload(slots[ord[j0] as int]));
    }
    assert forall|j: int| 0 <= j < ord2.len() implies index2.contains_key(
        #[trigger] key_at(slots2, ord2, j),
    ) && index2[key_at(slots2, ord2, j)] == ord2[j] by {
        let j0 = if j < i {
            j
        } else {
            j + 1
        };
        assert(key_at(slots2, ord2, j) == key_at(slots, ord, j0));
        assert(c.entries[j0].key == key_at(slots, ord, j0));
        assert(c.entries[i].key == key_at(slots, ord, i));
        assert(index[key_at(slots, ord, j0)] == ord[j0]);
    }
    assert forall|k: K| #[trigger] index2.contains_key(k) implies ord2.contains(index2[k])
        && slots2[index2[k] as int]->0.key == k by {
        assert(index.contains_key(k));
        let s = index[k];
        assert(ord.contains(s));
        let j0 = choose|j0: int| 0 <= j0 < ord.len() && ord[j0] == s;
        assert(key_at(slots, ord, j0) == k);
        assert(j0 != i);
        let j = if j0 < i {
            j0
        } else {
            j0 - 1
        };
        assert(ord2[j] == s);
        assert(payload(slots2[s as int]) == payload(slots[s as int]));
        assert(index[key_at(slots, ord, j0)] == ord[j0]);
    }
    assert(contents_of(
        slots2,
        ord2,
        if pos > i {
            (pos - 1) as nat
        } else {
            pos
        },
    ).entries =~= c.remove_at(i).entries);
}

/// Putting a node with a new key into the vacant slot `s`, the slot at the
/// end of the list and the key into the index, with every other slot keeping
/// its entry, gives the contents with the node's entry appended.
pub proof fn lemma_appended<K, V>(
    index: Map<K, usize>,
    slots: Seq<Option<Node<K, V>>>,
    ord: Seq<usize>,
    pos: nat,
    slots2: Seq<Option<Node<K, V>>>,
    s: usize,
    e: Entry<K, V>,
)
    requires
        index_ok(index, slots, ord),
        accounted(slots, ord),
        ord.no_duplicates(),
        pos <= ord.len(),
        !index.contains_key(e.key),
        !live(slots, s),
        s < slots2.len(),
        slots.len() <= slots2.len() <= slots.len() + 1,
        s < slots.len() ==> slots2.len() == slots.len(),
        payload(slots2[s as int]) == Some(e),
        forall|t: int|
            0 <= t < slots.len() && t != s ==> payload(#[trigger] slots2[t]) == payload(slots[t]),
    ensures
        index_ok(index.insert(e.key, s), slots2, ord.push(s)),
        accounted(slots2, ord.push(s)),
        ord.push(s).no_duplicates(),
        contents_of(slots2, ord.push(s), pos) == contents_of(slots, ord, pos).push_back(e),
{
    let ord2 = ord.push(s);
    let index2 = index.insert(e.key, s);
    let n = ord.len() as int;
    assert forall|j: int| 0 <= j < n implies ord[j] != s && live(slots2, ord[j]) && key_at(
        slots2,
        ord2,
        j,
    ) == key_at(slots, ord, j) && entry_at(slots2, ord2, j) == entry_at(slots, ord, j) by {
        assert(live(slots, ord[j]));
        assert(payload(slots2[ord[j] as int]) == payload(slots[ord[j] as int]));
    }
    assert forall|j: int| 0 <= j < ord2.len() implies live(slots2, #[trigger] ord2[j]) by {
        if j < n {
            assert(ord2[j] == ord[j]);
        }
    }
    assert forall|t: usize| #[trigger] live(slots2, t) implies ord2.contains(t) by {
        if t == s {
            assert(ord2[n] == s);
        } else {
            assert(payload(slots2[t as int]) == payload(slots[t as int]));
            assert(live(slots, t));
            assert(ord.contains(t));
            let j = choose|j: int| 0 <= j < ord.len() && ord[j] == t;
            assert(ord2[j] == t);
        }
    }
    assert forall|j: int| 0 <= j < ord2.len() implies index2.contains_key(
        #[trigger] key_at(slots2, ord2, j),
    ) && index2[key_at(slots2, ord2, j)] == ord2[j] by {
        if j < n {
            assert(key_at(slots2, ord2, j) == key_at(slots, ord, j));
            assert(index[key_at(slots, ord, j)] == ord[j]);
        }
    }
    assert forall|k: K| #[trigger] index2.contains_key(k) implies ord2.contains(index2[k])
        && slots2[index2[k] as int]->0.key == k by {
        if k == e.key {
            assert(ord2[n] == s);
        } else {
            assert(index.contains_key(k));
            let t = index[k];
            assert(ord.contains(t));
            let j = choose|j: int| 0 <= j < ord.len() && ord[j] == t;
            assert(ord2[j] == t);
            assert(payload(slots2[t as int]) == payload(slots[t as int]));
        }
    }
    assert(contents_of(slots2, ord2, pos).entries =~= contents_of(slots, ord, pos).push_back(
        e,
    ).entries);
}

/// Whether `after` is `before` with nothing changed but the value of the
/// node in slot `s`.
pub open spec fn value_changed<K, V>(
    before: Seq<Option<Node<K, V>>>,
    after: Seq<Option<Node<K, V>>>,
    s: usize,
) -> bool {
    &&& live(before, s)
    &&& after == before.update(
        s as int,
        Some(
            Node {
                key: before[s as int]->0.key,
                value: after[s as int]->0.value,
                time: before[s as int]->0.time,
                pre: before[s as int]->0.pre,
                next: before[s as int]->0.next,
            },
        ),
    )
}

/// Changing the value of one node changes the value of its entry and
/// nothing else.
pub proof fn lemma_value_changed<K, V>(
    index: Map<K, usize>,
    slots: Seq<Option<Node<K, V>>>,
    head: Head,
    cur: Option<usize>,
    tail: Option<usize>,
    ord: Seq<usize>,
    pos: nat,
    slots2: Seq<Option<Node<K, V>>>,
    k: K,
)
    requires
        list_ok(slots, head, cur, tail, ord, pos),
        index_ok(index, slots, ord),
        accounted(slots, ord),
        index.contains_key(k),
        value_changed(slots, slots2, index[k]),
    ensures
        list_ok(slots2, head, cur, tail, ord, pos),
        index_ok(index, slots2, ord),
        accounted(slots2, ord),
        contents_of(slots2, ord, pos) == contents_of(slots, ord, pos).with_value(
            k,
            slots2[index[k] as int]->0.value,
        ),
{
    let s = index[k];
    let c = contents_of(slots, ord, pos);
    lemma_lookup(index, slots, ord, pos, k);
    let i = c.position(k);
    assert forall|j: int| 0 <= j < ord.len() implies #[trigger] linked(slots2, ord, j) by {
        assert(linked(slots, ord, j));
    }
    if ord.len() > 0 {
        assert(linked(slots, ord, 0));
    }
    assert forall|j: int| 0 <= j < ord.len() implies live(slots2, #[trigger] ord[j]) by {
        assert(live(slots, ord[j]));
    }
    assert forall|j: int| 0 <= j < ord.len() implies key_at(slots2, ord, j) == key_at(
        slots,
        ord,
        j,
    ) by {
        assert(live(slots, ord[j]));
    }
    assert forall|j: int| 0 <= j < ord.len() implies index.contains_key(
        #[trigger] key_at(slots2, ord, j),
    ) && index[key_at(slots2, ord, j)] == ord[j] by {
        assert(key_at(slots2, ord, j) == key_at(slots, ord, j));
        assert(index[key_at(slots, ord, j)] == ord[j]);
    }
    assert forall|t: usize| #[trigger] live(slots2, t) implies ord.contains(t) by {
        assert(live(slots, t));
    }
    assert forall|j: int| 0 <= j < ord.len() implies entry_at(slots2, ord, j) == c.with_value(
        k,
        slots2[s as int]->0.value,
    ).entries[j] by {
        assert(live(slots, ord[j]));
        if j != i {
            assert(ord[j] != ord[i]);
        }
    }
    assert(contents_of(slots2, ord, pos).entries =~= c.with_value(
        k,
        slots2[s as int]->0.value,
    ).entries);
}

/// The entries met on the way from the link `from` along the `next` links,
/// until a link names no node or `fuel` nodes were met.
pub open spec fn walk_next<K, V>(
    slots: Seq<Option<Node<K, V>>>,
    from: Option<usize>,
    fuel: nat,
) -> Seq<Entry<K, V>>
    decreases fuel,
{
    if fuel > 0 && from is Some && live(slots, from->0) {
        seq![payload(slots[from->0 as int])->0] + walk_next(
            slots,
            slots[from->0 as int]->0.next,
            (fuel - 1) as nat,
        )
    } else {
        Seq::empty()
    }
}

/// The entries met on the way from the link `from` along the `pre` links,
/// until a link names no node or `fuel` nodes were met.
pub open spec fn walk_pre<K, V>(
    slots: Seq<Option<Node<K, V>>>,
    from: Option<usize>,
    fuel: nat,
) -> Seq<Entry<K, V>>
    decreases fuel,
{
    if fuel > 0 && from is Some && live(slots, from->0) {
        seq![payload(slots[from->0 as int])->0] + walk_pre(
            slots,
            slots[from->0 as int]->0.pre,
            (fuel - 1) as nat,
        )
    } else {
        Seq::empty()
    }
}

/// Slot numbers below `n`, none of them twice, are at most `n` many.
pub proof fn lemma_slots_bound(ord: Seq<usize>, n: nat)
    requires
        ord.no_duplicates(),
        forall|i: int| 0 <= i < ord.len() ==> (#[trigger] ord[i]) < n,
    ensures
        ord.len() <= n,
    decreases n,
{
    if ord.len() > 0 {
        if n == 0 {
            assert(ord[0] < n);
        } else if exists|i: int| 0 <= i < ord.len() && ord[i] == n - 1 {
            let i = choose|i: int| 0 <= i < ord.len() && ord[i] == n - 1;
            let rest = ord.remove(i);
            assert forall|j: int| 0 <= j < rest.len() implies (#[trigger] rest[j]) < n - 1 by {
                let j0 = if j < i {
                    j
                } else {
                    j + 1
                };
                assert(rest[j] == ord[j0]);
                assert(ord[j0] < n);
            }
            assert forall|a: int, b: int|
                0 <= a < rest.len() && 0 <= b < rest.len() && a != b implies rest[a] != rest[b] by {
                let a0 = if a < i {
                    a
                } else {
                    a + 1
                };
                let b0 = if b < i {
                    b
                } else {
                    b + 1
                };
                assert(rest[a] == ord[a0] && rest[b] == ord[b0]);
            }
            lemma_slots_bound(rest, (n - 1) as nat);
        } else {
            assert forall|j: int| 0 <= j < ord.len() implies (#[trigger] ord[j]) < n - 1 by {
                assert(ord[j] < n);
            }
            lemma_slots_bound(ord, (n - 1) as nat);
        }
    }
}

/// Following `next` from position `i` of a well-linked list meets the
/// entries from position `i` to the end, in list order.
pub proof fn lemma_walk_next<K, V>(
    slots: Seq<Option<Node<K, V>>>,
    ord: Seq<usize>,
    i: int,
    fuel: nat,
)
    requires
        forall|j: int| 0 <= j < ord.len() ==> #[trigger] linked(slots, ord, j),
        0 <= i <= ord.len(),
        fuel >= ord.len() - i,
    ensures
        walk_next(
            slots,
            if i < ord.len() {
                Some(ord[i])
            } else {
                None
            },
            fuel,
        ) == Seq::new((ord.len() - i) as nat, |j: int| entry_at(slots, ord, i + j)),
    decreases ord.len() - i,
{
    let want = Seq::new((ord.len() - i) as nat, |j: int| entry_at(slots, ord, i + j));
    if i < ord.len() {
        assert(linked(slots, ord, i));
        lemma_walk_next(slots, ord, i + 1, (fuel - 1) as nat);
        let rest = Seq::new((ord.len() - i - 1) as nat, |j: int| entry_at(slots, ord, i + 1 + j));
        assert(seq![entry_at(slots, ord, i)] + rest =~= want);
    } else {
        assert(want =~= Seq::empty());
    }
}

/// Following `pre` from position `i` of a well-linked list meets the
/// entries from position `i` back to the first, in reverse list order.
pub proof fn lemma_walk_pre<K, V>(
    slots: Seq<Option<Node<K, V>>>,
    ord: Seq<usize>,
    i: int,
    fuel: nat,
)
    requires
        forall|j: int| 0 <= j < ord.len() ==> #[trigger] linked(slots, ord, j),
        -1 <= i < ord.len(),
        fuel >= i + 1,
    ensures
        walk_pre(
            slots,
            if i >= 0 {
                Some(ord[i])
            } else {
                None
            },
            fuel,
        ) == Seq::new((i + 1) as nat, |j: int| entry_at(slots, ord, i - j)),
    decreases i + 1,
{
    let want = Seq::new((i + 1) as nat, |j: int| entry_at(slots, ord, i - j));
    if i >= 0 {
        assert(linked(slots, ord, i));
        lemma_walk_pre(slots, ord, i - 1, (fuel - 1) as nat);
        let rest = Seq::new(i as nat, |j: int| entry_at(slots, ord, i - 1 - j));
        assert(seq![entry_at(slots, ord, i)] + rest =~= want);
    } else {
        assert(want =~= Seq::empty());
    }
}

} // verus!
