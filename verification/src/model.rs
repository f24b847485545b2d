//! The mathematical model of an insertion-ordered map: a sequence of entries
//! in insertion order, oldest first, together with the position of the read
//! cursor. Every contract of the map is stated over this model.

use vstd::prelude::*;
use vstd::std_specs::cmp::PartialOrdIs;

verus! {

/// Nanoseconds in one millisecond.
pub const NANOS_PER_MILLI: u128 = 1_000_000;

/// One stored entry: a key, its value, and the time of its insertion in
/// nanoseconds on the clock of the map that holds it.
pub struct Entry<K, V> {
    pub key: K,
    pub value: V,
    pub time: u128,
}

/// The age at `now` of something inserted at `since`. A reading of the clock
/// that lies before the insertion gives the age zero.
pub open spec fn age(now: u128, since: u128) -> nat {
    if now >= since {
        (now - since) as nat
    } else {
        0
    }
}

/// Whether something inserted at `since` is, at `now`, strictly older than
/// `max_age_ms` milliseconds.
pub open spec fn expired(since: u128, max_age_ms: u64, now: u128) -> bool {
    age(now, since) > max_age_ms * NANOS_PER_MILLI
}

/// Whether something inserted at `since` is, at `now`, strictly older than
/// `max_age_ms` milliseconds.
pub fn is_expired(since: u128, max_age_ms: u64, now: u128) -> (yes: bool)
    ensures
        yes == expired(since, max_age_ms, now),
{
    let age: u128 = if now >= since {
        now - since
    } else {
        0
    };
    let limit: u128 = (max_age_ms as u128) * NANOS_PER_MILLI;
    age > limit
}

/// The number of leading entries of `entries` that are expired at `now`:
/// the length of the longest prefix in which every entry is expired.
pub open spec fn expired_prefix<K, V>(entries: Seq<Entry<K, V>>, max_age_ms: u64, now: u128) -> nat
    decreases entries.len(),
{
    if entries.len() > 0 && expired(entries[0].time, max_age_ms, now) {
        1 + expired_prefix(entries.skip(1), max_age_ms, now)
    } else {
        0
    }
}

/// Whether `r` is what the comparison `a < b` of the value type may give.
/// For a type whose comparison Verus knows, that is one answer and no other.
pub open spec fn lt_gives<V: PartialOrd>(a: V, b: V, r: bool) -> bool {
    call_ensures(<V as PartialOrd>::lt, (&a, &b), r)
}

/// What a map holds: its entries in insertion order, oldest first, and the
/// position of its cursor among them. A cursor equal to the number of
/// entries has nothing left to read.
#[verifier::ext_equal]
pub struct Contents<K, V> {
    pub entries: Seq<Entry<K, V>>,
    pub cursor: nat,
}

impl<K, V> Contents<K, V> {
    /// The contents of a map that was just made.
    pub open spec fn empty() -> Self {
        Contents { entries: Seq::empty(), cursor: 0 }
    }

    /// The number of entries.
    pub open spec fn len(self) -> nat {
        self.entries.len()
    }

    /// No key occurs twice, and the cursor lies within the entries or just
    /// behind them.
    pub open spec fn valid(self) -> bool {
        &&& self.cursor <= self.entries.len()
        &&& forall|i: int, j: int|
            0 <= i < self.entries.len() && 0 <= j < self.entries.len() && i != j
                ==> (#[trigger] self.entries[i]).key != (#[trigger] self.entries[j]).key
    }

    /// Whether some entry has the key `k`.
    pub open spec fn contains_key(self, k: K) -> bool {
        exists|i: int| 0 <= i < self.entries.len() && (#[trigger] self.entries[i]).key == k
    }

    /// The position of the entry with key `k`.
    pub open spec fn position(self, k: K) -> int
        recommends
            self.contains_key(k),
    {
        choose|i: int| 0 <= i < self.entries.len() && (#[trigger] self.entries[i]).key == k
    }

    /// The value stored under `k`.
    pub open spec fn value_of(self, k: K) -> V
        recommends
            self.contains_key(k),
    {
        self.entries[self.position(k)].value
    }

    /// The keys in insertion order.
    pub open spec fn keys(self) -> Seq<K> {
        Seq::new(self.entries.len(), |i: int| self.entries[i].key)
    }

    /// The contents with `e` appended as the newest entry. The cursor keeps
    /// its position: one that had nothing left to read now reads `e`.
    pub open spec fn push_back(self, e: Entry<K, V>) -> Self {
        Contents { entries: self.entries.push(e), cursor: self.cursor }
    }

    /// The contents without the entry at position `i`. A cursor on that
    /// entry moves to its successor; one behind it follows its entry.
    pub open spec fn remove_at(self, i: int) -> Self
        recommends
            0 <= i < self.entries.len(),
    {
        Contents {
            entries: self.entries.remove(i),
            cursor: if self.cursor > i {
                (self.cursor - 1) as nat
            } else {
                self.cursor
            },
        }
    }

    /// The contents without their oldest entry; unchanged when empty.
    pub open spec fn delete_first(self) -> Self {
        if self.entries.len() > 0 {
            self.remove_at(0)
        } else {
            self
        }
    }

    /// The contents without the entry of key `k`; unchanged when there is
    /// none.
    pub open spec fn delete(self, k: K) -> Self {
        if self.contains_key(k) {
            self.remove_at(self.position(k))
        } else {
            self
        }
    }

    /// The contents after inserting `k` with value `v` at time `t`: an entry
    /// that `k` had before is removed, and the new one becomes the newest.
    pub open spec fn insert(self, k: K, v: V, t: u128) -> Self {
        self.delete(k).push_back(Entry { key: k, value: v, time: t })
    }

    /// The contents with the value under `k` replaced by `v`; order, times
    /// and cursor stay.
    pub open spec fn with_value(self, k: K, v: V) -> Self
        recommends
            self.contains_key(k),
    {
        let i = self.position(k);
        Contents {
            entries: self.entries.update(
                i,
                Entry { key: self.entries[i].key, value: v, time: self.entries[i].time },
            ),
            cursor: self.cursor,
        }
    }

    /// The entry under the cursor, if the cursor has one left to read.
    pub open spec fn at_cursor(self) -> Option<Entry<K, V>> {
        if self.cursor < self.entries.len() {
            Some(self.entries[self.cursor as int])
        } else {
            None
        }
    }

    /// The contents with the cursor moved one entry on; unchanged when the
    /// cursor has nothing left to read.
    pub open spec fn advance(self) -> Self {
        if self.cursor < self.entries.len() {
            Contents { entries: self.entries, cursor: self.cursor + 1 }
        } else {
            self
        }
    }

    /// The contents without their `n` oldest entries (without all of them
    /// when there are fewer).
    pub open spec fn skip_first(self, n: nat) -> Self {
        if n <= self.entries.len() {
            Contents {
                entries: self.entries.skip(n as int),
                cursor: if self.cursor >= n {
                    (self.cursor - n) as nat
                } else {
                    0
                },
            }
        } else {
            Contents { entries: Seq::empty(), cursor: 0 }
        }
    }

    /// The contents after a sweep at `now` with the age limit `max_age_ms`:
    /// the oldest entries go as long as they are expired.
    pub open spec fn release(self, max_age_ms: u64, now: u128) -> Self {
        self.skip_first(expired_prefix(self.entries, max_age_ms, now))
    }

    /// Whether the insertion times never decrease from one entry to the next.
    pub open spec fn times_ordered(self) -> bool {
        forall|i: int, j: int|
            0 <= i <= j < self.entries.len() ==> (#[trigger] self.entries[i]).time
                <= (#[trigger] self.entries[j]).time
    }
}

impl<K, V> Contents<K, V> {
    /// Removing a position keeps contents valid, and the key that stood
    /// there is gone.
    pub proof fn lemma_remove_at(self, i: int)
        requires
            self.valid(),
            0 <= i < self.entries.len(),
        ensures
            self.remove_at(i).valid(),
            self.remove_at(i).len() == self.len() - 1,
            !self.remove_at(i).contains_key(self.entries[i].key),
            forall|k: K|
                k != self.entries[i].key ==> self.remove_at(i).contains_key(k)
                    == self.contains_key(k),
    {
        let r = self.remove_at(i);
        assert forall|a: int, b: int|
            0 <= a < r.entries.len() && 0 <= b < r.entries.len() && a != b implies (
        #[trigger] r.entries[a]).key != (#[trigger] r.entries[b]).key by {
            let a0 = if a < i {
                a
            } else {
                a + 1
            };
            let b0 = if b < i {
                b
            } else {
                b + 1
            };
            assert(r.entries[a] == self.entries[a0]);
            assert(r.entries[b] == self.entries[b0]);
        }
        if r.contains_key(self.entries[i].key) {
            let a = r.position(self.entries[i].key);
            let a0 = if a < i {
                a
            } else {
                a + 1
            };
            assert(r.entries[a] == self.entries[a0]);
            assert(false);
        }
        assert forall|k: K| k != self.entries[i].key implies r.contains_key(k)
            == self.contains_key(k) by {
            if r.contains_key(k) {
                let a = r.position(k);
                let a0 = if a < i {
                    a
                } else {
                    a + 1
                };
                assert(r.entries[a] == self.entries[a0]);
                assert(self.entries[a0].key == k);
            }
            if self.contains_key(k) {
                let a0 = self.position(k);
                let a = if a0 < i {
                    a0
                } else {
                    a0 - 1
                };
                assert(r.entries[a] == self.entries[a0]);
                assert(r.entries[a].key == k);
            }
        }
    }

    /// Deleting a key keeps contents valid and leaves no entry of that key;
    /// the other keys stay.
    pub proof fn lemma_delete(self, k: K)
        requires
            self.valid(),
        ensures
            self.delete(k).valid(),
            !self.delete(k).contains_key(k),
            forall|other: K|
                other != k ==> self.delete(k).contains_key(other) == self.contains_key(other),
            self.delete(k).len() == if self.contains_key(k) {
                self.len() - 1
            } else {
                self.len() as int
            },
    {
        if self.contains_key(k) {
            let i = self.position(k);
            self.lemma_remove_at(i);
        }
    }
}

impl<K, V> Contents<K, V> {
    /// What was inserted is found. After an insert the contents are valid,
    /// the key is there with the inserted value and time as the newest
    /// entry, and every other key is there, or not there, as before.
    pub proof fn lemma_insert(self, k: K, v: V, t: u128)
        requires
            self.valid(),
        ensures
            self.insert(k, v, t).valid(),
            self.insert(k, v, t).contains_key(k),
            self.insert(k, v, t).position(k) == self.insert(k, v, t).len() - 1,
            self.insert(k, v, t).value_of(k) == v,
            self.insert(k, v, t).entries.last() == (Entry { key: k, value: v, time: t }),
            self.insert(k, v, t).len() == if self.contains_key(k) {
                self.len()
            } else {
                self.len() + 1
            },
            forall|other: K|
                other != k ==> self.insert(k, v, t).contains_key(other) == self.contains_key(
                    other,
                ),
    {
        let d = self.delete(k);
        let r = self.insert(k, v, t);
        let last = d.entries.len() as int;
        self.lemma_delete(k);
        assert(r.entries[last].key == k);
        assert forall|a: int, b: int|
            0 <= a < r.entries.len() && 0 <= b < r.entries.len() && a != b implies (
        #[trigger] r.entries[a]).key != (#[trigger] r.entries[b]).key by {
            if a < last {
                assert(r.entries[a] == d.entries[a]);
            }
            if b < last {
                assert(r.entries[b] == d.entries[b]);
            }
        }
        assert forall|other: K| other != k implies r.contains_key(other) == self.contains_key(
            other,
        ) by {
            if r.contains_key(other) {
                let a = r.position(other);
                assert(r.entries[a] == d.entries[a]);
                assert(d.contains_key(other));
            }
            if d.contains_key(other) {
                let a = d.position(other);
                assert(r.entries[a] == d.entries[a]);
            }
        }
    }

    /// What was written is read. Replacing the value under a key keeps the
    /// contents valid and every key in its place, gives that key the new
    /// value and leaves the other values as they were.
    pub proof fn lemma_with_value(self, k: K, v: V)
        requires
            self.valid(),
            self.contains_key(k),
        ensures
            self.with_value(k, v).valid(),
            self.with_value(k, v).len() == self.len(),
            self.with_value(k, v).value_of(k) == v,
            forall|other: K|
                self.with_value(k, v).contains_key(other) == self.contains_key(other),
            forall|other: K|
                other != k && self.contains_key(other) ==> self.with_value(k, v).value_of(other)
                    == self.value_of(other),
    {
        let r = self.with_value(k, v);
        let p = self.position(k);
        assert forall|i: int| 0 <= i < r.entries.len() implies (#[trigger] r.entries[i]).key
            == self.entries[i].key by {}
        assert forall|other: K| r.contains_key(other) == self.contains_key(other) by {
            if r.contains_key(other) {
                let a = r.position(other);
                assert(self.entries[a].key == other);
            }
            if self.contains_key(other) {
                let a = self.position(other);
                assert(r.entries[a].key == other);
            }
        }
        assert forall|other: K| self.contains_key(other) implies r.position(other)
            == self.position(other) by {
            let a = self.position(other);
            let b = r.position(other);
            assert(r.entries[a].key == other);
            assert(r.entries[b].key == other);
            assert(self.entries[a].key == other);
            assert(self.entries[b].key == other);
        }
    }

    /// Removing an entry leaves the insertion times in order.
    pub proof fn lemma_remove_at_keeps_times(self, i: int)
        requires
            self.times_ordered(),
            0 <= i < self.entries.len(),
        ensures
            self.remove_at(i).times_ordered(),
    {
        let r = self.remove_at(i);
        assert forall|a: int, b: int| 0 <= a <= b < r.entries.len() implies (
        #[trigger] r.entries[a]).time <= (#[trigger] r.entries[b]).time by {
            let a0 = if a < i {
                a
            } else {
                a + 1
            };
            let b0 = if b < i {
                b
            } else {
                b + 1
            };
            assert(r.entries[a] == self.entries[a0]);
            assert(r.entries[b] == self.entries[b0]);
        }
    }

    /// Inserting at a time that is not before any insertion time in the
    /// contents leaves the insertion times in order.
    pub proof fn lemma_insert_keeps_times(self, k: K, v: V, t: u128)
        requires
            self.times_ordered(),
            forall|i: int| 0 <= i < self.entries.len() ==> (#[trigger] self.entries[i]).time <= t,
        ensures
            self.insert(k, v, t).times_ordered(),
    {
        let d = self.delete(k);
        if self.contains_key(k) {
            let p = self.position(k);
            self.lemma_remove_at_keeps_times(p);
            assert forall|i: int| 0 <= i < d.entries.len() implies (#[trigger] d.entries[i]).time
                <= t by {
                let i0 = if i < p {
                    i
                } else {
                    i + 1
                };
                assert(d.entries[i] == self.entries[i0]);
            }
        }
        let r = self.insert(k, v, t);
        assert forall|a: int, b: int| 0 <= a <= b < r.entries.len() implies (
        #[trigger] r.entries[a]).time <= (#[trigger] r.entries[b]).time by {
            if b < d.entries.len() {
                assert(r.entries[a] == d.entries[a]);
                assert(r.entries[b] == d.entries[b]);
            } else if a < d.entries.len() {
                assert(r.entries[a] == d.entries[a]);
            }
        }
    }

    /// Writing back the value that a key has changes nothing.
    pub proof fn lemma_with_same_value(self, k: K)
        requires
            self.contains_key(k),
        ensures
            self.with_value(k, self.value_of(k)) == self,
    {
        assert(self.with_value(k, self.value_of(k)).entries =~= self.entries);
    }

    /// A sweep that finds the oldest entry expired removes it and goes on
    /// with the rest; one that finds it young, or finds no entry, changes
    /// nothing.
    pub proof fn lemma_release_step(self, max_age_ms: u64, now: u128)
        ensures
            self.len() > 0 && expired(self.entries[0].time, max_age_ms, now) ==> self.release(
                max_age_ms,
                now,
            ) == self.delete_first().release(max_age_ms, now),
            !(self.len() > 0 && expired(self.entries[0].time, max_age_ms, now)) ==> self.release(
                max_age_ms,
                now,
            ) == self,
    {
        if self.len() > 0 && expired(self.entries[0].time, max_age_ms, now) {
            let rest = self.delete_first();
            let m = expired_prefix(rest.entries, max_age_ms, now);
            assert(rest.entries =~= self.entries.skip(1));
            lemma_expired_prefix_bound(rest.entries, max_age_ms, now);
            assert(self.entries.skip(1 + m as int) =~= rest.entries.skip(m as int));
            assert(self.release(max_age_ms, now) =~= rest.release(max_age_ms, now));
        } else {
            assert(self.entries.skip(0) =~= self.entries);
            assert(self.release(max_age_ms, now) =~= self);
        }
    }
}

/// The expired prefix is no longer than the sequence.
pub proof fn lemma_expired_prefix_bound<K, V>(
    entries: Seq<Entry<K, V>>,
    max_age_ms: u64,
    now: u128,
)
    ensures
        expired_prefix(entries, max_age_ms, now) <= entries.len(),
    decreases entries.len(),
{
    if entries.len() > 0 && expired(entries[0].time, max_age_ms, now) {
        lemma_expired_prefix_bound(entries.skip(1), max_age_ms, now);
    }
}

impl<K, V: PartialOrd> Contents<K, V> {
    /// The contents after a conditional overwrite: the value under `k`
    /// becomes `v` if the stored one is strictly less than `v`.
    pub open spec fn gt_cas(self, k: K, v: V) -> Self
        recommends
            self.contains_key(k),
    {
        if self.value_of(k).is_lt(&v) {
            self.with_value(k, v)
        } else {
            self
        }
    }
}

} // verus!
