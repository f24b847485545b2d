//! Laws of the model that relate several operations: what a run of inserts,
//! of removals of the oldest entry, of reads through the cursor, and what a
//! sweep by age leave behind.

use crate::model::expired;
use crate::model::expired_prefix;
use crate::model::lemma_expired_prefix_bound;
use crate::model::Contents;
use crate::model::Entry;
use vstd::prelude::*;

verus! {

/// The contents after inserting `items` into `c` one after the other, the
/// first item first.
pub open spec fn insert_all<K, V>(c: Contents<K, V>, items: Seq<Entry<K, V>>) -> Contents<K, V>
    decreases items.len(),
{
    if items.len() == 0 {
        c
    } else {
        insert_all(c, items.drop_last()).insert(
            items.last().key,
            items.last().value,
            items.last().time,
        )
    }
}

/// The contents after removing the oldest entry `n` times.
pub open spec fn delete_first_n<K, V>(c: Contents<K, V>, n: nat) -> Contents<K, V>
    decreases n,
{
    if n == 0 {
        c
    } else {
        delete_first_n(c, (n - 1) as nat).delete_first()
    }
}

/// The contents after reading through the cursor `n` times.
pub open spec fn advance_n<K, V>(c: Contents<K, V>, n: nat) -> Contents<K, V>
    decreases n,
{
    if n == 0 {
        c
    } else {
        advance_n(c, (n - 1) as nat).advance()
    }
}

/// No two of `items` have the same key.
pub open spec fn distinct_keys<K, V>(items: Seq<Entry<K, V>>) -> bool {
    forall|i: int, j: int|
        0 <= i < items.len() && 0 <= j < items.len() && i != j ==> (#[trigger] items[i]).key != (
        #[trigger] items[j]).key
}

/// Inserting a key that the contents do not hold appends its entry and
/// touches nothing else.
pub proof fn lemma_insert_fresh<K, V>(c: Contents<K, V>, k: K, v: V, t: u128)
    requires
        !c.contains_key(k),
    ensures
        c.insert(k, v, t).entries == c.entries.push(Entry { key: k, value: v, time: t }),
        c.insert(k, v, t).cursor == c.cursor,
{
}

/// Inserts alone keep the order of insertion. After entries with pairwise
/// different keys, none of them in `c`, were inserted into `c` one after the
/// other, the contents are those of `c` followed by the new entries in the
/// order in which they were inserted, and the cursor has not moved.
pub proof fn lemma_inserts_keep_order<K, V>(c: Contents<K, V>, items: Seq<Entry<K, V>>)
    requires
        distinct_keys(items),
        forall|i: int| 0 <= i < items.len() ==> !c.contains_key((#[trigger] items[i]).key),
    ensures
        insert_all(c, items).entries == c.entries + items,
        insert_all(c, items).cursor == c.cursor,
    decreases items.len(),
{
    if items.len() == 0 {
        assert(c.entries + items =~= c.entries);
    } else {
        let init = items.drop_last();
        let e = items.last();
        assert forall|i: int| 0 <= i < init.len() implies !c.contains_key(
            (#[trigger] init[i]).key,
        ) by {
            assert(init[i] == items[i]);
        }
        assert(distinct_keys(init)) by {
            assert forall|i: int, j: int|
                0 <= i < init.len() && 0 <= j < init.len() && i != j implies (
            #[trigger] init[i]).key != (#[trigger] init[j]).key by {
                assert(init[i] == items[i] && init[j] == items[j]);
            }
        }
        lemma_inserts_keep_order(c, init);
        let mid = insert_all(c, init);
        assert(mid.entries == c.entries + init);
        if mid.contains_key(e.key) {
            let p = mid.position(e.key);
            assert(mid.entries[p].key == e.key);
            if p < c.entries.len() {
                assert(mid.entries[p] == c.entries[p]);
                assert(c.contains_key(e.key));
                assert(items[items.len() - 1] == e);
            } else {
                assert(mid.entries[p] == init[p - c.entries.len()]);
                assert(init[p - c.entries.len()] == items[p - c.entries.len()]);
                assert(items[items.len() - 1] == e);
            }
            assert(false);
        }
        lemma_insert_fresh(mid, e.key, e.value, e.time);
        assert(c.entries + items =~= (c.entries + init).push(e));
    }
}

/// Inserts into an empty map, with pairwise different keys and nothing
/// removed in between: a traversal yields the keys exactly in the order of
/// their insertion.
pub proof fn lemma_traversal_is_insertion_order<K, V>(items: Seq<Entry<K, V>>)
    requires
        distinct_keys(items),
    ensures
        insert_all(Contents::empty(), items).entries == items,
        insert_all(Contents::empty(), items).keys() == Seq::new(
            items.len(),
            |i: int| items[i].key,
        ),
{
    let c = Contents::<K, V>::empty();
    lemma_inserts_keep_order(c, items);
    assert(c.entries + items =~= items);
    assert(insert_all(c, items).keys() =~= Seq::new(items.len(), |i: int| items[i].key));
}

/// Removing the oldest entry again and again takes the entries in the order
/// of their insertion, none skipped and none twice: after `n` removals
/// exactly the `n` oldest entries are gone, and the removal that comes next
/// takes the entry that stood at position `n`.
pub proof fn lemma_delete_first_in_order<K, V>(c: Contents<K, V>, n: nat)
    requires
        c.cursor <= c.len(),
    ensures
        delete_first_n(c, n) == c.skip_first(n),
        n <= c.len() ==> delete_first_n(c, n).entries == c.entries.skip(n as int),
        n < c.len() ==> delete_first_n(c, n).entries[0] == c.entries[n as int],
        n >= c.len() ==> delete_first_n(c, n).entries == Seq::<Entry<K, V>>::empty(),
    decreases n,
{
    if n == 0 {
        assert(c.entries.skip(0) =~= c.entries);
        assert(c.skip_first(0) =~= c);
    } else {
        let m = (n - 1) as nat;
        lemma_delete_first_in_order(c, m);
        let mid = delete_first_n(c, m);
        if m < c.len() {
            assert(mid.entries.remove(0) =~= c.entries.skip(n as int));
            assert(mid.delete_first() =~= c.skip_first(n));
        } else {
            assert(mid.delete_first() =~= c.skip_first(n));
        }
        if n <= c.len() && n >= c.len() {
            assert(c.entries.skip(n as int) =~= Seq::<Entry<K, V>>::empty());
        }
    }
}

/// A sweep removes a prefix of the entries and only expired ones, and it
/// stops at the first entry that is not expired.
pub proof fn lemma_release_prefix<K, V>(c: Contents<K, V>, max_age_ms: u64, now: u128)
    ensures
        expired_prefix(c.entries, max_age_ms, now) <= c.len(),
        c.release(max_age_ms, now).entries == c.entries.skip(
            expired_prefix(c.entries, max_age_ms, now) as int,
        ),
        forall|i: int|
            0 <= i < expired_prefix(c.entries, max_age_ms, now) ==> expired(
                (#[trigger] c.entries[i]).time,
                max_age_ms,
                now,
            ),
        expired_prefix(c.entries, max_age_ms, now) < c.len() ==> !expired(
            c.entries[expired_prefix(c.entries, max_age_ms, now) as int].time,
            max_age_ms,
            now,
        ),
    decreases c.entries.len(),
{
    lemma_expired_prefix_bound(c.entries, max_age_ms, now);
    if c.entries.len() > 0 && expired(c.entries[0].time, max_age_ms, now) {
        let rest = Contents { entries: c.entries.skip(1), cursor: 0 };
        lemma_release_prefix(rest, max_age_ms, now);
        let m = expired_prefix(rest.entries, max_age_ms, now);
        assert forall|i: int| 0 <= i < 1 + m implies expired(
            (#[trigger] c.entries[i]).time,
            max_age_ms,
            now,
        ) by {
            if i > 0 {
                assert(rest.entries[i - 1] == c.entries[i]);
            }
        }
        if 1 + m < c.len() {
            assert(rest.entries[m as int] == c.entries[1 + m as int]);
        }
    }
}

/// The sweep by age. Where the entries were inserted at times that never
/// decrease, a sweep at `now` with the age limit `max_age_ms` removes a
/// prefix of the entries without a gap; every entry that it removed was
/// older than the limit, and every entry that it left is not.
pub proof fn lemma_release_correct<K, V>(c: Contents<K, V>, max_age_ms: u64, now: u128)
    requires
        c.times_ordered(),
    ensures
        expired_prefix(c.entries, max_age_ms, now) <= c.len(),
        c.release(max_age_ms, now).entries == c.entries.skip(
            expired_prefix(c.entries, max_age_ms, now) as int,
        ),
        forall|i: int|
            0 <= i < expired_prefix(c.entries, max_age_ms, now) ==> expired(
                (#[trigger] c.entries[i]).time,
                max_age_ms,
                now,
            ),
        forall|j: int|
            0 <= j < c.release(max_age_ms, now).len() ==> !expired(
                (#[trigger] c.release(max_age_ms, now).entries[j]).time,
                max_age_ms,
                now,
            ),
{
    lemma_release_prefix(c, max_age_ms, now);
    let n = expired_prefix(c.entries, max_age_ms, now);
    let r = c.release(max_age_ms, now);
    assert forall|j: int| 0 <= j < r.len() implies !expired(
        (#[trigger] r.entries[j]).time,
        max_age_ms,
        now,
    ) by {
        assert(r.entries[j] == c.entries[n + j]);
        assert(c.entries[n as int].time <= c.entries[n + j].time);
    }
}

/// The insertion times of `items` grow strictly from each to the next.
pub open spec fn increasing_times<K, V>(items: Seq<Entry<K, V>>) -> bool {
    forall|i: int, j: int|
        0 <= i < j < items.len() ==> (#[trigger] items[i]).time < (#[trigger] items[j]).time
}

/// The sweep by age after inserts. Entries with pairwise different keys are
/// inserted into an empty map at times that grow from each to the next, and
/// the map is then swept at `now` with the age limit `max_age_ms`. What is
/// left is the entries without a prefix; every entry of that prefix was
/// older than the limit, and no entry that is left is.
pub proof fn lemma_sweep_after_inserts<K, V>(items: Seq<Entry<K, V>>, max_age_ms: u64, now: u128)
    requires
        distinct_keys(items),
        increasing_times(items),
    ensures
        expired_prefix(items, max_age_ms, now) <= items.len(),
        insert_all(Contents::empty(), items).release(max_age_ms, now).entries == items.skip(
            expired_prefix(items, max_age_ms, now) as int,
        ),
        forall|i: int|
            0 <= i < expired_prefix(items, max_age_ms, now) ==> expired(
                (#[trigger] items[i]).time,
                max_age_ms,
                now,
            ),
        forall|j: int|
            expired_prefix(items, max_age_ms, now) <= j < items.len() ==> !expired(
                (#[trigger] items[j]).time,
                max_age_ms,
                now,
            ),
{
    let c = insert_all(Contents::<K, V>::empty(), items);
    lemma_traversal_is_insertion_order(items);
    lemma_release_correct(c, max_age_ms, now);
    let n = expired_prefix(items, max_age_ms, now);
    let swept = c.release(max_age_ms, now);
    assert forall|j: int| n <= j < items.len() implies !expired(
        (#[trigger] items[j]).time,
        max_age_ms,
        now,
    ) by {
        assert(swept.entries[j - n] == items[j]);
    }
}

/// Reads through the cursor. `n` reads in a row, with no insert or removal
/// in between, leave the entries as they are and move the cursor `n` entries
/// on, or to the end if fewer are left; and the read that follows `i` reads
/// gives the entry `i` places behind the cursor's first position, or nothing
/// if the entries end before.
pub proof fn lemma_cursor_reads_in_order<K, V>(c: Contents<K, V>, n: nat)
    requires
        c.cursor <= c.len(),
    ensures
        advance_n(c, n).entries == c.entries,
        advance_n(c, n).cursor == (if c.cursor + n <= c.len() {
            c.cursor + n
        } else {
            c.len()
        }),
        advance_n(c, n).at_cursor() == (if c.cursor + n < c.len() {
            Some(c.entries[c.cursor as int + n as int])
        } else {
            None
        }),
    decreases n,
{
    if n > 0 {
        lemma_cursor_reads_in_order(c, (n - 1) as nat);
    }
}

/// From a cursor on the oldest entry, the first `n` reads give the first
/// `n` entries in list order.
pub proof fn lemma_cursor_reads_first_entries<K, V>(c: Contents<K, V>, n: nat)
    requires
        c.cursor == 0,
        n <= c.len(),
    ensures
        forall|i: nat|
            i < n ==> (#[trigger] advance_n(c, i)).at_cursor() == Some(c.entries[i as int]),
        advance_n(c, n).entries == c.entries,
{
    assert forall|i: nat| i < n implies (#[trigger] advance_n(c, i)).at_cursor() == Some(
        c.entries[i as int],
    ) by {
        lemma_cursor_reads_in_order(c, i);
    }
    lemma_cursor_reads_in_order(c, n);
}

} // verus!
