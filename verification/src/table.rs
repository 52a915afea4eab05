//! The recency-ordered table of finished pictures, kept in an
//! `lru::LruCache`, and what its operations do to the order.

use lru::LruCache;
use std::num::NonZeroUsize;
use std::sync::Arc;
use vstd::prelude::*;

verus! {

/// A finished picture: its encoded bytes and their fingerprint. Entries are
/// never changed once made and are handed around behind an `Arc`, so a hit
/// copies no bytes.
#[derive(Debug, Clone, PartialEq, Eq)]
pub struct CacheEntry {
    /// The encoded picture.
    pub image: Vec<u8>,
    /// The fingerprint of `image`.
    pub etag: String,
}

/// What a `CacheEntry` holds.
pub struct EntryView {
    /// The encoded picture.
    pub image: Seq<u8>,
    /// The fingerprint.
    pub etag: Seq<char>,
}

impl View for CacheEntry {
    type V = EntryView;

    open spec fn view(&self) -> EntryView {
        EntryView { image: self.image@, etag: self.etag@ }
    }
}

/// An identifier together with its entry.
pub type Slot = (Seq<u8>, EntryView);

/// The largest capacity a table can be made with. The table reserves room
/// for its capacity when it is made, and this many slots can be reserved on
/// every supported machine.
pub const MAX_CAPACITY: usize = 16_777_216;

/// `lru::LruCache`. Nothing inside it is read; what is known of a table is
/// what the functions below state of `lru_entries` and `lru_capacity`.
#[verifier::external_type_specification]
#[verifier::external_body]
#[verifier::reject_recursive_types(K)]
#[verifier::reject_recursive_types(V)]
#[verifier::reject_recursive_types(S)]
pub struct ExLruCache<K, V, S>(LruCache<K, V, S>);

/// What a table holds, the most recently used slot first.
pub uninterp spec fn lru_entries(table: LruCache<Vec<u8>, Arc<CacheEntry>>) -> Seq<Slot>;

/// The capacity a table was made with.
pub uninterp spec fn lru_capacity(table: LruCache<Vec<u8>, Arc<CacheEntry>>) -> nat;

/// Whether some slot of `entries` carries `key`.
pub open spec fn holds(entries: Seq<Slot>, key: Seq<u8>) -> bool {
    exists|i: int| 0 <= i < entries.len() && (#[trigger] entries[i]).0 == key
}

/// Where `key` stands in `entries`, if it is held.
pub open spec fn position(entries: Seq<Slot>, key: Seq<u8>) -> int {
    choose|i: int| 0 <= i < entries.len() && (#[trigger] entries[i]).0 == key
}

/// The entry stored under `key`, if there is one.
pub open spec fn entry_of(entries: Seq<Slot>, key: Seq<u8>) -> Option<EntryView> {
    if holds(entries, key) {
        Some(entries[position(entries, key)].1)
    } else {
        None
    }
}

/// No identifier occurs twice.
pub open spec fn distinct_keys(entries: Seq<Slot>) -> bool {
    forall|i: int, j: int|
        0 <= i < j < entries.len() ==> (#[trigger] entries[i]).0 != (#[trigger] entries[j]).0
}

/// `entries` after `key` has been used: its slot, if there is one, moves to
/// the front and the others keep their order.
pub open spec fn touched(entries: Seq<Slot>, key: Seq<u8>) -> Seq<Slot> {
    if holds(entries, key) {
        let at = position(entries, key);
        seq![entries[at]] + entries.remove(at)
    } else {
        entries
    }
}

/// `entries` after `entry` has been stored under `key` in a table of the
/// given capacity. The new slot goes to the front. A slot already stored
/// under `key` is replaced; otherwise, when the table is full, the slot at
/// the back, which is the least recently used, makes room.
pub open spec fn pushed(entries: Seq<Slot>, capacity: nat, key: Seq<u8>, entry: EntryView) -> Seq<
    Slot,
> {
    if holds(entries, key) {
        seq![(key, entry)] + entries.remove(position(entries, key))
    } else if entries.len() == capacity {
        seq![(key, entry)] + entries.drop_last()
    } else {
        seq![(key, entry)] + entries
    }
}

/// The slot that leaves `entries` when something is stored under `key`: the
/// one replaced, or the least recently used one of a full table, or none.
pub open spec fn displaced(entries: Seq<Slot>, capacity: nat, key: Seq<u8>) -> Option<Slot> {
    if holds(entries, key) {
        Some((key, entries[position(entries, key)].1))
    } else if entries.len() == capacity {
        Some(entries.last())
    } else {
        None
    }
}

/// Calls `LruCache::new`, which reserves room for `capacity` slots. Claims
/// that the table starts empty and remembers its capacity.
#[verifier::external_body]
pub(crate) fn lru_new(capacity: usize) -> (table: LruCache<Vec<u8>, Arc<CacheEntry>>)
    requires
        0 < capacity <= MAX_CAPACITY,
    ensures
        lru_entries(table) == Seq::<Slot>::empty(),
        lru_capacity(table) == capacity,
{
    LruCache::new(NonZeroUsize::new(capacity).unwrap())
}

/// Calls `LruCache::cap`.
#[verifier::external_body]
pub(crate) fn lru_cap(table: &LruCache<Vec<u8>, Arc<CacheEntry>>) -> (capacity: usize)
    ensures
        capacity == lru_capacity(*table),
{
    table.cap().get()
}

/// Calls `LruCache::len`.
#[verifier::external_body]
pub(crate) fn lru_len(table: &LruCache<Vec<u8>, Arc<CacheEntry>>) -> (len: usize)
    ensures
        len == lru_entries(*table).len(),
{
    table.len()
}

/// Calls `LruCache::contains`, which looks `key` up without touching the
/// order.
#[verifier::external_body]
pub(crate) fn lru_contains(table: &LruCache<Vec<u8>, Arc<CacheEntry>>, key: &[u8]) -> (found: bool)
    ensures
        found == holds(lru_entries(*table), key@),
{
    table.contains(key)
}

/// Calls `LruCache::get`. Claims that a held key's slot moves to the front
/// and its entry is handed out, and that for a key not held nothing changes
/// and `None` comes back.
#[verifier::external_body]
pub(crate) fn lru_get(table: &mut LruCache<Vec<u8>, Arc<CacheEntry>>, key: &[u8]) -> (hit: Option<
    Arc<CacheEntry>,
>)
    ensures
        lru_capacity(*final(table)) == lru_capacity(*old(table)),
        lru_entries(*final(table)) == touched(lru_entries(*old(table)), key@),
        (match hit {
            Some(entry) => Some(entry@) == entry_of(lru_entries(*old(table)), key@),
            None => !holds(lru_entries(*old(table)), key@),
        }),
{
    table.get(key).cloned()
}

/// Calls `LruCache::push`. Claims that the new slot stands at the front
/// afterwards, that a slot already stored under the key is replaced, that a
/// full table otherwise drops the slot at the back, and that the slot that
/// left is handed out.
#[verifier::external_body]
pub(crate) fn lru_push(
    table: &mut LruCache<Vec<u8>, Arc<CacheEntry>>,
    key: Vec<u8>,
    entry: Arc<CacheEntry>,
) -> (out: Option<(Vec<u8>, Arc<CacheEntry>)>)
    ensures
        lru_capacity(*final(table)) == lru_capacity(*old(table)),
        lru_entries(*final(table)) == pushed(
            lru_entries(*old(table)),
            lru_capacity(*old(table)),
            key@,
            entry@,
        ),
        (match out {
            Some(slot) => Some((slot.0@, slot.1@)) == displaced(
                lru_entries(*old(table)),
                lru_capacity(*old(table)),
                key@,
            ),
            None => displaced(lru_entries(*old(table)), lru_capacity(*old(table)), key@) is None,
        }),
{
    table.push(key, entry)
}

/// With distinct identifiers, the slot that carries a key is the one that
/// `position` names.
pub proof fn lemma_position(entries: Seq<Slot>, key: Seq<u8>, at: int)
    requires
        distinct_keys(entries),
        0 <= at < entries.len(),
        entries[at].0 == key,
    ensures
        holds(entries, key),
        position(entries, key) == at,
{
    let p = position(entries, key);
    if p < at {
        assert(entries[p].0 != entries[at].0);
    } else if at < p {
        assert(entries[at].0 != entries[p].0);
    }
}

/// Using a key keeps the table's size and keeps its identifiers distinct.
pub proof fn lemma_touched_wf(entries: Seq<Slot>, key: Seq<u8>)
    requires
        distinct_keys(entries),
    ensures
        distinct_keys(touched(entries, key)),
        touched(entries, key).len() == entries.len(),
        forall|k: Seq<u8>| holds(touched(entries, key), k) <==> holds(entries, k),
        holds(entries, key) ==> touched(entries, key)[0] == entries[position(entries, key)],
{
    let after = touched(entries, key);
    if holds(entries, key) {
        let at = position(entries, key);
        assert forall|i: int, j: int| 0 <= i < j < after.len() implies (#[trigger] after[i]).0
            != (#[trigger] after[j]).0 by {
            let si = if i == 0 { at } else if i - 1 < at { i - 1 } else { i };
            let sj = if j - 1 < at { j - 1 } else { j };
            assert(after[i] == entries[si]);
            assert(after[j] == entries[sj]);
            if si < sj {
                assert(entries[si].0 != entries[sj].0);
            } else {
                assert(entries[sj].0 != entries[si].0);
            }
        }
        assert forall|k: Seq<u8>| holds(after, k) <==> holds(entries, k) by {
            if holds(after, k) {
                let i = position(after, k);
                let si = if i == 0 { at } else if i - 1 < at { i - 1 } else { i };
                assert(after[i] == entries[si]);
            }
            if holds(entries, k) {
                let s = position(entries, k);
                let i = if s == at { 0 } else if s < at { s + 1 } else { s };
                assert(after[i] == entries[s]);
            }
        }
    }
}

/// Storing under a key keeps the table within its capacity and keeps its
/// identifiers distinct; afterwards the key is held, with the new entry.
pub proof fn lemma_pushed_wf(entries: Seq<Slot>, capacity: nat, key: Seq<u8>, entry: EntryView)
    requires
        distinct_keys(entries),
        entries.len() <= capacity,
        0 < capacity,
    ensures
        distinct_keys(pushed(entries, capacity, key, entry)),
        pushed(entries, capacity, key, entry).len() <= capacity,
        pushed(entries, capacity, key, entry)[0] == (key, entry),
        entry_of(pushed(entries, capacity, key, entry), key) == Some(entry),
{
    let after = pushed(entries, capacity, key, entry);
    let rest = after.skip(1);
    assert(after[0] == (key, entry));
    if holds(entries, key) {
        let at = position(entries, key);
        assert(rest =~= entries.remove(at));
        assert forall|i: int| 0 <= i < rest.len() implies (#[trigger] rest[i]).0 != key by {
            let si = if i < at { i } else { i + 1 };
            assert(rest[i] == entries[si]);
            if si < at {
                assert(entries[si].0 != entries[at].0);
            } else {
                assert(entries[at].0 != entries[si].0);
            }
        }
        assert forall|i: int, j: int| 0 <= i < j < rest.len() implies (#[trigger] rest[i]).0
            != (#[trigger] rest[j]).0 by {
            let si = if i < at { i } else { i + 1 };
            let sj = if j < at { j } else { j + 1 };
            assert(rest[i] == entries[si]);
            assert(rest[j] == entries[sj]);
            assert(entries[si].0 != entries[sj].0);
        }
    } else {
        if entries.len() == capacity {
            assert(rest =~= entries.drop_last());
        } else {
            assert(rest =~= entries);
        }
        assert forall|i: int| 0 <= i < rest.len() implies (#[trigger] rest[i]).0 != key by {
            assert(rest[i] == entries[i]);
        }
        assert forall|i: int, j: int| 0 <= i < j < rest.len() implies (#[trigger] rest[i]).0
            != (#[trigger] rest[j]).0 by {
            assert(rest[i] == entries[i]);
            assert(rest[j] == entries[j]);
            assert(entries[i].0 != entries[j].0);
        }
    }
    assert forall|i: int, j: int| 0 <= i < j < after.len() implies (#[trigger] after[i]).0
        != (#[trigger] after[j]).0 by {
        assert(after[j] == rest[j - 1]);
        if i == 0 {
        } else {
            assert(after[i] == rest[i - 1]);
        }
    }
    lemma_position(after, key, 0);
}

/// What is held after storing under a key: the key itself, and everything
/// held before except the least recently used slot of a full table that
/// did not hold the key.
pub proof fn lemma_pushed_members(entries: Seq<Slot>, capacity: nat, key: Seq<u8>, entry: EntryView)
    requires
        distinct_keys(entries),
        entries.len() <= capacity,
        0 < capacity,
    ensures
        forall|k: Seq<u8>|
            holds(pushed(entries, capacity, key, entry), k) <==> (k == key || (holds(entries, k)
                && !(!holds(entries, key) && entries.len() == capacity && k
                == entries.last().0))),
{
    let after = pushed(entries, capacity, key, entry);
    lemma_pushed_wf(entries, capacity, key, entry);
    assert forall|k: Seq<u8>|
        holds(after, k) <==> (k == key || (holds(entries, k) && !(!holds(entries, key)
            && entries.len() == capacity && k == entries.last().0))) by {
        if k == key {
            assert(after[0].0 == key);
        } else {
            if holds(after, k) {
                let i = position(after, k);
                if holds(entries, key) {
                    let at = position(entries, key);
                    let from = if i - 1 < at { i - 1 } else { i };
                    assert(after[i] == entries[from]);
                } else {
                    assert(after[i] == entries[i - 1]);
                    if entries.len() == capacity && k == entries.last().0 {
                        assert(entries[i - 1].0 != entries[capacity - 1].0);
                    }
                }
            }
            if holds(entries, k) {
                let i = position(entries, k);
                if holds(entries, key) {
                    let at = position(entries, key);
                    let to = if i < at { i + 1 } else { i };
                    assert(after[to] == entries[i]);
                } else if entries.len() == capacity {
                    if i < capacity - 1 {
                        assert(after[i + 1] == entries[i]);
                    }
                } else {
                    assert(after[i + 1] == entries[i]);
                }
            }
        }
    }
}

/// `entries` after each of `slots` has been stored in turn, the first of
/// `slots` first.
pub open spec fn pushed_all(entries: Seq<Slot>, capacity: nat, slots: Seq<Slot>) -> Seq<Slot>
    decreases slots.len(),
{
    if slots.len() == 0 {
        entries
    } else {
        pushed(
            pushed_all(entries, capacity, slots.drop_last()),
            capacity,
            slots.last().0,
            slots.last().1,
        )
    }
}

/// The last `n` of `slots`, the last one first.
pub open spec fn newest_first(slots: Seq<Slot>, n: nat) -> Seq<Slot>
    recommends
        n <= slots.len(),
{
    Seq::new(n, |i: int| slots[slots.len() - 1 - i])
}

/// Storing distinct identifiers one after the other in an empty table
/// leaves exactly the most recent ones, as many as the capacity allows,
/// the latest at the front.
pub proof fn lemma_fresh_inserts(capacity: nat, slots: Seq<Slot>)
    requires
        0 < capacity,
        distinct_keys(slots),
    ensures
        pushed_all(Seq::empty(), capacity, slots) == newest_first(
            slots,
            if slots.len() <= capacity {
                slots.len()
            } else {
                capacity
            },
        ),
    decreases slots.len(),
{
    let kept = if slots.len() <= capacity {
        slots.len()
    } else {
        capacity
    };
    let after = pushed_all(Seq::empty(), capacity, slots);
    if slots.len() == 0 {
        assert(after =~= newest_first(slots, kept));
    } else {
        let earlier = slots.drop_last();
        let kept_earlier = if earlier.len() <= capacity {
            earlier.len()
        } else {
            capacity
        };
        assert forall|i: int, j: int| 0 <= i < j < earlier.len() implies (#[trigger] earlier[i]).0
            != (#[trigger] earlier[j]).0 by {
            assert(slots[i].0 != slots[j].0);
        }
        lemma_fresh_inserts(capacity, earlier);
        let before = pushed_all(Seq::empty(), capacity, earlier);
        assert(before == newest_first(earlier, kept_earlier));
        let key = slots.last().0;
        assert forall|i: int| 0 <= i < before.len() implies (#[trigger] before[i]).0 != key by {
            assert(before[i] == slots[slots.len() - 2 - i]);
            assert(slots[slots.len() - 2 - i].0 != slots[slots.len() - 1].0);
        }
        assert(!holds(before, key));
        assert(after == pushed(before, capacity, key, slots.last().1));
        assert forall|i: int| 0 <= i < kept implies after[i] == slots[slots.len() - 1 - i] by {
            if i > 0 {
                assert(after[i] == before[i - 1]);
            }
        }
        assert(after =~= newest_first(slots, kept));
    }
}

/// Eviction: after one more distinct identifier than the capacity has been
/// stored in an empty table, without any use in between, the table is
/// full, the identifier stored first is gone and all later ones are held.
pub proof fn lemma_eviction(capacity: nat, slots: Seq<Slot>)
    requires
        0 < capacity,
        slots.len() == capacity + 1,
        distinct_keys(slots),
    ensures
        pushed_all(Seq::empty(), capacity, slots).len() == capacity,
        !holds(pushed_all(Seq::empty(), capacity, slots), slots[0].0),
        forall|i: int|
            1 <= i <= capacity ==> entry_of(
                pushed_all(Seq::empty(), capacity, slots),
                (#[trigger] slots[i]).0,
            ) == Some(slots[i].1),
{
    let after = pushed_all(Seq::empty(), capacity, slots);
    lemma_fresh_inserts(capacity, slots);
    assert forall|k: int| 0 <= k < after.len() implies (#[trigger] after[k]).0 != slots[0].0 by {
        assert(after[k] == slots[capacity - k]);
        assert(slots[0].0 != slots[capacity - k].0);
    }
    assert forall|k: int, l: int| 0 <= k < l < after.len() implies (#[trigger] after[k]).0
        != (#[trigger] after[l]).0 by {
        assert(after[k] == slots[capacity - k]);
        assert(after[l] == slots[capacity - l]);
        assert(slots[capacity - l].0 != slots[capacity - k].0);
    }
    assert forall|i: int| 1 <= i <= capacity implies entry_of(after, (#[trigger] slots[i]).0)
        == Some(slots[i].1) by {
        assert(after[capacity - i] == slots[i]);
        lemma_position(after, slots[i].0, capacity - i);
    }
}

/// `entries` after the picture of `key` has been asked for and handed out:
/// a held slot is used, and otherwise `entry` is stored under `key`.
pub open spec fn accessed(entries: Seq<Slot>, capacity: nat, key: Seq<u8>, entry: EntryView) -> Seq<
    Slot,
> {
    if holds(entries, key) {
        touched(entries, key)
    } else {
        pushed(entries, capacity, key, entry)
    }
}

/// The slots of `entries` other than the one that carries `key`, in their
/// order.
pub open spec fn others(entries: Seq<Slot>, key: Seq<u8>) -> Seq<Slot>
    recommends
        holds(entries, key),
{
    entries.remove(position(entries, key))
}

/// Whatever way an identifier is accessed, it is the most recently used
/// afterwards, and the table stays within its capacity with its
/// identifiers distinct.
pub proof fn lemma_accessed_first(entries: Seq<Slot>, capacity: nat, key: Seq<u8>, entry: EntryView)
    requires
        distinct_keys(entries),
        entries.len() <= capacity,
        0 < capacity,
    ensures
        distinct_keys(accessed(entries, capacity, key, entry)),
        accessed(entries, capacity, key, entry).len() <= capacity,
        accessed(entries, capacity, key, entry).len() >= entries.len(),
        accessed(entries, capacity, key, entry)[0].0 == key,
        holds(entries, key) ==> accessed(entries, capacity, key, entry)[0].1 == entries[position(
            entries,
            key,
        )].1,
        !holds(entries, key) ==> accessed(entries, capacity, key, entry)[0].1 == entry,
{
    if holds(entries, key) {
        lemma_touched_wf(entries, key);
    } else {
        lemma_pushed_wf(entries, capacity, key, entry);
    }
}

/// Recency refresh: in a full table of at least two slots, an identifier
/// that has just been accessed survives the insertion of a new one. The
/// slot that leaves is the least recently used among the others, and
/// nothing else changes hands.
pub proof fn lemma_recency_refresh(
    entries: Seq<Slot>,
    capacity: nat,
    used: Seq<u8>,
    used_entry: EntryView,
    new: Seq<u8>,
    new_entry: EntryView,
)
    requires
        distinct_keys(entries),
        2 <= capacity,
        entries.len() == capacity,
        new != used,
        !holds(entries, new),
    ensures
        ({
            let mid = accessed(entries, capacity, used, used_entry);
            let after = pushed(mid, capacity, new, new_entry);
            &&& displaced(mid, capacity, new) == Some(others(mid, used).last())
            &&& others(mid, used).last().0 != used
            &&& holds(entries, used) ==> others(mid, used) == others(entries, used)
            &&& entry_of(after, used) == entry_of(mid, used)
            &&& entry_of(after, used) is Some
            &&& entry_of(after, new) == Some(new_entry)
            &&& forall|k: Seq<u8>|
                holds(after, k) <==> (k == new || (holds(mid, k) && k != others(mid, used).last().0))
        }),
{
    let mid = accessed(entries, capacity, used, used_entry);
    let after = pushed(mid, capacity, new, new_entry);
    lemma_accessed_first(entries, capacity, used, used_entry);
    lemma_position(mid, used, 0);
    let rest = others(mid, used);
    assert(rest =~= mid.skip(1));
    let gone = rest.last();
    assert(gone == mid[capacity - 1]);
    assert(mid[0].0 != mid[capacity - 1].0);
    if holds(entries, used) {
        let at = position(entries, used);
        assert(rest =~= entries.remove(at));
    }
    assert(!holds(mid, new)) by {
        if holds(mid, new) {
            let i = position(mid, new);
            if holds(entries, used) {
                lemma_touched_wf(entries, used);
            } else if i > 0 {
                assert(mid[i] == entries[i - 1]);
            }
        }
    }
    assert(mid.last() == gone);
    lemma_pushed_wf(mid, capacity, new, new_entry);
    assert(after[1] == mid[0]);
    lemma_position(after, used, 1);
    assert forall|k: Seq<u8>| holds(after, k) <==> (k == new || (holds(mid, k) && k != gone.0)) by {
        if holds(after, k) && k != new {
            let i = position(after, k);
            assert(after[i] == mid[i - 1]);
            lemma_position(mid, k, i - 1);
            if k == gone.0 {
                lemma_position(mid, k, capacity - 1);
            }
        }
        if k == new {
            assert(after[0].0 == new);
        }
        if holds(mid, k) && k != gone.0 {
            let i = position(mid, k);
            if i == capacity - 1 {
                assert(mid[i] == gone);
            }
            assert(after[i + 1] == mid[i]);
        }
    }
}

} // verus!
