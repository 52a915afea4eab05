//! The memoizing cache: a bounded table of finished pictures, ordered by
//! recency, together with the computations that are under way.
//!
//! The cache never computes while it is being changed. A caller asks with
//! `lookup`; the one caller that is told to lead computes the picture with
//! `load`, outside any exclusive section, and reports with `settle`, which
//! names everybody who has been waiting for that identifier in the
//! meantime. `get_or_compute` does all three in one go for a caller that
//! has the cache to itself.

use crate::canvas::EncodeError;
use crate::pipeline::{entry_for, fails_for, load};
use crate::table::{
    distinct_keys, entry_of, holds, lemma_pushed_members, lemma_pushed_wf, lemma_touched_wf,
    lru_cap, lru_capacity, lru_contains, lru_entries, lru_get, lru_len, lru_new, lru_push,
    position, pushed, touched, CacheEntry, EntryView, Slot, MAX_CAPACITY,
};
use crate::utils::same_bytes;
use lru::LruCache;
use std::sync::Arc;
use vstd::prelude::*;
use vstd::slice::slice_to_vec;

verus! {

/// A computation under way: the identifier, and who waits for it.
#[derive(Debug, Clone, PartialEq, Eq)]
pub struct Flight {
    /// The identifier being computed.
    pub key: Vec<u8>,
    /// The callers to tell when it is done, in order of arrival.
    pub waiters: Vec<u64>,
}

/// What a `Flight` holds.
pub type FlightView = (Seq<u8>, Seq<u64>);

impl View for Flight {
    type V = FlightView;

    open spec fn view(&self) -> FlightView {
        (self.key@, self.waiters@)
    }
}

/// Whether a computation for `key` is under way.
pub open spec fn in_flight(flights: Seq<FlightView>, key: Seq<u8>) -> bool {
    exists|i: int| 0 <= i < flights.len() && (#[trigger] flights[i]).0 == key
}

/// Where the computation for `key` stands among `flights`.
pub open spec fn flight_index(flights: Seq<FlightView>, key: Seq<u8>) -> int {
    choose|i: int| 0 <= i < flights.len() && (#[trigger] flights[i]).0 == key
}

/// Who waits for `key`: nobody when no computation is under way.
pub open spec fn waiters_of(flights: Seq<FlightView>, key: Seq<u8>) -> Seq<u64> {
    if in_flight(flights, key) {
        flights[flight_index(flights, key)].1
    } else {
        Seq::empty()
    }
}

/// No identifier is being computed twice.
pub open spec fn distinct_flights(flights: Seq<FlightView>) -> bool {
    forall|i: int, j: int|
        0 <= i < j < flights.len() ==> (#[trigger] flights[i]).0 != (#[trigger] flights[j]).0
}

/// The cache as a value.
pub struct CacheState {
    /// How many pictures can be held.
    pub capacity: nat,
    /// The finished pictures, the most recently used first.
    pub entries: Seq<Slot>,
    /// The computations under way, in the order they were started.
    pub flights: Seq<FlightView>,
}

impl CacheState {
    /// The table never holds more than its capacity, and neither the table
    /// nor the computations under way name an identifier twice.
    pub open spec fn wf(self) -> bool {
        &&& 0 < self.capacity <= MAX_CAPACITY
        &&& self.entries.len() <= self.capacity
        &&& distinct_keys(self.entries)
        &&& distinct_flights(self.flights)
    }

    /// Every stored entry is the one that belongs to its identifier.
    pub open spec fn coherent(self) -> bool {
        forall|i: int|
            0 <= i < self.entries.len() ==> (#[trigger] self.entries[i]).1 == entry_for(
                self.entries[i].0,
            )
    }

    /// The state of a new cache.
    pub open spec fn empty(capacity: nat) -> CacheState {
        CacheState { capacity, entries: Seq::empty(), flights: Seq::empty() }
    }
}

/// Where an identifier stands in the cache.
pub enum Phase {
    /// Neither held nor being computed.
    Absent,
    /// Being computed, and not held.
    Pending,
    /// Held.
    Present,
}

/// Where `id` stands in `s`.
pub open spec fn phase(s: CacheState, id: Seq<u8>) -> Phase {
    if holds(s.entries, id) {
        Phase::Present
    } else if in_flight(s.flights, id) {
        Phase::Pending
    } else {
        Phase::Absent
    }
}

/// No identifier is held and being computed at once.
pub open spec fn exclusive(s: CacheState) -> bool {
    forall|k: Seq<u8>| !(holds(s.entries, k) && in_flight(s.flights, k))
}

/// What a caller is told when it asks for an identifier.
#[derive(Debug, Clone, PartialEq, Eq)]
pub enum Lookup {
    /// The picture is there. Its slot is now the most recently used.
    Hit(Arc<CacheEntry>),
    /// Nobody is computing this identifier: the caller is to compute it and
    /// to settle the outcome. It has been noted as the first to wait.
    Lead,
    /// Somebody is computing this identifier: the caller has been noted and
    /// is to wait for the outcome.
    Follow,
}

/// What a `Lookup` holds.
pub enum LookupView {
    Hit(EntryView),
    Lead,
    Follow,
}

impl View for Lookup {
    type V = LookupView;

    open spec fn view(&self) -> LookupView {
        match self {
            Lookup::Hit(entry) => LookupView::Hit(entry@),
            Lookup::Lead => LookupView::Lead,
            Lookup::Follow => LookupView::Follow,
        }
    }
}

/// One request: a hit refreshes the slot; a miss either joins the
/// computation under way for that identifier or starts one.
pub open spec fn lookup_step(s: CacheState, id: Seq<u8>, waiter: u64) -> (CacheState, LookupView) {
    if holds(s.entries, id) {
        (
            CacheState { entries: touched(s.entries, id), ..s },
            LookupView::Hit(s.entries[position(s.entries, id)].1),
        )
    } else if in_flight(s.flights, id) {
        let at = flight_index(s.flights, id);
        (
            CacheState {
                flights: s.flights.update(at, (id, s.flights[at].1.push(waiter))),
                ..s
            },
            LookupView::Follow,
        )
    } else {
        (CacheState { flights: s.flights.push((id, seq![waiter])), ..s }, LookupView::Lead)
    }
}

/// The end of a computation: it is no longer under way, a picture is stored
/// as the most recently used, a failure stores nothing, and either way the
/// outcome is owed to everybody who waited. Settling what is not under way
/// changes nothing.
pub open spec fn settle_step(s: CacheState, id: Seq<u8>, outcome: Option<EntryView>) -> (
    CacheState,
    Seq<u64>,
) {
    if in_flight(s.flights, id) {
        let at = flight_index(s.flights, id);
        (
            CacheState {
                entries: match outcome {
                    Some(entry) => pushed(s.entries, s.capacity, id, entry),
                    None => s.entries,
                },
                flights: s.flights.remove(at),
                ..s
            },
            s.flights[at].1,
        )
    } else {
        (s, Seq::empty())
    }
}

/// What an outcome holds.
pub open spec fn outcome_view(outcome: Option<Arc<CacheEntry>>) -> Option<EntryView> {
    match outcome {
        Some(entry) => Some(entry@),
        None => None,
    }
}

/// The views of a list of flights.
pub open spec fn flight_views(flights: Seq<Flight>) -> Seq<FlightView> {
    Seq::new(flights.len(), |i: int| flights[i]@)
}

/// Finds the computation under way for `id`.
fn find_flight(flights: &Vec<Flight>, id: &[u8]) -> (found: Option<usize>)
    ensures
        (match found {
            Some(i) => i < flights.len() && flights[i as int].key@ == id@,
            None => !in_flight(flight_views(flights@), id@),
        }),
{
    let mut i: usize = 0;
    while i < flights.len()
        invariant
            i <= flights.len(),
            forall|k: int| 0 <= k < i ==> flights[k].key@ != id@,
        decreases flights.len() - i,
    {
        if same_bytes(flights[i].key.as_slice(), id) {
            return Some(i);
        }
        i += 1;
    }
    assert forall|k: int| 0 <= k < flight_views(flights@).len() implies (#[trigger] flight_views(
        flights@,
    )[k]).0 != id@ by {
        assert(flights[k].key@ != id@);
    }
    None
}

/// A memoizing cache of identicons.
pub struct MemoizingCache {
    table: LruCache<Vec<u8>, Arc<CacheEntry>>,
    flights: Vec<Flight>,
}

impl View for MemoizingCache {
    type V = CacheState;

    closed spec fn view(&self) -> CacheState {
        CacheState {
            capacity: lru_capacity(self.table),
            entries: lru_entries(self.table),
            flights: flight_views(self.flights@),
        }
    }
}

impl MemoizingCache {
    /// The invariant of a cache.
    pub open spec fn wf(&self) -> bool {
        self@.wf()
    }

    /// A cache for at most `capacity` pictures, or `None` when `capacity`
    /// is zero or beyond `MAX_CAPACITY`.
    pub fn new(capacity: usize) -> (cache: Option<MemoizingCache>)
        ensures
            cache is Some <==> 0 < capacity <= MAX_CAPACITY,
            cache matches Some(c) ==> c.wf() && c@ == CacheState::empty(capacity as nat),
    {
        if capacity == 0 || capacity > MAX_CAPACITY {
            return None;
        }
        let cache = MemoizingCache { table: lru_new(capacity), flights: Vec::new() };
        assert(cache@.flights =~= Seq::empty());
        Some(cache)
    }

    /// How many pictures the cache can hold.
    pub fn capacity(&self) -> (capacity: usize)
        ensures
            capacity == self@.capacity,
    {
        lru_cap(&self.table)
    }

    /// How many pictures the cache holds.
    pub fn len(&self) -> (len: usize)
        ensures
            len == self@.entries.len(),
    {
        lru_len(&self.table)
    }

    /// Whether the picture of `id` is held. Asking does not count as a use.
    pub fn contains(&self, id: &[u8]) -> (found: bool)
        ensures
            found == holds(self@.entries, id@),
    {
        lru_contains(&self.table, id)
    }

    /// Whether a computation for `id` is under way.
    pub fn is_pending(&self, id: &[u8]) -> (pending: bool)
        ensures
            pending == in_flight(self@.flights, id@),
    {
        match find_flight(&self.flights, id) {
            Some(i) => {
                assert(flight_views(self.flights@)[i as int].0 == id@);
                true
            },
            None => false,
        }
    }

    /// Asks for the picture of `id` on behalf of `waiter`.
    ///
    /// A held picture is handed out and counts as used. Otherwise `waiter`
    /// is noted among those who wait for `id`, and is told to lead exactly
    /// when no computation for `id` was under way.
    pub fn lookup(&mut self, id: &[u8], waiter: u64) -> (answer: Lookup)
        requires
            old(self).wf(),
        ensures
            final(self).wf(),
            (final(self)@, answer@) == lookup_step(old(self)@, id@, waiter),
    {
        let ghost before = self@;
        match lru_get(&mut self.table, id) {
            Some(entry) => {
                proof {
                    lemma_touched_wf(before.entries, id@);
                }
                Lookup::Hit(entry)
            },
            None => {
                match find_flight(&self.flights, id) {
                    Some(i) => {
                        let ghost old_flights = self.flights@;
                        self.flights[i].waiters.push(waiter);
                        proof {
                            assert(flight_views(old_flights)[i as int].0 == id@);
                            lemma_flight_index(before.flights, id@, i as int);
                            assert(flight_views(self.flights@) =~= before.flights.update(
                                i as int,
                                (id@, before.flights[i as int].1.push(waiter)),
                            ));
                        }
                        Lookup::Follow
                    },
                    None => {
                        let mut waiters: Vec<u64> = Vec::new();
                        waiters.push(waiter);
                        self.flights.push(Flight { key: slice_to_vec(id), waiters });
                        proof {
                            assert(waiters@ =~= seq![waiter]);
                            assert(flight_views(self.flights@) =~= before.flights.push(
                                (id@, seq![waiter]),
                            ));
                        }
                        Lookup::Lead
                    },
                }
            },
        }
    }

    /// Reports the end of the computation for `id`: `Some` with the picture,
    /// or `None` when the computation failed. Hands back everybody who has
    /// waited for it; the outcome is owed to each of them, once.
    pub fn settle(&mut self, id: &[u8], outcome: Option<Arc<CacheEntry>>) -> (waiters: Vec<u64>)
        requires
            old(self).wf(),
        ensures
            final(self).wf(),
            (final(self)@, waiters@) == settle_step(old(self)@, id@, outcome_view(outcome)),
    {
        let ghost before = self@;
        match find_flight(&self.flights, id) {
            None => Vec::new(),
            Some(i) => {
                proof {
                    assert(before.flights[i as int].0 == id@);
                    lemma_flight_index(before.flights, id@, i as int);
                }
                let flight = self.flights.remove(i);
                assert(flight_views(self.flights@) =~= before.flights.remove(i as int));
                if let Some(entry) = outcome {
                    proof {
                        lemma_pushed_wf(before.entries, before.capacity, id@, entry@);
                    }
                    let _ = lru_push(&mut self.table, slice_to_vec(id), entry);
                }
                flight.waiters
            },
        }
    }

    /// Takes in the outcome of a computation for `id` that nobody else
    /// waited for: a picture is stored as the most recently used and handed
    /// back, a failure is handed back and stores nothing.
    pub fn store(&mut self, id: &[u8], outcome: Result<CacheEntry, EncodeError>) -> (out: Result<
        Arc<CacheEntry>,
        EncodeError,
    >)
        requires
            old(self).wf(),
        ensures
            final(self).wf(),
            final(self)@.capacity == old(self)@.capacity,
            final(self)@.flights == old(self)@.flights,
            (match outcome {
                Ok(entry) => out matches Ok(shared) && shared@ == entry@ && final(self)@.entries
                    == pushed(old(self)@.entries, old(self)@.capacity, id@, entry@),
                Err(error) => out matches Err(e) && e == error && final(self)@.entries == old(
                    self,
                )@.entries,
            }),
            exclusive(old(self)@) && !in_flight(old(self)@.flights, id@) ==> exclusive(
                final(self)@,
            ),
    {
        match outcome {
            Ok(entry) => {
                let shared = Arc::new(entry);
                proof {
                    lemma_pushed_wf(self@.entries, self@.capacity, id@, shared@);
                    lemma_pushed_members(self@.entries, self@.capacity, id@, shared@);
                }
                let _ = lru_push(&mut self.table, slice_to_vec(id), shared.clone());
                Ok(shared)
            },
            Err(error) => Err(error),
        }
    }

    /// The picture of `id`, computed now if it is not held. For a caller
    /// that has the cache to itself: the computation runs inside the call.
    ///
    /// A held picture is always handed out, and counts as used. Otherwise
    /// the pipeline runs once and fails exactly where the encoder turns the
    /// identifier's picture down; its picture is stored, evicting the least
    /// recently used one from a full table, and its failure leaves the cache
    /// as it was, so that a later call tries again.
    pub fn get_or_compute(&mut self, id: &[u8]) -> (out: Result<Arc<CacheEntry>, EncodeError>)
        requires
            old(self).wf(),
        ensures
            final(self).wf(),
            final(self)@.capacity == old(self)@.capacity,
            final(self)@.flights == old(self)@.flights,
            holds(old(self)@.entries, id@) ==> ({
                &&& out matches Ok(entry) && Some(entry@) == entry_of(old(self)@.entries, id@)
                &&& final(self)@.entries == touched(old(self)@.entries, id@)
            }),
            !holds(old(self)@.entries, id@) ==> (out is Err <==> fails_for(id@)),
            !holds(old(self)@.entries, id@) ==> (match out {
                Ok(entry) => entry@ == entry_for(id@) && final(self)@.entries == pushed(
                    old(self)@.entries,
                    old(self)@.capacity,
                    id@,
                    entry@,
                ),
                Err(_) => final(self)@.entries == old(self)@.entries,
            }),
            old(self)@.coherent() ==> final(self)@.coherent(),
            old(self)@.coherent() ==> (out matches Ok(entry) ==> entry@ == entry_for(id@)),
            exclusive(old(self)@) && !in_flight(old(self)@.flights, id@) ==> exclusive(
                final(self)@,
            ),
    {
        let ghost before = self@;
        match lru_get(&mut self.table, id) {
            Some(entry) => {
                proof {
                    lemma_touched_wf(before.entries, id@);
                    lemma_lookup_keeps(before, id@, 0);
                }
                Ok(entry)
            },
            None => {
                let out = self.store(id, load(id));
                proof {
                    if out is Ok && before.coherent() {
                        lemma_pushed_coherent(before.entries, before.capacity, id@);
                    }
                }
                out
            },
        }
    }
}

/// With distinct identifiers, the computation for a key is the one that
/// `flight_index` names.
pub proof fn lemma_flight_index(flights: Seq<FlightView>, key: Seq<u8>, at: int)
    requires
        distinct_flights(flights),
        0 <= at < flights.len(),
        flights[at].0 == key,
    ensures
        in_flight(flights, key),
        flight_index(flights, key) == at,
{
    let p = flight_index(flights, key);
    if p < at {
        assert(flights[p].0 != flights[at].0);
    } else if at < p {
        assert(flights[at].0 != flights[p].0);
    }
}

/// Storing the entry that belongs to a key keeps every stored entry the
/// one that belongs to its identifier.
pub proof fn lemma_pushed_coherent(entries: Seq<Slot>, capacity: nat, key: Seq<u8>)
    requires
        0 < capacity,
        forall|i: int| 0 <= i < entries.len() ==> (#[trigger] entries[i]).1 == entry_for(entries[i].0),
    ensures
        forall|i: int|
            0 <= i < pushed(entries, capacity, key, entry_for(key)).len() ==> (#[trigger] pushed(
                entries,
                capacity,
                key,
                entry_for(key),
            )[i]).1 == entry_for(pushed(entries, capacity, key, entry_for(key))[i].0),
{
    let after = pushed(entries, capacity, key, entry_for(key));
    assert forall|i: int| 0 <= i < after.len() implies (#[trigger] after[i]).1 == entry_for(
        after[i].0,
    ) by {
        if i == 0 {
            assert(after[0] == (key, entry_for(key)));
        } else if holds(entries, key) {
            let at = position(entries, key);
            let si = if i - 1 < at { i - 1 } else { i };
            assert(after[i] == entries[si]);
        } else {
            assert(after[i] == entries[i - 1]);
        }
    }
}

/// A request keeps the cache well formed. Where every stored entry belongs
/// to its identifier this stays so, and a hit hands out the entry that
/// belongs to the identifier asked for.
pub proof fn lemma_lookup_keeps(s: CacheState, id: Seq<u8>, waiter: u64)
    requires
        s.wf(),
    ensures
        lookup_step(s, id, waiter).0.wf(),
        lookup_step(s, id, waiter).0.capacity == s.capacity,
        s.coherent() ==> lookup_step(s, id, waiter).0.coherent(),
        s.coherent() ==> (lookup_step(s, id, waiter).1 matches LookupView::Hit(entry) ==> entry
            == entry_for(id)),
{
    let after = lookup_step(s, id, waiter).0;
    if holds(s.entries, id) {
        lemma_touched_wf(s.entries, id);
        let at = position(s.entries, id);
        if s.coherent() {
            assert forall|i: int| 0 <= i < after.entries.len() implies (
            #[trigger] after.entries[i]).1 == entry_for(after.entries[i].0) by {
                let si = if i == 0 { at } else if i - 1 < at { i - 1 } else { i };
                assert(after.entries[i] == s.entries[si]);
            }
        }
    } else if in_flight(s.flights, id) {
        let at = flight_index(s.flights, id);
        assert forall|i: int, j: int| 0 <= i < j < after.flights.len() implies
            (#[trigger] after.flights[i]).0 != (#[trigger] after.flights[j]).0 by {
            assert(after.flights[i].0 == s.flights[i].0);
            assert(after.flights[j].0 == s.flights[j].0);
        }
    } else {
        assert forall|i: int, j: int| 0 <= i < j < after.flights.len() implies
            (#[trigger] after.flights[i]).0 != (#[trigger] after.flights[j]).0 by {
            assert(after.flights[i] == s.flights[i]);
            if j < s.flights.len() {
                assert(after.flights[j] == s.flights[j]);
            }
        }
    }
}

/// Settling keeps the cache well formed. Where every stored entry belongs
/// to its identifier and the outcome is the entry that belongs to `id`,
/// this stays so.
pub proof fn lemma_settle_keeps(s: CacheState, id: Seq<u8>, outcome: Option<EntryView>)
    requires
        s.wf(),
    ensures
        settle_step(s, id, outcome).0.wf(),
        settle_step(s, id, outcome).0.capacity == s.capacity,
        s.coherent() && (outcome matches Some(entry) ==> entry == entry_for(id)) ==> settle_step(
            s,
            id,
            outcome,
        ).0.coherent(),
{
    let after = settle_step(s, id, outcome).0;
    if in_flight(s.flights, id) {
        let at = flight_index(s.flights, id);
        assert forall|i: int, j: int| 0 <= i < j < after.flights.len() implies
            (#[trigger] after.flights[i]).0 != (#[trigger] after.flights[j]).0 by {
            let si = if i < at { i } else { i + 1 };
            let sj = if j < at { j } else { j + 1 };
            assert(after.flights[i] == s.flights[si]);
            assert(after.flights[j] == s.flights[sj]);
            assert(s.flights[si].0 != s.flights[sj].0);
        }
        match outcome {
            Some(entry) => {
                lemma_pushed_wf(s.entries, s.capacity, id, entry);
                if s.coherent() && entry == entry_for(id) {
                    lemma_pushed_coherent(s.entries, s.capacity, id);
                }
            },
            None => {},
        }
    }
}

} // verus!
