//! What holds of the cache whatever is asked of it: bounded size, one
//! computation per identifier however many callers ask and however their
//! requests interleave, eviction of the least recently used, survival of
//! what has just been used, and the path of each identifier from absent
//! through pending to present.

use crate::cache::{
    exclusive, flight_index, in_flight, lemma_flight_index, lemma_lookup_keeps,
    lemma_settle_keeps, lookup_step, phase, settle_step, waiters_of, CacheState, LookupView,
    Phase,
};
use crate::table::{
    accessed, distinct_keys, entry_of, holds, lemma_accessed_first, lemma_eviction,
    lemma_fresh_inserts, lemma_pushed_wf, lemma_recency_refresh, lemma_touched_wf, others,
    position, pushed, pushed_all, EntryView, Slot, MAX_CAPACITY,
};
use vstd::prelude::*;

verus! {

/// The cache after the callers `waiters` have asked for `id` one after the
/// other, with what each was told.
pub open spec fn lookups(s: CacheState, id: Seq<u8>, waiters: Seq<u64>) -> (
    CacheState,
    Seq<LookupView>,
)
    decreases waiters.len(),
{
    if waiters.len() == 0 {
        (s, Seq::empty())
    } else {
        let earlier = lookups(s, id, waiters.drop_last());
        let step = lookup_step(earlier.0, id, waiters.last());
        (step.0, earlier.1.push(step.1))
    }
}

/// While callers ask for an identifier that is neither held nor being
/// computed, the first is told to lead and every later one to follow; the
/// table is left alone and the callers are noted in order after the
/// computations that were under way before.
pub proof fn lemma_lookups_join(s: CacheState, id: Seq<u8>, waiters: Seq<u64>)
    requires
        s.wf(),
        !holds(s.entries, id),
        !in_flight(s.flights, id),
        waiters.len() >= 1,
    ensures
        lookups(s, id, waiters).0 == (CacheState { flights: s.flights.push((id, waiters)), ..s }),
        lookups(s, id, waiters).0.wf(),
        lookups(s, id, waiters).1.len() == waiters.len(),
        lookups(s, id, waiters).1[0] == LookupView::Lead,
        forall|i: int|
            1 <= i < waiters.len() ==> (#[trigger] lookups(s, id, waiters).1[i])
                == LookupView::Follow,
    decreases waiters.len(),
{
    let earlier_waiters = waiters.drop_last();
    let earlier = lookups(s, id, earlier_waiters);
    let step = lookup_step(earlier.0, id, waiters.last());
    if waiters.len() == 1 {
        assert(earlier.0 == s);
        assert(seq![waiters.last()] =~= waiters);
        lemma_lookup_keeps(s, id, waiters.last());
    } else {
        lemma_lookups_join(s, id, earlier_waiters);
        let at = s.flights.len() as int;
        assert(earlier.0.flights[at].0 == id);
        lemma_flight_index(earlier.0.flights, id, at);
        assert(earlier_waiters.push(waiters.last()) =~= waiters);
        assert(step.0.flights =~= s.flights.push((id, waiters)));
        lemma_lookup_keeps(earlier.0, id, waiters.last());
        assert forall|i: int| 1 <= i < waiters.len() implies (#[trigger] lookups(
            s,
            id,
            waiters,
        ).1[i]) == LookupView::Follow by {
            if i < earlier_waiters.len() {
                assert(lookups(s, id, waiters).1[i] == earlier.1[i]);
            }
        }
    }
}

/// Single flight: when any number of callers ask for an identifier that is
/// neither held nor being computed before its computation has ended,
/// exactly one of them, the first, is told to compute. Settling the
/// outcome names exactly those callers, each once and in order, so all of
/// them get the one outcome. A picture is then held as the most recently
/// used; after a failure the cache is as it was before the first of them
/// asked, and the next caller leads again.
pub proof fn lemma_single_flight(
    s: CacheState,
    id: Seq<u8>,
    waiters: Seq<u64>,
    outcome: Option<EntryView>,
)
    requires
        s.wf(),
        !holds(s.entries, id),
        !in_flight(s.flights, id),
        waiters.len() >= 1,
    ensures
        lookups(s, id, waiters).1.len() == waiters.len(),
        forall|i: int|
            0 <= i < waiters.len() ==> ((#[trigger] lookups(s, id, waiters).1[i])
                == LookupView::Lead <==> i == 0),
        settle_step(lookups(s, id, waiters).0, id, outcome).1 == waiters,
        settle_step(lookups(s, id, waiters).0, id, outcome).0.flights == s.flights,
        settle_step(lookups(s, id, waiters).0, id, outcome).0.wf(),
        (match outcome {
            Some(entry) => {
                &&& settle_step(lookups(s, id, waiters).0, id, outcome).0.entries == pushed(
                    s.entries,
                    s.capacity,
                    id,
                    entry,
                )
                &&& entry_of(settle_step(lookups(s, id, waiters).0, id, outcome).0.entries, id)
                    == Some(entry)
            },
            None => {
                &&& settle_step(lookups(s, id, waiters).0, id, outcome).0 == s
                &&& lookup_step(s, id, waiters[0]).1 == LookupView::Lead
            },
        }),
{
    lemma_lookups_join(s, id, waiters);
    let joined = lookups(s, id, waiters).0;
    let at = s.flights.len() as int;
    assert(joined.flights[at].0 == id);
    lemma_flight_index(joined.flights, id, at);
    assert(joined.flights.remove(at) =~= s.flights);
    lemma_settle_keeps(joined, id, outcome);
    match outcome {
        Some(entry) => {
            lemma_pushed_wf(s.entries, s.capacity, id, entry);
        },
        None => {},
    }
}

/// What happens to one identifier leaves the computations for all others
/// alone: neither a request for `other` nor the end of its computation
/// changes whether `id` is being computed or who waits for it.
pub proof fn lemma_keys_apart(
    s: CacheState,
    id: Seq<u8>,
    other: Seq<u8>,
    waiter: u64,
    outcome: Option<EntryView>,
)
    requires
        s.wf(),
        id != other,
    ensures
        in_flight(lookup_step(s, other, waiter).0.flights, id) == in_flight(s.flights, id),
        waiters_of(lookup_step(s, other, waiter).0.flights, id) == waiters_of(s.flights, id),
        in_flight(settle_step(s, other, outcome).0.flights, id) == in_flight(s.flights, id),
        waiters_of(settle_step(s, other, outcome).0.flights, id) == waiters_of(s.flights, id),
{
    let asked = lookup_step(s, other, waiter).0;
    let settled = settle_step(s, other, outcome).0;
    lemma_lookup_keeps(s, other, waiter);
    lemma_settle_keeps(s, other, outcome);
    if in_flight(s.flights, id) {
        let at = flight_index(s.flights, id);
        assert(asked.flights[at] == s.flights[at]);
        lemma_flight_index(asked.flights, id, at);
        if in_flight(s.flights, other) {
            let gone = flight_index(s.flights, other);
            let to = if at < gone { at } else { at - 1 };
            assert(settled.flights[to] == s.flights[at]);
            lemma_flight_index(settled.flights, id, to);
        }
    } else {
        if in_flight(asked.flights, id) {
            let at = flight_index(asked.flights, id);
            if at < s.flights.len() {
                assert(asked.flights[at].0 == s.flights[at].0);
            }
        }
        if in_flight(settled.flights, id) {
            let at = flight_index(settled.flights, id);
            if in_flight(s.flights, other) {
                let gone = flight_index(s.flights, other);
                let from = if at < gone { at } else { at + 1 };
                assert(settled.flights[at] == s.flights[from]);
            }
        }
    }
}

/// A request moves its identifier from absent to pending and leaves a
/// pending or present one where it is; only the request that finds it
/// absent is told to lead. No request moves any other identifier, and no
/// identifier becomes held while it is being computed.
pub proof fn lemma_phase_after_lookup(s: CacheState, id: Seq<u8>, waiter: u64, other: Seq<u8>)
    requires
        s.wf(),
        exclusive(s),
    ensures
        exclusive(lookup_step(s, id, waiter).0),
        phase(lookup_step(s, id, waiter).0, id) == (match phase(s, id) {
            Phase::Absent => Phase::Pending,
            Phase::Pending => Phase::Pending,
            Phase::Present => Phase::Present,
        }),
        lookup_step(s, id, waiter).1 == LookupView::Lead <==> phase(s, id) == Phase::Absent,
        lookup_step(s, id, waiter).1 == LookupView::Follow <==> phase(s, id) == Phase::Pending,
        other != id ==> phase(lookup_step(s, id, waiter).0, other) == phase(s, other),
{
    let after = lookup_step(s, id, waiter).0;
    lemma_touched_wf(s.entries, id);
    lemma_lookup_keeps(s, id, waiter);
    if !holds(s.entries, id) {
        if in_flight(s.flights, id) {
            let at = flight_index(s.flights, id);
            assert(after.flights[at].0 == id);
            assert forall|k: Seq<u8>| in_flight(after.flights, k) <==> in_flight(s.flights, k) by {
                if in_flight(after.flights, k) {
                    let i = flight_index(after.flights, k);
                    assert(after.flights[i].0 == s.flights[i].0);
                }
                if in_flight(s.flights, k) {
                    let i = flight_index(s.flights, k);
                    assert(after.flights[i].0 == s.flights[i].0);
                }
            }
        } else {
            assert(after.flights[s.flights.len() as int].0 == id);
            assert forall|k: Seq<u8>| in_flight(after.flights, k) <==> (k == id || in_flight(
                s.flights,
                k,
            )) by {
                if in_flight(after.flights, k) {
                    let i = flight_index(after.flights, k);
                    if i < s.flights.len() {
                        assert(after.flights[i] == s.flights[i]);
                    }
                }
                if in_flight(s.flights, k) {
                    let i = flight_index(s.flights, k);
                    assert(after.flights[i] == s.flights[i]);
                }
            }
        }
    }
}

/// The end of a computation moves its identifier from pending to present
/// when there is a picture and back to absent when there is none. Another
/// identifier that is pending stays pending; one that is held stays held
/// unless it is the one evicted to make room.
pub proof fn lemma_phase_after_settle(
    s: CacheState,
    id: Seq<u8>,
    outcome: Option<EntryView>,
    other: Seq<u8>,
)
    requires
        s.wf(),
        exclusive(s),
    ensures
        exclusive(settle_step(s, id, outcome).0),
        phase(s, id) == Phase::Pending ==> phase(settle_step(s, id, outcome).0, id) == (
        match outcome {
            Some(_) => Phase::Present,
            None => Phase::Absent,
        }),
        phase(s, id) != Phase::Pending ==> settle_step(s, id, outcome).0 == s,
        other != id && phase(s, other) != Phase::Present ==> phase(
            settle_step(s, id, outcome).0,
            other,
        ) == phase(s, other),
        other != id && phase(s, other) == Phase::Present ==> phase(
            settle_step(s, id, outcome).0,
            other,
        ) == Phase::Present || (phase(settle_step(s, id, outcome).0, other) == Phase::Absent
            && s.entries.len() == s.capacity && other == s.entries.last().0),
{
    let after = settle_step(s, id, outcome).0;
    lemma_settle_keeps(s, id, outcome);
    if in_flight(s.flights, id) {
        let at = flight_index(s.flights, id);
        assert(!holds(s.entries, id));
        assert forall|k: Seq<u8>| in_flight(after.flights, k) <==> (k != id && in_flight(
            s.flights,
            k,
        )) by {
            if in_flight(after.flights, k) {
                let i = flight_index(after.flights, k);
                let from = if i < at { i } else { i + 1 };
                assert(after.flights[i] == s.flights[from]);
                if from < at {
                    assert(s.flights[from].0 != s.flights[at].0);
                } else {
                    assert(s.flights[at].0 != s.flights[from].0);
                }
            }
            if k != id && in_flight(s.flights, k) {
                let i = flight_index(s.flights, k);
                let to = if i < at { i } else { i - 1 };
                assert(after.flights[to] == s.flights[i]);
            }
        }
        match outcome {
            Some(entry) => {
                lemma_pushed_wf(s.entries, s.capacity, id, entry);
                assert(after.entries[0].0 == id);
                assert forall|k: Seq<u8>| k != id && holds(after.entries, k) implies holds(
                    s.entries,
                    k,
                ) by {
                    let i = position(after.entries, k);
                    assert(after.entries[i] == s.entries[i - 1]);
                }
                assert forall|k: Seq<u8>|
                    k != id && holds(s.entries, k) && !(s.entries.len() == s.capacity && k
                        == s.entries.last().0) implies holds(after.entries, k) by {
                    let i = position(s.entries, k);
                    if s.entries.len() == s.capacity && i == s.entries.len() - 1 {
                        assert(s.entries[i] == s.entries.last());
                    }
                    assert(after.entries[i + 1] == s.entries[i]);
                }
            },
            None => {},
        }
    }
}

/// Something that happens to the cache.
pub enum Event {
    /// `waiter` asks for the picture of `id`.
    Ask { id: Seq<u8>, waiter: u64 },
    /// The computation for `id` ends with `outcome`.
    Settle { id: Seq<u8>, outcome: Option<EntryView> },
}

/// The cache after one event.
pub open spec fn step(s: CacheState, event: Event) -> CacheState {
    match event {
        Event::Ask { id, waiter } => lookup_step(s, id, waiter).0,
        Event::Settle { id, outcome } => settle_step(s, id, outcome).0,
    }
}

/// The cache after a run of events, the first of `events` first.
pub open spec fn run(s: CacheState, events: Seq<Event>) -> CacheState
    decreases events.len(),
{
    if events.len() == 0 {
        s
    } else {
        step(run(s, events.drop_last()), events.last())
    }
}

/// Bounded memory: whatever happens, the cache stays well formed; its
/// capacity stays what it was made with and it never holds more pictures
/// than that.
pub proof fn lemma_run_keeps(s: CacheState, events: Seq<Event>)
    requires
        s.wf(),
    ensures
        run(s, events).wf(),
        run(s, events).capacity == s.capacity,
        run(s, events).entries.len() <= s.capacity,
    decreases events.len(),
{
    if events.len() > 0 {
        lemma_run_keeps(s, events.drop_last());
        let before = run(s, events.drop_last());
        match events.last() {
            Event::Ask { id, waiter } => {
                lemma_lookup_keeps(before, id, waiter);
            },
            Event::Settle { id, outcome } => {
                lemma_settle_keeps(before, id, outcome);
            },
        }
    }
}

/// Whether `event` is a request for `id` that is told to lead when it
/// arrives in state `s`.
pub open spec fn leads(s: CacheState, event: Event, id: Seq<u8>) -> bool {
    match event {
        Event::Ask { id: asked, waiter } => asked == id && lookup_step(s, asked, waiter).1
            == LookupView::Lead,
        Event::Settle { .. } => false,
    }
}

/// How many requests for `id` in a run of events from `s` are told to lead.
pub open spec fn leaders(s: CacheState, events: Seq<Event>, id: Seq<u8>) -> nat
    decreases events.len(),
{
    if events.len() == 0 {
        0
    } else {
        leaders(s, events.drop_last(), id) + if leads(
            run(s, events.drop_last()),
            events.last(),
            id,
        ) {
            1nat
        } else {
            0nat
        }
    }
}

/// The callers that ask for `id` in a run of events, in order.
pub open spec fn askers(events: Seq<Event>, id: Seq<u8>) -> Seq<u64>
    decreases events.len(),
{
    if events.len() == 0 {
        Seq::empty()
    } else {
        match events.last() {
            Event::Ask { id: asked, waiter } => if asked == id {
                askers(events.drop_last(), id).push(waiter)
            } else {
                askers(events.drop_last(), id)
            },
            Event::Settle { .. } => askers(events.drop_last(), id),
        }
    }
}

/// Whether `event` is the end of the computation for `id`.
pub open spec fn ends(event: Event, id: Seq<u8>) -> bool {
    match event {
        Event::Ask { .. } => false,
        Event::Settle { id: settled, .. } => settled == id,
    }
}

/// Whether the computation for `id` ends somewhere in `events`.
pub open spec fn settles(events: Seq<Event>, id: Seq<u8>) -> bool {
    exists|i: int| 0 <= i < events.len() && ends(#[trigger] events[i], id)
}

/// Single flight under any interleaving: take an identifier that is
/// absent, and any run of requests and settlements for any identifiers in
/// which its own computation does not end. If nobody asks for it, it stays
/// absent. Otherwise exactly one of the requests for it is told to lead,
/// it is pending at the end, those who wait for it are exactly those who
/// asked, in order, and settling it then names each of them.
pub proof fn lemma_one_leader(
    s: CacheState,
    events: Seq<Event>,
    id: Seq<u8>,
    outcome: Option<EntryView>,
)
    requires
        s.wf(),
        exclusive(s),
        phase(s, id) == Phase::Absent,
        !settles(events, id),
    ensures
        run(s, events).wf(),
        exclusive(run(s, events)),
        askers(events, id).len() == 0 ==> phase(run(s, events), id) == Phase::Absent && leaders(
            s,
            events,
            id,
        ) == 0,
        askers(events, id).len() > 0 ==> phase(run(s, events), id) == Phase::Pending && leaders(
            s,
            events,
            id,
        ) == 1,
        waiters_of(run(s, events).flights, id) == askers(events, id),
        settle_step(run(s, events), id, outcome).1 == askers(events, id),
    decreases events.len(),
{
    if events.len() > 0 {
        let earlier = events.drop_last();
        let last = events.last();
        assert(!settles(earlier, id)) by {
            if settles(earlier, id) {
                let i = choose|i: int| 0 <= i < earlier.len() && ends(#[trigger] earlier[i], id);
                assert(events[i] == earlier[i]);
            }
        }
        lemma_one_leader(s, earlier, id, outcome);
        let before = run(s, earlier);
        assert(events[events.len() - 1] == last);
        match last {
            Event::Ask { id: asked, waiter } => {
                lemma_phase_after_lookup(before, asked, waiter, id);
                lemma_lookup_keeps(before, asked, waiter);
                if asked == id {
                    let after = lookup_step(before, id, waiter).0;
                    if in_flight(before.flights, id) {
                        let at = flight_index(before.flights, id);
                        assert(after.flights[at] == (id, before.flights[at].1.push(waiter)));
                        lemma_flight_index(after.flights, id, at);
                    } else {
                        let at = before.flights.len() as int;
                        assert(after.flights[at] == (id, seq![waiter]));
                        lemma_flight_index(after.flights, id, at);
                        assert(seq![waiter] =~= Seq::<u64>::empty().push(waiter));
                    }
                } else {
                    lemma_keys_apart(before, id, asked, waiter, None);
                }
            },
            Event::Settle { id: settled, outcome: ended } => {
                assert(!ends(events[events.len() - 1], id));
                lemma_phase_after_settle(before, settled, ended, id);
                lemma_settle_keeps(before, settled, ended);
                lemma_keys_apart(before, id, settled, 0, ended);
            },
        }
    }
}

/// The cache after each of `slots` has been asked for by `waiter`, found
/// missing, computed and settled, one after the other.
pub open spec fn computed_all(s: CacheState, slots: Seq<Slot>, waiter: u64) -> CacheState
    decreases slots.len(),
{
    if slots.len() == 0 {
        s
    } else {
        let before = computed_all(s, slots.drop_last(), waiter);
        let asked = lookup_step(before, slots.last().0, waiter).0;
        settle_step(asked, slots.last().0, Some(slots.last().1)).0
    }
}

/// Computing distinct identifiers one after the other in a new cache
/// stores each of them in turn and leaves no computation under way.
pub proof fn lemma_computed_all(capacity: nat, slots: Seq<Slot>, waiter: u64)
    requires
        0 < capacity <= MAX_CAPACITY,
        distinct_keys(slots),
    ensures
        computed_all(CacheState::empty(capacity), slots, waiter) == (CacheState {
            entries: pushed_all(Seq::empty(), capacity, slots),
            ..CacheState::empty(capacity)
        }),
        computed_all(CacheState::empty(capacity), slots, waiter).wf(),
    decreases slots.len(),
{
    let start = CacheState::empty(capacity);
    if slots.len() > 0 {
        let earlier = slots.drop_last();
        assert forall|i: int, j: int| 0 <= i < j < earlier.len() implies (#[trigger] earlier[i]).0
            != (#[trigger] earlier[j]).0 by {
            assert(slots[i].0 != slots[j].0);
        }
        lemma_computed_all(capacity, earlier, waiter);
        lemma_fresh_inserts(capacity, earlier);
        let before = computed_all(start, earlier, waiter);
        let id = slots.last().0;
        assert forall|i: int| 0 <= i < before.entries.len() implies (#[trigger] before.entries[i]).0
            != id by {
            assert(before.entries[i] == slots[slots.len() - 2 - i]);
            assert(slots[slots.len() - 2 - i].0 != slots[slots.len() - 1].0);
        }
        lemma_single_flight(before, id, seq![waiter], Some(slots.last().1));
        assert(lookups(before, id, seq![waiter]).0 == lookup_step(before, id, waiter).0) by {
            assert(seq![waiter].drop_last() =~= Seq::<u64>::empty());
            assert(lookups(before, id, Seq::<u64>::empty()).0 == before);
        }
    }
}

/// Eviction: after one more distinct identifier than the capacity has been
/// computed in a new cache, with no other use in between, the cache holds
/// exactly as many pictures as its capacity; the identifier computed first
/// is gone and all later ones are held.
pub proof fn lemma_cache_evicts_oldest(capacity: nat, slots: Seq<Slot>, waiter: u64)
    requires
        0 < capacity <= MAX_CAPACITY,
        slots.len() == capacity + 1,
        distinct_keys(slots),
    ensures
        computed_all(CacheState::empty(capacity), slots, waiter).entries.len() == capacity,
        !holds(computed_all(CacheState::empty(capacity), slots, waiter).entries, slots[0].0),
        forall|i: int|
            1 <= i <= capacity ==> entry_of(
                computed_all(CacheState::empty(capacity), slots, waiter).entries,
                (#[trigger] slots[i]).0,
            ) == Some(slots[i].1),
{
    lemma_computed_all(capacity, slots, waiter);
    lemma_eviction(capacity, slots);
}

/// The cache after `waiter` has asked for `id` and got its picture: from the
/// table on a hit, and otherwise by computing `entry` and settling it.
pub open spec fn access_step(s: CacheState, id: Seq<u8>, waiter: u64, entry: EntryView) -> CacheState {
    if holds(s.entries, id) {
        lookup_step(s, id, waiter).0
    } else {
        settle_step(lookup_step(s, id, waiter).0, id, Some(entry)).0
    }
}

/// Getting a picture that nobody else is computing changes the table as an
/// access does and nothing else.
pub proof fn lemma_access_step(s: CacheState, id: Seq<u8>, waiter: u64, entry: EntryView)
    requires
        s.wf(),
        !in_flight(s.flights, id),
    ensures
        access_step(s, id, waiter, entry) == (CacheState {
            entries: accessed(s.entries, s.capacity, id, entry),
            ..s
        }),
        access_step(s, id, waiter, entry).wf(),
{
    if holds(s.entries, id) {
        lemma_lookup_keeps(s, id, waiter);
    } else {
        lemma_single_flight(s, id, seq![waiter], Some(entry));
        assert(lookups(s, id, seq![waiter]).0 == lookup_step(s, id, waiter).0) by {
            assert(seq![waiter].drop_last() =~= Seq::<u64>::empty());
            assert(lookups(s, id, Seq::<u64>::empty()).0 == s);
        }
    }
}

/// Recency refresh: in a full cache of at least two pictures, an identifier
/// whose picture has just been got survives the computation of a new one.
/// The picture that leaves is the least recently used among the others.
pub proof fn lemma_cache_keeps_recent(
    s: CacheState,
    used: Seq<u8>,
    used_entry: EntryView,
    new: Seq<u8>,
    new_entry: EntryView,
    waiter: u64,
)
    requires
        s.wf(),
        2 <= s.capacity,
        s.entries.len() == s.capacity,
        new != used,
        !holds(s.entries, new),
        !in_flight(s.flights, used),
        !in_flight(s.flights, new),
    ensures
        ({
            let mid = access_step(s, used, waiter, used_entry);
            let after = access_step(mid, new, waiter, new_entry);
            let gone = others(mid.entries, used).last().0;
            &&& after.entries.len() == s.capacity
            &&& entry_of(after.entries, used) == entry_of(mid.entries, used)
            &&& entry_of(after.entries, used) is Some
            &&& entry_of(after.entries, new) == Some(new_entry)
            &&& gone != used
            &&& !holds(after.entries, gone)
            &&& forall|k: Seq<u8>|
                holds(after.entries, k) <==> (k == new || (holds(mid.entries, k) && k != gone))
        }),
{
    let mid = access_step(s, used, waiter, used_entry);
    lemma_access_step(s, used, waiter, used_entry);
    lemma_accessed_first(s.entries, s.capacity, used, used_entry);
    lemma_recency_refresh(s.entries, s.capacity, used, used_entry, new, new_entry);
    let gone = others(mid.entries, used).last().0;
    assert(!holds(mid.entries, new)) by {
        if holds(mid.entries, new) {
            assert(holds(pushed(mid.entries, s.capacity, new, new_entry), new));
            if holds(s.entries, used) {
                lemma_touched_wf(s.entries, used);
            } else {
                let i = position(mid.entries, new);
                if i > 0 {
                    assert(mid.entries[i] == s.entries[i - 1]);
                }
            }
        }
    }
    lemma_access_step(mid, new, waiter, new_entry);
    lemma_pushed_wf(mid.entries, s.capacity, new, new_entry);
    assert(gone != new);
}

} // verus!
