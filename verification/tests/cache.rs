use identicon::cache::{Lookup, MemoizingCache};
use identicon::pipeline::{load, seal, sealed};
use identicon::canvas::{encode, EncodeError};
use identicon::gen;
use identicon::table::{CacheEntry, MAX_CAPACITY};
use identicon::utils::{fingerprint, same_bytes};
use std::sync::Arc;

fn entry(tag: u8) -> Arc<CacheEntry> {
    Arc::new(seal(vec![tag, tag, tag]))
}

fn insert(cache: &mut MemoizingCache, id: &[u8], tag: u8) {
    assert_eq!(cache.lookup(id, 0), Lookup::Lead);
    assert_eq!(cache.settle(id, Some(entry(tag))), vec![0]);
}

#[test]
fn seal_adds_the_fingerprint() {
    let sealed = seal(vec![1, 2, 3]);
    assert_eq!(sealed.image, vec![1, 2, 3]);
    assert_eq!(sealed.etag, fingerprint(&[1, 2, 3]));
    assert_eq!(seal(Vec::new()).etag, "d41d8cd98f00b204e9800998ecf8427e");
}

#[test]
fn load_runs_the_pipeline() {
    let loaded = load(b"alice").unwrap();
    assert_eq!(loaded.image, encode(&gen(b"alice")).unwrap());
    assert_eq!(loaded.etag, fingerprint(&loaded.image));
}

#[test]
fn load_is_deterministic() {
    assert_eq!(load(b"alice").unwrap(), load(b"alice").unwrap());
    assert_eq!(load(b"").unwrap(), load(b"").unwrap());
    let alice = load(b"alice").unwrap();
    let bob = load(b"bob").unwrap();
    assert_ne!(alice.image, bob.image);
    assert_ne!(alice.etag, bob.etag);
}

#[test]
fn same_bytes_compares_contents() {
    assert!(same_bytes(b"", b""));
    assert!(same_bytes(b"abc", b"abc"));
    assert!(!same_bytes(b"abc", b"abd"));
    assert!(!same_bytes(b"abc", b"ab"));
    assert!(!same_bytes(b"", b"a"));
}

#[test]
fn capacity_bounds() {
    assert!(MemoizingCache::new(0).is_none());
    assert!(MemoizingCache::new(MAX_CAPACITY + 1).is_none());
    assert!(MemoizingCache::new(usize::MAX).is_none());
    let cache = MemoizingCache::new(1).unwrap();
    assert_eq!(cache.capacity(), 1);
    assert_eq!(cache.len(), 0);
    assert_eq!(MemoizingCache::new(64).unwrap().capacity(), 64);
}

#[test]
fn a_new_cache_holds_nothing() {
    let cache = MemoizingCache::new(3).unwrap();
    assert!(!cache.contains(b"alice"));
    assert!(!cache.is_pending(b"alice"));
    assert_eq!(cache.len(), 0);
}

#[test]
fn first_caller_leads_and_later_callers_follow() {
    let mut cache = MemoizingCache::new(3).unwrap();
    assert_eq!(cache.lookup(b"alice", 10), Lookup::Lead);
    assert!(cache.is_pending(b"alice"));
    assert!(!cache.contains(b"alice"));
    assert_eq!(cache.lookup(b"alice", 11), Lookup::Follow);
    assert_eq!(cache.lookup(b"alice", 12), Lookup::Follow);
    assert_eq!(cache.len(), 0);
}

#[test]
fn single_flight() {
    let mut cache = MemoizingCache::new(3).unwrap();
    let mut leaders = 0;
    for waiter in 0..20u64 {
        if cache.lookup(b"alice", waiter) == Lookup::Lead {
            leaders += 1;
        }
    }
    assert_eq!(leaders, 1);
    let computed = Arc::new(load(b"alice").unwrap());
    let waiters = cache.settle(b"alice", Some(computed.clone()));
    assert_eq!(waiters, (0..20u64).collect::<Vec<u64>>());
    assert!(!cache.is_pending(b"alice"));
    assert!(cache.contains(b"alice"));
    assert_eq!(cache.lookup(b"alice", 99), Lookup::Hit(computed));
}

#[test]
fn flights_for_different_identifiers_are_apart() {
    let mut cache = MemoizingCache::new(3).unwrap();
    assert_eq!(cache.lookup(b"alice", 1), Lookup::Lead);
    assert_eq!(cache.lookup(b"bob", 2), Lookup::Lead);
    assert_eq!(cache.lookup(b"alice", 3), Lookup::Follow);
    assert_eq!(cache.lookup(b"bob", 4), Lookup::Follow);
    assert_eq!(cache.settle(b"bob", Some(entry(2))), vec![2, 4]);
    assert!(cache.is_pending(b"alice"));
    assert!(!cache.is_pending(b"bob"));
    assert_eq!(cache.lookup(b"alice", 5), Lookup::Follow);
    assert_eq!(cache.settle(b"alice", Some(entry(1))), vec![1, 3, 5]);
    assert!(cache.contains(b"alice"));
    assert!(cache.contains(b"bob"));
}

#[test]
fn a_failure_is_not_cached_and_the_next_caller_leads() {
    let mut cache = MemoizingCache::new(3).unwrap();
    assert_eq!(cache.lookup(b"alice", 1), Lookup::Lead);
    assert_eq!(cache.lookup(b"alice", 2), Lookup::Follow);
    assert_eq!(cache.settle(b"alice", None), vec![1, 2]);
    assert!(!cache.contains(b"alice"));
    assert!(!cache.is_pending(b"alice"));
    assert_eq!(cache.len(), 0);
    assert_eq!(cache.lookup(b"alice", 3), Lookup::Lead);
    assert_eq!(cache.settle(b"alice", Some(entry(1))), vec![3]);
    assert!(cache.contains(b"alice"));
}

#[test]
fn settling_what_is_not_under_way_changes_nothing() {
    let mut cache = MemoizingCache::new(3).unwrap();
    assert_eq!(cache.settle(b"alice", Some(entry(1))), Vec::<u64>::new());
    assert!(!cache.contains(b"alice"));
    assert_eq!(cache.len(), 0);
    insert(&mut cache, b"bob", 2);
    assert_eq!(cache.settle(b"bob", None), Vec::<u64>::new());
    assert!(cache.contains(b"bob"));
}

#[test]
fn a_hit_hands_out_the_stored_entry_without_copying() {
    let mut cache = MemoizingCache::new(3).unwrap();
    let stored = entry(7);
    assert_eq!(cache.lookup(b"alice", 0), Lookup::Lead);
    cache.settle(b"alice", Some(stored.clone()));
    match cache.lookup(b"alice", 1) {
        Lookup::Hit(found) => assert!(Arc::ptr_eq(&found, &stored)),
        other => panic!("expected a hit, got {:?}", other),
    }
    assert!(!cache.is_pending(b"alice"));
}

#[test]
fn eviction() {
    let capacity = 4usize;
    let mut cache = MemoizingCache::new(capacity).unwrap();
    let ids: Vec<Vec<u8>> = (0..=capacity as u8).map(|i| vec![b'k', i]).collect();
    for (i, id) in ids.iter().enumerate() {
        insert(&mut cache, id, i as u8);
        assert!(cache.len() <= capacity);
    }
    assert_eq!(cache.len(), capacity);
    assert!(!cache.contains(&ids[0]));
    for id in &ids[1..] {
        assert!(cache.contains(id));
    }
}

#[test]
fn eviction_with_capacity_one() {
    let mut cache = MemoizingCache::new(1).unwrap();
    insert(&mut cache, b"a", 1);
    insert(&mut cache, b"b", 2);
    assert!(!cache.contains(b"a"));
    assert!(cache.contains(b"b"));
    assert_eq!(cache.len(), 1);
}

#[test]
fn eviction_goes_in_order_of_insertion() {
    let mut cache = MemoizingCache::new(2).unwrap();
    insert(&mut cache, b"a", 1);
    insert(&mut cache, b"b", 2);
    insert(&mut cache, b"c", 3);
    assert!(!cache.contains(b"a") && cache.contains(b"b") && cache.contains(b"c"));
    insert(&mut cache, b"d", 4);
    assert!(!cache.contains(b"b") && cache.contains(b"c") && cache.contains(b"d"));
}

#[test]
fn recency_refresh() {
    let capacity = 3usize;
    let mut cache = MemoizingCache::new(capacity).unwrap();
    insert(&mut cache, b"x", 0);
    insert(&mut cache, b"a", 1);
    insert(&mut cache, b"b", 2);
    assert!(matches!(cache.lookup(b"x", 0), Lookup::Hit(_)));
    insert(&mut cache, b"new", 3);
    assert!(cache.contains(b"x"));
    assert!(!cache.contains(b"a"));
    assert!(cache.contains(b"b"));
    assert!(cache.contains(b"new"));
    assert_eq!(cache.len(), capacity);
}

#[test]
fn asking_whether_a_picture_is_held_is_not_a_use() {
    let mut cache = MemoizingCache::new(2).unwrap();
    insert(&mut cache, b"a", 1);
    insert(&mut cache, b"b", 2);
    assert!(cache.contains(b"a"));
    insert(&mut cache, b"c", 3);
    assert!(!cache.contains(b"a"));
}

#[test]
fn storing_again_replaces_and_refreshes() {
    let mut cache = MemoizingCache::new(2).unwrap();
    insert(&mut cache, b"a", 1);
    insert(&mut cache, b"b", 2);
    let stored = cache.store(b"a", Ok(seal(vec![9]))).unwrap();
    assert_eq!(stored.image, vec![9]);
    assert_eq!(cache.len(), 2);
    insert(&mut cache, b"c", 3);
    assert!(cache.contains(b"a"));
    assert!(!cache.contains(b"b"));
    assert_eq!(cache.lookup(b"a", 0), Lookup::Hit(stored));
}

#[test]
fn store_hands_a_failure_on() {
    let mut cache = MemoizingCache::new(2).unwrap();
    let failure = EncodeError { message: String::from("out of memory") };
    assert_eq!(cache.store(b"a", Err(failure.clone())), Err(failure));
    assert!(!cache.contains(b"a"));
    assert_eq!(cache.len(), 0);
}

#[test]
fn get_or_compute_computes_once() {
    let mut cache = MemoizingCache::new(2).unwrap();
    let first = cache.get_or_compute(b"alice").unwrap();
    assert_eq!(*first, load(b"alice").unwrap());
    assert!(cache.contains(b"alice"));
    assert_eq!(cache.len(), 1);
    let second = cache.get_or_compute(b"alice").unwrap();
    assert!(Arc::ptr_eq(&first, &second));
    assert_eq!(cache.len(), 1);
}

#[test]
fn get_or_compute_evicts_the_least_recently_used() {
    let mut cache = MemoizingCache::new(2).unwrap();
    cache.get_or_compute(b"a").unwrap();
    cache.get_or_compute(b"b").unwrap();
    cache.get_or_compute(b"a").unwrap();
    cache.get_or_compute(b"c").unwrap();
    assert!(cache.contains(b"a"));
    assert!(!cache.contains(b"b"));
    assert!(cache.contains(b"c"));
    assert_eq!(cache.len(), 2);
}

#[test]
fn get_or_compute_leaves_flights_alone() {
    let mut cache = MemoizingCache::new(2).unwrap();
    assert_eq!(cache.lookup(b"alice", 1), Lookup::Lead);
    let computed = cache.get_or_compute(b"bob").unwrap();
    assert_eq!(computed.etag, fingerprint(&computed.image));
    assert!(cache.is_pending(b"alice"));
    assert_eq!(cache.settle(b"alice", None), vec![1]);
}

#[test]
fn identifiers_are_compared_byte_for_byte() {
    let mut cache = MemoizingCache::new(4).unwrap();
    insert(&mut cache, b"alice", 1);
    assert!(!cache.contains(b"Alice"));
    assert!(!cache.contains(b"alice "));
    assert!(!cache.contains(b""));
    insert(&mut cache, b"", 2);
    assert!(cache.contains(b""));
    assert_eq!(cache.len(), 2);
}

#[test]
fn sealed_seals_the_bytes() {
    let out = sealed(Ok(vec![1, 2, 3])).unwrap();
    assert_eq!(out, seal(vec![1, 2, 3]));
    assert_eq!(out.image, vec![1, 2, 3]);
    assert_eq!(out.etag, fingerprint(&[1, 2, 3]));
}

#[test]
fn sealed_hands_a_failure_on() {
    let failure = EncodeError { message: String::from("no room") };
    assert_eq!(sealed(Err(failure.clone())), Err(failure));
}

#[test]
fn load_answers_what_sealed_says() {
    let bytes = encode(&gen(b"carol"));
    assert_eq!(load(b"carol"), sealed(bytes));
}

#[test]
fn load_succeeds_for_every_identifier_tried() {
    for name in ["", "alice", "bob", "favicon.ico", "\u{e9}t\u{e9}", "a/b?c"] {
        assert!(load(name.as_bytes()).is_ok());
    }
}

#[test]
fn different_pictures_get_different_bytes() {
    let names = ["alice", "bob", "carol", "dave", ""];
    for a in names {
        for b in names {
            if a != b {
                assert_ne!(load(a.as_bytes()).unwrap().image, load(b.as_bytes()).unwrap().image);
            }
        }
    }
}
