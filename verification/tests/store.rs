use gatekeeper::binary64::Binary64;
use gatekeeper::store::memory::MemoryStore;
use gatekeeper::store::{BucketState, StateStore, StoreError};
use gatekeeper::time::{Duration, Instant};

fn number(x: f64) -> Binary64 {
    Binary64 { bits: x.to_bits() }
}

fn state(tokens: f64, nanos: u64) -> BucketState {
    BucketState { tokens: number(tokens), last_update: Instant { nanos } }
}

const SECOND: u64 = 1_000_000_000;

#[test]
fn get_nonexistent_returns_none() {
    let store = MemoryStore::new(100);
    let result = store.get("missing").unwrap();
    assert!(result.is_none());
}

#[test]
fn set_then_get() {
    let mut store = MemoryStore::new(100);
    store.set("key1", state(42.0, 1), Duration::from_secs(60)).unwrap();
    let retrieved = store.get("key1").unwrap().unwrap();
    assert_eq!(retrieved.tokens, number(42.0));
    assert_eq!(retrieved, state(42.0, 1));
}

#[test]
fn delete_removes_entry() {
    let mut store = MemoryStore::new(100);
    store.set("key2", state(10.0, 1), Duration::from_secs(60)).unwrap();
    store.delete("key2").unwrap();
    let result = store.get("key2").unwrap();
    assert!(result.is_none());
}

#[test]
fn increment_creates_and_adds() {
    let mut store = MemoryStore::new(100);
    let ttl = Duration::from_secs(60);
    let v1 = store.increment("counter", number(5.0), ttl, Instant { nanos: 3 }).unwrap();
    assert_eq!(v1, number(5.0));
    let v2 = store.increment("counter", number(3.0), ttl, Instant { nanos: 4 }).unwrap();
    assert_eq!(v2, number(8.0));
    assert_eq!(store.lookup("counter"), Some(state(8.0, 4)));
}

#[test]
fn is_healthy_returns_true() {
    let store = MemoryStore::new(100);
    assert!(store.is_healthy());
    assert_eq!(store.store_name(), "memory");
}

#[test]
fn eviction_removes_expired_entries() {
    let mut store = MemoryStore::new(100);
    let ttl = Duration::from_secs(60);
    let now = Instant { nanos: 500 * SECOND };
    store.buckets().insert("old".to_string(), state(1.0, 380 * SECOND));
    store.buckets().insert("new".to_string(), state(1.0, 500 * SECOND));
    assert_eq!(store.bucket_count(), 2);
    store.evict(now, ttl);
    assert_eq!(store.bucket_count(), 1);
    assert!(store.get("new").unwrap().is_some());
    assert!(store.get("old").unwrap().is_none());
}

#[test]
fn bucket_count_tracks_entries() {
    let mut store = MemoryStore::new(100);
    assert_eq!(store.bucket_count(), 0);
    store.set("a", state(1.0, 0), Duration::from_secs(60)).unwrap();
    assert_eq!(store.bucket_count(), 1);
    store.set("b", state(2.0, 0), Duration::from_secs(60)).unwrap();
    assert_eq!(store.bucket_count(), 2);
    store.delete("a").unwrap();
    assert_eq!(store.bucket_count(), 1);
}

#[test]
fn eviction_keeps_what_is_just_within_the_ttl() {
    let mut store = MemoryStore::new(100);
    store.put("edge", state(1.0, 40 * SECOND));
    store.put("beyond", state(1.0, 40 * SECOND - 1));
    store.evict(Instant { nanos: 100 * SECOND }, Duration::from_secs(60));
    assert!(store.lookup("edge").is_some());
    assert!(store.lookup("beyond").is_none());
}

#[test]
fn eviction_takes_out_the_oldest_in_excess() {
    let mut store = MemoryStore::new(3);
    for i in 0..8u64 {
        store.put(&format!("k{i}"), state(i as f64, (i * 7) % 8));
    }
    store.evict(Instant { nanos: 10 }, Duration::from_secs(60));
    assert_eq!(store.bucket_count(), 3);
    for i in 0..8u64 {
        let kept = store.lookup(&format!("k{i}"));
        if (i * 7) % 8 >= 5 {
            assert_eq!(kept, Some(state(i as f64, (i * 7) % 8)));
        } else {
            assert_eq!(kept, None);
        }
    }
}

#[test]
fn eviction_leaves_a_store_within_the_limit_alone() {
    let mut store = MemoryStore::new(2);
    store.put("a", state(1.0, 1));
    store.put("b", state(2.0, 2));
    store.evict(Instant { nanos: 3 }, Duration::from_secs(1));
    assert_eq!(store.lookup("a"), Some(state(1.0, 1)));
    assert_eq!(store.lookup("b"), Some(state(2.0, 2)));
}

#[test]
fn a_limit_of_none_leaves_nothing() {
    let mut store = MemoryStore::new(0);
    store.put("a", state(1.0, 1));
    store.evict(Instant { nanos: 1 }, Duration::from_secs(1));
    assert_eq!(store.bucket_count(), 0);
}

#[test]
fn keys_do_not_disturb_each_other() {
    let mut store = MemoryStore::new(9);
    store.put("a", state(1.0, 1));
    store.put("b", state(2.0, 2));
    store.put("a", state(3.0, 3));
    assert_eq!(store.lookup("a"), Some(state(3.0, 3)));
    assert_eq!(store.lookup("b"), Some(state(2.0, 2)));
    store.delete("a").unwrap();
    assert_eq!(store.lookup("b"), Some(state(2.0, 2)));
}

#[test]
fn an_unavailable_store_says_so() {
    let error = StoreError::Unavailable("no connection".to_string());
    assert_eq!(error.message(), "store unavailable: no connection");
}
