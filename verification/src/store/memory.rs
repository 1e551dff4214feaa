//! A store that keeps the buckets in memory, in a map of the `dashmap` crate.

use crate::binary64::Binary64;
use crate::store::{BucketState, StateStore, StoreError};
use crate::time::{Duration, Instant};
use dashmap::DashMap;
use vstd::prelude::*;
#[allow(unused_imports)]
use vstd::string::*;

verus! {

/// `dashmap::DashMap`, a hash map.
#[verifier::external_type_specification]
#[verifier::external_body]
#[verifier::reject_recursive_types(K)]
#[verifier::reject_recursive_types(V)]
#[verifier::reject_recursive_types(S)]
pub struct ExDashMap<K, V, S>(dashmap::DashMap<K, V, S>);

/// What a map holds: the state under each key, keys being told apart by their text.
pub uninterp spec fn buckets_of(map: DashMap<String, BucketState>) -> Map<Seq<char>, BucketState>;

/// A store without entries.
pub open spec fn no_buckets() -> Map<Seq<char>, BucketState> {
    Map::empty()
}

/// The state under a key, if there is one.
pub open spec fn stored(buckets: Map<Seq<char>, BucketState>, key: Seq<char>) -> Option<
    BucketState,
> {
    if buckets.contains_key(key) {
        Some(buckets[key])
    } else {
        None
    }
}

/// The tokens under a key with some added; a key that is missing has none.
pub open spec fn incremented(
    buckets: Map<Seq<char>, BucketState>,
    key: Seq<char>,
    delta: Binary64,
) -> Binary64 {
    match stored(buckets, key) {
        Some(state) => state.tokens.plus(delta),
        None => delta,
    }
}

/// `DashMap::new`: an empty map.
#[verifier::external_body]
fn map_new() -> (r: DashMap<String, BucketState>)
    ensures
        buckets_of(r) == no_buckets(),
{
    DashMap::new()
}

/// `DashMap::len`: the number of entries.
#[verifier::external_body]
fn map_len(map: &DashMap<String, BucketState>) -> (n: usize)
    ensures
        n == buckets_of(*map).len(),
{
    map.len()
}

/// `DashMap::get`: the state under a key, if there is one.
#[verifier::external_body]
fn map_get(map: &DashMap<String, BucketState>, key: &str) -> (state: Option<BucketState>)
    ensures
        state == stored(buckets_of(*map), key@),
{
    map.get(key).map(|entry| *entry.value())
}

/// `DashMap::insert`: puts a state under a key, in place of the one that was there. The map is
/// borrowed exclusively, so no other thread has a part in it.
#[verifier::external_body]
fn map_insert(map: &mut DashMap<String, BucketState>, key: &str, state: BucketState)
    ensures
        buckets_of(*final(map)) == buckets_of(*old(map)).insert(key@, state),
{
    map.insert(key.to_string(), state);
}

/// `DashMap::remove`: takes out the entry under a key, if there is one.
#[verifier::external_body]
fn map_remove(map: &mut DashMap<String, BucketState>, key: &str)
    ensures
        buckets_of(*final(map)) == buckets_of(*old(map)).remove(key@),
{
    map.remove(key);
}

/// `DashMap::retain`: keeps the entries for which the closure, here `is_fresh`, says so, as they
/// are, and takes out the others.
#[verifier::external_body]
fn map_retain(map: &mut DashMap<String, BucketState>, now: Instant, ttl: Duration)
    ensures
        buckets_of(*final(map)) == fresh_only(buckets_of(*old(map)), now, ttl),
{
    map.retain(|_, state| is_fresh(state, now, ttl));
}

/// `DashMap::iter`: visits each entry once, in an order that is left open. Of each entry the
/// wrapper takes the key and the moment of the last update.
#[verifier::external_body]
fn map_ages(map: &DashMap<String, BucketState>) -> (ages: Vec<(String, u64)>)
    ensures
        ages@.len() == buckets_of(*map).len(),
        forall|i: int|
            0 <= i < ages@.len() ==> buckets_of(*map).contains_key((#[trigger] ages@[i]).0@)
                && buckets_of(*map)[ages@[i].0@].last_update.nanos == ages@[i].1,
        forall|i: int, j: int|
            0 <= i < j < ages@.len() ==> (#[trigger] ages@[i]).0@ != (#[trigger] ages@[j]).0@,
        forall|key: Seq<char>| #[trigger]
            buckets_of(*map).contains_key(key) ==> exists|i: int|
                0 <= i < ages@.len() && (#[trigger] ages@[i]).0@ == key,
{
    map.iter().map(|entry| (entry.key().clone(), entry.value().last_update.nanos)).collect()
}

/// `sort` of a slice of pairs of integers: the same pairs, in ascending order, the first
/// component deciding before the second.
#[verifier::external_body]
fn sort_pairs(pairs: &mut Vec<(u64, usize)>)
    ensures
        final(pairs)@.to_multiset() == old(pairs)@.to_multiset(),
        forall|i: int, j: int|
            0 <= i < j < final(pairs)@.len() ==> {
                let (a, b) = (#[trigger] final(pairs)@[i], #[trigger] final(pairs)@[j]);
                a.0 < b.0 || a.0 == b.0 && a.1 <= b.1
            },
{
    pairs.sort();
}

/// Whether a bucket was updated within `ttl` before `now`.
pub open spec fn fresh(state: BucketState, now: Instant, ttl: Duration) -> bool {
    now.elapsed(state.last_update) <= ttl.total()
}

/// The entries that are fresh.
pub open spec fn fresh_only(
    buckets: Map<Seq<char>, BucketState>,
    now: Instant,
    ttl: Duration,
) -> Map<Seq<char>, BucketState> {
    buckets.restrict(Set::new(|key: Seq<char>| fresh(buckets[key], now, ttl)))
}

pub fn is_fresh(state: &BucketState, now: Instant, ttl: Duration) -> (r: bool)
    ensures
        r == fresh(*state, now, ttl),
{
    now.duration_since(state.last_update).as_nanos() <= ttl.as_nanos()
}

/// Whether `kept` is what an eviction may leave of `buckets`: all of them where they are no more
/// than `limit`, else just so many, and none that is older than one that was taken out.
pub open spec fn keeps_youngest(
    buckets: Map<Seq<char>, BucketState>,
    kept: Map<Seq<char>, BucketState>,
    limit: nat,
) -> bool {
    &&& kept.submap_of(buckets)
    &&& if buckets.len() <= limit {
        kept == buckets
    } else {
        &&& kept.len() == limit
        &&& forall|gone: Seq<char>, key: Seq<char>|
            #![trigger buckets.contains_key(gone), kept.contains_key(key)]
            buckets.contains_key(gone) && !kept.contains_key(gone) && kept.contains_key(key)
                ==> buckets[gone].last_update.nanos <= buckets[key].last_update.nanos
    }
}

/// A store in memory.
pub struct MemoryStore {
    buckets: DashMap<String, BucketState>,
    max_entries: usize,
}

impl View for MemoryStore {
    type V = Map<Seq<char>, BucketState>;

    closed spec fn view(&self) -> Map<Seq<char>, BucketState> {
        buckets_of(self.buckets)
    }
}

impl MemoryStore {
    /// The number of entries that an eviction leaves at most.
    pub closed spec fn limit(&self) -> usize {
        self.max_entries
    }

    pub fn new(max_entries: usize) -> (r: Self)
        ensures
            r@ == no_buckets(),
            r.limit() == max_entries,
    {
        MemoryStore { buckets: map_new(), max_entries }
    }

    /// The map that holds the buckets. Who changes the map through the reference changes the
    /// store.
    pub fn buckets(&self) -> (r: &DashMap<String, BucketState>)
        ensures
            buckets_of(*r) == self@,
    {
        &self.buckets
    }

    pub fn bucket_count(&self) -> (n: usize)
        ensures
            n == self@.len(),
    {
        map_len(&self.buckets)
    }

    /// The state under `key`, if there is one.
    pub fn lookup(&self, key: &str) -> (state: Option<BucketState>)
        ensures
            state == stored(self@, key@),
    {
        map_get(&self.buckets, key)
    }

    /// Puts a state under `key`.
    pub fn put(&mut self, key: &str, state: BucketState)
        ensures
            final(self)@ == old(self)@.insert(key@, state),
            final(self).limit() == old(self).limit(),
    {
        map_insert(&mut self.buckets, key, state);
    }

    /// Takes out the buckets that were not updated within `ttl`, and then the oldest ones that
    /// are in excess of the limit.
    pub fn evict(&mut self, now: Instant, ttl: Duration)
        ensures
            keeps_youngest(
                fresh_only(old(self)@, now, ttl),
                final(self)@,
                old(self).limit() as nat,
            ),
            final(self).limit() == old(self).limit(),
    {
        map_retain(&mut self.buckets, now, ttl);
        let ghost all = buckets_of(self.buckets);
        let count: usize = map_len(&self.buckets);
        if count <= self.max_entries {
            return;
        }
        let ages: Vec<(String, u64)> = map_ages(&self.buckets);
        proof {
            let keys = ages@.map_values(|age: (String, u64)| age.0@);
            assert forall|key: Seq<char>| all.dom().contains(key) implies keys.to_set().contains(
                key,
            ) by {
                assert(all.contains_key(key));
                let i = choose|i: int| 0 <= i < ages@.len() && (#[trigger] ages@[i]).0@ == key;
                assert(keys[i] == key);
            }
            vstd::seq_lib::seq_to_set_is_finite(keys);
            vstd::set_lib::lemma_set_subset_finite(keys.to_set(), all.dom());
        }
        let mut pairs: Vec<(u64, usize)> = Vec::new();
        let n: usize = ages.len();
        let mut i: usize = 0;
        while i < n
            invariant
                i <= n == ages@.len(),
                pairs@.len() == i,
                forall|j: int| 0 <= j < i ==> #[trigger] pairs@[j] == (ages@[j].1, j as usize),
            decreases n - i,
        {
            pairs.push((ages[i].1, i));
            i = i + 1;
        }
        let ghost before = pairs@;
        sort_pairs(&mut pairs);
        let ghost sorted = pairs@;
        proof {
            lemma_permutation(before, sorted);
        }
        let excess: usize = count - self.max_entries;
        let mut k: usize = 0;
        while k < excess
            invariant
                k <= excess <= n,
                n == ages@.len() == before.len() == sorted.len(),
                pairs@ == sorted,
                forall|j: int| 0 <= j < n ==> #[trigger] before[j] == (ages@[j].1, j as usize),
                sorted.no_duplicates(),
                forall|j: int| 0 <= j < n ==> before.contains(#[trigger] sorted[j]),
                forall|i: int, j: int|
                    0 <= i < j < n ==> (#[trigger] ages@[i]).0@ != (#[trigger] ages@[j]).0@,
                forall|i: int| 0 <= i < n ==> all.contains_key((#[trigger] ages@[i]).0@),
                self.max_entries == old(self).max_entries,
                all.dom().finite(),
                buckets_of(self.buckets).submap_of(all),
                buckets_of(self.buckets).len() == all.len() - k,
                forall|key: Seq<char>| #[trigger]
                    buckets_of(self.buckets).contains_key(key) <==> all.contains_key(key)
                        && !is_among(ages@, sorted, k as int, key),
            decreases excess - k,
        {
            proof {
                assert(before.contains(sorted[k as int]));
                assert(sorted[k as int].1 < n);
                let key = ages@[sorted[k as int].1 as int].0@;
                if is_among(ages@, sorted, k as int, key) {
                    let j = choose|j: int|
                        0 <= j < k && ages@[(#[trigger] sorted[j]).1 as int].0@ == key;
                    assert(before.contains(sorted[j]));
                    assert(sorted[j].1 == sorted[k as int].1);
                    assert(sorted[j] == sorted[k as int]);
                }
                assert(buckets_of(self.buckets).contains_key(key));
                assert(buckets_of(self.buckets).dom().subset_of(all.dom()));
                vstd::set_lib::lemma_len_subset(buckets_of(self.buckets).dom(), all.dom());
            }
            let ghost previous = buckets_of(self.buckets);
            map_remove(&mut self.buckets, ages[pairs[k].1].0.as_str());
            proof {
                let key = ages@[sorted[k as int].1 as int].0@;
                assert(buckets_of(self.buckets).dom() =~= previous.dom().remove(key));
                assert forall|other: Seq<char>| #[trigger]
                    buckets_of(self.buckets).contains_key(other) <==> all.contains_key(other)
                        && !is_among(ages@, sorted, k + 1, other) by {
                    if is_among(ages@, sorted, k as int, other) {
                        let j = choose|j: int|
                            0 <= j < k && ages@[(#[trigger] sorted[j]).1 as int].0@ == other;
                        assert(0 <= j < k + 1 && ages@[sorted[j].1 as int].0@ == other);
                    }
                    assert(ages@[sorted[k as int].1 as int].0@ == key);
                }
            }
            k = k + 1;
        }
        proof {
            let kept = buckets_of(self.buckets);
            assert forall|gone: Seq<char>, key: Seq<char>|
                #![trigger all.contains_key(gone), kept.contains_key(key)]
                all.contains_key(gone) && !kept.contains_key(gone) && kept.contains_key(
                    key,
                ) implies all[gone].last_update.nanos <= all[key].last_update.nanos by {
                assert(is_among(ages@, sorted, excess as int, gone));
                let a = choose|j: int|
                    0 <= j < excess && ages@[(#[trigger] sorted[j]).1 as int].0@ == gone;
                assert(all.contains_key(key));
                let p = choose|i: int| 0 <= i < ages@.len() && (#[trigger] ages@[i]).0@ == key;
                assert(before[p] == (ages@[p].1, p as usize));
                assert(sorted.contains(before[p]));
                let b = choose|j: int| 0 <= j < sorted.len() && sorted[j] == before[p];
                assert(b >= excess) by {
                    if b < excess {
                        assert(ages@[sorted[b].1 as int].0@ == key);
                        assert(is_among(ages@, sorted, excess as int, key));
                    }
                }
                assert(before.contains(sorted[a]));
                assert(sorted[a].0 <= sorted[b].0);
            }
        }
    }
}

/// Whether `key` is one of those that the first `n` pairs point at.
spec fn is_among(
    ages: Seq<(String, u64)>,
    pairs: Seq<(u64, usize)>,
    n: int,
    key: Seq<char>,
) -> bool {
    exists|j: int| 0 <= j < n && ages[(#[trigger] pairs[j]).1 as int].0@ == key
}

/// A sequence of numbered pairs and a rearrangement of it hold the same pairs, each once.
proof fn lemma_permutation(before: Seq<(u64, usize)>, after: Seq<(u64, usize)>)
    requires
        after.to_multiset() == before.to_multiset(),
        forall|j: int| 0 <= j < before.len() ==> (#[trigger] before[j]).1 == j,
    ensures
        after.len() == before.len(),
        after.no_duplicates(),
        forall|j: int| 0 <= j < after.len() ==> before.contains(#[trigger] after[j]),
        forall|j: int| 0 <= j < before.len() ==> after.contains(#[trigger] before[j]),
{
    broadcast use vstd::seq_lib::group_to_multiset_ensures;

    before.to_multiset_ensures();
    after.to_multiset_ensures();
    before.lemma_multiset_has_no_duplicates();
    after.lemma_multiset_has_no_duplicates_conv();
    assert forall|j: int| 0 <= j < after.len() implies before.contains(#[trigger] after[j]) by {
        assert(after.contains(after[j]));
        assert(after.to_multiset().count(after[j]) > 0);
    }
    assert forall|j: int| 0 <= j < before.len() implies after.contains(#[trigger] before[j]) by {
        assert(before.contains(before[j]));
        assert(before.to_multiset().count(before[j]) > 0);
    }
}

impl StateStore for MemoryStore {
    fn get(&self, key: &str) -> (r: Result<Option<BucketState>, StoreError>)
        ensures
            r == Ok::<Option<BucketState>, StoreError>(stored(self@, key@)),
    {
        Ok(self.lookup(key))
    }

    /// The store keeps an entry until an eviction takes it out, whatever `ttl` says.
    fn set(&mut self, key: &str, state: BucketState, ttl: Duration) -> (r: Result<(), StoreError>)
        ensures
            r is Ok,
            final(self)@ == old(self)@.insert(key@, state),
            final(self).limit() == old(self).limit(),
    {
        self.put(key, state);
        Ok(())
    }

    fn increment(&mut self, key: &str, delta: Binary64, ttl: Duration, now: Instant) -> (r: Result<
        Binary64,
        StoreError,
    >)
        ensures
            r == Ok::<Binary64, StoreError>(incremented(old(self)@, key@, delta)),
            final(self)@ == old(self)@.insert(
                key@,
                BucketState { tokens: incremented(old(self)@, key@, delta), last_update: now },
            ),
            final(self).limit() == old(self).limit(),
    {
        let tokens: Binary64 = match self.lookup(key) {
            Some(state) => state.tokens.add(delta),
            None => delta,
        };
        self.put(key, BucketState { tokens, last_update: now });
        Ok(tokens)
    }

    fn delete(&mut self, key: &str) -> (r: Result<(), StoreError>)
        ensures
            r is Ok,
            final(self)@ == old(self)@.remove(key@),
            final(self).limit() == old(self).limit(),
    {
        map_remove(&mut self.buckets, key);
        Ok(())
    }

    fn is_healthy(&self) -> (r: bool)
        ensures
            r,
    {
        true
    }

    fn store_name(&self) -> (r: &'static str)
        ensures
            r@ == "memory"@,
    {
        "memory"
    }
}

/// What was put under a key is found there, and what is under the other keys stays.
pub proof fn put_is_found(
    buckets: Map<Seq<char>, BucketState>,
    key: Seq<char>,
    state: BucketState,
    other: Seq<char>,
)
    ensures
        stored(buckets.insert(key, state), key) == Some(state),
        other != key ==> stored(buckets.insert(key, state), other) == stored(buckets, other),
{
}

/// What was deleted is not found, and what is under the other keys stays.
pub proof fn deleted_is_gone(
    buckets: Map<Seq<char>, BucketState>,
    key: Seq<char>,
    other: Seq<char>,
)
    ensures
        stored(buckets.remove(key), key) is None,
        other != key ==> stored(buckets.remove(key), other) == stored(buckets, other),
{
}

/// An eviction leaves no more buckets than the limit, none that is not fresh, and those that it
/// leaves as they were; where the fresh ones are within the limit, it leaves them all.
pub proof fn eviction_keeps_the_limit(
    buckets: Map<Seq<char>, BucketState>,
    kept: Map<Seq<char>, BucketState>,
    limit: nat,
    now: Instant,
    ttl: Duration,
    key: Seq<char>,
)
    requires
        keeps_youngest(fresh_only(buckets, now, ttl), kept, limit),
    ensures
        kept.len() <= limit,
        kept.contains_key(key) ==> buckets.contains_key(key) && fresh(buckets[key], now, ttl)
            && kept[key] == buckets[key],
        fresh_only(buckets, now, ttl).len() <= limit && buckets.contains_key(key) && fresh(
            buckets[key],
            now,
            ttl,
        ) ==> kept.contains_key(key),
{
    let all = fresh_only(buckets, now, ttl);
    if kept.contains_key(key) {
        assert(all.contains_key(key));
    }
}

/// A bucket is fresh if it was updated no longer ago than the time to live.
pub proof fn fresh_within_the_time_to_live(state: BucketState, now: Instant, ttl: Duration)
    ensures
        fresh(state, now, ttl) <==> now.nanos <= state.last_update.nanos + ttl.secs
            * 1_000_000_000 + ttl.nanos,
{
}

/// An eviction leaves a bucket as it was or takes it out. It takes out all that are not fresh. Of
/// the fresh ones it leaves all, or, where they are more than the limit, just so many, and none
/// that is older than one that it takes out.
pub proof fn eviction_takes_the_oldest(
    buckets: Map<Seq<char>, BucketState>,
    kept: Map<Seq<char>, BucketState>,
    limit: nat,
    now: Instant,
    ttl: Duration,
    key: Seq<char>,
    other: Seq<char>,
)
    requires
        keeps_youngest(fresh_only(buckets, now, ttl), kept, limit),
    ensures
        ({
            let is_fresh = |key: Seq<char>|
                buckets.contains_key(key) && now.nanos <= buckets[key].last_update.nanos + ttl.secs
                    * 1_000_000_000 + ttl.nanos;
            let fresh_keys = fresh_only(buckets, now, ttl).dom();
            &&& fresh_keys.contains(key) <==> is_fresh(key)
            &&& kept.contains_key(key) ==> is_fresh(key) && kept[key] == buckets[key]
            &&& fresh_keys.len() <= limit && is_fresh(key) ==> kept.contains_key(key)
            &&& fresh_keys.len() > limit ==> kept.len() == limit
            &&& is_fresh(key) && !kept.contains_key(key) && kept.contains_key(other)
                ==> buckets[key].last_update.nanos <= buckets[other].last_update.nanos
        }),
{
    let all = fresh_only(buckets, now, ttl);
    if kept.contains_key(key) {
        assert(all.contains_key(key));
    }
    if kept.contains_key(other) {
        assert(all.contains_key(other));
    }
    if buckets.contains_key(key) {
        fresh_within_the_time_to_live(buckets[key], now, ttl);
    }
}

/// An increment adds to the tokens that are there, and starts from none.
pub proof fn increments_add_up(
    buckets: Map<Seq<char>, BucketState>,
    key: Seq<char>,
    delta: Binary64,
)
    ensures
        !buckets.contains_key(key) ==> incremented(buckets, key, delta) == delta,
        buckets.contains_key(key) ==> incremented(buckets, key, delta) == buckets[key].tokens.plus(
            delta,
        ),
{
}

} // verus!
