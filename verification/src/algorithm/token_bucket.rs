//! The token bucket: a bucket holds at most `capacity` tokens and is refilled at a constant rate.
//! A request takes as many tokens as it costs, and is denied where the bucket holds fewer.

use crate::algorithm::{Decision, LimiterError, RateLimiter};
use crate::binary64::Binary64;
use crate::store::memory::MemoryStore;
use crate::store::BucketState;
#[allow(unused_imports)]
use crate::time::of_nanos;
use crate::time::{Deadline, Duration, Instant};
use vstd::prelude::*;

verus! {

#[derive(Clone, Copy, Debug, PartialEq, Eq, Structural)]
pub struct TokenBucket {
    capacity: Binary64,
    refill_rate: Binary64,
}

/// What comes of a request: what is written back to the bucket, if anything, and the decision,
/// unless a time to wait is longer than any length of time.
#[derive(Clone, Copy, Debug, PartialEq, Eq, Structural)]
pub struct Outcome {
    pub commit: Option<BucketState>,
    pub decision: Option<Decision>,
}

/// The time that a number of seconds stands for, where a value below 0, or one that is not a
/// number, stands for no time at all.
pub open spec fn wait_of(seconds: Binary64) -> Option<Duration> {
    if seconds.is_nan() || seconds.negative() {
        Some(of_nanos(0))
    } else {
        Duration::of_seconds(seconds)
    }
}

fn wait(seconds: Binary64) -> (r: Option<Duration>)
    ensures
        r == wait_of(seconds),
{
    if seconds.ge(Binary64 { bits: 0 }) && seconds.bits < crate::binary64::SIGN {
        Duration::from_seconds(seconds)
    } else {
        Some(Duration::from_secs(0))
    }
}

impl TokenBucket {
    /// The tokens that a full bucket holds.
    pub closed spec fn capacity(self) -> Binary64 {
        self.capacity
    }

    /// The tokens that are added per second.
    pub closed spec fn refill_rate(self) -> Binary64 {
        self.refill_rate
    }

    pub fn new(capacity: u64, refill_rate: Binary64) -> (r: Self)
        ensures
            r.capacity() == Binary64::of_whole(capacity as nat),
            r.refill_rate() == refill_rate,
    {
        TokenBucket { capacity: Binary64::from_whole(capacity as u128), refill_rate }
    }

    /// A bucket that nobody has used yet.
    pub open spec fn full(self, now: Instant) -> BucketState {
        BucketState { tokens: self.capacity(), last_update: now }
    }

    /// The tokens in a bucket at `now`: those that it held, and those added since, up to the
    /// capacity.
    pub open spec fn refilled(self, state: BucketState, now: Instant) -> Binary64 {
        let elapsed = of_nanos(now.elapsed(state.last_update)).seconds();
        state.tokens.plus(elapsed.times(self.refill_rate())).lesser(self.capacity())
    }

    /// Whether a bucket affords `cost` tokens at `now`.
    pub open spec fn affords(self, state: BucketState, cost: u64, now: Instant) -> bool {
        self.refilled(state, now).at_least(Binary64::of_whole(cost as nat))
    }

    /// The tokens that are left: the cost is taken only where it is afforded, and never by a
    /// peek.
    pub open spec fn left(
        self,
        state: BucketState,
        cost: u64,
        peek: bool,
        now: Instant,
    ) -> Binary64 {
        let refilled = self.refilled(state, now);
        if !peek && self.affords(state, cost, now) {
            refilled.minus(Binary64::of_whole(cost as nat))
        } else {
            refilled
        }
    }

    /// Whether the requester is told when to come back: not after a peek, and not where nothing
    /// is ever added.
    pub open spec fn must_wait(
        self,
        state: BucketState,
        cost: u64,
        peek: bool,
        now: Instant,
    ) -> bool {
        !peek && !self.affords(state, cost, now) && self.refill_rate().positive()
    }

    /// The time until the missing tokens are there.
    pub open spec fn retry(self, state: BucketState, cost: u64, now: Instant) -> Option<Duration> {
        Duration::of_seconds(
            Binary64::of_whole(cost as nat).minus(self.refilled(state, now)).over(
                self.refill_rate(),
            ),
        )
    }

    /// The time until a bucket with the given tokens is full.
    pub open spec fn time_to_full(self, tokens: Binary64) -> Option<Duration> {
        if self.refill_rate().positive() {
            wait_of(self.capacity().minus(tokens).over(self.refill_rate()))
        } else {
            Some(of_nanos(0))
        }
    }

    pub open spec fn outcome(
        self,
        state: BucketState,
        cost: u64,
        peek: bool,
        now: Instant,
    ) -> Outcome {
        let tokens = self.left(state, cost, peek, now);
        let waits = self.must_wait(state, cost, peek, now);
        let retry_after = if waits {
            self.retry(state, cost, now)
        } else {
            None
        };
        if waits && retry_after is None {
            Outcome { commit: None, decision: None }
        } else {
            Outcome {
                commit: if peek {
                    None
                } else {
                    Some(BucketState { tokens, last_update: now })
                },
                decision: match self.time_to_full(tokens) {
                    None => None,
                    Some(time) => Some(
                        Decision {
                            allowed: self.affords(state, cost, now),
                            remaining: tokens.whole_part(),
                            limit: self.capacity().whole_part(),
                            reset_at: now.after(time),
                            retry_after,
                        },
                    ),
                },
            }
        }
    }

    /// Decides on a request for `cost` tokens from a bucket.
    pub fn decide(&self, state: BucketState, cost: u64, peek: bool, now: Instant) -> (r: Outcome)
        ensures
            r == self.outcome(state, cost, peek, now),
    {
        let price: Binary64 = Binary64::from_whole(cost as u128);
        let elapsed: Binary64 = now.duration_since(state.last_update).as_seconds();
        let refilled: Binary64 = state.tokens.add(elapsed.mul(self.refill_rate)).min(self.capacity);
        let allowed: bool = refilled.ge(price);
        let refills: bool = self.refill_rate.is_positive();
        let mut tokens: Binary64 = refilled;
        let mut retry_after: Option<Duration> = None;
        if !peek {
            if allowed {
                tokens = refilled.sub(price);
            } else if refills {
                match Duration::from_seconds(price.sub(refilled).div(self.refill_rate)) {
                    Some(time) => {
                        retry_after = Some(time);
                    },
                    None => {
                        return Outcome { commit: None, decision: None };
                    },
                }
            }
        }
        let commit: Option<BucketState> = if peek {
            None
        } else {
            Some(BucketState { tokens, last_update: now })
        };
        let full: Option<Duration> = if refills {
            wait(self.capacity.sub(tokens).div(self.refill_rate))
        } else {
            Some(Duration::from_secs(0))
        };
        let decision: Option<Decision> = match full {
            None => None,
            Some(time) => {
                let reset_at: Deadline = now.plus(time);
                Some(
                    Decision {
                        allowed,
                        remaining: tokens.whole(),
                        limit: self.capacity.whole(),
                        reset_at,
                        retry_after,
                    },
                )
            },
        };
        Outcome { commit, decision }
    }

    /// The bucket under `key`, which is full where there is none yet.
    pub open spec fn bucket(
        self,
        buckets: Map<Seq<char>, BucketState>,
        key: Seq<char>,
        now: Instant,
    ) -> BucketState {
        if buckets.contains_key(key) {
            buckets[key]
        } else {
            self.full(now)
        }
    }
}

impl RateLimiter for TokenBucket {
    /// What a check answers.
    open spec fn answer(
        &self,
        buckets: Map<Seq<char>, BucketState>,
        key: Seq<char>,
        cost: u64,
        peek: bool,
        now: Instant,
    ) -> Result<Decision, LimiterError> {
        match self.outcome(self.bucket(buckets, key, now), cost, peek, now).decision {
            Some(decision) => Ok(decision),
            None => Err(LimiterError::Endless),
        }
    }

    /// What a check leaves of the buckets: the one under `key` is there, and what the outcome
    /// commits is written to it.
    open spec fn after_check(
        &self,
        buckets: Map<Seq<char>, BucketState>,
        key: Seq<char>,
        cost: u64,
        peek: bool,
        now: Instant,
    ) -> Map<Seq<char>, BucketState> {
        let state = self.bucket(buckets, key, now);
        match self.outcome(state, cost, peek, now).commit {
            Some(new) => buckets.insert(key, new),
            None => buckets.insert(key, state),
        }
    }

    fn check(
        &self,
        store: &mut MemoryStore,
        key: &str,
        cost: u64,
        peek: bool,
        now: Instant,
    ) -> (r: Result<Decision, LimiterError>) {
        let state: BucketState = match store.lookup(key) {
            Some(state) => state,
            None => {
                let state = BucketState { tokens: self.capacity, last_update: now };
                store.put(key, state);
                state
            },
        };
        assert(store@ =~= old(store)@.insert(key@, state));
        let outcome: Outcome = self.decide(state, cost, peek, now);
        if let Some(new) = outcome.commit {
            store.put(key, new);
        }
        assert(store@ =~= self.after_check(old(store)@, key@, cost, peek, now));
        match outcome.decision {
            Some(decision) => Ok(decision),
            None => Err(LimiterError::Endless),
        }
    }

    fn algorithm_name(&self) -> (r: &'static str)
        ensures
            r@ == "token_bucket"@,
    {
        "token_bucket"
    }
}

} // verus!
