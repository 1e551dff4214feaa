//! Algorithms that decide whether a request is within its limit.

pub mod counting;
pub mod decisions;
pub mod estimates;
pub mod laws;
pub mod token_bucket;
pub mod waiting;

use crate::store::memory::MemoryStore;
#[allow(unused_imports)]
use crate::store::BucketState;
use crate::store::StoreError;
use crate::time::{Deadline, Duration, Instant};
use vstd::prelude::*;
#[allow(unused_imports)]
use vstd::string::*;

verus! {

/// What a limiter says of a request.
#[derive(Clone, Copy, Debug, PartialEq, Eq, Structural)]
pub struct Decision {
    pub allowed: bool,
    pub remaining: u64,
    pub limit: u64,
    pub reset_at: Deadline,
    pub retry_after: Option<Duration>,
}

#[derive(Clone, Debug, PartialEq, Eq)]
pub enum LimiterError {
    Store(StoreError),
    /// A time to wait is longer than any length of time.
    Endless,
}

impl LimiterError {
    /// What the error reads as.
    pub open spec fn text(self) -> Seq<char> {
        match self {
            LimiterError::Store(error) => "store error: "@ + error.text(),
            LimiterError::Endless => "endless wait"@,
        }
    }

    pub fn message(&self) -> (r: String)
        ensures
            r@ == self.text(),
    {
        match self {
            LimiterError::Store(error) => {
                let mut s: String = "store error: ".to_owned();
                s.append(error.message().as_str());
                s
            },
            LimiterError::Endless => "endless wait".to_owned(),
        }
    }
}

/// A limiter. What it answers, and what it leaves of the buckets, is up to the algorithm.
pub trait RateLimiter {
    /// What a check answers.
    spec fn answer(
        &self,
        buckets: Map<Seq<char>, BucketState>,
        key: Seq<char>,
        cost: u64,
        peek: bool,
        now: Instant,
    ) -> Result<Decision, LimiterError>;

    /// What a check leaves of the buckets.
    spec fn after_check(
        &self,
        buckets: Map<Seq<char>, BucketState>,
        key: Seq<char>,
        cost: u64,
        peek: bool,
        now: Instant,
    ) -> Map<Seq<char>, BucketState>;

    /// Asks for `cost` tokens under `key`; with `peek`, without taking them.
    fn check(
        &self,
        store: &mut MemoryStore,
        key: &str,
        cost: u64,
        peek: bool,
        now: Instant,
    ) -> (r: Result<Decision, LimiterError>)
        ensures
            r == self.answer(old(store)@, key@, cost, peek, now),
            final(store)@ == self.after_check(old(store)@, key@, cost, peek, now),
            final(store).limit() == old(store).limit(),
    ;

    fn algorithm_name(&self) -> &'static str;
}

/// Errors of the store are told as such.
pub proof fn limiter_errors_are_told(error: StoreError)
    ensures
        LimiterError::Store(error).text() == "store error: "@ + error.text(),
{
}

} // verus!
