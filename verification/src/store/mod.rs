//! Where the limiters keep their buckets.

pub mod memory;

use crate::binary64::Binary64;
use crate::time::{Duration, Instant};
use vstd::prelude::*;
#[allow(unused_imports)]
use vstd::string::*;

verus! {

/// The tokens that a bucket held when it was last brought up to date.
#[derive(Clone, Copy, Debug, PartialEq, Eq, Structural)]
pub struct BucketState {
    pub tokens: Binary64,
    pub last_update: Instant,
}

#[derive(Clone, Debug, PartialEq, Eq)]
pub enum StoreError {
    Unavailable(String),
}

impl StoreError {
    /// What the error reads as.
    pub open spec fn text(self) -> Seq<char> {
        match self {
            StoreError::Unavailable(reason) => "store unavailable: "@ + reason@,
        }
    }

    pub fn message(&self) -> (r: String)
        ensures
            r@ == self.text(),
    {
        match self {
            StoreError::Unavailable(reason) => {
                let mut s: String = "store unavailable: ".to_owned();
                s.append(reason.as_str());
                s
            },
        }
    }
}

/// A store of buckets. What an operation promises is up to the store.
pub trait StateStore {
    fn get(&self, key: &str) -> Result<Option<BucketState>, StoreError>;

    fn set(&mut self, key: &str, state: BucketState, ttl: Duration) -> Result<(), StoreError>;

    /// Adds `delta` to the tokens under `key`, and returns their new number.
    fn increment(&mut self, key: &str, delta: Binary64, ttl: Duration, now: Instant) -> Result<
        Binary64,
        StoreError,
    >;

    fn delete(&mut self, key: &str) -> Result<(), StoreError>;

    fn is_healthy(&self) -> bool;

    fn store_name(&self) -> &'static str;
}

/// Errors are told with their reason.
pub proof fn store_errors_are_told(reason: String)
    ensures
        StoreError::Unavailable(reason).text() == "store unavailable: "@ + reason@,
{
}

} // verus!
