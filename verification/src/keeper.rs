//! The way of a request through the lists, the policies and the limits.

use crate::algorithm::token_bucket::TokenBucket;
use crate::algorithm::RateLimiter;
use crate::config::{Config, FailMode};
use crate::identity::ip::IpExtractor;
#[allow(unused_imports)]
use crate::identity::IdentityExtractor;
use crate::middleware::access_control::{AccessControl, AccessControlLayer};
#[allow(unused_imports)]
use crate::middleware::access_control::{is_forbidden, networks, AllowlistBypassed};
use crate::middleware::rate_limit::{RateLimitLayer, Verdict};
#[allow(unused_imports)]
use crate::middleware::rate_limit::{
    follows, identity_key, policies_have_their_own_buckets, scoped_key,
};
use crate::policy::{PolicyEngine, ResolvedPolicy};
use crate::request::Request;
use crate::response::Response;
#[allow(unused_imports)]
use crate::store::memory::{fresh_only, keeps_youngest, no_buckets};
use crate::store::memory::MemoryStore;
#[allow(unused_imports)]
use crate::store::BucketState;
#[allow(unused_imports)]
use crate::text::decimal;
use crate::time::{Duration, Instant};
use vstd::prelude::*;
#[allow(unused_imports)]
use vstd::string::*;

verus! {

/// Decides on requests by the rules of a configuration.
pub struct Keeper {
    access: AccessControlLayer,
    engine: PolicyEngine,
    store: MemoryStore,
    fail_mode: FailMode,
}

/// A policy's key of the bucket that a request takes tokens from.
pub open spec fn policy_key(policy: ResolvedPolicy, req: Request) -> Seq<char> {
    scoped_key(Some(policy.name@), identity_key(policy.extractor, req))
}

impl Keeper {
    /// The lists of those kept out and of those not limited.
    pub closed spec fn access(self) -> AccessControlLayer {
        self.access
    }

    pub closed spec fn engine(self) -> PolicyEngine {
        self.engine
    }

    pub closed spec fn buckets(self) -> Map<Seq<char>, BucketState> {
        self.store@
    }

    /// The number of buckets that an eviction leaves at most.
    pub closed spec fn limit(self) -> usize {
        self.store.limit()
    }

    pub closed spec fn fail_mode(self) -> FailMode {
        self.fail_mode
    }

    /// Whether the rules of two keepers are the same.
    pub open spec fn same_rules(self, other: Keeper) -> bool {
        &&& self.access() == other.access()
        &&& self.engine() == other.engine()
        &&& self.limit() == other.limit()
        &&& self.fail_mode() == other.fail_mode()
    }

    /// The policy that applies to a request.
    pub open spec fn policy(self, req: Request) -> ResolvedPolicy {
        self.engine().applicable(req.path@, req.method@)
    }

    /// Whether a request is let in without being counted.
    pub open spec fn skips(self, req: Request) -> bool {
        self.access().exempts(req) || req.bypass is Some || self.policy(req).bypass
    }

    pub fn new(config: &Config) -> (r: Self)
        ensures
            r.access().lists().denied_ips() == networks(config.access.denylist_ips@),
            r.access().lists().denied_keys() == config.access.denylist_keys@,
            r.access().lists().allowed_ips() == networks(config.access.allowlist_ips@),
            r.access().lists().allowed_keys() == config.access.allowlist_keys@,
            r.engine().reflects(*config),
            r.buckets() == no_buckets(),
            r.limit() == config.store.memory.max_entries,
            r.fail_mode() == config.defaults.fail_mode,
    {
        Keeper {
            access: AccessControlLayer::new(AccessControl::from_config(&config.access)),
            engine: PolicyEngine::new(config),
            store: MemoryStore::new(config.store.memory.max_entries),
            fail_mode: config.defaults.fail_mode,
        }
    }

    /// Decides on a request: one that is kept out is answered so, one that is exempt, or whose
    /// policy is, goes on, and any other is held against the limit of its policy.
    pub fn call(&mut self, req: &mut Request, now: Instant) -> (r: Result<Verdict, Response>)
        ensures
            final(self).same_rules(*old(self)),
            *final(req) == if old(self).access().exempts(*old(req)) {
                Request { bypass: Some(AllowlistBypassed), ..*old(req) }
            } else {
                *old(req)
            },
            if old(self).access().denies(*old(req)) {
                &&& r matches Err(resp) && is_forbidden(resp)
                &&& final(self).buckets() == old(self).buckets()
            } else if old(self).skips(*old(req)) {
                &&& r matches Ok(verdict) && verdict == Verdict::Skipped
                &&& final(self).buckets() == old(self).buckets()
            } else {
                let policy = old(self).policy(*old(req));
                let key = policy_key(policy, *old(req));
                let (buckets, cost) = (old(self).buckets(), policy.cost);
                &&& r matches Ok(verdict) && follows(
                    verdict,
                    policy.limiter.answer(buckets, key, cost, false, now),
                    old(self).fail_mode(),
                    policy.name@,
                )
                &&& final(self).buckets() == policy.limiter.after_check(
                    buckets,
                    key,
                    cost,
                    false,
                    now,
                )
            },
    {
        let reply: Option<Response> = self.access.call(req);
        if let Some(resp) = reply {
            return Err(resp);
        }
        let policy: &ResolvedPolicy = self.engine.resolve(req.path.as_str(), req.method.as_str());
        if policy.bypass {
            return Ok(Verdict::Skipped);
        }
        let layer: RateLimitLayer<TokenBucket, IpExtractor> = RateLimitLayer::for_policy(
            policy,
            self.fail_mode,
        );
        Ok(layer.call(req, &mut self.store, now))
    }

    /// The name of the algorithm that requests are limited by.
    pub fn algorithm_name(&self) -> (r: &'static str)
        ensures
            r@ == "token_bucket"@,
    {
        self.engine.fallback().limiter.algorithm_name()
    }

    /// Takes out the buckets that were not used within `ttl`, and then the oldest ones in excess.
    pub fn evict(&mut self, now: Instant, ttl: Duration)
        ensures
            final(self).same_rules(*old(self)),
            keeps_youngest(
                fresh_only(old(self).buckets(), now, ttl),
                final(self).buckets(),
                old(self).limit() as nat,
            ),
    {
        self.store.evict(now, ttl);
    }
}

/// What a request takes under one policy leaves the buckets of all other policies as they are.
pub proof fn policies_do_not_interfere(
    policy: ResolvedPolicy,
    req: Request,
    other: ResolvedPolicy,
    other_req: Request,
    buckets: Map<Seq<char>, BucketState>,
    now: Instant,
)
    requires
        policy.name@ != other.name@,
    ensures
        ({
            let after = policy.limiter.after_check(
                buckets,
                policy_key(policy, req),
                policy.cost,
                false,
                now,
            );
            let key = policy_key(other, other_req);
            &&& after.contains_key(key) == buckets.contains_key(key)
            &&& buckets.contains_key(key) ==> after[key] == buckets[key]
        }),
{
    let (a, b) = (policy_key(policy, req), policy_key(other, other_req));
    if a == b {
        policies_have_their_own_buckets(
            policy.name@,
            identity_key(policy.extractor, req),
            other.name@,
            identity_key(other.extractor, other_req),
        );
    }
}

/// A request goes uncounted if and only if it is marked, is on the list of those not limited and
/// not on that of those kept out, or comes under a policy that does not limit.
pub proof fn who_goes_uncounted(keeper: Keeper, req: Request)
    requires
        !keeper.access().denies(req),
    ensures
        keeper.skips(req) <==> req.bypass is Some || keeper.access().exempts(req)
            || keeper.engine().applicable(req.path@, req.method@).bypass,
{
}

/// A request takes tokens from the bucket of whom it is from, under the policy for its path and
/// method.
pub proof fn tokens_come_from_the_requester_under_the_policy(keeper: Keeper, req: Request)
    ensures
        keeper.policy(req) == keeper.engine().applicable(req.path@, req.method@),
        ({
            let policy = keeper.policy(req);
            let key = match policy.extractor.key_of(req) {
                Some(key) => key,
                None => "unknown"@,
            };
            policy_key(policy, req) == decimal(policy.name@.len()) + seq![':'] + policy.name@
                + seq![':'] + key
        }),
{
}

/// Keepers of the same rules have the same lists, policies and limit of buckets, and fail alike.
pub proof fn rules_are_the_same(a: Keeper, b: Keeper)
    ensures
        a.same_rules(b) <==> a.access() == b.access() && a.engine() == b.engine() && a.limit()
            == b.limit() && a.fail_mode() == b.fail_mode(),
{
}

} // verus!
