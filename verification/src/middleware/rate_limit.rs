//! The limit on requests.

use crate::algorithm::{Decision, LimiterError, RateLimiter};
use crate::config::FailMode;
use crate::headers::new_headers;
#[allow(unused_imports)]
use crate::headers::{fields_of, no_fields};
#[allow(unused_imports)]
use crate::identity::ip::{client_address, ip_key, keys_tell_addresses_apart, IpExtractor};
use crate::identity::IdentityExtractor;
use crate::policy::ResolvedPolicy;
use crate::request::Request;
use crate::response::{build_429_response, Response};
#[allow(unused_imports)]
use crate::response::{denial_fields, denial_text};
use crate::store::memory::MemoryStore;
#[allow(unused_imports)]
use crate::store::{BucketState, StoreError};
#[allow(unused_imports)]
use crate::text::{decimal, decimal_holds_digits, decimal_is_injective};
use crate::text::to_decimal;
use crate::time::Instant;
use vstd::prelude::*;
#[allow(unused_imports)]
use vstd::string::*;

verus! {

/// What becomes of a request.
pub enum Verdict {
    /// It goes on, without having been counted.
    Skipped,
    /// It goes on, and the response tells of the limit.
    Allowed(Decision),
    /// It is answered that the limit is exceeded.
    Denied(Response),
    /// The limiter failed; the request goes on.
    FailedOpen(LimiterError),
    /// The limiter failed; the request is answered that it cannot be served.
    FailedClosed(LimiterError, Response),
    /// A time to wait is longer than any length of time.
    Endless,
}

/// Whether a response tells a requester that the limit is exceeded.
pub open spec fn is_denial(resp: Response, decision: Decision, policy_name: Seq<char>) -> bool {
    &&& resp.status == 429
    &&& fields_of(resp.headers) == denial_fields(decision)
    &&& resp.body@ == denial_text(decision, policy_name)
    &&& resp.decision == Some(decision)
}

/// Whether a response tells a requester that it cannot be served.
pub open spec fn is_unavailable(resp: Response) -> bool {
    &&& resp.status == 503
    &&& fields_of(resp.headers) == no_fields()
    &&& resp.body@ == "service unavailable"@
    &&& resp.decision is None
}

/// Whether a verdict follows from what the limiter says.
pub open spec fn follows(
    verdict: Verdict,
    result: Result<Decision, LimiterError>,
    fail_mode: FailMode,
    policy_name: Seq<char>,
) -> bool {
    match result {
        Ok(decision) => if decision.allowed {
            verdict == Verdict::Allowed(decision)
        } else {
            verdict matches Verdict::Denied(resp) && is_denial(resp, decision, policy_name)
        },
        Err(LimiterError::Endless) => verdict == Verdict::Endless,
        Err(error) => match fail_mode {
            FailMode::Open => verdict == Verdict::FailedOpen(error),
            FailMode::Closed => verdict matches Verdict::FailedClosed(reason, resp) && reason
                == error && is_unavailable(resp),
        },
    }
}

/// Draws the consequence of what the limiter says.
pub fn respond(
    result: Result<Decision, LimiterError>,
    fail_mode: FailMode,
    policy_name: &str,
) -> (r: Verdict)
    ensures
        follows(r, result, fail_mode, policy_name@),
{
    match result {
        Ok(decision) => if decision.allowed {
            Verdict::Allowed(decision)
        } else {
            Verdict::Denied(build_429_response(&decision, policy_name))
        },
        Err(LimiterError::Endless) => Verdict::Endless,
        Err(error) => match fail_mode {
            FailMode::Open => Verdict::FailedOpen(error),
            FailMode::Closed => {
                let resp = Response {
                    status: 503,
                    headers: new_headers(),
                    body: "service unavailable".to_owned(),
                    decision: None,
                };
                Verdict::FailedClosed(error, resp)
            },
        },
    }
}

impl Verdict {
    /// What a request is counted as in the metrics.
    pub open spec fn status(self) -> Option<Seq<char>> {
        match self {
            Verdict::Allowed(_) => Some("allowed"@),
            Verdict::Denied(_) => Some("denied"@),
            Verdict::FailedOpen(_) => Some("error"@),
            _ => None,
        }
    }

    pub fn metric_status(&self) -> (r: Option<&'static str>)
        ensures
            match self.status() {
                Some(status) => r matches Some(text) && text@ == status,
                None => r is None,
            },
    {
        match self {
            Verdict::Allowed(_) => Some("allowed"),
            Verdict::Denied(_) => Some("denied"),
            Verdict::FailedOpen(_) => Some("error"),
            _ => None,
        }
    }
}

/// Whom a request is counted for.
pub open spec fn identity_key<E: IdentityExtractor>(extractor: E, req: Request) -> Seq<char> {
    match extractor.key_of(req) {
        Some(key) => key,
        None => "unknown"@,
    }
}

/// The key of a bucket: policies do not share their buckets.
pub open spec fn scoped_key(policy: Option<Seq<char>>, key: Seq<char>) -> Seq<char> {
    match policy {
        Some(name) => decimal(name.len()) + seq![':'] + name + seq![':'] + key,
        None => key,
    }
}

fn scope_key(policy: &Option<String>, key: &str) -> (r: String)
    ensures
        r@ == scoped_key(policy_text(*policy), key@),
{
    match policy {
        Some(name) => {
            proof {
                reveal_strlit(":");
            }
            let mut s: String = to_decimal(name.as_str().unicode_len() as u128);
            s.append(":");
            s.append(name.as_str());
            s.append(":");
            s.append(key);
            assert(s@ =~= decimal(name@.len()) + seq![':'] + name@ + seq![':'] + key@);
            s
        },
        None => key.to_owned(),
    }
}

/// The name of a policy, if there is one.
pub open spec fn policy_text(policy: Option<String>) -> Option<Seq<char>> {
    match policy {
        Some(name) => Some(name@),
        None => None,
    }
}

/// Counts each request, and holds it against the limit.
#[derive(Clone, Debug)]
pub struct RateLimitLayer<L, E> {
    limiter: L,
    extractor: E,
    fail_mode: FailMode,
    cost: u64,
    policy: Option<String>,
}

impl<L: RateLimiter, E: IdentityExtractor> RateLimitLayer<L, E> {
    pub closed spec fn limiter(self) -> L {
        self.limiter
    }

    pub closed spec fn extractor(self) -> E {
        self.extractor
    }

    pub closed spec fn fail_mode(self) -> FailMode {
        self.fail_mode
    }

    /// The tokens that a request takes.
    pub closed spec fn cost(self) -> u64 {
        self.cost
    }

    /// The policy that the limit belongs to.
    pub closed spec fn policy(self) -> Option<Seq<char>> {
        policy_text(self.policy)
    }

    /// What a denied requester reads as the name of the policy.
    pub open spec fn policy_name(self) -> Seq<char> {
        match self.policy() {
            Some(name) => name,
            None => "default"@,
        }
    }

    /// The key of the bucket that a request takes tokens from.
    pub open spec fn bucket_key(self, req: Request) -> Seq<char> {
        scoped_key(self.policy(), identity_key(self.extractor(), req))
    }

    /// What the limiter says of a request.
    pub open spec fn result(
        self,
        buckets: Map<Seq<char>, BucketState>,
        req: Request,
        now: Instant,
    ) -> Result<Decision, LimiterError> {
        self.limiter().answer(buckets, self.bucket_key(req), self.cost(), false, now)
    }

    /// What a request leaves of the buckets.
    pub open spec fn after(
        self,
        buckets: Map<Seq<char>, BucketState>,
        req: Request,
        now: Instant,
    ) -> Map<Seq<char>, BucketState> {
        self.limiter().after_check(buckets, self.bucket_key(req), self.cost(), false, now)
    }

    /// A limit that belongs to no policy.
    pub fn new(limiter: L, extractor: E, fail_mode: FailMode, cost: u64) -> (r: Self)
        ensures
            r.limiter() == limiter,
            r.extractor() == extractor,
            r.fail_mode() == fail_mode,
            r.cost() == cost,
            r.policy() is None,
    {
        RateLimitLayer { limiter, extractor, fail_mode, cost, policy: None }
    }

    /// Decides on a request. One that is marked is not counted.
    pub fn call(&self, req: &Request, store: &mut MemoryStore, now: Instant) -> (r: Verdict)
        ensures
            req.bypass is Some ==> r == Verdict::Skipped && final(store)@ == old(store)@,
            req.bypass is None ==> follows(
                r,
                self.result(old(store)@, *req, now),
                self.fail_mode(),
                self.policy_name(),
            ) && final(store)@ == self.after(old(store)@, *req, now),
            final(store).limit() == old(store).limit(),
    {
        if req.bypass.is_some() {
            return Verdict::Skipped;
        }
        let identity_key: String = match self.extractor.extract(req) {
            Some(identity) => identity.key,
            None => "unknown".to_owned(),
        };
        let key: String = scope_key(&self.policy, identity_key.as_str());
        let result: Result<Decision, LimiterError> = self.limiter.check(
            store,
            key.as_str(),
            self.cost,
            false,
            now,
        );
        match &self.policy {
            Some(name) => respond(result, self.fail_mode, name.as_str()),
            None => respond(result, self.fail_mode, "default"),
        }
    }
}

impl<L: RateLimiter + Copy, E: IdentityExtractor + Copy> RateLimitLayer<L, E> {
    /// The limit of a policy.
    pub fn for_policy(policy: &ResolvedPolicy<L, E>, fail_mode: FailMode) -> (r: Self)
        ensures
            r.limiter() == policy.limiter,
            r.extractor() == policy.extractor,
            r.fail_mode() == fail_mode,
            r.cost() == policy.cost,
            r.policy() == Some(policy.name@),
    {
        RateLimitLayer {
            limiter: policy.limiter,
            extractor: policy.extractor,
            fail_mode,
            cost: policy.cost,
            policy: Some(policy.name.clone()),
        }
    }
}

proof fn lemma_split_at_colon(a: Seq<char>, b: Seq<char>, rest_a: Seq<char>, rest_b: Seq<char>)
    requires
        forall|i: int| 0 <= i < a.len() ==> (#[trigger] a[i]) != ':',
        forall|i: int| 0 <= i < b.len() ==> (#[trigger] b[i]) != ':',
        a + seq![':'] + rest_a == b + seq![':'] + rest_b,
    ensures
        a == b,
        rest_a == rest_b,
{
    let whole_a = a + seq![':'] + rest_a;
    let whole_b = b + seq![':'] + rest_b;
    assert(whole_a[a.len() as int] == ':');
    assert(whole_b[b.len() as int] == ':');
    if a.len() < b.len() {
        assert(whole_b[a.len() as int] == b[a.len() as int]);
    }
    if b.len() < a.len() {
        assert(whole_a[b.len() as int] == a[b.len() as int]);
    }
    assert(a =~= whole_a.take(a.len() as int));
    assert(b =~= whole_b.take(b.len() as int));
    assert(rest_a =~= whole_a.skip(a.len() as int + 1));
    assert(rest_b =~= whole_b.skip(b.len() as int + 1));
}

/// No two policies of different names share a bucket, nor do two requesters under one policy.
pub proof fn policies_have_their_own_buckets(
    policy_a: Seq<char>,
    key_a: Seq<char>,
    policy_b: Seq<char>,
    key_b: Seq<char>,
)
    requires
        scoped_key(Some(policy_a), key_a) == scoped_key(Some(policy_b), key_b),
    ensures
        policy_a == policy_b,
        key_a == key_b,
{
    let (len_a, len_b) = (decimal(policy_a.len()), decimal(policy_b.len()));
    let rest_a = policy_a + seq![':'] + key_a;
    let rest_b = policy_b + seq![':'] + key_b;
    decimal_holds_digits(policy_a.len());
    decimal_holds_digits(policy_b.len());
    assert(scoped_key(Some(policy_a), key_a) =~= len_a + seq![':'] + rest_a);
    assert(scoped_key(Some(policy_b), key_b) =~= len_b + seq![':'] + rest_b);
    lemma_split_at_colon(len_a, len_b, rest_a, rest_b);
    decimal_is_injective(policy_a.len(), policy_b.len());
    assert(policy_a =~= rest_a.take(policy_a.len() as int));
    assert(policy_b =~= rest_b.take(policy_b.len() as int));
    assert(key_a =~= rest_a.skip(policy_a.len() as int + 1));
    assert(key_b =~= rest_b.skip(policy_b.len() as int + 1));
}

/// Requests from different addresses are counted apart, and apart from those of unknown origin.
pub proof fn addresses_are_counted_apart(a: Request, b: Request)
    requires
        identity_key(IpExtractor, a) == identity_key(IpExtractor, b),
    ensures
        client_address(a) == client_address(b),
{
    reveal_strlit("ip:");
    reveal_strlit("unknown");
    match (client_address(a), client_address(b)) {
        (Some(x), Some(y)) => {
            keys_tell_addresses_apart(x, y);
        },
        (Some(x), None) => {
            assert(ip_key(x)[0] == 'i');
        },
        (None, Some(y)) => {
            assert(ip_key(y)[0] == 'i');
        },
        (None, None) => {},
    }
}

/// An allowed request goes on with its decision; a denied one is answered with the status 429 and
/// told its decision.
pub proof fn decisions_are_carried_out(
    verdict: Verdict,
    decision: Decision,
    fail_mode: FailMode,
    policy_name: Seq<char>,
)
    requires
        follows(verdict, Ok(decision), fail_mode, policy_name),
    ensures
        decision.allowed ==> verdict == Verdict::Allowed(decision),
        !decision.allowed ==> (verdict matches Verdict::Denied(resp) && resp.status == 429
            && resp.decision == Some(decision) && resp.body@ == denial_text(decision, policy_name)
            && fields_of(resp.headers) == denial_fields(decision)),
{
}

/// A failure of the limiter lets a request through where that is set, and else is answered with
/// the status 503.
pub proof fn failures_are_handled_as_set(
    verdict: Verdict,
    error: StoreError,
    fail_mode: FailMode,
    policy_name: Seq<char>,
)
    requires
        follows(verdict, Err(LimiterError::Store(error)), fail_mode, policy_name),
    ensures
        fail_mode == FailMode::Open ==> verdict == Verdict::FailedOpen(LimiterError::Store(error)),
        fail_mode == FailMode::Closed ==> (verdict matches Verdict::FailedClosed(reason, resp)
            && reason == LimiterError::Store(error) && resp.status == 503 && resp.body@
            == "service unavailable"@ && resp.decision is None && forall|name: Seq<char>|
            !#[trigger] fields_of(resp.headers).contains_key(name)),
{
}

/// A request takes tokens from the bucket of whom it is from, under the policy that it comes
/// under; those that cannot be told share one.
pub proof fn buckets_are_keyed_by_policy_and_requester<L: RateLimiter, E: IdentityExtractor>(
    layer: RateLimitLayer<L, E>,
    req: Request,
)
    ensures
        ({
            let key = match layer.extractor().key_of(req) {
                Some(key) => key,
                None => "unknown"@,
            };
            &&& layer.policy() is None ==> layer.bucket_key(req) == key
            &&& layer.policy() matches Some(name) ==> layer.bucket_key(req) == decimal(name.len())
                + seq![':'] + name + seq![':'] + key
        }),
{
}

/// A denied requester reads the name of the policy, or that it is the default.
pub proof fn policies_are_told_by_name<L: RateLimiter, E: IdentityExtractor>(
    layer: RateLimitLayer<L, E>,
)
    ensures
        layer.policy() is None ==> layer.policy_name() == "default"@,
        layer.policy() matches Some(name) ==> layer.policy_name() == name,
{
}

/// Each request is counted under one status, or under none.
pub proof fn verdicts_are_counted_by_status(
    decision: Decision,
    resp: Response,
    error: LimiterError,
)
    ensures
        Verdict::Allowed(decision).status() == Some("allowed"@),
        Verdict::Denied(resp).status() == Some("denied"@),
        Verdict::FailedOpen(error).status() == Some("error"@),
        Verdict::FailedClosed(error, resp).status() is None,
        Verdict::Skipped.status() is None,
        Verdict::Endless.status() is None,
{
}

/// A layer asks its limiter for its cost, from the bucket of the request, and does not only peek.
pub proof fn layers_ask_their_limiter<L: RateLimiter, E: IdentityExtractor>(
    layer: RateLimitLayer<L, E>,
    buckets: Map<Seq<char>, BucketState>,
    req: Request,
    now: Instant,
)
    ensures
        layer.result(buckets, req, now) == layer.limiter().answer(
            buckets,
            layer.bucket_key(req),
            layer.cost(),
            false,
            now,
        ),
        layer.after(buckets, req, now) == layer.limiter().after_check(
            buckets,
            layer.bucket_key(req),
            layer.cost(),
            false,
            now,
        ),
{
}

/// An endless wait is a verdict of its own.
pub proof fn endless_waits_are_told(verdict: Verdict, fail_mode: FailMode, policy_name: Seq<char>)
    requires
        follows(verdict, Err(LimiterError::Endless), fail_mode, policy_name),
    ensures
        verdict == Verdict::Endless,
{
}

} // verus!
