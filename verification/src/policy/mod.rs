//! Which limits apply to a request.

pub mod matcher;

use crate::algorithm::token_bucket::TokenBucket;
use crate::binary64::Binary64;
use crate::config::{Config, MatchRule};
#[allow(unused_imports)]
use crate::config::{DefaultsConfig, PolicyConfig};
use crate::identity::ip::IpExtractor;
use matcher::policy_matches;
#[allow(unused_imports)]
use matcher::rule_fits;
use vstd::prelude::*;
#[allow(unused_imports)]
use vstd::string::*;

verus! {

/// A policy with what it left out filled in.
#[derive(Clone, Debug)]
pub struct ResolvedPolicy<L = TokenBucket, E = IpExtractor> {
    pub name: String,
    pub limiter: L,
    pub extractor: E,
    pub cost: u64,
    pub bypass: bool,
}

/// The policies, each with the requests that it is for, and the one for all other requests.
#[derive(Debug)]
pub struct PolicyEngine {
    policies: Vec<(MatchRule, ResolvedPolicy)>,
    default_policy: ResolvedPolicy,
}

/// A value, or the default where there is none.
pub open spec fn or<T>(value: Option<T>, default: T) -> T {
    match value {
        Some(value) => value,
        None => default,
    }
}

/// Whether a policy is a configured one, filled in with the defaults.
pub open spec fn is_filled_in(
    policy: ResolvedPolicy,
    config: PolicyConfig,
    defaults: DefaultsConfig,
) -> bool {
    &&& policy.name@ == config.name@
    &&& policy.limiter.capacity() == Binary64::of_whole(
        or(config.capacity, defaults.capacity) as nat,
    )
    &&& policy.limiter.refill_rate() == or(config.refill_rate, defaults.refill_rate)
    &&& policy.cost == or(config.cost, defaults.cost)
    &&& policy.bypass == or(config.bypass, false)
}

/// Whether a policy is the one for requests that no configured policy is for.
pub open spec fn is_default(policy: ResolvedPolicy, defaults: DefaultsConfig) -> bool {
    &&& policy.name@ == "__default__"@
    &&& policy.limiter.capacity() == Binary64::of_whole(defaults.capacity as nat)
    &&& policy.limiter.refill_rate() == defaults.refill_rate
    &&& policy.cost == defaults.cost
    &&& !policy.bypass
}

/// Whether two rules are for the same requests, being written the same way.
pub open spec fn same_rule(a: MatchRule, b: MatchRule) -> bool {
    &&& a.path@ == b.path@
    &&& match (a.methods, b.methods) {
        (Some(a), Some(b)) => a@ == b@,
        (None, None) => true,
        _ => false,
    }
}

fn copy_rule(rule: &MatchRule) -> (r: MatchRule)
    ensures
        same_rule(r, *rule),
{
    let methods: Option<Vec<String>> = match &rule.methods {
        Some(methods) => Some(methods.clone()),
        None => None,
    };
    MatchRule { path: rule.path.clone(), methods }
}

/// The first policy that is for a request, else the default.
pub open spec fn first_fit(
    policies: Seq<(MatchRule, ResolvedPolicy)>,
    default: ResolvedPolicy,
    path: Seq<char>,
    method: Seq<char>,
) -> ResolvedPolicy
    decreases policies.len(),
{
    if policies.len() == 0 {
        default
    } else if rule_fits(policies[0].0, path, method) {
        policies[0].1
    } else {
        first_fit(policies.skip(1), default, path, method)
    }
}

impl PolicyEngine {
    /// The policies, with the rules for the requests that they are for.
    pub closed spec fn policies(self) -> Seq<(MatchRule, ResolvedPolicy)> {
        self.policies@
    }

    /// The policy for requests that none of the others is for.
    pub closed spec fn default_policy(self) -> ResolvedPolicy {
        self.default_policy
    }

    /// The policy that applies to a request.
    pub open spec fn applicable(self, path: Seq<char>, method: Seq<char>) -> ResolvedPolicy {
        first_fit(self.policies(), self.default_policy(), path, method)
    }

    /// Whether the policies are those of a configuration, in its order.
    pub open spec fn reflects(self, config: Config) -> bool {
        &&& self.policies().len() == config.policy@.len()
        &&& forall|i: int|
            0 <= i < self.policies().len() ==> {
                &&& same_rule((#[trigger] self.policies()[i]).0, config.policy@[i].match_rule)
                &&& is_filled_in(self.policies()[i].1, config.policy@[i], config.defaults)
            }
        &&& is_default(self.default_policy(), config.defaults)
    }

    pub fn new(config: &Config) -> (r: Self)
        ensures
            r.reflects(*config),
    {
        let defaults = &config.defaults;
        let mut policies: Vec<(MatchRule, ResolvedPolicy)> = Vec::new();
        let mut i: usize = 0;
        while i < config.policy.len()
            invariant
                i <= config.policy@.len(),
                policies@.len() == i,
                *defaults == config.defaults,
                forall|j: int|
                    0 <= j < i ==> {
                        &&& same_rule((#[trigger] policies@[j]).0, config.policy@[j].match_rule)
                        &&& is_filled_in(policies@[j].1, config.policy@[j], config.defaults)
                    },
            decreases config.policy@.len() - i,
        {
            let policy = &config.policy[i];
            let capacity: u64 = match policy.capacity {
                Some(capacity) => capacity,
                None => defaults.capacity,
            };
            let refill_rate: Binary64 = match policy.refill_rate {
                Some(refill_rate) => refill_rate,
                None => defaults.refill_rate,
            };
            let cost: u64 = match policy.cost {
                Some(cost) => cost,
                None => defaults.cost,
            };
            let bypass: bool = match policy.bypass {
                Some(bypass) => bypass,
                None => false,
            };
            let resolved = ResolvedPolicy {
                name: policy.name.clone(),
                limiter: TokenBucket::new(capacity, refill_rate),
                extractor: IpExtractor,
                cost,
                bypass,
            };
            policies.push((copy_rule(&policy.match_rule), resolved));
            i = i + 1;
        }
        let default_policy = ResolvedPolicy {
            name: "__default__".to_owned(),
            limiter: TokenBucket::new(defaults.capacity, defaults.refill_rate),
            extractor: IpExtractor,
            cost: defaults.cost,
            bypass: false,
        };
        PolicyEngine { policies, default_policy }
    }

    /// The policy for requests that none of the others is for.
    pub fn fallback(&self) -> (r: &ResolvedPolicy)
        ensures
            *r == self.default_policy(),
    {
        &self.default_policy
    }

    /// First-match-wins. Falls back to the default policy if no policy matches.
    pub fn resolve(&self, path: &str, method: &str) -> (r: &ResolvedPolicy)
        ensures
            *r == self.applicable(path@, method@),
    {
        let mut i: usize = 0;
        assert(self.policies@.skip(0) =~= self.policies@);
        while i < self.policies.len()
            invariant
                i <= self.policies@.len(),
                first_fit(self.policies@, self.default_policy, path@, method@) == first_fit(
                    self.policies@.skip(i as int),
                    self.default_policy,
                    path@,
                    method@,
                ),
            decreases self.policies@.len() - i,
        {
            if policy_matches(&self.policies[i].0, path, method) {
                return &self.policies[i].1;
            }
            assert(self.policies@.skip(i as int).skip(1) =~= self.policies@.skip(i + 1));
            i = i + 1;
        }
        &self.default_policy
    }
}

/// Of the policies that are for a request, the first applies.
pub proof fn first_match_wins(engine: PolicyEngine, i: int, path: Seq<char>, method: Seq<char>)
    requires
        0 <= i < engine.policies().len(),
        rule_fits(engine.policies()[i].0, path, method),
        forall|j: int| 0 <= j < i ==> !rule_fits((#[trigger] engine.policies()[j]).0, path, method),
    ensures
        engine.applicable(path, method) == engine.policies()[i].1,
{
    lemma_first_fit(engine.policies(), engine.default_policy(), i, path, method);
}

/// A request that no policy is for comes under the default policy.
pub proof fn default_applies_to_the_rest(engine: PolicyEngine, path: Seq<char>, method: Seq<char>)
    requires
        forall|j: int|
            0 <= j < engine.policies().len() ==> !rule_fits(
                (#[trigger] engine.policies()[j]).0,
                path,
                method,
            ),
    ensures
        engine.applicable(path, method) == engine.default_policy(),
{
    let policies = engine.policies();
    lemma_first_fit(policies, engine.default_policy(), policies.len() as int, path, method);
}

proof fn lemma_first_fit(
    policies: Seq<(MatchRule, ResolvedPolicy)>,
    default: ResolvedPolicy,
    i: int,
    path: Seq<char>,
    method: Seq<char>,
)
    requires
        0 <= i <= policies.len(),
        i < policies.len() ==> rule_fits(policies[i].0, path, method),
        forall|j: int| 0 <= j < i ==> !rule_fits((#[trigger] policies[j]).0, path, method),
    ensures
        first_fit(policies, default, path, method) == if i < policies.len() {
            policies[i].1
        } else {
            default
        },
    decreases policies.len(),
{
    if i > 0 {
        assert(!rule_fits(policies[0].0, path, method));
        let rest = policies.skip(1);
        assert forall|j: int| 0 <= j < i - 1 implies !rule_fits(
            (#[trigger] rest[j]).0,
            path,
            method,
        ) by {
            assert(rest[j] == policies[j + 1]);
        }
        lemma_first_fit(rest, default, i - 1, path, method);
    }
}

/// A configured policy has its own limits where it sets them, and the defaults where it does not.
pub proof fn policies_take_defaults_for_what_they_leave_out(
    engine: PolicyEngine,
    config: Config,
    i: int,
)
    requires
        engine.reflects(config),
        0 <= i < config.policy@.len(),
    ensures
        ({
            let policy = engine.policies()[i].1;
            let own = config.policy@[i];
            let defaults = config.defaults;
            let rule = engine.policies()[i].0;
            &&& engine.policies().len() == config.policy@.len()
            &&& policy.name@ == own.name@
            &&& own.capacity matches Some(n) ==> policy.limiter.capacity() == Binary64::of_whole(
                n as nat,
            )
            &&& own.capacity is None ==> policy.limiter.capacity() == Binary64::of_whole(
                defaults.capacity as nat,
            )
            &&& own.refill_rate matches Some(rate) ==> policy.limiter.refill_rate() == rate
            &&& own.refill_rate is None ==> policy.limiter.refill_rate() == defaults.refill_rate
            &&& own.cost matches Some(cost) ==> policy.cost == cost
            &&& own.cost is None ==> policy.cost == defaults.cost
            &&& policy.bypass <==> own.bypass == Some(true)
            &&& rule.path@ == own.match_rule.path@
            &&& rule.methods is None <==> own.match_rule.methods is None
            &&& rule.methods matches Some(methods) ==> methods@
                == own.match_rule.methods->Some_0@
        }),
{
    let pair = engine.policies()[i];
    assert(same_rule(pair.0, config.policy@[i].match_rule));
}

/// The policy for all other requests has the default limits, and limits.
pub proof fn default_policy_has_the_defaults(engine: PolicyEngine, config: Config)
    requires
        engine.reflects(config),
    ensures
        engine.default_policy().name@ == "__default__"@,
        engine.default_policy().limiter.capacity() == Binary64::of_whole(
            config.defaults.capacity as nat,
        ),
        engine.default_policy().limiter.refill_rate() == config.defaults.refill_rate,
        engine.default_policy().cost == config.defaults.cost,
        !engine.default_policy().bypass,
{
}

/// A configured rule is for the same requests in the engine.
pub proof fn rules_are_kept(a: MatchRule, b: MatchRule, path: Seq<char>, method: Seq<char>)
    requires
        same_rule(a, b),
    ensures
        rule_fits(a, path, method) == rule_fits(b, path, method),
{
}

/// Of the configured policies that are for a request, the first applies, and the default where
/// there is none.
pub proof fn configured_policies_apply_in_order(
    engine: PolicyEngine,
    config: Config,
    i: int,
    path: Seq<char>,
    method: Seq<char>,
)
    requires
        engine.reflects(config),
        0 <= i <= config.policy@.len(),
        i < config.policy@.len() ==> rule_fits(config.policy@[i].match_rule, path, method),
        forall|j: int|
            0 <= j < i ==> !rule_fits((#[trigger] config.policy@[j]).match_rule, path, method),
    ensures
        i < config.policy@.len() ==> engine.applicable(path, method) == engine.policies()[i].1,
        i == config.policy@.len() ==> engine.applicable(path, method) == engine.default_policy(),
{
    let policies = engine.policies();
    assert forall|j: int| 0 <= j < i implies !rule_fits(
        (#[trigger] policies[j]).0,
        path,
        method,
    ) by {
        assert(!rule_fits(config.policy@[j].match_rule, path, method));
        rules_are_kept(policies[j].0, config.policy@[j].match_rule, path, method);
    }
    if i < policies.len() {
        assert(same_rule(policies[i].0, config.policy@[i].match_rule));
        rules_are_kept(policies[i].0, config.policy@[i].match_rule, path, method);
    }
    lemma_first_fit(policies, engine.default_policy(), i, path, method);
}

} // verus!
