//! The configuration.

use crate::binary64::Binary64;
use crate::network::SocketAddr;
#[allow(unused_imports)]
use crate::notation::reading;
use crate::notation::read_length;
use crate::time::{Duration, NANOS_PER_SEC};
use crate::uri::parse_uri;
#[allow(unused_imports)]
use crate::uri::{optional_text, uri_of};
use vstd::prelude::*;
#[allow(unused_imports)]
use vstd::string::*;

verus! {

#[derive(Clone, Debug, PartialEq, Eq)]
pub enum ConfigError {
    ReadFile { path: String, source: String },
    Parse(String),
    Validation(String),
}

impl ConfigError {
    /// What the error reads as.
    pub open spec fn text(self) -> Seq<char> {
        match self {
            ConfigError::ReadFile { path, source } => "failed to read config file '"@ + path@
                + "': "@ + source@,
            ConfigError::Parse(reason) => "failed to parse config: "@ + reason@,
            ConfigError::Validation(reason) => "config validation failed: "@ + reason@,
        }
    }

    pub fn message(&self) -> (r: String)
        ensures
            r@ == self.text(),
    {
        match self {
            ConfigError::ReadFile { path, source } => {
                let mut s: String = "failed to read config file '".to_owned();
                s.append(path.as_str());
                s.append("': ");
                s.append(source.as_str());
                s
            },
            ConfigError::Parse(reason) => {
                let mut s: String = "failed to parse config: ".to_owned();
                s.append(reason.as_str());
                s
            },
            ConfigError::Validation(reason) => {
                let mut s: String = "config validation failed: ".to_owned();
                s.append(reason.as_str());
                s
            },
        }
    }
}

/// Reads a length of time, such as `10s` or `1min 30s`.
pub fn deserialize_duration(text: &str) -> (r: Result<Duration, String>)
    ensures
        match reading(text@) {
            Ok(length) => r == Ok::<Duration, String>(length) && length.nanos < NANOS_PER_SEC,
            Err(error) => r matches Err(reason) && reason@ == error,
        },
{
    read_length(text)
}

#[derive(Clone, Debug)]
pub struct Config {
    pub server: ServerConfig,
    pub defaults: DefaultsConfig,
    pub store: StoreConfig,
    pub access: AccessConfig,
    pub policy: Vec<PolicyConfig>,
}

#[derive(Clone, Debug)]
pub struct ServerConfig {
    pub listen: SocketAddr,
    pub upstream_url: String,
    pub proxy: ProxyConfig,
}

#[derive(Clone, Copy, Debug, PartialEq, Eq, Structural)]
pub struct ProxyConfig {
    pub connect_timeout: Duration,
    pub request_timeout: Duration,
}

pub fn default_connect_timeout() -> (r: Duration)
    ensures
        r == (Duration { secs: 5, nanos: 0 }),
{
    Duration::from_secs(5)
}

pub fn default_request_timeout() -> (r: Duration)
    ensures
        r == (Duration { secs: 30, nanos: 0 }),
{
    Duration::from_secs(30)
}

impl Default for ProxyConfig {
    fn default() -> (r: Self)
        ensures
            r.connect_timeout == (Duration { secs: 5, nanos: 0 }),
            r.request_timeout == (Duration { secs: 30, nanos: 0 }),
    {
        ProxyConfig {
            connect_timeout: default_connect_timeout(),
            request_timeout: default_request_timeout(),
        }
    }
}

/// What happens to a request when the limiter fails.
#[derive(Clone, Copy, Debug, PartialEq, Eq, Structural)]
pub enum FailMode {
    Open,
    Closed,
}

impl Default for FailMode {
    fn default() -> (r: Self)
        ensures
            r == FailMode::Open,
    {
        FailMode::Open
    }
}

#[derive(Clone, Debug)]
pub struct DefaultsConfig {
    pub algorithm: String,
    pub capacity: u64,
    pub refill_rate: Binary64,
    pub cost: u64,
    pub fail_mode: FailMode,
}

pub fn default_algorithm() -> (r: String)
    ensures
        r@ == "token_bucket"@,
{
    "token_bucket".to_owned()
}

pub fn default_cost() -> (r: u64)
    ensures
        r == 1,
{
    1
}

#[derive(Clone, Copy, Debug, PartialEq, Eq, Structural)]
pub struct StoreConfig {
    pub memory: MemoryStoreConfig,
}

#[derive(Clone, Copy, Debug, PartialEq, Eq, Structural)]
pub struct MemoryStoreConfig {
    pub max_entries: usize,
    pub eviction_interval: Duration,
}

pub fn default_max_entries() -> (r: usize)
    ensures
        r == 1_000_000,
{
    1_000_000
}

pub fn default_eviction_interval() -> (r: Duration)
    ensures
        r == (Duration { secs: 60, nanos: 0 }),
{
    Duration::from_secs(60)
}

impl Default for MemoryStoreConfig {
    fn default() -> (r: Self)
        ensures
            r.max_entries == 1_000_000,
            r.eviction_interval == (Duration { secs: 60, nanos: 0 }),
    {
        MemoryStoreConfig {
            max_entries: default_max_entries(),
            eviction_interval: default_eviction_interval(),
        }
    }
}

/// Who is kept out, and who is let in without a limit: networks and keys.
#[derive(Clone, Debug)]
pub struct AccessConfig {
    pub denylist_ips: Vec<String>,
    pub denylist_keys: Vec<String>,
    pub allowlist_ips: Vec<String>,
    pub allowlist_keys: Vec<String>,
}

impl Default for AccessConfig {
    fn default() -> (r: Self)
        ensures
            r.denylist_ips@.len() == 0,
            r.denylist_keys@.len() == 0,
            r.allowlist_ips@.len() == 0,
            r.allowlist_keys@.len() == 0,
    {
        AccessConfig {
            denylist_ips: Vec::new(),
            denylist_keys: Vec::new(),
            allowlist_ips: Vec::new(),
            allowlist_keys: Vec::new(),
        }
    }
}

/// The requests that a policy is for: a pattern for the path, and the methods, all of them where
/// none is named.
#[derive(Clone, Debug)]
pub struct MatchRule {
    pub path: String,
    pub methods: Option<Vec<String>>,
}

/// A policy; what it leaves out is taken from the defaults.
#[derive(Clone, Debug)]
pub struct PolicyConfig {
    pub name: String,
    pub match_rule: MatchRule,
    pub algorithm: Option<String>,
    pub capacity: Option<u64>,
    pub refill_rate: Option<Binary64>,
    pub cost: Option<u64>,
    pub identify_by: Option<String>,
    pub bypass: Option<bool>,
}

impl Config {
    /// What is wrong with the configuration, given what is wrong with the upstream's address;
    /// of several faults, the first.
    pub open spec fn fault(self, url_error: Option<Seq<char>>) -> Option<Seq<char>> {
        if self.defaults.capacity == 0 {
            Some("defaults.capacity must be greater than 0"@)
        } else if !self.defaults.refill_rate.is_nan() && self.defaults.refill_rate.order() <= 0 {
            Some("defaults.refill_rate must be greater than 0"@)
        } else if self.defaults.cost == 0 {
            Some("defaults.cost must be greater than 0"@)
        } else {
            match url_error {
                Some(error) => Some(
                    "invalid upstream_url '"@ + self.server.upstream_url@ + "': "@ + error,
                ),
                None => None,
            }
        }
    }

    /// Checks the configuration, of whose upstream's address the error is known.
    pub fn validate_with(&self, url_error: Option<String>) -> (r: Result<(), ConfigError>)
        ensures
            match self.fault(optional_text(url_error)) {
                Some(fault) => r matches Err(ConfigError::Validation(reason)) && reason@ == fault,
                None => r is Ok,
            },
    {
        if self.defaults.capacity == 0 {
            return Err(
                ConfigError::Validation("defaults.capacity must be greater than 0".to_owned()),
            );
        }
        let zero: Binary64 = Binary64 { bits: 0 };
        if zero.ge(self.defaults.refill_rate) {
            return Err(
                ConfigError::Validation("defaults.refill_rate must be greater than 0".to_owned()),
            );
        }
        if self.defaults.cost == 0 {
            return Err(ConfigError::Validation("defaults.cost must be greater than 0".to_owned()));
        }
        match url_error {
            Some(error) => {
                let mut reason: String = "invalid upstream_url '".to_owned();
                reason.append(self.server.upstream_url.as_str());
                reason.append("': ");
                reason.append(error.as_str());
                Err(ConfigError::Validation(reason))
            },
            None => Ok(()),
        }
    }

    /// Checks the configuration.
    pub fn validate(&self) -> (r: Result<(), ConfigError>)
        ensures
            ({
                let url_error = match uri_of(self.server.upstream_url@) {
                    Ok(_) => None,
                    Err(error) => Some(error),
                };
                match self.fault(url_error) {
                    Some(fault) => r matches Err(ConfigError::Validation(reason)) && reason@
                        == fault,
                    None => r is Ok,
                }
            }),
    {
        let url_error: Option<String> = match parse_uri(self.server.upstream_url.as_str()) {
            Ok(_) => None,
            Err(error) => Some(error),
        };
        self.validate_with(url_error)
    }
}

/// What passes the check has a capacity and a cost above 0, and a rate that is above 0 or not a
/// number.
pub proof fn valid_limits_are_positive(config: Config)
    requires
        config.fault(None) is None,
    ensures
        config.defaults.capacity > 0,
        config.defaults.cost > 0,
        config.defaults.refill_rate.positive() || config.defaults.refill_rate.is_nan(),
{
}

/// A configuration is at fault if and only if a limit is not above 0, or the upstream's address is
/// at fault; and the first fault is told by name.
pub proof fn faults_are_told_in_order(config: Config, url_error: Option<Seq<char>>)
    ensures
        ({
            let (capacity, cost) = (config.defaults.capacity, config.defaults.cost);
            let rate = config.defaults.refill_rate;
            // The rate is not above 0: it is a zero, or negative, and a number.
            let low = rate.bits == 0 || 0x8000_0000_0000_0000 <= rate.bits
                <= 0xfff0_0000_0000_0000;
            let fault = config.fault(url_error);
            &&& capacity == 0 ==> fault == Some("defaults.capacity must be greater than 0"@)
            &&& capacity > 0 && low ==> fault == Some(
                "defaults.refill_rate must be greater than 0"@,
            )
            &&& capacity > 0 && !low && cost == 0 ==> fault == Some(
                "defaults.cost must be greater than 0"@,
            )
            &&& capacity > 0 && !low && cost > 0 ==> (url_error matches Some(error) ==> fault
                == Some(
                "invalid upstream_url '"@ + config.server.upstream_url@ + "': "@ + error,
            ))
            &&& capacity > 0 && !low && cost > 0 && url_error is None ==> fault is None
        }),
{
}

/// Errors are told with their reason.
pub proof fn config_errors_are_told(path: String, reason: String)
    ensures
        (ConfigError::ReadFile { path, source: reason }).text() == "failed to read config file '"@
            + path@ + "': "@ + reason@,
        ConfigError::Parse(reason).text() == "failed to parse config: "@ + reason@,
        ConfigError::Validation(reason).text() == "config validation failed: "@ + reason@,
{
}

} // verus!
