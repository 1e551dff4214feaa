use gatekeeper::binary64::Binary64;
use gatekeeper::config::{
    default_algorithm, default_connect_timeout, default_cost, default_eviction_interval,
    default_max_entries, default_request_timeout, deserialize_duration, AccessConfig,
    Config, ConfigError, DefaultsConfig, FailMode, MemoryStoreConfig, ProxyConfig, ServerConfig,
    StoreConfig,
};
use gatekeeper::network::{IpAddr, SocketAddr};
use gatekeeper::time::Duration;

fn number(x: f64) -> Binary64 {
    Binary64 { bits: x.to_bits() }
}

fn config(capacity: u64, refill_rate: f64, cost: u64, upstream_url: &str) -> Config {
    Config {
        server: ServerConfig {
            listen: SocketAddr { ip: IpAddr::V4(0x7f00_0001), port: 8080 },
            upstream_url: upstream_url.to_string(),
            proxy: ProxyConfig::default(),
        },
        defaults: DefaultsConfig {
            algorithm: default_algorithm(),
            capacity,
            refill_rate: number(refill_rate),
            cost,
            fail_mode: FailMode::default(),
        },
        store: StoreConfig { memory: MemoryStoreConfig::default() },
        access: AccessConfig::default(),
        policy: vec![],
    }
}

fn reason(config: &Config) -> String {
    match config.validate() {
        Err(ConfigError::Validation(reason)) => reason,
        other => panic!("no validation error: {other:?}"),
    }
}

#[test]
fn validates_zero_capacity() {
    let err = config(0, 10.0, 1, "http://localhost:3000")
        .validate()
        .expect_err("zero capacity should fail validation");
    assert!(matches!(err, ConfigError::Validation(_)));
    assert!(err.message().contains("capacity"));
}

#[test]
fn validates_negative_refill_rate() {
    let err = config(100, -1.0, 1, "http://localhost:3000")
        .validate()
        .expect_err("negative refill_rate should fail validation");
    assert!(matches!(err, ConfigError::Validation(_)));
    assert!(err.message().contains("refill_rate"));
}

#[test]
fn validates_invalid_upstream_url() {
    let err = config(100, 10.0, 1, "not a url %%")
        .validate()
        .expect_err("invalid upstream_url should fail validation");
    assert!(matches!(err, ConfigError::Validation(_)));
    assert!(err.message().contains("upstream_url"));
    assert_eq!(
        err.message(),
        "config validation failed: invalid upstream_url 'not a url %%': invalid uri character"
    );
}

#[test]
fn a_sound_configuration_passes() {
    assert_eq!(config(100, 10.0, 1, "http://localhost:3000").validate(), Ok(()));
    assert_eq!(config(1, 1e-300, u64::MAX, "/").validate(), Ok(()));
    assert_eq!(config(1, f64::NAN, 1, "/").validate(), Ok(()));
}

#[test]
fn faults_are_told_in_order() {
    assert_eq!(reason(&config(0, 0.0, 0, "%%")), "defaults.capacity must be greater than 0");
    assert_eq!(reason(&config(1, 0.0, 0, "%%")), "defaults.refill_rate must be greater than 0");
    assert_eq!(reason(&config(1, -0.0, 0, "%%")), "defaults.refill_rate must be greater than 0");
    assert_eq!(reason(&config(1, 1.0, 0, "%%")), "defaults.cost must be greater than 0");
    assert!(reason(&config(1, 1.0, 1, "%%")).starts_with("invalid upstream_url '%%': "));
}

#[test]
fn a_known_error_of_the_address_is_told() {
    let config = config(1, 1.0, 1, "whatever");
    assert_eq!(config.validate_with(None), Ok(()));
    assert_eq!(
        config.validate_with(Some("broken".to_string())),
        Err(ConfigError::Validation("invalid upstream_url 'whatever': broken".to_string()))
    );
}

#[test]
fn errors_have_their_texts() {
    let error = ConfigError::ReadFile {
        path: "a.toml".to_string(),
        source: "No such file".to_string(),
    };
    assert_eq!(error.message(), "failed to read config file 'a.toml': No such file");
    let error = ConfigError::Parse("bad line".to_string());
    assert_eq!(error.message(), "failed to parse config: bad line");
    let error = ConfigError::Validation("bad value".to_string());
    assert_eq!(error.message(), "config validation failed: bad value");
}

#[test]
fn what_is_left_out_has_a_default() {
    assert_eq!(default_connect_timeout(), Duration::from_secs(5));
    assert_eq!(default_request_timeout(), Duration::from_secs(30));
    assert_eq!(ProxyConfig::default().connect_timeout, Duration::from_secs(5));
    assert_eq!(ProxyConfig::default().request_timeout, Duration::from_secs(30));
    assert_eq!(default_algorithm(), "token_bucket");
    assert_eq!(default_cost(), 1);
    assert_eq!(FailMode::default(), FailMode::Open);
    assert_eq!(default_max_entries(), 1_000_000);
    assert_eq!(default_eviction_interval(), Duration::from_secs(60));
    assert_eq!(MemoryStoreConfig::default().max_entries, 1_000_000);
    assert_eq!(MemoryStoreConfig::default().eviction_interval, Duration::from_secs(60));
    let access = AccessConfig::default();
    assert!(access.denylist_ips.is_empty() && access.denylist_keys.is_empty());
    assert!(access.allowlist_ips.is_empty() && access.allowlist_keys.is_empty());
}

#[test]
fn lengths_of_time_are_read() {
    assert_eq!(deserialize_duration("10s"), Ok(Duration::from_secs(10)));
    assert_eq!(deserialize_duration("60s"), Ok(Duration::from_secs(60)));
    assert_eq!(deserialize_duration("120s"), Ok(Duration::from_secs(120)));
    assert_eq!(deserialize_duration("1min 30s"), Ok(Duration::from_secs(90)));
    assert_eq!(deserialize_duration("250ms"), Ok(Duration { secs: 0, nanos: 250_000_000 }));
    assert_eq!(deserialize_duration(""), Err("value was empty".to_string()));
    assert_eq!(
        deserialize_duration("10"),
        Err("time unit needed, for example 10sec or 10ms".to_string())
    );
    assert_eq!(deserialize_duration("x"), Err("expected number at 0".to_string()));
}

fn read_as_by_humantime(text: &str) {
    let want = humantime::parse_duration(text)
        .map(|length| Duration { secs: length.as_secs(), nanos: length.subsec_nanos() })
        .map_err(|error| error.to_string());
    assert_eq!(deserialize_duration(text), want, "{text}");
}

#[test]
fn all_lengths_are_read_as_by_humantime() {
    for text in [
        "18446744073709551615s",
        "18446744073709551615s 999999999ns",
        "18446744073709551615.5s",
        "18446744073709551614s 999999999ns 1s",
        "99999999999y",
        "12345h 1234567s",
        "1000000000000s 1s",
        "584542046090y 7months",
        "123456789012ns 1 day 2h3m4s5ms6us7ns",
        "1.5h 30min",
        "1 000 s 2 m",
        "1h  2m\t3s",
        "1us 2\u{b5}s",
    ] {
        assert!(humantime::parse_duration(text).is_ok(), "{text}");
        read_as_by_humantime(text);
    }
}

#[test]
fn all_errors_are_told_as_by_humantime() {
    for text in [
        " ",
        "s",
        "1",
        "1h 2",
        "1h 2x",
        "1h x 2s",
        "1h-2s",
        "12345h 1234567 s abc 99s",
        "1h 1.s",
        "1h 1.5ns 2s",
        "1s 99999999999999999999s",
        "18446744073709551615s 1s",
        "18446744073709551616s 1s",
        "18446744073709551615s 1000000001ns",
        "584542046090y 8months",
        "999999999999999y 1s",
        "123456789012x 1s",
        "1s 123456789012!",
        "1s 123456789012",
        "1s 123456789012s abc 2s",
        "1s\u{2003}123456789012s\u{2003}abc 2s",
        "1\u{b5}s 123456789012!",
        "1h 2m 123456789012.5ns",
        "1s 12345678901234567890123s",
        "18446744073709551615s 1s abc",
        "18446744073709551615s 1s\u{3000}abc 3s",
        "18446744073709551615s 1s! 3s",
        "18446744073709551615s 1x 3s",
        "18446744073709551615s 1.5x",
        "18446744073709551000s 1s abc",
        "18446744073709551000s 700s !",
        "18446744073709551000s 700.5ns",
    ] {
        assert!(humantime::parse_duration(text).is_err(), "{text}");
        read_as_by_humantime(text);
    }
}

#[test]
fn a_sum_of_all_seconds_is_refused() {
    let too_large = "number is too large or cannot be represented without a lack of precision \
                     (values below 1ns are not supported)";
    assert_eq!(
        deserialize_duration("18446744073709551615s 1000000000ns"),
        Err(too_large.to_string())
    );
    assert_eq!(
        deserialize_duration("18446744073709551615s 500ms 500ms"),
        Err(too_large.to_string())
    );
    assert!(deserialize_duration("18446744073709551615s 999999999ns 1.5ns").is_err());
}
