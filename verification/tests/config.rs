use dexscreen_paid_notifier::config::{Config, ConfigError, ConfigField};
use simd_json::base::{ValueIntoObject, ValueIntoString};

const GOOD: &str = "{\"pumpfun_cookie\":\"pc=1\",\"dexscreen_cookie\":\"dc=2\",\"proxies\":[\"http://p1:8080\",\"http://p2:8080\"],\"checkers_count\":4,\"dexscreen_fetch_filters\":[\"rankBy=trendingScoreH6&order=desc\",\"rankBy=volume\"],\"dexscreen_fetch_max_pages\":3,\"dexscreen_fetch_timeout\":30}";

fn read(text: &str) -> Result<Config, ConfigError> {
    Config::from_json(text.as_bytes().to_vec())
}

fn with(key: &str, value: &str) -> String {
    let mut parts = Vec::new();
    for (k, v) in [
        ("pumpfun_cookie", "\"pc=1\""),
        ("dexscreen_cookie", "\"dc=2\""),
        ("proxies", "[\"http://p1:8080\"]"),
        ("checkers_count", "4"),
        ("dexscreen_fetch_filters", "[\"f\"]"),
        ("dexscreen_fetch_max_pages", "3"),
        ("dexscreen_fetch_timeout", "30"),
    ] {
        if k == key {
            if !value.is_empty() {
                parts.push(format!("\"{}\":{}", k, value));
            }
        } else {
            parts.push(format!("\"{}\":{}", k, v));
        }
    }
    format!("{{{}}}", parts.join(","))
}

#[test]
fn reads_every_setting() {
    let c = read(GOOD).expect("a valid configuration");
    assert_eq!(c.pumpfun_cookie(), "pc=1");
    assert_eq!(c.dexscreen_cookie(), "dc=2");
    assert_eq!(c.proxies(), &vec!["http://p1:8080".to_string(), "http://p2:8080".to_string()]);
    assert_eq!(c.checkers_count(), 4);
    assert_eq!(
        c.dexscreen_fetch_filters(),
        &vec!["rankBy=trendingScoreH6&order=desc".to_string(), "rankBy=volume".to_string()]
    );
    assert_eq!(c.dexscreen_fetch_max_pages(), 3);
    assert_eq!(c.dexscreen_fetch_timeout(), 30);
}

#[test]
fn extra_keys_are_ignored() {
    let text = with("checkers_count", "1").replacen('{', "{\"user_agent\":\"ua\",", 1);
    let c = read(&text).expect("a valid configuration");
    assert_eq!(c.checkers_count(), 1);
}

#[test]
fn lists_keep_only_their_strings() {
    let c = read(&with("proxies", "[\"a\",1,null,\"b\",[\"c\"]]")).expect("valid");
    assert_eq!(c.proxies(), &vec!["a".to_string(), "b".to_string()]);
    let c = read(&with("dexscreen_fetch_filters", "[]")).expect("valid");
    assert!(c.dexscreen_fetch_filters().is_empty());
}

#[test]
fn not_json_is_refused() {
    assert!(matches!(read("not json"), Err(ConfigError::ParseFailed(_))));
    assert!(matches!(read(""), Err(ConfigError::ParseFailed(_))));
}

#[test]
fn not_an_object_is_refused() {
    assert!(matches!(read("[1,2]"), Err(ConfigError::NotAnObject)));
    assert!(matches!(read("\"text\""), Err(ConfigError::NotAnObject)));
}

#[test]
fn missing_settings_are_named() {
    assert!(matches!(read("{}"), Err(ConfigError::Missing(ConfigField::PumpfunCookie))));
    for field in [
        ConfigField::PumpfunCookie,
        ConfigField::DexscreenCookie,
        ConfigField::Proxies,
        ConfigField::CheckersCount,
        ConfigField::DexscreenFetchFilters,
        ConfigField::DexscreenFetchMaxPages,
        ConfigField::DexscreenFetchTimeout,
    ] {
        match read(&with(field.key(), "")) {
            Err(ConfigError::Missing(f)) => assert_eq!(f, field),
            _ => panic!("missing {} is refused", field.key()),
        }
    }
}

#[test]
fn settings_of_the_wrong_kind_are_named() {
    for (field, value) in [
        (ConfigField::PumpfunCookie, "1"),
        (ConfigField::DexscreenCookie, "[\"x\"]"),
        (ConfigField::Proxies, "\"http://p1\""),
        (ConfigField::CheckersCount, "-1"),
        (ConfigField::CheckersCount, "\"4\""),
        (ConfigField::DexscreenFetchFilters, "{}"),
        (ConfigField::DexscreenFetchMaxPages, "2.5"),
        (ConfigField::DexscreenFetchTimeout, "null"),
    ] {
        match read(&with(field.key(), value)) {
            Err(ConfigError::WrongType(f)) => assert_eq!(f, field),
            _ => panic!("{} = {} is refused", field.key(), value),
        }
    }
}

#[test]
fn empty_settings_are_refused() {
    assert!(matches!(read(&with("pumpfun_cookie", "\"\"")), Err(ConfigError::EmptyPumpfunCookie)));
    assert!(matches!(
        read(&with("dexscreen_cookie", "\"\"")),
        Err(ConfigError::EmptyDexscreenCookie)
    ));
    assert!(matches!(read(&with("proxies", "[]")), Err(ConfigError::EmptyProxies)));
    assert!(matches!(read(&with("proxies", "[1,2]")), Err(ConfigError::EmptyProxies)));
}

#[test]
fn settings_are_read_before_emptiness_is_checked() {
    let text = "{\"pumpfun_cookie\":\"\"}";
    assert!(matches!(read(text), Err(ConfigError::Missing(ConfigField::DexscreenCookie))));
}

#[test]
fn keys_of_the_settings() {
    assert_eq!(ConfigField::PumpfunCookie.key(), "pumpfun_cookie");
    assert_eq!(ConfigField::DexscreenFetchTimeout.key(), "dexscreen_fetch_timeout");
}

/// The settings as simd-json's own object gives them when they are taken out
/// one by one in reading order.
fn cookies_by_removal(text: &str) -> (String, String) {
    let mut bytes = text.as_bytes().to_vec();
    let value = simd_json::to_owned_value(&mut bytes).expect("valid JSON");
    let mut object = value.into_object().expect("an object");
    let pumpfun = object.remove("pumpfun_cookie").and_then(|v| v.into_string()).expect("text");
    let dexscreen = object.remove("dexscreen_cookie").and_then(|v| v.into_string()).expect("text");
    (pumpfun, dexscreen)
}

#[test]
fn repeated_keys_follow_removal_order() {
    let mut text = with("checkers_count", "1");
    text.pop();
    text.push_str(",\"dexscreen_cookie\":\"B\"}");
    let c = read(&text).expect("a valid configuration");
    assert_eq!(c.dexscreen_cookie(), "B");
    assert_eq!(
        (c.pumpfun_cookie().to_string(), c.dexscreen_cookie().to_string()),
        cookies_by_removal(&text)
    );
}

#[test]
fn repeated_keys_agree_with_simd_json_objects() {
    let extra = [
        ",\"dexscreen_cookie\":\"B\"",
        ",\"pumpfun_cookie\":\"P2\",\"dexscreen_cookie\":\"B\"",
        ",\"x\":1,\"pumpfun_cookie\":\"P2\"",
        ",\"dexscreen_cookie\":\"B\",\"y\":[1],\"dexscreen_cookie\":\"C\"",
    ];
    for tail in extra {
        for pad in [0usize, 20, 30] {
            let mut text = with("checkers_count", "1");
            text.pop();
            for i in 0..pad {
                text.push_str(&format!(",\"pad{}\":{}", i, i));
            }
            text.push_str(tail);
            text.push('}');
            let c = read(&text).expect("a valid configuration");
            assert_eq!(
                (c.pumpfun_cookie().to_string(), c.dexscreen_cookie().to_string()),
                cookies_by_removal(&text),
                "text {}",
                text
            );
        }
    }
}
