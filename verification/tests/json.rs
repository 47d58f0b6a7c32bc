use dexscreen_paid_notifier::config::Config;
use dexscreen_paid_notifier::dexscreen::paid_in_orders;
use dexscreen_paid_notifier::json::{
    array_strings_node, object_get_node, object_str_node, object_u64_node, str_eq, str_node,
    u64_node, JsonNode,
};
use simd_json::base::ValueAsScalar;
use simd_json::derived::ValueObjectAccess;

fn s(text: &str) -> JsonNode {
    JsonNode::Str(text.to_string())
}

/// `{"name":"n","inner":{"name":"deep"},"count":3,"neg":-3,"list":["p",4,{"q":1},"r"]}`
fn document() -> Vec<JsonNode> {
    vec![
        JsonNode::Object { len: 5, count: 18 },
        s("name"),
        s("n"),
        s("inner"),
        JsonNode::Object { len: 1, count: 2 },
        s("name"),
        s("deep"),
        s("count"),
        JsonNode::UInt(3),
        s("neg"),
        JsonNode::Int(-3),
        s("list"),
        JsonNode::Array { len: 4, count: 6 },
        s("p"),
        JsonNode::UInt(4),
        JsonNode::Object { len: 1, count: 2 },
        s("q"),
        JsonNode::UInt(1),
        s("r"),
        s("tail"),
        JsonNode::Null,
    ]
}

#[test]
fn lookups_in_an_object() {
    let t = document();
    assert_eq!(object_str_node(&t, 0, "name"), Some("n"));
    assert_eq!(object_u64_node(&t, 0, "count"), Some(3));
    assert_eq!(object_u64_node(&t, 0, "neg"), None);
    assert_eq!(object_u64_node(&t, 0, "name"), None);
    assert_eq!(object_str_node(&t, 0, "missing"), None);
    // "tail" is past the five entries of the object
    assert_eq!(object_get_node(&t, 0, "tail"), None);
    let inner = object_get_node(&t, 0, "inner").expect("inner object");
    assert_eq!(inner, 4);
    assert_eq!(object_str_node(&t, inner, "name"), Some("deep"));
    let list = object_get_node(&t, 0, "list").expect("list");
    assert_eq!(array_strings_node(&t, list), vec!["p".to_string(), "r".to_string()]);
    assert_eq!(object_get_node(&t, list, "p"), None);
    assert_eq!(str_node(&t, 1), Some("name"));
    assert_eq!(u64_node(&t, 0), None);
    assert_eq!(u64_node(&t, 10), None);
    assert_eq!(u64_node(&t, 8), Some(3));
    assert_eq!(str_node(&t, 1000), None);
}

#[test]
fn lookups_in_a_truncated_tape() {
    let t = vec![JsonNode::Object { len: 3, count: 6 }, s("a"), JsonNode::UInt(1)];
    assert_eq!(object_u64_node(&t, 0, "a"), Some(1));
    assert_eq!(object_get_node(&t, 0, "b"), None);
    assert_eq!(object_get_node(&t, 5, "a"), None);
}

#[test]
fn non_negative_integers_are_unsigned() {
    let t = vec![JsonNode::Int(7), JsonNode::Float, JsonNode::Bool(true)];
    assert_eq!(u64_node(&t, 0), Some(7));
    assert_eq!(u64_node(&t, 1), None);
    assert_eq!(u64_node(&t, 2), None);
}

fn padded(entries: usize, cookie_first: &str, cookie_last: &str) -> String {
    let mut parts = vec![format!("\"pumpfun_cookie\":\"{}\"", cookie_first)];
    parts.push("\"dexscreen_cookie\":\"d\"".to_string());
    parts.push("\"proxies\":[\"p\"]".to_string());
    parts.push("\"checkers_count\":1".to_string());
    parts.push("\"dexscreen_fetch_filters\":[]".to_string());
    parts.push("\"dexscreen_fetch_max_pages\":1".to_string());
    parts.push("\"dexscreen_fetch_timeout\":1".to_string());
    while parts.len() < entries - 1 {
        parts.push(format!("\"pad{}\":{{\"x\":[1,{{\"y\":2}}]}}", parts.len()));
    }
    parts.push(format!("\"pumpfun_cookie\":\"{}\"", cookie_last));
    format!("{{{}}}", parts.join(","))
}

#[test]
fn repeated_keys_resolve_as_simd_json_values_do() {
    for entries in [8usize, 32, 33, 40] {
        let text = padded(entries, "first", "last");
        let config = Config::from_json(text.as_bytes().to_vec()).expect("a valid configuration");
        let mut bytes = text.as_bytes().to_vec();
        let value = simd_json::to_owned_value(&mut bytes).expect("valid JSON");
        let expected = value.get("pumpfun_cookie").and_then(|v| v.as_str()).map(|s| s.to_string());
        assert_eq!(Some(config.pumpfun_cookie().to_string()), expected, "entries {}", entries);
    }
    let small = Config::from_json(padded(32, "first", "last").into_bytes()).expect("valid");
    assert_eq!(small.pumpfun_cookie(), "first");
    let large = Config::from_json(padded(33, "first", "last").into_bytes()).expect("valid");
    assert_eq!(large.pumpfun_cookie(), "last");
}

#[test]
fn strings_are_unescaped() {
    let text = padded(8, "a\\\"b\\u00e9", "a\\\"b\\u00e9");
    let config = Config::from_json(text.into_bytes()).expect("a valid configuration");
    assert_eq!(config.pumpfun_cookie(), "a\"b\u{e9}");
}

#[test]
fn comparing_texts() {
    assert!(str_eq("abc", "abc"));
    assert!(!str_eq("abc", "abd"));
    assert!(!str_eq("abc", "ab"));
    assert!(str_eq("", ""));
}

#[test]
fn settings_from_a_tape() {
    let t = vec![
        JsonNode::Object { len: 7, count: 16 },
        s("pumpfun_cookie"),
        s("pc"),
        s("dexscreen_cookie"),
        s("dc"),
        s("proxies"),
        JsonNode::Array { len: 2, count: 2 },
        s("p1"),
        JsonNode::Null,
        s("checkers_count"),
        JsonNode::Int(2),
        s("dexscreen_fetch_filters"),
        JsonNode::Array { len: 0, count: 0 },
        s("dexscreen_fetch_max_pages"),
        JsonNode::UInt(5),
        s("dexscreen_fetch_timeout"),
        JsonNode::UInt(9),
    ];
    let c = Config::from_tape(&t).expect("a valid configuration");
    assert_eq!(c.pumpfun_cookie(), "pc");
    assert_eq!(c.dexscreen_cookie(), "dc");
    assert_eq!(c.proxies(), &vec!["p1".to_string()]);
    assert_eq!(c.checkers_count(), 2);
    assert!(c.dexscreen_fetch_filters().is_empty());
    assert_eq!(c.dexscreen_fetch_max_pages(), 5);
    assert_eq!(c.dexscreen_fetch_timeout(), 9);
    assert!(Config::from_tape(&Vec::new()).is_err());
    assert!(Config::from_tape(&vec![JsonNode::Array { len: 0, count: 0 }]).is_err());
}

#[test]
fn paid_orders_in_a_tape() {
    let order = |paid_at: u64| {
        vec![
            JsonNode::Object { len: 3, count: 6 },
            s("type"),
            s("tokenProfile"),
            s("status"),
            s("approved"),
            s("paymentTimestamp"),
            JsonNode::UInt(paid_at),
        ]
    };
    let mut t = vec![JsonNode::Array { len: 2, count: 14 }];
    t.extend(order(0));
    t.extend(order(1_000_000));
    assert!(paid_in_orders(&t, Some(1_000_000 + 299_999)));
    assert!(!paid_in_orders(&t, Some(1_000_000 + 300_000)));
    assert!(paid_in_orders(&t, Some(100)));
    assert!(!paid_in_orders(&t, None));
    // only the first element is looked at when the array says it has one
    t[0] = JsonNode::Array { len: 1, count: 7 };
    assert!(!paid_in_orders(&t, Some(1_000_000)));
}
