use dexscreen_paid_notifier::common::current_unix_millis;
use dexscreen_paid_notifier::dexscreen::{
    check_verdict, dexscreen_pairs, get_token_created_timestamp, get_token_market_cap_text,
    get_token_parts, is_response_paid, is_response_paid_now, next_end_page, orders_url, page_url,
    page_urls, split_text, status_accepted, token_text_in_bounds, DexscreenError, PAID_TIMEOUT_SECS,
};

const PAIR: &str = "\"chainId\":\"solana\",\"dexId\":\"pumpfun\",\"pairAddress\":\"PairAddr\",\"baseToken\":{\"address\":\"MintAddr123pump\",\"name\":\"Prophecy\",\"symbol\":\"PRO\"},\"quoteToken\":{\"address\":\"So111\",\"name\":\"Wrapped SOL\"},\"marketCap\":12345.6,\"pairCreatedAt\":1712345678901,\"boosts\":{\"active\":1}";

fn orders(entries: &[String]) -> Vec<u8> {
    format!("[{}]", entries.join(",")).into_bytes()
}

fn order(kind: &str, status: &str, paid_at: &str) -> String {
    format!(
        "{{\"type\":\"{}\",\"status\":\"{}\",\"paymentTimestamp\":{}}}",
        kind, status, paid_at
    )
}

#[test]
fn pair_creation_time_and_market_cap() {
    assert_eq!(get_token_created_timestamp(PAIR), Some(1712345678901));
    assert_eq!(get_token_created_timestamp("{\"pairCreatedAt\":42}"), Some(42));
    assert_eq!(get_token_created_timestamp("{\"x\":42}"), None);
    // the number must be followed by a stop
    assert_eq!(get_token_created_timestamp("\"pairCreatedAt\":42"), None);
    assert_eq!(get_token_market_cap_text(PAIR), Some("12345.6"));
    assert_eq!(get_token_market_cap_text("{\"marketCap\":7}"), Some("7"));
    assert_eq!(get_token_market_cap_text("{\"x\":7}"), None);
}

#[test]
fn base_token_of_a_pair() {
    assert!(token_text_in_bounds(PAIR));
    let parts = get_token_parts(PAIR).expect("the pair has a base token");
    assert_eq!(parts.mint, "MintAddr123pump");
    assert_eq!(parts.name, "Prophecy");
}

#[test]
fn base_token_name_may_end_at_the_brace() {
    let json = "\"baseToken\":{\"address\":\"A1\",\"name\":\"Last\"}";
    assert!(token_text_in_bounds(json));
    let parts = get_token_parts(json).expect("the pair has a base token");
    assert_eq!(parts.mint, "A1");
    assert_eq!(parts.name, "Last");
}

#[test]
fn base_token_missing_parts() {
    assert!(token_text_in_bounds("{\"a\":1}"));
    assert!(get_token_parts("{\"a\":1}").is_none());
    let no_name = "\"baseToken\":{\"address\":\"A1\"";
    assert!(token_text_in_bounds(no_name));
    assert!(get_token_parts(no_name).is_none());
    let no_address = "\"baseToken\":{\"symbol\":\"S\"}";
    assert!(get_token_parts(no_address).is_none());
}

#[test]
fn base_token_that_would_cut_a_character() {
    // the text ends right after the address pattern
    assert!(!token_text_in_bounds("\"baseToken\":{\"address\":"));
    // the byte before the stop is inside a multi-byte character
    assert!(!token_text_in_bounds("\"baseToken\":{\"address\":\"a\u{e9},"));
    // the stop comes right after the opening quote
    assert!(!token_text_in_bounds("\"baseToken\":{\"address\":\","));
}

#[test]
fn pair_list_is_split_into_pairs() {
    let page = "<html>{\"schemaVersion\":\"1\",\"pairs\":[{\"a\":1},{\"b\":2},{\"c\":3}],\"pairsCount\":3}";
    let pairs = dexscreen_pairs(page).expect("the page has a pair list");
    assert_eq!(pairs, vec!["[{\"a\":1", "\"b\":2", "\"c\":3}]"]);
}

#[test]
fn pair_list_with_one_pair() {
    let page = format!("x\"pairs\":[{{{}}}],\"pairsCount\":1", PAIR);
    let pairs = dexscreen_pairs(&page).expect("the page has a pair list");
    assert_eq!(pairs.len(), 1);
    let parts = get_token_parts(pairs[0]).expect("the pair has a base token");
    assert_eq!(parts.mint, "MintAddr123pump");
}

#[test]
fn page_without_pair_list() {
    assert!(dexscreen_pairs("<html>nothing here</html>").is_none());
    assert!(dexscreen_pairs("\"pairs\":[{\"a\":1}]").is_none());
    assert!(dexscreen_pairs("],\"pairsCount\":0 \"pairs\":[{").is_none());
}

#[test]
fn splitting_at_a_separator() {
    assert_eq!(split_text("a,b,,c", ","), vec!["a", "b", "", "c"]);
    assert_eq!(split_text("", ","), vec![""]);
    assert_eq!(split_text("abc", "},{"), vec!["abc"]);
    assert_eq!(split_text("},{", "},{"), vec!["", ""]);
}

#[test]
fn splitting_and_joining_gives_the_text_back() {
    let text = "[{\"a\":1},{\"b\":\"\u{e9}\"},{}]";
    let pieces = split_text(text, "},{");
    assert_eq!(pieces.join("},{"), text);
}

#[test]
fn too_many_requests_is_refused() {
    let r = is_response_paid(429, b"processing".to_vec(), Some(0));
    assert!(matches!(r, Err(DexscreenError::TooManyRequests)));
    let r = is_response_paid_now(429, b"[]".to_vec(), false);
    assert!(matches!(r, Err(DexscreenError::TooManyRequests)));
}

#[test]
fn processing_counts_as_paid() {
    let r = is_response_paid(200, b"{\"status\":\"processing\"}".to_vec(), None);
    assert!(matches!(r, Ok(true)));
    let r = is_response_paid(200, b"not json but processing".to_vec(), None);
    assert!(matches!(r, Ok(true)));
}

#[test]
fn invalid_json_is_a_parse_error() {
    let r = is_response_paid(200, b"<html>".to_vec(), Some(0));
    assert!(matches!(r, Err(DexscreenError::SimdJsonError(_))));
    let r = is_response_paid(200, Vec::new(), Some(0));
    assert!(matches!(r, Err(DexscreenError::SimdJsonError(_))));
}

#[test]
fn non_array_is_refused() {
    let r = is_response_paid(200, b"{\"orders\":[]}".to_vec(), Some(0));
    match r {
        Err(DexscreenError::Other(m)) => assert_eq!(m, "Parsed array error"),
        _ => panic!("an object is not an order list"),
    }
    let r = is_response_paid(200, b"17".to_vec(), Some(0));
    assert!(matches!(r, Err(DexscreenError::Other(_))));
}

#[test]
fn no_orders_is_not_paid() {
    assert!(matches!(is_response_paid(200, b"[]".to_vec(), Some(0)), Ok(false)));
}

#[test]
fn recent_approved_profile_is_paid() {
    let now: u64 = 1_712_345_678_901;
    let body = orders(&[order("tokenProfile", "approved", &(now - 60_000).to_string())]);
    assert!(matches!(is_response_paid(200, body, Some(now)), Ok(true)));
}

#[test]
fn old_approved_profile_is_not_paid() {
    let now: u64 = 1_712_345_678_901;
    let body = orders(&[order("tokenProfile", "approved", &(now - 400_000).to_string())]);
    assert!(matches!(is_response_paid(200, body, Some(now)), Ok(false)));
}

#[test]
fn payment_window_is_five_whole_minutes() {
    assert_eq!(PAID_TIMEOUT_SECS, 300);
    let now: u64 = 1_000_000_000;
    let inside = orders(&[order("tokenProfile", "approved", &(now - 299_999).to_string())]);
    assert!(matches!(is_response_paid(200, inside, Some(now)), Ok(true)));
    let edge = orders(&[order("tokenProfile", "approved", &(now - 300_000).to_string())]);
    assert!(matches!(is_response_paid(200, edge, Some(now)), Ok(false)));
    // a payment time ahead of the clock counts by its distance too
    let ahead = orders(&[order("tokenProfile", "approved", &(now + 299_999).to_string())]);
    assert!(matches!(is_response_paid(200, ahead, Some(now)), Ok(true)));
    let far_ahead = orders(&[order("tokenProfile", "approved", &(now + 300_000).to_string())]);
    assert!(matches!(is_response_paid(200, far_ahead, Some(now)), Ok(false)));
}

#[test]
fn other_orders_do_not_count() {
    let now: u64 = 1_000_000_000;
    let at = now.to_string();
    for body in [
        orders(&[order("tokenProfile", "pending", &at)]),
        orders(&[order("communityTakeover", "approved", &at)]),
        orders(&[order("tokenProfile", "approved", "-5")]),
        orders(&[order("tokenProfile", "approved", "1.5")]),
        orders(&[order("tokenProfile", "approved", "\"1000000000\"")]),
        orders(&["{\"type\":\"tokenProfile\",\"status\":\"approved\"}".to_string()]),
        orders(&["1".to_string(), "\"x\"".to_string(), "[]".to_string()]),
    ] {
        assert!(matches!(is_response_paid(200, body, Some(now)), Ok(false)));
    }
}

#[test]
fn without_a_clock_reading_nothing_is_recent() {
    let body = orders(&[order("tokenProfile", "approved", "0")]);
    assert!(matches!(is_response_paid(200, body, None), Ok(false)));
}

#[test]
fn any_paid_order_among_many() {
    let now: u64 = 1_000_000_000;
    let body = orders(&[
        order("tokenProfile", "rejected", &now.to_string()),
        "{\"nested\":{\"a\":[1,2,{\"b\":3}]},\"type\":\"ads\"}".to_string(),
        order("tokenProfile", "approved", &(now - 1_000).to_string()),
    ]);
    assert!(matches!(is_response_paid(200, body, Some(now)), Ok(true)));
}

#[test]
fn paid_check_by_the_system_clock() {
    let now = current_unix_millis().expect("the clock reads after the epoch");
    let body = orders(&[order("tokenProfile", "approved", &now.to_string())]);
    assert!(matches!(is_response_paid_now(200, body, false), Ok(true)));
    let body = orders(&[order("tokenProfile", "approved", "0")]);
    assert!(matches!(is_response_paid_now(200, body, false), Ok(false)));
    let r = is_response_paid_now(200, b"{}".to_vec(), false);
    assert!(matches!(r, Err(DexscreenError::Other(_))));
}

#[test]
fn verdict_of_a_check() {
    let v = check_verdict(&Ok(true));
    assert!(v.paid && !v.back_off);
    let v = check_verdict(&Ok(false));
    assert!(!v.paid && !v.back_off);
    let v = check_verdict(&Err(DexscreenError::TooManyRequests));
    assert!(!v.paid && v.back_off);
    let v = check_verdict(&Err(DexscreenError::Other("x".to_string())));
    assert!(!v.paid && !v.back_off);
}

#[test]
fn order_link_of_a_token() {
    assert_eq!(
        orders_url("FnTEh9q7m2qj8aRm7rCuNzKh5PSgftqrqFszEGLFpump"),
        "https://api.dexscreener.com/orders/v1/solana/FnTEh9q7m2qj8aRm7rCuNzKh5PSgftqrqFszEGLFpump"
    );
}

#[test]
fn listing_page_links() {
    assert_eq!(
        page_url(3, "rankBy=trendingScoreH6&order=desc"),
        "https://dexscreener.com/solana/pumpfun/page-3?rankBy=trendingScoreH6&order=desc"
    );
    assert_eq!(page_url(0, ""), "https://dexscreener.com/solana/pumpfun/page-0?");
    assert_eq!(page_url(1234567, "a"), "https://dexscreener.com/solana/pumpfun/page-1234567?a");
}

#[test]
fn listing_pages_go_page_by_page() {
    let filters = vec!["f1".to_string(), "f2".to_string()];
    let urls = page_urls(2, &filters);
    assert_eq!(
        urls,
        vec![
            "https://dexscreener.com/solana/pumpfun/page-1?f1",
            "https://dexscreener.com/solana/pumpfun/page-1?f2",
            "https://dexscreener.com/solana/pumpfun/page-2?f1",
            "https://dexscreener.com/solana/pumpfun/page-2?f2",
        ]
    );
    assert!(page_urls(0, &filters).is_empty());
    assert!(page_urls(5, &Vec::new()).is_empty());
}

#[test]
fn last_page_cycles() {
    let mut end_page = 1;
    let mut seen = Vec::new();
    for _ in 0..7 {
        seen.push(end_page);
        end_page = next_end_page(end_page, 3);
    }
    assert_eq!(seen, vec![1, 2, 3, 1, 2, 3, 1]);
    assert_eq!(next_end_page(5, 3), 3);
    assert_eq!(next_end_page(7, 1), 1);
}

#[test]
fn error_texts() {
    assert_eq!(DexscreenError::TooManyRequests.to_string(), "Too many requests");
    assert_eq!(
        DexscreenError::Other("Parsed array error".to_string()).to_string(),
        "Other error: Parsed array error"
    );
    match is_response_paid(200, b"<html>".to_vec(), None) {
        Err(e) => {
            let text = e.to_string();
            match &e {
                DexscreenError::SimdJsonError(inner) => {
                    assert_eq!(text, format!("SimdJson error: {}", inner));
                }
                _ => panic!("a parse error"),
            }
            assert!(text.len() > "SimdJson error: ".len());
        }
        Ok(_) => panic!("not JSON"),
    }
}

#[test]
fn checked_statuses_other_than_ok_are_errors() {
    assert!(status_accepted(200));
    assert!(status_accepted(201));
    assert!(!status_accepted(204));
    assert!(!status_accepted(429));
    for status in [404u16, 429, 500, 204] {
        match is_response_paid_now(status, b"processing".to_vec(), true) {
            Err(DexscreenError::Other(m)) => assert_eq!(m, "Failed to fetch orders"),
            _ => panic!("status {} is refused", status),
        }
    }
    let now = current_unix_millis().expect("the clock reads after the epoch");
    let body = orders(&[order("tokenProfile", "approved", &now.to_string())]);
    assert!(matches!(is_response_paid_now(201, body.clone(), true), Ok(true)));
    assert!(matches!(is_response_paid_now(200, b"processing".to_vec(), true), Ok(true)));
    // without the status check a 404 is decided from its body
    assert!(matches!(is_response_paid_now(404, body, false), Ok(true)));
}

#[test]
fn request_error_text() {
    let e = reqwest::Client::new()
        .get("not a url")
        .build()
        .expect_err("a relative URL cannot be requested");
    let expected = format!("Reqwest error: {}", e);
    assert_eq!(DexscreenError::ReqwestError(e).to_string(), expected);
}
