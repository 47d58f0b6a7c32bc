use dexscreen_paid_notifier::pumpfun::{
    board_url, classify_text_frame, get_token_created_timestamp, get_token_market_cap_text,
    get_token_mint, get_token_name, get_token_usd_market_cap_text, mint_in_bounds,
    name_in_bounds, trade_created_json, FrameAction, FRONTEND_WS_URL,
};

const TRADE: &str = "{\"mint\":\"FnTEh9q7m2qj8aRm7rCuNzKh5PSgftqrqFszEGLFpump\",\"name\":\"Prophecy\",\"symbol\":\"PRO\",\"created_timestamp\":1712345678901,\"market_cap\":35.5,\"usd_market_cap\":10000.25,\"complete\":false}";

#[test]
fn reads_name_and_mint_of_a_trade() {
    assert!(name_in_bounds(TRADE));
    assert!(mint_in_bounds(TRADE));
    assert_eq!(get_token_name(TRADE), Some("Prophecy"));
    assert_eq!(
        get_token_mint(TRADE),
        Some("FnTEh9q7m2qj8aRm7rCuNzKh5PSgftqrqFszEGLFpump")
    );
}

#[test]
fn quoted_field_ends_at_brace_without_closing_quote() {
    let json = "{\"name\":\"abc}";
    assert!(name_in_bounds(json));
    assert_eq!(get_token_name(json), Some("abc"));
}

#[test]
fn quoted_field_missing_or_unterminated() {
    assert!(name_in_bounds("{\"symbol\":\"X\"}"));
    assert_eq!(get_token_name("{\"symbol\":\"X\"}"), None);
    assert_eq!(get_token_name("{\"name\":\"abc"), None);
    assert_eq!(get_token_mint("{\"name\":\"abc\"}"), None);
}

#[test]
fn quoted_field_first_occurrence_wins() {
    let json = "{\"name\":\"first\",\"name\":\"second\"}";
    assert_eq!(get_token_name(json), Some("first"));
}

#[test]
fn quoted_field_empty_value() {
    assert_eq!(get_token_name("{\"name\":\"\",\"x\":1}"), Some(""));
}

#[test]
fn out_of_bounds_name_is_detected() {
    // nothing after the pattern: the opening quote cannot be skipped
    assert!(!name_in_bounds("{\"name\":"));
    // a multi-byte character right after the pattern
    assert!(!name_in_bounds("{\"name\":\u{e9}x\"}"));
    assert!(!mint_in_bounds("{\"mint\":"));
}

#[test]
fn non_ascii_name_is_read_whole() {
    let json = "{\"name\":\"Caf\u{e9} \u{1f680}\",\"mint\":\"M\"}";
    assert!(name_in_bounds(json));
    assert_eq!(get_token_name(json), Some("Caf\u{e9} \u{1f680}"));
}

#[test]
fn created_timestamp_of_a_trade() {
    assert_eq!(get_token_created_timestamp(TRADE), Some(1712345678901));
    assert_eq!(get_token_created_timestamp("{\"created_timestamp\":12}"), Some(12));
    assert_eq!(get_token_created_timestamp("{\"other\":12}"), None);
}

#[test]
fn created_timestamp_edge_numbers() {
    assert_eq!(get_token_created_timestamp("\"created_timestamp\":-1,"), None);
    assert_eq!(get_token_created_timestamp("\"created_timestamp\":,"), None);
    assert_eq!(get_token_created_timestamp("\"created_timestamp\": 5,"), None);
    assert_eq!(get_token_created_timestamp("\"created_timestamp\":+5,"), Some(5));
    assert_eq!(get_token_created_timestamp("\"created_timestamp\":007,"), Some(7));
    assert_eq!(get_token_created_timestamp("\"created_timestamp\":1.5,"), None);
    assert_eq!(
        get_token_created_timestamp("\"created_timestamp\":18446744073709551615,"),
        Some(u64::MAX)
    );
    assert_eq!(
        get_token_created_timestamp("\"created_timestamp\":18446744073709551616,"),
        None
    );
    // no stop after the number
    assert_eq!(get_token_created_timestamp("\"created_timestamp\":5"), None);
}

#[test]
fn market_cap_texts_of_a_trade() {
    assert_eq!(get_token_market_cap_text(TRADE), Some("35.5"));
    assert_eq!(get_token_usd_market_cap_text(TRADE), Some("10000.25"));
}

#[test]
fn market_cap_is_not_read_from_usd_market_cap() {
    let json = "{\"usd_market_cap\":5000}";
    assert_eq!(get_token_market_cap_text(json), None);
    assert_eq!(get_token_usd_market_cap_text(json), Some("5000"));
}

#[test]
fn trade_json_is_cut_out_of_the_message() {
    let message = format!("42[\"tradeCreated\",{}]", TRADE);
    assert_eq!(trade_created_json(&message), Some(TRADE));
}

#[test]
fn trade_json_runs_to_the_last_bracket() {
    assert_eq!(
        trade_created_json("42[\"tradeCreated\",{\"a\":[1,2]}]"),
        Some("{\"a\":[1,2]}")
    );
    assert_eq!(
        trade_created_json("42[\"tradeCreated\",{\"a\":1}]trailing"),
        Some("{\"a\":1}")
    );
}

#[test]
fn trade_json_strips_every_leading_prefix() {
    assert_eq!(
        trade_created_json("42[\"tradeCreated\",42[\"tradeCreated\",{\"a\":1}]"),
        Some("{\"a\":1}")
    );
}

#[test]
fn trade_json_refuses_other_messages() {
    assert_eq!(trade_created_json("42[\"tradeUpdated\",{\"a\":1}]"), None);
    assert_eq!(trade_created_json("42[\"tradeCreated\",{\"a\":1}"), None);
    assert_eq!(trade_created_json(""), None);
    assert_eq!(trade_created_json("42[\"tradeCreated\","), None);
}

#[test]
fn frames_are_answered_or_forwarded() {
    assert!(matches!(
        classify_text_frame(b"0{\"sid\":\"abc\"}"),
        FrameAction::Reply("40")
    ));
    assert!(matches!(classify_text_frame(b"2"), FrameAction::Reply("3")));
    assert!(matches!(classify_text_frame(b"2probe"), FrameAction::Reply("3")));
    match classify_text_frame(b"42[\"tradeCreated\",{}]") {
        FrameAction::Forward(text) => assert_eq!(text, "42[\"tradeCreated\",{}]"),
        _ => panic!("a trade message is forwarded"),
    }
    match classify_text_frame("40{\"x\":\"\u{e9}\"}".as_bytes()) {
        FrameAction::Forward(text) => assert_eq!(text, "40{\"x\":\"\u{e9}\"}"),
        _ => panic!("UTF-8 text is forwarded"),
    }
    assert!(matches!(classify_text_frame(&[0xff, 0xfe, 0x41]), FrameAction::Skip));
    match classify_text_frame(b"") {
        FrameAction::Forward(text) => assert_eq!(text, ""),
        _ => panic!("an empty frame is empty text"),
    }
}

#[test]
fn board_link_searches_the_mint() {
    assert_eq!(
        board_url("FnTEh9q7m2qj8aRm7rCuNzKh5PSgftqrqFszEGLFpump"),
        "https://pump.fun/board?include-nsfw=true&q=FnTEh9q7m2qj8aRm7rCuNzKh5PSgftqrqFszEGLFpump&coins_sort=market_cap"
    );
}

#[test]
fn feed_address() {
    assert_eq!(
        FRONTEND_WS_URL,
        "wss://frontend-api-v3.pump.fun/socket.io/?EIO=4&transport=websocket"
    );
}
