//! Dexscreener: the token data in its pair listings, and whether the orders
//! of a token show a recently paid token profile.
use vstd::prelude::*;
use vstd::utf8::*;
use vstd::string::*;
use crate::scan::{
    occurs_at, contains_bytes, find_from, find_either, find_bytes_from, find_either_from,
    lemma_find_from, lemma_find_from_unique, lemma_ascii_str_bytes, lemma_boundary_at_ascii,
    lemma_boundary_after_ascii,
    str_between, parse_u64_spec, decimal_chars, push_decimal,
};
use crate::field::{
    ascii_text, field_span, field_text, field_u64, text_bytes, span_bytes, lemma_stops_ascii,
    QUOTE, CLOSE_BRACE, COMMA,
};
use crate::json::{
    JsonNode, json_tape, parse_json, is_object_at, is_array_at, object_str, object_u64,
    element_pos, container_len, lemma_element_pos_grows, container_len_node, object_str_node,
    object_u64_node, str_eq,
};
use crate::common::{
    abs_diff, time_difference_ms, current_unix_millis, duration_from_millis, duration_as_secs,
};

verus! {

broadcast use vstd::utf8::group_utf8_lib;

#[verifier::external_type_specification]
#[verifier::external_body]
pub struct ExReqwestError(reqwest::Error);

/// The chain whose orders are asked for.
pub const CHANNEL_ID: &'static str = "solana";

/// A paid order counts while its payment is less than this many seconds
/// away.
pub const PAID_TIMEOUT_SECS: u64 = 5 * 60;

/// HTTP status with which the orders service refuses a request for now.
pub const TOO_MANY_REQUESTS: u16 = 429;

/// A response holding this text reports an order in progress, which counts
/// as paid.
pub const PROCESSING: &'static str = "processing";

pub const ORDER_TYPE_KEY: &'static str = "type";

pub const ORDER_STATUS_KEY: &'static str = "status";

pub const ORDER_PAYMENT_TIMESTAMP_KEY: &'static str = "paymentTimestamp";

pub const TOKEN_PROFILE: &'static str = "tokenProfile";

pub const APPROVED: &'static str = "approved";

/// Message of the error for an orders response that is not a JSON array.
pub const PARSED_ARRAY_ERROR: &'static str = "Parsed array error";

/// Why a paid check could not be answered.
#[derive(Debug)]
pub enum DexscreenError {
    TooManyRequests,
    ReqwestError(reqwest::Error),
    SimdJsonError(simd_json::Error),
    Other(String),
}

pub const TOO_MANY_REQUESTS_TEXT: &'static str = "Too many requests";

pub const REQWEST_ERROR_PREFIX: &'static str = "Reqwest error: ";

pub const SIMD_JSON_ERROR_PREFIX: &'static str = "SimdJson error: ";

pub const OTHER_ERROR_PREFIX: &'static str = "Other error: ";

/// The text that a `reqwest::Error` displays, which reqwest composes from
/// the error's kind, URL and source.
pub uninterp spec fn reqwest_error_display(e: reqwest::Error) -> Seq<char>;

/// The text that a `simd_json::Error` displays, which simd-json composes
/// from the error's kind, position and character.
pub uninterp spec fn simd_json_error_display(e: simd_json::Error) -> Seq<char>;

/// The `Display` text of a `reqwest::Error`.
///
/// Trusted: the text is the one the error displays
/// (`reqwest_error_display`), which depends on the error alone.
#[verifier::external_body]
fn reqwest_error_text(e: &reqwest::Error) -> (r: String)
    ensures
        r@ == reqwest_error_display(*e),
{
    format!("{e}")
}

/// The `Display` text of a `simd_json::Error`.
///
/// Trusted: the text is the one the error displays
/// (`simd_json_error_display`), which depends on the error alone.
#[verifier::external_body]
fn simd_json_error_text(e: &simd_json::Error) -> (r: String)
    ensures
        r@ == simd_json_error_display(*e),
{
    format!("{e}")
}

impl DexscreenError {
    /// The text that tells what went wrong: a fixed text for too many
    /// requests, and otherwise a prefix naming the kind of error followed by
    /// the error's own text.
    pub fn to_string(&self) -> (r: String)
        ensures
            self is TooManyRequests ==> r@ == TOO_MANY_REQUESTS_TEXT@,
            self matches DexscreenError::ReqwestError(e) ==> r@ == REQWEST_ERROR_PREFIX@
                + reqwest_error_display(*e),
            self matches DexscreenError::SimdJsonError(e) ==> r@ == SIMD_JSON_ERROR_PREFIX@
                + simd_json_error_display(*e),
            self matches DexscreenError::Other(m) ==> r@ == OTHER_ERROR_PREFIX@ + m@,
    {
        match self {
            DexscreenError::TooManyRequests => TOO_MANY_REQUESTS_TEXT.to_owned(),
            DexscreenError::ReqwestError(e) => {
                let mut text = REQWEST_ERROR_PREFIX.to_owned();
                let detail = reqwest_error_text(e);
                text.append(detail.as_str());
                text
            },
            DexscreenError::SimdJsonError(e) => {
                let mut text = SIMD_JSON_ERROR_PREFIX.to_owned();
                let detail = simd_json_error_text(e);
                text.append(detail.as_str());
                text
            },
            DexscreenError::Other(m) => {
                let mut text = OTHER_ERROR_PREFIX.to_owned();
                text.append(m.as_str());
                text
            },
        }
    }
}

/// The order at `p` is a token-profile order, approved, with a payment less
/// than `PAID_TIMEOUT_SECS` whole seconds away from `now_ms`.
pub open spec fn order_recently_paid(t: Seq<JsonNode>, p: int, now_ms: Option<u64>) -> bool {
    &&& is_object_at(t, p)
    &&& object_str(t, p, ORDER_TYPE_KEY@) == Some(TOKEN_PROFILE@)
    &&& object_str(t, p, ORDER_STATUS_KEY@) == Some(APPROVED@)
    &&& object_u64(t, p, ORDER_PAYMENT_TIMESTAMP_KEY@) matches Some(paid_at)
    &&& now_ms matches Some(now)
    &&& abs_diff(now, paid_at) / 1000 < PAID_TIMEOUT_SECS
}

/// Some order of the array at the start of the tape was recently paid.
pub open spec fn orders_paid(t: Seq<JsonNode>, now_ms: Option<u64>) -> bool {
    exists|k: nat|
        #![trigger element_pos(t, 0, k)]
        k < container_len(t, 0) && element_pos(t, 0, k) < t.len() && order_recently_paid(
            t,
            element_pos(t, 0, k),
            now_ms,
        )
}

/// Whether the order at `p` was recently paid.
fn order_recently_paid_node(t: &Vec<JsonNode>, p: usize, now_ms: Option<u64>) -> (r: bool)
    ensures
        r == order_recently_paid(t@, p as int, now_ms),
{
    if p >= t.len() {
        return false;
    }
    match &t[p] {
        JsonNode::Object { .. } => {},
        _ => return false,
    }
    let kind = match object_str_node(t, p, ORDER_TYPE_KEY) {
        Some(s) => s,
        None => return false,
    };
    if !str_eq(kind, TOKEN_PROFILE) {
        return false;
    }
    let status = match object_str_node(t, p, ORDER_STATUS_KEY) {
        Some(s) => s,
        None => return false,
    };
    if !str_eq(status, APPROVED) {
        return false;
    }
    let paid_at = match object_u64_node(t, p, ORDER_PAYMENT_TIMESTAMP_KEY) {
        Some(v) => v,
        None => return false,
    };
    let now = match now_ms {
        Some(n) => n,
        None => return false,
    };
    let elapsed = duration_from_millis(time_difference_ms(now, paid_at));
    duration_as_secs(&elapsed) < PAID_TIMEOUT_SECS
}

/// Whether the orders (the array that the tape holds) show a recently paid
/// token profile, with the clock reading `now_ms`.
pub fn paid_in_orders(t: &Vec<JsonNode>, now_ms: Option<u64>) -> (r: bool)
    requires
        is_array_at(t@, 0),
    ensures
        r == orders_paid(t@, now_ms),
{
    let n = container_len_node(t, 0);
    let mut k: usize = 0;
    let mut pos: usize = 1;
    while k < n
        invariant
            is_array_at(t@, 0),
            n as nat == container_len(t@, 0),
            k <= n,
            pos as int == element_pos(t@, 0, k as nat),
            forall|j: nat|
                #![trigger element_pos(t@, 0, j)]
                j < k ==> !(element_pos(t@, 0, j) < t@.len() && order_recently_paid(
                    t@,
                    element_pos(t@, 0, j),
                    now_ms,
                )),
        decreases n - k,
    {
        if pos >= t.len() {
            proof {
                assert forall|j: nat|
                    #![trigger element_pos(t@, 0, j)]
                    j < n implies !(element_pos(t@, 0, j) < t@.len() && order_recently_paid(
                        t@,
                        element_pos(t@, 0, j),
                        now_ms,
                    )) by {
                    if j >= k {
                        lemma_element_pos_grows(t@, 0, k as nat, j);
                    }
                }
            }
            return false;
        }
        if order_recently_paid_node(t, pos, now_ms) {
            assert(element_pos(t@, 0, k as nat) < t@.len());
            return true;
        }
        let ghost k1 = (k + 1) as nat;
        let c = match &t[pos] {
            JsonNode::Object { count, .. } => *count,
            JsonNode::Array { count, .. } => *count,
            _ => 0,
        };
        let next = match pos.checked_add(c) {
            Some(q) => q.checked_add(1),
            None => None,
        };
        match next {
            Some(q) => {
                assert(q as int == element_pos(t@, 0, k1));
                pos = q;
            },
            None => {
                proof {
                    assert(element_pos(t@, 0, k1) > usize::MAX);
                    assert forall|j: nat|
                        #![trigger element_pos(t@, 0, j)]
                        j < n implies !(element_pos(t@, 0, j) < t@.len() && order_recently_paid(
                            t@,
                            element_pos(t@, 0, j),
                            now_ms,
                        )) by {
                        if j > k {
                            lemma_element_pos_grows(t@, 0, k1, j);
                        }
                    }
                }
                return false;
            },
        }
        k += 1;
    }
    false
}

/// Decides from an orders response (its HTTP status and body) whether the
/// token's profile is paid, with the clock reading `now_ms`.
///
/// A 429 status is `TooManyRequests`; a body holding `processing` is paid;
/// otherwise the body must be a JSON array of orders (else `SimdJsonError`
/// or `Other`), and it is paid when one order is an approved token profile
/// paid less than five minutes from now.
pub fn is_response_paid(status: u16, body: Vec<u8>, now_ms: Option<u64>) -> (r: Result<
    bool,
    DexscreenError,
>)
    ensures
        status == TOO_MANY_REQUESTS ==> r matches Err(DexscreenError::TooManyRequests),
        status != TOO_MANY_REQUESTS && (exists|i: int| occurs_at(body@, PROCESSING.spec_bytes(), i))
            ==> r matches Ok(true),
        status != TOO_MANY_REQUESTS && !(exists|i: int|
            occurs_at(body@, PROCESSING.spec_bytes(), i)) ==> match json_tape(body@) {
            None => r matches Err(DexscreenError::SimdJsonError(_)),
            Some(t) => if is_array_at(t, 0) {
                r matches Ok(paid) && paid == orders_paid(t, now_ms)
            } else {
                r matches Err(DexscreenError::Other(m)) && m@ == PARSED_ARRAY_ERROR@
            },
        },
{
    if status == TOO_MANY_REQUESTS {
        return Err(DexscreenError::TooManyRequests);
    }
    if contains_bytes(body.as_slice(), PROCESSING.as_bytes()) {
        return Ok(true);
    }
    let mut bytes = body;
    let tape = match parse_json(&mut bytes) {
        Ok(t) => t,
        Err(e) => return Err(DexscreenError::SimdJsonError(e)),
    };
    let is_array = tape.len() > 0 && match &tape[0] {
        JsonNode::Array { .. } => true,
        _ => false,
    };
    if !is_array {
        return Err(DexscreenError::Other(PARSED_ARRAY_ERROR.to_owned()));
    }
    Ok(paid_in_orders(&tape, now_ms))
}

/// HTTP status of a response with content.
pub const OK_STATUS: u16 = 200;

/// HTTP status of a response that created something.
pub const CREATED_STATUS: u16 = 201;

/// Message of the error for an orders response with another status, in a
/// build that checks statuses.
pub const FAILED_TO_FETCH_ORDERS: &'static str = "Failed to fetch orders";

/// Whether the status of an orders response is one that a build checking
/// statuses reads the body of: 200 or 201.
pub fn status_accepted(status: u16) -> (r: bool)
    ensures
        r == (status == OK_STATUS || status == CREATED_STATUS),
{
    status == OK_STATUS || status == CREATED_STATUS
}

/// Whether the body of an orders response is looked at: always, unless
/// statuses are checked and the status is neither 200 nor 201.
pub open spec fn status_passes(status: u16, check_status: bool) -> bool {
    !check_status || status == OK_STATUS || status == CREATED_STATUS
}

/// Decides from an orders response whether the token's profile is paid, by
/// the system clock (`is_response_paid` with the clock read now).
///
/// With `check_status` (the debug build), any status other than 200 and 201
/// is an `Other` error, before anything else is looked at; without it the
/// status only matters when it is 429.
///
/// The clock reading is not known here, so a paid answer for an array of
/// orders only says that some reading of the clock makes an order recent.
pub fn is_response_paid_now(status: u16, body: Vec<u8>, check_status: bool) -> (r: Result<
    bool,
    DexscreenError,
>)
    ensures
        !status_passes(status, check_status) ==> (r matches Err(DexscreenError::Other(m)) && m@
            == FAILED_TO_FETCH_ORDERS@),
        status_passes(status, check_status) && status == TOO_MANY_REQUESTS ==> r matches Err(
            DexscreenError::TooManyRequests,
        ),
        status_passes(status, check_status) && status != TOO_MANY_REQUESTS && (exists|i: int|
            occurs_at(body@, PROCESSING.spec_bytes(), i)) ==> r matches Ok(true),
        status_passes(status, check_status) && status != TOO_MANY_REQUESTS && !(exists|i: int|
            occurs_at(body@, PROCESSING.spec_bytes(), i)) ==> match json_tape(body@) {
            None => r matches Err(DexscreenError::SimdJsonError(_)),
            Some(t) => if is_array_at(t, 0) {
                r matches Ok(paid) && (paid ==> exists|now: u64| #[trigger]
                    orders_paid(t, Some(now)))
            } else {
                r matches Err(DexscreenError::Other(m)) && m@ == PARSED_ARRAY_ERROR@
            },
        },
{
    if check_status && !status_accepted(status) {
        return Err(DexscreenError::Other(FAILED_TO_FETCH_ORDERS.to_owned()));
    }
    let now_ms = current_unix_millis();
    let ghost b = body@;
    let r = is_response_paid(status, body, now_ms);
    proof {
        if let Some(t) = json_tape(b) {
            if status != TOO_MANY_REQUESTS && !(exists|i: int| occurs_at(b, PROCESSING.spec_bytes(), i))
                && r matches Ok(true) {
                if let Some(n) = now_ms {
                    assert(orders_paid(t, Some(n)));
                }
            }
        }
    }
    r
}

/// What a paid check leads to: whether the token is paid, and whether to
/// back off before the next request.
#[derive(Debug)]
pub struct CheckVerdict {
    pub paid: bool,
    pub back_off: bool,
}

/// A paid check is answered yes only by `Ok(true)`; a refusal for too many
/// requests asks to back off.
pub fn check_verdict(result: &Result<bool, DexscreenError>) -> (v: CheckVerdict)
    ensures
        v.paid == (result matches Ok(true)),
        v.back_off == (result matches Err(DexscreenError::TooManyRequests)),
{
    match result {
        Ok(paid) => CheckVerdict { paid: *paid, back_off: false },
        Err(DexscreenError::TooManyRequests) => CheckVerdict { paid: false, back_off: true },
        Err(_) => CheckVerdict { paid: false, back_off: false },
    }
}

/* Token data in pair listings */

pub const CREATED_TIMESTAMP_FIELD: &'static str = "\"pairCreatedAt\":";

pub const MARKET_CAP_FIELD: &'static str = "\"marketCap\":";

pub const BASE_TOKEN_FIELD: &'static str = "\"baseToken\":{";

pub const BASE_TOKEN_ADDRESS_FIELD: &'static str = "\"address\":";

pub const BASE_TOKEN_NAME_FIELD: &'static str = "\"name\":";

pub proof fn lemma_patterns_ascii()
    ensures
        ascii_text(CREATED_TIMESTAMP_FIELD.spec_bytes()),
        ascii_text(MARKET_CAP_FIELD.spec_bytes()),
        ascii_text(BASE_TOKEN_FIELD.spec_bytes()),
        ascii_text(BASE_TOKEN_ADDRESS_FIELD.spec_bytes()),
        ascii_text(BASE_TOKEN_NAME_FIELD.spec_bytes()),
        ascii_text(QUOTE.spec_bytes()),
        ascii_text(CLOSE_BRACE.spec_bytes()),
        ascii_text(COMMA.spec_bytes()),
{
    reveal_strlit("\"pairCreatedAt\":");
    reveal_strlit("\"marketCap\":");
    reveal_strlit("\"baseToken\":{");
    reveal_strlit("\"address\":");
    reveal_strlit("\"name\":");
    lemma_ascii_str_bytes(CREATED_TIMESTAMP_FIELD);
    lemma_ascii_str_bytes(MARKET_CAP_FIELD);
    lemma_ascii_str_bytes(BASE_TOKEN_FIELD);
    lemma_ascii_str_bytes(BASE_TOKEN_ADDRESS_FIELD);
    lemma_ascii_str_bytes(BASE_TOKEN_NAME_FIELD);
    lemma_stops_ascii();
}

/// Range of the number after `pattern`, up to the first `,`, or else the
/// first `}`.
pub open spec fn number_span(b: Seq<u8>, pattern: Seq<u8>) -> Option<(int, int)> {
    field_span(b, pattern, 0, COMMA.spec_bytes(), CLOSE_BRACE.spec_bytes())
}

/// The pair's creation time: the unsigned number after `"pairCreatedAt":`.
pub fn get_token_created_timestamp(json: &str) -> (r: Option<u64>)
    ensures
        r == match number_span(json.spec_bytes(), CREATED_TIMESTAMP_FIELD.spec_bytes()) {
            Some((s, e)) => parse_u64_spec(json.spec_bytes().subrange(s, e)),
            None => None,
        },
{
    proof {
        lemma_patterns_ascii();
    }
    field_u64(json, CREATED_TIMESTAMP_FIELD, COMMA, CLOSE_BRACE)
}

/// The text of the pair's market cap, after `"marketCap":`.
pub fn get_token_market_cap_text<'a>(json: &'a str) -> (r: Option<&'a str>)
    ensures
        text_bytes(r) == span_bytes(
            json.spec_bytes(),
            number_span(json.spec_bytes(), MARKET_CAP_FIELD.spec_bytes()),
        ),
{
    proof {
        lemma_patterns_ascii();
    }
    field_text(json, MARKET_CAP_FIELD, false, COMMA, CLOSE_BRACE)
}

/// Where a quoted value that follows `pattern` (searched from `from`)
/// starts and where the `,` or `}` after it is: `(value start, stop)`.
/// The value itself ends one byte before the stop (its closing quote).
pub open spec fn quoted_value_bounds(b: Seq<u8>, pattern: Seq<u8>, from: int) -> Option<(int, int)> {
    match find_from(b, pattern, from) {
        None => None,
        Some(p) => {
            let v = p + pattern.len() + 1;
            match find_either(b, COMMA.spec_bytes(), CLOSE_BRACE.spec_bytes(), v) {
                Some(e) => Some((v, e)),
                None => None,
            }
        },
    }
}

/// Reading such a value cuts no character: the byte after the pattern
/// exists and is ASCII, the stop comes after at least one byte, and the
/// byte before the stop starts a character.
pub open spec fn quoted_value_ok(b: Seq<u8>, pattern: Seq<u8>, from: int) -> bool {
    match find_from(b, pattern, from) {
        None => true,
        Some(p) => {
            let v = p + pattern.len() + 1;
            &&& v <= b.len()
            &&& b[v - 1] < 0x80
            &&& match find_either(b, COMMA.spec_bytes(), CLOSE_BRACE.spec_bytes(), v) {
                None => true,
                Some(e) => v < e && !is_continuation_byte(b[e - 1]),
            }
        },
    }
}

/// Where the base token's address and name are: the address is the first
/// quoted value after `"address":` past `"baseToken":{`, and the name the
/// first quoted value after `"name":` from the start of the address on.
pub open spec fn token_spans(b: Seq<u8>) -> Option<((int, int), (int, int))> {
    match find_from(b, BASE_TOKEN_FIELD.spec_bytes(), 0) {
        None => None,
        Some(p) => match quoted_value_bounds(
            b,
            BASE_TOKEN_ADDRESS_FIELD.spec_bytes(),
            p + BASE_TOKEN_FIELD.spec_bytes().len(),
        ) {
            None => None,
            Some((av, ae)) => match quoted_value_bounds(b, BASE_TOKEN_NAME_FIELD.spec_bytes(), av) {
                None => None,
                Some((nv, ne)) => Some(((av, ae - 1), (nv, ne - 1))),
            },
        },
    }
}

/// The base token can be read without cutting a character.
pub open spec fn token_text_ok(b: Seq<u8>) -> bool {
    match find_from(b, BASE_TOKEN_FIELD.spec_bytes(), 0) {
        None => true,
        Some(p) => {
            let from = p + BASE_TOKEN_FIELD.spec_bytes().len();
            &&& quoted_value_ok(b, BASE_TOKEN_ADDRESS_FIELD.spec_bytes(), from)
            &&& match quoted_value_bounds(b, BASE_TOKEN_ADDRESS_FIELD.spec_bytes(), from) {
                None => true,
                Some((av, ae)) => quoted_value_ok(b, BASE_TOKEN_NAME_FIELD.spec_bytes(), av),
            }
        },
    }
}

/// The quoted value after `pattern` (searched from `from`), per
/// `quoted_value_bounds`; also gives where the value starts.
fn quoted_value<'a>(json: &'a str, pattern: &str, from: usize) -> (r: Option<(&'a str, usize)>)
    requires
        ascii_text(pattern.spec_bytes()),
        ascii_text(COMMA.spec_bytes()),
        ascii_text(CLOSE_BRACE.spec_bytes()),
        quoted_value_ok(json.spec_bytes(), pattern.spec_bytes(), from as int),
    ensures
        match r {
            Some((v, start)) => quoted_value_bounds(
                json.spec_bytes(),
                pattern.spec_bytes(),
                from as int,
            ) matches Some((s, e)) && s == start && v.spec_bytes() == json.spec_bytes().subrange(
                s,
                e - 1,
            ),
            None => quoted_value_bounds(json.spec_bytes(), pattern.spec_bytes(), from as int) is None,
        },
{
    let b = json.as_bytes();
    let pat = pattern.as_bytes();
    let blen = b.len();
    let ghost bb = b@;
    proof {
        encode_utf8_valid_utf8(json@);
    }
    let p = match find_bytes_from(b, pat, from) {
        Some(p) => p,
        None => return None,
    };
    proof {
        lemma_find_from(bb, pat@, from as int);
    }
    let start = p + pat.len() + 1;
    let stop = match find_either_from(b, COMMA.as_bytes(), CLOSE_BRACE.as_bytes(), start) {
        Some(e) => e,
        None => return None,
    };
    proof {
        lemma_find_from(bb, COMMA.spec_bytes(), start as int);
        lemma_find_from(bb, CLOSE_BRACE.spec_bytes(), start as int);
        lemma_boundary_after_ascii(bb, start as int);
        is_char_boundary_iff_not_is_continuation_byte(bb, stop - 1);
    }
    Some((str_between(json, start, stop - 1), start))
}

/// Whether the base token of a pair can be read without cutting a
/// character.
pub fn token_text_in_bounds(json: &str) -> (r: bool)
    ensures
        r == token_text_ok(json.spec_bytes()),
{
    proof {
        lemma_patterns_ascii();
    }
    let b = json.as_bytes();
    let blen = b.len();
    let p = match find_bytes_from(b, BASE_TOKEN_FIELD.as_bytes(), 0) {
        Some(p) => p,
        None => return true,
    };
    proof {
        lemma_find_from(b@, BASE_TOKEN_FIELD.spec_bytes(), 0);
    }
    let from = p + BASE_TOKEN_FIELD.as_bytes().len();
    match quoted_value_check(b, BASE_TOKEN_ADDRESS_FIELD.as_bytes(), from) {
        (false, _) => false,
        (true, None) => true,
        (true, Some(av)) => quoted_value_check(b, BASE_TOKEN_NAME_FIELD.as_bytes(), av).0,
    }
}

/// Whether `quoted_value_ok` holds, with the value start when the value is
/// there.
fn quoted_value_check(b: &[u8], pat: &[u8], from: usize) -> (r: (bool, Option<usize>))
    requires
        ascii_text(COMMA.spec_bytes()),
        ascii_text(CLOSE_BRACE.spec_bytes()),
    ensures
        r.0 == quoted_value_ok(b@, pat@, from as int),
        match r.1 {
            Some(v) => quoted_value_bounds(b@, pat@, from as int) matches Some((s, e)) && s == v,
            None => quoted_value_bounds(b@, pat@, from as int) is None,
        },
{
    let blen = b.len();
    let p = match find_bytes_from(b, pat, from) {
        Some(p) => p,
        None => return (true, None),
    };
    proof {
        lemma_find_from(b@, pat@, from as int);
    }
    let after = p + pat.len();
    if after >= blen {
        return (false, None);
    }
    let v = after + 1;
    let ascii = b[after] < 0x80u8;
    match find_either_from(b, COMMA.as_bytes(), CLOSE_BRACE.as_bytes(), v) {
        None => (ascii, None),
        Some(e) => {
            proof {
                lemma_find_from(b@, COMMA.spec_bytes(), v as int);
                lemma_find_from(b@, CLOSE_BRACE.spec_bytes(), v as int);
            }
            let ok = ascii && v < e && !(b[e - 1] >= 0x80u8 && b[e - 1] <= 0xbfu8);
            (ok, Some(v))
        },
    }
}

/// The address and name of a pair's base token.
#[derive(Debug)]
pub struct TokenParts {
    pub mint: String,
    pub name: String,
}

/// The base token of a pair's JSON, per `token_spans`.
pub fn get_token_parts(json: &str) -> (r: Option<TokenParts>)
    requires
        token_text_ok(json.spec_bytes()),
    ensures
        match r {
            Some(t) => token_spans(json.spec_bytes()) matches Some((a, n)) && encode_utf8(t.mint@)
                == json.spec_bytes().subrange(a.0, a.1) && encode_utf8(t.name@)
                == json.spec_bytes().subrange(n.0, n.1),
            None => token_spans(json.spec_bytes()) is None,
        },
{
    proof {
        lemma_patterns_ascii();
    }
    let b = json.as_bytes();
    let blen = b.len();
    let p = match find_bytes_from(b, BASE_TOKEN_FIELD.as_bytes(), 0) {
        Some(p) => p,
        None => return None,
    };
    proof {
        lemma_find_from(b@, BASE_TOKEN_FIELD.spec_bytes(), 0);
    }
    let from = p + BASE_TOKEN_FIELD.as_bytes().len();
    let (address, av) = match quoted_value(json, BASE_TOKEN_ADDRESS_FIELD, from) {
        Some(x) => x,
        None => return None,
    };
    let (name, _) = match quoted_value(json, BASE_TOKEN_NAME_FIELD, av) {
        Some(x) => x,
        None => return None,
    };
    Some(TokenParts { mint: address.to_owned(), name: name.to_owned() })
}

/* Pair listings */

pub const PAIRS_START_MARKER: &'static str = "\"pairs\":[{";

pub const PAIRS_END_MARKER: &'static str = "],\"pairsCount\":";

pub const PAIR_SEPARATOR: &'static str = "},{";

pub proof fn lemma_markers_ascii()
    ensures
        ascii_text(PAIRS_START_MARKER.spec_bytes()),
        ascii_text(PAIRS_END_MARKER.spec_bytes()),
        ascii_text(PAIR_SEPARATOR.spec_bytes()),
        PAIRS_START_MARKER.spec_bytes().len() == 10,
        PAIRS_START_MARKER.spec_bytes()[8] == 91,
        PAIRS_END_MARKER.spec_bytes()[0] == 93,
{
    reveal_strlit("\"pairs\":[{");
    reveal_strlit("],\"pairsCount\":");
    reveal_strlit("},{");
    lemma_ascii_str_bytes(PAIRS_START_MARKER);
    lemma_ascii_str_bytes(PAIRS_END_MARKER);
    lemma_ascii_str_bytes(PAIR_SEPARATOR);
}

/// Range of the pair list in a listing page: from the `[` of the first
/// `"pairs":[{` to the `]` of the first `],"pairsCount":` after it, that
/// `]` included.
pub open spec fn pairs_window(b: Seq<u8>) -> Option<(int, int)> {
    match find_from(b, PAIRS_START_MARKER.spec_bytes(), 0) {
        None => None,
        Some(p) => {
            let w0 = p + PAIRS_START_MARKER.spec_bytes().len() - 2;
            match find_from(b, PAIRS_END_MARKER.spec_bytes(), w0) {
                None => None,
                Some(q) => Some((w0, q + 1)),
            }
        },
    }
}

/// The pieces of `s[from..]` between the occurrences of `sep`, taken left
/// to right without overlap.
pub open spec fn split_from(s: Seq<u8>, sep: Seq<u8>, from: int) -> Seq<(int, int)>
    decreases s.len() - from,
    when 0 <= from <= s.len() && sep.len() > 0
{
    match find_from(s, sep, from) {
        None => seq![(from, s.len() as int)],
        Some(i) => {
            proof {
                lemma_find_from(s, sep, from);
            }
            seq![(from, i)] + split_from(s, sep, i + sep.len())
        },
    }
}

/// The texts of the pieces of `w[from..]` split at `sep`.
pub open spec fn split_texts(w: Seq<u8>, sep: Seq<u8>, from: int) -> Seq<Seq<u8>> {
    split_from(w, sep, from).map_values(|r: (int, int)| w.subrange(r.0, r.1))
}

/// Texts joined with a separator between each two.
pub open spec fn join_with(pieces: Seq<Seq<u8>>, sep: Seq<u8>) -> Seq<u8>
    decreases pieces.len(),
{
    if pieces.len() == 0 {
        seq![]
    } else if pieces.len() == 1 {
        pieces[0]
    } else {
        pieces[0] + sep + join_with(pieces.drop_first(), sep)
    }
}

/// Splitting at a separator loses nothing: joining the pieces back with the
/// separator gives the text again.
pub proof fn lemma_split_join(w: Seq<u8>, sep: Seq<u8>, from: int)
    requires
        0 <= from <= w.len(),
        sep.len() > 0,
    ensures
        split_from(w, sep, from).len() > 0,
        join_with(split_texts(w, sep, from), sep) == w.subrange(from, w.len() as int),
    decreases w.len() - from,
{
    lemma_find_from(w, sep, from);
    let pieces = split_texts(w, sep, from);
    match find_from(w, sep, from) {
        None => {
            assert(pieces =~= seq![w.subrange(from, w.len() as int)]);
        },
        Some(i) => {
            let next = i + sep.len();
            lemma_split_join(w, sep, next);
            let rest = split_texts(w, sep, next);
            assert(pieces.drop_first() =~= rest);
            assert(pieces[0] == w.subrange(from, i));
            assert(w.subrange(i, next) =~= sep);
            assert(w.subrange(from, w.len() as int) =~= w.subrange(from, i) + sep + w.subrange(
                next,
                w.len() as int,
            ));
        },
    }
}

/// The texts of the pairs of a listing page: the pair list split at each
/// `},{`. Nothing when the page has no pair list.
pub fn dexscreen_pairs<'a>(text: &'a str) -> (r: Option<Vec<&'a str>>)
    ensures
        match r {
            Some(pieces) => pairs_window(text.spec_bytes()) matches Some((w0, w1)) && {
                let w = text.spec_bytes().subrange(w0, w1);
                let spans = split_from(w, PAIR_SEPARATOR.spec_bytes(), 0);
                &&& pieces@.len() == spans.len()
                &&& forall|i: int|
                    0 <= i < spans.len() ==> (#[trigger] pieces@[i]).spec_bytes() == w.subrange(
                        spans[i].0,
                        spans[i].1,
                    )
            },
            None => pairs_window(text.spec_bytes()) is None,
        },
{
    proof {
        lemma_markers_ascii();
        encode_utf8_valid_utf8(text@);
    }
    let b = text.as_bytes();
    let blen = b.len();
    let ghost bb = b@;
    let p = match find_bytes_from(b, PAIRS_START_MARKER.as_bytes(), 0) {
        Some(p) => p,
        None => return None,
    };
    proof {
        lemma_find_from(bb, PAIRS_START_MARKER.spec_bytes(), 0);
        assert(bb.subrange(p as int, p + 10)[8] == bb[p + 8]);
    }
    let w0 = p + PAIRS_START_MARKER.as_bytes().len() - 2;
    let q = match find_bytes_from(b, PAIRS_END_MARKER.as_bytes(), w0) {
        Some(q) => q,
        None => return None,
    };
    proof {
        lemma_find_from(bb, PAIRS_END_MARKER.spec_bytes(), w0 as int);
        assert(bb.subrange(q as int, q + PAIRS_END_MARKER.spec_bytes().len())[0] == bb[q as int]);
        lemma_boundary_at_ascii(bb, w0 as int);
        lemma_boundary_after_ascii(bb, q + 1);
    }
    let window = str_between(text, w0, q + 1);
    Some(split_text(window, PAIR_SEPARATOR))
}

/// Splits a text at each occurrence of an ASCII separator, left to right.
pub fn split_text<'a>(text: &'a str, sep: &str) -> (r: Vec<&'a str>)
    requires
        ascii_text(sep.spec_bytes()),
    ensures
        ({
            let w = text.spec_bytes();
            let spans = split_from(w, sep.spec_bytes(), 0);
            &&& r@.len() == spans.len()
            &&& forall|i: int|
                0 <= i < spans.len() ==> (#[trigger] r@[i]).spec_bytes() == w.subrange(
                    spans[i].0,
                    spans[i].1,
                )
        }),
{
    proof {
        encode_utf8_valid_utf8(text@);
    }
    let b = text.as_bytes();
    let sb = sep.as_bytes();
    let n = b.len();
    let ghost w = b@;
    let ghost sp = sb@;
    let mut out: Vec<&'a str> = Vec::new();
    let mut from: usize = 0;
    loop
        invariant
            w == b@,
            w == text.spec_bytes(),
            sp == sb@,
            sp == sep.spec_bytes(),
            ascii_text(sp),
            valid_utf8(w),
            n == w.len(),
            from <= n,
            from == 0 || w[from - 1] < 0x80,
            ({
                let all = split_from(w, sp, 0);
                let rest = split_from(w, sp, from as int);
                &&& all.len() == out@.len() + rest.len()
                &&& forall|i: int| 0 <= i < rest.len() ==> all[out@.len() + i] == rest[i]
                &&& forall|i: int|
                    0 <= i < out@.len() ==> (#[trigger] out@[i]).spec_bytes() == w.subrange(
                        all[i].0,
                        all[i].1,
                    )
            }),
        decreases n - from,
    {
        let ghost rest = split_from(w, sp, from as int);
        proof {
            lemma_find_from(w, sp, from as int);
            if from > 0 {
                lemma_boundary_after_ascii(w, from as int);
            }
        }
        match find_bytes_from(b, sb, from) {
            None => {
                proof {
                    is_char_boundary_start_end_of_seq(w);
                }
                let piece = str_between(text, from, n);
                let ghost before = out@;
                out.push(piece);
                proof {
                    let all = split_from(w, sp, 0);
                    assert(rest =~= seq![(from as int, n as int)]);
                    assert forall|i: int| 0 <= i < out@.len() implies (#[trigger] out@[i]).spec_bytes()
                        == w.subrange(all[i].0, all[i].1) by {
                        if i < before.len() {
                            assert(out@[i] == before[i]);
                        } else {
                            assert(all[i] == rest[0]);
                        }
                    }
                }
                return out;
            },
            Some(i) => {
                proof {
                    assert(w.subrange(i as int, i + sp.len())[0] == w[i as int]);
                    lemma_boundary_at_ascii(w, i as int);
                    assert(w.subrange(i as int, i + sp.len())[sp.len() - 1] == w[i + sp.len() - 1]);
                }
                let piece = str_between(text, from, i);
                let ghost before = out@;
                out.push(piece);
                let next = i + sb.len();
                proof {
                    let all = split_from(w, sp, 0);
                    let rest2 = split_from(w, sp, next as int);
                    assert(rest =~= seq![(from as int, i as int)] + rest2);
                    assert forall|k: int| 0 <= k < out@.len() implies (#[trigger] out@[k]).spec_bytes()
                        == w.subrange(all[k].0, all[k].1) by {
                        if k < before.len() {
                            assert(out@[k] == before[k]);
                        } else {
                            assert(all[k] == rest[0]);
                        }
                    }
                    assert forall|k: int| 0 <= k < rest2.len() implies all[out@.len() + k]
                        == rest2[k] by {
                        assert(all[before.len() + (k + 1)] == rest[k + 1]);
                    }
                }
                from = next;
            },
        }
    }
}

/* Links */

pub const ORDERS_URL_PREFIX: &'static str = "https://api.dexscreener.com/orders/v1/";

pub const PAGE_URL_PREFIX: &'static str = "https://dexscreener.com/solana/pumpfun/page-";

pub const SLASH: &'static str = "/";

pub const QUERY: &'static str = "?";

/// The orders of a token on the watched chain.
pub fn orders_url(mint: &str) -> (r: String)
    ensures
        r@ == ORDERS_URL_PREFIX@ + CHANNEL_ID@ + SLASH@ + mint@,
{
    let mut url = ORDERS_URL_PREFIX.to_owned();
    url.append(CHANNEL_ID);
    url.append(SLASH);
    url.append(mint);
    url
}

/// The listing page `page` with a filter query.
pub open spec fn page_url_spec(page: nat, filter: Seq<char>) -> Seq<char> {
    PAGE_URL_PREFIX@ + decimal_chars(page) + QUERY@ + filter
}

/// The listing page `page` with a filter query.
pub fn page_url(page: usize, filter: &str) -> (r: String)
    ensures
        r@ == page_url_spec(page as nat, filter@),
{
    let mut url = PAGE_URL_PREFIX.to_owned();
    push_decimal(&mut url, page as u64);
    url.append(QUERY);
    url.append(filter);
    url
}

/// Index, in the list of pages to fetch, of page `page` (from 1) with the
/// `j`-th filter: pages in order, and the filters in order within each.
pub open spec fn page_slot(filters: int, page: int, j: int) -> int {
    (page - 1) * filters + j
}

/// Every listing page from 1 to `end_page`, each with every filter.
pub fn page_urls(end_page: usize, filters: &Vec<String>) -> (r: Vec<String>)
    requires
        end_page * filters@.len() <= usize::MAX,
    ensures
        r@.len() == end_page * filters@.len(),
        forall|page: int, j: int|
            1 <= page <= end_page && 0 <= j < filters@.len() ==> (#[trigger] r@[page_slot(
                filters@.len() as int,
                page,
                j,
            )])@ == page_url_spec(page as nat, filters@[j]@),
{
    let f = filters.len();
    let ghost fi = f as int;
    let mut out: Vec<String> = Vec::new();
    if end_page == 0 {
        return out;
    }
    let mut page: usize = 1;
    loop
        invariant
            1 <= page <= end_page,
            fi == filters@.len(),
            f == filters@.len(),
            end_page * fi <= usize::MAX,
            out@.len() == (page - 1) * fi,
            forall|pg: int, j: int|
                1 <= pg < page && 0 <= j < fi ==> (#[trigger] out@[page_slot(fi, pg, j)])@
                    == page_url_spec(pg as nat, filters@[j]@),
        decreases end_page - page,
    {
        let mut j: usize = 0;
        let ghost base = out@;
        while j < f
            invariant
                1 <= page <= end_page,
                fi == filters@.len(),
                f == filters@.len(),
                j <= f,
                out@.len() == (page - 1) * fi + j,
                forall|k: int| 0 <= k < base.len() ==> out@[k] == base[k],
                base.len() == (page - 1) * fi,
                forall|k: int|
                    0 <= k < j ==> (#[trigger] out@[base.len() + k])@ == page_url_spec(
                        page as nat,
                        filters@[k]@,
                    ),
            decreases f - j,
        {
            out.push(page_url(page, filters[j].as_str()));
            j += 1;
        }
        proof {
            assert forall|pg: int, jj: int|
                1 <= pg <= page && 0 <= jj < fi implies (#[trigger] out@[page_slot(
                fi,
                pg,
                jj,
            )])@ == page_url_spec(pg as nat, filters@[jj]@) by {
                if pg < page {
                    assert(page_slot(fi, pg, jj) < base.len()) by (nonlinear_arith)
                        requires
                            pg < page,
                            0 <= jj < fi,
                            base.len() == (page - 1) * fi,
                            page_slot(fi, pg, jj) == (pg - 1) * fi + jj,
                            1 <= pg,
                    ;
                    assert(out@[page_slot(fi, pg, jj)] == base[page_slot(fi, pg, jj)]);
                } else {
                    assert(page_slot(fi, pg, jj) == base.len() + jj);
                }
            }
            assert(out@.len() == page * fi) by (nonlinear_arith)
                requires
                    out@.len() == (page - 1) * fi + fi,
            ;
        }
        if page == end_page {
            return out;
        }
        page += 1;
    }
}

/// The last listing page of the next round: one more than this round's,
/// back to 1 after `max_pages`.
pub fn next_end_page(end_page: usize, max_pages: usize) -> (r: usize)
    requires
        max_pages > 0,
    ensures
        r == end_page % max_pages + 1,
{
    end_page % max_pages + 1
}

/// The rounds fetch pages 1..=1, 1..=2, ..., 1..=max_pages, then start over:
/// the last page grows by one up to `max_pages` and then falls back to 1,
/// and it never leaves `1..=max_pages`.
pub proof fn lemma_end_page_cycle(end_page: usize, max_pages: usize)
    requires
        max_pages > 0,
    ensures
        1 <= end_page % max_pages + 1 <= max_pages,
        1 <= end_page < max_pages ==> end_page % max_pages + 1 == end_page + 1,
        end_page == max_pages ==> end_page % max_pages + 1 == 1,
{
    if end_page < max_pages {
        vstd::arithmetic::div_mod::lemma_small_mod(end_page as nat, max_pages as nat);
    }
    if end_page == max_pages {
        vstd::arithmetic::div_mod::lemma_mod_self_0(max_pages as int);
    }
}

/// The rounds of listing fetches go round the pages: when the first round
/// fetches up to page 1 and each next round's last page is `next_end_page`
/// of the one before, round `r` fetches up to page `r % max_pages + 1`.
pub proof fn lemma_end_pages_of_rounds(pages: Seq<int>, max_pages: int, r: int)
    requires
        max_pages > 0,
        pages.len() > 0,
        pages[0] == 1,
        forall|i: int|
            0 <= i < pages.len() - 1 ==> #[trigger] pages[i + 1] == pages[i] % max_pages + 1,
        0 <= r < pages.len(),
    ensures
        pages[r] == r % max_pages + 1,
    decreases r,
{
    if r == 0 {
        vstd::arithmetic::div_mod::lemma_small_mod(0, max_pages as nat);
    } else {
        lemma_end_pages_of_rounds(pages, max_pages, r - 1);
        assert(pages[(r - 1) + 1] == pages[r - 1] % max_pages + 1);
        vstd::arithmetic::div_mod::lemma_add_mod_noop(r - 1, 1, max_pages);
        vstd::arithmetic::div_mod::lemma_mod_pos_bound(r - 1, max_pages);
        if max_pages == 1 {
            vstd::arithmetic::div_mod::lemma_mod_pos_bound((r - 1) % max_pages + 1, 1);
            vstd::arithmetic::div_mod::lemma_mod_pos_bound(r, 1);
        } else {
            vstd::arithmetic::div_mod::lemma_small_mod(1, max_pages as nat);
        }
    }
}

/// Only token-profile orders count: an order whose `type` is not exactly
/// `tokenProfile` is never taken for a recently paid profile, whatever its
/// status, payment time or the clock.
pub proof fn lemma_only_token_profiles_count(t: Seq<JsonNode>, p: int, now_ms: Option<u64>)
    requires
        object_str(t, p, "type"@) != Some("tokenProfile"@),
    ensures
        !order_recently_paid(t, p, now_ms),
{
}

/// Only approved orders count: an order whose `status` is not exactly
/// `approved` is never taken for a recently paid profile.
pub proof fn lemma_only_approved_orders_count(t: Seq<JsonNode>, p: int, now_ms: Option<u64>)
    requires
        object_str(t, p, "status"@) != Some("approved"@),
    ensures
        !order_recently_paid(t, p, now_ms),
{
}

/// Orders without a token profile are not paid: when no element of the
/// order array has `type` exactly `tokenProfile`, the response is not paid,
/// whatever the clock.
pub proof fn lemma_no_profile_not_paid(t: Seq<JsonNode>, now_ms: Option<u64>)
    requires
        forall|k: nat|
            k < container_len(t, 0) ==> object_str(t, #[trigger] element_pos(t, 0, k), "type"@)
                != Some("tokenProfile"@),
    ensures
        !orders_paid(t, now_ms),
{
    assert forall|k: nat|
        #![trigger element_pos(t, 0, k)]
        k < container_len(t, 0) implies !order_recently_paid(t, element_pos(t, 0, k), now_ms) by {
        lemma_only_token_profiles_count(t, element_pos(t, 0, k), now_ms);
    }
}

/// Splitting is complete: no piece holds the separator.
pub proof fn lemma_split_pieces_have_no_separator(w: Seq<u8>, sep: Seq<u8>, from: int)
    requires
        0 <= from <= w.len(),
        sep.len() > 0,
    ensures
        forall|i: int, j: int|
            #![trigger occurs_at(split_texts(w, sep, from)[i], sep, j)]
            0 <= i < split_from(w, sep, from).len() ==> !occurs_at(
                split_texts(w, sep, from)[i],
                sep,
                j,
            ),
    decreases w.len() - from,
{
    lemma_find_from(w, sep, from);
    let spans = split_from(w, sep, from);
    let pieces = split_texts(w, sep, from);
    match find_from(w, sep, from) {
        None => {
            assert forall|i: int, j: int| 0 <= i < spans.len() implies !occurs_at(
                pieces[i],
                sep,
                j,
            ) by {
                let piece = w.subrange(from, w.len() as int);
                assert(pieces[i] == piece);
                if occurs_at(piece, sep, j) {
                    assert(w.subrange(from + j, from + j + sep.len()) =~= piece.subrange(
                        j,
                        j + sep.len(),
                    ));
                    assert(occurs_at(w, sep, from + j));
                }
            }
        },
        Some(e) => {
            let next = e + sep.len();
            lemma_split_pieces_have_no_separator(w, sep, next);
            let rest = split_texts(w, sep, next);
            assert forall|i: int, j: int| 0 <= i < spans.len() implies !occurs_at(
                pieces[i],
                sep,
                j,
            ) by {
                if i == 0 {
                    let piece = w.subrange(from, e);
                    assert(pieces[0] == piece);
                    if occurs_at(piece, sep, j) {
                        assert(w.subrange(from + j, from + j + sep.len()) =~= piece.subrange(
                            j,
                            j + sep.len(),
                        ));
                        assert(occurs_at(w, sep, from + j));
                    }
                } else {
                    assert(pieces[i] == rest[i - 1]);
                }
            }
        },
    }
}

/// The bytes of the base-token patterns and the stops, one by one.
proof fn lemma_token_pattern_bytes()
    ensures
        QUOTE.spec_bytes() =~= seq![34u8],
        COMMA.spec_bytes() =~= seq![44u8],
        CLOSE_BRACE.spec_bytes() =~= seq![125u8],
        BASE_TOKEN_NAME_FIELD.spec_bytes().len() == 7,
        BASE_TOKEN_NAME_FIELD.spec_bytes()[0] == 34,
        BASE_TOKEN_NAME_FIELD.spec_bytes()[1] == 110,
        ascii_text(BASE_TOKEN_FIELD.spec_bytes()),
        ascii_text(BASE_TOKEN_ADDRESS_FIELD.spec_bytes()),
        ascii_text(BASE_TOKEN_NAME_FIELD.spec_bytes()),
{
    lemma_patterns_ascii();
    lemma_stops_ascii();
    reveal_strlit("\"name\":");
    lemma_ascii_str_bytes(BASE_TOKEN_NAME_FIELD);
}

/// A quoted value is found: in `b`, the pattern occurs at `p` and nowhere in
/// `[from, p)`, then come `"`, a value without `,`, `"` and `,`; the value
/// bounds are where the value starts and where that `,` is.
proof fn lemma_quoted_value_found(b: Seq<u8>, pattern: Seq<u8>, from: int, p: int, value: Seq<u8>)
    requires
        0 <= from <= p,
        occurs_at(b, pattern, p),
        forall|j: int| from <= j < p ==> !occurs_at(b, pattern, j),
        p + pattern.len() + value.len() + 3 <= b.len(),
        b[p + pattern.len()] == 34,
        b.subrange(p + pattern.len() + 1, p + pattern.len() + 1 + value.len()) == value,
        forall|i: int| 0 <= i < value.len() ==> value[i] != 44,
        b[p + pattern.len() + 1 + value.len()] == 34,
        b[p + pattern.len() + 2 + value.len()] == 44,
    ensures
        quoted_value_bounds(b, pattern, from) == Some(
            (p + pattern.len() + 1, p + pattern.len() + 2 + value.len()),
        ),
        quoted_value_ok(b, pattern, from),
{
    lemma_token_pattern_bytes();
    lemma_find_from_unique(b, pattern, from, p);
    let v = p + pattern.len() + 1;
    let e = v + value.len() + 1;
    let c = COMMA.spec_bytes();
    assert(b.subrange(e, e + 1) =~= c);
    assert forall|j: int| v <= j < e implies !occurs_at(b, c, j) by {
        if occurs_at(b, c, j) {
            assert(b.subrange(j, j + 1)[0] == b[j]);
            if j < v + value.len() {
                assert(b[j] == b.subrange(v, v + value.len())[j - v]);
            }
        }
    }
    lemma_find_from_unique(b, c, v, e);
}

/// The base token of a pair is read back as written: in a pair made of
/// `prefix`, `"baseToken":{`, `"address":`, the quoted address, `,`,
/// `"name":`, the quoted name, `,` and any rest, where the address holds no
/// `"` or `,`, the name holds no `,`, and `"baseToken":{` first occurs there,
/// the base token can be read and its mint and name are exactly the address
/// and the name written (any other bytes, spaces included).
pub proof fn lemma_token_read_back(
    prefix: Seq<u8>,
    address: Seq<u8>,
    name: Seq<u8>,
    rest: Seq<u8>,
)
    requires
        forall|i: int| 0 <= i < address.len() ==> address[i] != 34 && address[i] != 44,
        forall|i: int| 0 <= i < name.len() ==> name[i] != 44,
        forall|j: int|
            0 <= j < prefix.len() ==> !occurs_at(
                prefix + BASE_TOKEN_FIELD.spec_bytes() + BASE_TOKEN_ADDRESS_FIELD.spec_bytes()
                    + QUOTE.spec_bytes() + address + QUOTE.spec_bytes() + COMMA.spec_bytes()
                    + BASE_TOKEN_NAME_FIELD.spec_bytes() + QUOTE.spec_bytes() + name
                    + QUOTE.spec_bytes() + COMMA.spec_bytes() + rest,
                BASE_TOKEN_FIELD.spec_bytes(),
                j,
            ),
    ensures
        ({
            let b = prefix + BASE_TOKEN_FIELD.spec_bytes() + BASE_TOKEN_ADDRESS_FIELD.spec_bytes()
                + QUOTE.spec_bytes() + address + QUOTE.spec_bytes() + COMMA.spec_bytes()
                + BASE_TOKEN_NAME_FIELD.spec_bytes() + QUOTE.spec_bytes() + name
                + QUOTE.spec_bytes() + COMMA.spec_bytes() + rest;
            &&& token_text_ok(b)
            &&& token_spans(b) matches Some((a, n))
            &&& b.subrange(a.0, a.1) == address
            &&& b.subrange(n.0, n.1) == name
        }),
{
    lemma_token_pattern_bytes();
    let bt = BASE_TOKEN_FIELD.spec_bytes();
    let ap = BASE_TOKEN_ADDRESS_FIELD.spec_bytes();
    let np = BASE_TOKEN_NAME_FIELD.spec_bytes();
    let q = QUOTE.spec_bytes();
    let c = COMMA.spec_bytes();
    let b = prefix + bt + ap + q + address + q + c + np + q + name + q + c + rest;
    let pl = prefix.len() as int;
    let from = pl + bt.len();
    let av = from + ap.len() + 1;
    let ae = av + address.len() + 1;
    let npos = ae + 1;
    let nv = npos + np.len() + 1;
    let ne = nv + name.len() + 1;
    // the pieces stand where they were put
    assert(b.subrange(pl, from) =~= bt);
    assert(b.subrange(from, from + ap.len()) =~= ap);
    assert(b[from + ap.len()] == 34);
    assert(b.subrange(av, av + address.len()) =~= address);
    assert(b[av + address.len()] == 34);
    assert(b[ae] == 44);
    assert(b.subrange(npos, npos + np.len()) =~= np);
    assert(b[npos + np.len()] == 34);
    assert(b.subrange(nv, nv + name.len()) =~= name);
    assert(b[nv + name.len()] == 34);
    assert(b[ne] == 44);
    lemma_find_from_unique(b, bt, 0, pl);
    lemma_quoted_value_found(b, ap, from, from, address);
    // `"name":` does not start inside the address or at the quote and comma
    // after it
    assert forall|j: int| av <= j < npos implies !occurs_at(b, np, j) by {
        if occurs_at(b, np, j) {
            assert(b.subrange(j, j + np.len())[0] == b[j]);
            assert(b.subrange(j, j + np.len())[1] == b[j + 1]);
            if j < av + address.len() {
                assert(b[j] == b.subrange(av, av + address.len())[j - av]);
            }
        }
    }
    lemma_quoted_value_found(b, np, av, npos, name);
    assert(b.subrange(av, ae - 1) =~= address);
    assert(b.subrange(nv, ne - 1) =~= name);
}

} // verus!
