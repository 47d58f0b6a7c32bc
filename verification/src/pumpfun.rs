//! pump.fun: its websocket frames, the trade messages they carry, and the
//! token fields inside a trade's JSON.
use vstd::prelude::*;
use vstd::utf8::*;
use vstd::string::*;
use crate::scan::{
    occurs_at, find_from, lemma_find_from, lemma_ascii_str_bytes, lemma_boundary_at_ascii,
    lemma_boundary_after_ascii, str_between, parse_u64_spec, decimal_chars, decimal_bytes,
    lemma_decimal_bytes_digits, all_digits, is_digit,
};
use crate::field::{
    ascii_text, field_span, skip_one_ok, skip_one_ok_exec, field_text, field_u64, text_bytes,
    span_bytes, lemma_stops_ascii, lemma_field_read_back, QUOTE, CLOSE_BRACE, COMMA,
};

verus! {

broadcast use vstd::utf8::group_utf8_lib;

pub const FRONTEND_WS_URL: &'static str =
    "wss://frontend-api-v3.pump.fun/socket.io/?EIO=4&transport=websocket";

pub const NAME_FIELD: &'static str = "\"name\":";

pub const MINT_FIELD: &'static str = "\"mint\":";

pub const CREATED_FIELD: &'static str = "\"created_timestamp\":";

pub const MARKET_CAP_FIELD: &'static str = "\"market_cap\":";

pub const USD_MARKET_CAP_FIELD: &'static str = "\"usd_market_cap\":";

/// Prefix of the socket.io message that announces a created trade.
pub const PUMPFUN_TYPE: &'static str = "42[\"tradeCreated\",";

/// A frame starting with this opens the socket.io session.
pub const OPEN_PREFIX: &'static str = "0{";

/// A frame starting with this is a ping.
pub const PING_PREFIX: &'static str = "2";

/// Reply that joins the session.
pub const OPEN_REPLY: &'static str = "40";

/// Reply to a ping.
pub const PONG_REPLY: &'static str = "3";

pub proof fn lemma_patterns_ascii()
    ensures
        ascii_text(NAME_FIELD.spec_bytes()),
        ascii_text(MINT_FIELD.spec_bytes()),
        ascii_text(CREATED_FIELD.spec_bytes()),
        ascii_text(MARKET_CAP_FIELD.spec_bytes()),
        ascii_text(USD_MARKET_CAP_FIELD.spec_bytes()),
        ascii_text(PUMPFUN_TYPE.spec_bytes()),
        ascii_text(QUOTE.spec_bytes()),
        ascii_text(CLOSE_BRACE.spec_bytes()),
        ascii_text(COMMA.spec_bytes()),
{
    reveal_strlit("\"name\":");
    reveal_strlit("\"mint\":");
    reveal_strlit("\"created_timestamp\":");
    reveal_strlit("\"market_cap\":");
    reveal_strlit("\"usd_market_cap\":");
    reveal_strlit("42[\"tradeCreated\",");
    lemma_ascii_str_bytes(NAME_FIELD);
    lemma_ascii_str_bytes(MINT_FIELD);
    lemma_ascii_str_bytes(CREATED_FIELD);
    lemma_ascii_str_bytes(MARKET_CAP_FIELD);
    lemma_ascii_str_bytes(USD_MARKET_CAP_FIELD);
    lemma_ascii_str_bytes(PUMPFUN_TYPE);
    lemma_stops_ascii();
}

/// Range of the text quoted after `pattern`: one byte (the opening quote)
/// is skipped, and the text runs to the first `"`, or else the first `}`.
pub open spec fn quoted_span(b: Seq<u8>, pattern: Seq<u8>) -> Option<(int, int)> {
    field_span(b, pattern, 1, QUOTE.spec_bytes(), CLOSE_BRACE.spec_bytes())
}

/// Range of the number after `pattern`, up to the first `,`, or else the
/// first `}`.
pub open spec fn number_span(b: Seq<u8>, pattern: Seq<u8>) -> Option<(int, int)> {
    field_span(b, pattern, 0, COMMA.spec_bytes(), CLOSE_BRACE.spec_bytes())
}

/// Whether the token name of a trade's JSON can be read without cutting a
/// character: after `"name":` there is a byte to skip, and it is ASCII.
pub fn name_in_bounds(json: &str) -> (r: bool)
    ensures
        r == skip_one_ok(json.spec_bytes(), NAME_FIELD.spec_bytes()),
{
    skip_one_ok_exec(json, NAME_FIELD)
}

/// Whether the token mint of a trade's JSON can be read without cutting a
/// character.
pub fn mint_in_bounds(json: &str) -> (r: bool)
    ensures
        r == skip_one_ok(json.spec_bytes(), MINT_FIELD.spec_bytes()),
{
    skip_one_ok_exec(json, MINT_FIELD)
}

/// The token name in a trade's JSON: the quoted text after `"name":`.
pub fn get_token_name<'a>(json: &'a str) -> (r: Option<&'a str>)
    requires
        skip_one_ok(json.spec_bytes(), NAME_FIELD.spec_bytes()),
    ensures
        text_bytes(r) == span_bytes(
            json.spec_bytes(),
            quoted_span(json.spec_bytes(), NAME_FIELD.spec_bytes()),
        ),
{
    proof {
        lemma_patterns_ascii();
    }
    field_text(json, NAME_FIELD, true, QUOTE, CLOSE_BRACE)
}

/// The token mint in a trade's JSON: the quoted text after `"mint":`.
pub fn get_token_mint<'a>(json: &'a str) -> (r: Option<&'a str>)
    requires
        skip_one_ok(json.spec_bytes(), MINT_FIELD.spec_bytes()),
    ensures
        text_bytes(r) == span_bytes(
            json.spec_bytes(),
            quoted_span(json.spec_bytes(), MINT_FIELD.spec_bytes()),
        ),
{
    proof {
        lemma_patterns_ascii();
    }
    field_text(json, MINT_FIELD, true, QUOTE, CLOSE_BRACE)
}

/// The creation time in a trade's JSON: the unsigned number after
/// `"created_timestamp":`.
pub fn get_token_created_timestamp(json: &str) -> (r: Option<u64>)
    ensures
        r == match number_span(json.spec_bytes(), CREATED_FIELD.spec_bytes()) {
            Some((s, e)) => parse_u64_spec(json.spec_bytes().subrange(s, e)),
            None => None,
        },
{
    proof {
        lemma_patterns_ascii();
    }
    field_u64(json, CREATED_FIELD, COMMA, CLOSE_BRACE)
}

/// The text of the market cap in a trade's JSON, after `"market_cap":`.
pub fn get_token_market_cap_text<'a>(json: &'a str) -> (r: Option<&'a str>)
    ensures
        text_bytes(r) == span_bytes(
            json.spec_bytes(),
            number_span(json.spec_bytes(), MARKET_CAP_FIELD.spec_bytes()),
        ),
{
    proof {
        lemma_patterns_ascii();
    }
    field_text(json, MARKET_CAP_FIELD, false, COMMA, CLOSE_BRACE)
}

/// The text of the USD market cap in a trade's JSON, after
/// `"usd_market_cap":`.
pub fn get_token_usd_market_cap_text<'a>(json: &'a str) -> (r: Option<&'a str>)
    ensures
        text_bytes(r) == span_bytes(
            json.spec_bytes(),
            number_span(json.spec_bytes(), USD_MARKET_CAP_FIELD.spec_bytes()),
        ),
{
    proof {
        lemma_patterns_ascii();
    }
    field_text(json, USD_MARKET_CAP_FIELD, false, COMMA, CLOSE_BRACE)
}

/// A quoted field is read back as written: in a trade's JSON made of
/// `prefix`, the name (or mint) pattern, `"`, a value without `"`, `"` and
/// any rest, where the pattern first occurs there, the field can be read
/// and its text is the value.
pub proof fn lemma_quoted_read_back(prefix: Seq<u8>, pattern: Seq<u8>, value: Seq<u8>, rest: Seq<u8>)
    requires
        pattern == NAME_FIELD.spec_bytes() || pattern == MINT_FIELD.spec_bytes(),
        forall|i: int| 0 <= i < value.len() ==> value[i] != 34,
        forall|j: int|
            0 <= j < prefix.len() ==> !occurs_at(
                prefix + pattern + QUOTE.spec_bytes() + value + QUOTE.spec_bytes() + rest,
                pattern,
                j,
            ),
    ensures
        ({
            let b = prefix + pattern + QUOTE.spec_bytes() + value + QUOTE.spec_bytes() + rest;
            &&& skip_one_ok(b, pattern)
            &&& span_bytes(b, quoted_span(b, pattern)) == Some(value)
        }),
{
    lemma_patterns_ascii();
    lemma_stops_ascii();
    let q = QUOTE.spec_bytes();
    let b = prefix + pattern + q + value + q + rest;
    lemma_field_read_back(prefix, pattern, q, value, q, CLOSE_BRACE.spec_bytes(), rest);
    let s = (prefix.len() + pattern.len() + 1) as int;
    assert(b.subrange(s, s + value.len()) =~= value);
    assert(b[(prefix.len() + pattern.len()) as int] == 34);
}

/// A number field is read back as written: in a trade's JSON made of
/// `prefix`, `"created_timestamp":`, the decimal writing of `n`, `,` and any
/// rest, where the pattern first occurs there, the timestamp read is `n`.
pub proof fn lemma_created_timestamp_read_back(prefix: Seq<u8>, n: u64, rest: Seq<u8>)
    requires
        forall|j: int|
            0 <= j < prefix.len() ==> !occurs_at(
                prefix + CREATED_FIELD.spec_bytes() + encode_utf8(decimal_chars(n as nat))
                    + COMMA.spec_bytes() + rest,
                CREATED_FIELD.spec_bytes(),
                j,
            ),
    ensures
        ({
            let b = prefix + CREATED_FIELD.spec_bytes() + encode_utf8(decimal_chars(n as nat))
                + COMMA.spec_bytes() + rest;
            number_span(b, CREATED_FIELD.spec_bytes()) matches Some((s, e)) && parse_u64_spec(
                b.subrange(s, e),
            ) == Some(n)
        }),
{
    lemma_patterns_ascii();
    lemma_stops_ascii();
    lemma_decimal_bytes_digits(n as nat);
    crate::scan::lemma_decimal_roundtrip(n);
    let d = encode_utf8(decimal_chars(n as nat));
    let pat = CREATED_FIELD.spec_bytes();
    let c = COMMA.spec_bytes();
    let b = prefix + pat + d + c + rest;
    let empty = Seq::<u8>::empty();
    assert(prefix + pat + empty + d + c + rest =~= b);
    assert forall|i: int| 0 <= i < d.len() implies d[i] != c[0] by {
        assert(is_digit(d[i]));
    }
    lemma_field_read_back(prefix, pat, empty, d, c, CLOSE_BRACE.spec_bytes(), rest);
    let s = (prefix.len() + pat.len()) as int;
    assert(b.subrange(s, s + d.len()) =~= d);
}

/* Trade messages */

/// Where the text starts once every leading repetition of `p` is removed
/// from `b[s..]`.
pub open spec fn strip_repeated(b: Seq<u8>, p: Seq<u8>, s: int) -> int
    decreases b.len() - s,
{
    if p.len() > 0 && 0 <= s && occurs_at(b, p, s) {
        strip_repeated(b, p, s + p.len())
    } else {
        s
    }
}

/// The last position in `[lo, hi)` that holds byte `c`.
pub open spec fn last_byte_in(b: Seq<u8>, c: u8, lo: int, hi: int) -> Option<int>
    decreases hi - lo,
{
    if hi <= lo {
        None
    } else if b[hi - 1] == c {
        Some(hi - 1)
    } else {
        last_byte_in(b, c, lo, hi - 1)
    }
}

/// Range of the JSON of a created trade in a socket.io message: the message
/// starts with `PUMPFUN_TYPE`; all leading repetitions of it are removed,
/// and the JSON runs up to the last `]`.
pub open spec fn trade_json_span(b: Seq<u8>) -> Option<(int, int)> {
    if !occurs_at(b, PUMPFUN_TYPE.spec_bytes(), 0) {
        None
    } else {
        let s = strip_repeated(b, PUMPFUN_TYPE.spec_bytes(), 0);
        match last_byte_in(b, 93, s, b.len() as int) {
            Some(i) => Some((s, i)),
            None => None,
        }
    }
}

/// A trade's JSON framed as a socket.io message is read back: in
/// `PUMPFUN_TYPE`, the JSON and `]`, where the JSON does not itself start
/// with `PUMPFUN_TYPE`, the JSON is what `trade_json_span` gives.
pub proof fn lemma_trade_json_read_back(json: Seq<u8>)
    requires
        !occurs_at(PUMPFUN_TYPE.spec_bytes() + json + seq![93u8], PUMPFUN_TYPE.spec_bytes(), PUMPFUN_TYPE.spec_bytes().len() as int),
    ensures
        ({
            let p = PUMPFUN_TYPE.spec_bytes();
            let b = p + json + seq![93u8];
            trade_json_span(b) == Some((p.len() as int, (p.len() + json.len()) as int))
        }),
{
    lemma_patterns_ascii();
    let p = PUMPFUN_TYPE.spec_bytes();
    let b = p + json + seq![93u8];
    let l = p.len() as int;
    assert(b.subrange(0, l) =~= p);
    assert(strip_repeated(b, p, l) == l);
    assert(strip_repeated(b, p, 0) == l);
    assert(b[b.len() - 1] == 93u8);
    assert(last_byte_in(b, 93, l, b.len() as int) == Some(b.len() - 1));
}

/// The JSON of a created trade inside a socket.io message, per
/// `trade_json_span`.
pub fn trade_created_json<'a>(message: &'a str) -> (r: Option<&'a str>)
    ensures
        text_bytes(r) == span_bytes(message.spec_bytes(), trade_json_span(message.spec_bytes())),
{
    proof {
        lemma_patterns_ascii();
        encode_utf8_valid_utf8(message@);
    }
    let b = message.as_bytes();
    let p = PUMPFUN_TYPE.as_bytes();
    let n = b.len();
    let pl = p.len();
    let ghost bb = b@;
    if pl > n || !starts_at(b, p, 0) {
        return None;
    }
    let mut s: usize = 0;
    while pl <= n - s && starts_at(b, p, s)
        invariant
            n == bb.len(),
            pl == p@.len(),
            bb == b@,
            ascii_text(p@),
            s <= n,
            strip_repeated(bb, p@, 0) == strip_repeated(bb, p@, s as int),
            s == 0 || bb[s - 1] < 0x80,
        decreases n - s,
    {
        assert(bb.subrange(s as int, s + pl)[pl - 1] == bb[s + pl - 1]);
        s = s + pl;
    }
    assert(strip_repeated(bb, p@, s as int) == s);
    let mut i = n;
    while i > s
        invariant
            s <= i <= n,
            n == bb.len(),
            bb == b@,
            bb == message.spec_bytes(),
            valid_utf8(bb),
            s == 0 || bb[s - 1] < 0x80,
            strip_repeated(bb, p@, 0) == s,
            occurs_at(bb, PUMPFUN_TYPE.spec_bytes(), 0),
            p@ == PUMPFUN_TYPE.spec_bytes(),
            last_byte_in(bb, 93, s as int, n as int) == last_byte_in(bb, 93, s as int, i as int),
        decreases i - s,
    {
        if b[i - 1] == 93u8 {
            proof {
                lemma_boundary_at_ascii(bb, i - 1);
                if s > 0 {
                    lemma_boundary_after_ascii(bb, s as int);
                }
            }
            return Some(str_between(message, s, i - 1));
        }
        i -= 1;
    }
    None
}

/// Whether `p` occurs in `b` at `s` (with room for it).
fn starts_at(b: &[u8], p: &[u8], s: usize) -> (r: bool)
    ensures
        r == occurs_at(b@, p@, s as int),
{
    let n = b.len();
    let pl = p.len();
    if s > n || pl > n - s {
        return false;
    }
    let mut j: usize = 0;
    while j < pl
        invariant
            j <= pl,
            pl == p@.len(),
            n == b@.len(),
            s + pl <= n,
            forall|k: int| 0 <= k < j ==> b@[s + k] == p@[k],
        decreases pl - j,
    {
        if b[s + j] != p[j] {
            assert(b@.subrange(s as int, s + pl)[j as int] != p@[j as int]);
            return false;
        }
        j += 1;
    }
    assert(b@.subrange(s as int, s + pl) =~= p@);
    true
}

/* Websocket frames */

/// What to do with a text frame from the trade feed.
#[derive(Debug)]
pub enum FrameAction {
    /// Answer with this text.
    Reply(&'static str),
    /// Hand this message on to the checkers.
    Forward(String),
    /// Nothing: the frame is not UTF-8.
    Skip,
}

/// `simdutf8::basic::from_utf8`.
///
/// Trusted: gives the text exactly when the bytes are valid UTF-8, and the
/// text has those bytes.
#[verifier::external_body]
fn utf8_text(bytes: &[u8]) -> (r: Option<&str>)
    ensures
        r is Some <==> valid_utf8(bytes@),
        r matches Some(s) ==> s.spec_bytes() == bytes@,
{
    simdutf8::basic::from_utf8(bytes).ok()
}

/// The answer to a text frame: an opening frame (`0{`) is answered `40`, a
/// ping (`2`) is answered `3`, and any other frame that is UTF-8 text is
/// handed on.
pub fn classify_text_frame(payload: &[u8]) -> (r: FrameAction)
    ensures
        occurs_at(payload@, OPEN_PREFIX.spec_bytes(), 0) ==> r == FrameAction::Reply(OPEN_REPLY),
        !occurs_at(payload@, OPEN_PREFIX.spec_bytes(), 0) && occurs_at(
            payload@,
            PING_PREFIX.spec_bytes(),
            0,
        ) ==> r == FrameAction::Reply(PONG_REPLY),
        !occurs_at(payload@, OPEN_PREFIX.spec_bytes(), 0) && !occurs_at(
            payload@,
            PING_PREFIX.spec_bytes(),
            0,
        ) ==> match r {
            FrameAction::Forward(s) => valid_utf8(payload@) && encode_utf8(s@) == payload@,
            FrameAction::Skip => !valid_utf8(payload@),
            FrameAction::Reply(_) => false,
        },
{
    if starts_at(payload, OPEN_PREFIX.as_bytes(), 0) {
        FrameAction::Reply(OPEN_REPLY)
    } else if starts_at(payload, PING_PREFIX.as_bytes(), 0) {
        FrameAction::Reply(PONG_REPLY)
    } else {
        match utf8_text(payload) {
            Some(text) => FrameAction::Forward(text.to_owned()),
            None => FrameAction::Skip,
        }
    }
}

/* Links */

pub const BOARD_URL_PREFIX: &'static str = "https://pump.fun/board?include-nsfw=true&q=";

pub const BOARD_URL_SUFFIX: &'static str = "&coins_sort=market_cap";

/// The pump.fun board page that searches for a token by its mint.
pub fn board_url(mint: &str) -> (r: String)
    ensures
        r@ == BOARD_URL_PREFIX@ + mint@ + BOARD_URL_SUFFIX@,
{
    let mut url = BOARD_URL_PREFIX.to_owned();
    url.append(mint);
    url.append(BOARD_URL_SUFFIX);
    url
}

} // verus!
