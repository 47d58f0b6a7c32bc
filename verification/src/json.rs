//! A parsed JSON document as a flat sequence of nodes in document order,
//! and the lookups that the notifier makes in it.
//!
//! A container node (object or array) records how many entries it has and
//! how many nodes its whole contents take, so the node that follows a value
//! is found by skipping over that value's contents.
use vstd::prelude::*;
use vstd::utf8::*;
use vstd::string::*;
use simd_json::{Node, StaticNode};

verus! {

broadcast use vstd::utf8::group_utf8_lib;

#[verifier::external_type_specification]
#[verifier::external_body]
pub struct ExSimdJsonError(simd_json::Error);

/// One node of a parsed JSON document.
///
/// An object of `len` entries is followed by its keys and values,
/// alternating; an array of `len` elements is followed by its elements;
/// `count` is the number of nodes that the contents take. Floating-point
/// numbers are kept only as the fact that a float stood there.
#[derive(Debug)]
pub enum JsonNode {
    Str(String),
    Object { len: usize, count: usize },
    Array { len: usize, count: usize },
    Int(i64),
    UInt(u64),
    Float,
    Bool(bool),
    Null,
}

/// The node sequence that simd-json produces for a JSON text, or nothing
/// when the text is not valid JSON.
pub uninterp spec fn json_tape(input: Seq<u8>) -> Option<Seq<JsonNode>>;

/// Parses JSON text with `simd_json::to_tape`, node for node.
///
/// Trusted: the result is the tape that simd-json builds for the input
/// (`json_tape`), and an error exactly when simd-json refuses the input:
/// text that is not JSON, or an input too long for its tape to index.
/// simd-json rewrites the buffer in place while it parses; its length stays
/// the same, and nothing else is said of its new content.
#[verifier::external_body]
pub(crate) fn parse_json(input: &mut Vec<u8>) -> (r: Result<Vec<JsonNode>, simd_json::Error>)
    ensures
        final(input)@.len() == old(input)@.len(),
        match r {
            Ok(t) => json_tape(old(input)@) == Some(t@),
            Err(_) => json_tape(old(input)@) is None,
        },
{
    simd_json::to_tape(input.as_mut_slice()).map(|tape| tape.0.into_iter().map(|n| match n {
        Node::String(s) => JsonNode::Str(s.to_string()),
        Node::Object { len, count } => JsonNode::Object { len, count },
        Node::Array { len, count } => JsonNode::Array { len, count },
        Node::Static(StaticNode::I64(v)) => JsonNode::Int(v),
        Node::Static(StaticNode::U64(v)) => JsonNode::UInt(v),
        Node::Static(StaticNode::F64(_)) => JsonNode::Float,
        Node::Static(StaticNode::Bool(b)) => JsonNode::Bool(b),
        Node::Static(StaticNode::Null) => JsonNode::Null,
    }).collect())
}

/// The texts of a list of strings.
pub open spec fn texts(v: Seq<String>) -> Seq<Seq<char>> {
    v.map_values(|s: String| s@)
}

/* Positions in the tape */

/// How many nodes the value at `i` takes, itself included.
pub open spec fn span(t: Seq<JsonNode>, i: int) -> int {
    match t[i] {
        JsonNode::Object { count, .. } => count + 1,
        JsonNode::Array { count, .. } => count + 1,
        _ => 1,
    }
}

/// Position of the `k`-th element of the array at `at`.
pub open spec fn element_pos(t: Seq<JsonNode>, at: int, k: nat) -> int
    decreases k,
{
    if k == 0 {
        at + 1
    } else {
        let p = element_pos(t, at, (k - 1) as nat);
        p + span(t, p)
    }
}

/// Position of the key of the `k`-th entry of the object at `at`; its value
/// follows right after.
pub open spec fn entry_pos(t: Seq<JsonNode>, at: int, k: nat) -> int
    decreases k,
{
    if k == 0 {
        at + 1
    } else {
        let p = entry_pos(t, at, (k - 1) as nat);
        p + 1 + span(t, p + 1)
    }
}

/// Number of entries of the object, or elements of the array, at `at`.
pub open spec fn container_len(t: Seq<JsonNode>, at: int) -> nat {
    match t[at] {
        JsonNode::Object { len, .. } => len as nat,
        JsonNode::Array { len, .. } => len as nat,
        _ => 0,
    }
}

pub open spec fn is_object_at(t: Seq<JsonNode>, at: int) -> bool {
    0 <= at < t.len() && t[at] is Object
}

pub open spec fn is_array_at(t: Seq<JsonNode>, at: int) -> bool {
    0 <= at < t.len() && t[at] is Array
}

/// The string at position `i`, if a string stands there.
pub open spec fn str_at(t: Seq<JsonNode>, i: int) -> Option<Seq<char>> {
    if 0 <= i < t.len() {
        match t[i] {
            JsonNode::Str(s) => Some(s@),
            _ => None,
        }
    } else {
        None
    }
}

/// The unsigned integer at position `i`: a non-negative integer node.
pub open spec fn u64_at(t: Seq<JsonNode>, i: int) -> Option<u64> {
    if 0 <= i < t.len() {
        match t[i] {
            JsonNode::Int(v) => if v >= 0 {
                Some(v as u64)
            } else {
                None
            },
            JsonNode::UInt(v) => Some(v),
            _ => None,
        }
    } else {
        None
    }
}

/// The `k`-th entry of the object at `at` has key `key` (and a value in the
/// tape).
pub open spec fn key_at(t: Seq<JsonNode>, at: int, k: nat, key: Seq<char>) -> bool {
    let p = entry_pos(t, at, k);
    p + 1 < t.len() && str_at(t, p) == Some(key)
}

/// Value position of the first entry `k` with `from <= k < n` whose key is `key`.
pub open spec fn first_key_from(t: Seq<JsonNode>, at: int, key: Seq<char>, from: nat, n: nat) -> Option<
    int,
>
    decreases n - from,
{
    if from >= n {
        None
    } else if key_at(t, at, from, key) {
        Some(entry_pos(t, at, from) + 1)
    } else {
        first_key_from(t, at, key, from + 1, n)
    }
}

/// Value position of the last entry `k < n` whose key is `key`.
pub open spec fn last_key_below(t: Seq<JsonNode>, at: int, key: Seq<char>, n: nat) -> Option<int>
    decreases n,
{
    if n == 0 {
        None
    } else if key_at(t, at, (n - 1) as nat, key) {
        Some(entry_pos(t, at, (n - 1) as nat) + 1)
    } else {
        last_key_below(t, at, key, (n - 1) as nat)
    }
}

/// Objects with more entries than this keep only the last of repeated keys;
/// smaller ones keep every entry in order, and a lookup finds the first (as
/// the objects of simd-json's values do).
pub const SMALL_OBJECT_MAX: usize = 32;

/// Position of the value stored under `key` in the object at `at`.
pub open spec fn object_get(t: Seq<JsonNode>, at: int, key: Seq<char>) -> Option<int> {
    if !is_object_at(t, at) {
        None
    } else if container_len(t, at) > SMALL_OBJECT_MAX {
        last_key_below(t, at, key, container_len(t, at))
    } else {
        first_key_from(t, at, key, 0, container_len(t, at))
    }
}

/// The key positions of all entries of the object at `at`, per
/// `entry_keys`.
pub fn object_entry_keys(t: &Vec<JsonNode>, at: usize) -> (r: Vec<usize>)
    requires
        is_object_at(t@, at as int),
    ensures
        ints(r@) == entry_keys(t@, at as int),
{
    let tl = t.len();
    let n = container_len_node(t, at);
    let ghost all = entry_keys(t@, at as int);
    let mut out: Vec<usize> = Vec::new();
    let mut k: usize = 0;
    let mut pos: usize = at + 1;
    while k < n
        invariant
            at < t@.len(),
            n as nat == container_len(t@, at as int),
            all == entry_keys_from(t@, at as int, 0, n as nat),
            k <= n,
            pos as int == entry_pos(t@, at as int, k as nat),
            ints(out@) + entry_keys_from(t@, at as int, k as nat, n as nat) == all,
        decreases n - k,
    {
        if pos >= t.len() - 1 {
            proof {
                lemma_no_entry_keys_past_end(t@, at as int, k as nat, n as nat);
                assert(ints(out@) + Seq::<int>::empty() =~= ints(out@));
            }
            return out;
        }
        let ghost before = out@;
        let is_key = str_node(t, pos).is_some();
        if is_key {
            out.push(pos);
            proof {
                let rest = entry_keys_from(t@, at as int, (k + 1) as nat, n as nat);
                assert(ints(out@) =~= ints(before).push(pos as int));
                assert(ints(out@) + rest =~= ints(before) + (seq![pos as int] + rest));
            }
        }
        match after_value(t, pos + 1) {
            Some(q) => {
                pos = q;
            },
            None => {
                proof {
                    let k1 = (k + 1) as nat;
                    assert(entry_pos(t@, at as int, k1) > usize::MAX);
                    lemma_no_entry_keys_past_end(t@, at as int, k1, n as nat);
                    assert(ints(out@) + Seq::<int>::empty() =~= ints(out@));
                }
                return out;
            },
        }
        k += 1;
    }
    proof {
        assert(ints(out@) + Seq::<int>::empty() =~= ints(out@));
    }
    out
}

/// The string stored under `key` in the object at `at`.
pub open spec fn object_str(t: Seq<JsonNode>, at: int, key: Seq<char>) -> Option<Seq<char>> {
    match object_get(t, at, key) {
        Some(p) => str_at(t, p),
        None => None,
    }
}

/// The unsigned integer stored under `key` in the object at `at`.
pub open spec fn object_u64(t: Seq<JsonNode>, at: int, key: Seq<char>) -> Option<u64> {
    match object_get(t, at, key) {
        Some(p) => u64_at(t, p),
        None => None,
    }
}

/// The strings among the first `k` elements of the array at `at`, in order.
pub open spec fn strings_among(t: Seq<JsonNode>, at: int, k: nat) -> Seq<Seq<char>>
    decreases k,
{
    if k == 0 {
        seq![]
    } else {
        let prev = strings_among(t, at, (k - 1) as nat);
        match str_at(t, element_pos(t, at, (k - 1) as nat)) {
            Some(s) => prev.push(s),
            None => prev,
        }
    }
}

/// The strings among the elements of the array at `at`.
pub open spec fn array_strings(t: Seq<JsonNode>, at: int) -> Seq<Seq<char>> {
    strings_among(t, at, container_len(t, at))
}

/// Key positions, in document order, of the entries `k..n` of the object at
/// `at` whose key is a string with its value in the tape.
pub open spec fn entry_keys_from(t: Seq<JsonNode>, at: int, k: nat, n: nat) -> Seq<int>
    decreases n - k,
{
    if k >= n {
        seq![]
    } else {
        let p = entry_pos(t, at, k);
        let rest = entry_keys_from(t, at, (k + 1) as nat, n);
        if p + 1 < t.len() && str_at(t, p) is Some {
            seq![p] + rest
        } else {
            rest
        }
    }
}

/// Key positions of all entries of the object at `at`, repeated keys
/// included.
pub open spec fn entry_keys(t: Seq<JsonNode>, at: int) -> Seq<int> {
    entry_keys_from(t, at, 0, container_len(t, at))
}

/// A list of positions as integers.
pub open spec fn ints(v: Seq<usize>) -> Seq<int> {
    v.map_values(|x: usize| x as int)
}

/* Lemmas on positions */

pub proof fn lemma_span_positive(t: Seq<JsonNode>, i: int)
    ensures
        span(t, i) >= 1,
{
}

/// Entry positions grow with the entry index.
pub proof fn lemma_entry_pos_grows(t: Seq<JsonNode>, at: int, k1: nat, k2: nat)
    requires
        k1 <= k2,
    ensures
        entry_pos(t, at, k1) + 2 * (k2 - k1) <= entry_pos(t, at, k2),
    decreases k2 - k1,
{
    if k1 < k2 {
        lemma_entry_pos_grows(t, at, k1, (k2 - 1) as nat);
        lemma_span_positive(t, entry_pos(t, at, (k2 - 1) as nat) + 1);
    }
}

/// Element positions grow with the element index.
pub proof fn lemma_element_pos_grows(t: Seq<JsonNode>, at: int, k1: nat, k2: nat)
    requires
        k1 <= k2,
    ensures
        element_pos(t, at, k1) + (k2 - k1) <= element_pos(t, at, k2),
    decreases k2 - k1,
{
    if k1 < k2 {
        lemma_element_pos_grows(t, at, k1, (k2 - 1) as nat);
        lemma_span_positive(t, element_pos(t, at, (k2 - 1) as nat));
    }
}

/// Once an entry lies past the end of the tape, no later entry matches.
pub proof fn lemma_no_key_past_end(t: Seq<JsonNode>, at: int, key: Seq<char>, from: nat, n: nat)
    requires
        entry_pos(t, at, from) + 1 >= t.len(),
    ensures
        first_key_from(t, at, key, from, n) is None,
        forall|k: nat| from <= k ==> !key_at(t, at, k, key),
    decreases n - from,
{
    assert forall|k: nat| from <= k implies !key_at(t, at, k, key) by {
        lemma_entry_pos_grows(t, at, from, k);
    }
    if from < n {
        lemma_entry_pos_grows(t, at, from, from + 1);
        lemma_no_key_past_end(t, at, key, from + 1, n);
    }
}

/// `last_key_below` ignores entries that do not match.
pub proof fn lemma_last_key_past_end(t: Seq<JsonNode>, at: int, key: Seq<char>, k: nat, n: nat)
    requires
        k <= n,
        forall|j: nat| k <= j ==> !key_at(t, at, j, key),
    ensures
        last_key_below(t, at, key, n) == last_key_below(t, at, key, k),
    decreases n - k,
{
    if k < n {
        lemma_last_key_past_end(t, at, key, k, (n - 1) as nat);
    }
}

/// Once an entry lies past the end of the tape, no later entry is listed.
pub proof fn lemma_no_entry_keys_past_end(t: Seq<JsonNode>, at: int, k: nat, n: nat)
    requires
        entry_pos(t, at, k) + 1 >= t.len(),
    ensures
        entry_keys_from(t, at, k, n) == Seq::<int>::empty(),
    decreases n - k,
{
    if k < n {
        lemma_entry_pos_grows(t, at, k, k + 1);
        lemma_no_entry_keys_past_end(t, at, k + 1, n);
    }
}

/* Executable lookups */

/// Compares two texts.
pub fn str_eq(a: &str, b: &str) -> (r: bool)
    ensures
        r == (a@ == b@),
{
    let x = a.as_bytes();
    let y = b.as_bytes();
    proof {
        encode_utf8_decode_utf8(a@);
        encode_utf8_decode_utf8(b@);
    }
    if x.len() != y.len() {
        return false;
    }
    let n = x.len();
    let mut i: usize = 0;
    while i < n
        invariant
            i <= n,
            n == x@.len(),
            n == y@.len(),
            x@ == a.spec_bytes(),
            y@ == b.spec_bytes(),
            forall|j: int| 0 <= j < i ==> x@[j] == y@[j],
        decreases n - i,
    {
        if x[i] != y[i] {
            return false;
        }
        i += 1;
    }
    assert(x@ =~= y@);
    true
}

/// The string at position `i`, if a string stands there.
pub fn str_node(t: &Vec<JsonNode>, i: usize) -> (r: Option<&str>)
    ensures
        match r {
            Some(s) => str_at(t@, i as int) == Some(s@),
            None => str_at(t@, i as int) is None,
        },
{
    if i >= t.len() {
        return None;
    }
    match &t[i] {
        JsonNode::Str(s) => Some(s.as_str()),
        _ => None,
    }
}

/// The unsigned integer at position `i`.
pub fn u64_node(t: &Vec<JsonNode>, i: usize) -> (r: Option<u64>)
    ensures
        r == u64_at(t@, i as int),
{
    if i >= t.len() {
        return None;
    }
    match &t[i] {
        JsonNode::Int(v) => if *v >= 0 {
            Some(*v as u64)
        } else {
            None
        },
        JsonNode::UInt(v) => Some(*v),
        _ => None,
    }
}

/// Number of entries or elements of the container at `i`.
pub fn container_len_node(t: &Vec<JsonNode>, i: usize) -> (r: usize)
    requires
        i < t@.len(),
    ensures
        r == container_len(t@, i as int),
{
    match &t[i] {
        JsonNode::Object { len, .. } => *len,
        JsonNode::Array { len, .. } => *len,
        _ => 0,
    }
}

/// The position after the value at `p`, when it fits in a `usize`.
fn after_value(t: &Vec<JsonNode>, p: usize) -> (r: Option<usize>)
    requires
        p < t@.len(),
    ensures
        match r {
            Some(q) => q == p + span(t@, p as int),
            None => p + span(t@, p as int) > usize::MAX,
        },
{
    let c = match &t[p] {
        JsonNode::Object { count, .. } => *count,
        JsonNode::Array { count, .. } => *count,
        _ => 0,
    };
    match p.checked_add(c) {
        Some(q) => q.checked_add(1),
        None => None,
    }
}

/// Position of the value stored under `key` in the object at `at`.
pub fn object_get_node(t: &Vec<JsonNode>, at: usize, key: &str) -> (r: Option<usize>)
    ensures
        match r {
            Some(p) => object_get(t@, at as int, key@) == Some(p as int),
            None => object_get(t@, at as int, key@) is None,
        },
{
    if at >= t.len() {
        return None;
    }
    let is_object = match &t[at] {
        JsonNode::Object { .. } => true,
        _ => false,
    };
    if !is_object {
        return None;
    }
    let n = container_len_node(t, at);
    let last_wins = n > SMALL_OBJECT_MAX;
    let ghost nn = n as nat;
    let mut found: Option<usize> = None;
    let mut k: usize = 0;
    let mut pos: usize = at + 1;
    while k < n
        invariant
            at < t@.len(),
            is_object_at(t@, at as int),
            n as nat == container_len(t@, at as int),
            last_wins == (n > SMALL_OBJECT_MAX),
            !last_wins ==> found is None,
            k <= n,
            pos as int == entry_pos(t@, at as int, k as nat),
            last_wins ==> match found {
                Some(p) => last_key_below(t@, at as int, key@, k as nat) == Some(p as int),
                None => last_key_below(t@, at as int, key@, k as nat) is None,
            },
            !last_wins ==> first_key_from(t@, at as int, key@, 0, n as nat) == first_key_from(
                t@,
                at as int,
                key@,
                k as nat,
                n as nat,
            ),
        decreases n - k,
    {
        if pos >= t.len() - 1 {
            proof {
                lemma_no_key_past_end(t@, at as int, key@, k as nat, n as nat);
                lemma_last_key_past_end(t@, at as int, key@, k as nat, n as nat);
            }
            return found;
        }
        let is_key = match str_node(t, pos) {
            Some(s) => str_eq(s, key),
            None => false,
        };
        assert(is_key == key_at(t@, at as int, k as nat, key@));
        if is_key {
            if !last_wins {
                return Some(pos + 1);
            }
            found = Some(pos + 1);
        }
        match after_value(t, pos + 1) {
            Some(q) => {
                pos = q;
            },
            None => {
                proof {
                    let ghost k1 = (k + 1) as nat;
                    assert(entry_pos(t@, at as int, k1) > usize::MAX);
                    lemma_no_key_past_end(t@, at as int, key@, k1, n as nat);
                    lemma_last_key_past_end(t@, at as int, key@, k1, n as nat);
                }
                return found;
            },
        }
        k += 1;
    }
    found
}

/// The string stored under `key` in the object at `at`.
pub fn object_str_node<'a>(t: &'a Vec<JsonNode>, at: usize, key: &str) -> (r: Option<&'a str>)
    ensures
        match r {
            Some(s) => object_str(t@, at as int, key@) == Some(s@),
            None => object_str(t@, at as int, key@) is None,
        },
{
    match object_get_node(t, at, key) {
        Some(p) => str_node(t, p),
        None => None,
    }
}

/// The unsigned integer stored under `key` in the object at `at`.
pub fn object_u64_node(t: &Vec<JsonNode>, at: usize, key: &str) -> (r: Option<u64>)
    ensures
        r == object_u64(t@, at as int, key@),
{
    match object_get_node(t, at, key) {
        Some(p) => u64_node(t, p),
        None => None,
    }
}

/// The strings among the elements of the array at `at`, as owned texts.
pub fn array_strings_node(t: &Vec<JsonNode>, at: usize) -> (r: Vec<String>)
    requires
        is_array_at(t@, at as int),
    ensures
        texts(r@) == array_strings(t@, at as int),
{
    let tl = t.len();
    assert(at < tl);
    let n = container_len_node(t, at);
    let mut out: Vec<String> = Vec::new();
    let mut k: usize = 0;
    let mut pos: usize = at + 1;
    while k < n
        invariant
            at < t@.len(),
            n as nat == container_len(t@, at as int),
            k <= n,
            pos as int == element_pos(t@, at as int, k as nat),
            out@.map_values(|s: String| s@) == strings_among(t@, at as int, k as nat),
        decreases n - k,
    {
        if pos >= t.len() {
            proof {
                lemma_no_strings_past_end(t@, at as int, k as nat, n as nat);
            }
            return out;
        }
        let ghost before = out@;
        match str_node(t, pos) {
            Some(s) => {
                out.push(s.to_owned());
                assert(out@.map_values(|s: String| s@) =~= before.map_values(|s: String| s@).push(
                    s@,
                ));
            },
            None => {},
        }
        match after_value(t, pos) {
            Some(q) => {
                pos = q;
            },
            None => {
                proof {
                    lemma_no_strings_past_end(t@, at as int, (k + 1) as nat, n as nat);
                }
                return out;
            },
        }
        k += 1;
    }
    out
}

/// Past the end of the tape there are no more strings to collect.
pub proof fn lemma_no_strings_past_end(t: Seq<JsonNode>, at: int, k: nat, n: nat)
    requires
        k <= n,
        element_pos(t, at, k) >= t.len(),
    ensures
        strings_among(t, at, n) == strings_among(t, at, k),
    decreases n - k,
{
    if k < n {
        lemma_no_strings_past_end(t, at, k, (n - 1) as nat);
        lemma_element_pos_grows(t, at, k, (n - 1) as nat);
    }
}

} // verus!
