//! Byte-level scanning of text: first occurrences of a pattern, UTF-8
//! boundaries next to ASCII bytes, and decimal numbers.
use vstd::prelude::*;
use vstd::utf8::*;
use vstd::string::*;

verus! {

broadcast use vstd::utf8::group_utf8_lib;

/// `needle` occurs in `hay` starting at byte `i`.
pub open spec fn occurs_at(hay: Seq<u8>, needle: Seq<u8>, i: int) -> bool {
    &&& 0 <= i
    &&& i + needle.len() <= hay.len()
    &&& hay.subrange(i, i + needle.len()) == needle
}

/// The first position at or after `start` where `needle` occurs in `hay`.
pub open spec fn find_from(hay: Seq<u8>, needle: Seq<u8>, start: int) -> Option<int>
    decreases hay.len() - start,
{
    if start < 0 || start + needle.len() > hay.len() {
        None
    } else if occurs_at(hay, needle, start) {
        Some(start)
    } else if start >= hay.len() {
        None
    } else {
        find_from(hay, needle, start + 1)
    }
}

/// `find_from` gives the first occurrence at or after `start`, and nothing
/// when there is none.
pub proof fn lemma_find_from(hay: Seq<u8>, needle: Seq<u8>, start: int)
    requires
        0 <= start,
    ensures
        find_from(hay, needle, start) matches Some(i) ==> {
            &&& start <= i
            &&& occurs_at(hay, needle, i)
            &&& forall|j: int| start <= j < i ==> !occurs_at(hay, needle, j)
        },
        find_from(hay, needle, start) is None ==> forall|j: int|
            start <= j ==> !occurs_at(hay, needle, j),
    decreases hay.len() - start,
{
    if start + needle.len() > hay.len() {
    } else if occurs_at(hay, needle, start) {
    } else if start >= hay.len() {
        assert(hay.subrange(start, start + needle.len()) =~= needle);
    } else {
        lemma_find_from(hay, needle, start + 1);
    }
}

/// A position that is an occurrence, with none before it from `start` on,
/// is what `find_from` gives.
pub proof fn lemma_find_from_unique(hay: Seq<u8>, needle: Seq<u8>, start: int, i: int)
    requires
        0 <= start <= i,
        occurs_at(hay, needle, i),
        forall|j: int| start <= j < i ==> !occurs_at(hay, needle, j),
    ensures
        find_from(hay, needle, start) == Some(i),
    decreases i - start,
{
    if start < i {
        assert(!occurs_at(hay, needle, start));
        lemma_find_from_unique(hay, needle, start + 1, i);
    }
}

/// The first occurrence of one pattern at or after `start`, or else the
/// first occurrence of another.
pub open spec fn find_either(hay: Seq<u8>, first: Seq<u8>, second: Seq<u8>, start: int) -> Option<
    int,
> {
    match find_from(hay, first, start) {
        Some(i) => Some(i),
        None => find_from(hay, second, start),
    }
}

fn occurs_at_exec(hay: &[u8], needle: &[u8], i: usize) -> (r: bool)
    requires
        i + needle@.len() <= hay@.len(),
    ensures
        r == occurs_at(hay@, needle@, i as int),
{
    let n = needle.len();
    let hl = hay.len();
    let mut j: usize = 0;
    while j < n
        invariant
            j <= n,
            n == needle@.len(),
            hl == hay@.len(),
            i + n <= hl,
            forall|k: int| 0 <= k < j ==> hay@[i + k] == needle@[k],
        decreases n - j,
    {
        if hay[i + j] != needle[j] {
            assert(hay@.subrange(i as int, i + n)[j as int] != needle@[j as int]);
            return false;
        }
        j += 1;
    }
    assert(hay@.subrange(i as int, i + n) =~= needle@);
    true
}

/// The first position at or after `start` where `needle` occurs in `hay`.
pub fn find_bytes_from(hay: &[u8], needle: &[u8], start: usize) -> (r: Option<usize>)
    ensures
        match r {
            Some(i) => find_from(hay@, needle@, start as int) == Some(i as int),
            None => find_from(hay@, needle@, start as int) is None,
        },
{
    if needle.len() > hay.len() {
        return None;
    }
    let last = hay.len() - needle.len();
    let mut i = start;
    while i <= last
        invariant
            start <= i,
            last == hay@.len() - needle@.len(),
            find_from(hay@, needle@, start as int) == find_from(hay@, needle@, i as int),
        decreases last - i,
    {
        if occurs_at_exec(hay, needle, i) {
            return Some(i);
        }
        if i == last {
            return None;
        }
        i += 1;
    }
    None
}

/// The first occurrence of `first` at or after `start`, or else that of
/// `second`.
pub fn find_either_from(hay: &[u8], first: &[u8], second: &[u8], start: usize) -> (r: Option<
    usize,
>)
    ensures
        match r {
            Some(i) => find_either(hay@, first@, second@, start as int) == Some(i as int),
            None => find_either(hay@, first@, second@, start as int) is None,
        },
{
    match find_bytes_from(hay, first, start) {
        Some(i) => Some(i),
        None => find_bytes_from(hay, second, start),
    }
}

/// Whether `needle` occurs anywhere in `hay`.
pub fn contains_bytes(hay: &[u8], needle: &[u8]) -> (r: bool)
    ensures
        r == exists|i: int| occurs_at(hay@, needle@, i),
{
    let found = find_bytes_from(hay, needle, 0);
    proof {
        lemma_find_from(hay@, needle@, 0);
    }
    found.is_some()
}

/* UTF-8 boundaries next to ASCII bytes */

/// In valid UTF-8, a position holding an ASCII byte starts a character.
pub proof fn lemma_boundary_at_ascii(b: Seq<u8>, i: int)
    requires
        valid_utf8(b),
        0 <= i < b.len(),
        b[i] < 0x80,
    ensures
        is_char_boundary(b, i),
{
    is_char_boundary_iff_not_is_continuation_byte(b, i);
}

/// In valid UTF-8, the position right after an ASCII byte starts a
/// character (or is the end).
pub proof fn lemma_boundary_after_ascii(b: Seq<u8>, i: int)
    requires
        valid_utf8(b),
        0 < i <= b.len(),
        b[i - 1] < 0x80,
    ensures
        is_char_boundary(b, i),
{
    if i == b.len() {
        is_char_boundary_start_end_of_seq(b);
    } else {
        lemma_boundary_at_ascii(b, i - 1);
        valid_utf8_split(b, i - 1);
        let s = b.subrange(i - 1, b.len() as int);
        assert(s[0] == b[i - 1]);
        assert(length_of_first_scalar(s) == 1);
        assert(pop_first_scalar(s) =~= b.subrange(i, b.len() as int));
        let t = b.subrange(i, b.len() as int);
        assert(valid_utf8(t));
        assert(valid_first_scalar(t));
        assert(t[0] == b[i]);
        is_char_boundary_iff_not_is_continuation_byte(b, i);
    }
}

/// A string literal or constant made of ASCII characters has one byte per
/// character.
pub proof fn lemma_ascii_str_bytes(s: &str)
    requires
        is_ascii_chars(s@),
    ensures
        s.spec_bytes().len() == s@.len(),
        forall|i: int| 0 <= i < s@.len() ==> s.spec_bytes()[i] == s@[i] as u8,
        forall|i: int| 0 <= i < s@.len() ==> s.spec_bytes()[i] < 0x80,
{
    is_ascii_chars_encode_utf8(s@);
    assert forall|i: int| 0 <= i < s@.len() implies s.spec_bytes()[i] < 0x80 by {
        assert(s.spec_bytes()[i] == s@[i] as u8);
        assert('\0' <= s@[i] <= '\u{7f}');
    }
}

/// The part of `s` between two character boundaries of its bytes.
pub fn str_between(s: &str, start: usize, end: usize) -> (r: &str)
    requires
        start <= end <= s.spec_bytes().len(),
        is_char_boundary(s.spec_bytes(), start as int),
        is_char_boundary(s.spec_bytes(), end as int),
    ensures
        r.spec_bytes() == s.spec_bytes().subrange(start as int, end as int),
{
    let ghost b = s.spec_bytes();
    let (_, rest) = s.split_at(start);
    let ghost rb = rest.spec_bytes();
    assert(rb =~= b.subrange(start as int, b.len() as int));
    proof {
        encode_utf8_valid_utf8(rest@);
        // a boundary of the whole is a boundary of the tail
        if end < b.len() {
            is_char_boundary_iff_not_is_continuation_byte(b, end as int);
            is_char_boundary_iff_not_is_continuation_byte(rb, end - start);
            assert(rb[end - start] == b[end as int]);
        } else {
            is_char_boundary_start_end_of_seq(rb);
        }
    }
    let (v, _) = rest.split_at(end - start);
    assert(v.spec_bytes() =~= b.subrange(start as int, end as int));
    v
}

/* Decimal numbers */

pub open spec fn is_digit(c: u8) -> bool {
    48 <= c <= 57
}

pub open spec fn all_digits(d: Seq<u8>) -> bool {
    forall|i: int| 0 <= i < d.len() ==> is_digit(#[trigger] d[i])
}

/// The number that a sequence of decimal digits writes.
pub open spec fn decimal_value(d: Seq<u8>) -> nat
    decreases d.len(),
{
    if d.len() == 0 {
        0
    } else {
        decimal_value(d.drop_last()) * 10 + (d.last() - 48) as nat
    }
}

/// The digits of an unsigned number in text: an optional `+` sign, then
/// the digits.
pub open spec fn unsigned_digits(t: Seq<u8>) -> Seq<u8> {
    if t.len() > 0 && t[0] == 43 {
        t.drop_first()
    } else {
        t
    }
}

/// The `u64` that a text writes: an optional `+`, then one or more decimal
/// digits, of a value that fits in 64 bits; nothing for any other text
/// (signs other than a leading `+`, spaces, an empty text, an overflow).
pub open spec fn parse_u64_spec(t: Seq<u8>) -> Option<u64> {
    let d = unsigned_digits(t);
    if d.len() > 0 && all_digits(d) && decimal_value(d) <= u64::MAX {
        Some(decimal_value(d) as u64)
    } else {
        None
    }
}

/// Reads the `u64` written in the bytes `b[start..end]`.
pub fn parse_u64_in(b: &[u8], start: usize, end: usize) -> (r: Option<u64>)
    requires
        start <= end <= b@.len(),
    ensures
        r == parse_u64_spec(b@.subrange(start as int, end as int)),
{
    let ghost t = b@.subrange(start as int, end as int);
    let mut i = start;
    if i < end && b[i] == 43u8 {
        i += 1;
    }
    let ghost d = unsigned_digits(t);
    assert(d =~= b@.subrange(i as int, end as int));
    if i == end {
        assert(d.len() == 0);
        return None;
    }
    let first = i;
    let mut acc: u64 = 0;
    let mut overflow = false;
    while i < end
        invariant
            first <= i <= end <= b@.len(),
            d =~= b@.subrange(first as int, end as int),
            t == b@.subrange(start as int, end as int),
            d == unsigned_digits(t),
            all_digits(b@.subrange(first as int, i as int)),
            !overflow ==> acc as nat == decimal_value(b@.subrange(first as int, i as int)),
            overflow ==> decimal_value(b@.subrange(first as int, i as int)) > u64::MAX,
        decreases end - i,
    {
        let c = b[i];
        let ghost prev = b@.subrange(first as int, i as int);
        let ghost next = b@.subrange(first as int, i + 1);
        assert(next.drop_last() =~= prev);
        assert(next.last() == c);
        if c < 48u8 || c > 57u8 {
            assert(d[i - first] == c);
            assert(!is_digit(d[i - first]));
            assert(!all_digits(d));
            return None;
        }
        let digit = (c - 48u8) as u64;
        if !overflow {
            if acc > (u64::MAX - digit) / 10 {
                overflow = true;
                assert(acc * 10 + digit > u64::MAX) by (nonlinear_arith)
                    requires
                        acc > (u64::MAX - digit) / 10,
                        digit <= 9,
                ;
            } else {
                assert(acc * 10 + digit <= u64::MAX) by (nonlinear_arith)
                    requires
                        acc <= (u64::MAX - digit) / 10,
                        digit <= 9,
                ;
                acc = acc * 10 + digit;
            }
        } else {
            assert(decimal_value(next) >= decimal_value(prev)) by (nonlinear_arith)
                requires
                    decimal_value(next) == decimal_value(prev) * 10 + digit,
            ;
        }
        assert(all_digits(next)) by {
            assert forall|k: int| 0 <= k < next.len() implies is_digit(#[trigger] next[k]) by {
                if k < prev.len() {
                    assert(next[k] == prev[k]);
                }
            }
        }
        i += 1;
    }
    if overflow {
        None
    } else {
        Some(acc)
    }
}

/// The character of a decimal digit.
pub open spec fn digit_char(d: nat) -> char {
    (48 + d) as char
}

/// The decimal writing of a number, without leading zeros.
pub open spec fn decimal_chars(n: nat) -> Seq<char>
    decreases n,
{
    if n < 10 {
        seq![digit_char(n)]
    } else {
        decimal_chars(n / 10).push(digit_char(n % 10))
    }
}

fn digit_str(d: u64) -> (r: &'static str)
    requires
        d < 10,
    ensures
        r@ == seq![digit_char(d as nat)],
{
    proof {
        reveal_strlit("0");
        reveal_strlit("1");
        reveal_strlit("2");
        reveal_strlit("3");
        reveal_strlit("4");
        reveal_strlit("5");
        reveal_strlit("6");
        reveal_strlit("7");
        reveal_strlit("8");
        reveal_strlit("9");
    }
    if d == 0 {
        "0"
    } else if d == 1 {
        "1"
    } else if d == 2 {
        "2"
    } else if d == 3 {
        "3"
    } else if d == 4 {
        "4"
    } else if d == 5 {
        "5"
    } else if d == 6 {
        "6"
    } else if d == 7 {
        "7"
    } else if d == 8 {
        "8"
    } else {
        "9"
    }
}

/// Appends the decimal writing of `n` to `out`.
pub fn push_decimal(out: &mut String, n: u64)
    ensures
        final(out)@ == old(out)@ + decimal_chars(n as nat),
    decreases n,
{
    if n >= 10 {
        push_decimal(out, n / 10);
    }
    out.append(digit_str(n % 10));
    assert(out@ =~= old(out)@ + decimal_chars(n as nat));
}

/// The bytes of the decimal writing of a number.
pub open spec fn decimal_bytes(n: nat) -> Seq<u8>
    decreases n,
{
    if n < 10 {
        seq![(48 + n) as u8]
    } else {
        decimal_bytes(n / 10).push((48 + n % 10) as u8)
    }
}

pub proof fn lemma_decimal_bytes_digits(n: nat)
    ensures
        decimal_bytes(n).len() > 0,
        all_digits(decimal_bytes(n)),
        decimal_value(decimal_bytes(n)) == n,
        encode_utf8(decimal_chars(n)) == decimal_bytes(n),
    decreases n,
{
    let d = decimal_bytes(n);
    let c = decimal_chars(n);
    if n < 10 {
        assert(d.drop_last() =~= Seq::<u8>::empty());
        assert(decimal_value(d.drop_last()) == 0);
    }
    if n >= 10 {
        lemma_decimal_bytes_digits(n / 10);
        let p = decimal_bytes(n / 10);
        assert(d.drop_last() =~= p);
        assert(d.last() - 48 == n % 10);
        assert((n / 10) * 10 + n % 10 == n) by (nonlinear_arith);
        assert(decimal_value(d) == decimal_value(p) * 10 + (d.last() - 48) as nat);
        assert(all_digits(d)) by {
            assert forall|i: int| 0 <= i < d.len() implies is_digit(#[trigger] d[i]) by {
                if i < p.len() {
                    assert(d[i] == p[i]);
                }
            }
        }
    }
    assert(is_ascii_chars(c)) by {
        lemma_decimal_chars_ascii(n);
    }
    is_ascii_chars_encode_utf8(c);
    lemma_decimal_chars_bytes_agree(n);
    assert(encode_utf8(c) =~= d);
}

proof fn lemma_decimal_chars_ascii(n: nat)
    ensures
        is_ascii_chars(decimal_chars(n)),
        decimal_chars(n).len() == decimal_bytes(n).len(),
    decreases n,
{
    if n >= 10 {
        lemma_decimal_chars_ascii(n / 10);
        let p = decimal_chars(n / 10);
        let c = decimal_chars(n);
        assert forall|i| 0 <= i < c.len() implies '\0' <= #[trigger] c[i] <= '\u{7f}' by {
            if i < p.len() {
                assert(c[i] == p[i]);
            }
        }
    }
}

proof fn lemma_decimal_chars_bytes_agree(n: nat)
    ensures
        decimal_chars(n).len() == decimal_bytes(n).len(),
        forall|i: int|
            0 <= i < decimal_chars(n).len() ==> decimal_chars(n)[i] as u8 == decimal_bytes(n)[i],
    decreases n,
{
    lemma_decimal_chars_ascii(n);
    if n >= 10 {
        lemma_decimal_chars_bytes_agree(n / 10);
        let pc = decimal_chars(n / 10);
        let pb = decimal_bytes(n / 10);
        assert forall|i: int| 0 <= i < decimal_chars(n).len() implies decimal_chars(n)[i] as u8
            == decimal_bytes(n)[i] by {
            if i < pc.len() {
                assert(decimal_chars(n)[i] == pc[i]);
                assert(decimal_bytes(n)[i] == pb[i]);
            }
        }
    }
}

/// A number that the library writes in decimal, it reads back: the text
/// of `decimal_chars(n)` parses to `n`.
pub proof fn lemma_decimal_roundtrip(n: u64)
    ensures
        parse_u64_spec(encode_utf8(decimal_chars(n as nat))) == Some(n),
{
    lemma_decimal_bytes_digits(n as nat);
    let d = decimal_bytes(n as nat);
    assert(is_digit(d[0]));
    assert(unsigned_digits(d) == d);
}

/// Reads the `u64` that a text writes, as `str::parse::<u64>` does.
pub fn parse_u64(s: &str) -> (r: Option<u64>)
    ensures
        r == parse_u64_spec(s.spec_bytes()),
{
    let b = s.as_bytes();
    let r = parse_u64_in(b, 0, b.len());
    assert(b@.subrange(0, b@.len() as int) =~= b@);
    r
}

} // verus!
