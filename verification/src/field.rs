//! Reading the text of a field out of a JSON fragment by scanning: the
//! text after the first occurrence of a field pattern, up to a stop byte.
use vstd::prelude::*;
use vstd::utf8::*;
use vstd::string::*;
use crate::scan::{
    occurs_at, find_from, find_either, find_bytes_from, find_either_from, lemma_find_from,
    lemma_boundary_at_ascii, lemma_boundary_after_ascii, str_between, lemma_ascii_str_bytes,
    parse_u64_spec, parse_u64_in, lemma_find_from_unique,
};

verus! {

broadcast use vstd::utf8::group_utf8_lib;

/// A non-empty run of ASCII bytes.
pub open spec fn ascii_text(s: Seq<u8>) -> bool {
    s.len() > 0 && forall|i: int| 0 <= i < s.len() ==> s[i] < 0x80
}

pub const QUOTE: &'static str = "\"";

pub const CLOSE_BRACE: &'static str = "}";

pub const COMMA: &'static str = ",";

/// The single-byte stops that end a field's text are ASCII.
pub proof fn lemma_stops_ascii()
    ensures
        ascii_text(QUOTE.spec_bytes()),
        ascii_text(CLOSE_BRACE.spec_bytes()),
        ascii_text(COMMA.spec_bytes()),
        QUOTE.spec_bytes() =~= seq![34u8],
        CLOSE_BRACE.spec_bytes() =~= seq![125u8],
        COMMA.spec_bytes() =~= seq![44u8],
{
    reveal_strlit("\"");
    reveal_strlit("}");
    reveal_strlit(",");
    lemma_ascii_str_bytes(QUOTE);
    lemma_ascii_str_bytes(CLOSE_BRACE);
    lemma_ascii_str_bytes(COMMA);
}

/// Byte range of a field's text: it starts `skip` bytes after the first
/// occurrence of `pattern` and ends at the first `stop1` from there, or
/// else at the first `stop2`.
pub open spec fn field_span(
    b: Seq<u8>,
    pattern: Seq<u8>,
    skip: int,
    stop1: Seq<u8>,
    stop2: Seq<u8>,
) -> Option<(int, int)> {
    match find_from(b, pattern, 0) {
        None => None,
        Some(p) => {
            let s = p + pattern.len() + skip;
            match find_either(b, stop1, stop2, s) {
                Some(e) => Some((s, e)),
                None => None,
            }
        },
    }
}

/// The bytes of an optional text.
pub open spec fn text_bytes(r: Option<&str>) -> Option<Seq<u8>> {
    match r {
        Some(v) => Some(v.spec_bytes()),
        None => None,
    }
}

/// The bytes of `b` in an optional range.
pub open spec fn span_bytes(b: Seq<u8>, span: Option<(int, int)>) -> Option<Seq<u8>> {
    match span {
        Some((s, e)) => Some(b.subrange(s, e)),
        None => None,
    }
}

/// Skipping one byte after the first occurrence of `pattern` stays inside
/// the text and lands on the start of a character: the byte after the
/// pattern exists and is ASCII (or the pattern does not occur).
pub open spec fn skip_one_ok(b: Seq<u8>, pattern: Seq<u8>) -> bool {
    match find_from(b, pattern, 0) {
        None => true,
        Some(p) => p + pattern.len() < b.len() && b[p + pattern.len()] < 0x80,
    }
}

/// Whether skipping one byte after the first `pattern` is in bounds.
pub fn skip_one_ok_exec(json: &str, pattern: &str) -> (r: bool)
    ensures
        r == skip_one_ok(json.spec_bytes(), pattern.spec_bytes()),
{
    let b = json.as_bytes();
    let pat = pattern.as_bytes();
    let blen = b.len();
    match find_bytes_from(b, pat, 0) {
        None => true,
        Some(p) => {
            proof {
                lemma_find_from(b@, pat@, 0);
            }
            let after = p + pat.len();
            after < b.len() && b[after] < 0x80u8
        },
    }
}

/// A field's text is read back as written: in `prefix`, `pattern`, `skip`
/// bytes, the value, a one-byte stop and any rest, where the pattern does
/// not occur before its place here and the value holds no stop byte,
/// `field_span` is the range of the value.
pub proof fn lemma_field_read_back(
    prefix: Seq<u8>,
    pattern: Seq<u8>,
    skip: Seq<u8>,
    value: Seq<u8>,
    stop1: Seq<u8>,
    stop2: Seq<u8>,
    rest: Seq<u8>,
)
    requires
        stop1.len() == 1,
        forall|i: int| 0 <= i < value.len() ==> value[i] != stop1[0],
        forall|j: int|
            0 <= j < prefix.len() ==> !occurs_at(
                prefix + pattern + skip + value + stop1 + rest,
                pattern,
                j,
            ),
    ensures
        ({
            let b = prefix + pattern + skip + value + stop1 + rest;
            let s = (prefix.len() + pattern.len() + skip.len()) as int;
            field_span(b, pattern, skip.len() as int, stop1, stop2) == Some((s, s + value.len()))
        }),
{
    let b = prefix + pattern + skip + value + stop1 + rest;
    let p = prefix.len() as int;
    let s = p + pattern.len() + skip.len();
    let e = s + value.len();
    assert(b.subrange(p, p + pattern.len()) =~= pattern);
    lemma_find_from_unique(b, pattern, 0, p);
    assert(b.subrange(e, e + 1) =~= stop1);
    assert forall|j: int| s <= j < e implies !occurs_at(b, stop1, j) by {
        assert(b[j] == value[j - s]);
        assert(b.subrange(j, j + 1)[0] == b[j]);
    }
    lemma_find_from_unique(b, stop1, s, e);
}

/// The text of a field, per `field_span`.
pub fn field_text<'a>(json: &'a str, pattern: &str, skip: bool, stop1: &str, stop2: &str) -> (r:
    Option<&'a str>)
    requires
        ascii_text(pattern.spec_bytes()),
        ascii_text(stop1.spec_bytes()),
        ascii_text(stop2.spec_bytes()),
        skip ==> skip_one_ok(json.spec_bytes(), pattern.spec_bytes()),
    ensures
        match r {
            Some(v) => field_span(
                json.spec_bytes(),
                pattern.spec_bytes(),
                if skip {
                    1int
                } else {
                    0int
                },
                stop1.spec_bytes(),
                stop2.spec_bytes(),
            ) matches Some((s, e)) && v.spec_bytes() == json.spec_bytes().subrange(s, e),
            None => field_span(
                json.spec_bytes(),
                pattern.spec_bytes(),
                if skip {
                    1int
                } else {
                    0int
                },
                stop1.spec_bytes(),
                stop2.spec_bytes(),
            ) is None,
        },
{
    let b = json.as_bytes();
    let pat = pattern.as_bytes();
    let blen = b.len();
    let ghost bb = b@;
    proof {
        encode_utf8_valid_utf8(json@);
    }
    let p = match find_bytes_from(b, pat, 0) {
        Some(p) => p,
        None => return None,
    };
    proof {
        lemma_find_from(bb, pattern.spec_bytes(), 0);
    }
    let after = p + pat.len();
    let start = if skip {
        after + 1
    } else {
        after
    };
    let end = match find_either_from(b, stop1.as_bytes(), stop2.as_bytes(), start) {
        Some(e) => e,
        None => return None,
    };
    proof {
        let s1 = stop1.spec_bytes();
        let s2 = stop2.spec_bytes();
        lemma_find_from(bb, s1, start as int);
        lemma_find_from(bb, s2, start as int);
        // the text starts right after an ASCII byte
        assert(bb[start - 1] < 0x80) by {
            if !skip {
                assert(bb.subrange(p as int, after as int)[pat@.len() - 1] == bb[after - 1]);
            }
        }
        lemma_boundary_after_ascii(bb, start as int);
        // and ends at the ASCII byte of a stop
        if find_from(bb, s1, start as int) is Some {
            assert(bb.subrange(end as int, end + s1.len())[0] == bb[end as int]);
        } else {
            assert(bb.subrange(end as int, end + s2.len())[0] == bb[end as int]);
        }
        lemma_boundary_at_ascii(bb, end as int);
    }
    Some(str_between(json, start, end))
}

/// The number written in a field's text, per `field_span` and
/// `parse_u64_spec`.
pub fn field_u64(json: &str, pattern: &str, stop1: &str, stop2: &str) -> (r: Option<u64>)
    requires
        ascii_text(pattern.spec_bytes()),
        ascii_text(stop1.spec_bytes()),
        ascii_text(stop2.spec_bytes()),
    ensures
        r == match field_span(
            json.spec_bytes(),
            pattern.spec_bytes(),
            0,
            stop1.spec_bytes(),
            stop2.spec_bytes(),
        ) {
            Some((s, e)) => parse_u64_spec(json.spec_bytes().subrange(s, e)),
            None => None,
        },
{
    match field_text(json, pattern, false, stop1, stop2) {
        Some(v) => {
            let vb = v.as_bytes();
            let r = parse_u64_in(vb, 0, vb.len());
            assert(vb@.subrange(0, vb@.len() as int) =~= vb@);
            r
        },
        None => None,
    }
}

} // verus!
