//! Extraction: locate the value's span, then decode only that span.
use vstd::prelude::*;
use vstd::string::StringSliceAdditionalSpecFns;
use vstd::utf8::{
    encode_utf8_valid_utf8, is_char_boundary, is_char_boundary_iff_not_is_continuation_byte,
    is_char_boundary_start_end_of_seq, is_continuation_byte, length_of_first_scalar,
    pop_first_scalar, valid_utf8,
};

use crate::error::ExtractError;
use crate::model::{
    bracketed, colon_at, first_end, first_hit, lemma_skip_ws, skip_ws, valid_key, value_end,
    value_span_of,
};
use crate::scan::value_span;

verus! {

/// Declares `json::JsonValue`, the decoded value, as an opaque type that is
/// carried through unread.
#[verifier::external_type_specification]
#[verifier::external_body]
pub struct ExJsonValue(json::JsonValue);

/// Whether `json::parse` accepts the text with these UTF-8 bytes.
pub uninterp spec fn json_accepts(text: Seq<u8>) -> bool;

/// Relies on `json::parse`: it decodes one JSON value from the text and
/// returns it, or a syntax error; which of the two depends on the text alone.
#[verifier::external_body]
fn parse_json(text: &str) -> (r: Result<json::JsonValue, json::Error>)
    ensures
        r is Ok <==> json_accepts(text.spec_bytes()),
{
    json::parse(text)
}

/// After an ASCII byte of valid UTF-8 a new character begins.
proof fn lemma_boundary_after_ascii(b: Seq<u8>, i: int)
    requires
        valid_utf8(b),
        0 <= i < b.len(),
        b[i] <= 0x7f,
    ensures
        is_char_boundary(b, i + 1),
    decreases b.len(),
{
    let l = length_of_first_scalar(b);
    let rest = pop_first_scalar(b);
    assert(valid_utf8(rest));
    assert(rest.len() == b.len() - l);
    if i >= l {
        assert(rest[i - l] == b[i]);
        lemma_boundary_after_ascii(rest, i - l);
        assert(is_char_boundary(b, i + 1) == is_char_boundary(rest, i + 1 - l));
    } else {
        assert(l == 1);
        assert(is_char_boundary(rest, 0));
        assert(is_char_boundary(b, 1) == is_char_boundary(rest, 0));
    }
}

/// A position of valid UTF-8 that is its end, or that holds no continuation
/// byte, begins a character.
proof fn lemma_boundary_at(b: Seq<u8>, i: int)
    requires
        valid_utf8(b),
        0 <= i <= b.len(),
        i == b.len() || !is_continuation_byte(b[i]),
    ensures
        is_char_boundary(b, i),
{
    if i == b.len() {
        is_char_boundary_start_end_of_seq(b);
    } else {
        is_char_boundary_iff_not_is_continuation_byte(b, i);
    }
}

/// The span of a found value starts and ends on character boundaries.
proof fn lemma_span_boundaries(b: Seq<u8>, k: Seq<u8>, start: int, end: int)
    requires
        valid_utf8(b),
        value_span_of(b, k) == Ok::<(int, int), ExtractError>((start, end)),
    ensures
        0 <= start <= end <= b.len(),
        is_char_boundary(b, start),
        is_char_boundary(b, end),
{
    assert(exists|q: int| first_hit(b, k, q));
    let q = choose|q: int| first_hit(b, k, q);
    let p = colon_at(b, k, q);
    lemma_skip_ws(b, q + k.len() + 2);
    assert(p < b.len());
    assert(b[p] == 0x3au8);
    assert(start == skip_ws(b, p + 1));
    assert(value_end(b, start) == Ok::<int, ExtractError>(end));
    lemma_skip_ws(b, p + 1);
    assert(0 < start < b.len());
    lemma_boundary_after_ascii(b, start - 1);
    assert(exists|i: int| first_end(b, start, i));
    let i = choose|i: int| first_end(b, start, i);
    if bracketed(b, start) {
        lemma_boundary_after_ascii(b, i);
    } else {
        lemma_boundary_at(b, i);
    }
}

/// Turns the decoder's result into extraction's: a value passes through, and
/// a decoding error is wrapped as `JsonError`.
pub fn from_decoded(decoded: Result<json::JsonValue, json::Error>) -> (r: Result<
    json::JsonValue,
    ExtractError,
>)
    ensures
        match decoded {
            Ok(v) => r == Ok::<json::JsonValue, ExtractError>(v),
            Err(e) => r == Err::<json::JsonValue, ExtractError>(ExtractError::JsonError(e)),
        },
{
    match decoded {
        Ok(v) => Ok(v),
        Err(e) => Err(ExtractError::JsonError(e)),
    }
}

/// Extracts the value bound to the first top-level occurrence of `key` in the
/// JSON text `s`, decoding only that value's span.
///
/// The span is the one that `value_span` finds; its errors pass through
/// unchanged, and a span that the decoder refuses gives `JsonError`.
pub fn extract(s: &str, key: &str) -> (r: Result<json::JsonValue, ExtractError>)
    ensures
        !valid_key(key.spec_bytes()) ==> r matches Err(ExtractError::InvalidKey()),
        valid_key(key.spec_bytes()) ==> match value_span_of(s.spec_bytes(), key.spec_bytes()) {
            Ok((start, end)) => {
                &&& r is Ok <==> json_accepts(s.spec_bytes().subrange(start, end))
                &&& r is Err ==> r matches Err(ExtractError::JsonError(_))
            },
            Err(x) => r == Err::<json::JsonValue, ExtractError>(x),
        },
{
    match value_span(s, key) {
        Err(x) => Err(x),
        Ok((start, end)) => {
            proof {
                encode_utf8_valid_utf8(s@);
                lemma_span_boundaries(s.spec_bytes(), key.spec_bytes(), start as int, end as int);
            }
            let (_, tail) = s.split_at(start);
            proof {
                let t = tail.spec_bytes();
                encode_utf8_valid_utf8(tail@);
                if end < s.spec_bytes().len() {
                    is_char_boundary_iff_not_is_continuation_byte(s.spec_bytes(), end as int);
                    assert(t[end - start] == s.spec_bytes()[end as int]);
                }
                lemma_boundary_at(t, end - start);
            }
            let (text, _) = tail.split_at(end - start);
            assert(text.spec_bytes() =~= s.spec_bytes().subrange(start as int, end as int));
            from_decoded(parse_json(text))
        },
    }
}

} // verus!
