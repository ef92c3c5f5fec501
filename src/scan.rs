//! The two scanners: where a value ends, and where a key stands.
use vstd::prelude::*;
use vstd::string::StringSliceAdditionalSpecFns;

use crate::error::ExtractError;
use crate::model::{
    bracketed, ends_at, first_end, first_hit, key_hit, key_state, lemma_first_end_unique,
    lemma_first_hit, skip_ws, valid_key, value_end, value_span_of, value_state, KeyScan,
    ValueScan,
};

verus! {

/// Finds one past the last byte of the value that begins at byte `start` of
/// `b`, scanning only until the value's terminator.
pub(crate) fn scan_value_end(b: &[u8], start: usize) -> (r: Result<usize, ExtractError>)
    ensures
        match r {
            Ok(e) => value_end(b@, start as int) == Ok::<int, ExtractError>(e as int),
            Err(x) => value_end(b@, start as int) == Err::<int, ExtractError>(x),
        },
{
    let n = b.len();
    if start >= n {
        return Err(ExtractError::JsonTooShort());
    }
    let keeps_close = b[start] == 0x7bu8 || b[start] == 0x5bu8;
    let mut in_string = false;
    let mut escaped = false;
    let mut level: usize = 0;
    let mut i: usize = start;
    while i < n
        invariant
            n == b@.len(),
            start < n,
            start <= i <= n,
            level <= i - start,
            keeps_close == bracketed(b@, start as int),
            value_state(b@, start as int, i as int) == (ValueScan {
                in_string,
                escaped,
                level: level as int,
            }),
            forall|j: int| start <= j < i ==> !#[trigger] ends_at(b@, start as int, j),
        decreases n - i,
    {
        let c = b[i];
        if escaped {
            escaped = false;
        } else if in_string {
            if c == 0x5cu8 {
                escaped = true;
            } else if c == 0x22u8 {
                in_string = false;
            }
        } else if c == 0x22u8 {
            in_string = true;
        } else if c == 0x7bu8 || c == 0x5bu8 {
            level = level + 1;
        } else if c == 0x7du8 || c == 0x5du8 {
            if level <= 1 {
                let e = if keeps_close { i + 1 } else { i };
                proof {
                    assert(first_end(b@, start as int, i as int));
                    let k = choose|k: int| first_end(b@, start as int, k);
                    lemma_first_end_unique(b@, start as int, i as int, k);
                }
                return Ok(e);
            }
            level = level - 1;
        } else if c == 0x2cu8 && level == 0 {
            proof {
                assert(first_end(b@, start as int, i as int));
                let k = choose|k: int| first_end(b@, start as int, k);
                lemma_first_end_unique(b@, start as int, i as int, k);
            }
            let e = if keeps_close { i + 1 } else { i };
            return Ok(e);
        }
        i = i + 1;
    }
    proof {
        assert forall|k: int| !first_end(b@, start as int, k) by {
            if first_end(b@, start as int, k) {
                assert(!ends_at(b@, start as int, k));
            }
        }
    }
    Err(ExtractError::MissingEnd())
}

/// Finds one past the last byte of the value that begins at byte `start` of
/// `buf`.
///
/// Fails with `JsonTooShort` when `start` is not inside the text, and with
/// `MissingEnd` when the text ends before the value's terminator.
pub fn find_end(buf: &str, start: usize) -> (r: Result<usize, ExtractError>)
    ensures
        match r {
            Ok(e) => value_end(buf.spec_bytes(), start as int) == Ok::<int, ExtractError>(e as int),
            Err(x) => value_end(buf.spec_bytes(), start as int) == Err::<int, ExtractError>(x),
        },
{
    scan_value_end(buf.as_bytes(), start)
}

/// The first index at or after `i` that holds no whitespace.
fn skip_whitespace(b: &[u8], i: usize) -> (r: usize)
    requires
        i <= b@.len(),
    ensures
        r == skip_ws(b@, i as int),
        i <= r <= b@.len(),
{
    let mut j = i;
    while j < b.len() && (b[j] == 0x20u8 || b[j] == 0x09u8 || b[j] == 0x0au8 || b[j] == 0x0du8)
        invariant
            i <= j <= b@.len(),
            skip_ws(b@, j as int) == skip_ws(b@, i as int),
        decreases b@.len() - j,
    {
        j = j + 1;
    }
    j
}

/// Whether the key holds neither a quote nor a backslash.
fn key_is_valid(k: &[u8]) -> (r: bool)
    ensures
        r == valid_key(k@),
{
    let mut i: usize = 0;
    while i < k.len()
        invariant
            i <= k@.len(),
            forall|j: int| 0 <= j < i ==> #[trigger] k@[j] != 0x22u8 && k@[j] != 0x5cu8,
        decreases k@.len() - i,
    {
        if k[i] == 0x22u8 || k[i] == 0x5cu8 {
            return false;
        }
        i = i + 1;
    }
    true
}

/// Whether `b` holds the key `k` between two quotes, the first at `q`.
fn quoted_at(b: &[u8], k: &[u8], q: usize) -> (r: bool)
    requires
        q < b@.len(),
    ensures
        r == (q + k@.len() + 2 <= b@.len() && b@[q as int] == 0x22u8
            && b@.subrange(q + 1, q + 1 + k@.len()) == k@ && b@[q + 1 + k@.len()] == 0x22u8),
{
    let n = b.len();
    let kl = k.len();
    if b[q] != 0x22u8 || kl >= n - q - 1 {
        return false;
    }
    let mut j: usize = 0;
    while j < kl
        invariant
            kl == k@.len(),
            n == b@.len(),
            q + 1 + kl < n,
            j <= kl,
            forall|m: int| 0 <= m < j ==> b@[q + 1 + m] == #[trigger] k@[m],
        decreases kl - j,
    {
        if b[q + 1 + j] != k[j] {
            assert(b@.subrange(q + 1, q + 1 + kl)[j as int] != k@[j as int]);
            return false;
        }
        j = j + 1;
    }
    assert(b@.subrange(q + 1, q + 1 + kl) =~= k@);
    b[q + 1 + kl] == 0x22u8
}

/// Finds the byte span `(start, end)` of the value bound to the first
/// top-level occurrence of `key` in the JSON text `s`.
///
/// The key is looked for only where the outer object expects a key, outside
/// nested objects and never inside string values, and only where a colon
/// follows it. Whitespace may stand on either side of that colon; the value's
/// span starts after it.
///
/// Fails with `InvalidKey` when the key holds a quote or a backslash,
/// `KeyNotFound` when the key does not stand at the top level, `JsonTooShort`
/// when the text ends where the value should begin, and `MissingEnd` when it
/// ends before the value's terminator.
pub fn value_span(s: &str, key: &str) -> (r: Result<(usize, usize), ExtractError>)
    ensures
        !valid_key(key.spec_bytes()) ==> r == Err::<(usize, usize), ExtractError>(
            ExtractError::InvalidKey(),
        ),
        valid_key(key.spec_bytes()) ==> match r {
            Ok((start, end)) => value_span_of(s.spec_bytes(), key.spec_bytes()) == Ok::<
                (int, int),
                ExtractError,
            >((start as int, end as int)),
            Err(x) => value_span_of(s.spec_bytes(), key.spec_bytes()) == Err::<
                (int, int),
                ExtractError,
            >(x),
        },
{
    let b = s.as_bytes();
    let k = key.as_bytes();
    if !key_is_valid(k) {
        return Err(ExtractError::InvalidKey());
    }
    let n = b.len();
    let mut in_string = false;
    let mut escaped = false;
    let mut is_key = true;
    let mut opens: usize = 0;
    let mut closes: usize = 0;
    let mut i: usize = 0;
    while i < n
        invariant
            n == b@.len(),
            b@ == s.spec_bytes(),
            k@ == key.spec_bytes(),
            valid_key(k@),
            i <= n,
            opens <= i,
            closes <= i,
            key_state(b@, i as int) == (KeyScan {
                in_string,
                escaped,
                is_key,
                level: opens - closes,
            }),
            forall|q: int| 0 <= q < i ==> !#[trigger] key_hit(b@, k@, q),
        decreases n - i,
    {
        let c = b[i];
        if !in_string && is_key && opens == closes + 1 && quoted_at(b, k, i) {
            let p = skip_whitespace(b, i + k.len() + 2);
            if p >= n {
                proof {
                    lemma_first_hit(b@, k@, i as int);
                }
                return Err(ExtractError::JsonTooShort());
            }
            if b[p] == 0x3au8 {
                proof {
                    lemma_first_hit(b@, k@, i as int);
                }
                let start = skip_whitespace(b, p + 1);
                return match scan_value_end(b, start) {
                    Ok(end) => Ok((start, end)),
                    Err(x) => Err(x),
                };
            }
        }
        if escaped {
            escaped = false;
        } else if in_string {
            if c == 0x5cu8 {
                escaped = true;
            } else if c == 0x22u8 {
                in_string = false;
            }
        } else if c == 0x22u8 {
            in_string = true;
        } else if c == 0x3au8 {
            is_key = false;
        } else if c == 0x2cu8 {
            is_key = true;
        } else if c == 0x7bu8 {
            opens = opens + 1;
        } else if c == 0x7du8 {
            closes = closes + 1;
        }
        i = i + 1;
    }
    proof {
        assert forall|q: int| !first_hit(b@, k@, q) by {
            if first_hit(b@, k@, q) {
                assert(!key_hit(b@, k@, q));
            }
        }
    }
    Err(ExtractError::KeyNotFound())
}

} // verus!
