//! The mathematical model of the scan: the state after each byte, where a key
//! stands, and where a value ends.
use vstd::prelude::*;

use crate::error::ExtractError;

verus! {

/// Space, tab, line feed and carriage return: the whitespace that JSON allows
/// between tokens.
pub open spec fn is_ws(c: u8) -> bool {
    c == 0x20u8 || c == 0x09u8 || c == 0x0au8 || c == 0x0du8
}

/// The first index at or after `i` that does not hold whitespace (or the
/// length of `b` if there is none).
pub open spec fn skip_ws(b: Seq<u8>, i: int) -> int
    decreases b.len() - i,
{
    if 0 <= i < b.len() && is_ws(b[i]) {
        skip_ws(b, i + 1)
    } else {
        i
    }
}

/// Skipping whitespace moves forward within the text, and the byte before
/// where it stops is the byte where it began, or whitespace.
pub proof fn lemma_skip_ws(b: Seq<u8>, i: int)
    requires
        0 <= i <= b.len(),
    ensures
        i <= skip_ws(b, i) <= b.len(),
        skip_ws(b, i) > i ==> is_ws(b[skip_ws(b, i) - 1]),
    decreases b.len() - i,
{
    if i < b.len() && is_ws(b[i]) {
        lemma_skip_ws(b, i + 1);
    }
}

} // verus!

verus! {

pub open spec fn is_open(c: u8) -> bool {
    c == 0x7bu8 || c == 0x5bu8
}

pub open spec fn is_close(c: u8) -> bool {
    c == 0x7du8 || c == 0x5du8
}

/// The state of the value scanner: quoting, escaping and the depth of open
/// braces and brackets since the value began.
pub struct ValueScan {
    pub in_string: bool,
    pub escaped: bool,
    pub level: int,
}

/// One byte of the value scanner. A byte after a backslash inside a string is
/// taken literally; a quote toggles the string; outside strings, `{` and `[`
/// open a level and `}` and `]` close one.
pub open spec fn value_step(st: ValueScan, c: u8) -> ValueScan {
    if st.escaped {
        ValueScan { escaped: false, ..st }
    } else if st.in_string {
        if c == 0x5cu8 {
            ValueScan { escaped: true, ..st }
        } else if c == 0x22u8 {
            ValueScan { in_string: false, ..st }
        } else {
            st
        }
    } else if c == 0x22u8 {
        ValueScan { in_string: true, ..st }
    } else if is_open(c) {
        ValueScan { level: st.level + 1, ..st }
    } else if is_close(c) {
        ValueScan { level: st.level - 1, ..st }
    } else {
        st
    }
}

/// The value scanner's state just before byte `i`, for a value that begins at
/// `start`.
pub open spec fn value_state(b: Seq<u8>, start: int, i: int) -> ValueScan
    decreases i - start,
{
    if i <= start {
        ValueScan { in_string: false, escaped: false, level: 0 }
    } else {
        value_step(value_state(b, start, i - 1), b[i - 1])
    }
}

/// Byte `i` terminates the value that begins at `start`: outside any string,
/// it is a `}` or `]` that closes the last open level (or one that was never
/// opened), or a `,` while no level is open.
pub open spec fn ends_at(b: Seq<u8>, start: int, i: int) -> bool {
    let st = value_state(b, start, i);
    &&& start <= i < b.len()
    &&& !st.escaped
    &&& !st.in_string
    &&& ((is_close(b[i]) && st.level <= 1) || (b[i] == 0x2cu8 && st.level == 0))
}

/// Byte `i` is the first terminator of the value that begins at `start`.
pub open spec fn first_end(b: Seq<u8>, start: int, i: int) -> bool {
    &&& ends_at(b, start, i)
    &&& forall|j: int| start <= j < i ==> !#[trigger] ends_at(b, start, j)
}

/// The value is an object or an array, whose closing byte belongs to it.
pub open spec fn bracketed(b: Seq<u8>, start: int) -> bool {
    is_open(b[start])
}

/// One past the value's last byte, given its terminator at `i`: a bracketed
/// value keeps its closing byte, a scalar ends before the separator.
pub open spec fn span_end(b: Seq<u8>, start: int, i: int) -> int {
    if bracketed(b, start) {
        i + 1
    } else {
        i
    }
}

/// Where the value that begins at `start` ends, or why no end is found.
pub open spec fn value_end(b: Seq<u8>, start: int) -> Result<int, ExtractError> {
    if start < 0 || start >= b.len() {
        Err(ExtractError::JsonTooShort())
    } else if exists|i: int| first_end(b, start, i) {
        Ok(span_end(b, start, choose|i: int| first_end(b, start, i)))
    } else {
        Err(ExtractError::MissingEnd())
    }
}

} // verus!

verus! {

/// The state of the key scanner: quoting, escaping, whether a key is expected
/// next, and how many braces are open.
pub struct KeyScan {
    pub in_string: bool,
    pub escaped: bool,
    pub is_key: bool,
    pub level: int,
}

/// One byte of the key scanner. Inside strings it follows quotes and escapes
/// alone; outside, `:` moves to a value, `,` back to a key, and `{` and `}`
/// change the brace depth. Brackets do not count here.
pub open spec fn key_step(st: KeyScan, c: u8) -> KeyScan {
    if st.escaped {
        KeyScan { escaped: false, ..st }
    } else if st.in_string {
        if c == 0x5cu8 {
            KeyScan { escaped: true, ..st }
        } else if c == 0x22u8 {
            KeyScan { in_string: false, ..st }
        } else {
            st
        }
    } else if c == 0x22u8 {
        KeyScan { in_string: true, ..st }
    } else if c == 0x3au8 {
        KeyScan { is_key: false, ..st }
    } else if c == 0x2cu8 {
        KeyScan { is_key: true, ..st }
    } else if c == 0x7bu8 {
        KeyScan { level: st.level + 1, ..st }
    } else if c == 0x7du8 {
        KeyScan { level: st.level - 1, ..st }
    } else {
        st
    }
}

/// The key scanner's state just before byte `i` of the text.
pub open spec fn key_state(b: Seq<u8>, i: int) -> KeyScan
    decreases i,
{
    if i <= 0 {
        KeyScan { in_string: false, escaped: false, is_key: true, level: 0 }
    } else {
        key_step(key_state(b, i - 1), b[i - 1])
    }
}

/// A key that matching supports: it holds no quote and no backslash, so its
/// quoted form in the text is the key's bytes between two quotes.
pub open spec fn valid_key(k: Seq<u8>) -> bool {
    forall|i: int| 0 <= i < k.len() ==> #[trigger] k[i] != 0x22u8 && k[i] != 0x5cu8
}

/// At byte `q` a string opens in key position at the top level of the outer
/// object, and that string is `k` exactly.
pub open spec fn key_at(b: Seq<u8>, k: Seq<u8>, q: int) -> bool {
    let st = key_state(b, q);
    &&& 0 <= q
    &&& q + k.len() + 2 <= b.len()
    &&& !st.in_string
    &&& st.is_key
    &&& st.level == 1
    &&& b[q] == 0x22u8
    &&& b.subrange(q + 1, q + 1 + k.len()) == k
    &&& b[q + 1 + k.len()] == 0x22u8
}

/// Where the colon after the quoted key at `q` should stand.
pub open spec fn colon_at(b: Seq<u8>, k: Seq<u8>, q: int) -> int {
    skip_ws(b, q + k.len() + 2)
}

/// The quoted key at `q` is a key: a colon follows it, or the text ends.
pub open spec fn key_hit(b: Seq<u8>, k: Seq<u8>, q: int) -> bool {
    &&& key_at(b, k, q)
    &&& (colon_at(b, k, q) >= b.len() || b[colon_at(b, k, q)] == 0x3au8)
}

/// `q` is the first place where `k` stands as a top-level key.
pub open spec fn first_hit(b: Seq<u8>, k: Seq<u8>, q: int) -> bool {
    &&& key_hit(b, k, q)
    &&& forall|j: int| 0 <= j < q ==> !#[trigger] key_hit(b, k, j)
}

/// The byte span `[start, end)` of the value bound to the first top-level
/// occurrence of key `k` in text `b`, or why there is none.
pub open spec fn value_span_of(b: Seq<u8>, k: Seq<u8>) -> Result<(int, int), ExtractError> {
    if exists|q: int| first_hit(b, k, q) {
        let q = choose|q: int| first_hit(b, k, q);
        let p = colon_at(b, k, q);
        if p >= b.len() {
            Err(ExtractError::JsonTooShort())
        } else {
            let start = skip_ws(b, p + 1);
            match value_end(b, start) {
                Ok(end) => Ok((start, end)),
                Err(x) => Err(x),
            }
        }
    } else {
        Err(ExtractError::KeyNotFound())
    }
}

/// Two results of the value scanner are the same first terminator.
pub proof fn lemma_first_end_unique(b: Seq<u8>, start: int, i: int, j: int)
    requires
        first_end(b, start, i),
        first_end(b, start, j),
    ensures
        i == j,
{
    if i < j {
        assert(!ends_at(b, start, i));
    } else if j < i {
        assert(!ends_at(b, start, j));
    }
}

/// A key hit with none before it is the one that the model chooses.
pub proof fn lemma_first_hit(b: Seq<u8>, k: Seq<u8>, q: int)
    requires
        key_hit(b, k, q),
        forall|j: int| 0 <= j < q ==> !#[trigger] key_hit(b, k, j),
    ensures
        first_hit(b, k, q),
        (choose|j: int| first_hit(b, k, j)) == q,
{
    assert(first_hit(b, k, q));
    let j = choose|j: int| first_hit(b, k, j);
    if j < q {
        assert(!key_hit(b, k, j));
    } else if q < j {
        assert(!key_hit(b, k, q));
    }
}

} // verus!
