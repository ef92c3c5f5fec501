//! Laws that relate the scanners' results across texts and calls.
use vstd::prelude::*;

use crate::error::ExtractError;
use crate::extract::json_accepts;
use crate::model::{
    bracketed, colon_at, ends_at, first_end, first_hit, is_ws, key_at, key_hit, key_state,
    lemma_first_end_unique, lemma_first_hit, lemma_skip_ws, skip_ws, span_end, value_end,
    value_span_of, value_state, ValueScan,
};

verus! {

/// The key scanner's state before byte `i` depends on the bytes before `i`
/// alone.
pub proof fn lemma_key_state_prefix(b1: Seq<u8>, b2: Seq<u8>, i: int)
    requires
        0 <= i <= b1.len(),
        i <= b2.len(),
        forall|j: int| 0 <= j < i ==> b1[j] == b2[j],
    ensures
        key_state(b1, i) == key_state(b2, i),
    decreases i,
{
    if i > 0 {
        lemma_key_state_prefix(b1, b2, i - 1);
    }
}

/// The value scanner's state depends only on the bytes it has read since the
/// value began, wherever the value stands.
pub proof fn lemma_value_state_shift(b1: Seq<u8>, s1: int, b2: Seq<u8>, s2: int, i: int)
    requires
        0 <= i,
        0 <= s1,
        0 <= s2,
        s1 + i <= b1.len(),
        s2 + i <= b2.len(),
        b1.subrange(s1, s1 + i) == b2.subrange(s2, s2 + i),
    ensures
        value_state(b1, s1, s1 + i) == value_state(b2, s2, s2 + i),
    decreases i,
{
    if i > 0 {
        assert(b1.subrange(s1, s1 + i - 1) =~= b1.subrange(s1, s1 + i).subrange(0, i - 1));
        assert(b2.subrange(s2, s2 + i - 1) =~= b2.subrange(s2, s2 + i).subrange(0, i - 1));
        lemma_value_state_shift(b1, s1, b2, s2, i - 1);
        assert(b1[s1 + i - 1] == b1.subrange(s1, s1 + i)[i - 1]);
        assert(b2[s2 + i - 1] == b2.subrange(s2, s2 + i)[i - 1]);
    }
}

/// Skipping whitespace in a text cut at `n` stops where it stopped in the
/// whole text, or at the cut.
pub proof fn lemma_skip_ws_prefix(b: Seq<u8>, n: int, i: int)
    requires
        0 <= i <= n <= b.len(),
    ensures
        skip_ws(b.subrange(0, n), i) == if skip_ws(b, i) <= n {
            skip_ws(b, i)
        } else {
            n
        },
        i <= skip_ws(b, i),
    decreases n - i,
{
    lemma_skip_ws(b, i);
    if i < n {
        assert(b.subrange(0, n)[i] == b[i]);
        if is_ws(b[i]) {
            lemma_skip_ws_prefix(b, n, i + 1);
        }
    }
}

/// Extraction is a function of the text and the key: the same inputs give
/// the same span or the same error, and the decoder accepts the span of one
/// call exactly when it accepts the span of another.
pub proof fn lemma_deterministic(t1: Seq<u8>, k1: Seq<u8>, t2: Seq<u8>, k2: Seq<u8>)
    requires
        t1 == t2,
        k1 == k2,
    ensures
        value_span_of(t1, k1) == value_span_of(t2, k2),
        value_span_of(t1, k1) matches Ok((s, e)) ==> json_accepts(t1.subrange(s, e))
            == json_accepts(t2.subrange(s, e)),
{
}

/// Where `k` stands as a key at all, it has a first place where it does.
pub proof fn lemma_hit_has_first(b: Seq<u8>, k: Seq<u8>, q: int)
    requires
        key_hit(b, k, q),
    ensures
        exists|j: int| first_hit(b, k, j),
    decreases q,
{
    if exists|j: int| 0 <= j < q && #[trigger] key_hit(b, k, j) {
        let j = choose|j: int| 0 <= j < q && #[trigger] key_hit(b, k, j);
        lemma_hit_has_first(b, k, j);
    } else {
        assert(first_hit(b, k, q));
    }
}

/// A text cut short after a key that was found, and before the key's value
/// ends, fails with `JsonTooShort` or `MissingEnd`: it neither yields a span
/// nor loses the key.
pub proof fn lemma_truncated(b: Seq<u8>, k: Seq<u8>, q: int, n: int, start: int, end: int)
    requires
        first_hit(b, k, q),
        value_span_of(b, k) == Ok::<(int, int), ExtractError>((start, end)),
        q + k.len() + 2 <= n < end,
    ensures
        value_span_of(b.subrange(0, n), k) == Err::<(int, int), ExtractError>(
            ExtractError::JsonTooShort(),
        ) || value_span_of(b.subrange(0, n), k) == Err::<(int, int), ExtractError>(
            ExtractError::MissingEnd(),
        ),
{
    let t = b.subrange(0, n);
    lemma_first_hit(b, k, q);
    let p = colon_at(b, k, q);
    assert(p < b.len());
    assert(start == skip_ws(b, p + 1));
    assert(value_end(b, start) == Ok::<int, ExtractError>(end));
    assert(end <= b.len()) by {
        let i0 = choose|i: int| first_end(b, start, i);
        assert(first_end(b, start, i0));
    }
    lemma_skip_ws_prefix(b, n, q + k.len() + 2);
    lemma_key_state_prefix(b, t, q);
    assert(t.subrange(q + 1, q + 1 + k.len()) =~= b.subrange(q + 1, q + 1 + k.len()));
    assert(key_at(t, k, q));
    if colon_at(b, k, q) < n {
        assert(t[p] == b[p]);
    }
    assert(key_hit(t, k, q));
    lemma_hit_has_first(t, k, q);
    let q2 = choose|j: int| first_hit(t, k, j);
    assert(first_hit(t, k, q2));
    if q < q2 {
        assert(!key_hit(t, k, q));
    }
    if q2 < q {
        lemma_key_state_prefix(b, t, q2);
        lemma_skip_ws_prefix(b, n, q2 + k.len() + 2);
        assert(t.subrange(q2 + 1, q2 + 1 + k.len()) =~= b.subrange(q2 + 1, q2 + 1 + k.len()));
        assert(key_at(b, k, q2));
        assert(!key_hit(b, k, q2));
        if colon_at(b, k, q2) < n {
            assert(t[colon_at(b, k, q2)] == b[colon_at(b, k, q2)]);
        }
        assert(colon_at(t, k, q2) >= t.len());
    } else if p < n {
        lemma_skip_ws_prefix(b, n, p + 1);
        if start < n {
            assert forall|i: int| !first_end(t, start, i) by {
                if first_end(t, start, i) {
                    assert(t.subrange(start, i) =~= b.subrange(start, i));
                    lemma_value_state_shift(t, start, b, start, i - start);
                    assert(t[i] == b[i]);
                    assert(ends_at(b, start, i));
                    let i0 = choose|i: int| first_end(b, start, i);
                    assert(first_end(b, start, i0));
                    assert(end == span_end(b, start, i0));
                    assert(i < i0);
                }
            }
        }
    }
}

/// `v` reads as one whole JSON value on its own: it does not begin with
/// whitespace, and either it is an object or array whose first terminator is
/// its own last byte, or it is a scalar that holds no terminator and leaves
/// the scanner outside any string with no level open.
pub open spec fn complete_value(v: Seq<u8>) -> bool {
    &&& v.len() > 0
    &&& !is_ws(v[0])
    &&& if bracketed(v, 0) {
        first_end(v, 0, v.len() - 1)
    } else {
        &&& forall|i: int| 0 <= i < v.len() ==> !#[trigger] ends_at(v, 0, i)
        &&& value_state(v, 0, v.len() as int) == (ValueScan {
            in_string: false,
            escaped: false,
            level: 0,
        })
    }
}

/// The text of an object member `"k":` followed by whitespace `w`, value `v`
/// and whatever `rest` comes after, with the members `pre` before it.
pub open spec fn member_text(pre: Seq<u8>, k: Seq<u8>, w: Seq<u8>, v: Seq<u8>, rest: Seq<u8>) -> Seq<
    u8,
> {
    seq![0x7bu8] + pre + seq![0x22u8] + k + seq![0x22u8, 0x3au8] + w + v + rest
}

/// Skipping a run of whitespace stops at the first byte after it.
proof fn lemma_skip_run(b: Seq<u8>, i: int, s: int)
    requires
        0 <= i <= s < b.len(),
        forall|j: int| i <= j < s ==> is_ws(#[trigger] b[j]),
        !is_ws(b[s]),
    ensures
        skip_ws(b, i) == s,
    decreases s - i,
{
    if i < s {
        lemma_skip_run(b, i + 1, s);
    }
}

/// A value written under key `k` is found again exactly. In the text
/// `{` + `pre` + `"k":` + `w` + `v` + `rest`, where the members `pre` leave
/// the scanner outside strings at a top-level key position, `k` stands
/// nowhere before as a top-level key, `w` is whitespace, `v` is a complete
/// value and `rest` begins with `,` or `}`, the span found is `v`'s bytes.
pub proof fn lemma_serialized_member(pre: Seq<u8>, k: Seq<u8>, w: Seq<u8>, v: Seq<u8>, rest: Seq<u8>)
    requires
        !key_state(seq![0x7bu8] + pre, pre.len() + 1int).in_string,
        key_state(seq![0x7bu8] + pre, pre.len() + 1int).is_key,
        key_state(seq![0x7bu8] + pre, pre.len() + 1int).level == 1,
        forall|j: int| 0 <= j <= pre.len() ==> !#[trigger] key_hit(member_text(pre, k, w, v, rest), k, j),
        forall|j: int| 0 <= j < w.len() ==> is_ws(#[trigger] w[j]),
        complete_value(v),
        rest.len() > 0,
        rest[0] == 0x2cu8 || rest[0] == 0x7du8,
    ensures
        value_span_of(member_text(pre, k, w, v, rest), k) == Ok::<(int, int), ExtractError>(
            (pre.len() + k.len() + 4int + w.len(), pre.len() + k.len() + 4int + w.len() + v.len()),
        ),
{
    let t = member_text(pre, k, w, v, rest);
    let head = seq![0x7bu8] + pre;
    let q: int = pre.len() + 1int;
    let c: int = q + k.len() + 2;
    let s: int = c + 1 + w.len();
    let e: int = s + v.len();
    assert(t.len() == e + rest.len());
    assert forall|j: int| 0 <= j < q implies t[j] == head[j] by {}
    lemma_key_state_prefix(t, head, q);
    assert(t[q] == 0x22u8);
    assert(t.subrange(q + 1, q + 1 + k.len()) =~= k);
    assert(t[q + 1 + k.len()] == 0x22u8);
    assert(t[c] == 0x3au8);
    assert(skip_ws(t, c) == c);
    assert(key_at(t, k, q));
    assert(key_hit(t, k, q));
    lemma_first_hit(t, k, q);
    assert forall|j: int| c + 1 <= j < s implies is_ws(#[trigger] t[j]) by {
        assert(t[j] == w[j - c - 1]);
    }
    assert(t[s] == v[0]);
    lemma_skip_run(t, c + 1, s);
    assert(t.subrange(s, e) =~= v);
    assert forall|i: int| 0 <= i <= v.len() implies value_state(t, s, s + i) == value_state(
        v,
        0,
        i,
    ) by {
        assert(t.subrange(s, s + i) =~= v.subrange(0, i));
        lemma_value_state_shift(t, s, v, 0, i);
    }
    assert forall|i: int| 0 <= i < v.len() implies ends_at(t, s, s + i) == ends_at(v, 0, i) by {
        assert(value_state(t, s, s + i) == value_state(v, 0, i));
        assert(t[s + i] == v[i]);
    }
    assert(bracketed(t, s) == bracketed(v, 0));
    let last: int = if bracketed(v, 0) { e - 1 } else { e };
    if bracketed(v, 0) {
        assert(ends_at(t, s, s + (v.len() - 1)));
        assert forall|j: int| s <= j < last implies !#[trigger] ends_at(t, s, j) by {
            assert(!ends_at(v, 0, j - s));
            assert(ends_at(t, s, s + (j - s)) == ends_at(v, 0, j - s));
        }
    } else {
        assert(value_state(t, s, s + v.len()) == value_state(v, 0, v.len() as int));
        assert(t[e] == rest[0]);
        assert(ends_at(t, s, e));
        assert forall|j: int| s <= j < last implies !#[trigger] ends_at(t, s, j) by {
            assert(!ends_at(v, 0, j - s));
            assert(ends_at(t, s, s + (j - s)) == ends_at(v, 0, j - s));
        }
    }
    assert(first_end(t, s, last));
    let i0 = choose|i: int| first_end(t, s, i);
    lemma_first_end_unique(t, s, last, i0);
    assert(value_end(t, s) == Ok::<int, ExtractError>(e));
}

} // verus!
