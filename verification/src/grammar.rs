//! The wire format, stated over bytes: optional whitespace, `[`, zero or
//! more decimal integer literals separated by commas, `]`, optional
//! whitespace.  Each literal must fit in an unsigned 32-bit integer and may
//! not carry a leading zero.  The encoder side describes the text produced
//! for the integers `0..count`: the same grammar with no whitespace at all.

use vstd::prelude::*;

verus! {

/// Whitespace accepted between tokens: space, tab, line feed, carriage
/// return.
pub open spec fn is_ws(b: u8) -> bool {
    b == 32 || b == 9 || b == 10 || b == 13
}

/// An ASCII decimal digit.
pub open spec fn is_digit(b: u8) -> bool {
    48 <= b && b <= 57
}

/// The first position at or after `i` that does not hold whitespace.
pub open spec fn skip_ws(s: Seq<u8>, i: int) -> int
    decreases s.len() - i when 0 <= i <= s.len()
{
    if i < s.len() && is_ws(s[i]) {
        skip_ws(s, i + 1)
    } else {
        i
    }
}

/// The first position at or after `i` that does not hold a digit.
pub open spec fn digits_end(s: Seq<u8>, i: int) -> int
    decreases s.len() - i when 0 <= i <= s.len()
{
    if i < s.len() && is_digit(s[i]) {
        digits_end(s, i + 1)
    } else {
        i
    }
}

/// The decimal value of the bytes `s[i..j)`.
pub open spec fn digits_value(s: Seq<u8>, i: int, j: int) -> int
    decreases j - i,
{
    if i < j {
        digits_value(s, i, j - 1) * 10 + (s[j - 1] - 48)
    } else {
        0
    }
}

/// `skip_ws` never moves backwards, never leaves the sequence, and stops on
/// a byte that is not whitespace.
pub proof fn lemma_skip_ws_bounds(s: Seq<u8>, i: int)
    requires
        0 <= i <= s.len(),
    ensures
        i <= skip_ws(s, i) <= s.len(),
        skip_ws(s, i) < s.len() ==> !is_ws(s[skip_ws(s, i)]),
    decreases s.len() - i,
{
    if i < s.len() && is_ws(s[i]) {
        lemma_skip_ws_bounds(s, i + 1);
    }
}

/// `digits_end` never moves backwards, never leaves the sequence, stops on a
/// byte that is not a digit, and passes only digits.
pub proof fn lemma_digits_end_bounds(s: Seq<u8>, i: int)
    requires
        0 <= i <= s.len(),
    ensures
        i <= digits_end(s, i) <= s.len(),
        digits_end(s, i) < s.len() ==> !is_digit(s[digits_end(s, i)]),
        forall|k: int| i <= k < digits_end(s, i) ==> is_digit(#[trigger] s[k]),
    decreases s.len() - i,
{
    if i < s.len() && is_digit(s[i]) {
        lemma_digits_end_bounds(s, i + 1);
    }
}

/// A run of `len` digits at `i`, followed by the end of the sequence or by a
/// byte that is not a digit, ends exactly at `i + len`.
pub proof fn lemma_digits_end_run(s: Seq<u8>, i: int, len: int)
    requires
        0 <= i,
        0 <= len,
        i + len <= s.len(),
        forall|k: int| 0 <= k < len ==> is_digit(#[trigger] s[i + k]),
        i + len < s.len() ==> !is_digit(s[i + len]),
    ensures
        digits_end(s, i) == i + len,
    decreases len,
{
    if len > 0 {
        assert(is_digit(s[i + 0]));
        assert forall|k2: int| 0 <= k2 < len - 1 implies is_digit(#[trigger] s[(i + 1) + k2]) by {
            assert(is_digit(s[i + (k2 + 1)]));
        }
        lemma_digits_end_run(s, i + 1, len - 1);
    }
}

/// The value of a run of digits is never negative.
pub proof fn lemma_digits_value_nonneg(s: Seq<u8>, i: int, j: int)
    requires
        i <= j,
        forall|k: int| i <= k < j ==> is_digit(#[trigger] s[k]),
    ensures
        digits_value(s, i, j) >= 0,
    decreases j - i,
{
    if i < j {
        lemma_digits_value_nonneg(s, i, j - 1);
    }
}

/// Extending a run of digits to the right never lowers its value.
pub proof fn lemma_digits_value_monotone(s: Seq<u8>, i: int, j: int, j2: int)
    requires
        i <= j <= j2,
        forall|k: int| i <= k < j2 ==> is_digit(#[trigger] s[k]),
    ensures
        digits_value(s, i, j) <= digits_value(s, i, j2),
    decreases j2 - j,
{
    if j < j2 {
        lemma_digits_value_nonneg(s, i, j2 - 1);
        lemma_digits_value_monotone(s, i, j, j2 - 1);
    }
}

/// Parses, from position `i`, a non-empty remainder of the element list:
/// whitespace, one integer literal, then either a comma and further
/// elements, or the closing bracket followed only by whitespace.
pub open spec fn parse_items(s: Seq<u8>, i: int) -> Option<Seq<u32>>
    decreases s.len() - i
        when 0 <= i <= s.len()
        via parse_items_decreases
{
    let j = skip_ws(s, i);
    let e = digits_end(s, j);
    if e == j {
        None
    } else if s[j] == 48 && e > j + 1 {
        None
    } else if digits_value(s, j, e) > u32::MAX {
        None
    } else {
        let v = digits_value(s, j, e) as u32;
        let k = skip_ws(s, e);
        if k < s.len() && s[k] == 44 {
            match parse_items(s, k + 1) {
                Some(rest) => Some(seq![v] + rest),
                None => None,
            }
        } else if k < s.len() && s[k] == 93 {
            if skip_ws(s, k + 1) == s.len() {
                Some(seq![v])
            } else {
                None
            }
        } else {
            None
        }
    }
}

#[via_fn]
proof fn parse_items_decreases(s: Seq<u8>, i: int) {
    lemma_skip_ws_bounds(s, i);
    let j = skip_ws(s, i);
    lemma_digits_end_bounds(s, j);
    let e = digits_end(s, j);
    if j <= e <= s.len() {
        lemma_skip_ws_bounds(s, e);
    }
}

/// Parses a complete text.  `None` means the text is malformed or holds a
/// literal beyond the unsigned 32-bit range; `Some` gives the integers in
/// the order they appear.
pub open spec fn parse_json_u32s(s: Seq<u8>) -> Option<Seq<u32>> {
    let i = skip_ws(s, 0);
    if i < s.len() && s[i] == 91 {
        let j = skip_ws(s, i + 1);
        if j < s.len() && s[j] == 93 {
            if skip_ws(s, j + 1) == s.len() {
                Some(Seq::empty())
            } else {
                None
            }
        } else {
            parse_items(s, i + 1)
        }
    } else {
        None
    }
}

/// Prepends an already-parsed prefix to the outcome for the remaining
/// elements; a malformed remainder spoils the whole parse.
pub open spec fn opt_concat(pre: Seq<u32>, rest: Option<Seq<u32>>) -> Option<Seq<u32>> {
    match rest {
        Some(t) => Some(pre + t),
        None => None,
    }
}

/// The decimal digits of `n`, most significant first.
pub open spec fn dec_digits(n: nat) -> Seq<u8>
    decreases n,
{
    if n < 10 {
        seq![(48 + n) as u8]
    } else {
        dec_digits(n / 10) + seq![(48 + n % 10) as u8]
    }
}

/// The encoded elements `lo, lo+1, ..., hi-1`, separated by single commas.
pub open spec fn encode_range(lo: nat, hi: nat) -> Seq<u8>
    decreases hi - lo,
{
    if hi <= lo {
        Seq::empty()
    } else if lo + 1 == hi {
        dec_digits(lo)
    } else {
        dec_digits(lo) + seq![44u8] + encode_range(lo + 1, hi)
    }
}

/// The full encoded text for `count` elements: `[`, the elements
/// `0..count`, `]`, and no whitespace anywhere.
pub open spec fn encode_json(count: nat) -> Seq<u8> {
    seq![91u8] + encode_range(0, count) + seq![93u8]
}

/// The decimal form of `n` holds at least one byte, all bytes are digits,
/// and it starts with a zero exactly when `n` is zero (in which case it is
/// the single byte `0`).
pub proof fn lemma_dec_digits_form(n: nat)
    ensures
        dec_digits(n).len() >= 1,
        forall|k: int| 0 <= k < dec_digits(n).len() ==> is_digit(#[trigger] dec_digits(n)[k]),
        dec_digits(n)[0] == 48 <==> n == 0,
        n == 0 ==> dec_digits(n).len() == 1,
    decreases n,
{
    if n >= 10 {
        lemma_dec_digits_form(n / 10);
    }
}

/// If the bytes at `i` spell out the decimal form of `n`, their value is
/// `n`.
pub proof fn lemma_dec_digits_value(s: Seq<u8>, i: int, n: nat)
    requires
        0 <= i,
        i + dec_digits(n).len() <= s.len(),
        forall|k: int|
            0 <= k < dec_digits(n).len() ==> s[i + k] == #[trigger] dec_digits(n)[k],
    ensures
        digits_value(s, i, i + dec_digits(n).len()) == n,
    decreases n,
{
    let d = dec_digits(n);
    if n < 10 {
        assert(s[i] == d[0]);
        assert(digits_value(s, i, i) == 0);
        assert(digits_value(s, i, i + 1) == (s[i] - 48));
    } else {
        let dq = dec_digits(n / 10);
        assert(d == dq + seq![(48 + n % 10) as u8]);
        assert forall|k: int| 0 <= k < dq.len() implies s[i + k] == dq[k] by {
            assert(d[k] == dq[k]);
            assert(s[i + k] == d[k]);
        }
        lemma_dec_digits_value(s, i, n / 10);
        let e = i + d.len();
        assert(s[e - 1] == d[d.len() - 1] == 48 + n % 10);
        assert(digits_value(s, i, e) == digits_value(s, i, e - 1) * 10 + (s[e - 1] - 48));
        assert(digits_value(s, i, e - 1) == n / 10);
        assert((n / 10) * 10 + n % 10 == n);
    }
}

/// Appending the next element to an encoded range.
pub proof fn lemma_encode_range_snoc(lo: nat, hi: nat)
    requires
        lo <= hi,
    ensures
        lo == hi ==> encode_range(lo, hi + 1) == dec_digits(hi),
        lo < hi ==> encode_range(lo, hi + 1) == encode_range(lo, hi) + seq![44u8] + dec_digits(
            hi,
        ),
    decreases hi - lo,
{
    if lo < hi {
        lemma_encode_range_snoc(lo + 1, hi);
        if lo + 1 == hi {
            assert(encode_range(lo, hi + 1) =~= encode_range(lo, hi) + seq![44u8] + dec_digits(
                hi,
            ));
        } else {
            assert(encode_range(lo, hi + 1) =~= encode_range(lo, hi) + seq![44u8] + dec_digits(
                hi,
            ));
        }
    }
}

/// Every byte of an encoded range is a digit or a comma; in particular none
/// is whitespace, a bracket, or outside ASCII.
pub proof fn lemma_encode_range_bytes(lo: nat, hi: nat)
    ensures
        forall|k: int|
            0 <= k < encode_range(lo, hi).len() ==> (is_digit(
                #[trigger] encode_range(lo, hi)[k],
            ) || encode_range(lo, hi)[k] == 44),
    decreases hi - lo,
{
    lemma_dec_digits_form(lo);
    if lo < hi && lo + 1 != hi {
        lemma_encode_range_bytes(lo + 1, hi);
    }
    let r = encode_range(lo, hi);
    let d = dec_digits(lo);
    assert forall|k: int| 0 <= k < r.len() implies (is_digit(r[k]) || r[k] == 44) by {
        if lo < hi {
            if lo + 1 == hi {
                assert(r[k] == d[k]);
            } else {
                let rest = encode_range((lo + 1) as nat, hi);
                if k < d.len() {
                    assert(r[k] == d[k]);
                } else if k == d.len() {
                    assert(r[k] == 44);
                } else {
                    assert(r[k] == rest[k - d.len() - 1]);
                }
            }
        }
    }
}

/// Every byte of an encoded text is below 128.
pub proof fn lemma_encode_json_ascii(count: nat)
    ensures
        forall|k: int| 0 <= k < encode_json(count).len() ==> #[trigger] encode_json(count)[k] < 128,
{
    lemma_encode_range_bytes(0, count);
    let s = encode_json(count);
    let r = encode_range(0, count);
    assert forall|k: int| 0 <= k < s.len() implies s[k] < 128 by {
        if 1 <= k < 1 + r.len() {
            assert(s[k] == r[k - 1]);
        }
    }
}

} // verus!
