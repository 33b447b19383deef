//! The laws the library obeys: the round trip from encoder to decoder, the
//! closed form of the sum, the boundary behaviour for zero elements, and the
//! determinism of decoding.

use crate::aggregate::{sum_spec, triangular};
use crate::codec::{ascii_chars, ParseError};
use crate::grammar::{
    dec_digits, digits_end, digits_value, encode_json, encode_range, is_digit, is_ws,
    lemma_dec_digits_form, lemma_dec_digits_value, lemma_digits_end_run,
    lemma_encode_json_ascii, parse_items, parse_json_u32s, skip_ws,
};
use vstd::prelude::*;
use vstd::string::StringSliceAdditionalSpecFns;
use vstd::utf8::{is_ascii_chars, is_ascii_chars_encode_utf8};

verus! {

/// Parsing the encoded elements `lo..hi` followed by the closing bracket at
/// the end of the text yields exactly those integers.
proof fn lemma_parse_encoded_items(s: Seq<u8>, i: int, lo: nat, hi: nat)
    requires
        lo < hi <= 0x1_0000_0000,
        0 <= i <= s.len(),
        s.subrange(i, s.len() as int) == encode_range(lo, hi) + seq![93u8],
    ensures
        parse_items(s, i) == Some(Seq::new((hi - lo) as nat, |t: int| (lo + t) as u32)),
    decreases hi - lo,
{
    let tail = encode_range(lo, hi) + seq![93u8];
    let d = dec_digits(lo);
    let dl = d.len() as int;
    lemma_dec_digits_form(lo);
    assert(s.len() == i + tail.len());
    assert forall|k: int| 0 <= k < tail.len() implies s[i + k] == tail[k] by {
        assert(s.subrange(i, s.len() as int)[k] == s[i + k]);
    }
    if lo + 1 == hi {
        assert(encode_range(lo, hi) == d);
        assert forall|k: int| 0 <= k < dl implies s[i + k] == d[k] by {
            assert(tail[k] == d[k]);
        }
        assert(s[i + dl] == tail[dl]);
        assert(tail[dl] == 93);
    } else {
        let er1 = encode_range((lo + 1) as nat, hi);
        assert(encode_range(lo, hi) == d + seq![44u8] + er1);
        assert forall|k: int| 0 <= k < dl implies s[i + k] == d[k] by {
            assert(tail[k] == encode_range(lo, hi)[k]);
            assert(encode_range(lo, hi)[k] == (d + seq![44u8])[k]);
        }
        assert(s[i + dl] == tail[dl]);
        assert(tail[dl] == encode_range(lo, hi)[dl]);
        assert(encode_range(lo, hi)[dl] == 44);
    }
    assert forall|k: int| 0 <= k < dl implies is_digit(#[trigger] s[i + k]) by {
        assert(is_digit(d[k]));
    }
    assert(s[i + 0] == d[0]);
    assert(is_digit(s[i]));
    assert(!is_ws(s[i]));
    assert(skip_ws(s, i) == i);
    lemma_digits_end_run(s, i, dl);
    let e = i + dl;
    assert(digits_end(s, i) == e);
    lemma_dec_digits_value(s, i, lo);
    assert(digits_value(s, i, e) == lo);
    assert(s[i] == 48 ==> lo == 0 && e == i + 1);
    assert(!is_ws(s[e]));
    assert(skip_ws(s, e) == e);
    let v = digits_value(s, i, e) as u32;
    assert(v as int == lo);
    let expected = Seq::new((hi - lo) as nat, |t: int| (lo + t) as u32);
    if lo + 1 == hi {
        assert(s[e] == 93);
        assert(e + 1 == s.len());
        assert(skip_ws(s, e + 1) == s.len());
        assert(parse_items(s, i) == Some(seq![v]));
        assert(seq![v] =~= expected);
    } else {
        let er1 = encode_range((lo + 1) as nat, hi);
        assert(s[e] == 44);
        assert(tail.len() == dl + 1 + er1.len() + 1);
        assert forall|m: int|
            0 <= m < er1.len() + 1 implies s.subrange(e + 1, s.len() as int)[m] == (er1
            + seq![93u8])[m] by {
            assert(s.subrange(e + 1, s.len() as int)[m] == s[e + 1 + m]);
            assert(s[i + (dl + 1 + m)] == tail[dl + 1 + m]);
            if m < er1.len() {
                assert(tail[dl + 1 + m] == encode_range(lo, hi)[dl + 1 + m]);
                assert(encode_range(lo, hi)[dl + 1 + m] == er1[m]);
                assert((er1 + seq![93u8])[m] == er1[m]);
            } else {
                assert(tail[dl + 1 + m] == 93);
            }
        }
        assert(s.subrange(e + 1, s.len() as int) =~= er1 + seq![93u8]);
        lemma_parse_encoded_items(s, e + 1, (lo + 1) as nat, hi);
        let rest = Seq::new((hi - (lo + 1)) as nat, |t: int| (lo + 1 + t) as u32);
        assert(parse_items(s, e + 1) == Some(rest));
        assert(parse_items(s, i) == Some(seq![v] + rest));
        assert(seq![v] + rest =~= expected);
    }
}

/// Round trip: for every count up to one past the largest 32-bit value, the
/// encoded text parses back to exactly the sequence `0, 1, ..., count-1`.
pub proof fn lemma_round_trip(count: nat)
    requires
        count <= 0x1_0000_0000,
    ensures
        parse_json_u32s(encode_json(count)) == Some(Seq::new(count, |t: int| t as u32)),
{
    let s = encode_json(count);
    let r = encode_range(0, count);
    assert(s[0] == 91);
    assert(!is_ws(s[0]));
    assert(skip_ws(s, 0) == 0);
    if count == 0 {
        assert(r == Seq::<u8>::empty());
        assert(s =~= seq![91u8, 93u8]);
        assert(!is_ws(s[1]));
        assert(skip_ws(s, 1) == 1);
        assert(s[1] == 93);
        assert(skip_ws(s, 2) == 2);
        assert(parse_json_u32s(s) == Some(Seq::<u32>::empty()));
        assert(Seq::<u32>::empty() =~= Seq::new(count, |t: int| t as u32));
    } else {
        lemma_dec_digits_form(0);
        assert(r.len() >= 1);
        assert(s[1] == r[0]);
        if count == 1 {
            assert(r == dec_digits(0));
            assert(r[0] == 48);
        } else {
            assert(r == dec_digits(0) + seq![44u8] + encode_range(1, count));
            assert(r[0] == dec_digits(0)[0]);
            assert(r[0] == 48);
        }
        assert(is_digit(s[1]));
        assert(!is_ws(s[1]));
        assert(skip_ws(s, 1) == 1);
        assert(s[1] != 93);
        assert(parse_json_u32s(s) == parse_items(s, 1));
        assert forall|m: int| 0 <= m < r.len() + 1 implies s.subrange(1, s.len() as int)[m] == (r
            + seq![93u8])[m] by {
            assert(s.subrange(1, s.len() as int)[m] == s[1 + m]);
        }
        assert(s.subrange(1, s.len() as int) =~= r + seq![93u8]);
        lemma_parse_encoded_items(s, 1, 0, count);
        assert(Seq::new(count, |t: int| (0 + t) as u32) =~= Seq::new(count, |t: int| t as u32));
    }
}

/// Sum correctness: the sequence `0, 1, ..., n-1` sums to the triangular
/// number `n * (n - 1) / 2`.
pub proof fn lemma_sum_of_range(n: nat)
    requires
        n <= 0x1_0000_0000,
    ensures
        sum_spec(Seq::new(n, |t: int| t as u32)) == triangular(n),
    decreases n,
{
    let s = Seq::new(n, |t: int| t as u32);
    if n == 0 {
        assert(s.len() == 0);
    } else {
        lemma_sum_of_range((n - 1) as nat);
        assert(s.drop_last() =~= Seq::new((n - 1) as nat, |t: int| t as u32));
        assert(s.last() == (n - 1) as u32);
        assert((n - 1) as u32 as int == n - 1);
        let m = n as int;
        assert((m - 1) * (m - 2) / 2 + (m - 1) == m * (m - 1) / 2) by (nonlinear_arith);
    }
}

/// Sum of the round trip: decoding the encoded text for `count` succeeds,
/// and the decoded sequence sums to the triangular number of `count`.
pub proof fn lemma_sum_of_round_trip(count: nat)
    requires
        count <= 0x1_0000_0000,
    ensures
        parse_json_u32s(encode_json(count)) matches Some(v) && sum_spec(v) == triangular(count),
{
    lemma_round_trip(count);
    lemma_sum_of_range(count);
}

/// Boundary: the text for zero elements is `[]`, that text decodes to the
/// empty sequence, and the empty sequence sums to zero.
pub proof fn lemma_boundary()
    ensures
        encode_json(0) == seq![91u8, 93u8],
        parse_json_u32s(seq![91u8, 93u8]) == Some(Seq::<u32>::empty()),
        sum_spec(Seq::<u32>::empty()) == 0,
{
    assert(encode_json(0) =~= seq![91u8, 93u8]);
    lemma_round_trip(0);
    assert(Seq::new(0, |t: int| t as u32) =~= Seq::<u32>::empty());
}

/// Idempotence: the outcome of decoding is a function of the bytes alone.
/// Any two results that `decode` may return for the same text agree: both
/// succeed with the same sequence, or both fail.
pub proof fn lemma_decode_deterministic(
    s: Seq<u8>,
    r1: Result<Vec<u32>, ParseError>,
    r2: Result<Vec<u32>, ParseError>,
)
    requires
        match r1 {
            Ok(v) => parse_json_u32s(s) == Some(v@),
            Err(_) => parse_json_u32s(s) is None,
        },
        match r2 {
            Ok(v) => parse_json_u32s(s) == Some(v@),
            Err(_) => parse_json_u32s(s) is None,
        },
    ensures
        r1 is Ok <==> r2 is Ok,
        r1 is Ok ==> r1->Ok_0@ == r2->Ok_0@,
{
}

/// A string whose characters carry the code points of bytes below 128 has
/// exactly those bytes as its UTF-8 encoding.
pub proof fn lemma_ascii_chars_bytes(t: &str, b: Seq<u8>)
    requires
        t@ == ascii_chars(b),
        forall|k: int| 0 <= k < b.len() ==> b[k] < 128,
    ensures
        t.spec_bytes() == b,
{
    assert(t@.len() == b.len());
    assert forall|k: int| 0 <= k < t@.len() implies '\0' <= #[trigger] t@[k] <= '\u{7f}' by {
        assert(t@[k] == b[k] as char);
    }
    assert(is_ascii_chars(t@));
    is_ascii_chars_encode_utf8(t@);
    assert forall|k: int| 0 <= k < b.len() implies t.spec_bytes()[k] == b[k] by {
        assert(t@[k] as u8 == t.spec_bytes()[k]);
        assert(t@[k] == b[k] as char);
    }
    assert(t.spec_bytes() =~= b);
}

/// Decoding the generated text always succeeds and yields `0..count`.
pub proof fn lemma_generated_text_decodes(t: &str, count: nat)
    requires
        count <= 0x1_0000_0000,
        t@ == ascii_chars(encode_json(count)),
    ensures
        parse_json_u32s(t.spec_bytes()) == Some(Seq::new(count, |k: int| k as u32)),
{
    lemma_encode_json_ascii(count);
    lemma_ascii_chars_bytes(t, encode_json(count));
    lemma_round_trip(count);
}

} // verus!
