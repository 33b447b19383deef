//! The encoder and the decoder for the wire format described in `grammar`.

use crate::grammar::{
    dec_digits, digits_end, digits_value, encode_json, encode_range, is_digit, is_ws,
    lemma_dec_digits_form, lemma_digits_end_bounds, lemma_digits_value_monotone,
    lemma_encode_json_ascii, lemma_encode_range_snoc, opt_concat, parse_items, parse_json_u32s,
    skip_ws,
};
use vstd::prelude::*;
use vstd::string::StringSliceAdditionalSpecFns;

verus! {

/// The single error kind: the text does not conform to the array-of-integers
/// grammar, or a literal exceeds the unsigned 32-bit range.
#[derive(Clone, Copy, PartialEq, Eq, Structural, Debug)]
pub struct ParseError;

/// The characters with the code points of the given bytes; meaningful for
/// bytes below 128.
pub open spec fn ascii_chars(s: Seq<u8>) -> Seq<char> {
    s.map_values(|b: u8| b as char)
}

/// Whether `b` is whitespace, decided in code.
fn ws_byte(b: u8) -> (r: bool)
    ensures
        r == is_ws(b),
{
    b == 32 || b == 9 || b == 10 || b == 13
}

/// Whether `b` is a decimal digit, decided in code.
fn digit_byte(b: u8) -> (r: bool)
    ensures
        r == is_digit(b),
{
    48 <= b && b <= 57
}

/// Walks past whitespace, returning the first position at or after `i` that
/// does not hold any.
fn skip_ws_exec(s: &[u8], i: usize) -> (j: usize)
    requires
        i <= s@.len(),
    ensures
        j == skip_ws(s@, i as int),
        i <= j <= s@.len(),
        j < s@.len() ==> !is_ws(s@[j as int]),
{
    let n = s.len();
    let mut j = i;
    while j < n && ws_byte(s[j])
        invariant
            i <= j <= n,
            n == s@.len(),
            skip_ws(s@, i as int) == skip_ws(s@, j as int),
        decreases n - j,
    {
        j += 1;
    }
    j
}

/// Reads one decimal literal starting at `i`: `Some` carries its value and
/// the position just past its digits; `None` means there is no digit at `i`,
/// a leading zero, or a value beyond the unsigned 32-bit range.
fn read_u32(s: &[u8], i: usize) -> (r: Option<(u32, usize)>)
    requires
        i <= s@.len(),
    ensures
        ({
            let e = digits_end(s@, i as int);
            match r {
                Some(p) => {
                    &&& p.1 == e
                    &&& i < e <= s@.len()
                    &&& !(s@[i as int] == 48 && e > i + 1)
                    &&& digits_value(s@, i as int, e) == p.0 as int
                },
                None => e == i || (s@[i as int] == 48 && e > i + 1) || digits_value(
                    s@,
                    i as int,
                    e,
                ) > u32::MAX,
            }
        }),
{
    let n = s.len();
    if i >= n || !digit_byte(s[i]) {
        return None;
    }
    if s[i] == 48 {
        if i + 1 < n && digit_byte(s[i + 1]) {
            proof {
                lemma_digits_end_bounds(s@, i + 2);
                assert(digits_end(s@, i as int) == digits_end(s@, i + 1));
                assert(digits_end(s@, i + 1) == digits_end(s@, i + 2));
            }
            return None;
        }
        proof {
            assert(digits_end(s@, i + 1) == i + 1);
            assert(digits_end(s@, i as int) == i + 1);
            assert(digits_value(s@, i as int, i as int) == 0);
            assert(digits_value(s@, i as int, i + 1) == 0);
        }
        return Some((0, i + 1));
    }
    let mut j = i;
    let mut val: u64 = 0;
    while j < n && digit_byte(s[j])
        invariant
            i <= j <= n,
            n == s@.len(),
            digits_end(s@, i as int) == digits_end(s@, j as int),
            forall|k: int| i <= k < j ==> is_digit(#[trigger] s@[k]),
            val as int == digits_value(s@, i as int, j as int),
            val <= u32::MAX as u64,
        decreases n - j,
    {
        let d = s[j] - 48;
        val = val * 10 + d as u64;
        proof {
            assert(digits_end(s@, j as int) == digits_end(s@, j + 1));
            assert(digits_value(s@, i as int, j + 1) == digits_value(s@, i as int, j as int) * 10
                + (s@[j as int] - 48));
        }
        j += 1;
        if val > u32::MAX as u64 {
            proof {
                let e = digits_end(s@, i as int);
                lemma_digits_end_bounds(s@, j as int);
                assert(forall|k: int| i <= k < e ==> is_digit(#[trigger] s@[k]));
                lemma_digits_value_monotone(s@, i as int, j as int, e);
            }
            return None;
        }
    }
    proof {
        assert(digits_end(s@, j as int) == j);
        assert(i < digits_end(s@, i as int));
    }
    Some((val as u32, j))
}

/// Decodes a bracketed, comma-separated list of decimal integer literals.
///
/// Succeeds exactly when the bytes conform to the grammar, returning the
/// integers in the order they appear in the text; fails with `ParseError`
/// exactly when they do not.
pub fn decode(text: &[u8]) -> (r: Result<Vec<u32>, ParseError>)
    ensures
        match r {
            Ok(v) => parse_json_u32s(text@) == Some(v@),
            Err(_) => parse_json_u32s(text@) is None,
        },
{
    let n = text.len();
    let start = skip_ws_exec(text, 0);
    if start >= n || text[start] != 91 {
        return Err(ParseError);
    }
    let after_open = start + 1;
    let j = skip_ws_exec(text, after_open);
    if j < n && text[j] == 93 {
        let k = skip_ws_exec(text, j + 1);
        if k == n {
            let empty: Vec<u32> = Vec::new();
            proof {
                assert(parse_json_u32s(text@) == Some(Seq::<u32>::empty()));
                assert(empty@ =~= Seq::<u32>::empty());
            }
            return Ok(empty);
        }
        return Err(ParseError);
    }
    let mut acc: Vec<u32> = Vec::new();
    let mut cur = after_open;
    proof {
        assert(parse_json_u32s(text@) == parse_items(text@, after_open as int));
        if let Some(t) = parse_items(text@, after_open as int) {
            assert(Seq::<u32>::empty() + t =~= t);
        }
    }
    loop
        invariant
            cur <= n,
            n == text@.len(),
            parse_json_u32s(text@) == opt_concat(acc@, parse_items(text@, cur as int)),
        decreases n - cur,
    {
        let ghost items_here = parse_items(text@, cur as int);
        let j2 = skip_ws_exec(text, cur);
        match read_u32(text, j2) {
            None => {
                proof {
                    assert(items_here is None);
                }
                return Err(ParseError);
            },
            Some((v, e)) => {
                let k = skip_ws_exec(text, e);
                if k < n && text[k] == 44 {
                    let ghost acc0 = acc@;
                    acc.push(v);
                    proof {
                        assert(items_here == (match parse_items(text@, k + 1) {
                            Some(rest) => Some(seq![v] + rest),
                            None => None,
                        }));
                        if let Some(rest) = parse_items(text@, k + 1) {
                            assert(acc0 + (seq![v] + rest) =~= acc@ + rest);
                        }
                    }
                    cur = k + 1;
                } else if k < n && text[k] == 93 {
                    let fin = skip_ws_exec(text, k + 1);
                    if fin == n {
                        let ghost acc0 = acc@;
                        acc.push(v);
                        proof {
                            assert(items_here == Some(seq![v]));
                            assert(acc0 + seq![v] =~= acc@);
                        }
                        return Ok(acc);
                    }
                    return Err(ParseError);
                } else {
                    return Err(ParseError);
                }
            },
        }
    }
}

/// Interprets `data` as the array-of-integers grammar, over its UTF-8 bytes.
pub fn process_json(data: &str) -> (r: Result<Vec<u32>, ParseError>)
    ensures
        match r {
            Ok(v) => parse_json_u32s(data.spec_bytes()) == Some(v@),
            Err(_) => parse_json_u32s(data.spec_bytes()) is None,
        },
{
    decode(data.as_bytes())
}

/// Appends the decimal digits of `n`, most significant first.
fn push_decimal(out: &mut Vec<u8>, n: usize)
    ensures
        final(out)@ == old(out)@ + dec_digits(n as nat),
    decreases n,
{
    if n < 10 {
        out.push(48 + n as u8);
        proof {
            assert(out@ =~= old(out)@ + dec_digits(n as nat));
        }
    } else {
        push_decimal(out, n / 10);
        out.push(48 + (n % 10) as u8);
        proof {
            assert(out@ =~= old(out)@ + dec_digits(n as nat));
        }
    }
}

/// Builds the encoded text for the integers `0..count`, as bytes.
pub fn encode(count: usize) -> (out: Vec<u8>)
    ensures
        out@ == encode_json(count as nat),
{
    let mut out: Vec<u8> = Vec::new();
    out.push(91);
    proof {
        assert(out@ =~= seq![91u8] + encode_range(0, 0));
    }
    for i in 0..count
        invariant
            out@ == seq![91u8] + encode_range(0, i as nat),
    {
        if i > 0 {
            out.push(44);
        }
        push_decimal(&mut out, i);
        proof {
            lemma_encode_range_snoc(0, i as nat);
            assert(out@ =~= seq![91u8] + encode_range(0, (i + 1) as nat));
        }
    }
    out.push(93);
    proof {
        assert(out@ =~= encode_json(count as nat));
    }
    out
}

/// Relies on String::from_utf8: bytes below 128 are valid UTF-8 and decode
/// to the characters with the same code points.
#[verifier::external_body]
fn string_from_ascii(bytes: Vec<u8>) -> (r: String)
    requires
        forall|k: int| 0 <= k < bytes@.len() ==> bytes@[k] < 128,
    ensures
        r@ == ascii_chars(bytes@),
{
    match String::from_utf8(bytes) {
        Ok(s) => s,
        Err(_) => String::new(),
    }
}

/// Produces the text `[0,1,...,count-1]`: the decimal form of each integer
/// below `count` in ascending order, single commas between elements,
/// brackets around, and no whitespace.  For a count of zero the text is
/// `[]`.
pub fn generate_json(count: usize) -> (r: String)
    ensures
        r@ == ascii_chars(encode_json(count as nat)),
{
    let bytes = encode(count);
    proof {
        lemma_encode_json_ascii(count as nat);
    }
    string_from_ascii(bytes)
}

} // verus!
