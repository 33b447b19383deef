//! The driver: encode once, then per iteration copy the text, decode it,
//! copy the sequence, and sum it.  The repeated copies and re-parses are the
//! workload under study and are kept deliberately.

use crate::aggregate::{sum_numbers, triangular};
use crate::codec::{ascii_chars, generate_json, process_json, ParseError};
use crate::grammar::encode_json;
use crate::laws::{lemma_generated_text_decodes, lemma_sum_of_range};
use vstd::prelude::*;
use vstd::slice::slice_to_vec;
use vstd::string::StringSliceAdditionalSpecFns;

verus! {

/// Runs the whole benchmark: builds the text for the integers `0..count`
/// once, then for each of the `iterations` rounds takes a fresh copy of the
/// text, decodes it, takes a fresh copy of the decoded sequence, and sums
/// that copy.  The generated text always decodes, so the run always succeeds
/// and every round computes the same sum: the triangular number of `count`.
pub fn run(count: usize, iterations: usize) -> (r: Result<u64, ParseError>)
    requires
        count <= 0x1_0000_0000,
        iterations >= 1,
    ensures
        r is Ok,
        r->Ok_0 as int == triangular(count as nat),
{
    let text = generate_json(count);
    let mut result: u64 = 0;
    for i in 0..iterations
        invariant
            text@ == ascii_chars(encode_json(count as nat)),
            count <= 0x1_0000_0000,
            i >= 1 ==> result as int == triangular(count as nat),
    {
        let data = text.clone();
        let slice = data.as_str();
        proof {
            lemma_generated_text_decodes(slice, count as nat);
        }
        let numbers = match process_json(slice) {
            Ok(v) => v,
            Err(e) => {
                proof {
                    assert(false);
                }
                return Err(e);
            },
        };
        proof {
            assert(numbers@ =~= Seq::new(count as nat, |k: int| k as u32));
            lemma_sum_of_range(count as nat);
        }
        let numbers_clone = slice_to_vec(numbers.as_slice());
        result = sum_numbers(numbers_clone.as_slice());
    }
    Ok(result)
}

} // verus!
