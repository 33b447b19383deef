use json_sum_bench::aggregate::sum_numbers;
use json_sum_bench::codec::{decode, encode, generate_json, process_json, ParseError};

#[test]
fn encode_zero_is_empty_brackets() {
    assert_eq!(generate_json(0), "[]");
    assert_eq!(encode(0), b"[]".to_vec());
}

#[test]
fn decode_empty_brackets_is_empty_sequence() {
    assert_eq!(decode(b"[]"), Ok(Vec::new()));
}

#[test]
fn sum_of_empty_sequence_is_zero() {
    assert_eq!(sum_numbers(&[]), 0);
}

#[test]
fn encode_three_concrete() {
    assert_eq!(generate_json(3), "[0,1,2]");
    assert_eq!(encode(3), b"[0,1,2]".to_vec());
}

#[test]
fn decode_three_concrete() {
    assert_eq!(decode(b"[0,1,2]"), Ok(vec![0, 1, 2]));
    assert_eq!(process_json("[0,1,2]"), Ok(vec![0, 1, 2]));
}

#[test]
fn sum_three_concrete() {
    assert_eq!(sum_numbers(&[0, 1, 2]), 3);
}

#[test]
fn round_trip_small_counts() {
    for count in [0usize, 1, 2, 9, 10, 11, 99, 100, 101, 1000] {
        let text = encode(count);
        let numbers = decode(&text).expect("generated text must decode");
        let expected: Vec<u32> = (0..count as u32).collect();
        assert_eq!(numbers, expected);
    }
}

#[test]
fn round_trip_through_strings() {
    for count in [0usize, 1, 7, 256] {
        let text = generate_json(count);
        let numbers = process_json(&text).expect("generated text must decode");
        let expected: Vec<u32> = (0..count as u32).collect();
        assert_eq!(numbers, expected);
    }
}

#[test]
fn decode_is_deterministic() {
    let text = b"[5,4,3]";
    let first = decode(text);
    let second = decode(text);
    let third = decode(text);
    assert_eq!(first, second);
    assert_eq!(second, third);
    assert_eq!(first, Ok(vec![5, 4, 3]));
}

#[test]
fn sum_matches_triangular_numbers() {
    for count in [0usize, 1, 2, 3, 10, 100, 1000] {
        let numbers = decode(&encode(count)).expect("generated text must decode");
        let total = sum_numbers(&numbers);
        assert_eq!(total, (count as u64) * (count as u64 - u64::from(count > 0)) / 2);
    }
}

#[test]
fn sum_of_ten_thousand() {
    let numbers = decode(&encode(10_000)).expect("generated text must decode");
    assert_eq!(sum_numbers(&numbers), 49_995_000);
}

#[test]
fn rejects_missing_closing_bracket() {
    assert_eq!(decode(b"[1,2,"), Err(ParseError));
}

#[test]
fn rejects_double_comma() {
    assert_eq!(decode(b"[1,,2]"), Err(ParseError));
}

#[test]
fn rejects_missing_comma() {
    assert_eq!(decode(b"[1 2]"), Err(ParseError));
}

#[test]
fn rejects_value_past_u32_max() {
    assert_eq!(decode(b"[4294967296]"), Err(ParseError));
}

#[test]
fn accepts_u32_max() {
    assert_eq!(decode(b"[4294967295]"), Ok(vec![u32::MAX]));
}

#[test]
fn rejects_assorted_malformed_text() {
    for bad in [
        &b""[..],
        b"[",
        b"]",
        b"1,2",
        b"[1,2]x",
        b"x[1]",
        b"[+1]",
        b"[-1]",
        b"[1.5]",
        b"[1e3]",
        b"[01]",
        b"[00]",
        b"[,1]",
        b"[1,]",
        b"[[1]]",
        b"[999999999999999999999999]",
    ] {
        assert_eq!(decode(bad), Err(ParseError), "{:?}", bad);
    }
}

#[test]
fn accepts_whitespace_between_tokens() {
    assert_eq!(decode(b"  [ 1 , 2 , 3 ]  "), Ok(vec![1, 2, 3]));
    assert_eq!(decode(b"\t[10,\n20]\r\n"), Ok(vec![10, 20]));
    assert_eq!(decode(b" [ ] "), Ok(Vec::new()));
    assert_eq!(process_json(" [0, 1]"), Ok(vec![0, 1]));
}

#[test]
fn rejects_whitespace_inside_a_literal() {
    assert_eq!(decode(b"[1 0]"), Err(ParseError));
}

#[test]
fn single_zero_decodes() {
    assert_eq!(decode(b"[0]"), Ok(vec![0]));
}

#[test]
fn sum_widens_before_adding() {
    let big = [u32::MAX, u32::MAX, u32::MAX];
    assert_eq!(sum_numbers(&big), 3 * (u32::MAX as u64));
}

#[test]
fn decode_keeps_textual_order() {
    assert_eq!(decode(b"[3,1,2]"), Ok(vec![3, 1, 2]));
}
