use json_sum_bench::driver::run;

#[test]
fn run_single_element_single_iteration() {
    assert_eq!(run(1, 1), Ok(0));
}

#[test]
fn run_three_elements() {
    assert_eq!(run(3, 2), Ok(3));
}

#[test]
fn run_zero_elements() {
    assert_eq!(run(0, 5), Ok(0));
}

#[test]
fn run_full_benchmark() {
    assert_eq!(run(10_000, 1000), Ok(49_995_000));
}

#[test]
fn run_is_stable_across_iteration_counts() {
    let once = run(100, 1).unwrap();
    let many = run(100, 7).unwrap();
    assert_eq!(once, many);
    assert_eq!(once, 4950);
}
