use collatz_finder::evaluation::RangeError;
use collatz_finder::output::Output;
use collatz_finder::problem::Problem;

fn brute_force(start: u128) -> i16 {
    let mut n: u128 = start;
    let mut steps: i16 = 0;
    while n != 1 {
        n = if n % 2 == 0 { n / 2 } else { 3 * n + 1 };
        steps += 1;
    }
    steps
}

const NONE: Output = Output { start: 0, count: 0 };

#[test]
fn below_the_cache_bound_evaluation_is_the_cache_entry() {
    let problem: Problem = Problem::generate(8, 2).unwrap();
    for n in 1..problem.cache_size {
        let expected: i16 = brute_force(n as u128);
        assert_eq!(problem.cache[n], expected);
        assert_eq!(problem.evaluate(n as i128, NONE, 0), Ok(Some(expected)));
        // Neither the best known candidate nor the target matters there.
        let best: Output = Output { start: i128::MAX, count: 0 };
        assert_eq!(problem.evaluate(n as i128, best, i16::MAX), Ok(Some(expected)));
    }
}

#[test]
fn zero_counts_as_zero() {
    let problem: Problem = Problem::generate(4, 0).unwrap();
    assert_eq!(problem.evaluate(0, NONE, 20), Ok(Some(0)));
}

#[test]
fn above_the_cache_bound_evaluation_is_brute_force() {
    let problem: Problem = Problem::generate(4, 0).unwrap();
    for n in 16u128..20_000 {
        assert_eq!(problem.evaluate(n as i128, NONE, 0), Ok(Some(brute_force(n))), "start {}", n);
    }
}

#[test]
fn known_long_chains() {
    let problem: Problem = Problem::generate(10, 1).unwrap();
    assert_eq!(problem.evaluate(27, NONE, 20), Ok(Some(111)));
    assert_eq!(problem.evaluate(837_799, NONE, 20), Ok(Some(524)));
    assert_eq!(problem.evaluate(63_728_127, NONE, 0), Ok(Some(949)));
    assert_eq!(problem.evaluate((1i128 << 100) + 1, NONE, 0), Ok(Some(643)));
}

#[test]
fn evaluation_does_not_depend_on_the_tables() {
    let narrow: Problem = Problem::generate(3, 0).unwrap();
    let wide: Problem = Problem::generate(12, 2).unwrap();
    let mut n: i128 = 1;
    while n < 1i128 << 90 {
        assert_eq!(narrow.evaluate(n, NONE, 0), wide.evaluate(n, NONE, 0), "start {}", n);
        assert_eq!(narrow.evaluate(n + 7, NONE, 0), wide.evaluate(n + 7, NONE, 0));
        n *= 3;
    }
}

#[test]
fn candidate_is_given_up_below_the_best_start() {
    let problem: Problem = Problem::generate(4, 0).unwrap();
    // 27 jumps to 47 in 7 steps: above the cache, below 1000, and 7 + 5 <= 100.
    let best: Output = Output { start: 1000, count: 5 };
    assert_eq!(problem.evaluate(27, best, 100), Ok(None));
    assert_eq!(problem.evaluate(97, best, 100), Ok(None));
    // With the target within reach the chain is followed to its end.
    assert_eq!(problem.evaluate(27, best, 11), Ok(Some(111)));
    // So it is where the best start is not above the chain.
    let low: Output = Output { start: 47, count: 5 };
    assert_eq!(problem.evaluate(27, low, 100), Ok(Some(111)));
    assert_eq!(problem.evaluate(97, NONE, 100), Ok(Some(118)));
}

#[test]
fn giving_up_needs_the_count_to_stay_within_the_target() {
    let problem: Problem = Problem::generate(4, 0).unwrap();
    let best: Output = Output { start: 1000, count: 5 };
    // 7 + 5 = 12 is the first sum: a target of 12 gives up, one of 11 does not at that jump.
    assert_eq!(problem.evaluate(27, best, 12), Ok(None));
    assert_eq!(problem.evaluate(27, best, 11), Ok(Some(111)));
}

#[test]
fn jump_out_of_range_is_an_error() {
    let problem: Problem = Problem::generate(4, 0).unwrap();
    assert_eq!(problem.evaluate(i128::MAX, NONE, 20), Err(RangeError::Start));
    assert_eq!(problem.evaluate(i128::MAX - 16, NONE, 20), Err(RangeError::Start));
}

#[test]
fn largest_power_of_two_is_in_range() {
    let problem: Problem = Problem::generate(4, 0).unwrap();
    assert_eq!(problem.evaluate(1i128 << 126, NONE, 20), Ok(Some(126)));
}

#[test]
fn nothing_above_the_target_is_given_up_below_a_record() {
    // No start below 871 has a chain longer than its 178 steps.
    let problem: Problem = Problem::generate(4, 0).unwrap();
    let record: Output = Output { start: 871, count: 178 };
    let mut given_up: u32 = 0;
    for target in [180i16, 200, 250] {
        for n in 872u128..5000 {
            match problem.evaluate(n as i128, record, target) {
                Ok(None) => {
                    given_up += 1;
                    assert!(brute_force(n) <= target, "start {}", n);
                }
                counted => assert_eq!(counted, Ok(Some(brute_force(n)))),
            }
        }
    }
    assert_eq!(given_up, 6921);
}
