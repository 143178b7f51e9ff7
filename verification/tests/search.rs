use collatz_finder::aggregate::{Action, Aggregator};
use collatz_finder::output::{Output, ThreadOutput};
use collatz_finder::problem::Problem;
use collatz_finder::search::block_range;

#[test]
fn blocks_lie_side_by_side() {
    assert_eq!(block_range(0, 1_000_000_000), (0, 1_000_000_000));
    assert_eq!(block_range(1, 1_000_000_000), (1_000_000_000, 2_000_000_000));
    assert_eq!(block_range(7, 10), (70, 80));
    assert_eq!(block_range(5, 0), (0, 0));
    assert_eq!(block_range(-2, 10), (-20, -10));
    assert_eq!(block_range(3, -10), (-30, -40));
}

#[test]
fn blocks_beyond_sixty_four_bits() {
    let big: i128 = i64::MAX as i128;
    assert_eq!(block_range(i64::MAX, i64::MAX), (big * big, (big + 1) * big));
    let small: i128 = i64::MIN as i128;
    assert_eq!(block_range(i64::MIN, i64::MIN), (small * small, (small + 1) * small));
    assert_eq!(block_range(i64::MAX, i64::MIN), (big * small, (big + 1) * small));
}

#[test]
fn worker_labels_the_result_with_its_block() {
    let problem: Problem = Problem::generate(4, 0).unwrap();
    let seed: Output = Output { start: 0, count: 0 };
    assert_eq!(
        problem.solve_block(20, 10, 2, seed),
        Ok(ThreadOutput { output: Output { start: 27, count: 111 }, block: 2 })
    );
    assert_eq!(
        problem.solve_block(20, 10, 0, seed),
        Ok(ThreadOutput { output: Output { start: 6, count: 8 }, block: 0 })
    );
    assert_eq!(problem.solve_block(20, 10, 2, seed).map(|m| m.output), problem._solve(20, 20, 30, seed));
}

#[test]
fn search_in_order_finds_the_known_answers() {
    let problem: Problem = Problem::generate(10, 0).unwrap();
    assert_eq!(problem.solve_in_order(0, 1000, 1000), Ok(Some(Output { start: 2, count: 1 })));
    assert_eq!(problem.solve_in_order(3, 1000, 1000), Ok(Some(Output { start: 3, count: 7 })));
    assert_eq!(problem.solve_in_order(20, 1000, 1000), Ok(Some(Output { start: 27, count: 111 })));
    assert_eq!(problem.solve_in_order(150, 1000, 1000), Ok(Some(Output { start: 1071, count: 168 })));
    assert_eq!(problem.solve_in_order(200, 100, 100), Ok(Some(Output { start: 2463, count: 208 })));
    assert_eq!(problem.solve_in_order(300, 500, 1000), Ok(Some(Output { start: 34239, count: 310 })));
}

#[test]
fn window_and_cache_do_not_change_the_answer() {
    let narrow: Problem = Problem::generate(10, 0).unwrap();
    let wide: Problem = Problem::generate(20, 0).unwrap();
    let cached: Problem = Problem::generate(10, 4).unwrap();
    for target in [0i16, 20, 111, 200, 250] {
        let found = narrow.solve_in_order(target, 1000, 1000);
        assert!(matches!(found, Ok(Some(_))));
        assert_eq!(wide.solve_in_order(target, 1000, 1000), found);
        assert_eq!(cached.solve_in_order(target, 1000, 1000), found);
    }
}

#[test]
fn search_runs_out_of_blocks() {
    let problem: Problem = Problem::generate(10, 0).unwrap();
    assert_eq!(problem.solve_in_order(200, 100, 24), Ok(None));
    assert_eq!(problem.solve_in_order(200, 100, 25), Ok(Some(Output { start: 2463, count: 208 })));
    assert_eq!(problem.solve_in_order(200, 100, 0), Ok(None));
    assert_eq!(problem.solve_in_order(200, 100, -3), Ok(None));
    assert_eq!(problem.solve_in_order(0, 0, 50), Ok(None));
}

#[test]
fn repeated_searches_agree() {
    let problem: Problem = Problem::generate(12, 0).unwrap();
    let first = problem.solve_in_order(250, 777, 1000);
    assert!(matches!(first, Ok(Some(_))));
    for _ in 0..3 {
        assert_eq!(problem.solve_in_order(250, 777, 1000), first);
    }
}

#[test]
fn blocks_finished_out_of_order_give_the_answer_of_the_search_in_order() {
    let problem: Problem = Problem::generate(10, 0).unwrap();
    let target: i16 = 200;
    let block_size: i64 = 100;
    let expected = problem.solve_in_order(target, block_size, 100).unwrap();
    assert_eq!(expected, Some(Output { start: 2463, count: 208 }));
    // Workers that saw no best candidate yet, finishing three blocks at a time in reverse.
    let seed: Output = Output { start: 0, count: 0 };
    let mut aggregator: Aggregator = Aggregator::new(target);
    let mut answer: Option<Output> = None;
    let mut first: i64 = 0;
    while answer.is_none() && first < 100 {
        for block in [first + 2, first + 1, first] {
            let message: ThreadOutput = problem.solve_block(target, block_size, block, seed).unwrap();
            if let Action::Finish(output) = aggregator.accept(message) {
                answer = Some(output);
                break;
            }
        }
        first += 3;
    }
    assert_eq!(answer, expected);
}

#[test]
fn narrow_window_gives_up_where_a_wide_one_does_not() {
    // Where the jumps land decides which starts are given up: 1161 stops
    // after 181 steps, and a window of four bits passes it by.
    let narrow: Problem = Problem::generate(4, 0).unwrap();
    let wide: Problem = Problem::generate(6, 0).unwrap();
    assert_eq!(narrow.solve_in_order(170, 1000, 40), Ok(Some(Output { start: 1263, count: 176 })));
    assert_eq!(wide.solve_in_order(170, 1000, 40), Ok(Some(Output { start: 1161, count: 181 })));
}
