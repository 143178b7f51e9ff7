//! The scan of one block: which starts it looks at, in which order, and
//! what it keeps of them.

use vstd::prelude::*;
use vstd::arithmetic::power2::{pow2, lemma_pow2_pos};
use crate::collatz::{has_delay, lemma_delay_is, stops_in};
use crate::evaluation::{cache_covers, evaluation, lemma_evaluation_counts_steps, RangeError};
use crate::output::Output;
use crate::problem::Problem;

verus! {

/// The starts that a scan looks at once it has seen a chain of `peak`
/// steps and has set its limit for even starts to `limit`. No start that
/// leaves remainder 1 on division by 3 is one. An even start is one from the
/// limit on. An odd start is one where it is a multiple of 3, and, unless a
/// chain three steps longer than the peak would pass the target, does not
/// leave remainder 1 on division by 4.
pub open spec fn is_candidate(m: int, peak: int, limit: int, target: int) -> bool {
    if m % 2 == 0 {
        m % 3 != 1 && m >= limit
    } else {
        m % 6 == 3 && (peak + 3 > target || m % 4 != 1)
    }
}

/// `m` is the first candidate after `n`.
pub open spec fn is_next_candidate(n: int, m: int, peak: int, limit: int, target: int) -> bool {
    &&& n < m
    &&& is_candidate(m, peak, limit, target)
    &&& forall|j: int| n < j < m ==> !is_candidate(j, peak, limit, target)
}

/// The first candidate after `n`.
pub open spec fn next_candidate(n: int, peak: int, limit: int, target: int) -> int {
    choose|m: int| is_next_candidate(n, m, peak, limit, target)
}

/// Where the scan of a block that begins at `min` starts: at `min`, or one
/// further where `min` leaves remainder 1 on division by 3.
pub open spec fn first_candidate(min: int) -> int {
    if min % 3 == 1 {
        min + 1
    } else {
        min
    }
}

/// Below any candidate `m` after `n` there is a first one.
proof fn lemma_first_candidate_below(n: int, m: int, peak: int, limit: int, target: int)
    requires
        n < m,
        is_candidate(m, peak, limit, target),
    ensures
        exists|f: int| is_next_candidate(n, f, peak, limit, target),
    decreases m - n,
{
    if exists|j: int| n < j < m && is_candidate(j, peak, limit, target) {
        let j = choose|j: int| n < j < m && is_candidate(j, peak, limit, target);
        lemma_first_candidate_below(n, j, peak, limit, target);
    } else {
        assert(is_next_candidate(n, m, peak, limit, target));
    }
}

/// After every start there is a next candidate, and only one.
pub proof fn lemma_next_candidate(n: int, peak: int, limit: int, target: int)
    ensures
        is_next_candidate(n, next_candidate(n, peak, limit, target), peak, limit, target),
        forall|m: int| #[trigger]
            is_next_candidate(n, m, peak, limit, target) ==> m == next_candidate(
                n,
                peak,
                limit,
                target,
            ),
{
    let far = if n >= limit {
        n
    } else {
        limit
    };
    let m = 6 * (if far >= 0 {
        far
    } else {
        0
    }) + 6;
    assert(is_candidate(m, peak, limit, target));
    lemma_first_candidate_below(n, m, peak, limit, target);
    let next = next_candidate(n, peak, limit, target);
    assert forall|m: int| #[trigger] is_next_candidate(n, m, peak, limit, target) implies m
        == next by {
        if m < next {
            assert(!is_candidate(m, peak, limit, target));
        } else if next < m {
            assert(!is_candidate(next, peak, limit, target));
        }
    }
}

/// The scan of the starts from `n` up to `max`, for a window of `k` bits and
/// a step cache of `bound` entries, with `best` the best candidate so far,
/// `peak` the longest chain seen in this block and `limit` the limit for
/// even starts. Each candidate is evaluated. One that is given up changes
/// nothing. A count that is at least the best count makes the start the
/// best candidate, and ends the scan where it is above the target. A count
/// above the peak becomes the peak and sets the limit to twice the start.
pub open spec fn scan_from(
    k: nat,
    bound: int,
    target: int,
    max: int,
    n: int,
    best: Output,
    peak: int,
    limit: int,
) -> Result<Output, RangeError>
    decreases
            (if n < max {
                max - n
            } else {
                0
            }),
    via scan_from_decreases
{
    if n >= max {
        Ok(best)
    } else {
        match evaluation(k, bound, n, best, target) {
            Err(e) => Err(e),
            Ok(None) => scan_from(
                k,
                bound,
                target,
                max,
                next_candidate(n, peak, limit, target),
                best,
                peak,
                limit,
            ),
            Ok(Some(count)) => {
                let here = Output { start: n as i128, count: count };
                if count >= best.count && count > target {
                    Ok(here)
                } else {
                    let best = if count >= best.count {
                        here
                    } else {
                        best
                    };
                    let limit = if count > peak {
                        2 * n
                    } else {
                        limit
                    };
                    let peak = if count > peak {
                        count as int
                    } else {
                        peak
                    };
                    scan_from(
                        k,
                        bound,
                        target,
                        max,
                        next_candidate(n, peak, limit, target),
                        best,
                        peak,
                        limit,
                    )
                }
            },
        }
    }
}

#[via_fn]
proof fn scan_from_decreases(
    k: nat,
    bound: int,
    target: int,
    max: int,
    n: int,
    best: Output,
    peak: int,
    limit: int,
) {
    lemma_next_candidate(n, peak, limit, target);
    if n < max {
        match evaluation(k, bound, n, best, target) {
            Ok(Some(count)) => {
                if count > peak {
                    lemma_next_candidate(n, count as int, 2 * n, target);
                }
            },
            _ => {},
        }
    }
}

/// The scan of the block from `min` up to `max` that starts out with the
/// best candidate `best`.
pub open spec fn scan(k: nat, bound: int, target: int, min: int, max: int, best: Output) -> Result<
    Output,
    RangeError,
> {
    scan_from(k, bound, target, max, first_candidate(min), best, 0, 0)
}

/// `output` is a start with its own count: the number of steps in which the
/// start's chain stops, and 0 for the start 0.
pub open spec fn is_counted(output: Output) -> bool {
    &&& output.start >= 0
    &&& output.count >= 0
    &&& output.start == 0 ==> output.count == 0
    &&& output.start >= 1 ==> stops_in(output.start as int, output.count as nat)
}

/// `found` is the best candidate `best` that a scan was given, or it is a
/// start from `min` up to `max` that a scan looks at, with its own count,
/// which is at least the count of `best`.
pub open spec fn comes_from(found: Output, min: int, max: int, best: Output) -> bool {
    found == best || {
        &&& min <= found.start < max
        &&& found.start % 3 != 1
        &&& found.count >= best.count
        &&& is_counted(found)
    }
}

/// What a scan ends with is never made up. It is the best candidate that
/// the scan started with, or it is a start that the scan looked at, from
/// `n` up to `max`, with its own count, which is at least the count that the
/// scan started with.
pub proof fn lemma_scan_from_is_sound(
    k: nat,
    bound: int,
    target: int,
    max: int,
    n: int,
    best: Output,
    peak: int,
    limit: int,
)
    requires
        k >= 1,
        bound >= pow2(k),
        cache_covers(bound),
        0 <= n,
        n % 3 != 1,
        max <= i128::MAX,
        scan_from(k, bound, target, max, n, best, peak, limit) is Ok,
    ensures
        ({
            let found = scan_from(k, bound, target, max, n, best, peak, limit)->Ok_0;
            comes_from(found, n, max, best)
        }),
    decreases
            (if n < max {
                max - n
            } else {
                0
            }),
{
    if n < max {
        match evaluation(k, bound, n, best, target) {
            Err(e) => {},
            Ok(None) => {
                lemma_next_candidate(n, peak, limit, target);
                let next = next_candidate(n, peak, limit, target);
                lemma_scan_from_is_sound(k, bound, target, max, next, best, peak, limit);
            },
            Ok(Some(count)) => {
                let here = Output { start: n as i128, count: count };
                if n >= 1 {
                    lemma_evaluation_counts_steps(k, bound, n, 0, best, target);
                } else {
                    lemma_pow2_pos(k);
                }
                assert(is_counted(here));
                if !(count >= best.count && count > target) {
                    let best2 = if count >= best.count {
                        here
                    } else {
                        best
                    };
                    let limit2 = if count > peak {
                        2 * n
                    } else {
                        limit
                    };
                    let peak2 = if count > peak {
                        count as int
                    } else {
                        peak
                    };
                    lemma_next_candidate(n, peak2, limit2, target);
                    let next = next_candidate(n, peak2, limit2, target);
                    lemma_scan_from_is_sound(k, bound, target, max, next, best2, peak2, limit2);
                }
            },
        }
    }
}

/// A scan's result on valid tables is the best candidate it was given, or
/// a start of the block with its own count, which is at least the count
/// it was given.
pub proof fn lemma_scan_is_sound(problem: Problem, target: int, min: int, max: int, best: Output)
    requires
        problem.wf(),
        0 <= min,
        max <= i128::MAX,
    ensures
        scan(problem.window(), problem.cache_bound(), target, min, max, best) matches Ok(found)
            ==> comes_from(found, min, max, best),
{
    let k = problem.window();
    let bound = problem.cache_bound();
    assert(cache_covers(bound)) by {
        assert forall|i: int| 1 <= i < bound implies #[trigger] has_delay(i) by {
            lemma_delay_is(i, problem.cache@[i] as nat);
        }
    }
    if scan(k, bound, target, min, max, best) is Ok {
        lemma_scan_from_is_sound(k, bound, target, max, first_candidate(min), best, 0, 0);
    }
}

impl Problem {
    /// Scans the block from `min` up to `max` and returns the best candidate
    /// it ends with: the first start whose count is above `target` and at
    /// least the best count, or else what the block leaves of `best_output`.
    pub fn _solve(&self, target: i16, min: i128, max: i128, best_output: Output) -> (found: Result<
        Output,
        RangeError,
    >)
        requires
            self.wf(),
            min >= 0,
        ensures
            found == scan(
                self.window(),
                self.cache_bound(),
                target as int,
                min as int,
                max as int,
                best_output,
            ),
            found matches Ok(output) ==> comes_from(output, min as int, max as int, best_output),
    {
        let ghost k = self.window();
        let ghost bound = self.cache_bound();
        let ghost goal = scan(k, bound, target as int, min as int, max as int, best_output);
        proof {
            lemma_scan_is_sound(*self, target as int, min as int, max as int, best_output);
        }
        let mut best = best_output;
        let mut limit: u128 = 0;
        let mut peak_count: i16 = 0;
        let mut n: i128;
        let mut double_step: bool;

        match min % 3 {
            0 => {
                double_step = true;
                n = min;
            },
            1 => {
                double_step = false;
                if min == i128::MAX {
                    return Ok(best);
                }
                n = min + 1;
            },
            _ => {
                double_step = false;
                n = min;
            },
        }

        while n < max
            invariant
                self.wf(),
                k == self.window(),
                bound == self.cache_bound(),
                0 <= n,
                goal == scan(k, bound, target as int, min as int, max as int, best_output),
                goal matches Ok(output) ==> comes_from(output, min as int, max as int, best_output),
                n < max ==> n % 3 != 1 && double_step == (n % 3 == 0),
                goal == scan_from(
                    k,
                    bound,
                    target as int,
                    max as int,
                    n as int,
                    best,
                    peak_count as int,
                    limit as int,
                ),
            decreases max - n,
        {
            match self.evaluate(n, best, target) {
                Err(e) => {
                    return Err(e);
                },
                Ok(None) => {},
                Ok(Some(count)) => {
                    if count >= best.count {
                        best = Output { start: n, count: count };
                        if count > target {
                            return Ok(best);
                        }
                    }
                    if count > peak_count {
                        peak_count = count;
                        limit = (n as u128) * 2;
                    }
                },
            }

            let ghost from = n;
            proof {
                lemma_next_candidate(from as int, peak_count as int, limit as int, target as int);
            }
            loop
                invariant_except_break
                    from <= n < max,
                    n % 3 != 1,
                    double_step == (n % 3 == 0),
                    forall|j: int|
                        from < j <= n ==> !is_candidate(
                            j,
                            peak_count as int,
                            limit as int,
                            target as int,
                        ),
                invariant
                    0 <= from < max,
                ensures
                    from < n <= max,
                    n < max ==> n % 3 != 1 && double_step == (n % 3 == 0) && is_next_candidate(
                        from as int,
                        n as int,
                        peak_count as int,
                        limit as int,
                        target as int,
                    ),
                    n >= max ==> forall|j: int|
                        from < j < max ==> !is_candidate(
                            j,
                            peak_count as int,
                            limit as int,
                            target as int,
                        ),
                decreases max - n,
            {
                let stride: i128 = if double_step {
                    2
                } else {
                    1
                };
                if max - n <= stride {
                    n = max;
                    break ;
                }
                n += stride;
                double_step = !double_step;

                if n % 2 == 0 {
                    if n as u128 >= limit {
                        break ;
                    }
                } else if double_step && (peak_count as i32 + 3 > target as i32 || n % 4 != 1) {
                    break ;
                }
            }
            proof {
                let next = next_candidate(
                    from as int,
                    peak_count as int,
                    limit as int,
                    target as int,
                );
                assert(goal == scan_from(
                    k,
                    bound,
                    target as int,
                    max as int,
                    next,
                    best,
                    peak_count as int,
                    limit as int,
                ));
                if n >= max {
                    assert(next >= max);
                }
            }
        }

        Ok(best)
    }
}

} // verus!
