//! The step count of one start: jumps through the table while the chain is
//! above the step cache, then one look into the cache.

use vstd::prelude::*;
use vstd::arithmetic::div_mod::{lemma_fundamental_div_mod, lemma_mod_bound, lemma_div_pos_is_pos};
use vstd::arithmetic::power2::{pow2, lemma_pow2_pos};
use vstd::bits::lemma_u128_shr_is_div;
use crate::collatz::{
    delay,
    half_iterate,
    has_delay,
    jump_cost,
    lemma_delay_is,
    lemma_half_iterate_positive,
    lemma_half_iterate_split,
    lemma_jump_delay,
    odd_steps,
    pow3,
    stops_in,
};
use crate::output::Output;
use crate::problem::Problem;

verus! {

/// What stops a search: a value that a start or a count cannot hold.
#[derive(Debug, Clone, Copy, PartialEq, Eq, Structural)]
pub enum RangeError {
    /// A jump leads above the largest start.
    Start,
    /// A chain is longer than the largest count.
    Count,
}

/// What the step cache holds for `n`: its total stopping time, and 0 for 0,
/// which has none.
pub open spec fn cached_delay(n: int) -> int {
    if n >= 1 {
        delay(n) as int
    } else {
        0
    }
}

/// The candidate is given up after a jump when the chain has fallen below
/// the best known start while still above the cache, and even a rest as
/// long as the best known chain would not take it past the target.
pub open spec fn abandons(bound: int, next: int, steps: int, best: Output, target: int) -> bool {
    next >= bound && next < best.start && steps + best.count <= target
}

/// The evaluation of a chain that stands at `current` after `count` steps,
/// for a window of `k` bits and a step cache of `bound` entries: the total
/// count, `None` where the candidate is given up, or the value that went
/// out of range first.
pub open spec fn evaluation_from(
    k: nat,
    bound: int,
    current: int,
    count: int,
    best: Output,
    target: int,
) -> Result<Option<i16>, RangeError>
    decreases i16::MAX - count,
    when k >= 1
{
    if current < bound {
        let total = count + cached_delay(current);
        if total > i16::MAX {
            Err(RangeError::Count)
        } else {
            Ok(Some(total as i16))
        }
    } else {
        let next = half_iterate(current, k);
        let steps = count + jump_cost(current, k);
        if next > i128::MAX {
            Err(RangeError::Start)
        } else if steps > i16::MAX {
            Err(RangeError::Count)
        } else if abandons(bound, next, steps, best, target) {
            Ok(None)
        } else {
            evaluation_from(k, bound, next, steps, best, target)
        }
    }
}

/// The evaluation of the start `n`.
pub open spec fn evaluation(k: nat, bound: int, n: int, best: Output, target: int) -> Result<
    Option<i16>,
    RangeError,
> {
    evaluation_from(k, bound, n, 0, best, target)
}

/// Every number from 1 up to the cache bound has a total stopping time.
pub open spec fn cache_covers(bound: int) -> bool {
    forall|i: int| 1 <= i < bound ==> #[trigger] has_delay(i)
}

/// A count that an evaluation arrives at is the number of steps in which
/// the chain stops: jumps and cache together count what single steps would.
pub proof fn lemma_evaluation_counts_steps(
    k: nat,
    bound: int,
    current: int,
    count: int,
    best: Output,
    target: int,
)
    requires
        k >= 1,
        bound >= pow2(k),
        cache_covers(bound),
        current >= 1,
        count >= 0,
        evaluation_from(k, bound, current, count, best, target) matches Ok(Some(_)),
    ensures
        ({
            let total = evaluation_from(k, bound, current, count, best, target)->Ok_0->Some_0;
            total >= count && stops_in(current, (total - count) as nat)
        }),
    decreases i16::MAX - count,
{
    let total = evaluation_from(k, bound, current, count, best, target)->Ok_0->Some_0;
    if current < bound {
        assert(has_delay(current));
    } else {
        let next = half_iterate(current, k);
        let steps = count + jump_cost(current, k);
        lemma_half_iterate_positive(current, k);
        lemma_evaluation_counts_steps(k, bound, next, steps, best, target);
        lemma_jump_delay(current, k, (total - count) as nat);
    }
}

/// Below the cache bound an evaluation is the cache entry, whatever the
/// best known candidate and the target are.
pub proof fn lemma_evaluation_below_cache_bound(
    problem: Problem,
    n: int,
    best: Output,
    target: int,
)
    requires
        problem.wf(),
        0 <= n < problem.cache_bound(),
    ensures
        evaluation(problem.window(), problem.cache_bound(), n, best, target) == Ok::<
            Option<i16>,
            RangeError,
        >(Some(problem.cache_view()[n])),
        n >= 1 ==> stops_in(n, problem.cache_view()[n] as nat),
{
    if n >= 1 {
        lemma_delay_is(n, problem.cache_view()[n] as nat);
    }
}

/// Giving a candidate up loses nothing while the best known candidate is a
/// running maximum. If no start below the best known start has a longer
/// chain than the best known, then a candidate that is given up does not
/// stop in more steps than the target.
pub proof fn lemma_abandoned_is_within_target(
    k: nat,
    bound: int,
    current: int,
    count: int,
    best: Output,
    target: int,
    total: nat,
)
    requires
        k >= 1,
        bound >= pow2(k),
        current >= 1,
        count >= 0,
        forall|m: int, s: nat| 1 <= m < best.start && stops_in(m, s) ==> s <= best.count,
        evaluation_from(k, bound, current, count, best, target) == Ok::<Option<i16>, RangeError>(
            None,
        ),
        stops_in(current, total),
    ensures
        count + total <= target,
    decreases i16::MAX - count,
{
    let next = half_iterate(current, k);
    let steps = count + jump_cost(current, k);
    lemma_half_iterate_positive(current, k);
    lemma_jump_delay(current, k, total);
    if !abandons(bound, next, steps, best, target) {
        lemma_abandoned_is_within_target(
            k,
            bound,
            next,
            steps,
            best,
            target,
            (total - jump_cost(current, k)) as nat,
        );
    }
}

impl Problem {
    /// Counts the steps of the chain from `n`. While the chain is at or
    /// above the cache bound it is advanced by one table jump at a time;
    /// below the bound the cache holds the rest. After each jump the
    /// candidate is given up (`None`) where `abandons` holds.
    pub fn evaluate(&self, n: i128, best_output: Output, target: i16) -> (counted: Result<
        Option<i16>,
        RangeError,
    >)
        requires
            self.wf(),
            n >= 0,
        ensures
            counted == evaluation(
                self.window(),
                self.cache_bound(),
                n as int,
                best_output,
                target as int,
            ),
            n >= 1 ==> (counted matches Ok(Some(count)) ==> count >= 0 && stops_in(
                n as int,
                count as nat,
            )),
    {
        let ghost k = self.iterations as nat;
        let ghost bound = self.cache_size as int;
        let ghost goal = evaluation(k, bound, n as int, best_output, target as int);
        let mut current: i128 = n;
        let mut count: i16 = 0;
        while current >= self.cache_size as i128
            invariant
                self.wf(),
                k == self.iterations,
                bound == self.cache_size,
                0 <= current,
                0 <= count,
                goal == evaluation(k, bound, n as int, best_output, target as int),
                evaluation_from(k, bound, current as int, count as int, best_output, target as int)
                    == goal,
            decreases i16::MAX - count,
        {
            let a: i128 = ((current as u128) >> (self.iterations as u128)) as i128;
            proof {
                let p = pow2(k) as int;
                lemma_pow2_pos(k);
                lemma_u128_shr_is_div(current as u128, self.iterations as u128);
                lemma_fundamental_div_mod(current as int, p);
                lemma_mod_bound(current as int, p);
                lemma_div_pos_is_pos(current as int, p);
                assert(a == current as int / p);
                assert(a * p == p * a) by (nonlinear_arith);
            }
            let b: usize = (current - a * (self.pow as i128)) as usize;
            proof {
                assert(0 <= b < pow2(k));
                assert(current == a * pow2(k) + b);
                lemma_half_iterate_split(a as int, b as int, k);
                lemma_half_iterate_positive(b as int, k);
                lemma_half_iterate_positive(current as int, k);
                assert(self.odds@[b as int] == odd_steps(b as int, k));
                assert(self.c@[b as int] == pow3(odd_steps(b as int, k)));
                assert(half_iterate(current as int, k) == a * self.c@[b as int] + self.d@[b as int]);
                assert(jump_cost(current as int, k) == k + self.odds@[b as int]);
            }
            let product = match a.checked_mul(self.c[b] as i128) {
                Some(product) => product,
                None => {
                    return Err(RangeError::Start);
                },
            };
            let next = match product.checked_add(self.d[b] as i128) {
                Some(next) => next,
                None => {
                    return Err(RangeError::Start);
                },
            };
            let steps: i32 = count as i32 + self.iterations as i32 + self.odds[b] as i32;
            if steps > i16::MAX as i32 {
                return Err(RangeError::Count);
            }
            current = next;
            count = steps as i16;
            if current < best_output.start && steps + best_output.count as i32 <= target as i32
                && current >= self.cache_size as i128 {
                return Ok(None);
            }
        }
        let rest = self.cache[current as usize];
        proof {
            if current >= 1 {
                lemma_delay_is(current as int, rest as nat);
            }
        }
        if rest > i16::MAX - count {
            return Err(RangeError::Count);
        }
        proof {
            if n >= 1 {
                assert(cache_covers(bound)) by {
                    assert forall|i: int| 1 <= i < bound implies #[trigger] has_delay(i) by {
                        lemma_delay_is(i, self.cache@[i] as nat);
                    }
                }
                lemma_evaluation_counts_steps(k, bound, n as int, 0, best_output, target as int);
            }
        }
        Ok(Some(count + rest))
    }
}

} // verus!
