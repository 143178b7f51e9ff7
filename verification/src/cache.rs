//! The step cache: total stopping times of the numbers below a bound.

use vstd::prelude::*;
use crate::collatz::{iterate, lemma_stops_in_unique, stays_within, step, stops_in};
use crate::problem::{is_step_cache, Problem};

verus! {

/// The chain from `n` arrives at 1 within as many steps as a count can
/// hold, on values that a start can hold.
pub open spec fn in_range(n: int) -> bool {
    exists|steps: nat| #[trigger]
        stops_in(n, steps) && steps <= i16::MAX && stays_within(n, steps, i128::MAX as int)
}

/// One more step at the end of a chain.
pub proof fn lemma_iterate_push(n: int, steps: nat)
    ensures
        iterate(n, steps + 1) == step(iterate(n, steps)),
    decreases steps,
{
    assert(iterate(n, steps + 1) == iterate(step(n), steps));
    if steps > 0 {
        lemma_iterate_push(step(n), (steps - 1) as nat);
    }
}

/// One more step at the end of a chain that stays within a bound.
pub proof fn lemma_stays_within_push(n: int, steps: nat, bound: int)
    ensures
        stays_within(n, steps + 1, bound) <==> (stays_within(n, steps, bound) && iterate(
            n,
            steps + 1,
        ) <= bound),
    decreases steps,
{
    assert(iterate(n, steps + 1) == iterate(step(n), steps));
    assert(stays_within(n, steps + 1, bound) == (n <= bound && stays_within(
        step(n),
        steps,
        bound,
    )));
    if steps > 0 {
        lemma_stays_within_push(step(n), (steps - 1) as nat, bound);
    } else {
        assert(stays_within(step(n), 0, bound) == (step(n) <= bound));
        assert(iterate(step(n), 0) == step(n));
    }
}

/// A chain that has not been at 1 in its first `done` steps stops after
/// `total` steps exactly when the rest of it stops after `total - done`.
pub proof fn lemma_stops_in_split(n: int, done: nat, total: nat)
    requires
        forall|j: nat| j < done ==> iterate(n, j) != 1,
    ensures
        stops_in(n, total) <==> (total >= done && stops_in(
            iterate(n, done),
            (total - done) as nat,
        )),
    decreases done,
{
    if done > 0 {
        assert(iterate(n, 0) != 1);
        assert forall|j: nat| j < done - 1 implies iterate(step(n), j) != 1 by {
            assert(iterate(n, j + 1) == iterate(step(n), j));
        }
        if total > 0 {
            lemma_stops_in_split(step(n), (done - 1) as nat, (total - 1) as nat);
        }
    }
}

/// A chain stays within a bound when its first `done` steps and the rest
/// both do.
pub proof fn lemma_stays_within_split(n: int, done: nat, total: nat, bound: int)
    requires
        done <= total,
    ensures
        stays_within(n, total, bound) <==> (stays_within(n, done, bound) && stays_within(
            iterate(n, done),
            (total - done) as nat,
            bound,
        )),
    decreases done,
{
    if done > 0 {
        lemma_stays_within_split(step(n), (done - 1) as nat, (total - 1) as nat, bound);
    }
}

/// A chain from a positive number stays positive.
pub proof fn lemma_iterate_positive(n: int, steps: nat)
    requires
        n >= 1,
    ensures
        iterate(n, steps) >= 1,
    decreases steps,
{
    if steps > 0 {
        lemma_iterate_positive(step(n), (steps - 1) as nat);
    }
}

impl Problem {
    /// Builds the step cache for the numbers below `cache_size`. Each entry
    /// follows its chain until it falls below its start, and adds what the
    /// table already holds for the number it fell to. There is no table
    /// exactly when the chain of some number below `cache_size` leaves the
    /// range of a start, or is longer than a count can hold.
    pub fn _gen_cache(cache_size: usize) -> (table: Option<Vec<i16>>)
        ensures
            table is Some <==> forall|i: int| 1 <= i < cache_size ==> in_range(i),
            table matches Some(cache) ==> is_step_cache(cache@, cache_size as int),
    {
        let mut cache = vec![0i16; cache_size];
        let mut i: usize = 2;
        assert(stops_in(1, 0) && stays_within(1, 0, i128::MAX as int));
        while i < cache_size
            invariant
                2 <= i,
                cache@.len() == cache_size,
                cache_size > 0 ==> cache@[0] == 0,
                forall|j: int|
                    1 <= j < i && j < cache_size ==> {
                        &&& (#[trigger] cache@[j]) >= 0
                        &&& stops_in(j, cache@[j] as nat)
                        &&& stays_within(j, cache@[j] as nat, i128::MAX as int)
                    },
            decreases cache_size - i,
        {
            let mut current: i128 = i as i128;
            let mut count: i16 = 0;
            let mut total: i16 = 0;
            loop
                invariant_except_break
                    0 <= count,
                    current == iterate(i as int, count as nat),
                    forall|j: nat| j <= count ==> iterate(i as int, j) >= i,
                    stays_within(i as int, count as nat, i128::MAX as int),
                invariant
                    2 <= i < cache_size,
                    cache@.len() == cache_size,
                    forall|j: int|
                        1 <= j < i ==> {
                            &&& (#[trigger] cache@[j]) >= 0
                            &&& stops_in(j, cache@[j] as nat)
                            &&& stays_within(j, cache@[j] as nat, i128::MAX as int)
                        },
                ensures
                    0 <= total,
                    stops_in(i as int, total as nat),
                    stays_within(i as int, total as nat, i128::MAX as int),
                decreases i16::MAX - count,
            {
                proof {
                    lemma_iterate_push(i as int, count as nat);
                    lemma_iterate_positive(i as int, (count + 1) as nat);
                    lemma_stays_within_push(i as int, count as nat, i128::MAX as int);
                    if in_range(i as int) {
                        let s = choose|s: nat| #[trigger]
                            stops_in(i as int, s) && s <= i16::MAX && stays_within(
                                i as int,
                                s,
                                i128::MAX as int,
                            );
                        lemma_stops_in_split(i as int, count as nat, s);
                        assert(s > count);
                        lemma_stays_within_split(i as int, (count + 1) as nat, s, i128::MAX as int);
                        assert(step(current as int) <= i128::MAX);
                    }
                }
                if current % 2 == 0 {
                    current = current / 2;
                } else {
                    if current > (i128::MAX - 1) / 3 {
                        return None;
                    }
                    current = current * 3 + 1;
                }
                if count == i16::MAX {
                    return None;
                }
                count += 1;
                if current < i as i128 {
                    let rest = cache[current as usize];
                    proof {
                        lemma_stops_in_split(i as int, count as nat, (count + rest) as nat);
                        lemma_stays_within_split(
                            i as int,
                            count as nat,
                            (count + rest) as nat,
                            i128::MAX as int,
                        );
                        if in_range(i as int) {
                            let s = choose|s: nat| #[trigger]
                                stops_in(i as int, s) && s <= i16::MAX && stays_within(
                                    i as int,
                                    s,
                                    i128::MAX as int,
                                );
                            lemma_stops_in_split(i as int, count as nat, s);
                            lemma_stops_in_unique(current as int, rest as nat, (s - count) as nat);
                        }
                    }
                    if rest > i16::MAX - count {
                        return None;
                    }
                    total = count + rest;
                    break ;
                }
            }
            cache[i] = total;
            i += 1;
        }
        proof {
            assert forall|j: int| 1 <= j < cache_size implies in_range(j) by {
                assert(stops_in(j, cache@[j] as nat));
            }
        }
        Some(cache)
    }
}

} // verus!
