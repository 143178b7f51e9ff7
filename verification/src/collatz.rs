//! The Collatz map, chains of its steps, and the identity that lets a chain
//! be advanced by a whole window of low bits at once.

use vstd::prelude::*;
use vstd::arithmetic::power2::{pow2, lemma_pow2_pos, lemma_pow2_unfold};

verus! {

/// One Collatz step: halve an even number, triple an odd one and add one.
pub open spec fn step(n: int) -> int {
    if n % 2 == 0 {
        n / 2
    } else {
        3 * n + 1
    }
}

/// The value that `steps` Collatz steps lead to from `n`.
pub open spec fn iterate(n: int, steps: nat) -> int
    decreases steps,
{
    if steps == 0 {
        n
    } else {
        iterate(step(n), (steps - 1) as nat)
    }
}

/// How many of the first `steps` values of the chain from `n` are odd.
pub open spec fn odd_count(n: int, steps: nat) -> nat
    decreases steps,
{
    if steps == 0 {
        0
    } else {
        (if n % 2 == 0 { 0nat } else { 1nat }) + odd_count(step(n), (steps - 1) as nat)
    }
}

/// The chain from `n` arrives at 1 for the first time after exactly `steps`
/// steps: `steps` is the total stopping time of `n`.
pub open spec fn stops_in(n: int, steps: nat) -> bool
    decreases steps,
{
    if n == 1 {
        steps == 0
    } else {
        steps > 0 && stops_in(step(n), (steps - 1) as nat)
    }
}

/// The chain from `n` arrives at 1.
pub open spec fn has_delay(n: int) -> bool {
    exists|steps: nat| stops_in(n, steps)
}

/// The total stopping time of `n`, where its chain arrives at 1.
pub open spec fn delay(n: int) -> nat {
    choose|steps: nat| stops_in(n, steps)
}

/// None of the first `steps + 1` values of the chain from `n` is above
/// `bound`.
pub open spec fn stays_within(n: int, steps: nat, bound: int) -> bool
    decreases steps,
{
    n <= bound && (steps == 0 || stays_within(step(n), (steps - 1) as nat, bound))
}

/// A halving step: one Collatz step on an even number, two on an odd one,
/// so that every halving step divides by two once.
pub open spec fn half_step(n: int) -> int {
    if n % 2 == 0 {
        n / 2
    } else {
        (3 * n + 1) / 2
    }
}

/// The value that `k` halving steps lead to from `n`.
pub open spec fn half_iterate(n: int, k: nat) -> int
    decreases k,
{
    if k == 0 {
        n
    } else {
        half_iterate(half_step(n), (k - 1) as nat)
    }
}

/// How many of the first `k` halving steps from `n` start at an odd number.
pub open spec fn odd_steps(n: int, k: nat) -> nat
    decreases k,
{
    if k == 0 {
        0
    } else {
        (if n % 2 == 0 { 0nat } else { 1nat }) + odd_steps(half_step(n), (k - 1) as nat)
    }
}

/// The number of Collatz steps that `k` halving steps from `n` stand for.
pub open spec fn jump_cost(n: int, k: nat) -> nat {
    k + odd_steps(n, k)
}

/// Three to the power `e`.
pub open spec fn pow3(e: nat) -> nat
    decreases e,
{
    if e == 0 {
        1
    } else {
        3 * pow3((e - 1) as nat)
    }
}

pub proof fn lemma_pow3_increases(e1: nat, e2: nat)
    requires
        e1 <= e2,
    ensures
        1 <= pow3(e1) <= pow3(e2),
    decreases e2,
{
    if e2 == 0 {
    } else if e1 == e2 {
        lemma_pow3_increases((e1 - 1) as nat, (e2 - 1) as nat);
    } else {
        lemma_pow3_increases(e1, (e2 - 1) as nat);
    }
}

/// A number has at most one total stopping time.
pub proof fn lemma_stops_in_unique(n: int, s1: nat, s2: nat)
    requires
        stops_in(n, s1),
        stops_in(n, s2),
    ensures
        s1 == s2,
    decreases s1,
{
    if n != 1 {
        lemma_stops_in_unique(step(n), (s1 - 1) as nat, (s2 - 1) as nat);
    }
}

/// Where a chain arrives at 1 after `steps` steps, `steps` is its delay.
pub proof fn lemma_delay_is(n: int, steps: nat)
    requires
        stops_in(n, steps),
    ensures
        has_delay(n),
        delay(n) == steps,
{
    lemma_stops_in_unique(n, steps, delay(n));
}

/// `stops_in` says what the words say: the chain is at 1 after `steps`
/// steps and at no step before.
pub proof fn lemma_stops_in_is_first_arrival(n: int, steps: nat)
    ensures
        stops_in(n, steps) <==> (iterate(n, steps) == 1 && forall|j: nat|
            j < steps ==> iterate(n, j) != 1),
    decreases steps,
{
    if steps == 0 {
    } else {
        lemma_stops_in_is_first_arrival(step(n), (steps - 1) as nat);
        if stops_in(n, steps) {
            assert forall|j: nat| j < steps implies iterate(n, j) != 1 by {
                if j > 0 {
                    assert(iterate(n, j) == iterate(step(n), (j - 1) as nat));
                }
            }
        }
        if iterate(n, steps) == 1 && (forall|j: nat| j < steps ==> iterate(n, j) != 1) {
            assert(iterate(n, 0) != 1);
            assert forall|j: nat| j < steps - 1 implies iterate(step(n), j) != 1 by {
                assert(iterate(n, j + 1) == iterate(step(n), j));
            }
        }
    }
}

/// Chains of positive numbers stay positive.
pub proof fn lemma_half_iterate_positive(n: int, k: nat)
    requires
        n >= 0,
    ensures
        half_iterate(n, k) >= 0,
        n >= 1 ==> half_iterate(n, k) >= 1,
        odd_steps(n, k) <= k,
    decreases k,
{
    if k > 0 {
        lemma_half_iterate_positive(half_step(n), (k - 1) as nat);
    }
}

/// Halving steps are Collatz steps taken one or two at a time: `k` of them
/// from `n` are `jump_cost(n, k)` Collatz steps, and the odd numbers met on
/// the way are the same.
pub proof fn lemma_half_iterate_is_iterate(n: int, k: nat)
    ensures
        iterate(n, jump_cost(n, k)) == half_iterate(n, k),
        odd_count(n, jump_cost(n, k)) == odd_steps(n, k),
    decreases k,
{
    if k > 0 {
        let rest = (k - 1) as nat;
        lemma_half_iterate_is_iterate(half_step(n), rest);
        let cost = jump_cost(half_step(n), rest);
        if n % 2 == 0 {
            assert(jump_cost(n, k) == cost + 1);
        } else {
            let m = 3 * n + 1;
            assert(jump_cost(n, k) == cost + 2);
            assert(m % 2 == 0);
            assert(step(m) == half_step(n));
            assert(iterate(n, jump_cost(n, k)) == iterate(m, (cost + 1) as nat));
            assert(iterate(m, (cost + 1) as nat) == iterate(step(m), cost));
            assert(odd_count(n, jump_cost(n, k)) == 1 + odd_count(m, (cost + 1) as nat));
            assert(odd_count(m, (cost + 1) as nat) == odd_count(step(m), cost));
        }
    }
}

/// The window identity on halving steps. The first `k` halving steps
/// of `a * 2^k + x` meet odd numbers exactly where those of `x` do, and
/// lead to `a * 3^odds + half_iterate(x, k)`.
pub proof fn lemma_half_iterate_split(a: int, x: int, k: nat)
    requires
        a >= 0,
        x >= 0,
    ensures
        odd_steps(a * pow2(k) + x, k) == odd_steps(x, k),
        half_iterate(a * pow2(k) + x, k) == a * pow3(odd_steps(x, k)) + half_iterate(x, k),
    decreases k,
{
    if k == 0 {
        assert(pow2(0) == 1) by {
            vstd::arithmetic::power2::lemma2_to64();
        }
        assert(a * 1 == a);
    } else {
        let rest = (k - 1) as nat;
        let p = pow2(rest);
        lemma_pow2_unfold(k);
        let n = a * pow2(k) + x;
        assert(a * pow2(k) == 2 * (a * p)) by (nonlinear_arith)
            requires
                pow2(k) == 2 * p,
        ;
        if x % 2 == 0 {
            assert(half_step(n) == a * p + x / 2);
            lemma_half_iterate_split(a, x / 2, rest);
        } else {
            let y = (3 * x + 1) / 2;
            let o = odd_steps(y, rest);
            assert((3 * a) * p == 3 * (a * p)) by (nonlinear_arith);
            assert(half_step(n) == (3 * a) * p + y);
            lemma_half_iterate_split(3 * a, y, rest);
            assert((3 * a) * pow3(o) == a * (3 * pow3(o))) by (nonlinear_arith);
        }
    }
}

/// The jump identity. For a window of `k` bits, low bits `b` and high bits
/// `a`, the chain from `a * 2^k + b` stands, after `k + odds` Collatz steps
/// of which `odds` started at an odd number, at `a * 3^odds + d`, where
/// `odds` and `d` are what `k` halving steps from `b` alone give.
pub proof fn lemma_jump_identity(k: nat, a: int, b: int)
    requires
        a >= 0,
        0 <= b < pow2(k),
    ensures
        ({
            let odds = odd_steps(b, k);
            let n = a * pow2(k) + b;
            &&& iterate(n, k + odds) == a * pow3(odds) + half_iterate(b, k)
            &&& odd_count(n, k + odds) == odds
        }),
{
    let n = a * pow2(k) + b;
    lemma_half_iterate_split(a, b, k);
    lemma_half_iterate_is_iterate(n, k);
}

/// What `k` halving steps make of a number below `q * 2^k` is below
/// `q * 3^odds`.
pub proof fn lemma_half_iterate_bound(n: int, q: int, k: nat)
    requires
        0 <= n < q * pow2(k),
    ensures
        0 <= half_iterate(n, k) < q * pow3(odd_steps(n, k)),
    decreases k,
{
    if k == 0 {
        assert(pow2(0) == 1) by {
            vstd::arithmetic::power2::lemma2_to64();
        }
        assert(q * 1 == q);
    } else {
        let rest = (k - 1) as nat;
        let p = pow2(rest);
        lemma_pow2_unfold(k);
        assert(q * pow2(k) == 2 * (q * p)) by (nonlinear_arith)
            requires
                pow2(k) == 2 * p,
        ;
        if n % 2 == 0 {
            lemma_half_iterate_bound(n / 2, q, rest);
        } else {
            let y = (3 * n + 1) / 2;
            let o = odd_steps(y, rest);
            assert((3 * q) * p == 3 * (q * p)) by (nonlinear_arith);
            lemma_half_iterate_bound(y, 3 * q, rest);
            assert((3 * q) * pow3(o) == q * (3 * pow3(o))) by (nonlinear_arith);
        }
    }
}

/// A jump over `k` halving steps from a number that is at least `2^k`
/// never passes 1 on the way: the number stops after `total` steps exactly
/// when the jump's cost is within `total` and the number it leads to stops
/// after the rest.
pub proof fn lemma_jump_delay(n: int, k: nat, total: nat)
    requires
        n >= pow2(k),
    ensures
        stops_in(n, total) <==> (total >= jump_cost(n, k) && stops_in(
            half_iterate(n, k),
            (total - jump_cost(n, k)) as nat,
        )),
    decreases k,
{
    if k > 0 {
        let rest = (k - 1) as nat;
        lemma_pow2_unfold(k);
        lemma_pow2_pos(rest);
        if n % 2 == 0 {
            if total >= 1 {
                lemma_jump_delay(half_step(n), rest, (total - 1) as nat);
            }
        } else {
            let m = 3 * n + 1;
            assert(m % 2 == 0 && m != 1);
            assert(step(m) == half_step(n));
            if total >= 2 {
                assert(stops_in(n, total) == stops_in(m, (total - 1) as nat));
                assert(stops_in(m, (total - 1) as nat) == stops_in(step(m), (total - 2) as nat));
                lemma_jump_delay(half_step(n), rest, (total - 2) as nat);
            } else if total == 1 {
                assert(stops_in(n, total) == stops_in(m, 0));
            }
        }
    }
}

} // verus!
