//! The jump table: for each pattern of low bits, what a window of halving
//! steps does to a number that ends in it.

use vstd::prelude::*;
use vstd::arithmetic::power2::{pow2, lemma_pow2_pos, lemma_pow2_unfold, lemma2_to64};
use crate::collatz::{
    half_iterate,
    iterate,
    lemma_half_iterate_bound,
    lemma_jump_identity,
    lemma_pow3_increases,
    odd_count,
    odd_steps,
    pow3,
};
use crate::problem::Problem;

verus! {

/// While `odd <= done <= k`, a value below `3^odd * 2^(k - done)` is below
/// `3^k`: each halving that is still to come is paid for by a tripling
/// that did not happen.
pub proof fn lemma_window_bound(odd: nat, done: nat, k: nat)
    requires
        odd <= done <= k,
    ensures
        pow3(odd) * pow2((k - done) as nat) <= pow3(k),
    decreases k - done,
{
    let q = pow3(odd);
    if done == k {
        assert(pow2(0) == 1) by {
            lemma2_to64();
        }
        lemma_pow3_increases(odd, k);
        assert(q * 1 == q);
    } else {
        let p = pow2((k - done - 1) as nat);
        lemma_pow2_unfold((k - done) as nat);
        lemma_pow2_pos((k - done - 1) as nat);
        lemma_window_bound(odd + 1, done + 1, k);
        assert(q * (2 * p) <= (3 * q) * p) by (nonlinear_arith)
            requires
                q >= 0,
                p >= 0,
        ;
    }
}

/// The largest power of three that a table entry can hold.
pub proof fn lemma_pow3_limit(e: nat)
    requires
        e <= 39,
    ensures
        pow3(e) <= 4052555153018976267,
{
    lemma_pow3_increases(e, 39);
    assert(pow3(39) == 4052555153018976267) by {
        reveal_with_fuel(pow3, 40);
    }
}

/// What the jump table says of a number. For low bits `b` and high bits
/// `a`, the chain from `a * 2^k + b` stands after `k + odds[b]` Collatz
/// steps, of which `odds[b]` started at an odd number, at `a * c[b] + d[b]`.
/// The offset `d[b]` is below the multiplier `c[b]`.
pub proof fn lemma_table_jump(problem: Problem, a: int, b: int)
    requires
        problem.wf(),
        a >= 0,
        0 <= b < pow2(problem.window()),
    ensures
        ({
            let k = problem.window();
            let n = a * pow2(k) + b;
            let steps = (k + problem.odds@[b]) as nat;
            &&& problem.odds@[b] >= 0
            &&& iterate(n, steps) == a * problem.c@[b] + problem.d@[b]
            &&& odd_count(n, steps) == problem.odds@[b]
            &&& 0 <= problem.d@[b] < problem.c@[b]
        }),
{
    let k = problem.window();
    assert(problem.odds@[b] == odd_steps(b, k));
    lemma_jump_identity(k, a, b);
    assert(1 * pow2(k) == pow2(k));
    lemma_half_iterate_bound(b, 1, k);
    assert(1 * pow3(odd_steps(b, k)) == pow3(odd_steps(b, k)));
}

impl Problem {
    /// Fills the jump table for the problem's window: for every pattern `b`
    /// of low bits, in order, it takes as many halving steps from `b` as the
    /// window has bits and records where they lead, how many of them
    /// started at an odd number, and three to that power.
    pub fn _gen_preload(&mut self)
        requires
            old(self).cache_ready(),
        ensures
            final(self).wf(),
            final(self).window() == old(self).window(),
            final(self).cache_bound() == old(self).cache_bound(),
            final(self).cache_view() == old(self).cache_view(),
    {
        let ghost k = self.iterations as nat;
        let mut b: i64 = 0;
        while b < self.pow
            invariant
                0 <= b <= self.pow,
                k == self.iterations,
                1 <= k <= 39,
                self.iterations == old(self).iterations,
                self.pow == old(self).pow,
                self.cache_size == old(self).cache_size,
                self.cache == old(self).cache,
                self.pow == pow2(k),
                self.odds@.len() == b,
                self.c@.len() == b,
                self.d@.len() == b,
                forall|x: int|
                    0 <= x < b ==> {
                        &&& #[trigger] self.odds@[x] == odd_steps(x, k)
                        &&& self.c@[x] == pow3(odd_steps(x, k))
                        &&& self.d@[x] == half_iterate(x, k)
                    },
            decreases self.pow - b,
        {
            let mut odd: i16 = 0;
            let mut n: i64 = b;
            let mut c: i64 = 1;
            let mut j: i16 = 0;
            proof {
                assert(pow3(0) * pow2(k) == pow2(k)) by (nonlinear_arith)
                    requires
                        pow3(0) == 1,
                ;
            }
            while j < self.iterations
                invariant
                    0 <= odd <= j <= k,
                    k == self.iterations,
                    k <= 39,
                    0 <= n,
                    c == pow3(odd as nat),
                    n + 1 <= pow3(odd as nat) * pow2((k - j) as nat),
                    odd + odd_steps(n as int, (k - j) as nat) == odd_steps(b as int, k),
                    half_iterate(n as int, (k - j) as nat) == half_iterate(b as int, k),
                decreases k - j,
            {
                proof {
                    let q = pow3(odd as nat);
                    let p = pow2((k - j - 1) as nat);
                    lemma_pow2_unfold((k - j) as nat);
                    assert(q * (2 * p) == 2 * (q * p)) by (nonlinear_arith);
                    assert((3 * q) * p == 3 * (q * p)) by (nonlinear_arith);
                    lemma_window_bound((odd + 1) as nat, (j + 1) as nat, k);
                    lemma_pow3_limit(k);
                    lemma_pow3_limit((odd + 1) as nat);
                }
                if n % 2 == 0 {
                    n = n / 2;
                } else {
                    odd += 1;
                    c = c * 3;
                    n = (3 * n + 1) / 2;
                }
                j += 1;
            }
            proof {
                assert(pow2(0) == 1) by {
                    lemma2_to64();
                }
                assert(pow3(odd as nat) * 1 == pow3(odd as nat));
            }
            self.d.push(n);
            self.c.push(c);
            self.odds.push(odd);
            b += 1;
        }
    }
}

} // verus!
