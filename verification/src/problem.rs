//! The tables that a search runs on, and what makes them valid.

use vstd::prelude::*;
use vstd::arithmetic::power2::{pow2, lemma_pow2_strictly_increases};
use vstd::bits::{lemma_u64_pow2_no_overflow, lemma_u64_shl_is_mul};
use crate::cache::in_range;
use crate::collatz::{half_iterate, odd_steps, pow3, stops_in};

verus! {

/// The widest window of low bits whose jump table fits 64-bit columns:
/// `3^39` is the largest power of three below `2^62`.
pub const MAX_ITERATIONS: i16 = 39;

/// The largest sum of window and extra cache bits.
pub const MAX_CACHE_BITS: i16 = 62;

/// The step cache and the jump table for one window width. Built once and
/// only read afterwards.
pub struct Problem {
    pub iterations: i16,
    pub pow: i64,
    pub cache_size: usize,
    pub cache: Vec<i16>,
    pub odds: Vec<i16>,
    pub c: Vec<i64>,
    pub d: Vec<i64>,
}

/// `cache` is the step cache of the given size: entry 0 is 0, and every other
/// entry is the total stopping time of its index.
pub open spec fn is_step_cache(cache: Seq<i16>, size: int) -> bool {
    &&& cache.len() == size
    &&& size > 0 ==> cache[0] == 0
    &&& forall|i: int| 1 <= i < size ==> cache[i] >= 0 && stops_in(i, #[trigger] cache[i] as nat)
}

/// The three columns are the jump table for a window of `k` bits: for each
/// pattern `b` of low bits, how many of `k` halving steps from `b` start at
/// an odd number, three to that power, and where the steps lead.
pub open spec fn is_jump_table(odds: Seq<i16>, c: Seq<i64>, d: Seq<i64>, k: nat) -> bool {
    &&& odds.len() == pow2(k)
    &&& c.len() == pow2(k)
    &&& d.len() == pow2(k)
    &&& forall|b: int|
        0 <= b < pow2(k) ==> {
            &&& #[trigger] odds[b] == odd_steps(b, k)
            &&& c[b] == pow3(odd_steps(b, k))
            &&& d[b] == half_iterate(b, k)
        }
}

/// Why no tables were built.
#[derive(Debug, Clone, Copy, PartialEq, Eq, Structural)]
pub enum GenerateError {
    /// The window is narrower than one bit or wider than `MAX_ITERATIONS`.
    Iterations,
    /// The extra cache bits are negative, or a cache of that many bits
    /// cannot be indexed on this machine.
    ExtraCache,
    /// The chain of some number below the cache size leaves the range of a
    /// start, or is longer than a count can hold.
    Range,
}

/// The window widths that tables can be built for.
pub open spec fn valid_iterations(iterations: int) -> bool {
    1 <= iterations <= MAX_ITERATIONS
}

/// The extra cache bits that a cache can be built for, given the window.
pub open spec fn valid_extra_cache(iterations: int, extra_cache: int) -> bool {
    &&& 0 <= extra_cache
    &&& iterations + extra_cache <= MAX_CACHE_BITS
    &&& pow2((iterations + extra_cache) as nat) <= usize::MAX
}

impl Problem {
    /// The width of the window in bits.
    pub open spec fn window(&self) -> nat {
        self.iterations as nat
    }

    /// The number of entries of the step cache.
    pub open spec fn cache_bound(&self) -> int {
        self.cache_size as int
    }

    /// The step cache as a sequence.
    pub open spec fn cache_view(&self) -> Seq<i16> {
        self.cache@
    }

    /// The parameters are in range and the step cache is built; the jump
    /// table is still empty.
    pub open spec fn cache_ready(&self) -> bool {
        &&& 1 <= self.iterations <= MAX_ITERATIONS
        &&& self.pow == pow2(self.iterations as nat)
        &&& self.pow <= self.cache_size
        &&& is_step_cache(self.cache@, self.cache_size as int)
        &&& self.odds@.len() == 0
        &&& self.c@.len() == 0
        &&& self.d@.len() == 0
    }

    /// Both tables are built for the problem's window and cache size.
    pub open spec fn wf(&self) -> bool {
        &&& 1 <= self.iterations <= MAX_ITERATIONS
        &&& self.pow == pow2(self.iterations as nat)
        &&& self.pow <= self.cache_size
        &&& is_step_cache(self.cache@, self.cache_size as int)
        &&& is_jump_table(self.odds@, self.c@, self.d@, self.iterations as nat)
    }

    /// Builds both tables for a window of `iterations` bits and a step
    /// cache of `2^(iterations + extra_cache)` entries.
    pub fn generate(iterations: i16, extra_cache: i16) -> (made: Result<Problem, GenerateError>)
        ensures
            match made {
                Ok(problem) => {
                    &&& valid_iterations(iterations as int)
                    &&& valid_extra_cache(iterations as int, extra_cache as int)
                    &&& problem.wf()
                    &&& problem.window() == iterations
                    &&& problem.cache_bound() == pow2((iterations + extra_cache) as nat)
                    &&& forall|i: int| 1 <= i < problem.cache_bound() ==> in_range(i)
                },
                Err(GenerateError::Iterations) => !valid_iterations(iterations as int),
                Err(GenerateError::ExtraCache) => {
                    &&& valid_iterations(iterations as int)
                    &&& !valid_extra_cache(iterations as int, extra_cache as int)
                },
                Err(GenerateError::Range) => {
                    &&& valid_iterations(iterations as int)
                    &&& valid_extra_cache(iterations as int, extra_cache as int)
                    &&& exists|i: int|
                        1 <= i < pow2((iterations + extra_cache) as nat) && !in_range(i)
                },
            },
    {
        if iterations < 1 || iterations > MAX_ITERATIONS {
            return Err(GenerateError::Iterations);
        }
        if extra_cache < 0 || extra_cache > MAX_CACHE_BITS - iterations {
            return Err(GenerateError::ExtraCache);
        }
        let bits: u64 = (iterations + extra_cache) as u64;
        proof {
            lemma_u64_pow2_no_overflow(iterations as nat);
            lemma_u64_pow2_no_overflow(bits as nat);
            lemma_u64_shl_is_mul(1, iterations as u64);
            lemma_u64_shl_is_mul(1, bits);
            if extra_cache > 0 {
                lemma_pow2_strictly_increases(iterations as nat, bits as nat);
            }
            vstd::arithmetic::power2::lemma2_to64_rest();
            lemma_pow2_strictly_increases(iterations as nat, 62);
        }
        let pow: u64 = 1u64 << (iterations as u64);
        let size: u64 = 1u64 << bits;
        if size > usize::MAX as u64 {
            return Err(GenerateError::ExtraCache);
        }
        let cache_size = size as usize;
        let cache = match Self::_gen_cache(cache_size) {
            Some(cache) => cache,
            None => {
                return Err(GenerateError::Range);
            },
        };
        let mut problem = Problem {
            pow: pow as i64,
            iterations: iterations,
            cache_size: cache_size,
            cache: cache,
            odds: Vec::new(),
            c: Vec::new(),
            d: Vec::new(),
        };
        problem._gen_preload();
        Ok(problem)
    }
}

} // verus!
