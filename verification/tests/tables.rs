use collatz_finder::problem::{GenerateError, Problem};

/// Counts single Collatz steps until the chain is at 1.
fn brute_force(start: u128) -> i16 {
    let mut n: u128 = start;
    let mut steps: i16 = 0;
    while n != 1 {
        n = if n % 2 == 0 { n / 2 } else { 3 * n + 1 };
        steps += 1;
    }
    steps
}

/// Takes `count` single Collatz steps and counts the odd numbers it starts from.
fn raw_steps(start: u128, count: u32) -> (u128, u32) {
    let mut n: u128 = start;
    let mut odd: u32 = 0;
    for _ in 0..count {
        if n % 2 == 0 {
            n /= 2;
        } else {
            odd += 1;
            n = 3 * n + 1;
        }
    }
    (n, odd)
}

#[test]
fn cache_holds_known_stopping_times() {
    let cache: Vec<i16> = Problem::_gen_cache(1024).unwrap();
    assert_eq!(cache.len(), 1024);
    assert_eq!(cache[0], 0);
    assert_eq!(cache[1], 0);
    assert_eq!(cache[2], 1);
    assert_eq!(cache[3], 7);
    assert_eq!(cache[6], 8);
    assert_eq!(cache[7], 16);
    assert_eq!(cache[27], 111);
    assert_eq!(cache[97], 118);
    assert_eq!(cache[871], 178);
}

#[test]
fn cache_of_sixteen_entries() {
    let cache: Vec<i16> = Problem::_gen_cache(16).unwrap();
    assert_eq!(cache, vec![0, 0, 1, 7, 2, 5, 8, 16, 3, 19, 6, 14, 9, 9, 17, 17]);
}

#[test]
fn cache_equals_brute_force() {
    let size: usize = 1 << 13;
    let cache: Vec<i16> = Problem::_gen_cache(size).unwrap();
    for i in 1..size {
        assert_eq!(cache[i], brute_force(i as u128), "entry {}", i);
    }
}

#[test]
fn cache_of_no_or_one_entry() {
    assert_eq!(Problem::_gen_cache(0), Some(Vec::new()));
    assert_eq!(Problem::_gen_cache(1), Some(vec![0]));
    assert_eq!(Problem::_gen_cache(2), Some(vec![0, 0]));
    assert_eq!(Problem::_gen_cache(3), Some(vec![0, 0, 1]));
}

#[test]
fn jump_table_of_four_bits() {
    let problem: Problem = Problem::generate(4, 0).unwrap();
    assert_eq!(problem.iterations, 4);
    assert_eq!(problem.pow, 16);
    assert_eq!(problem.cache_size, 16);
    assert_eq!(problem.odds, vec![0, 2, 2, 2, 1, 1, 2, 3, 1, 3, 1, 3, 2, 2, 3, 4]);
    assert_eq!(problem.c, vec![1, 9, 9, 9, 3, 3, 9, 27, 3, 27, 3, 27, 9, 9, 27, 81]);
    assert_eq!(problem.d, vec![0, 1, 2, 2, 1, 1, 4, 13, 2, 17, 2, 20, 8, 8, 26, 80]);
}

#[test]
fn jump_table_of_one_bit() {
    let problem: Problem = Problem::generate(1, 0).unwrap();
    assert_eq!(problem.pow, 2);
    assert_eq!(problem.cache, vec![0, 0]);
    assert_eq!(problem.odds, vec![0, 1]);
    assert_eq!(problem.c, vec![1, 3]);
    assert_eq!(problem.d, vec![0, 2]);
}

#[test]
fn jump_identity_on_every_pattern_of_small_windows() {
    for k in 1i16..=8 {
        let problem: Problem = Problem::generate(k, 0).unwrap();
        let pow: u128 = 1u128 << k;
        assert_eq!(problem.c.len() as u128, pow);
        for b in 0..pow {
            let odds: u32 = problem.odds[b as usize] as u32;
            let c: u128 = problem.c[b as usize] as u128;
            let d: u128 = problem.d[b as usize] as u128;
            assert_eq!(c, 3u128.pow(odds));
            assert!(d < c || (b == 0 && d == 0));
            for a in [0u128, 1, 2, 3, 7, 1000, 123_456_789, 1u128 << 70] {
                let n: u128 = a * pow + b;
                let (landed, odd) = raw_steps(n, k as u32 + odds);
                assert_eq!(landed, a * c + d, "k {} a {} b {}", k, a, b);
                assert_eq!(odd, odds, "k {} a {} b {}", k, a, b);
            }
        }
    }
}

#[test]
fn jump_identity_on_sampled_patterns_of_a_wide_window() {
    let k: i16 = 16;
    let problem: Problem = Problem::generate(k, 0).unwrap();
    let pow: u128 = 1u128 << k;
    let mut seed: u64 = 0x2545_f491_4f6c_dd1d;
    for _ in 0..2000 {
        seed ^= seed << 13;
        seed ^= seed >> 7;
        seed ^= seed << 17;
        let b: u128 = (seed as u128) % pow;
        let a: u128 = ((seed >> 16) as u128) * 977;
        let odds: u32 = problem.odds[b as usize] as u32;
        let (landed, odd) = raw_steps(a * pow + b, k as u32 + odds);
        assert_eq!(landed, a * (problem.c[b as usize] as u128) + problem.d[b as usize] as u128);
        assert_eq!(odd, odds);
    }
}

#[test]
fn widest_window_entries_fit() {
    // The pattern of all ones triples at every step: 3^k is the largest multiplier.
    let problem: Problem = Problem::generate(12, 0).unwrap();
    let last: usize = (1 << 12) - 1;
    assert_eq!(problem.odds[last], 12);
    assert_eq!(problem.c[last], 531_441);
    assert_eq!(problem.d[last], 531_440);
}

#[test]
fn generate_sizes_the_cache_by_the_extra_bits() {
    let problem: Problem = Problem::generate(6, 3).unwrap();
    assert_eq!(problem.iterations, 6);
    assert_eq!(problem.pow, 64);
    assert_eq!(problem.cache_size, 512);
    assert_eq!(problem.cache.len(), 512);
    assert_eq!(problem.c.len(), 64);
    assert_eq!(problem.cache[327], 143);
}

#[test]
fn generate_rejects_windows_out_of_range() {
    assert_eq!(Problem::generate(0, 0).err(), Some(GenerateError::Iterations));
    assert_eq!(Problem::generate(-1, 4).err(), Some(GenerateError::Iterations));
    assert_eq!(Problem::generate(40, 0).err(), Some(GenerateError::Iterations));
    assert_eq!(Problem::generate(i16::MAX, 0).err(), Some(GenerateError::Iterations));
    assert_eq!(Problem::generate(i16::MIN, i16::MIN).err(), Some(GenerateError::Iterations));
}

#[test]
fn generate_rejects_extra_cache_out_of_range() {
    assert_eq!(Problem::generate(4, -1).err(), Some(GenerateError::ExtraCache));
    assert_eq!(Problem::generate(1, 62).err(), Some(GenerateError::ExtraCache));
    assert_eq!(Problem::generate(39, 24).err(), Some(GenerateError::ExtraCache));
    assert_eq!(Problem::generate(10, i16::MAX).err(), Some(GenerateError::ExtraCache));
    assert_eq!(Problem::generate(10, i16::MIN).err(), Some(GenerateError::ExtraCache));
}

#[test]
fn preload_fills_an_empty_jump_table() {
    let mut problem: Problem = Problem {
        iterations: 5,
        pow: 32,
        cache_size: 64,
        cache: Problem::_gen_cache(64).unwrap(),
        odds: Vec::new(),
        c: Vec::new(),
        d: Vec::new(),
    };
    problem._gen_preload();
    let made: Problem = Problem::generate(5, 1).unwrap();
    assert_eq!(problem.odds.len(), 32);
    assert_eq!(problem.odds, made.odds);
    assert_eq!(problem.c, made.c);
    assert_eq!(problem.d, made.d);
    assert_eq!(problem.cache, made.cache);
    // 27 = 0b11011: 27 -> 41 -> 62 -> 31 -> 47 -> 71, four of the five from an odd number.
    assert_eq!(problem.odds[27], 4);
    assert_eq!(problem.c[27], 81);
    assert_eq!(problem.d[27], 71);
}
