use npb::parallel::ParallelLazyRanddp;
use npb::randdp::LazyRanddp;
use rayon::iter::{IntoParallelRefIterator, ParallelIterator};

/// The uniform value in (0, 1) that a state stands for.
fn to_unit(x: u64) -> f64 {
    let c: f64 = 1.0 / (1u64 << 46) as f64;
    c * x as f64
}

fn to_units(v: Vec<u64>) -> Vec<f64> {
    v.into_iter().map(to_unit).collect()
}

#[test]
fn validate_rngddp_range() {
    // All random numbers, r, should follow this rule 0 < r < 1.
    let npb_seed = 271828182845904523;
    let lazy_randdp = LazyRanddp::new(npb_seed, 1_000, 5_u64.pow(13));
    let r = to_units(lazy_randdp.to_vec());
    for elem in r.iter() {
        assert!(
            *elem > 0.0 && *elem < 1.0,
            "Random numbers should fall between 0 and 1, got {:}",
            elem
        );
    }
}

#[test]
fn validate_rngddp_distribution() {
    // Should be evenly distributed such that n/10 numbers fall between 0.0 -> 0.1 and so on.
    let npb_seed = 271828182845904523;
    let lazy_randdp = LazyRanddp::new(npb_seed, 1_000, 5_u64.pow(13));
    let r = to_units(lazy_randdp.to_vec());
    let mut ranges = vec![];
    let mut lower = 0.0;
    let mut upper = 0.1;
    for _ in 0..10 {
        ranges.push((lower, upper));
        lower = upper;
        upper += 0.1;
    }

    let mut count = vec![0_u32; 10];
    for elem in r.iter() {
        for j in 0..10 {
            if ranges[j].0 < *elem && *elem <= ranges[j].1 {
                count[j] = count[j] + 1;
                break;
            }
        }
    }

    for i in 0..10 {
        assert!(
            count[i] > 90 && count[i] < 110,
            "Expected equal distribution, but got {}, in {}",
            count[i],
            i
        );
    }
}

#[test]
fn validate_lazy_rngddp_range() {
    // All random numbers, r, should follow this rule 0 < r < 1.
    let npb_seed = 271828182845904523;
    let mut lazy_randdp = LazyRanddp::new(npb_seed, 1_000, 5_u64.pow(13));
    let mut count = 0;
    while let Some(x) = lazy_randdp.next() {
        let elem = to_unit(x);
        count += 1;
        assert!(
            elem > 0.0 && elem < 1.0,
            "Random numbers should fall between 0 and 1, got {:}",
            elem
        );
    }
    assert_eq!(count, 1_000, "Should have generated 1_000 random numbers.");
}

#[test]
fn validate_lazy_rngddp_distribution() {
    // Should be evenly distributed such that n/10 numbers fall between 0.0 -> 0.1 and so on.
    let npb_seed = 271828182845904523;
    let mut lazy_randdp = LazyRanddp::new(npb_seed, 1_000, 5_u64.pow(13));
    let mut ranges = vec![];
    let mut lower = 0.0;
    let mut upper = 0.1;
    for _ in 0..10 {
        ranges.push((lower, upper));
        lower = upper;
        upper += 0.1;
    }

    let mut count = vec![0_u32; 10];
    while let Some(x) = lazy_randdp.next() {
        let elem = to_unit(x);
        for j in 0..10 {
            if ranges[j].0 < elem && elem <= ranges[j].1 {
                count[j] = count[j] + 1;
                break;
            }
        }
    }

    for i in 0..10 {
        assert!(
            count[i] > 90 && count[i] < 110,
            "Expected equal distribution, but got {}, in {}",
            count[i],
            i
        );
    }
}

#[test]
fn test_skip_forward() {
    // Generate 1,000 psuedo random numbers.
    let npb_seed = 271828182845904523;
    let lazy_randdp = LazyRanddp::new(npb_seed, 10_000, 5_u64.pow(13));
    let r = to_units(lazy_randdp.to_vec());

    let mut lazy_randdp = LazyRanddp::new(npb_seed, 10, 5_u64.pow(13));

    // Check some numbers.
    let indexes_to_check = [16_u32, 32, 64, 128, 256, 512, 1024, 2048, 4096, 8192];
    let mut last_index_generated = 0;
    for index in indexes_to_check {
        let amount_to_skip = index - last_index_generated;
        lazy_randdp.skip_forward(amount_to_skip as u64);
        let skip_forward_generated = to_unit(lazy_randdp.next().unwrap());
        assert_eq!(
            r[index as usize], skip_forward_generated,
            "Numbers should match, failed at index: {}",
            index
        );
        last_index_generated = index + 1;
    }
}

#[test]
fn test_parallel_lazy_randdp_no_rayon() {
    let npb_seed = 271828182845904523;
    let parallel_lazy_randdp = ParallelLazyRanddp::new(npb_seed, 1_000, 5_u64.pow(13), 7);

    let iters = parallel_lazy_randdp.to_vec();
    let mut r_k: Vec<f64> = vec![];
    for iter in iters {
        let mut r = to_units(iter.to_vec());
        r_k.append(&mut r);
    }

    // Generate it normally
    let lazy_randdp = LazyRanddp::new(npb_seed, 1_000, 5_u64.pow(13));
    let original = to_units(lazy_randdp.to_vec());

    assert_eq!(
        r_k, original,
        "Parallel generated vec does not match original."
    );
}

#[test]
fn test_parallel_debug() {
    let npb_seed = 271828182845904523;
    let n = 2 << 28;
    let parallel_lazy_randdp = ParallelLazyRanddp::new(npb_seed, n, 5_u64.pow(13), 10);
    let mut lazy_randdp = LazyRanddp::new(npb_seed, n, 5_u64.pow(13));

    let mut iters = parallel_lazy_randdp.to_vec();
    while let (Some(a), Some(b)) = (iters[0].next(), lazy_randdp.next()) {
        assert_eq!(to_unit(a), to_unit(b), "Should be the same");
    }
}

#[test]
fn test_parallel_lazy_randdp_with_rayon() {
    let npb_seed = 271828182845904523;
    let parallel_lazy_randdp = ParallelLazyRanddp::new(npb_seed, 1_000, 5_u64.pow(13), 7);

    let iters = parallel_lazy_randdp.to_vec();
    let rngs: Vec<Vec<f64>> = iters
        .par_iter()
        .map(|lazy_randdp| to_units(lazy_randdp.to_vec()))
        .collect();
    let mut r_k: Vec<f64> = vec![];
    for mut rng in rngs {
        r_k.append(&mut rng);
    }

    // Generate it normally
    let lazy_randdp = LazyRanddp::new(npb_seed, 1_000, 5_u64.pow(13));
    let original = to_units(lazy_randdp.to_vec());

    assert_eq!(
        r_k, original,
        "Parallel generated vec does not match original."
    );
}

// ---- further scenarios and laws on concrete values ----

#[test]
fn next_follows_the_recurrence() {
    let a = 5_u64.pow(13);
    let mut g = LazyRanddp::new(271828183, 3, a);
    let x1 = g.next().unwrap();
    assert_eq!(x1, ((a as u128 * 271828183u128) % (1u128 << 46)) as u64);
    assert_eq!(g.get_current(), x1);
    let x2 = g.next().unwrap();
    assert_eq!(x2, ((a as u128 * x1 as u128) % (1u128 << 46)) as u64);
    assert!(g.next().is_some());
    assert_eq!(g.next(), None);
    assert_eq!(g.get_current(), g.get_current());
}

#[test]
fn exhausted_generator_stays_put() {
    let mut g = LazyRanddp::new(12345, 0, 5_u64.pow(13));
    assert_eq!(g.next(), None);
    assert_eq!(g.get_current(), 12345);
    assert!(g.to_vec().is_empty());
}

#[test]
fn skip_forward_matches_stepping() {
    let a = 5_u64.pow(13);
    let seed = 271828182845904523;
    let mut stepped = LazyRanddp::new(seed, 1000, a);
    for _ in 0..777 {
        stepped.next();
    }
    let mut skipped = LazyRanddp::new(seed, 1000, a);
    skipped.skip_forward(777);
    assert_eq!(stepped.get_current(), skipped.get_current());
    // skips compose
    let mut twice = LazyRanddp::new(seed, 1000, a);
    twice.skip_forward(300);
    twice.skip_forward(477);
    assert_eq!(twice.get_current(), skipped.get_current());
}

#[test]
fn skip_forward_zero_reduces_the_seed() {
    // The one input where skipping differs from not stepping at all: a seed
    // at or above 2^46 is reduced.
    let seed = 271828182845904523u64;
    let mut g = LazyRanddp::new(seed, 1, 5_u64.pow(13));
    g.skip_forward(0);
    assert_eq!(g.get_current(), seed % (1u64 << 46));
    assert_ne!(g.get_current(), seed);
}

#[test]
fn skip_forward_large_amount() {
    let a = 5_u64.pow(13);
    let mut g = LazyRanddp::new(314159265, 1, a);
    g.skip_forward(u32::MAX as u64 - 1);
    // square-and-multiply on u128 as an independent computation
    let m: u128 = 1 << 46;
    let mut result: u128 = 314159265 % m;
    let mut base: u128 = a as u128 % m;
    let mut e: u64 = u32::MAX as u64 - 1;
    while e > 0 {
        if e & 1 == 1 {
            result = result * base % m;
        }
        base = base * base % m;
        e >>= 1;
    }
    assert_eq!(g.get_current() as u128, result);
}

#[test]
fn nonzero_seed_and_odd_multiplier_give_values_in_range() {
    // an even seed, and one that is a multiple of a large power of two
    for seed in [2u64, 1u64 << 45, (1u64 << 46) + 4096] {
        let mut g = LazyRanddp::new(seed, 500, 5_u64.pow(13));
        while let Some(x) = g.next() {
            assert!(x > 0 && x < 1u64 << 46);
        }
    }
    // a multiple of 2^46 stays at 0
    let mut g = LazyRanddp::new(1u64 << 46, 3, 5_u64.pow(13));
    assert_eq!(g.next(), Some(0));
}

#[test]
fn odd_seed_and_multiplier_give_odd_values() {
    let mut g = LazyRanddp::new(314159265, 500, 5_u64.pow(13));
    while let Some(x) = g.next() {
        assert_eq!(x % 2, 1);
        assert!(x < 1u64 << 46);
    }
}

#[test]
fn split_concatenates_to_the_sequence() {
    let a = 5_u64.pow(13);
    for (n, m) in [
        (1000usize, 10usize),
        (64, 4),
        (6, 2),
        (0, 8),
        (2, 2),
        (100, 6),
        (2, 4),
        (10, 10),
        (1000, 7),
        (36, 5),
        (4, 1),
        (8, 3),
    ] {
        let p = ParallelLazyRanddp::new(314159265, n, a, m);
        assert!(p.all_skips_fit());
        let gens = p.to_vec();
        assert_eq!(gens.len(), m);
        let mut all = vec![];
        for g in gens {
            all.extend(g.to_vec());
        }
        assert_eq!(all, LazyRanddp::new(314159265, n, a).to_vec(), "n={} m={}", n, m);
    }
}

#[test]
fn split_with_empty_batches_gives_the_remainder_once() {
    // n / m == 1 is odd, so the batch is 0 and the first generator takes all
    // ten values; every later one is empty.
    let a = 5_u64.pow(13);
    let p = ParallelLazyRanddp::new(314159265, 10, a, 10);
    let gens = p.to_vec();
    let counts: Vec<usize> = gens.iter().map(|g| g.to_vec().len()).collect();
    assert_eq!(counts, vec![10, 0, 0, 0, 0, 0, 0, 0, 0, 0]);
    let p = ParallelLazyRanddp::new(271828182845904523, 2, a, 4);
    let gens = p.to_vec();
    let counts: Vec<usize> = gens.iter().map(|g| g.to_vec().len()).collect();
    assert_eq!(counts, vec![2, 0, 0, 0]);
    let mut all = vec![];
    for g in gens {
        all.extend(g.to_vec());
    }
    assert_eq!(all, LazyRanddp::new(271828182845904523, 2, a).to_vec());
}

#[test]
fn split_into_an_odd_number_of_parts() {
    let a = 5_u64.pow(13);
    // 1000 / 7 == 142, even: six parts of 142 and a first one of 148.
    let p = ParallelLazyRanddp::new(314159265, 1000, a, 7);
    let counts: Vec<usize> = p.to_vec().iter().map(|g| g.to_vec().len()).collect();
    assert_eq!(counts, vec![148, 142, 142, 142, 142, 142, 142]);
    // 36 / 5 == 7 is odd: batch 6, and the first part gets 6 + 5 + 1.
    let p = ParallelLazyRanddp::new(314159265, 36, a, 5);
    let counts: Vec<usize> = p.to_vec().iter().map(|g| g.to_vec().len()).collect();
    assert_eq!(counts, vec![12, 6, 6, 6, 6]);
}

#[test]
fn split_next_hands_out_generators_then_none() {
    let a = 5_u64.pow(13);
    let mut p = ParallelLazyRanddp::new(314159265, 100, a, 4);
    let first = p.next().unwrap();
    assert_eq!(first.get_current(), 314159265);
    assert_eq!(first.to_vec().len(), 100 - 3 * 24);
    assert!(p.next().is_some());
    assert!(p.next().is_some());
    assert!(p.next().is_some());
    assert!(p.next().is_none());
}

#[test]
fn split_skip_bound_detected() {
    let a = 5_u64.pow(13);
    let p = ParallelLazyRanddp::new(1, 1usize << 33, a, 2);
    assert!(!p.all_skips_fit());
    let q = ParallelLazyRanddp::new(1, 1usize << 20, a, 2);
    assert!(q.all_skips_fit());
}
