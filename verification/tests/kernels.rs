use npb::cg_kernel::CgKernel;
use npb::class::Class;
use npb::ep_kernel::{CountsMismatch, EpKernel};
use npb::is_kernel::IsKernel;
use npb::randdp::LazyRanddp;
use npb::sparse::{compress_rows, make_sparse_vectors, pattern_rows};
use std::collections::{HashMap, HashSet};

fn small_kernel(keys: Vec<i32>, b_max: u32) -> IsKernel {
    IsKernel {
        n: keys.len(),
        b_max,
        i_max: 1,
        keys,
        test_index_array: vec![0, 1, 2, 3, 4],
        test_rank_array: vec![0, 0, 0, 0, 0],
        add_i: vec![true, true, true, true, true],
        iter_offset: 0,
    }
}

#[test]
fn compute_ranks_counts_keys_at_most_each_value() {
    let k = small_kernel(vec![3, 1, 4, 1, 5, 0, 2, 6, 5, 3], 8);
    let ranks = k.compute_ranks();
    assert_eq!(ranks, vec![1, 3, 4, 6, 7, 9, 10, 10]);
}

#[test]
fn sort_keys_sorts_and_keeps_the_keys() {
    let mut k = small_kernel(vec![3, 1, 4, 1, 5, 0, 2, 6, 5, 3], 8);
    assert!(!k.full_verify());
    k.sort_keys();
    assert_eq!(k.keys, vec![0, 1, 1, 2, 3, 3, 4, 5, 5, 6]);
    assert!(k.full_verify());
}

#[test]
fn full_verify_on_few_keys() {
    let k = small_kernel(vec![], 4);
    assert!(k.full_verify());
    let k = small_kernel(vec![2], 4);
    assert!(k.full_verify());
}

#[test]
fn partial_verification_names_the_first_mismatch() {
    let mut k = small_kernel(vec![3, 1, 4, 1, 5, 0, 2, 6, 5, 3], 8);
    let ranks = k.compute_ranks();
    // ranks of keys 3, 1, 4, 1, 5: how many keys lie below each
    k.test_rank_array = vec![4, 1, 6, 1, 7];
    k.add_i = vec![false, false, false, false, false];
    assert_eq!(k.partial_verification(&ranks, 0), Ok(()));
    k.test_rank_array = vec![4, 1, 5, 1, 7];
    assert_eq!(k.partial_verification(&ranks, 0), Err(2));
    // with the iteration added to the expected ranks
    k.test_rank_array = vec![3, 0, 5, 0, 6];
    k.add_i = vec![true, true, true, true, true];
    assert_eq!(k.partial_verification(&ranks, 1), Ok(()));
}

#[test]
fn run_reports_the_failing_iteration() {
    let mut k = small_kernel(vec![0, 0, 0, 7, 7, 7, 3, 3, 3, 3], 8);
    k.i_max = 2;
    k.test_index_array = vec![6, 7, 8, 9, 6];
    k.test_rank_array = vec![0, 0, 0, 0, 0];
    let r = k.run();
    assert_eq!(r, Err((1, 0)));
    // keys after iteration 1: position 1 is 1, position 1 + i_max = 3 is 8 - 1 = 7
    assert_eq!(k.keys, vec![0, 1, 0, 7, 7, 7, 3, 3, 3, 3]);
}

#[test]
fn run_passes_when_ranks_match() {
    // keys 3 at positions 6..10; ranks of 3 count the keys below 3.
    let mut k = small_kernel(vec![0, 0, 0, 0, 0, 0, 3, 3, 3, 3], 8);
    k.i_max = 2;
    k.test_index_array = vec![6, 7, 8, 9, 6];
    // iteration 1: keys [0,1,0,7,0,0,3,3,3,3] -> 5 keys below 3
    // iteration 2: keys [0,1,2,7,6,0,3,3,3,3] -> 4 keys below 3
    k.test_rank_array = vec![6, 6, 6, 6, 6];
    k.add_i = vec![false, false, false, false, false];
    assert_eq!(k.run(), Ok(()));
    assert_eq!(k.keys, vec![0, 1, 2, 7, 6, 0, 3, 3, 3, 3]);
}

#[test]
fn class_s_integer_sort_benchmark() {
    let mut k = IsKernel::from_class(Class::S);
    assert_eq!(k.n, 65_536);
    assert_eq!(k.b_max, 2_048);
    k.generate_keys();
    assert_eq!(k.keys.len(), 65_536);
    assert_eq!(k.run(), Ok(()));
    k.sort_keys();
    assert!(k.full_verify());
}

#[test]
fn generated_keys_match_the_floating_point_formula() {
    let mut k = IsKernel::from_class(Class::S);
    k.generate_keys();
    let c: f64 = 1.0 / (1u64 << 46) as f64;
    let mut g = LazyRanddp::new(314_159_265, usize::MAX, 5_u64.pow(13));
    let b_max = 2_f64.powi(11);
    for i in 0..1000 {
        let r_i = vec![
            c * g.next().unwrap() as f64,
            c * g.next().unwrap() as f64,
            c * g.next().unwrap() as f64,
            c * g.next().unwrap() as f64,
        ];
        let key = (b_max * (r_i.iter().sum::<f64>() / 4.0)) as i32;
        assert_eq!(k.keys[i], key, "key {}", i);
    }
}

#[test]
fn is_classes_have_their_tables() {
    let a = IsKernel::from_class(Class::A);
    assert_eq!((a.n, a.b_max, a.i_max, a.iter_offset), (8_388_608, 524_288, 10, -1));
    assert_eq!(a.test_rank_array, vec![104, 17523, 123928, 8288932, 8388264]);
    let b = IsKernel::from_class(Class::B);
    assert_eq!((b.n, b.b_max, b.i_max, b.iter_offset), (33_554_432, 2_097_152, 10, 0));
    assert_eq!(b.add_i, vec![false, true, true, false, true]);
}

#[test]
fn ep_counts_checked_total_first() {
    let ep = EpKernel::from_class(Class::S);
    assert_eq!(ep.n, 1 << 24);
    assert_eq!(ep.a, 5_u64.pow(13));
    assert_eq!(ep.s, 271_828_183);
    let good = [6140517u64, 5865300, 1100361, 68546, 1648, 17, 0, 0, 0, 0];
    assert_eq!(ep.verify_counts(&good), Ok(()));
    let mut moved = good;
    moved[0] -= 1;
    moved[1] += 1;
    assert_eq!(ep.verify_counts(&moved), Err(CountsMismatch::Counts));
    let mut short = good;
    short[9] = 1;
    assert_eq!(ep.verify_counts(&short), Err(CountsMismatch::Sum));
    let d = EpKernel::from_class(Class::D);
    assert_eq!(d.n, 1 << 36);
    assert_eq!(d.expected_counts[0], 25154622775);
}

#[test]
fn cg_classes_have_their_tables() {
    let c = CgKernel::from_class(Class::C);
    assert_eq!((c.n, c.n_iter, c.nonzero), (150_000, 75, 15));
    let s = CgKernel::from_class(Class::S);
    assert_eq!((s.n, s.n_iter, s.nonzero), (1_400, 15, 7));
}

/// The sparse vectors drawn as the floating point construction draws them.
fn float_sparse_vectors(n: usize, nonzero: usize) -> Vec<HashMap<usize, f64>> {
    let c: f64 = 1.0 / (1u64 << 46) as f64;
    let mut randdp = LazyRanddp::new(314_159_265, usize::MAX, 5_u64.pow(13));
    randdp.next();
    let ipwr2 = n.next_power_of_two();
    let mut out = vec![];
    for i in 0..n {
        let mut nz = 0;
        let mut x: HashMap<usize, f64> = HashMap::new();
        while nz < nonzero {
            let random_num = c * randdp.next().unwrap() as f64;
            let random_idx = (c * randdp.next().unwrap() as f64 * ipwr2 as f64) as usize;
            if random_idx >= n || x.contains_key(&random_idx) {
                continue;
            }
            x.insert(random_idx, random_num);
            nz += 1;
        }
        x.insert(i, 0.5);
        out.push(x);
    }
    out
}

#[test]
fn sparse_vectors_match_the_floating_point_draws() {
    let c: f64 = 1.0 / (1u64 << 46) as f64;
    let (n, nonzero) = (1_400, 7);
    let vectors = make_sparse_vectors(n, nonzero).unwrap();
    let expected = float_sparse_vectors(n, nonzero);
    assert_eq!(vectors.len(), n);
    for i in 0..n {
        let got: HashMap<usize, f64> = vectors[i].iter().map(|&(col, x)| (col, c * x as f64)).collect();
        assert_eq!(got, expected[i], "vector {}", i);
        assert_eq!(vectors[i].len(), got.len());
    }
}

#[test]
fn pattern_is_the_union_of_outer_products() {
    let vectors = vec![
        vec![(0usize, 1u64), (2, 1)],
        vec![(1, 1), (3, 1)],
        vec![(2, 1), (3, 1)],
        vec![(3, 1)],
    ];
    let rows = pattern_rows(&vectors, 4);
    assert_eq!(rows, vec![vec![0, 2], vec![1, 3], vec![0, 2, 3], vec![1, 2, 3]]);
    let (starts, cols) = compress_rows(&rows);
    assert_eq!(starts, vec![0, 2, 4, 7, 11]);
    assert_eq!(cols, vec![0, 2, 1, 3, 0, 2, 3, 1, 2, 3, 0]);
}

#[test]
fn pattern_rows_match_a_set_computation() {
    let n = 300;
    let vectors = make_sparse_vectors(n, 5).unwrap();
    let rows = pattern_rows(&vectors, n);
    let mut expected: Vec<HashSet<usize>> = vec![HashSet::new(); n];
    for v in &vectors {
        for &(l, _) in v {
            for &(r, _) in v {
                expected[l].insert(r);
            }
        }
    }
    for l in 0..n {
        let mut e: Vec<usize> = expected[l].iter().copied().collect();
        e.sort();
        assert_eq!(rows[l], e, "row {}", l);
        assert!(rows[l].contains(&l));
    }
}
