use npb::cg_kernel::CgKernel;
use npb::class::Class;
use npb::ep_kernel::EpKernel;
use npb::parallel::ParallelLazyRanddp;
use npb::sparse::{compress_rows, make_sparse_vectors, pattern_rows};
use std::collections::HashMap;

fn to_unit(x: u64) -> f64 {
    let c: f64 = 1.0 / (1u64 << 46) as f64;
    c * x as f64
}

fn relative_error(left: f64, right: f64) -> f64 {
    (left - right).abs() / right.abs()
}

#[test]
fn ep_class_s_matches_the_published_results() {
    let params = EpKernel::from_class(Class::S);
    let p = ParallelLazyRanddp::new(params.s, 2 * params.n as usize, params.a, 10);
    assert!(p.all_skips_fit());
    let mut counts = [0_u64; 10];
    let mut sum_x = 0.0;
    let mut sum_y = 0.0;
    for mut g in p.to_vec() {
        while let (Some(a), Some(b)) = (g.next(), g.next()) {
            let x = 2.0 * to_unit(a) - 1.0;
            let y = 2.0 * to_unit(b) - 1.0;
            let t = x * x + y * y;
            if t <= 1.0 {
                let scale = (-2.0 * t.ln() / t).sqrt();
                let x_k = x * scale;
                let y_k = y * scale;
                let max_abs = x_k.abs().max(y_k.abs());
                counts[max_abs as usize] += 1;
                sum_x += x_k;
                sum_y += y_k;
            }
        }
    }
    assert_eq!(params.verify_counts(&counts), Ok(()));
    assert!(relative_error(sum_x, -3.2478346520347404e3) < 1.0e-12);
    assert!(relative_error(sum_y, -6.958407078382297e3) < 1.0e-12);
}

#[test]
fn cg_class_s_matches_the_published_zeta() {
    let params = CgKernel::from_class(Class::S);
    let (n, shift) = (params.n, 10.0);
    let vectors = make_sparse_vectors(n, params.nonzero).unwrap();
    let mut values: HashMap<(usize, usize), f64> = HashMap::new();
    let mut size = 1.0;
    let r = 0.1_f64.powf(1.0 / (n as f64));
    for vec in vectors.iter() {
        for left in vec {
            for right in vec {
                *values.entry((left.0, right.0)).or_insert(0.0) +=
                    size * (to_unit(left.1) * to_unit(right.1));
            }
        }
        size *= r;
    }
    for i in 0..n {
        let diagonal = match values.get(&(i, i)) {
            Some(existing) => existing + 0.1 - shift,
            None => 0.1 - shift,
        };
        values.insert((i, i), diagonal);
    }
    let pattern = pattern_rows(&vectors, n);
    let (rows, cols) = compress_rows(&pattern);
    let mut data: Vec<(u32, f64)> = vec![];
    for (l, row) in pattern.iter().enumerate() {
        for &c in row {
            data.push((c as u32, values[&(l, c)]));
        }
    }
    data.push((cols[cols.len() - 1], 0.0));
    assert_eq!(data.len(), cols.len());
    assert_eq!(rows.len(), n + 1);

    let multiply = |v: &Vec<f64>, out: &mut Vec<f64>| {
        for i in 0..n {
            let mut sum = 0.0;
            for e in &data[rows[i] as usize..rows[i + 1] as usize] {
                sum += v[e.0 as usize] * e.1;
            }
            out[i] = sum;
        }
    };
    let dot = |a: &Vec<f64>, b: &Vec<f64>| -> f64 { a.iter().zip(b.iter()).map(|e| e.0 * e.1).sum() };

    let mut x = vec![1.0_f64; n];
    let mut zeta = 0.0;
    let (mut z, mut rr, mut p, mut q) = (vec![0.0; n], vec![0.0; n], vec![0.0; n], vec![0.0; n]);
    for _ in 0..params.n_iter {
        z.fill(0.0);
        rr.copy_from_slice(&x);
        let mut rho = dot(&rr, &rr);
        p.copy_from_slice(&x);
        for _ in 0..25 {
            multiply(&p, &mut q);
            let alpha = rho / dot(&p, &q);
            for i in 0..n {
                z[i] += alpha * p[i];
            }
            let rho_not = rho;
            for i in 0..n {
                rr[i] -= alpha * q[i];
            }
            rho = dot(&rr, &rr);
            let beta = rho / rho_not;
            for i in 0..n {
                p[i] = rr[i] + beta * p[i];
            }
        }
        zeta = shift + 1.0 / dot(&x, &z);
        let norm = dot(&z, &z).sqrt();
        for i in 0..n {
            x[i] = z[i] / norm;
        }
    }
    assert!(relative_error(zeta, 8.59717750786234) < 1.0e-10, "zeta {}", zeta);
}
