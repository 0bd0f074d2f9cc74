use fft::bits::{log2_of, reverse_index};
use fft::engine::{transform_parallel, transform_sequential};
use fft::permute::bit_reverse_permute;
use rustfft::num_complex::Complex64;
use rustfft::FftPlanner;
use std::f64::consts::PI;

type C = (f64, f64);

/// The radix-2 butterfly over (re, im) pairs: weight the second input by the
/// twiddle factor exp(-2*pi*i*j/len) and return (u + w*v, u - w*v).
fn butterfly(len: usize, j: usize, u: C, v: C) -> (C, C) {
    let ang = -2.0 * PI * (j as f64) / (len as f64);
    let (s, c) = ang.sin_cos();
    let vr = c * v.0 - s * v.1;
    let vi = c * v.1 + s * v.0;
    ((u.0 + vr, u.1 + vi), (u.0 - vr, u.1 - vi))
}

fn fft_seq(v: &mut Vec<C>) {
    let n = v.len();
    let factor = if n > 0 { 1.0 / (n as f64).sqrt() } else { 1.0 };
    transform_sequential(v, butterfly, move |x: C| (x.0 * factor, x.1 * factor));
}

fn fft_par(v: &mut Vec<C>) {
    let n = v.len();
    let factor = if n > 0 { 1.0 / (n as f64).sqrt() } else { 1.0 };
    transform_parallel(v, butterfly, move |x: C| (x.0 * factor, x.1 * factor));
}

fn gen_signal(n: usize) -> Vec<C> {
    let mut v = Vec::with_capacity(n);
    for i in 0..n {
        let theta = i as f64 / n as f64 * PI;
        let re = (10.0 * theta).cos() + 0.5 * (25.0 * theta).cos();
        let im = (10.0 * theta).sin() + 0.5 * (25.0 * theta).sin();
        v.push((re, im));
    }
    v
}

fn approx_eq(a: &[C], b: &[C], tol: f64) -> bool {
    if a.len() != b.len() {
        return false;
    }
    for (x, y) in a.iter().zip(b.iter()) {
        if (x.0 - y.0).abs() > tol || (x.1 - y.1).abs() > tol {
            return false;
        }
    }
    true
}

#[test]
fn compare_against_rustfft_multiple_sizes() {
    let sizes = [2usize, 4, 8, 16, 32, 64, 128, 256, 512, 1024];
    for &n in &sizes {
        let mut ours = gen_signal(n);
        let mut theirs: Vec<Complex64> =
            ours.iter().map(|c| Complex64 { re: c.0, im: c.1 }).collect();

        let mut planner = FftPlanner::<f64>::new();
        let rustfft_plan = planner.plan_fft_forward(n);
        rustfft_plan.process(&mut theirs);
        let scale = 1.0 / (n as f64).sqrt();
        for x in theirs.iter_mut() {
            *x = *x * scale;
        }

        fft_seq(&mut ours);
        let theirs_back: Vec<C> = theirs.iter().map(|c| (c.re, c.im)).collect();

        assert!(approx_eq(&ours, &theirs_back, 1e-9), "Mismatch at n={}", n);
    }
}

#[test]
fn parallel_matches_sequential_exactly() {
    let sizes = [2usize, 4, 8, 16, 64, 256, 1024];
    for &n in &sizes {
        let mut a = gen_signal(n);
        let mut b = a.clone();
        fft_seq(&mut a);
        fft_par(&mut b);
        assert_eq!(a, b, "parallel result differs at n={}", n);
    }
}

#[test]
fn bit_reversal_is_self_inverse() {
    let orig: Vec<u64> = (0..64).collect();
    let mut v = orig.clone();
    bit_reverse_permute(&mut v);
    assert_ne!(v, orig);
    bit_reverse_permute(&mut v);
    assert_eq!(v, orig);
}

#[test]
fn bit_reversal_order_len8() {
    let mut v: Vec<u64> = (0..8).collect();
    bit_reverse_permute(&mut v);
    assert_eq!(v, vec![0, 4, 2, 6, 1, 5, 3, 7]);
}

#[test]
fn empty_and_single_are_noops() {
    let mut empty: Vec<C> = Vec::new();
    fft_seq(&mut empty);
    assert!(empty.is_empty());
    fft_par(&mut empty);
    assert!(empty.is_empty());

    let mut single = vec![(3.25, -1.5)];
    fft_seq(&mut single);
    assert_eq!(single, vec![(3.25, -1.5)]);
    fft_par(&mut single);
    assert_eq!(single, vec![(3.25, -1.5)]);
}

#[test]
fn impulse_len8_gives_constant_spectrum() {
    let mut v: Vec<C> = vec![(0.0, 0.0); 8];
    v[0] = (1.0, 0.0);
    fft_seq(&mut v);
    let expected = 1.0 / 8f64.sqrt();
    for x in &v {
        assert!((x.0 - expected).abs() < 1e-9 && x.1.abs() < 1e-9, "got {:?}", x);
    }

    let mut w: Vec<C> = vec![(0.0, 0.0); 8];
    w[0] = (1.0, 0.0);
    fft_par(&mut w);
    for x in &w {
        assert!((x.0 - expected).abs() < 1e-9 && x.1.abs() < 1e-9, "got {:?}", x);
    }
}

#[test]
fn transform_is_linear() {
    let n = 16usize;
    let x = gen_signal(n);
    let y: Vec<C> = (0..n).map(|i| ((i as f64).sin(), (3.0 * i as f64).cos())).collect();
    let (a, b) = (2.5, -1.25);

    let mut combined: Vec<C> = (0..n)
        .map(|i| (a * x[i].0 + b * y[i].0, a * x[i].1 + b * y[i].1))
        .collect();
    fft_seq(&mut combined);

    let mut tx = x.clone();
    fft_seq(&mut tx);
    let mut ty = y.clone();
    fft_seq(&mut ty);
    let recombined: Vec<C> = (0..n)
        .map(|i| (a * tx[i].0 + b * ty[i].0, a * tx[i].1 + b * ty[i].1))
        .collect();

    assert!(approx_eq(&combined, &recombined, 1e-9));
}

#[test]
fn unitary_scaling_preserves_energy() {
    let n = 256usize;
    let input = gen_signal(n);
    let energy_in: f64 = input.iter().map(|c| c.0 * c.0 + c.1 * c.1).sum();
    let mut output = input.clone();
    fft_seq(&mut output);
    let energy_out: f64 = output.iter().map(|c| c.0 * c.0 + c.1 * c.1).sum();
    assert!(
        (energy_in - energy_out).abs() < 1e-9 * energy_in.max(1.0),
        "energy in {} vs out {}",
        energy_in,
        energy_out
    );
}

#[test]
fn reverse_index_small_values() {
    assert_eq!(reverse_index(0, 3), 0);
    assert_eq!(reverse_index(1, 3), 4);
    assert_eq!(reverse_index(3, 3), 6);
    assert_eq!(reverse_index(6, 4), 6);
    assert_eq!(reverse_index(1, 10), 512);
}

#[test]
fn log2_of_powers() {
    assert_eq!(log2_of(1), 0);
    assert_eq!(log2_of(2), 1);
    assert_eq!(log2_of(1024), 10);
}
