use fft::{fft, Arithmetic};
use num::complex::Complex64;
use std::f64::consts::PI;

fn complex_ops() -> Arithmetic<
    Complex64,
    impl Fn(usize, bool) -> Complex64,
    impl Fn(Complex64, Complex64) -> Complex64,
    impl Fn(Complex64, Complex64) -> Complex64,
    impl Fn(Complex64, Complex64) -> Complex64,
    impl Fn(Complex64, usize) -> Complex64,
> {
    Arithmetic {
        one: Complex64::new(1.0, 0.0),
        root: |len: usize, invert: bool| {
            let mut angle = 2.0 * PI / len as f64;
            if !invert {
                angle = -angle;
            }
            Complex64::new(angle.cos(), angle.sin())
        },
        mul: |x: Complex64, y: Complex64| x * y,
        add: |x: Complex64, y: Complex64| x + y,
        sub: |x: Complex64, y: Complex64| x - y,
        div: |x: Complex64, n: usize| x / n as f64,
    }
}

fn close(x: Complex64, y: Complex64, eps: f64) -> bool {
    (x.re - y.re).abs() < eps && (x.im - y.im).abs() < eps
}

fn naive_dft(x: &[Complex64], invert: bool) -> Vec<Complex64> {
    let n = x.len();
    let sign = if invert { 1.0 } else { -1.0 };
    let mut out = Vec::with_capacity(n);
    for k in 0..n {
        let mut sum = Complex64::new(0.0, 0.0);
        for (j, xj) in x.iter().enumerate() {
            let angle = sign * 2.0 * PI * ((j * k) % n) as f64 / n as f64;
            sum += xj * Complex64::new(angle.cos(), angle.sin());
        }
        if invert {
            sum /= n as f64;
        }
        out.push(sum);
    }
    out
}

fn ramp(n: usize) -> Vec<Complex64> {
    (0..n)
        .map(|i| Complex64::new((i % 10) as f64, ((i * 3) % 7) as f64 - 3.0))
        .collect()
}

#[test]
fn test() {
    let n = 8;
    let mut data: Vec<Complex64> = Vec::with_capacity(n);
    for i in 1..n + 1 {
        data.push(Complex64::new(i as f64, 0.0));
    }
    fft(&mut data, false, &complex_ops());
    let expected = vec![
        Complex64::new(36.0, 0.0),
        Complex64::new(-4.0, 9.656854),
        Complex64::new(-4.0, 4.0),
        Complex64::new(-4.0, 1.656854),
        Complex64::new(-4.0, 0.0),
        Complex64::new(-4.0, -1.656854),
        Complex64::new(-4.0, -4.0),
        Complex64::new(-4.0, -9.656854),
    ];
    let eps = 0.0001;
    for i in 0..n {
        assert!(data[i].re + eps > expected[i].re && data[i].re - eps < expected[i].re);
        assert!(data[i].im + eps > expected[i].im && data[i].im - eps < expected[i].im);
    }
}

#[test]
fn forward_matches_the_defining_sum() {
    for &n in &[1usize, 2, 4, 8, 16, 64, 256] {
        let input = ramp(n);
        let mut data = input.clone();
        fft(&mut data, false, &complex_ops());
        let expected = naive_dft(&input, false);
        for k in 0..n {
            assert!(close(data[k], expected[k], 1e-7), "n = {}, k = {}", n, k);
        }
    }
}

#[test]
fn inverse_matches_the_defining_sum_and_divides_by_the_length() {
    for &n in &[1usize, 2, 4, 8, 32, 128] {
        let input = ramp(n);
        let mut data = input.clone();
        fft(&mut data, true, &complex_ops());
        let expected = naive_dft(&input, true);
        for k in 0..n {
            assert!(close(data[k], expected[k], 1e-9), "n = {}, k = {}", n, k);
        }
    }
}

#[test]
fn inverse_of_constant_input_is_an_impulse_of_that_constant() {
    let mut data = vec![Complex64::new(5.0, -2.0); 16];
    fft(&mut data, true, &complex_ops());
    assert!(close(data[0], Complex64::new(5.0, -2.0), 1e-12));
    for k in 1..16 {
        assert!(close(data[k], Complex64::new(0.0, 0.0), 1e-12));
    }
}

#[test]
fn forward_then_inverse_restores_the_input() {
    for &n in &[1usize, 2, 8, 64, 1024] {
        let input = ramp(n);
        let mut data = input.clone();
        fft(&mut data, false, &complex_ops());
        fft(&mut data, true, &complex_ops());
        for k in 0..n {
            assert!(close(data[k], input[k], 1e-9), "n = {}, k = {}", n, k);
        }
    }
}

#[test]
fn inverse_then_forward_restores_the_input() {
    let input = ramp(128);
    let mut data = input.clone();
    fft(&mut data, true, &complex_ops());
    fft(&mut data, false, &complex_ops());
    for k in 0..128 {
        assert!(close(data[k], input[k], 1e-9));
    }
}

#[test]
fn forward_transform_is_linear() {
    let n = 64;
    let a = ramp(n);
    let b: Vec<Complex64> = (0..n)
        .map(|i| Complex64::new(((i * i) % 11) as f64 - 5.0, (i % 4) as f64))
        .collect();
    let mut sum: Vec<Complex64> = a.iter().zip(b.iter()).map(|(x, y)| x + y).collect();
    let mut fa = a.clone();
    let mut fb = b.clone();
    fft(&mut sum, false, &complex_ops());
    fft(&mut fa, false, &complex_ops());
    fft(&mut fb, false, &complex_ops());
    for k in 0..n {
        assert!(close(sum[k], fa[k] + fb[k], 1e-9));
    }
}

#[test]
fn single_sample_is_unchanged_in_both_directions() {
    let x = Complex64::new(3.25, -7.5);
    let mut forward = vec![x];
    fft(&mut forward, false, &complex_ops());
    assert_eq!(forward, vec![x]);
    let mut inverse = vec![x];
    fft(&mut inverse, true, &complex_ops());
    assert_eq!(inverse, vec![x]);
}

#[test]
fn impulse_transforms_to_all_ones() {
    for &n in &[2usize, 8, 64] {
        let mut data = vec![Complex64::new(0.0, 0.0); n];
        data[0] = Complex64::new(1.0, 0.0);
        fft(&mut data, false, &complex_ops());
        for k in 0..n {
            assert_eq!(data[k], Complex64::new(1.0, 0.0));
        }
    }
}

#[test]
fn two_samples_give_sum_and_difference() {
    let mut data = vec![Complex64::new(3.0, 1.0), Complex64::new(5.0, -2.0)];
    fft(&mut data, false, &complex_ops());
    assert!(close(data[0], Complex64::new(8.0, -1.0), 1e-12));
    assert!(close(data[1], Complex64::new(-2.0, 3.0), 1e-12));
}

#[test]
fn twiddle_table_matches_closed_form_roots() {
    let ops = complex_ops();
    let mut ws = vec![Complex64::new(9.0, 9.0); 3];
    for &len in &[2usize, 4, 8, 64, 1024] {
        for &invert in &[false, true] {
            let wn = (ops.root)(len, invert);
            ops.fill_twiddles(&mut ws, len / 2, wn);
            assert_eq!(ws.len(), len / 2);
            assert_eq!(ws[0], Complex64::new(1.0, 0.0));
            let sign = if invert { 1.0 } else { -1.0 };
            for (k, w) in ws.iter().enumerate() {
                let angle = sign * 2.0 * PI * k as f64 / len as f64;
                assert!(close(*w, Complex64::new(angle.cos(), angle.sin()), 1e-4));
            }
        }
    }
}
