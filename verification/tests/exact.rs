use fft::{fft, try_fft, Arithmetic, LengthError};

const P: u64 = 257;

fn pow_mod(base: u64, exp: u64) -> u64 {
    let mut result = 1;
    for _ in 0..exp {
        result = result * base % P;
    }
    result
}

// Arithmetic modulo the prime 257, in which 3 generates the 256 non-zero
// residues, so every power-of-two length up to 256 has a primitive root.
fn modular_ops() -> Arithmetic<
    u64,
    impl Fn(usize, bool) -> u64,
    impl Fn(u64, u64) -> u64,
    impl Fn(u64, u64) -> u64,
    impl Fn(u64, u64) -> u64,
    impl Fn(u64, usize) -> u64,
> {
    Arithmetic {
        one: 1,
        root: |len: usize, invert: bool| {
            let forward = pow_mod(3, 256 / len as u64);
            if invert {
                pow_mod(forward, P - 2)
            } else {
                forward
            }
        },
        mul: |x: u64, y: u64| x * y % P,
        add: |x: u64, y: u64| (x + y) % P,
        sub: |x: u64, y: u64| (x + P - y) % P,
        div: |x: u64, n: usize| x * pow_mod(n as u64 % P, P - 2) % P,
    }
}

fn plain_ops() -> Arithmetic<
    i64,
    impl Fn(usize, bool) -> i64,
    impl Fn(i64, i64) -> i64,
    impl Fn(i64, i64) -> i64,
    impl Fn(i64, i64) -> i64,
    impl Fn(i64, usize) -> i64,
> {
    Arithmetic {
        one: 1,
        root: |len: usize, invert: bool| if invert { -(len as i64) } else { len as i64 },
        mul: |x: i64, y: i64| x * y,
        add: |x: i64, y: i64| x + y,
        sub: |x: i64, y: i64| x - y,
        div: |x: i64, n: usize| x / n as i64,
    }
}

fn naive_transform(x: &[u64]) -> Vec<u64> {
    let n = x.len();
    let w = pow_mod(3, 256 / n as u64);
    (0..n)
        .map(|k| {
            let mut sum = 0;
            for (j, xj) in x.iter().enumerate() {
                sum = (sum + xj * pow_mod(w, (j * k % n) as u64)) % P;
            }
            sum
        })
        .collect()
}

fn samples(n: usize) -> Vec<u64> {
    (0..n as u64).map(|i| (i * i * 5 + i * 3 + 7) % P).collect()
}

#[test]
fn modular_forward_equals_the_defining_sum() {
    for &n in &[1usize, 2, 4, 8, 16, 32, 256] {
        let input = samples(n);
        let mut data = input.clone();
        fft(&mut data, false, &modular_ops());
        assert_eq!(data, naive_transform(&input), "n = {}", n);
    }
}

#[test]
fn modular_round_trip_is_exact() {
    for &n in &[1usize, 2, 4, 8, 64, 256] {
        let input = samples(n);
        let mut data = input.clone();
        fft(&mut data, false, &modular_ops());
        fft(&mut data, true, &modular_ops());
        assert_eq!(data, input, "forward then inverse, n = {}", n);
        fft(&mut data, true, &modular_ops());
        fft(&mut data, false, &modular_ops());
        assert_eq!(data, input, "inverse then forward, n = {}", n);
    }
}

#[test]
fn modular_forward_is_linear() {
    let n = 32;
    let a = samples(n);
    let b: Vec<u64> = (0..n as u64).map(|i| (i * 11 + 250) % P).collect();
    let mut sum: Vec<u64> = a.iter().zip(b.iter()).map(|(x, y)| (x + y) % P).collect();
    let mut fa = a.clone();
    let mut fb = b.clone();
    fft(&mut sum, false, &modular_ops());
    fft(&mut fa, false, &modular_ops());
    fft(&mut fb, false, &modular_ops());
    let expected: Vec<u64> = fa.iter().zip(fb.iter()).map(|(x, y)| (x + y) % P).collect();
    assert_eq!(sum, expected);
}

#[test]
fn modular_impulse_gives_all_ones() {
    let mut data = vec![0u64; 16];
    data[0] = 1;
    fft(&mut data, false, &modular_ops());
    assert_eq!(data, vec![1u64; 16]);
}

#[test]
fn modular_eight_samples_exact_values() {
    let mut data: Vec<u64> = (1..9).collect();
    fft(&mut data, false, &modular_ops());
    assert_eq!(data, naive_transform(&[1, 2, 3, 4, 5, 6, 7, 8]));
    assert_eq!(data[0], 36);
    assert_eq!(data[4], P - 4);
}

#[test]
fn single_sample_forward_is_untouched_and_inverse_divides_by_one() {
    let ops = Arithmetic {
        one: 1i64,
        root: |_len: usize, _invert: bool| 1i64,
        mul: |x: i64, y: i64| x * y,
        add: |x: i64, y: i64| x + y,
        sub: |x: i64, y: i64| x - y,
        div: |x: i64, n: usize| 1000 * x + n as i64,
    };
    let mut forward = vec![42i64];
    fft(&mut forward, false, &ops);
    assert_eq!(forward, vec![42]);
    let mut inverse = vec![42i64];
    fft(&mut inverse, true, &ops);
    assert_eq!(inverse, vec![42001]);
}

#[test]
fn stage_lengths_and_directions_reach_the_root_in_ascending_order() {
    let seen = std::cell::RefCell::new(Vec::new());
    let ops = Arithmetic {
        one: 1i64,
        root: |len: usize, invert: bool| {
            seen.borrow_mut().push((len, invert));
            1i64
        },
        mul: |x: i64, y: i64| x * y,
        add: |x: i64, y: i64| x + y,
        sub: |x: i64, y: i64| x - y,
        div: |x: i64, _n: usize| x,
    };
    let mut data = vec![0i64; 16];
    fft(&mut data, false, &ops);
    fft(&mut data, true, &ops);
    assert_eq!(
        *seen.borrow(),
        vec![
            (2, false),
            (4, false),
            (8, false),
            (16, false),
            (2, true),
            (4, true),
            (8, true),
            (16, true)
        ]
    );
}

#[test]
fn twiddles_are_successive_products() {
    let ops = plain_ops();
    let mut ws = vec![99, 98];
    ops.fill_twiddles(&mut ws, 5, 3);
    assert_eq!(ws, vec![1, 3, 9, 27, 81]);
    ops.fill_twiddles(&mut ws, 1, 3);
    assert_eq!(ws, vec![1]);
}

#[test]
fn stage_of_span_two_pairs_neighbours() {
    let ops = plain_ops();
    let mut data = vec![10, 3, 7, 20];
    ops.butterfly_stage(&mut data, 2, &vec![1]);
    assert_eq!(data, vec![13, 7, 27, -13]);
}

#[test]
fn stage_of_span_four_uses_the_twiddle_of_each_offset() {
    let ops = plain_ops();
    let mut data = vec![1, 2, 3, 4, 5, 6, 7, 8];
    ops.butterfly_stage(&mut data, 4, &vec![10, 100]);
    // u + v and u - v with v = lower * twiddle, read before either is written
    assert_eq!(
        data,
        vec![
            1 + 30,
            2 + 400,
            1 - 30,
            2 - 400,
            5 + 70,
            6 + 800,
            5 - 70,
            6 - 800
        ]
    );
}

#[test]
fn stage_multiplies_the_lower_value_by_the_twiddle_in_that_order() {
    let ops = Arithmetic {
        one: 0i64,
        root: |_len: usize, _invert: bool| 0i64,
        mul: |x: i64, y: i64| 10 * x + y,
        add: |x: i64, y: i64| 100 * x + y,
        sub: |x: i64, y: i64| -(100 * x + y),
        div: |x: i64, _n: usize| x,
    };
    let mut data = vec![1, 2];
    ops.butterfly_stage(&mut data, 2, &vec![7]);
    assert_eq!(data, vec![100 + 27, -(100 + 27)]);
}

#[test]
fn normalize_divides_every_entry_by_the_length() {
    let ops = plain_ops();
    let mut data = vec![8, -16, 4, 0];
    ops.normalize(&mut data);
    assert_eq!(data, vec![2, -4, 1, 0]);
}

#[test]
fn forward_transform_does_not_divide() {
    let ops = Arithmetic {
        one: 1i64,
        root: |_len: usize, _invert: bool| 1i64,
        mul: |x: i64, y: i64| x * y,
        add: |x: i64, y: i64| x + y,
        sub: |x: i64, y: i64| x - y,
        div: |_x: i64, _n: usize| -1,
    };
    let mut data = vec![1, 2, 3, 4];
    fft(&mut data, false, &ops);
    // with every root equal to one: [1, 3, 2, 4] -> [4, -2, 6, -2] -> below
    assert_eq!(data, vec![10, -4, -2, 0]);
    fft(&mut data, true, &ops);
    assert_eq!(data, vec![-1, -1, -1, -1]);
}

#[test]
fn checked_transform_accepts_powers_of_two() {
    for &n in &[1usize, 2, 4, 64] {
        let input = samples(n);
        let mut checked = input.clone();
        let mut plain = input.clone();
        assert_eq!(try_fft(&mut checked, false, &modular_ops()), Ok(()));
        fft(&mut plain, false, &modular_ops());
        assert_eq!(checked, plain);
    }
}

#[test]
fn checked_transform_refuses_empty_input() {
    let mut data: Vec<u64> = Vec::new();
    assert_eq!(
        try_fft(&mut data, false, &modular_ops()),
        Err(LengthError::Empty)
    );
    assert_eq!(
        try_fft(&mut data, true, &modular_ops()),
        Err(LengthError::Empty)
    );
    assert!(data.is_empty());
}

#[test]
fn checked_transform_refuses_other_lengths_and_leaves_the_data() {
    for &n in &[3usize, 5, 6, 7, 12, 100] {
        let input = samples(n);
        let mut data = input.clone();
        assert_eq!(
            try_fft(&mut data, false, &modular_ops()),
            Err(LengthError::NotPowerOfTwo)
        );
        assert_eq!(data, input);
        assert_eq!(
            try_fft(&mut data, true, &modular_ops()),
            Err(LengthError::NotPowerOfTwo)
        );
        assert_eq!(data, input);
    }
}
