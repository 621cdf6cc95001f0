use fft::{bit_reverse_permutation, is_power_of_two, log2, rev_bits};

#[test]
fn log2_counts_binary_digits() {
    assert_eq!(log2(0), 0);
    assert_eq!(log2(1), 1);
    assert_eq!(log2(2), 2);
    assert_eq!(log2(3), 2);
    assert_eq!(log2(4), 3);
    assert_eq!(log2(7), 3);
    assert_eq!(log2(8), 4);
    assert_eq!(log2(1023), 10);
    assert_eq!(log2(1024), 11);
    assert_eq!(log2(1024 * 1024), 21);
}

#[test]
fn log2_of_largest_word_is_word_size() {
    assert_eq!(log2(usize::MAX), usize::BITS as usize);
}

#[test]
fn rev_bits_of_eight_indices() {
    let logn = log2(8);
    let reversed: Vec<usize> = (0..8).map(|i| rev_bits(i, logn)).collect();
    assert_eq!(reversed, vec![0, 4, 2, 6, 1, 5, 3, 7]);
}

#[test]
fn rev_bits_of_sixteen_indices() {
    let logn = log2(16);
    let reversed: Vec<usize> = (0..16).map(|i| rev_bits(i, logn)).collect();
    assert_eq!(
        reversed,
        vec![0, 8, 4, 12, 2, 10, 6, 14, 1, 9, 5, 13, 3, 11, 7, 15]
    );
}

#[test]
fn rev_bits_over_zero_bits_is_zero() {
    assert_eq!(rev_bits(0, 1), 0);
    assert_eq!(rev_bits(5, 1), 0);
    assert_eq!(rev_bits(usize::MAX, 1), 0);
}

#[test]
fn rev_bits_ignores_bits_above_the_width() {
    assert_eq!(rev_bits(0b1001, 4), 0b100);
    assert_eq!(rev_bits(0b1110, 3), 0b01);
}

#[test]
fn rev_bits_over_the_whole_word() {
    let width = usize::BITS as usize;
    assert_eq!(rev_bits(1, width + 1), 1usize << (width - 1));
    assert_eq!(rev_bits(1usize << (width - 1), width + 1), 1);
    assert_eq!(rev_bits(usize::MAX, width + 1), usize::MAX);
}

#[test]
fn rev_bits_twice_is_identity() {
    for bits in 1..11usize {
        for i in 0..(1usize << bits) {
            let j = rev_bits(i, bits + 1);
            assert!(j < (1usize << bits));
            assert_eq!(rev_bits(j, bits + 1), i);
        }
    }
}

#[test]
fn permutation_of_eight_indices() {
    let mut data: Vec<usize> = (0..8).collect();
    bit_reverse_permutation(&mut data);
    assert_eq!(data, vec![0, 4, 2, 6, 1, 5, 3, 7]);
}

#[test]
fn permutation_moves_each_element_to_its_reversal() {
    let n = 64;
    let logn = log2(n);
    let input: Vec<u32> = (0..n as u32).map(|i| i * 7 + 3).collect();
    let mut data = input.clone();
    bit_reverse_permutation(&mut data);
    for i in 0..n {
        assert_eq!(data[rev_bits(i, logn)], input[i]);
    }
}

#[test]
fn permutation_twice_restores_order() {
    let input: Vec<i64> = (0..32).map(|i| 100 - i).collect();
    let mut data = input.clone();
    bit_reverse_permutation(&mut data);
    assert_ne!(data, input);
    bit_reverse_permutation(&mut data);
    assert_eq!(data, input);
}

#[test]
fn permutation_of_one_and_two_elements_changes_nothing() {
    let mut one = vec!['a'];
    bit_reverse_permutation(&mut one);
    assert_eq!(one, vec!['a']);
    let mut two = vec!['a', 'b'];
    bit_reverse_permutation(&mut two);
    assert_eq!(two, vec!['a', 'b']);
}

#[test]
fn permutation_of_four_swaps_the_middle() {
    let mut four = vec![10, 11, 12, 13];
    bit_reverse_permutation(&mut four);
    assert_eq!(four, vec![10, 12, 11, 13]);
}

#[test]
fn powers_of_two_are_recognised() {
    assert!(!is_power_of_two(0));
    assert!(is_power_of_two(1));
    assert!(is_power_of_two(2));
    assert!(!is_power_of_two(3));
    assert!(is_power_of_two(4));
    assert!(!is_power_of_two(6));
    assert!(is_power_of_two(1024));
    assert!(!is_power_of_two(1023));
    assert!(!is_power_of_two(1025));
    assert!(is_power_of_two(1usize << (usize::BITS - 1)));
    assert!(!is_power_of_two(usize::MAX));
}

#[test]
fn power_of_two_test_agrees_with_std() {
    for n in 0..5000usize {
        assert_eq!(is_power_of_two(n), n.is_power_of_two(), "n = {}", n);
    }
}
