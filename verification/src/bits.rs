//! Bit counting and bit reversal of indices.

use vstd::arithmetic::div_mod::{
    lemma_div_denominator, lemma_fundamental_div_mod_converse, lemma_hoist_over_denominator,
    lemma_mod_breakdown, lemma_mod_mod, lemma_mod_multiples_basic, lemma_mod_multiples_vanish,
};
use vstd::arithmetic::power::{lemma_pow_positive, pow};
use vstd::arithmetic::power2::{
    is_pow2, is_pow2_equiv, is_pow2_exists, lemma2_to64, lemma_pow2_adds, lemma_pow2_pos,
    lemma_pow2_strictly_increases, lemma_pow2_unfold, pow2,
};
use vstd::bits::lemma_usize_shl_is_mul;
use vstd::prelude::*;

verus! {

/// Number of binary digits of `a`: zero for zero, otherwise one more than
/// the position of the highest set bit.
pub open spec fn bit_length(a: nat) -> nat
    decreases a,
{
    if a == 0 {
        0
    } else {
        1 + bit_length(a / 2)
    }
}

/// The value whose `k` low bits are the `k` low bits of `a` in opposite
/// order: bit 0 of `a` lands at position `k - 1`, bit 1 at `k - 2`, and so on.
/// Bits of `a` at position `k` and above are ignored.
pub open spec fn reverse_bits(a: nat, k: nat) -> nat
    decreases k,
{
    if k == 0 {
        0
    } else if a % 2 == 1 {
        pow2((k - 1) as nat) + reverse_bits(a / 2, (k - 1) as nat)
    } else {
        reverse_bits(a / 2, (k - 1) as nat)
    }
}

/// Whether bit `j` of `a` is set.
pub open spec fn bit(a: nat, j: nat) -> bool {
    (a / pow2(j)) % 2 == 1
}

/// Zero is its own reversal over any width.
pub proof fn lemma_reverse_bits_zero(k: nat)
    ensures
        reverse_bits(0, k) == 0,
    decreases k,
{
    if k > 0 {
        lemma_reverse_bits_zero((k - 1) as nat);
    }
}

/// A reversal over `k` bits stays below `2^k`.
pub proof fn lemma_reverse_bits_bound(a: nat, k: nat)
    ensures
        reverse_bits(a, k) < pow2(k),
    decreases k,
{
    if k == 0 {
        lemma2_to64();
    } else {
        lemma_reverse_bits_bound(a / 2, (k - 1) as nat);
        lemma_pow2_unfold(k);
    }
}

/// The reversal read from the other end: the top bit of a `k`-bit value
/// becomes the lowest bit of its reversal.
proof fn lemma_reverse_bits_from_top(a: nat, k: nat)
    requires
        k >= 1,
        a < pow2(k),
    ensures
        reverse_bits(a, k) == 2 * reverse_bits(a % pow2((k - 1) as nat), (k - 1) as nat) + a
            / pow2((k - 1) as nat),
    decreases k,
{
    lemma2_to64();
    if k == 1 {
        assert(reverse_bits(a / 2, 0) == 0);
        assert(reverse_bits(a % 1, 0) == 0);
    } else {
        let upper = pow2((k - 1) as nat);
        let lower = pow2((k - 2) as nat);
        lemma_pow2_unfold(k);
        lemma_pow2_unfold((k - 1) as nat);
        lemma_pow2_pos((k - 2) as nat);
        assert(upper == 2 * lower);
        assert(a / 2 < upper);
        lemma_reverse_bits_from_top(a / 2, (k - 1) as nat);
        lemma_div_denominator(a as int, 2, lower as int);
        lemma_mod_mod(a as int, 2, lower as int);
        lemma_mod_breakdown(a as int, 2, lower as int);
        assert((a / 2) / lower == a / upper);
        assert((a % upper) % 2 == a % 2);
        assert((a % upper) / 2 == (a / 2) % lower);
        let low = reverse_bits((a / 2) % lower, (k - 2) as nat);
        assert(reverse_bits(a % upper, (k - 1) as nat) == if a % 2 == 1 {
            lower + low
        } else {
            low
        });
        assert(reverse_bits(a / 2, (k - 1) as nat) == 2 * low + a / upper);
    }
}

/// Reversing twice over the same width gives the value back.
pub proof fn lemma_reverse_bits_involution(a: nat, k: nat)
    requires
        a < pow2(k),
    ensures
        reverse_bits(reverse_bits(a, k), k) == a,
    decreases k,
{
    lemma2_to64();
    if k > 0 {
        let upper = pow2((k - 1) as nat);
        let r = reverse_bits(a / 2, (k - 1) as nat);
        let b = reverse_bits(a, k);
        lemma_pow2_unfold(k);
        lemma_pow2_pos((k - 1) as nat);
        lemma_reverse_bits_bound(a / 2, (k - 1) as nat);
        lemma_reverse_bits_bound(a, k);
        lemma_reverse_bits_involution(a / 2, (k - 1) as nat);
        lemma_reverse_bits_from_top(b, k);
        assert(b == upper * (a % 2) + r) by (nonlinear_arith)
            requires
                b == if a % 2 == 1 {
                    upper + r
                } else {
                    r
                },
                a % 2 == 0 || a % 2 == 1,
        ;
        lemma_fundamental_div_mod_converse(b as int, upper as int, (a % 2) as int, r as int);
    }
}

/// Bit `j` of a reversal over `k` bits is bit `k - 1 - j` of the value
/// reversed.
pub proof fn lemma_reverse_bits_mirrors(a: nat, k: nat, j: nat)
    requires
        j < k,
    ensures
        bit(reverse_bits(a, k), j) == bit(a, (k - 1 - j) as nat),
    decreases k,
{
    let upper = pow2((k - 1) as nat);
    let r = reverse_bits(a / 2, (k - 1) as nat);
    let b: nat = a % 2;
    let v = reverse_bits(a, k);
    lemma2_to64();
    lemma_pow2_pos((k - 1) as nat);
    lemma_reverse_bits_bound(a / 2, (k - 1) as nat);
    assert(b * upper == if b == 1 {
        upper
    } else {
        0
    }) by (nonlinear_arith)
        requires
            b == 0 || b == 1,
    ;
    assert(v == b * upper + r);
    if j == k - 1 {
        lemma_fundamental_div_mod_converse(v as int, upper as int, b as int, r as int);
        assert(v / upper == b);
        assert(bit(v, j) == (b == 1));
        assert(bit(a, 0) == (b == 1));
    } else {
        let pj = pow2(j);
        let q = pow2((k - 1 - j) as nat);
        let h = pow2((k - 2 - j) as nat);
        lemma_pow2_pos(j);
        lemma_pow2_adds(j, (k - 1 - j) as nat);
        lemma_pow2_unfold((k - 1 - j) as nat);
        assert(upper == pj * q);
        assert(q == 2 * h);
        assert(b * upper == (b * q) * pj) by (nonlinear_arith)
            requires
                upper == pj * q,
        ;
        lemma_hoist_over_denominator(r as int, (b * q) as int, pj);
        assert(v as int / pj as int == r as int / pj as int + b * q);
        assert(b * q == 2 * (b * h)) by (nonlinear_arith)
            requires
                q == 2 * h,
        ;
        lemma_mod_multiples_vanish((b * h) as int, r as int / pj as int, 2);
        assert(bit(v, j) == bit(r, j));
        lemma_reverse_bits_mirrors(a / 2, (k - 1) as nat, j);
        lemma_pow2_pos((k - 2 - j) as nat);
        lemma_div_denominator(a as int, 2, h as int);
        assert(bit(r, j) == bit(a / 2, (k - 2 - j) as nat));
        assert((a / 2) / h == a / q);
        assert(bit(a / 2, (k - 2 - j) as nat) == bit(a, (k - 1 - j) as nat));
    }
}

/// A power of two `2^L` has `L + 1` binary digits.
pub proof fn lemma_bit_length_pow2(e: nat)
    ensures
        bit_length(pow2(e)) == e + 1,
    decreases e,
{
    lemma2_to64();
    if e == 0 {
        assert(bit_length(1) == 1 + bit_length(0));
    } else {
        lemma_pow2_unfold(e);
        lemma_pow2_pos((e - 1) as nat);
        lemma_bit_length_pow2((e - 1) as nat);
        assert(pow2(e) / 2 == pow2((e - 1) as nat));
    }
}

/// A power of two is two raised to one less than its digit count.
pub proof fn lemma_pow2_of_bit_length(n: nat)
    requires
        is_pow2(n as int),
    ensures
        n >= 1,
        n == pow2((bit_length(n) - 1) as nat),
    decreases n,
{
    reveal(is_pow2);
    lemma2_to64();
    if n == 1 {
        assert(bit_length(1) == 1 + bit_length(0));
    } else {
        lemma_pow2_of_bit_length(n / 2);
        lemma_pow2_unfold((bit_length(n) - 1) as nat);
    }
}

/// A positive number lies between the power of two below its digit count
/// and the power of two at its digit count.
pub proof fn lemma_bit_length_brackets(n: nat)
    requires
        n >= 1,
    ensures
        pow2((bit_length(n) - 1) as nat) <= n < pow2(bit_length(n)),
    decreases n,
{
    lemma2_to64();
    if n == 1 {
        assert(bit_length(1) == 1 + bit_length(0));
    } else {
        lemma_bit_length_brackets(n / 2);
        lemma_pow2_unfold(bit_length(n));
        lemma_pow2_unfold((bit_length(n) - 1) as nat);
    }
}

/// Every power of two is a power of two.
pub proof fn lemma_pow2_is_pow2(e: nat)
    ensures
        is_pow2(pow2(e) as int),
{
    lemma_pow_positive(2, e);
    assert(pow(2, e) == pow2(e) as int);
    assert(is_pow2_exists(pow2(e) as int));
    is_pow2_equiv(pow2(e) as int);
}

/// The span `2^step` of a stage against a length `2^top`: the span is even,
/// at least two, at most the length, and divides the length.
pub proof fn lemma_span_divides(step: nat, top: nat)
    requires
        1 <= step <= top,
    ensures
        2 <= pow2(step) <= pow2(top),
        pow2(step) == 2 * pow2((step - 1) as nat),
        pow2(top) as int % pow2(step) as int == 0,
{
    let span = pow2(step);
    let rest = pow2((top - step) as nat);
    lemma_pow2_adds(step, (top - step) as nat);
    lemma_pow2_pos((top - step) as nat);
    lemma_pow2_pos((step - 1) as nat);
    lemma_pow2_unfold(step);
    assert(span <= span * rest) by (nonlinear_arith)
        requires
            rest >= 1,
            span >= 0,
    ;
    assert(span * rest == rest * span) by (nonlinear_arith);
    lemma_mod_multiples_basic(rest as int, span as int);
}

/// Counts the binary digits of `a`.
///
/// For a power of two `a == 2^L` the result is `L + 1`.
pub fn log2(a: usize) -> (res: usize)
    ensures
        res == bit_length(a as nat),
{
    let mut tmp: usize = a;
    let mut res: usize = 0;
    while tmp > 0
        invariant
            res + bit_length(tmp as nat) == bit_length(a as nat),
            res + tmp <= a,
        decreases tmp,
    {
        tmp /= 2;
        res += 1;
    }
    res
}

/// Whether `n` is a power of two.
pub fn is_power_of_two(n: usize) -> (b: bool)
    ensures
        b == is_pow2(n as int),
{
    if n == 0 {
        proof {
            reveal(is_pow2);
        }
        return false;
    }
    let digits = log2(n);
    proof {
        let e = (digits - 1) as nat;
        lemma_bit_length_brackets(n as nat);
        lemma2_to64();
        if e >= usize::BITS {
            if e > usize::BITS {
                lemma_pow2_strictly_increases(usize::BITS as nat, e);
            }
        }
        lemma_usize_shl_is_mul(1, (digits - 1) as usize);
        lemma_pow2_is_pow2(e);
        if is_pow2(n as int) {
            lemma_pow2_of_bit_length(n as nat);
        }
    }
    (1usize << (digits - 1)) == n
}

/// One round of the shift-and-insert loop: moving the low bit of `tmp` to
/// the bottom of the accumulator keeps the combined value unchanged, and the
/// accumulator never exceeds that value.
proof fn lemma_reverse_round(acc: nat, tmp: nat, m: nat)
    requires
        m >= 1,
    ensures
        acc * pow2(m) + reverse_bits(tmp, m) == (2 * acc + tmp % 2) * pow2((m - 1) as nat)
            + reverse_bits(tmp / 2, (m - 1) as nat),
        2 * acc + tmp % 2 <= acc * pow2(m) + reverse_bits(tmp, m),
{
    let p = pow2((m - 1) as nat);
    let b = tmp % 2;
    lemma_pow2_unfold(m);
    lemma_pow2_pos((m - 1) as nat);
    assert(acc * (2 * p) + b * p == (2 * acc + b) * p) by (nonlinear_arith);
    assert(b * p == if b == 1 {
        p
    } else {
        0
    }) by (nonlinear_arith)
        requires
            b == 0 || b == 1,
    ;
    assert(2 * acc + b <= (2 * acc + b) * p) by (nonlinear_arith)
        requires
            p >= 1,
    ;
}

/// Reverses the low `log - 1` bits of `a`.
///
/// `log` is the bit count of the transform length as [`log2`] reports it, so
/// for a length `2^L` the reversal is over `L` bits. The reversed value has
/// to fit the machine word, which it always does when `log - 1` is at most
/// the word size.
pub fn rev_bits(a: usize, log: usize) -> (res: usize)
    requires
        log >= 1,
        reverse_bits(a as nat, (log - 1) as nat) <= usize::MAX,
    ensures
        res == reverse_bits(a as nat, (log - 1) as nat),
{
    let mut tmp: usize = a;
    let mut res: usize = 0;
    let mut i: usize = 0;
    proof {
        lemma_pow2_pos((log - 1) as nat);
        assert(0 * pow2((log - 1) as nat) == 0) by (nonlinear_arith);
    }
    while i < log - 1
        invariant
            log >= 1,
            i <= log - 1,
            reverse_bits(a as nat, (log - 1) as nat) <= usize::MAX,
            reverse_bits(a as nat, (log - 1) as nat) == res * pow2((log - 1 - i) as nat)
                + reverse_bits(tmp as nat, (log - 1 - i) as nat),
        decreases log - 1 - i,
    {
        proof {
            lemma_reverse_round(res as nat, tmp as nat, (log - 1 - i) as nat);
            assert(tmp & 1 == tmp % 2) by (bit_vector);
        }
        res *= 2;
        res += tmp & 1;
        tmp /= 2;
        i += 1;
    }
    proof {
        lemma2_to64();
        assert(res * pow2(0) == res) by (nonlinear_arith)
            requires
                pow2(0) == 1,
        ;
    }
    res
}

} // verus!
