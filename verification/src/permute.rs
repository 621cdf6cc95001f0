//! The bit-reversal permutation that precedes the butterfly stages.

use crate::bits::{
    bit_length, lemma_pow2_of_bit_length, lemma_reverse_bits_bound,
    lemma_reverse_bits_involution, log2, rev_bits, reverse_bits,
};
use vstd::arithmetic::power2::{is_pow2, pow2};
use vstd::prelude::*;

verus! {

/// The partner of index `k` in a sequence of length `n`: `k` with its low
/// `L` bits reversed, where `n` has `L + 1` binary digits.
pub open spec fn rev_index(k: int, n: nat) -> int {
    reverse_bits(k as nat, (bit_length(n) - 1) as nat) as int
}

/// The sequence in bit-reversed order: position `i` holds what stood at the
/// bit reversal of `i`.
pub open spec fn bit_reversed<T>(s: Seq<T>) -> Seq<T> {
    Seq::new(s.len(), |i: int| s[rev_index(i, s.len())])
}

/// In a power-of-two length, index reversal maps the index range onto itself
/// and undoes itself.
pub proof fn lemma_rev_index_involution(k: int, n: nat)
    requires
        is_pow2(n as int),
        0 <= k < n,
    ensures
        0 <= rev_index(k, n) < n,
        rev_index(rev_index(k, n), n) == k,
{
    let bits = (bit_length(n) - 1) as nat;
    lemma_pow2_of_bit_length(n);
    lemma_reverse_bits_bound(k as nat, bits);
    lemma_reverse_bits_involution(k as nat, bits);
}

/// Permuting twice restores the order.
pub proof fn lemma_bit_reversed_twice<T>(s: Seq<T>)
    requires
        is_pow2(s.len() as int),
    ensures
        bit_reversed(bit_reversed(s)) == s,
{
    let n = s.len();
    assert forall|i: int| 0 <= i < n implies bit_reversed(bit_reversed(s))[i] == s[i] by {
        lemma_rev_index_involution(i, n);
    }
    assert(bit_reversed(bit_reversed(s)) =~= s);
}

/// Reorders `a` in place so that the element at index `i` moves to the bit
/// reversal of `i`. Each pair of partner indices is swapped exactly once and
/// indices that are their own reversal are left alone.
pub fn bit_reverse_permutation<T: Copy>(a: &mut Vec<T>)
    requires
        is_pow2(old(a).len() as int),
    ensures
        final(a)@ == bit_reversed(old(a)@),
{
    let n = a.len();
    let logn = log2(n);
    let ghost orig = a@;
    proof {
        lemma_pow2_of_bit_length(n as nat);
    }
    let mut i: usize = 0;
    while i < n
        invariant
            i <= n,
            a.len() == n,
            orig.len() == n,
            is_pow2(n as int),
            logn == bit_length(n as nat),
            logn >= 1,
            n == pow2((logn - 1) as nat),
            forall|k: int|
                0 <= k < n ==> #[trigger] a[k] == if k < i || rev_index(k, n as nat) < i {
                    orig[rev_index(k, n as nat)]
                } else {
                    orig[k]
                },
        decreases n - i,
    {
        proof {
            lemma_rev_index_involution(i as int, n as nat);
        }
        let j = rev_bits(i, logn);
        let ghost before = a@;
        if i < j {
            let tmp = a[i];
            let other = a[j];
            a.set(i, other);
            a.set(j, tmp);
        }
        proof {
            assert forall|k: int| 0 <= k < n implies #[trigger] a[k] == if k < i + 1 || rev_index(
                k,
                n as nat,
            ) < i + 1 {
                orig[rev_index(k, n as nat)]
            } else {
                orig[k]
            } by {
                lemma_rev_index_involution(k, n as nat);
                assert(before[k] == if k < i || rev_index(k, n as nat) < i {
                    orig[rev_index(k, n as nat)]
                } else {
                    orig[k]
                });
                assert(before[j as int] == if j < i || rev_index(j as int, n as nat) < i {
                    orig[rev_index(j as int, n as nat)]
                } else {
                    orig[j as int]
                });
                assert(before[i as int] == if i < i || rev_index(i as int, n as nat) < i {
                    orig[rev_index(i as int, n as nat)]
                } else {
                    orig[i as int]
                });
            }
        }
        i += 1;
    }
    assert(a@ =~= bit_reversed(orig));
}

} // verus!
