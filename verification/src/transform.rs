//! The transform itself: permutation, stages in ascending span, and the
//! normalization of an inverse transform.

use crate::arith::Arithmetic;
use crate::bits::{
    bit_length, is_power_of_two, lemma_pow2_of_bit_length, lemma_span_divides, log2,
};
use crate::permute::{bit_reverse_permutation, bit_reversed};
use vstd::arithmetic::power2::{is_pow2, lemma2_to64, lemma_pow2_strictly_increases, pow2};
use vstd::bits::lemma_usize_shl_is_mul;
use vstd::prelude::*;

verus! {

/// A span `2^step` that is at most a machine word has its exponent below the
/// word size.
proof fn lemma_span_exponent(step: nat, n: usize)
    requires
        pow2(step) <= n,
    ensures
        step < usize::BITS,
{
    if step >= usize::BITS {
        lemma2_to64();
        if step > usize::BITS {
            lemma_pow2_strictly_increases(usize::BITS as nat, step);
        }
    }
}

impl<T: Copy, R, M, A, S, D> Arithmetic<T, R, M, A, S, D> where
    R: Fn(usize, bool) -> T,
    M: Fn(T, T) -> T,
    A: Fn(T, T) -> T,
    S: Fn(T, T) -> T,
    D: Fn(T, usize) -> T,
 {
    /// Divides every entry of `a` by the length of `a`.
    pub fn normalize(&self, a: &mut Vec<T>)
        requires
            forall|x: T| #[trigger] self.div.requires((x, old(a).len())),
        ensures
            self.normalized(old(a)@, final(a)@),
    {
        let n = a.len();
        let ghost orig = a@;
        let mut i: usize = 0;
        while i < n
            invariant
                i <= n,
                a.len() == n,
                orig.len() == n,
                forall|x: T| #[trigger] self.div.requires((x, n)),
                forall|k: int| 0 <= k < i ==> self.div.ensures((orig[k], n), #[trigger] a[k]),
                forall|k: int| i <= k < n ==> #[trigger] a[k] == orig[k],
            decreases n - i,
        {
            let scaled = (self.div)(a[i], n);
            a.set(i, scaled);
            i += 1;
        }
    }
}

/// Transforms `a` in place: forward when `invert` is false, inverse (with
/// the division by the length) when it is true.
///
/// The length has to be a power of two; the arithmetic has to accept every
/// operand the engine can hand it.
pub fn fft<T: Copy, R, M, A, S, D>(
    a: &mut Vec<T>,
    invert: bool,
    ops: &Arithmetic<T, R, M, A, S, D>,
) where
    R: Fn(usize, bool) -> T,
    M: Fn(T, T) -> T,
    A: Fn(T, T) -> T,
    S: Fn(T, T) -> T,
    D: Fn(T, usize) -> T,

    requires
        is_pow2(old(a).len() as int),
        ops.combines_any(),
        forall|len: usize| 2 <= len <= old(a).len() ==> #[trigger] ops.root.requires((len, invert)),
        invert ==> forall|x: T| #[trigger] ops.div.requires((x, old(a).len())),
    ensures
        ops.transform(old(a)@, final(a)@, invert),
        final(a).len() == old(a).len(),
        old(a).len() == 1 && !invert ==> final(a)@ == old(a)@,
{
    let n = a.len();
    let logn = log2(n);
    let ghost input = a@;
    proof {
        lemma_pow2_of_bit_length(n as nat);
    }
    bit_reverse_permutation(a);
    let ghost permuted = a@;
    let mut ws: Vec<T> = Vec::new();
    let mut step: usize = 1;
    while step < logn
        invariant
            1 <= step <= logn,
            logn == bit_length(n as nat),
            n == pow2((logn - 1) as nat),
            a.len() == n,
            ops.combines_any(),
            forall|len: usize| 2 <= len <= n ==> #[trigger] ops.root.requires((len, invert)),
            ops.network(permuted, a@, (step - 1) as nat, invert),
        decreases logn - step,
    {
        proof {
            lemma_span_divides(step as nat, (logn - 1) as nat);
            lemma_span_exponent(step as nat, n);
            lemma_usize_shl_is_mul(1, step);
        }
        let len = 1usize << step;
        let wn = (ops.root)(len, invert);
        ops.fill_twiddles(&mut ws, len / 2, wn);
        let ghost mid = a@;
        ops.butterfly_stage(a, len, &ws);
        proof {
            assert(ops.stage_with(mid, a@, step as nat, invert, wn, ws@));
        }
        step += 1;
    }
    if invert {
        ops.normalize(a);
    }
    proof {
        ops.lemma_transform_len(input, a@, invert);
        if n == 1 {
            ops.lemma_transform_single(input, a@, invert);
        }
    }
}

/// Why [`try_fft`] left its input alone.
#[derive(Debug, Clone, Copy, PartialEq, Eq)]
pub enum LengthError {
    /// There are no samples.
    Empty,
    /// The number of samples is not a power of two.
    NotPowerOfTwo,
}

/// Transforms `a` in place like [`fft`] after checking its length. A length
/// that is zero or not a power of two is refused, and `a` is not touched.
pub fn try_fft<T: Copy, R, M, A, S, D>(
    a: &mut Vec<T>,
    invert: bool,
    ops: &Arithmetic<T, R, M, A, S, D>,
) -> (res: Result<(), LengthError>) where
    R: Fn(usize, bool) -> T,
    M: Fn(T, T) -> T,
    A: Fn(T, T) -> T,
    S: Fn(T, T) -> T,
    D: Fn(T, usize) -> T,

    requires
        ops.combines_any(),
        forall|len: usize| 2 <= len <= old(a).len() ==> #[trigger] ops.root.requires((len, invert)),
        invert ==> forall|x: T| #[trigger] ops.div.requires((x, old(a).len())),
    ensures
        res == Err::<(), LengthError>(LengthError::Empty) <==> old(a).len() == 0,
        res == Err::<(), LengthError>(LengthError::NotPowerOfTwo) <==> old(a).len() > 0 && !is_pow2(
            old(a).len() as int,
        ),
        res is Ok <==> is_pow2(old(a).len() as int),
        res is Ok ==> ops.transform(old(a)@, final(a)@, invert),
        res is Err ==> final(a)@ == old(a)@,
{
    if a.len() == 0 {
        proof {
            reveal(is_pow2);
        }
        return Err(LengthError::Empty);
    }
    if !is_power_of_two(a.len()) {
        return Err(LengthError::NotPowerOfTwo);
    }
    fft(a, invert, ops);
    Ok(())
}

} // verus!
