//! One stage of the butterfly network.

use crate::arith::Arithmetic;
use vstd::arithmetic::div_mod::{
    lemma_fundamental_div_mod, lemma_fundamental_div_mod_converse, lemma_mod_multiples_vanish,
    lemma_small_mod,
};
use vstd::prelude::*;

verus! {

/// Past a group boundary `i`, the slot at distance `r < len` has offset `r`.
proof fn lemma_offset_in_group(i: int, r: int, len: int)
    requires
        len > 0,
        0 <= i,
        i % len == 0,
        0 <= r < len,
    ensures
        (i + r) % len == r,
{
    lemma_fundamental_div_mod(i, len);
    lemma_mod_multiples_vanish(i / len, r, len);
    lemma_small_mod(r as nat, len as nat);
}

/// Group boundaries are a whole span apart.
proof fn lemma_next_boundary(i: int, n: int, len: int)
    requires
        len > 0,
        0 <= i < n,
        i % len == 0,
        n % len == 0,
    ensures
        i + len <= n,
        (i + len) % len == 0,
{
    lemma_fundamental_div_mod(i, len);
    lemma_fundamental_div_mod(n, len);
    let qi = i / len;
    let qn = n / len;
    assert(qi < qn) by (nonlinear_arith)
        requires
            len > 0,
            len * qi < len * qn,
    ;
    assert(len * qi + len <= len * qn) by (nonlinear_arith)
        requires
            len > 0,
            qi + 1 <= qn,
    ;
    lemma_mod_multiples_vanish(qi + 1, 0, len);
    assert(len * (qi + 1) + 0 == i + len) by (nonlinear_arith)
        requires
            i == len * qi,
    ;
}

/// An upper slot before the boundary `i` has its lower partner before `i`
/// as well.
pub(crate) proof fn lemma_partner_before_boundary(k: int, i: int, len: int, half: int)
    requires
        half >= 1,
        len == 2 * half,
        0 <= k < i,
        i % len == 0,
        k % len < half,
    ensures
        k + half < i,
{
    lemma_fundamental_div_mod(i, len);
    lemma_fundamental_div_mod(k, len);
    let qi = i / len;
    let qk = k / len;
    assert(qk < qi) by (nonlinear_arith)
        requires
            len > 0,
            0 <= k % len,
            len * qk + k % len < len * qi,
    ;
    assert(len * qk + len <= len * qi) by (nonlinear_arith)
        requires
            len > 0,
            qk + 1 <= qi,
    ;
}

/// Every slot of a group is either in the upper half, or half a span below
/// it lies a slot of the upper half.
pub(crate) proof fn lemma_upper_slot(m: int, len: int)
    requires
        len >= 2,
        len % 2 == 0,
        0 <= m,
    ensures
        m % len >= len / 2 ==> m - len / 2 >= 0 && (m - len / 2) % len == m % len - len / 2,
{
    if m % len >= len / 2 {
        let q = m / len;
        lemma_fundamental_div_mod(m, len);
        assert(q * len == len * q) by (nonlinear_arith);
        lemma_fundamental_div_mod_converse(m - len / 2, len, q, m % len - len / 2);
    }
}

impl<T: Copy, R, M, A, S, D> Arithmetic<T, R, M, A, S, D> where
    R: Fn(usize, bool) -> T,
    M: Fn(T, T) -> T,
    A: Fn(T, T) -> T,
    S: Fn(T, T) -> T,
    D: Fn(T, usize) -> T,
 {
    /// Runs the stage of span `len` over `a` in place. Within each group of
    /// `len` slots, slot `j` and slot `j + len / 2` are replaced by the sum
    /// and the difference of the old upper value and the old lower value
    /// times `ws[j]`; both are read before either is written.
    pub fn butterfly_stage(&self, a: &mut Vec<T>, len: usize, ws: &Vec<T>)
        requires
            len >= 2,
            len % 2 == 0,
            old(a).len() % len == 0,
            ws.len() == len / 2,
            self.combines_any(),
        ensures
            self.stage(old(a)@, final(a)@, len as int, ws@),
    {
        let n = a.len();
        let half = len / 2;
        let ghost orig = a@;
        let mut i: usize = 0;
        while i < n
            invariant
                a.len() == n,
                orig.len() == n,
                i <= n,
                i % len == 0,
                n % len == 0,
                half >= 1,
                len == 2 * half,
                ws.len() == half,
                self.combines_any(),
                forall|k: int|
                    0 <= k < i && k % (len as int) < half ==> #[trigger] self.butterfly_at(
                        orig,
                        a@,
                        len as int,
                        ws@,
                        k,
                    ),
                forall|k: int| i <= k < n ==> #[trigger] a[k] == orig[k],
            decreases n - i,
        {
            proof {
                lemma_next_boundary(i as int, n as int, len as int);
            }
            let mut j: usize = 0;
            while j < half
                invariant
                    a.len() == n,
                    orig.len() == n,
                    i + len <= n,
                    i % len == 0,
                    half >= 1,
                    len == 2 * half,
                    ws.len() == half,
                    j <= half,
                    self.combines_any(),
                    forall|k: int|
                        0 <= k < i + j && k % (len as int) < half ==> #[trigger] self.butterfly_at(
                            orig,
                            a@,
                            len as int,
                            ws@,
                            k,
                        ),
                    forall|k: int| i + j <= k < i + half ==> #[trigger] a[k] == orig[k],
                    forall|k: int| i + half + j <= k < n ==> #[trigger] a[k] == orig[k],
                decreases half - j,
            {
                let ghost prev = a@;
                let u = a[i + j];
                let v = (self.mul)(a[i + j + half], ws[j]);
                let top = (self.add)(u, v);
                let bottom = (self.sub)(u, v);
                a.set(i + j, top);
                a.set(i + j + half, bottom);
                proof {
                    let k0 = i + j;
                    lemma_offset_in_group(i as int, j as int, len as int);
                    assert(self.mul.ensures((orig[k0 + half], ws@[j as int]), v));
                    assert(self.butterfly(orig[k0], orig[k0 + half], ws@[j as int], top, bottom));
                    assert(self.butterfly_at(orig, a@, len as int, ws@, k0));
                    assert forall|k: int|
                        0 <= k < i + j + 1 && k % (len as int) < half implies #[trigger] self.butterfly_at(
                        orig,
                        a@,
                        len as int,
                        ws@,
                        k,
                    ) by {
                        if k < k0 {
                            assert(self.butterfly_at(orig, prev, len as int, ws@, k));
                            if k < i {
                                lemma_partner_before_boundary(k, i as int, len as int, half as int);
                            }
                            assert(a@[k] == prev[k]);
                            assert(a@[k + half] == prev[k + half]);
                        }
                    }
                }
                j += 1;
            }
            proof {
                assert forall|k: int|
                    0 <= k < i + len && k % (len as int) < half implies #[trigger] self.butterfly_at(
                    orig,
                    a@,
                    len as int,
                    ws@,
                    k,
                ) by {
                    if k >= i + half {
                        lemma_offset_in_group(i as int, k - i, len as int);
                    }
                }
            }
            i += len;
        }
    }
}

} // verus!
