//! Transforms over exact arithmetic: what follows when the operations
//! compute in a commutative ring.

use crate::arith::Arithmetic;
use crate::bits::{
    bit_length, lemma_pow2_of_bit_length, lemma_reverse_bits_zero, lemma_span_divides,
};
use crate::butterfly::{lemma_partner_before_boundary, lemma_upper_slot};
use crate::permute::{bit_reversed, lemma_rev_index_involution};
use crate::ring::Ring;
use vstd::arithmetic::div_mod::lemma_small_mod;
use vstd::arithmetic::power2::{is_pow2, lemma2_to64, pow2};
use vstd::prelude::*;

verus! {

/// The sequence whose entry `i` is `f(a[i], b[i])`.
pub open spec fn pointwise<T>(f: spec_fn(T, T) -> T, a: Seq<T>, b: Seq<T>) -> Seq<T> {
    Seq::new(a.len(), |i: int| f(a[i], b[i]))
}

/// The first `width` entries of `s` are `e` and all further entries `zero`.
pub open spec fn leading_block<T>(s: Seq<T>, e: T, zero: T, width: int) -> bool {
    forall|m: int| 0 <= m < s.len() ==> #[trigger] s[m] == if m < width {
        e
    } else {
        zero
    }
}

impl<T, R, M, A, S, D> Arithmetic<T, R, M, A, S, D> where
    R: Fn(usize, bool) -> T,
    M: Fn(T, T) -> T,
    A: Fn(T, T) -> T,
    S: Fn(T, T) -> T,
    D: Fn(T, usize) -> T,
 {
    /// The operations compute in `ring`: sums, differences and products are
    /// the ring's, and the unit is the ring's one.
    pub open spec fn computes_in(&self, ring: Ring<T>) -> bool {
        &&& self.one == ring.one
        &&& forall|x: T, y: T, r: T|
            #[trigger] self.add.ensures((x, y), r) ==> r == (ring.plus)(x, y)
        &&& forall|x: T, y: T, r: T|
            #[trigger] self.sub.ensures((x, y), r) ==> r == (ring.minus)(x, y)
        &&& forall|x: T, y: T, r: T|
            #[trigger] self.mul.ensures((x, y), r) ==> r == (ring.times)(x, y)
    }

    /// For every span `2^s` up to `2^top`, the root of the given direction
    /// is `omega(s)`.
    pub open spec fn roots_are(&self, omega: spec_fn(nat) -> T, invert: bool, top: nat) -> bool {
        forall|s: nat, r: T|
            1 <= s <= top && #[trigger] self.root.ensures((pow2(s) as usize, invert), r) ==> r
                == omega(s)
    }

    /// A butterfly yields `u + x * w` and `u - x * w`.
    pub proof fn lemma_butterfly_exact(
        &self,
        ring: Ring<T>,
        u: T,
        x: T,
        w: T,
        top: T,
        bottom: T,
    )
        requires
            self.computes_in(ring),
            self.butterfly(u, x, w, top, bottom),
        ensures
            top == (ring.plus)(u, (ring.times)(x, w)),
            bottom == (ring.minus)(u, (ring.times)(x, w)),
    {
        let v = choose|v: T|
            #[trigger] self.mul.ensures((x, w), v) && self.add.ensures((u, v), top)
                && self.sub.ensures((u, v), bottom);
        assert(v == (ring.times)(x, w));
    }

    /// A twiddle table holds the successive powers of its root.
    pub proof fn lemma_table_holds_powers(&self, ring: Ring<T>, ws: Seq<T>, wn: T, i: nat)
        requires
            self.computes_in(ring),
            self.twiddles(ws, wn),
            i < ws.len(),
        ensures
            ws[i as int] == ring.pow(wn, i),
        decreases i,
    {
        if i > 0 {
            self.lemma_table_holds_powers(ring, ws, wn, (i - 1) as nat);
            assert(self.twiddle_step(ws, wn, i - 1));
        }
    }

    /// A stage applied to a sum of two sequences gives the sum of the stage
    /// applied to each.
    proof fn lemma_stage_additive(
        &self,
        ring: Ring<T>,
        a: Seq<T>,
        b: Seq<T>,
        sa: Seq<T>,
        sb: Seq<T>,
        ssum: Seq<T>,
        len: int,
        ws: Seq<T>,
    )
        requires
            ring.commutative_ring(),
            self.computes_in(ring),
            len >= 2,
            len % 2 == 0,
            b.len() == a.len(),
            a.len() as int % len == 0,
            self.stage(a, sa, len, ws),
            self.stage(b, sb, len, ws),
            self.stage(pointwise(ring.plus, a, b), ssum, len, ws),
        ensures
            ssum == pointwise(ring.plus, sa, sb),
    {
        let half = len / 2;
        let n = a.len() as int;
        let sum = pointwise(ring.plus, a, b);
        assert forall|m: int| 0 <= m < n implies ssum[m] == (ring.plus)(sa[m], sb[m]) by {
            let k = if m % len < half {
                m
            } else {
                m - half
            };
            lemma_upper_slot(m, len);
            lemma_partner_before_boundary(k, n, len, half);
            let w = ws[k % len];
            assert(self.butterfly_at(a, sa, len, ws, k));
            assert(self.butterfly_at(b, sb, len, ws, k));
            assert(self.butterfly_at(sum, ssum, len, ws, k));
            self.lemma_butterfly_exact(ring, a[k], a[k + half], w, sa[k], sa[k + half]);
            self.lemma_butterfly_exact(ring, b[k], b[k + half], w, sb[k], sb[k + half]);
            self.lemma_butterfly_exact(ring, sum[k], sum[k + half], w, ssum[k], ssum[k + half]);
            assert(sum[k] == (ring.plus)(a[k], b[k]));
            assert(sum[k + half] == (ring.plus)(a[k + half], b[k + half]));
            let va = (ring.times)(a[k + half], w);
            let vb = (ring.times)(b[k + half], w);
            ring.lemma_distributes(w, a[k + half], b[k + half]);
            ring.lemma_interchange(a[k], b[k], va, vb);
            ring.lemma_minus_interchange(a[k], b[k], va, vb);
        }
        assert(ssum =~= pointwise(ring.plus, sa, sb));
    }

    /// The network applied to a sum of two sequences gives the sum of the
    /// network applied to each.
    proof fn lemma_network_additive(
        &self,
        ring: Ring<T>,
        omega: spec_fn(nat) -> T,
        a: Seq<T>,
        b: Seq<T>,
        na: Seq<T>,
        nb: Seq<T>,
        nsum: Seq<T>,
        stages: nat,
        top: nat,
        invert: bool,
    )
        requires
            ring.commutative_ring(),
            self.computes_in(ring),
            self.roots_are(omega, invert, top),
            stages <= top,
            a.len() == pow2(top),
            b.len() == a.len(),
            self.network(a, na, stages, invert),
            self.network(b, nb, stages, invert),
            self.network(pointwise(ring.plus, a, b), nsum, stages, invert),
        ensures
            nsum == pointwise(ring.plus, na, nb),
        decreases stages,
    {
        let sum = pointwise(ring.plus, a, b);
        if stages > 0 {
            let prior = (stages - 1) as nat;
            let (ma, wa, wsa) = choose|mid: Seq<T>, wn: T, ws: Seq<T>|
                self.network(a, mid, prior, invert) && #[trigger] self.stage_with(
                    mid,
                    na,
                    stages,
                    invert,
                    wn,
                    ws,
                );
            let (mb, wb, wsb) = choose|mid: Seq<T>, wn: T, ws: Seq<T>|
                self.network(b, mid, prior, invert) && #[trigger] self.stage_with(
                    mid,
                    nb,
                    stages,
                    invert,
                    wn,
                    ws,
                );
            let (ms, wsum, wss) = choose|mid: Seq<T>, wn: T, ws: Seq<T>|
                self.network(sum, mid, prior, invert) && #[trigger] self.stage_with(
                    mid,
                    nsum,
                    stages,
                    invert,
                    wn,
                    ws,
                );
            self.lemma_network_additive(ring, omega, a, b, ma, mb, ms, prior, top, invert);
            self.lemma_network_len(a, ma, prior, invert);
            self.lemma_network_len(b, mb, prior, invert);
            assert(wa == omega(stages) && wb == omega(stages) && wsum == omega(stages));
            assert forall|i: int| 0 <= i < wsa.len() implies wsa[i] == wsb[i] && wsa[i]
                == wss[i] by {
                self.lemma_table_holds_powers(ring, wsa, wa, i as nat);
                self.lemma_table_holds_powers(ring, wsb, wa, i as nat);
                self.lemma_table_holds_powers(ring, wss, wa, i as nat);
            }
            assert(wsa =~= wsb);
            assert(wsa =~= wss);
            lemma_span_divides(stages, top);
            self.lemma_stage_additive(ring, ma, mb, na, nb, nsum, pow2(stages) as int, wsa);
        } else {
            assert(nsum =~= pointwise(ring.plus, na, nb));
        }
    }

    /// The forward transform is additive in exact arithmetic: the transform
    /// of an entrywise sum is the entrywise sum of the transforms.
    pub proof fn lemma_forward_transform_additive(
        &self,
        ring: Ring<T>,
        omega: spec_fn(nat) -> T,
        a: Seq<T>,
        b: Seq<T>,
        fa: Seq<T>,
        fb: Seq<T>,
        fsum: Seq<T>,
    )
        requires
            ring.commutative_ring(),
            self.computes_in(ring),
            self.roots_are(omega, false, (bit_length(a.len()) - 1) as nat),
            is_pow2(a.len() as int),
            b.len() == a.len(),
            self.transform(a, fa, false),
            self.transform(b, fb, false),
            self.transform(pointwise(ring.plus, a, b), fsum, false),
        ensures
            fsum == pointwise(ring.plus, fa, fb),
    {
        let n = a.len();
        let stages = (bit_length(n) - 1) as nat;
        lemma_pow2_of_bit_length(n);
        let pa = bit_reversed(a);
        let pb = bit_reversed(b);
        let psum = bit_reversed(pointwise(ring.plus, a, b));
        assert forall|i: int| 0 <= i < n implies psum[i] == (ring.plus)(pa[i], pb[i]) by {
            lemma_rev_index_involution(i, n);
        }
        assert(psum =~= pointwise(ring.plus, pa, pb));
        self.lemma_network_additive(ring, omega, pa, pb, fa, fb, fsum, stages, stages, false);
    }

    /// A stage widens a leading block of one repeated element: where the
    /// first `len / 2` slots hold `e` and all others zero, afterwards the
    /// first `len` slots hold `e` and all others zero.
    proof fn lemma_stage_widens_block(
        &self,
        ring: Ring<T>,
        e: T,
        before: Seq<T>,
        after: Seq<T>,
        len: int,
        ws: Seq<T>,
    )
        requires
            ring.commutative_ring(),
            self.computes_in(ring),
            ring.element(e),
            len >= 2,
            len % 2 == 0,
            before.len() as int % len == 0,
            leading_block(before, e, ring.zero, len / 2),
            self.stage(before, after, len, ws),
        ensures
            leading_block(after, e, ring.zero, len),
    {
        let half = len / 2;
        let n = before.len() as int;
        assert forall|m: int| 0 <= m < n implies after[m] == if m < len {
            e
        } else {
            ring.zero
        } by {
            let k = if m % len < half {
                m
            } else {
                m - half
            };
            lemma_upper_slot(m, len);
            lemma_partner_before_boundary(k, n, len, half);
            if k < len {
                lemma_small_mod(k as nat, len as nat);
            }
            if m < len {
                lemma_small_mod(m as nat, len as nat);
            }
            let w = ws[k % len];
            assert(self.butterfly_at(before, after, len, ws, k));
            self.lemma_butterfly_exact(
                ring,
                before[k],
                before[k + half],
                w,
                after[k],
                after[k + half],
            );
            ring.lemma_times_zero(w);
            ring.lemma_plus_zero(before[k]);
            ring.lemma_minus_zero(before[k]);
            ring.lemma_closed(e, e);
        }
    }

    /// The network widens a leading single element stage by stage.
    proof fn lemma_network_widens_block(
        &self,
        ring: Ring<T>,
        e: T,
        before: Seq<T>,
        after: Seq<T>,
        stages: nat,
        top: nat,
        invert: bool,
    )
        requires
            ring.commutative_ring(),
            self.computes_in(ring),
            ring.element(e),
            stages <= top,
            before.len() == pow2(top),
            leading_block(before, e, ring.zero, 1),
            self.network(before, after, stages, invert),
        ensures
            leading_block(after, e, ring.zero, pow2(stages) as int),
        decreases stages,
    {
        if stages > 0 {
            let prior = (stages - 1) as nat;
            let (mid, wn, ws) = choose|mid: Seq<T>, wn: T, ws: Seq<T>|
                self.network(before, mid, prior, invert) && #[trigger] self.stage_with(
                    mid,
                    after,
                    stages,
                    invert,
                    wn,
                    ws,
                );
            self.lemma_network_widens_block(ring, e, before, mid, prior, top, invert);
            self.lemma_network_len(before, mid, prior, invert);
            lemma_span_divides(stages, top);
            self.lemma_stage_widens_block(ring, e, mid, after, pow2(stages) as int, ws);
        } else {
            lemma2_to64();
        }
    }

    /// The forward transform of an impulse is constant in exact arithmetic:
    /// where the first sample is the element `e` and every other sample is
    /// zero, every entry of the transform is `e`.
    pub proof fn lemma_forward_transform_impulse(
        &self,
        ring: Ring<T>,
        e: T,
        input: Seq<T>,
        output: Seq<T>,
    )
        requires
            ring.commutative_ring(),
            self.computes_in(ring),
            ring.element(e),
            is_pow2(input.len() as int),
            leading_block(input, e, ring.zero, 1),
            self.transform(input, output, false),
        ensures
            output.len() == input.len(),
            forall|i: int| 0 <= i < output.len() ==> output[i] == e,
    {
        let n = input.len();
        let stages = (bit_length(n) - 1) as nat;
        lemma_pow2_of_bit_length(n);
        let start = bit_reversed(input);
        assert forall|i: int| 0 <= i < n implies start[i] == if i < 1 {
            e
        } else {
            ring.zero
        } by {
            lemma_rev_index_involution(i, n);
            lemma_rev_index_involution(0, n);
            lemma_reverse_bits_zero(stages);
        }
        self.lemma_network_widens_block(ring, e, start, output, stages, stages, false);
        self.lemma_network_len(start, output, stages, false);
    }
}

} // verus!
