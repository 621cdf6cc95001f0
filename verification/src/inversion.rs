//! The inverse transform undoes the forward transform.

use crate::arith::Arithmetic;
use crate::bits::{bit_length, lemma_pow2_of_bit_length};
use crate::dft::{lemma_root_half, root_tower};
use crate::ring::Ring;
use vstd::arithmetic::power2::{is_pow2, lemma2_to64, lemma_pow2_unfold, pow2};
use vstd::prelude::*;

verus! {

/// The powers of a root of order `2^s`, other than one itself, add up to
/// zero over a full turn.
pub proof fn lemma_root_sum_vanishes<T>(
    ring: Ring<T>,
    omega: spec_fn(nat) -> T,
    top: nat,
    s: nat,
    e: nat,
)
    requires
        ring.commutative_ring(),
        root_tower(ring, omega, top),
        s <= top,
        0 < e < pow2(s),
    ensures
        ring.geometric(ring.pow(omega(s), e), pow2(s)) == ring.zero,
    decreases s,
{
    lemma2_to64();
    if s >= 1 {
        let m = pow2((s - 1) as nat);
        let w = omega(s);
        let r = ring.pow(w, e);
        let g = ring.geometric(r, m);
        lemma_pow2_unfold(s);
        ring.lemma_geometric_doubles(r, m);
        if e % 2 == 1 {
            ring.lemma_pow_pow(w, e, m);
            ring.lemma_pow_pow(w, m, e);
            assert(e * m == m * e) by (nonlinear_arith);
            lemma_root_half(ring, omega, top, s);
            ring.lemma_pow_neg_one_odd(e);
            ring.lemma_neg_one_plus_one();
            ring.lemma_times_zero(g);
        } else {
            let half = e / 2;
            ring.lemma_pow_square(w, half);
            lemma_root_sum_vanishes(ring, omega, top, (s - 1) as nat, half);
            ring.lemma_times_zero((ring.plus)(ring.one, ring.pow(r, m)));
        }
    }
}

impl<T> Ring<T> {
    /// A strided sum is the sum of its terms.
    pub proof fn lemma_strided_is_sum(
        self,
        x: Seq<T>,
        start: int,
        stride: int,
        w: T,
        k: nat,
        f: spec_fn(int) -> T,
        count: nat,
    )
        requires
            forall|j: int|
                0 <= j < count ==> #[trigger] f(j) == (self.times)(
                    x[start + j * stride],
                    self.pow(w, (j * k) as nat),
                ),
        ensures
            self.strided_sum(x, start, stride, w, k, count) == self.sum(f, count),
        decreases count,
    {
        if count > 0 {
            self.lemma_strided_is_sum(x, start, stride, w, k, f, (count - 1) as nat);
        }
    }

    /// A factor common to all samples may be drawn out of their transform.
    pub proof fn lemma_dft_scaled(self, c: T, x: Seq<T>, y: Seq<T>, w: T, k: nat)
        requires
            self.commutative_ring(),
            y.len() == x.len(),
            forall|j: int| 0 <= j < x.len() ==> #[trigger] y[j] == (self.times)(c, x[j]),
        ensures
            self.dft(y, w, k) == (self.times)(c, self.dft(x, w, k)),
    {
        let n = x.len();
        let plain = |j: int| (self.times)(x[j], self.pow(w, (j * k) as nat));
        let scaled = |j: int| (self.times)(y[j], self.pow(w, (j * k) as nat));
        assert forall|j: int| 0 <= j < n implies #[trigger] plain(j) == (self.times)(
            x[0 + j * 1],
            self.pow(w, (j * k) as nat),
        ) by {}
        assert forall|j: int| 0 <= j < n implies #[trigger] scaled(j) == (self.times)(
            y[0 + j * 1],
            self.pow(w, (j * k) as nat),
        ) by {}
        self.lemma_strided_is_sum(x, 0, 1, w, k, plain, n);
        self.lemma_strided_is_sum(y, 0, 1, w, k, scaled, n);
        assert forall|j: int| 0 <= j < n implies #[trigger] scaled(j) == (self.times)(
            c,
            plain(j),
        ) by {
            self.lemma_times_assoc(c, x[j], self.pow(w, (j * k) as nat));
        }
        self.lemma_sum_scaled(c, plain, scaled, n);
    }

    /// Where `u` and `v` are inverse to each other, equal powers of them
    /// cancel.
    pub proof fn lemma_inverse_powers_cancel(self, u: T, v: T, a: nat, b: nat)
        requires
            self.commutative_ring(),
            (self.times)(u, v) == self.one,
        ensures
            (self.times)(self.pow(u, a + b), self.pow(v, b)) == self.pow(u, a),
    {
        self.lemma_pow_add(u, a, b);
        self.lemma_times_assoc(self.pow(u, a), self.pow(u, b), self.pow(v, b));
        self.lemma_pow_times(u, v, b);
        self.lemma_pow_of_one(b);
        self.lemma_times_one(self.pow(u, a));
        self.lemma_pow_closed(u, a);
    }

    /// Transforming a transform with the inverse root gives every sample
    /// back `n` times over: where `y` is the transform of `x` with a root of
    /// order `n = 2^top` and `v` is the inverse of that root, entry `i` of
    /// the transform of `y` with `v` is the `n`-fold `x[i]`.
    pub proof fn lemma_dft_inverts(
        self,
        forward: spec_fn(nat) -> T,
        backward: spec_fn(nat) -> T,
        top: nat,
        x: Seq<T>,
        y: Seq<T>,
        i: int,
    )
        requires
            self.commutative_ring(),
            root_tower(self, forward, top),
            root_tower(self, backward, top),
            (self.times)(forward(top), backward(top)) == self.one,
            x.len() == pow2(top),
            y.len() == pow2(top),
            forall|k: int| 0 <= k < y.len() ==> #[trigger] y[k] == self.dft(x, forward(top), k as nat),
            0 <= i < x.len(),
        ensures
            self.dft(y, backward(top), i as nat) == self.multiple(x[i], x.len()),
    {
        let n = x.len();
        let u = forward(top);
        let v = backward(top);
        let a = |k: int, j: int|
            (self.times)((self.times)(x[j], self.pow(u, (j * k) as nat)), self.pow(v, (k * i) as nat));
        let rows = |k: int| (self.times)(y[k], self.pow(v, (k * i) as nat));
        let cols = |j: int| self.sum(|k: int| a(k, j), n);
        // the outer transform as a sum of rows
        assert forall|k: int| 0 <= k < n implies #[trigger] rows(k) == (self.times)(
            y[0 + k * 1],
            self.pow(v, (k * i) as nat),
        ) by {}
        self.lemma_strided_is_sum(y, 0, 1, v, i as nat, rows, n);
        // each row is a sum over the samples
        assert forall|k: int| 0 <= k < n implies #[trigger] rows(k) == self.sum(
            |j: int| a(k, j),
            n,
        ) by {
            let c = self.pow(v, (k * i) as nat);
            let inner = |j: int| (self.times)(x[j], self.pow(u, (j * k) as nat));
            let row = |j: int| a(k, j);
            assert forall|j: int| 0 <= j < n implies #[trigger] inner(j) == (self.times)(
                x[0 + j * 1],
                self.pow(u, (j * k) as nat),
            ) by {}
            self.lemma_strided_is_sum(x, 0, 1, u, k as nat, inner, n);
            assert forall|j: int| 0 <= j < n implies #[trigger] row(j) == (self.times)(
                c,
                inner(j),
            ) by {
                self.lemma_times_comm(inner(j), c);
            }
            self.lemma_sum_scaled(c, inner, row, n);
            self.lemma_times_comm(c, y[k]);
        }
        self.lemma_sum_exchange(a, rows, cols, n, n);
        // each column is a sample times a sum of powers of one root
        assert forall|j: int| 0 <= j < n && j != i implies #[trigger] cols(j) == self.zero by {
            self.lemma_column(forward, backward, top, x, a, i, j);
        }
        self.lemma_column(forward, backward, top, x, a, i, i);
        self.lemma_sum_of_one_term(cols, n, i);
        self.lemma_multiple_closed(x[i], n);
    }

    /// Column `j` of the double sum behind [`Ring::lemma_dft_inverts`]: the
    /// `n`-fold sample on the diagonal and zero off it.
    proof fn lemma_column(
        self,
        forward: spec_fn(nat) -> T,
        backward: spec_fn(nat) -> T,
        top: nat,
        x: Seq<T>,
        a: spec_fn(int, int) -> T,
        i: int,
        j: int,
    )
        requires
            self.commutative_ring(),
            root_tower(self, forward, top),
            root_tower(self, backward, top),
            (self.times)(forward(top), backward(top)) == self.one,
            x.len() == pow2(top),
            0 <= i < x.len(),
            0 <= j < x.len(),
            forall|k: int, l: int|
                #[trigger] a(k, l) == (self.times)(
                    (self.times)(x[l], self.pow(forward(top), (l * k) as nat)),
                    self.pow(backward(top), (k * i) as nat),
                ),
        ensures
            self.sum(|k: int| a(k, j), x.len()) == if j == i {
                self.multiple(x[i], x.len())
            } else {
                self.zero
            },
    {
        let n = x.len();
        let u = forward(top);
        let v = backward(top);
        let column = |k: int| a(k, j);
        let q = |k: int| (self.times)(self.pow(u, (j * k) as nat), self.pow(v, (k * i) as nat));
        let r = (self.times)(self.pow(u, j as nat), self.pow(v, i as nat));
        assert forall|k: int| 0 <= k < n implies #[trigger] column(k) == (self.times)(
            x[j],
            q(k),
        ) by {
            self.lemma_times_assoc(
                x[j],
                self.pow(u, (j * k) as nat),
                self.pow(v, (k * i) as nat),
            );
        }
        self.lemma_sum_scaled(x[j], q, column, n);
        assert forall|k: int| 0 <= k < n implies #[trigger] q(k) == self.pow(r, k as nat) by {
            self.lemma_pow_times(self.pow(u, j as nat), self.pow(v, i as nat), k as nat);
            self.lemma_pow_pow(u, j as nat, k as nat);
            self.lemma_pow_pow(v, i as nat, k as nat);
            assert(i * k == k * i) by (nonlinear_arith);
        }
        self.lemma_sum_of_powers(q, r, n);
        if j == i {
            self.lemma_inverse_powers_cancel(u, v, 0, i as nat);
            self.lemma_geometric_of_one(n);
            self.lemma_times_multiple(x[i], n);
        } else if j > i {
            self.lemma_inverse_powers_cancel(u, v, (j - i) as nat, i as nat);
            lemma_root_sum_vanishes(self, forward, top, top, (j - i) as nat);
            self.lemma_times_zero(x[j]);
        } else {
            self.lemma_times_comm(u, v);
            self.lemma_inverse_powers_cancel(v, u, (i - j) as nat, j as nat);
            self.lemma_times_comm(self.pow(u, j as nat), self.pow(v, i as nat));
            lemma_root_sum_vanishes(self, backward, top, top, (i - j) as nat);
            self.lemma_times_zero(x[j]);
        }
    }
}

impl<T, R, M, A, S, D> Arithmetic<T, R, M, A, S, D> where
    R: Fn(usize, bool) -> T,
    M: Fn(T, T) -> T,
    A: Fn(T, T) -> T,
    S: Fn(T, T) -> T,
    D: Fn(T, usize) -> T,
 {
    /// Division by `n` undoes `n`-fold addition.
    pub open spec fn divides_exactly(&self, ring: Ring<T>, n: nat) -> bool {
        forall|x: T, r: T|
            #[trigger] self.div.ensures((ring.multiple(x, n), n as usize), r) ==> r == (ring.norm)(
                x,
            )
    }

    /// A forward transform followed by an inverse transform restores the
    /// input, in exact arithmetic: the operations compute in a commutative
    /// ring of which the samples are elements, the roots of either direction
    /// are primitive, those of the two directions are inverse to each other,
    /// and division by the length undoes adding up that many equal terms.
    pub proof fn lemma_round_trip(
        &self,
        ring: Ring<T>,
        forward: spec_fn(nat) -> T,
        backward: spec_fn(nat) -> T,
        x: Seq<T>,
        y: Seq<T>,
        z: Seq<T>,
    )
        requires
            ring.commutative_ring(),
            self.computes_in(ring),
            is_pow2(x.len() as int),
            root_tower(ring, forward, (bit_length(x.len()) - 1) as nat),
            root_tower(ring, backward, (bit_length(x.len()) - 1) as nat),
            self.roots_are(forward, false, (bit_length(x.len()) - 1) as nat),
            self.roots_are(backward, true, (bit_length(x.len()) - 1) as nat),
            (ring.times)(
                forward((bit_length(x.len()) - 1) as nat),
                backward((bit_length(x.len()) - 1) as nat),
            ) == ring.one,
            self.divides_exactly(ring, x.len()),
            ring.elements(x),
            self.transform(x, y, false),
            self.transform(y, z, true),
        ensures
            z == x,
    {
        let n = x.len();
        let top = (bit_length(n) - 1) as nat;
        lemma_pow2_of_bit_length(n);
        self.lemma_transform_is_dft(ring, forward, false, x, y);
        assert forall|k: int| 0 <= k < y.len() implies ring.element(#[trigger] y[k]) by {
            ring.lemma_strided_closed(x, 0, 1, forward(top), k as nat, n);
        }
        self.lemma_transform_is_dft(ring, backward, true, y, z);
        assert forall|i: int| 0 <= i < n implies z[i] == x[i] by {
            ring.lemma_dft_inverts(forward, backward, top, x, y, i);
            assert(self.div.ensures((ring.dft(y, backward(top), i as nat), n as usize), z[i]));
        }
        assert(z =~= x);
    }

    /// Division by `n` is multiplication by `inverse`, the inverse of the
    /// `n`-fold one.
    pub open spec fn divides_by(&self, ring: Ring<T>, inverse: T, n: nat) -> bool {
        &&& (ring.times)(ring.multiple(ring.one, n), inverse) == ring.one
        &&& forall|x: T, r: T|
            #[trigger] self.div.ensures((x, n as usize), r) ==> r == (ring.times)(x, inverse)
    }

    /// An inverse transform followed by a forward transform restores the
    /// input as well, in exact arithmetic in which division by the length is
    /// multiplication by its inverse.
    pub proof fn lemma_round_trip_reversed(
        &self,
        ring: Ring<T>,
        forward: spec_fn(nat) -> T,
        backward: spec_fn(nat) -> T,
        inverse: T,
        x: Seq<T>,
        y: Seq<T>,
        z: Seq<T>,
    )
        requires
            ring.commutative_ring(),
            self.computes_in(ring),
            is_pow2(x.len() as int),
            root_tower(ring, forward, (bit_length(x.len()) - 1) as nat),
            root_tower(ring, backward, (bit_length(x.len()) - 1) as nat),
            self.roots_are(forward, false, (bit_length(x.len()) - 1) as nat),
            self.roots_are(backward, true, (bit_length(x.len()) - 1) as nat),
            (ring.times)(
                forward((bit_length(x.len()) - 1) as nat),
                backward((bit_length(x.len()) - 1) as nat),
            ) == ring.one,
            self.divides_by(ring, inverse, x.len()),
            ring.elements(x),
            self.transform(x, y, true),
            self.transform(y, z, false),
        ensures
            z == x,
    {
        let n = x.len();
        let top = (bit_length(n) - 1) as nat;
        let u = forward(top);
        let v = backward(top);
        lemma_pow2_of_bit_length(n);
        self.lemma_transform_is_dft(ring, backward, true, x, y);
        // the inverse transform before its division
        let sums = Seq::new(n, |k: int| ring.dft(x, v, k as nat));
        assert forall|k: int| 0 <= k < n implies #[trigger] y[k] == (ring.times)(
            inverse,
            sums[k],
        ) by {
            assert(self.div.ensures((ring.dft(x, v, k as nat), n as usize), y[k]));
            ring.lemma_times_comm(inverse, sums[k]);
        }
        assert forall|k: int| 0 <= k < y.len() implies ring.element(#[trigger] y[k]) by {
            ring.lemma_closed(inverse, sums[k]);
        }
        self.lemma_transform_is_dft(ring, forward, false, y, z);
        ring.lemma_times_comm(u, v);
        assert forall|i: int| 0 <= i < n implies z[i] == x[i] by {
            ring.lemma_dft_scaled(inverse, sums, y, u, i as nat);
            ring.lemma_dft_inverts(backward, forward, top, x, sums, i);
            // inverse * (n-fold x[i]) == x[i] * ((n-fold one) * inverse) == x[i]
            let fold = ring.multiple(ring.one, n);
            ring.lemma_times_multiple(x[i], n);
            ring.lemma_times_comm(inverse, (ring.times)(x[i], fold));
            ring.lemma_times_assoc(x[i], fold, inverse);
            ring.lemma_times_one(x[i]);
        }
        assert(z =~= x);
    }
}

} // verus!
