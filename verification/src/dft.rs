//! The discrete Fourier transform as a sum, and the identities by which the
//! butterfly network adds it up.

use crate::arith::Arithmetic;
use crate::bits::{
    bit_length, lemma_bit_length_pow2, lemma_pow2_of_bit_length, lemma_reverse_bits_bound,
    lemma_span_divides, reverse_bits,
};
use crate::butterfly::{lemma_partner_before_boundary, lemma_upper_slot};
use crate::permute::bit_reversed;
use crate::ring::Ring;
use vstd::arithmetic::div_mod::{
    lemma_basic_div, lemma_fundamental_div_mod, lemma_fundamental_div_mod_converse,
    lemma_small_mod,
};
use vstd::arithmetic::power2::{is_pow2, lemma2_to64, lemma_pow2_pos, lemma_pow2_unfold, pow2};
use vstd::prelude::*;

verus! {

impl<T> Ring<T> {
    /// The sum over `j < count` of `x[start + j * stride] * w^(j * k)`: entry
    /// `k` of the transform, with root `w`, of every `stride`-th sample of
    /// `x` from `start` on.
    pub open spec fn strided_sum(
        self,
        x: Seq<T>,
        start: int,
        stride: int,
        w: T,
        k: nat,
        count: nat,
    ) -> T
        decreases count,
    {
        if count == 0 {
            self.zero
        } else {
            let j = (count - 1) as nat;
            (self.plus)(
                self.strided_sum(x, start, stride, w, k, j),
                (self.times)(x[start + j * stride], self.pow(w, j * k)),
            )
        }
    }

    /// Entry `k` of the discrete Fourier transform of `x` with root `w`: the
    /// sum over all `j` of `x[j] * w^(j * k)`.
    pub open spec fn dft(self, x: Seq<T>, w: T, k: nat) -> T {
        self.strided_sum(x, 0, 1, w, k, x.len())
    }

    /// Every strided sum is an element.
    pub proof fn lemma_strided_closed(
        self,
        x: Seq<T>,
        start: int,
        stride: int,
        w: T,
        k: nat,
        count: nat,
    )
        requires
            self.commutative_ring(),
        ensures
            self.element(self.strided_sum(x, start, stride, w, k, count)),
    {
        self.lemma_closed(self.zero, self.zero);
        if count > 0 {
            let j = (count - 1) as nat;
            self.lemma_closed(
                self.strided_sum(x, start, stride, w, k, j),
                (self.times)(x[start + j * stride], self.pow(w, j * k)),
            );
        }
    }

    /// A sum over `2 * count` samples splits by parity: the even-numbered
    /// samples form a sum of half the size over the squared root, and so do
    /// the odd-numbered ones, which come with one more factor `w^k`.
    pub proof fn lemma_sum_splits(
        self,
        x: Seq<T>,
        start: int,
        stride: int,
        w: T,
        k: nat,
        count: nat,
    )
        requires
            self.commutative_ring(),
        ensures
            self.strided_sum(x, start, stride, w, k, 2 * count) == (self.plus)(
                self.strided_sum(x, start, 2 * stride, (self.times)(w, w), k, count),
                (self.times)(
                    self.pow(w, k),
                    self.strided_sum(x, start + stride, 2 * stride, (self.times)(w, w), k, count),
                ),
            ),
        decreases count,
    {
        let sq = (self.times)(w, w);
        let tw = self.pow(w, k);
        if count == 0 {
            self.lemma_times_zero(tw);
            self.lemma_plus_zero(self.zero);
            self.lemma_closed(self.zero, self.zero);
        } else {
            let h = (count - 1) as nat;
            self.lemma_sum_splits(x, start, stride, w, k, h);
            let even_h = self.strided_sum(x, start, 2 * stride, sq, k, h);
            let odd_h = self.strided_sum(x, start + stride, 2 * stride, sq, k, h);
            let pw = self.pow(sq, h * k);
            let xe = x[start + h * (2 * stride)];
            let xo = x[start + stride + h * (2 * stride)];
            let te = (self.times)(xe, pw);
            let to = (self.times)(xo, pw);
            // the two newest terms of the full sum
            let j0 = 2 * h;
            let j1 = 2 * h + 1;
            assert(start + j0 * stride == start + h * (2 * stride)) by (nonlinear_arith)
                requires
                    j0 == 2 * h,
            ;
            assert(start + j1 * stride == start + stride + h * (2 * stride)) by (nonlinear_arith)
                requires
                    j1 == 2 * h + 1,
            ;
            assert(j0 * k == 2 * (h * k)) by (nonlinear_arith)
                requires
                    j0 == 2 * h,
            ;
            assert(j1 * k == 2 * (h * k) + k) by (nonlinear_arith)
                requires
                    j1 == 2 * h + 1,
            ;
            self.lemma_pow_square(w, h * k);
            self.lemma_pow_add(w, 2 * (h * k), k);
            let t0 = (self.times)(x[start + j0 * stride], self.pow(w, j0 * k));
            let t1 = (self.times)(x[start + j1 * stride], self.pow(w, j1 * k));
            assert(t0 == te);
            assert(t1 == (self.times)(xo, (self.times)(pw, tw)));
            self.lemma_times_assoc(xo, pw, tw);
            self.lemma_times_comm(to, tw);
            assert(t1 == (self.times)(tw, to));
            // regroup
            let lead = (self.plus)(even_h, (self.times)(tw, odd_h));
            let full_h = self.strided_sum(x, start, stride, w, k, 2 * h);
            assert(full_h == lead);
            let full_mid = self.strided_sum(x, start, stride, w, k, (2 * h + 1) as nat);
            assert(full_mid == (self.plus)(full_h, t0));
            assert(self.strided_sum(x, start, stride, w, k, 2 * count) == (self.plus)(
                full_mid,
                t1,
            ));
            self.lemma_plus_assoc(lead, te, t1);
            self.lemma_interchange(even_h, (self.times)(tw, odd_h), te, t1);
            self.lemma_distributes(tw, odd_h, to);
        }
    }

    /// Where `w` to the `period` is one, raising `k` by `period` does not
    /// change the sum.
    pub proof fn lemma_sum_periodic(
        self,
        x: Seq<T>,
        start: int,
        stride: int,
        w: T,
        k: nat,
        period: nat,
        count: nat,
    )
        requires
            self.commutative_ring(),
            self.pow(w, period) == self.one,
        ensures
            self.strided_sum(x, start, stride, w, k + period, count) == self.strided_sum(
                x,
                start,
                stride,
                w,
                k,
                count,
            ),
        decreases count,
    {
        if count > 0 {
            let j = (count - 1) as nat;
            self.lemma_sum_periodic(x, start, stride, w, k, period, j);
            assert(j * (k + period) == j * k + j * period) by (nonlinear_arith);
            self.lemma_pow_add(w, j * k, j * period);
            self.lemma_pow_multiple(w, period, j);
            self.lemma_times_one(self.pow(w, j * k));
            self.lemma_pow_closed(w, j * k);
        }
    }

    /// One butterfly in terms of sums: with `w` a root whose square has
    /// order `count` and whose `count`-th power is minus one, the sum over
    /// `2 * count` samples at `k` and at `k + count` is the sum and the
    /// difference of the even half and the odd half times `w^k`.
    pub proof fn lemma_sum_combines(
        self,
        x: Seq<T>,
        start: int,
        stride: int,
        w: T,
        k: nat,
        count: nat,
    )
        requires
            self.commutative_ring(),
            self.pow((self.times)(w, w), count) == self.one,
            self.pow(w, count) == self.neg_one(),
        ensures
            self.strided_sum(x, start, stride, w, k, 2 * count) == (self.plus)(
                self.strided_sum(x, start, 2 * stride, (self.times)(w, w), k, count),
                (self.times)(
                    self.strided_sum(x, start + stride, 2 * stride, (self.times)(w, w), k, count),
                    self.pow(w, k),
                ),
            ),
            self.strided_sum(x, start, stride, w, k + count, 2 * count) == (self.minus)(
                self.strided_sum(x, start, 2 * stride, (self.times)(w, w), k, count),
                (self.times)(
                    self.strided_sum(x, start + stride, 2 * stride, (self.times)(w, w), k, count),
                    self.pow(w, k),
                ),
            ),
    {
        let sq = (self.times)(w, w);
        let even = self.strided_sum(x, start, 2 * stride, sq, k, count);
        let odd = self.strided_sum(x, start + stride, 2 * stride, sq, k, count);
        let tw = self.pow(w, k);
        let n1 = self.neg_one();
        self.lemma_sum_splits(x, start, stride, w, k, count);
        self.lemma_times_comm(tw, odd);
        self.lemma_sum_splits(x, start, stride, w, k + count, count);
        self.lemma_sum_periodic(x, start, 2 * stride, sq, k, count, count);
        self.lemma_sum_periodic(x, start + stride, 2 * stride, sq, k, count, count);
        self.lemma_pow_add(w, k, count);
        assert(self.pow(w, k + count) == (self.times)(tw, n1));
        // (tw * -1) * odd == -1 * (odd * tw)
        self.lemma_times_assoc(tw, n1, odd);
        self.lemma_times_assoc(n1, odd, tw);
        self.lemma_times_comm((self.times)(n1, odd), tw);
        self.lemma_minus_is_plus_neg(even, (self.times)(odd, tw));
    }
}

/// `omega(s)` is a primitive root of order `2^s` for every `s` up to `top`:
/// the tower starts at one and minus one, and each further root squares to
/// the one before.
pub open spec fn root_tower<T>(ring: Ring<T>, omega: spec_fn(nat) -> T, top: nat) -> bool {
    &&& omega(0) == ring.one
    &&& top >= 1 ==> omega(1) == ring.neg_one()
    &&& forall|s: nat|
        1 <= s <= top ==> (ring.times)(#[trigger] omega(s), omega(s)) == omega((s - 1) as nat)
}

/// The root for span `2^s` has order `2^s`.
pub proof fn lemma_root_order<T>(ring: Ring<T>, omega: spec_fn(nat) -> T, top: nat, s: nat)
    requires
        ring.commutative_ring(),
        root_tower(ring, omega, top),
        s <= top,
    ensures
        ring.pow(omega(s), pow2(s)) == ring.one,
    decreases s,
{
    lemma2_to64();
    if s == 0 {
        ring.lemma_pow_first(omega(0));
        ring.lemma_closed(ring.one, ring.one);
    } else {
        lemma_root_order(ring, omega, top, (s - 1) as nat);
        lemma_pow2_unfold(s);
        ring.lemma_pow_square(omega(s), pow2((s - 1) as nat));
    }
}

/// Half way round, the root for span `2^s` reaches minus one.
pub proof fn lemma_root_half<T>(ring: Ring<T>, omega: spec_fn(nat) -> T, top: nat, s: nat)
    requires
        ring.commutative_ring(),
        root_tower(ring, omega, top),
        1 <= s <= top,
    ensures
        ring.pow(omega(s), pow2((s - 1) as nat)) == ring.neg_one(),
    decreases s,
{
    lemma2_to64();
    if s == 1 {
        ring.lemma_pow_first(omega(1));
        ring.lemma_closed(ring.one, ring.one);
    } else {
        lemma_root_half(ring, omega, top, (s - 1) as nat);
        lemma_pow2_unfold((s - 1) as nat);
        ring.lemma_pow_square(omega(s), pow2((s - 2) as nat));
    }
}

/// Where slot `kk` lies in the upper half of its group of `2 * m`, its
/// coordinates and those of its partner `kk + m`, both by groups of `m` and
/// by groups of `2 * m`.
proof fn lemma_slot_coordinates(kk: int, m: int)
    requires
        m >= 1,
        kk >= 0,
        kk % (2 * m) < m,
    ensures
        kk / m == 2 * (kk / (2 * m)),
        kk % m == kk % (2 * m),
        (kk + m) / m == 2 * (kk / (2 * m)) + 1,
        (kk + m) % m == kk % (2 * m),
        (kk + m) / (2 * m) == kk / (2 * m),
        (kk + m) % (2 * m) == kk % (2 * m) + m,
{
    let len = 2 * m;
    let b = kk / len;
    let k = kk % len;
    lemma_fundamental_div_mod(kk, len);
    assert(kk == (2 * b) * m + k) by (nonlinear_arith)
        requires
            kk == len * b + k,
            len == 2 * m,
    ;
    assert(kk + m == (2 * b + 1) * m + k) by (nonlinear_arith)
        requires
            kk == len * b + k,
            len == 2 * m,
    ;
    assert(kk + m == b * len + (k + m)) by (nonlinear_arith)
        requires
            kk == len * b + k,
    ;
    lemma_fundamental_div_mod_converse(kk, m, 2 * b, k);
    lemma_fundamental_div_mod_converse(kk + m, m, 2 * b + 1, k);
    lemma_fundamental_div_mod_converse(kk + m, len, b, k + m);
}

/// What slot `p` holds after `s` stages of a transform of `x`, a sequence of
/// length `2^top`: the slots fall into blocks of `2^s`, and block `b` holds
/// the transform, with root `omega(s)`, of the `2^s` samples of `x` whose
/// index has the reversal of `b` in its low `top - s` bits.
pub open spec fn block_entry<T>(
    ring: Ring<T>,
    omega: spec_fn(nat) -> T,
    x: Seq<T>,
    top: nat,
    s: nat,
    p: int,
) -> T {
    let size = pow2(s) as int;
    ring.strided_sum(
        x,
        reverse_bits((p / size) as nat, (top - s) as nat) as int,
        pow2((top - s) as nat) as int,
        omega(s),
        (p % size) as nat,
        pow2(s),
    )
}

impl<T, R, M, A, S, D> Arithmetic<T, R, M, A, S, D> where
    R: Fn(usize, bool) -> T,
    M: Fn(T, T) -> T,
    A: Fn(T, T) -> T,
    S: Fn(T, T) -> T,
    D: Fn(T, usize) -> T,
 {
    /// After `s` stages every slot holds the transform of its block.
    pub proof fn lemma_network_sums(
        &self,
        ring: Ring<T>,
        omega: spec_fn(nat) -> T,
        invert: bool,
        x: Seq<T>,
        after: Seq<T>,
        s: nat,
        top: nat,
    )
        requires
            ring.commutative_ring(),
            root_tower(ring, omega, top),
            self.computes_in(ring),
            self.roots_are(omega, invert, top),
            s <= top,
            x.len() == pow2(top),
            ring.elements(x),
            self.network(bit_reversed(x), after, s, invert),
        ensures
            after.len() == x.len(),
            forall|p: int|
                0 <= p < x.len() ==> #[trigger] after[p] == block_entry(ring, omega, x, top, s, p),
        decreases s,
    {
        let n = x.len() as int;
        let start = bit_reversed(x);
        lemma2_to64();
        if s == 0 {
            lemma_bit_length_pow2(top);
            assert forall|p: int| 0 <= p < n implies #[trigger] after[p] == block_entry(
                ring,
                omega,
                x,
                top,
                0,
                p,
            ) by {
                let c = reverse_bits(p as nat, top) as int;
                lemma_reverse_bits_bound(p as nat, top);
                assert(after[p] == x[c]);
                assert(ring.element(x[c]));
                assert(c + 0 * (pow2(top) as int) == c);
                assert(ring.pow(omega(0), 0) == ring.one);
                assert(ring.strided_sum(x, c, pow2(top) as int, omega(0), 0, 0) == ring.zero);
                assert(ring.strided_sum(x, c, pow2(top) as int, omega(0), 0, 1) == (ring.plus)(
                    ring.zero,
                    (ring.times)(x[c], ring.one),
                ));
                ring.lemma_times_one(x[c]);
                ring.lemma_plus_zero(x[c]);
            }
        } else {
            let prior = (s - 1) as nat;
            let (mid, wn, ws) = choose|mid: Seq<T>, wn: T, ws: Seq<T>|
                self.network(start, mid, prior, invert) && #[trigger] self.stage_with(
                    mid,
                    after,
                    s,
                    invert,
                    wn,
                    ws,
                );
            self.lemma_network_sums(ring, omega, invert, x, mid, prior, top);
            let m = pow2(prior) as int;
            let len = pow2(s) as int;
            let t = (top - s) as nat;
            let w = omega(s);
            lemma_span_divides(s, top);
            lemma_pow2_unfold((t + 1) as nat);
            lemma_pow2_pos(t);
            lemma_root_order(ring, omega, top, prior);
            lemma_root_half(ring, omega, top, s);
            assert(wn == w);
            assert((ring.times)(w, w) == omega(prior));
            assert forall|p: int| 0 <= p < n implies #[trigger] after[p] == block_entry(
                ring,
                omega,
                x,
                top,
                s,
                p,
            ) by {
                let kk = if p % len < m {
                    p
                } else {
                    p - m
                };
                lemma_upper_slot(p, len);
                lemma_partner_before_boundary(kk, n, len, m);
                lemma_slot_coordinates(kk, m);
                let b = kk / len;
                let k = (kk % len) as nat;
                let c = reverse_bits(b as nat, t) as int;
                assert(reverse_bits((2 * b) as nat, (t + 1) as nat) == c);
                assert(reverse_bits((2 * b + 1) as nat, (t + 1) as nat) == pow2(t) + c);
                assert(mid[kk] == block_entry(ring, omega, x, top, prior, kk));
                assert(mid[kk + m] == block_entry(ring, omega, x, top, prior, kk + m));
                assert(self.butterfly_at(mid, after, len, ws, kk));
                self.lemma_butterfly_exact(
                    ring,
                    mid[kk],
                    mid[kk + m],
                    ws[kk % len],
                    after[kk],
                    after[kk + m],
                );
                self.lemma_table_holds_powers(ring, ws, wn, k);
                ring.lemma_sum_combines(x, c, pow2(t) as int, w, k, pow2(prior));
            }
        }
    }

    /// The forward transform is the discrete Fourier transform, and the
    /// inverse transform is the discrete Fourier transform over the inverse
    /// roots divided by the length: in exact arithmetic, with `omega(s)` the
    /// primitive root the direction uses for span `2^s`, entry `k` of the
    /// output is the sum over all `j` of `input[j] * omega(L)^(j * k)` for a
    /// length `2^L`, divided by the length when inverting.
    pub proof fn lemma_transform_is_dft(
        &self,
        ring: Ring<T>,
        omega: spec_fn(nat) -> T,
        invert: bool,
        input: Seq<T>,
        output: Seq<T>,
    )
        requires
            ring.commutative_ring(),
            root_tower(ring, omega, (bit_length(input.len()) - 1) as nat),
            self.computes_in(ring),
            self.roots_are(omega, invert, (bit_length(input.len()) - 1) as nat),
            is_pow2(input.len() as int),
            ring.elements(input),
            self.transform(input, output, invert),
        ensures
            output.len() == input.len(),
            !invert ==> forall|k: int|
                0 <= k < input.len() ==> #[trigger] output[k] == ring.dft(
                    input,
                    omega((bit_length(input.len()) - 1) as nat),
                    k as nat,
                ),
            invert ==> forall|k: int|
                0 <= k < input.len() ==> self.div.ensures(
                    (
                        ring.dft(input, omega((bit_length(input.len()) - 1) as nat), k as nat),
                        input.len() as usize,
                    ),
                    #[trigger] output[k],
                ),
    {
        let n = input.len();
        let top = (bit_length(n) - 1) as nat;
        lemma_pow2_of_bit_length(n);
        lemma2_to64();
        let start = bit_reversed(input);
        let sums = if invert {
            choose|mid: Seq<T>|
                #[trigger] self.network(start, mid, top, invert) && self.normalized(mid, output)
        } else {
            output
        };
        self.lemma_network_sums(ring, omega, invert, input, sums, top, top);
        assert forall|k: int| 0 <= k < n implies #[trigger] sums[k] == ring.dft(
            input,
            omega(top),
            k as nat,
        ) by {
            assert(sums[k] == block_entry(ring, omega, input, top, top, k));
            lemma_small_mod(k as nat, n);
            lemma_basic_div(k, n as int);
            assert(reverse_bits(0, 0) == 0);
        }
    }
}

} // verus!
