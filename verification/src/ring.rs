//! Exact arithmetic: a commutative ring given by its operations.
//!
//! A machine type usually has more values than the ring has elements, and an
//! implementation maps every value to the element it stands for before or
//! while it computes. `norm` is that map. Where every value of the type is
//! an element of its own, `norm` is the identity and the axioms below are the
//! textbook ones.

use vstd::prelude::*;

verus! {

/// The operations and the two constants of a ring over `T`.
#[verifier::reject_recursive_types(T)]
pub struct Ring<T> {
    /// The neutral element of `plus`.
    pub zero: T,
    /// The neutral element of `times`.
    pub one: T,
    /// The element that a value stands for.
    pub norm: spec_fn(T) -> T,
    /// Addition.
    pub plus: spec_fn(T, T) -> T,
    /// Subtraction.
    pub minus: spec_fn(T, T) -> T,
    /// Multiplication.
    pub times: spec_fn(T, T) -> T,
}

impl<T> Ring<T> {
    /// The axioms of a commutative ring with one, subtraction being the
    /// inverse of addition. Results of operations and the two constants are
    /// elements; the neutral elements give back the element that the other
    /// operand stands for.
    #[verifier::opaque]
    pub open spec fn commutative_ring(self) -> bool {
        &&& forall|x: T, y: T| #[trigger] (self.plus)(x, y) == (self.plus)(y, x)
        &&& forall|x: T, y: T, z: T| #[trigger]
            (self.plus)((self.plus)(x, y), z) == (self.plus)(x, (self.plus)(y, z))
        &&& forall|x: T| #[trigger] (self.plus)(x, self.zero) == (self.norm)(x)
        &&& forall|x: T, y: T| (self.plus)(#[trigger] (self.minus)(x, y), y) == (self.norm)(x)
        &&& forall|x: T, y: T| #[trigger] (self.times)(x, y) == (self.times)(y, x)
        &&& forall|x: T, y: T, z: T| #[trigger]
            (self.times)((self.times)(x, y), z) == (self.times)(x, (self.times)(y, z))
        &&& forall|x: T| #[trigger] (self.times)(x, self.one) == (self.norm)(x)
        &&& forall|x: T, y: T, z: T| #[trigger]
            (self.times)(x, (self.plus)(y, z)) == (self.plus)(
                (self.times)(x, y),
                (self.times)(x, z),
            )
        &&& (self.norm)(self.zero) == self.zero
        &&& (self.norm)(self.one) == self.one
        &&& forall|x: T, y: T| (self.norm)(#[trigger] (self.plus)(x, y)) == (self.plus)(x, y)
        &&& forall|x: T, y: T| (self.norm)(#[trigger] (self.minus)(x, y)) == (self.minus)(x, y)
        &&& forall|x: T, y: T| (self.norm)(#[trigger] (self.times)(x, y)) == (self.times)(x, y)
    }

    /// `x` is an element of the ring: it stands for itself.
    pub open spec fn element(self, x: T) -> bool {
        (self.norm)(x) == x
    }

    /// All entries of `s` are elements of the ring.
    pub open spec fn elements(self, s: Seq<T>) -> bool {
        forall|i: int| 0 <= i < s.len() ==> self.element(#[trigger] s[i])
    }

    /// Minus one.
    pub open spec fn neg_one(self) -> T {
        (self.minus)(self.zero, self.one)
    }

    /// `w` raised to the power `e`, by repeated multiplication from one.
    pub open spec fn pow(self, w: T, e: nat) -> T
        decreases e,
    {
        if e == 0 {
            self.one
        } else {
            (self.times)(self.pow(w, (e - 1) as nat), w)
        }
    }

    /// Sums do not depend on the order of the summands.
    pub proof fn lemma_plus_comm(self, x: T, y: T)
        requires
            self.commutative_ring(),
        ensures
            (self.plus)(x, y) == (self.plus)(y, x),
    {
        reveal(Ring::commutative_ring);
    }

    /// Sums do not depend on the grouping of the summands.
    pub proof fn lemma_plus_assoc(self, x: T, y: T, z: T)
        requires
            self.commutative_ring(),
        ensures
            (self.plus)((self.plus)(x, y), z) == (self.plus)(x, (self.plus)(y, z)),
    {
        reveal(Ring::commutative_ring);
    }

    /// Adding zero gives back the element the other summand stands for.
    pub proof fn lemma_plus_zero(self, x: T)
        requires
            self.commutative_ring(),
        ensures
            (self.plus)(x, self.zero) == (self.norm)(x),
            (self.plus)(self.zero, x) == (self.norm)(x),
    {
        reveal(Ring::commutative_ring);
    }

    /// Adding the subtrahend to a difference gives back the minuend.
    pub proof fn lemma_minus_plus(self, x: T, y: T)
        requires
            self.commutative_ring(),
        ensures
            (self.plus)((self.minus)(x, y), y) == (self.norm)(x),
    {
        reveal(Ring::commutative_ring);
    }

    /// Products do not depend on the order of the factors.
    pub proof fn lemma_times_comm(self, x: T, y: T)
        requires
            self.commutative_ring(),
        ensures
            (self.times)(x, y) == (self.times)(y, x),
    {
        reveal(Ring::commutative_ring);
    }

    /// Products do not depend on the grouping of the factors.
    pub proof fn lemma_times_assoc(self, x: T, y: T, z: T)
        requires
            self.commutative_ring(),
        ensures
            (self.times)((self.times)(x, y), z) == (self.times)(x, (self.times)(y, z)),
    {
        reveal(Ring::commutative_ring);
    }

    /// Multiplying by one gives back the element the other factor stands for.
    pub proof fn lemma_times_one(self, x: T)
        requires
            self.commutative_ring(),
        ensures
            (self.times)(x, self.one) == (self.norm)(x),
            (self.times)(self.one, x) == (self.norm)(x),
    {
        reveal(Ring::commutative_ring);
    }

    /// Products distribute over sums, from either side.
    pub proof fn lemma_distributes(self, x: T, y: T, z: T)
        requires
            self.commutative_ring(),
        ensures
            (self.times)(x, (self.plus)(y, z)) == (self.plus)(
                (self.times)(x, y),
                (self.times)(x, z),
            ),
            (self.times)((self.plus)(y, z), x) == (self.plus)(
                (self.times)(y, x),
                (self.times)(z, x),
            ),
    {
        reveal(Ring::commutative_ring);
    }

    /// The constants and the results of the operations are elements.
    pub proof fn lemma_closed(self, x: T, y: T)
        requires
            self.commutative_ring(),
        ensures
            self.element(self.zero),
            self.element(self.one),
            self.element(self.neg_one()),
            self.element((self.norm)(x)),
            self.element((self.plus)(x, y)),
            self.element((self.minus)(x, y)),
            self.element((self.times)(x, y)),
    {
        reveal(Ring::commutative_ring);
        assert((self.norm)(x) == (self.plus)(x, self.zero));
    }

    /// An operand may be replaced by the element it stands for.
    pub proof fn lemma_norm_operand(self, a: T, v: T)
        requires
            self.commutative_ring(),
        ensures
            (self.plus)(a, (self.norm)(v)) == (self.plus)(a, v),
            (self.times)(a, (self.norm)(v)) == (self.times)(a, v),
    {
        self.lemma_plus_zero(v);
        self.lemma_plus_assoc(a, v, self.zero);
        self.lemma_plus_zero((self.plus)(a, v));
        self.lemma_times_one(v);
        self.lemma_times_assoc(a, v, self.one);
        self.lemma_times_one((self.times)(a, v));
        self.lemma_closed(a, v);
    }

    /// Every power is an element.
    pub proof fn lemma_pow_closed(self, w: T, e: nat)
        requires
            self.commutative_ring(),
        ensures
            self.element(self.pow(w, e)),
    {
        if e == 0 {
            self.lemma_closed(w, w);
        } else {
            self.lemma_closed(self.pow(w, (e - 1) as nat), w);
        }
    }

    /// A common summand on the right may be cancelled.
    pub proof fn lemma_cancel(self, a: T, b: T, c: T)
        requires
            self.commutative_ring(),
            (self.plus)(a, c) == (self.plus)(b, c),
        ensures
            (self.norm)(a) == (self.norm)(b),
    {
        let n = (self.minus)(self.zero, c);
        self.lemma_minus_plus(self.zero, c);
        self.lemma_closed(a, b);
        self.lemma_plus_comm(n, c);
        self.lemma_plus_assoc(a, c, n);
        self.lemma_plus_assoc(b, c, n);
        self.lemma_plus_zero(a);
        self.lemma_plus_zero(b);
    }

    /// Zero times anything is zero.
    pub proof fn lemma_times_zero(self, x: T)
        requires
            self.commutative_ring(),
        ensures
            (self.times)(x, self.zero) == self.zero,
            (self.times)(self.zero, x) == self.zero,
    {
        let t = (self.times)(x, self.zero);
        self.lemma_closed(x, self.zero);
        self.lemma_plus_zero(self.zero);
        self.lemma_distributes(x, self.zero, self.zero);
        self.lemma_plus_zero(t);
        self.lemma_cancel(self.zero, t, t);
        self.lemma_times_comm(x, self.zero);
    }

    /// Subtracting zero gives back the element the minuend stands for.
    pub proof fn lemma_minus_zero(self, x: T)
        requires
            self.commutative_ring(),
        ensures
            (self.minus)(x, self.zero) == (self.norm)(x),
    {
        let m = (self.minus)(x, self.zero);
        self.lemma_minus_plus(x, self.zero);
        self.lemma_plus_zero(m);
        self.lemma_closed(x, self.zero);
    }

    /// Minus one and one add up to zero.
    pub proof fn lemma_neg_one_plus_one(self)
        requires
            self.commutative_ring(),
        ensures
            (self.plus)(self.neg_one(), self.one) == self.zero,
            (self.plus)(self.one, self.neg_one()) == self.zero,
    {
        self.lemma_minus_plus(self.zero, self.one);
        self.lemma_plus_comm(self.neg_one(), self.one);
        self.lemma_closed(self.zero, self.zero);
    }

    /// A difference is the sum with minus one times the subtrahend.
    pub proof fn lemma_minus_is_plus_neg(self, u: T, v: T)
        requires
            self.commutative_ring(),
        ensures
            (self.minus)(u, v) == (self.plus)(u, (self.times)(self.neg_one(), v)),
    {
        let nv = (self.times)(self.neg_one(), v);
        let z = (self.plus)(u, nv);
        self.lemma_minus_plus(u, v);
        // z + v == u + (nv + v) == u + (neg_one + one) * v == u + zero
        self.lemma_plus_assoc(u, nv, v);
        self.lemma_times_one(v);
        self.lemma_times_comm(v, self.neg_one());
        self.lemma_distributes(v, self.neg_one(), self.one);
        self.lemma_neg_one_plus_one();
        self.lemma_times_zero(v);
        self.lemma_norm_operand(nv, v);
        self.lemma_plus_zero(u);
        assert((self.plus)(nv, v) == self.zero);
        assert((self.plus)(z, v) == (self.norm)(u));
        self.lemma_cancel((self.minus)(u, v), z, v);
        self.lemma_closed(u, v);
        self.lemma_closed(u, nv);
    }

    /// Minus one times minus one is one.
    pub proof fn lemma_neg_one_squared(self)
        requires
            self.commutative_ring(),
        ensures
            (self.times)(self.neg_one(), self.neg_one()) == self.one,
    {
        let n = self.neg_one();
        let nn = (self.times)(n, n);
        // nn + n == n * (n + one) == n * zero == zero == one + n
        self.lemma_times_one(n);
        self.lemma_closed(n, n);
        self.lemma_distributes(n, n, self.one);
        self.lemma_neg_one_plus_one();
        self.lemma_times_zero(n);
        assert((self.plus)(nn, n) == self.zero);
        self.lemma_cancel(nn, self.one, n);
    }

    /// A sum of two sums may be taken term by term.
    pub proof fn lemma_interchange(self, a: T, b: T, c: T, d: T)
        requires
            self.commutative_ring(),
        ensures
            (self.plus)((self.plus)(a, b), (self.plus)(c, d)) == (self.plus)(
                (self.plus)(a, c),
                (self.plus)(b, d),
            ),
    {
        // (a + b) + (c + d) == a + (b + (c + d)) == a + ((b + c) + d)
        //   == a + ((c + b) + d) == a + (c + (b + d)) == (a + c) + (b + d)
        self.lemma_plus_assoc(a, b, (self.plus)(c, d));
        self.lemma_plus_assoc(b, c, d);
        self.lemma_plus_comm(b, c);
        self.lemma_plus_assoc(c, b, d);
        self.lemma_plus_assoc(a, c, (self.plus)(b, d));
    }

    /// A product of two products may be taken factor by factor.
    pub proof fn lemma_times_interchange(self, a: T, b: T, c: T, d: T)
        requires
            self.commutative_ring(),
        ensures
            (self.times)((self.times)(a, b), (self.times)(c, d)) == (self.times)(
                (self.times)(a, c),
                (self.times)(b, d),
            ),
    {
        self.lemma_times_assoc(a, b, (self.times)(c, d));
        self.lemma_times_assoc(b, c, d);
        self.lemma_times_comm(b, c);
        self.lemma_times_assoc(c, b, d);
        self.lemma_times_assoc(a, c, (self.times)(b, d));
    }

    /// A difference of two sums may be taken term by term.
    pub proof fn lemma_minus_interchange(self, a: T, b: T, c: T, d: T)
        requires
            self.commutative_ring(),
        ensures
            (self.minus)((self.plus)(a, b), (self.plus)(c, d)) == (self.plus)(
                (self.minus)(a, c),
                (self.minus)(b, d),
            ),
    {
        let n = self.neg_one();
        self.lemma_minus_is_plus_neg((self.plus)(a, b), (self.plus)(c, d));
        self.lemma_minus_is_plus_neg(a, c);
        self.lemma_minus_is_plus_neg(b, d);
        self.lemma_distributes(n, c, d);
        self.lemma_interchange(a, b, (self.times)(n, c), (self.times)(n, d));
    }

    /// Exponents add when powers multiply.
    pub proof fn lemma_pow_add(self, w: T, a: nat, b: nat)
        requires
            self.commutative_ring(),
        ensures
            self.pow(w, a + b) == (self.times)(self.pow(w, a), self.pow(w, b)),
        decreases b,
    {
        if b == 0 {
            self.lemma_times_one(self.pow(w, a));
            self.lemma_pow_closed(w, a);
        } else {
            self.lemma_pow_add(w, a, (b - 1) as nat);
            self.lemma_times_assoc(self.pow(w, a), self.pow(w, (b - 1) as nat), w);
            assert(self.pow(w, a + b) == (self.times)(self.pow(w, (a + b - 1) as nat), w));
        }
    }

    /// Every power of one is one.
    pub proof fn lemma_pow_of_one(self, e: nat)
        requires
            self.commutative_ring(),
        ensures
            self.pow(self.one, e) == self.one,
        decreases e,
    {
        if e > 0 {
            self.lemma_pow_of_one((e - 1) as nat);
            self.lemma_times_one(self.one);
            self.lemma_closed(self.one, self.one);
        }
    }

    /// The first power is the element the base stands for.
    pub proof fn lemma_pow_first(self, w: T)
        requires
            self.commutative_ring(),
        ensures
            self.pow(w, 1) == (self.norm)(w),
    {
        self.lemma_times_one(w);
        assert(self.pow(w, 1) == (self.times)(self.pow(w, 0), w));
    }

    /// A power of a square is the power of twice the exponent.
    pub proof fn lemma_pow_square(self, w: T, e: nat)
        requires
            self.commutative_ring(),
        ensures
            self.pow((self.times)(w, w), e) == self.pow(w, 2 * e),
        decreases e,
    {
        if e > 0 {
            let h = (e - 1) as nat;
            self.lemma_pow_square(w, h);
            self.lemma_times_assoc(self.pow(w, 2 * h), w, w);
            assert(self.pow(w, (2 * h + 1) as nat) == (self.times)(self.pow(w, 2 * h), w));
            assert(self.pow(w, 2 * e) == (self.times)(self.pow(w, (2 * h + 1) as nat), w));
        }
    }

    /// Where `w` to the `m` is one, so is `w` to every multiple of `m`.
    pub proof fn lemma_pow_multiple(self, w: T, m: nat, j: nat)
        requires
            self.commutative_ring(),
            self.pow(w, m) == self.one,
        ensures
            self.pow(w, j * m) == self.one,
        decreases j,
    {
        if j == 0 {
            assert(0 * m == 0) by (nonlinear_arith);
        } else {
            self.lemma_pow_multiple(w, m, (j - 1) as nat);
            assert(j * m == (j - 1) * m + m) by (nonlinear_arith);
            self.lemma_pow_add(w, ((j - 1) * m) as nat, m);
            self.lemma_times_one(self.one);
            self.lemma_closed(self.one, self.one);
        }
    }

    /// A power of a product is the product of the powers.
    pub proof fn lemma_pow_times(self, a: T, b: T, e: nat)
        requires
            self.commutative_ring(),
        ensures
            self.pow((self.times)(a, b), e) == (self.times)(self.pow(a, e), self.pow(b, e)),
        decreases e,
    {
        if e == 0 {
            self.lemma_times_one(self.one);
            self.lemma_closed(self.one, self.one);
        } else {
            let h = (e - 1) as nat;
            self.lemma_pow_times(a, b, h);
            self.lemma_times_interchange(self.pow(a, h), self.pow(b, h), a, b);
        }
    }

    /// A power of a power is the power of the product of the exponents.
    pub proof fn lemma_pow_pow(self, w: T, a: nat, b: nat)
        requires
            self.commutative_ring(),
        ensures
            self.pow(self.pow(w, a), b) == self.pow(w, a * b),
        decreases b,
    {
        if b == 0 {
            assert(a * 0 == 0) by (nonlinear_arith);
        } else {
            let h = (b - 1) as nat;
            self.lemma_pow_pow(w, a, h);
            assert(a * b == a * h + a) by (nonlinear_arith)
                requires
                    h == b - 1,
            ;
            self.lemma_pow_add(w, a * h, a);
        }
    }

    /// An odd power of minus one is minus one.
    pub proof fn lemma_pow_neg_one_odd(self, e: nat)
        requires
            self.commutative_ring(),
            e % 2 == 1,
        ensures
            self.pow(self.neg_one(), e) == self.neg_one(),
    {
        let n1 = self.neg_one();
        let h = e / 2;
        self.lemma_neg_one_squared();
        self.lemma_pow_square(n1, h);
        self.lemma_pow_of_one(h);
        self.lemma_times_one(n1);
        self.lemma_closed(n1, n1);
        assert(self.pow(n1, e) == (self.times)(self.pow(n1, (e - 1) as nat), n1));
    }
}

} // verus!
