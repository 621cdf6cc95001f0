//! Finite sums in a commutative ring.

use crate::ring::Ring;
use vstd::prelude::*;

verus! {

impl<T> Ring<T> {
    /// The sum of `f(0), ..., f(n - 1)`.
    pub open spec fn sum(self, f: spec_fn(int) -> T, n: nat) -> T
        decreases n,
    {
        if n == 0 {
            self.zero
        } else {
            (self.plus)(self.sum(f, (n - 1) as nat), f(n - 1))
        }
    }

    /// `x` added to itself `n` times.
    pub open spec fn multiple(self, x: T, n: nat) -> T
        decreases n,
    {
        if n == 0 {
            self.zero
        } else {
            (self.plus)(self.multiple(x, (n - 1) as nat), x)
        }
    }

    /// The sum of the powers `r^0, ..., r^(n - 1)`.
    pub open spec fn geometric(self, r: T, n: nat) -> T
        decreases n,
    {
        if n == 0 {
            self.zero
        } else {
            (self.plus)(self.geometric(r, (n - 1) as nat), self.pow(r, (n - 1) as nat))
        }
    }

    /// Every sum is an element.
    pub proof fn lemma_sum_closed(self, f: spec_fn(int) -> T, n: nat)
        requires
            self.commutative_ring(),
        ensures
            self.element(self.sum(f, n)),
    {
        if n == 0 {
            self.lemma_closed(self.zero, self.zero);
        } else {
            self.lemma_closed(self.sum(f, (n - 1) as nat), f(n - 1));
        }
    }

    /// Every multiple is an element.
    pub proof fn lemma_multiple_closed(self, x: T, n: nat)
        requires
            self.commutative_ring(),
        ensures
            self.element(self.multiple(x, n)),
    {
        if n == 0 {
            self.lemma_closed(self.zero, self.zero);
        } else {
            self.lemma_closed(self.multiple(x, (n - 1) as nat), x);
        }
    }

    /// Every geometric sum is an element.
    pub proof fn lemma_geometric_closed(self, r: T, n: nat)
        requires
            self.commutative_ring(),
        ensures
            self.element(self.geometric(r, n)),
    {
        if n == 0 {
            self.lemma_closed(self.zero, self.zero);
        } else {
            self.lemma_closed(self.geometric(r, (n - 1) as nat), self.pow(r, (n - 1) as nat));
        }
    }

    /// Sums of termwise equal families are equal.
    pub proof fn lemma_sum_agrees(self, f: spec_fn(int) -> T, g: spec_fn(int) -> T, n: nat)
        requires
            forall|j: int| 0 <= j < n ==> #[trigger] f(j) == g(j),
        ensures
            self.sum(f, n) == self.sum(g, n),
        decreases n,
    {
        if n > 0 {
            self.lemma_sum_agrees(f, g, (n - 1) as nat);
        }
    }

    /// A sum of zeros is zero.
    pub proof fn lemma_sum_of_zeros(self, f: spec_fn(int) -> T, n: nat)
        requires
            self.commutative_ring(),
            forall|j: int| 0 <= j < n ==> #[trigger] f(j) == self.zero,
        ensures
            self.sum(f, n) == self.zero,
        decreases n,
    {
        if n > 0 {
            self.lemma_sum_of_zeros(f, (n - 1) as nat);
            self.lemma_plus_zero(self.zero);
            self.lemma_closed(self.zero, self.zero);
        }
    }

    /// A common factor may be drawn out of a sum.
    pub proof fn lemma_sum_scaled(
        self,
        c: T,
        f: spec_fn(int) -> T,
        g: spec_fn(int) -> T,
        n: nat,
    )
        requires
            self.commutative_ring(),
            forall|j: int| 0 <= j < n ==> #[trigger] g(j) == (self.times)(c, f(j)),
        ensures
            self.sum(g, n) == (self.times)(c, self.sum(f, n)),
        decreases n,
    {
        if n == 0 {
            self.lemma_times_zero(c);
        } else {
            self.lemma_sum_scaled(c, f, g, (n - 1) as nat);
            self.lemma_distributes(c, self.sum(f, (n - 1) as nat), f(n - 1));
        }
    }

    /// The sum of termwise sums is the sum of the sums.
    pub proof fn lemma_sum_of_sums(
        self,
        f: spec_fn(int) -> T,
        g: spec_fn(int) -> T,
        h: spec_fn(int) -> T,
        n: nat,
    )
        requires
            self.commutative_ring(),
            forall|j: int| 0 <= j < n ==> #[trigger] h(j) == (self.plus)(f(j), g(j)),
        ensures
            self.sum(h, n) == (self.plus)(self.sum(f, n), self.sum(g, n)),
        decreases n,
    {
        if n == 0 {
            self.lemma_plus_zero(self.zero);
            self.lemma_closed(self.zero, self.zero);
        } else {
            let m = (n - 1) as nat;
            self.lemma_sum_of_sums(f, g, h, m);
            self.lemma_interchange(self.sum(f, m), self.sum(g, m), f(n - 1), g(n - 1));
        }
    }

    /// Where all terms but the one at `i` are zero, the sum is that term, as
    /// an element.
    pub proof fn lemma_sum_of_one_term(self, f: spec_fn(int) -> T, n: nat, i: int)
        requires
            self.commutative_ring(),
            0 <= i < n,
            forall|j: int| 0 <= j < n && j != i ==> #[trigger] f(j) == self.zero,
        ensures
            self.sum(f, n) == (self.norm)(f(i)),
        decreases n,
    {
        let m = (n - 1) as nat;
        self.lemma_closed(f(i), f(i));
        if i == n - 1 {
            self.lemma_sum_of_zeros(f, m);
            self.lemma_plus_zero(f(i));
        } else {
            self.lemma_sum_of_one_term(f, m, i);
            assert(f(n - 1) == self.zero);
            self.lemma_plus_zero((self.norm)(f(i)));
        }
    }

    /// A double sum may be taken in either order: where `rows(k)` is the sum
    /// of `a(k, j)` over `j < m` and `cols(j)` the sum of `a(k, j)` over
    /// `k < n`, the rows and the columns add up to the same.
    pub proof fn lemma_sum_exchange(
        self,
        a: spec_fn(int, int) -> T,
        rows: spec_fn(int) -> T,
        cols: spec_fn(int) -> T,
        n: nat,
        m: nat,
    )
        requires
            self.commutative_ring(),
            forall|k: int| 0 <= k < n ==> #[trigger] rows(k) == self.sum(|j: int| a(k, j), m),
            forall|j: int| 0 <= j < m ==> #[trigger] cols(j) == self.sum(|k: int| a(k, j), n),
        ensures
            self.sum(rows, n) == self.sum(cols, m),
        decreases n,
    {
        if n == 0 {
            self.lemma_sum_of_zeros(cols, m);
        } else {
            let h = (n - 1) as nat;
            let shorter = |j: int| self.sum(|k: int| a(k, j), h);
            let last = |j: int| a(n - 1, j);
            self.lemma_sum_exchange(a, rows, shorter, h, m);
            assert forall|j: int| 0 <= j < m implies #[trigger] cols(j) == (self.plus)(
                shorter(j),
                last(j),
            ) by {
                let column = |k: int| a(k, j);
                assert(self.sum(column, n) == (self.plus)(self.sum(column, h), column(n - 1)));
            }
            self.lemma_sum_of_sums(shorter, last, cols, m);
        }
    }

    /// `x` times the `n`-fold one is the `n`-fold `x`.
    pub proof fn lemma_times_multiple(self, x: T, n: nat)
        requires
            self.commutative_ring(),
        ensures
            (self.times)(x, self.multiple(self.one, n)) == self.multiple(x, n),
        decreases n,
    {
        if n == 0 {
            self.lemma_times_zero(x);
        } else {
            self.lemma_times_multiple(x, (n - 1) as nat);
            self.lemma_distributes(x, self.multiple(self.one, (n - 1) as nat), self.one);
            self.lemma_times_one(x);
            self.lemma_norm_operand(self.multiple(x, (n - 1) as nat), x);
        }
    }

    /// The powers of one add up to the `n`-fold one.
    pub proof fn lemma_geometric_of_one(self, n: nat)
        requires
            self.commutative_ring(),
        ensures
            self.geometric(self.one, n) == self.multiple(self.one, n),
        decreases n,
    {
        if n > 0 {
            self.lemma_geometric_of_one((n - 1) as nat);
            self.lemma_pow_of_one((n - 1) as nat);
        }
    }

    /// The first `m + j` powers are the first `m` and, times `r^m`, the
    /// first `j`.
    pub proof fn lemma_geometric_shifts(self, r: T, m: nat, j: nat)
        requires
            self.commutative_ring(),
        ensures
            self.geometric(r, m + j) == (self.plus)(
                self.geometric(r, m),
                (self.times)(self.pow(r, m), self.geometric(r, j)),
            ),
        decreases j,
    {
        let pm = self.pow(r, m);
        if j == 0 {
            self.lemma_times_zero(pm);
            self.lemma_plus_zero(self.geometric(r, m));
            self.lemma_geometric_closed(r, m);
        } else {
            let h = (j - 1) as nat;
            self.lemma_geometric_shifts(r, m, h);
            self.lemma_pow_add(r, m, h);
            self.lemma_distributes(pm, self.geometric(r, h), self.pow(r, h));
            self.lemma_plus_assoc(
                self.geometric(r, m),
                (self.times)(pm, self.geometric(r, h)),
                (self.times)(pm, self.pow(r, h)),
            );
            assert(self.geometric(r, m + j) == (self.plus)(
                self.geometric(r, (m + h) as nat),
                self.pow(r, (m + h) as nat),
            ));
        }
    }

    /// Twice as many powers add up to `1 + r^m` times as much.
    pub proof fn lemma_geometric_doubles(self, r: T, m: nat)
        requires
            self.commutative_ring(),
        ensures
            self.geometric(r, 2 * m) == (self.times)(
                (self.plus)(self.one, self.pow(r, m)),
                self.geometric(r, m),
            ),
    {
        let g = self.geometric(r, m);
        self.lemma_geometric_shifts(r, m, m);
        self.lemma_distributes(g, self.one, self.pow(r, m));
        self.lemma_times_one(g);
        self.lemma_geometric_closed(r, m);
        self.lemma_times_comm(self.pow(r, m), g);
        self.lemma_times_comm((self.plus)(self.one, self.pow(r, m)), g);
    }

    /// A sum whose terms are the powers of `r` is the geometric sum.
    pub proof fn lemma_sum_of_powers(self, f: spec_fn(int) -> T, r: T, n: nat)
        requires
            forall|k: int| 0 <= k < n ==> #[trigger] f(k) == self.pow(r, k as nat),
        ensures
            self.sum(f, n) == self.geometric(r, n),
        decreases n,
    {
        if n > 0 {
            self.lemma_sum_of_powers(f, r, (n - 1) as nat);
        }
    }
}

} // verus!
