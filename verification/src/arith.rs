//! The arithmetic a transform runs on, and what each step of the transform
//! is allowed to produce under that arithmetic.

use crate::bits::bit_length;
use crate::permute::bit_reversed;
use vstd::arithmetic::power2::pow2;
use vstd::prelude::*;

verus! {

/// The operations of the sample field, supplied by the caller.
///
/// The engine never looks inside a sample; it only routes samples through
/// these operations. Every statement about a transform is therefore phrased
/// in terms of what the operations themselves admit as results.
pub struct Arithmetic<T, R, M, A, S, D> {
    /// The multiplicative unit, first entry of every twiddle table.
    pub one: T,
    /// `root(len, invert)`: the primitive `len`-th root of unity, turning
    /// clockwise for a forward transform and counter-clockwise for an inverse.
    pub root: R,
    /// Product of two samples.
    pub mul: M,
    /// Sum of two samples.
    pub add: A,
    /// Difference of two samples.
    pub sub: S,
    /// `div(x, n)`: the sample `x` divided by the real scalar `n`.
    pub div: D,
}

impl<T, R, M, A, S, D> Arithmetic<T, R, M, A, S, D> where
    R: Fn(usize, bool) -> T,
    M: Fn(T, T) -> T,
    A: Fn(T, T) -> T,
    S: Fn(T, T) -> T,
    D: Fn(T, usize) -> T,
 {
    /// Product, sum and difference may be taken of any two samples.
    pub open spec fn combines_any(&self) -> bool {
        &&& forall|x: T, y: T| #[trigger] self.mul.requires((x, y))
        &&& forall|x: T, y: T| #[trigger] self.add.requires((x, y))
        &&& forall|x: T, y: T| #[trigger] self.sub.requires((x, y))
    }

    /// Entry `i + 1` of the table is a product of entry `i` and `wn`.
    pub open spec fn twiddle_step(&self, ws: Seq<T>, wn: T, i: int) -> bool {
        self.mul.ensures((ws[i], wn), ws[i + 1])
    }

    /// `ws` is a table of successive powers of `wn`, starting from one and
    /// built by repeated multiplication.
    pub open spec fn twiddles(&self, ws: Seq<T>, wn: T) -> bool {
        &&& ws.len() >= 1
        &&& ws[0] == self.one
        &&& forall|i: int| 0 <= i < ws.len() - 1 ==> #[trigger] self.twiddle_step(ws, wn, i)
    }

    /// One butterfly: with `v` a product of `x` and its twiddle `w`, `top`
    /// is a sum `u + v` and `bottom` a difference `u - v` of the same `u`
    /// and the same `v`.
    pub open spec fn butterfly(&self, u: T, x: T, w: T, top: T, bottom: T) -> bool {
        exists|v: T|
            #[trigger] self.mul.ensures((x, w), v) && self.add.ensures((u, v), top)
                && self.sub.ensures((u, v), bottom)
    }

    /// The butterfly whose upper slot is `k` in a stage of span `len`: it
    /// reads slots `k` and `k + len / 2` of `before`, uses the twiddle for
    /// the offset of `k` within its group, and fills the same two slots of
    /// `after`.
    pub open spec fn butterfly_at(
        &self,
        before: Seq<T>,
        after: Seq<T>,
        len: int,
        ws: Seq<T>,
        k: int,
    ) -> bool {
        self.butterfly(
            before[k],
            before[k + len / 2],
            ws[k % len],
            after[k],
            after[k + len / 2],
        )
    }

    /// One whole stage of span `len`: the sequence falls into groups of
    /// `len` slots, and every slot in the upper half of its group is the
    /// upper slot of a butterfly from `before` to `after`.
    pub open spec fn stage(&self, before: Seq<T>, after: Seq<T>, len: int, ws: Seq<T>) -> bool {
        &&& after.len() == before.len()
        &&& forall|k: int|
            0 <= k < before.len() && k % len < len / 2 ==> #[trigger] self.butterfly_at(
                before,
                after,
                len,
                ws,
                k,
            )
    }

    /// Stage number `s` (span `2^s`) leads from `before` to `after` with
    /// root `wn` and table `ws`: `wn` is what `root` gives for this span and
    /// direction, `ws` holds the `2^(s-1)` powers of `wn`, and the butterflies
    /// of the stage use exactly that table.
    pub open spec fn stage_with(
        &self,
        before: Seq<T>,
        after: Seq<T>,
        s: nat,
        invert: bool,
        wn: T,
        ws: Seq<T>,
    ) -> bool {
        &&& self.root.ensures((pow2(s) as usize, invert), wn)
        &&& ws.len() == pow2((s - 1) as nat)
        &&& self.twiddles(ws, wn)
        &&& self.stage(before, after, pow2(s) as int, ws)
    }

    /// The first `stages` stages of the network, spans `2, 4, ..., 2^stages`
    /// in this order, lead from `before` to `after`. Each stage draws a fresh
    /// root and a fresh table.
    pub open spec fn network(
        &self,
        before: Seq<T>,
        after: Seq<T>,
        stages: nat,
        invert: bool,
    ) -> bool
        decreases stages,
    {
        if stages == 0 {
            after == before
        } else {
            exists|mid: Seq<T>, wn: T, ws: Seq<T>|
                self.network(before, mid, (stages - 1) as nat, invert) && #[trigger] self.stage_with(
                    mid,
                    after,
                    stages,
                    invert,
                    wn,
                    ws,
                )
        }
    }

    /// Every entry of `after` is the entry of `before` divided by the length.
    pub open spec fn normalized(&self, before: Seq<T>, after: Seq<T>) -> bool {
        &&& after.len() == before.len()
        &&& forall|i: int|
            0 <= i < before.len() ==> self.div.ensures(
                (before[i], before.len() as usize),
                #[trigger] after[i],
            )
    }

    /// `output` is a transform of `input`: the bit-reversal permutation, then
    /// all stages in ascending span, then, for an inverse transform only, the
    /// division of every entry by the length.
    pub open spec fn transform(&self, input: Seq<T>, output: Seq<T>, invert: bool) -> bool {
        let stages = (bit_length(input.len()) - 1) as nat;
        if invert {
            exists|mid: Seq<T>|
                #[trigger] self.network(bit_reversed(input), mid, stages, invert)
                    && self.normalized(mid, output)
        } else {
            self.network(bit_reversed(input), output, stages, invert)
        }
    }
}

} // verus!
