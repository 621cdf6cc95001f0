//! What holds of every transform, whatever the arithmetic.

use crate::arith::Arithmetic;
use crate::bits::bit_length;
use crate::butterfly::lemma_upper_slot;
use crate::permute::{bit_reversed, rev_index};
use vstd::arithmetic::power2::{lemma_pow2_pos, lemma_pow2_unfold, pow2};
use vstd::prelude::*;

verus! {

impl<T, R, M, A, S, D> Arithmetic<T, R, M, A, S, D> where
    R: Fn(usize, bool) -> T,
    M: Fn(T, T) -> T,
    A: Fn(T, T) -> T,
    S: Fn(T, T) -> T,
    D: Fn(T, usize) -> T,
 {
    /// Each operation admits at most one result for given operands.
    pub open spec fn single_valued(&self) -> bool {
        &&& forall|x: T, y: T, r1: T, r2: T|
            #[trigger] self.mul.ensures((x, y), r1) && #[trigger] self.mul.ensures((x, y), r2)
                ==> r1 == r2
        &&& forall|x: T, y: T, r1: T, r2: T|
            #[trigger] self.add.ensures((x, y), r1) && #[trigger] self.add.ensures((x, y), r2)
                ==> r1 == r2
        &&& forall|x: T, y: T, r1: T, r2: T|
            #[trigger] self.sub.ensures((x, y), r1) && #[trigger] self.sub.ensures((x, y), r2)
                ==> r1 == r2
        &&& forall|len: usize, invert: bool, r1: T, r2: T|
            #[trigger] self.root.ensures((len, invert), r1) && #[trigger] self.root.ensures(
                (len, invert),
                r2,
            ) ==> r1 == r2
        &&& forall|x: T, n: usize, r1: T, r2: T|
            #[trigger] self.div.ensures((x, n), r1) && #[trigger] self.div.ensures((x, n), r2)
                ==> r1 == r2
    }

    /// The stages of the network keep the length.
    pub proof fn lemma_network_len(&self, before: Seq<T>, after: Seq<T>, stages: nat, invert: bool)
        requires
            self.network(before, after, stages, invert),
        ensures
            after.len() == before.len(),
        decreases stages,
    {
        if stages > 0 {
            let (mid, wn, ws) = choose|mid: Seq<T>, wn: T, ws: Seq<T>|
                self.network(before, mid, (stages - 1) as nat, invert) && #[trigger] self.stage_with(
                    mid,
                    after,
                    stages,
                    invert,
                    wn,
                    ws,
                );
            self.lemma_network_len(before, mid, (stages - 1) as nat, invert);
        }
    }

    /// A transform keeps the length.
    pub proof fn lemma_transform_len(&self, input: Seq<T>, output: Seq<T>, invert: bool)
        requires
            self.transform(input, output, invert),
        ensures
            output.len() == input.len(),
    {
        let stages = (bit_length(input.len()) - 1) as nat;
        if invert {
            let mid = choose|mid: Seq<T>|
                #[trigger] self.network(bit_reversed(input), mid, stages, invert)
                    && self.normalized(mid, output);
            self.lemma_network_len(bit_reversed(input), mid, stages, invert);
        } else {
            self.lemma_network_len(bit_reversed(input), output, stages, invert);
        }
    }

    /// Two tables of the same length over the same root agree entry by entry.
    proof fn lemma_twiddles_agree(&self, ws1: Seq<T>, ws2: Seq<T>, wn: T, i: int)
        requires
            self.single_valued(),
            self.twiddles(ws1, wn),
            self.twiddles(ws2, wn),
            ws1.len() == ws2.len(),
            0 <= i < ws1.len(),
        ensures
            ws1[i] == ws2[i],
        decreases i,
    {
        if i > 0 {
            self.lemma_twiddles_agree(ws1, ws2, wn, i - 1);
            assert(self.twiddle_step(ws1, wn, i - 1));
            assert(self.twiddle_step(ws2, wn, i - 1));
        }
    }

    /// With single-valued arithmetic a table is determined by its root and
    /// its length.
    pub proof fn lemma_twiddles_unique(&self, ws1: Seq<T>, ws2: Seq<T>, wn: T)
        requires
            self.single_valued(),
            self.twiddles(ws1, wn),
            self.twiddles(ws2, wn),
            ws1.len() == ws2.len(),
        ensures
            ws1 == ws2,
    {
        assert forall|i: int| 0 <= i < ws1.len() implies ws1[i] == ws2[i] by {
            self.lemma_twiddles_agree(ws1, ws2, wn, i);
        }
        assert(ws1 =~= ws2);
    }

    /// With single-valued arithmetic a butterfly has one outcome.
    proof fn lemma_butterfly_unique(&self, u: T, x: T, w: T, t1: T, b1: T, t2: T, b2: T)
        requires
            self.single_valued(),
            self.butterfly(u, x, w, t1, b1),
            self.butterfly(u, x, w, t2, b2),
        ensures
            t1 == t2,
            b1 == b2,
    {
        let v1 = choose|v: T|
            #[trigger] self.mul.ensures((x, w), v) && self.add.ensures((u, v), t1)
                && self.sub.ensures((u, v), b1);
        let v2 = choose|v: T|
            #[trigger] self.mul.ensures((x, w), v) && self.add.ensures((u, v), t2)
                && self.sub.ensures((u, v), b2);
        assert(v1 == v2);
    }

    /// With single-valued arithmetic a stage has one outcome: every slot is
    /// the upper or the lower slot of exactly one butterfly.
    pub proof fn lemma_stage_unique(
        &self,
        before: Seq<T>,
        after1: Seq<T>,
        after2: Seq<T>,
        len: int,
        ws: Seq<T>,
    )
        requires
            self.single_valued(),
            len >= 2,
            len % 2 == 0,
            self.stage(before, after1, len, ws),
            self.stage(before, after2, len, ws),
        ensures
            after1 == after2,
    {
        let half = len / 2;
        assert forall|m: int| 0 <= m < before.len() implies after1[m] == after2[m] by {
            let k = if m % len < half {
                m
            } else {
                m - half
            };
            lemma_upper_slot(m, len);
            assert(self.butterfly_at(before, after1, len, ws, k));
            assert(self.butterfly_at(before, after2, len, ws, k));
            self.lemma_butterfly_unique(
                before[k],
                before[k + half],
                ws[k % len],
                after1[k],
                after1[k + half],
                after2[k],
                after2[k + half],
            );
        }
        assert(after1 =~= after2);
    }

    /// With single-valued arithmetic the network has one outcome.
    pub proof fn lemma_network_unique(
        &self,
        before: Seq<T>,
        after1: Seq<T>,
        after2: Seq<T>,
        stages: nat,
        invert: bool,
    )
        requires
            self.single_valued(),
            self.network(before, after1, stages, invert),
            self.network(before, after2, stages, invert),
        ensures
            after1 == after2,
        decreases stages,
    {
        if stages > 0 {
            let (mid1, wn1, ws1) = choose|mid: Seq<T>, wn: T, ws: Seq<T>|
                self.network(before, mid, (stages - 1) as nat, invert) && #[trigger] self.stage_with(
                    mid,
                    after1,
                    stages,
                    invert,
                    wn,
                    ws,
                );
            let (mid2, wn2, ws2) = choose|mid: Seq<T>, wn: T, ws: Seq<T>|
                self.network(before, mid, (stages - 1) as nat, invert) && #[trigger] self.stage_with(
                    mid,
                    after2,
                    stages,
                    invert,
                    wn,
                    ws,
                );
            self.lemma_network_unique(before, mid1, mid2, (stages - 1) as nat, invert);
            assert(wn1 == wn2);
            self.lemma_twiddles_unique(ws1, ws2, wn1);
            lemma_pow2_unfold(stages);
            lemma_pow2_pos((stages - 1) as nat);
            self.lemma_stage_unique(mid1, after1, after2, pow2(stages) as int, ws1);
        }
    }

    /// With single-valued arithmetic a transform has one outcome: the
    /// relation [`Arithmetic::transform`] then names a function of the input.
    pub proof fn lemma_transform_unique(
        &self,
        input: Seq<T>,
        output1: Seq<T>,
        output2: Seq<T>,
        invert: bool,
    )
        requires
            self.single_valued(),
            self.transform(input, output1, invert),
            self.transform(input, output2, invert),
        ensures
            output1 == output2,
    {
        let stages = (bit_length(input.len()) - 1) as nat;
        let start = bit_reversed(input);
        if invert {
            let mid1 = choose|mid: Seq<T>|
                #[trigger] self.network(start, mid, stages, invert) && self.normalized(
                    mid,
                    output1,
                );
            let mid2 = choose|mid: Seq<T>|
                #[trigger] self.network(start, mid, stages, invert) && self.normalized(
                    mid,
                    output2,
                );
            self.lemma_network_unique(start, mid1, mid2, stages, invert);
            assert(output1 =~= output2);
        } else {
            self.lemma_network_unique(start, output1, output2, stages, invert);
        }
    }

    /// A single sample passes a forward transform unchanged: there is nothing
    /// to permute and no stage to run. An inverse transform of a single
    /// sample is that sample divided by one, and nothing else.
    pub proof fn lemma_transform_single(&self, input: Seq<T>, output: Seq<T>, invert: bool)
        requires
            input.len() == 1,
            self.transform(input, output, invert),
        ensures
            output.len() == 1,
            !invert ==> output == input,
            invert ==> self.div.ensures((input[0], 1usize), output[0]),
    {
        assert(bit_length(1) == 1) by {
            reveal_with_fuel(bit_length, 2);
        }
        assert(rev_index(0, 1) == 0);
        assert(bit_reversed(input) =~= input);
        if invert {
            let mid = choose|mid: Seq<T>|
                #[trigger] self.network(bit_reversed(input), mid, 0, invert) && self.normalized(
                    mid,
                    output,
                );
            assert(mid == input);
        }
    }
}

} // verus!
