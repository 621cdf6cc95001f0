//! Per-stage twiddle tables.
//!
//! Each stage gets its root once and all the powers it needs are stored
//! before its butterflies run. The alternative, multiplying an accumulator
//! along inside every group, saves the table and repeats the products; with
//! rounded arithmetic the two differ in the last digits.

use crate::arith::Arithmetic;
use vstd::prelude::*;

verus! {

impl<T: Copy, R, M, A, S, D> Arithmetic<T, R, M, A, S, D> where
    R: Fn(usize, bool) -> T,
    M: Fn(T, T) -> T,
    A: Fn(T, T) -> T,
    S: Fn(T, T) -> T,
    D: Fn(T, usize) -> T,
 {
    /// Replaces the contents of `ws` by the first `count` powers of `wn`:
    /// one, then each entry times `wn`. The buffer is reused from stage to
    /// stage, so nothing of its former contents survives.
    pub fn fill_twiddles(&self, ws: &mut Vec<T>, count: usize, wn: T)
        requires
            count >= 1,
            forall|x: T, y: T| #[trigger] self.mul.requires((x, y)),
        ensures
            final(ws)@.len() == count,
            self.twiddles(final(ws)@, wn),
    {
        ws.clear();
        ws.reserve(count);
        ws.push(self.one);
        let mut i: usize = 0;
        while i < count - 1
            invariant
                count >= 1,
                i <= count - 1,
                ws@.len() == i + 1,
                ws@[0] == self.one,
                forall|x: T, y: T| #[trigger] self.mul.requires((x, y)),
                forall|k: int| 0 <= k < i ==> #[trigger] self.twiddle_step(ws@, wn, k),
            decreases count - 1 - i,
        {
            let ghost prev = ws@;
            let next = (self.mul)(ws[i], wn);
            ws.push(next);
            proof {
                assert forall|k: int| 0 <= k < i + 1 implies #[trigger] self.twiddle_step(
                    ws@,
                    wn,
                    k,
                ) by {
                    if k < i {
                        assert(self.twiddle_step(prev, wn, k));
                    }
                }
            }
            i += 1;
        }
    }
}

} // verus!
