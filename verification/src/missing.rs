use vstd::arithmetic::div_mod::{lemma_fundamental_div_mod, lemma_mod_division_less_than_divisor};
use vstd::arithmetic::mul::lemma_mul_inequality;
use vstd::prelude::*;

verus! {

/// A caller-facing snapshot of one reserved-but-unfilled range of the
/// stream: it carries no reference back into the buffer that reported it.
#[derive(Copy, Clone, Debug, PartialEq, Eq, Structural)]
pub struct MissingSegment {
    /// Absolute offset of the first missing byte.
    pub offset: usize,
    /// Number of missing bytes.
    pub length: usize,
}

impl MissingSegment {
    /// A segment describes byte positions of a stream addressed by `usize`,
    /// so the position one past its last byte fits in `usize`.
    pub open spec fn wf(self) -> bool {
        self.offset + self.length <= usize::MAX
    }

    /// The ascending absolute offsets of every full frame of `frame_size`
    /// bytes that fits inside this segment. Integer division truncates: a
    /// final partial frame is not represented by any offset.
    pub fn offsets_for(self, frame_size: usize) -> (r: Vec<usize>)
        requires
            frame_size >= 1,
            self.wf(),
        ensures
            r@.len() == self.length as int / frame_size as int,
            forall|k: int| 0 <= k < r@.len() ==> r@[k] == self.offset + k * frame_size,
    {
        let count: usize = self.length / frame_size;
        proof {
            lemma_fundamental_div_mod(self.length as int, frame_size as int);
            lemma_mod_division_less_than_divisor(self.length as int, frame_size as int);
            assert(count * frame_size <= self.length);
        }
        let mut r: Vec<usize> = Vec::new();
        let mut k: usize = 0;
        while k < count
            invariant
                k <= count,
                count == self.length as int / frame_size as int,
                frame_size >= 1,
                self.offset + self.length <= usize::MAX,
                count * frame_size <= self.length,
                r@.len() == k,
                forall|j: int| 0 <= j < k ==> r@[j] == self.offset + j * frame_size,
            decreases count - k,
        {
            proof {
                lemma_mul_inequality(k as int, count as int, frame_size as int);
            }
            r.push(self.offset + k * frame_size);
            k += 1;
        }
        r
    }
}

} // verus!
