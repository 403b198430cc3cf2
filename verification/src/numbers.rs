//! The numbers counting up from a start.
use vstd::prelude::*;

verus! {

/// The numbers `start, start + 1, start + 2, ...`.
#[derive(Copy, Clone, Debug)]
pub struct PositiveNumbersFrom<T>(pub T);

impl PositiveNumbersFrom<usize> {
    /// The number at position `n`: `start + n`.
    pub fn nth(&self, n: usize) -> (r: usize)
        requires
            self.0 + n <= usize::MAX,
        ensures
            r == self.0 + n,
    {
        self.0 + n
    }

    /// The first `count` numbers.
    pub fn take(&self, count: usize) -> (r: Vec<usize>)
        requires
            self.0 + count <= usize::MAX,
        ensures
            r.len() == count,
            forall|i: int| 0 <= i < count ==> #[trigger] r@[i] == self.0 + i,
    {
        let mut r: Vec<usize> = Vec::new();
        let mut i: usize = 0;
        while i < count
            invariant
                i <= count,
                self.0 + count <= usize::MAX,
                r.len() == i,
                forall|k: int| 0 <= k < i ==> #[trigger] r@[k] == self.0 + k,
            decreases count - i,
        {
            r.push(self.0 + i);
            i += 1;
        }
        r
    }
}

} // verus!
