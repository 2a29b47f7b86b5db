//! Closed ranges of elements.

use vstd::prelude::*;

use crate::repr::Integral;

verus! {

/// The elements from the first field to the second, both included.
#[derive(Clone, Copy, Debug, PartialEq, Eq)]
pub struct Interval<I: Integral>(pub I, pub I);

impl<I: Integral> Interval<I> {
    /// Whether `c` lies in the interval.
    pub open spec fn contains(self, c: I) -> bool {
        self.0.code() <= c.code() <= self.1.code()
    }

    /// The number of elements between the bounds, were every code between
    /// them an element.
    pub open spec fn span(self) -> int {
        1 + self.1.code() - self.0.code()
    }

    /// Tests whether `c` lies in the interval.
    pub fn has(&self, c: I) -> (found: bool)
        ensures
            found == self.contains(c),
    {
        let n = c.to_u32();
        self.0.to_u32() <= n && n <= self.1.to_u32()
    }
}

} // verus!
