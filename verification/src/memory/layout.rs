//! Spaces.
use vstd::prelude::*;

verus! {

/// A range of addresses, without its end.
#[derive(Clone, Copy, Debug, PartialEq, Eq, Structural)]
pub struct SpaceBounds {
    pub start: usize,
    pub end: usize,
}

impl SpaceBounds {
    pub open spec fn spec_len(&self) -> usize {
        (self.end - self.start) as usize
    }

    /// The bytes in the range.
    #[verifier::when_used_as_spec(spec_len)]
    pub fn len(&self) -> (n: usize)
        requires
            self.start <= self.end,
        ensures
            n == self.spec_len(),
    {
        self.end - self.start
    }
}

} // verus!
