//! The memory that a mapping covers.

use vstd::prelude::*;

verus! {

/// A contiguous span of addresses, from `start` up to but without `end`,
/// as an anonymous mapping covers it.
#[derive(Clone, Copy, Debug)]
pub struct AnonymousMapping {
    start: usize,
    end: usize,
}

impl AnonymousMapping {
    /// The span does not end before it starts.
    #[verifier::type_invariant]
    pub open spec fn wf(&self) -> bool {
        self.start() <= self.end()
    }

    pub closed spec fn spec_start(&self) -> usize {
        self.start
    }

    pub closed spec fn spec_end(&self) -> usize {
        self.end
    }

    pub open spec fn spec_bytes(&self) -> usize {
        (self.end() - self.start()) as usize
    }

    /// The span from `start` up to `end`.
    pub fn new(start: usize, end: usize) -> (mapping: Self)
        requires
            start <= end,
        ensures
            mapping.wf(),
            mapping.start() == start,
            mapping.end() == end,
    {
        AnonymousMapping { start, end }
    }

    /// The first address of the span.
    #[verifier::when_used_as_spec(spec_start)]
    pub fn start(&self) -> (start: usize)
        ensures
            start == self.start(),
            start <= self.end(),
    {
        proof {
            use_type_invariant(self);
        }
        self.start
    }

    /// The address just past the span.
    #[verifier::when_used_as_spec(spec_end)]
    pub fn end(&self) -> (end: usize)
        ensures
            end == self.end(),
            self.start() <= end,
    {
        proof {
            use_type_invariant(self);
        }
        self.end
    }

    /// How many bytes the span holds.
    #[verifier::when_used_as_spec(spec_bytes)]
    pub fn bytes(&self) -> (bytes: usize)
        ensures
            bytes == self.end() - self.start(),
    {
        proof {
            use_type_invariant(self);
        }
        self.end - self.start
    }
}

} // verus!
