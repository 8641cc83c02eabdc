//! Atomic memory orderings.

use vstd::prelude::*;

verus! {

/// The memory ordering of an atomic operation.
#[derive(Clone, Copy, Debug, PartialEq, Eq, Structural)]
pub enum AtomicOrdering {
    Relaxed,
    Release,
    Acquire,
    AcqRel,
    SeqCst,
}

impl AtomicOrdering {
    /// The printed name.
    pub open spec fn name(self) -> Seq<char> {
        match self {
            AtomicOrdering::Relaxed => "Relaxed"@,
            AtomicOrdering::Release => "Release"@,
            AtomicOrdering::Acquire => "Acquire"@,
            AtomicOrdering::AcqRel => "AcqRel"@,
            AtomicOrdering::SeqCst => "SeqCst"@,
        }
    }

    /// The printed name.
    pub fn name_text(self) -> (r: &'static str)
        ensures
            r@ == self.name(),
    {
        match self {
            AtomicOrdering::Relaxed => "Relaxed",
            AtomicOrdering::Release => "Release",
            AtomicOrdering::Acquire => "Acquire",
            AtomicOrdering::AcqRel => "AcqRel",
            AtomicOrdering::SeqCst => "SeqCst",
        }
    }
}

} // verus!
