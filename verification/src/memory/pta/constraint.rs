//! Constraints between locations.

use super::loc::{with_item, FieldPath, LocId};
use vstd::prelude::*;

verus! {

/// What must hold between the points-to sets of locations.
#[derive(Clone, Copy, Debug, PartialEq, Eq, Structural)]
pub enum Constraint {
    /// `dst` points to `obj`.
    AddressOf { dst: LocId, obj: LocId },
    /// `dst` points to what `src` points to.
    Copy { dst: LocId, src: LocId },
    /// `dst` points to what the pointees of `src` point to.
    Load { dst: LocId, src: LocId },
    /// The pointees of `dst` point to what `src` points to.
    Store { dst: LocId, src: LocId },
    /// `dst` points to the parts at `suffix` of the pointees of `src`.
    Offset { dst: LocId, src: LocId, suffix: FieldPath },
}

/// The sequence with the items of a list, each unless it occurs.
pub open spec fn with_items<T>(s: Seq<T>, list: Seq<T>) -> Seq<T>
    decreases list.len(),
{
    if list.len() == 0 {
        s
    } else {
        with_item(with_items(s, list.drop_last()), list.last())
    }
}

/// Constraints, each once, in the order in which they came.
#[derive(Debug)]
pub struct ConstraintSet {
    pub items: Vec<Constraint>,
}

impl View for ConstraintSet {
    type V = Seq<Constraint>;

    open spec fn view(&self) -> Seq<Constraint> {
        self.items@
    }
}

impl ConstraintSet {
    /// No constraints.
    pub fn new() -> (r: Self)
        ensures
            r@ == Seq::<Constraint>::empty(),
    {
        ConstraintSet { items: Vec::new() }
    }

    /// Adds a constraint, unless it is there.
    pub fn add(&mut self, c: Constraint)
        ensures
            final(self)@ == with_item(old(self)@, c),
    {
        let mut i: usize = 0;
        while i < self.items.len()
            invariant
                i <= self.items@.len(),
                self@ == old(self)@,
                forall|j: int| 0 <= j < i ==> self.items@[j] != c,
            decreases self.items@.len() - i,
        {
            if self.items[i] == c {
                assert(self@[i as int] == c);
                return;
            }
            i = i + 1;
        }
        self.items.push(c);
    }
}

} // verus!
