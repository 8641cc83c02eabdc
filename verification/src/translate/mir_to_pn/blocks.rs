//! The places of the blocks of a body.

use crate::collections::KeyedMap;
use crate::net::structure::PlaceId;
use crate::translate::mir::BasicBlock;
use vstd::prelude::*;

verus! {

/// The first and the last place of a block.
pub struct BlockEnds {
    pub start: PlaceId,
    pub last: PlaceId,
}

/// The places of the blocks of a body: where each begins, and where its
/// terminator takes over.
pub struct BasicBlockGraph {
    pub ends: KeyedMap<BasicBlock, BlockEnds>,
}

impl View for BasicBlockGraph {
    type V = Map<BasicBlock, BlockEnds>;

    open spec fn view(&self) -> Map<BasicBlock, BlockEnds> {
        self.ends@
    }
}

impl BasicBlockGraph {
    /// No block has places twice.
    pub open spec fn wf(&self) -> bool {
        self.ends.wf()
    }

    /// No blocks.
    pub fn new() -> (r: Self)
        ensures
            r.wf(),
            r@ == Map::<BasicBlock, BlockEnds>::empty(),
    {
        BasicBlockGraph { ends: KeyedMap::new() }
    }

    /// Gives a block its first place.
    pub fn register(&mut self, bb: BasicBlock, start: PlaceId)
        requires
            old(self).wf(),
        ensures
            final(self).wf(),
            final(self)@ == old(self)@.insert(bb, BlockEnds { start, last: start }),
    {
        self.ends.insert(bb, BlockEnds { start, last: start });
    }

    /// The first place of a block.
    pub fn start(&self, bb: BasicBlock) -> (r: PlaceId)
        requires
            self.wf(),
            self@.contains_key(bb),
        ensures
            r == self@[bb].start,
    {
        self.ends.get(&bb).unwrap().start
    }

    /// The last place of a block.
    pub fn last(&self, bb: BasicBlock) -> (r: PlaceId)
        requires
            self.wf(),
            self@.contains_key(bb),
        ensures
            r == self@[bb].last,
    {
        self.ends.get(&bb).unwrap().last
    }

    /// Lengthens a block by one place.
    pub fn push(&mut self, bb: BasicBlock, place: PlaceId)
        requires
            old(self).wf(),
            old(self)@.contains_key(bb),
        ensures
            final(self).wf(),
            final(self)@ == old(self)@.insert(
                bb,
                BlockEnds { start: old(self)@[bb].start, last: place },
            ),
    {
        let start = self.start(bb);
        self.ends.insert(bb, BlockEnds { start, last: place });
    }
}

} // verus!
