//! The ends of blocks.

use super::blocks::BlockEnds;
use super::body::{block_place, body_ok, switch_targets, BodyToPetriNet, BodyView};
use super::names::{numbered_name, numbered_text, transition_name, transition_text};
use crate::net::structure::{PlaceId, PtTransition, TransitionId, TransitionType, TransitionTypeView};
use crate::text::{decimal, index_text};
use crate::translate::mir::{
    BasicBlock, BasicBlockData, Body, DefId, PollVariant, Statement, StatementKind, TerminatorKind,
};
use vstd::prelude::*;

verus! {

/// The block has no places.
pub open spec fn is_skipped(block: BasicBlockData) -> bool {
    block.is_cleanup || block.empty_unreachable()
}

/// Where the terminator of a block comes from.
pub open spec fn end_span(block: BasicBlockData) -> Seq<char> {
    match block.terminator {
        Some(t) => t.span@,
        None => Seq::empty(),
    }
}

/// The translation with one block, which gets its first place unless it is
/// skipped.
pub open spec fn with_block(v: BodyView, bb: usize, block: BasicBlockData, name: Seq<char>) -> BodyView {
    if is_skipped(block) {
        BodyView { excluded: v.excluded.push(bb), ..v }
    } else {
        let start = v.next_place();
        BodyView {
            net: v.net.with_place(
                block_place(name + "_"@ + decimal(bb as nat), end_span(block)),
            ),
            blocks: v.blocks.insert(bb, BlockEnds { start, last: start }),
            ..v
        }
    }
}

/// The translation with the first `n` blocks.
pub open spec fn with_blocks(
    v: BodyView,
    blocks: Seq<BasicBlockData>,
    name: Seq<char>,
    n: nat,
) -> BodyView
    decreases n,
{
    if n == 0 {
        v
    } else {
        with_block(
            with_blocks(v, blocks, name, (n - 1) as nat),
            (n - 1) as usize,
            blocks[n - 1],
            name,
        )
    }
}

/// The targets of a switch that are wired: those that have places, and of the
/// dispatch of a coroutine only the first.
pub open spec fn wired(targets: Seq<BasicBlock>, excluded: Seq<usize>, dispatch: bool) -> Seq<
    BasicBlock,
>
    decreases targets.len(),
{
    if targets.len() == 0 {
        Seq::empty()
    } else {
        let before = wired(targets.drop_last(), excluded, dispatch);
        if excluded.contains(targets.last()) || (dispatch && before.len() > 0) {
            before
        } else {
            before.push(targets.last())
        }
    }
}

/// The translation with one transition for each of the targets.
pub open spec fn with_switch(
    v: BodyView,
    bb: BasicBlock,
    name: Seq<char>,
    targets: Seq<BasicBlock>,
) -> BodyView
    decreases targets.len(),
{
    if targets.len() == 0 {
        v
    } else {
        with_switch(v, bb, name, targets.drop_last()).with_fallthrough(
            bb,
            numbered_name(name, bb, "switch"@, targets.len()),
            TransitionTypeView::Switch,
            targets.last(),
        )
    }
}

/// The first assignment to the return place.
pub open spec fn first_result(statements: Seq<Statement>) -> Option<Statement>
    decreases statements.len(),
{
    if statements.len() == 0 {
        None
    } else {
        match statements[0].kind {
            StatementKind::Assign(place, _) => if place.local == 0 {
                Some(statements[0])
            } else {
                first_result(statements.drop_first())
            },
            StatementKind::Other => first_result(statements.drop_first()),
        }
    }
}

/// The variant of `Poll` that the block returns, where it returns one.
pub open spec fn polled(block: BasicBlockData) -> Option<PollVariant> {
    match first_result(block.statements@) {
        Some(statement) => statement.poll,
        None => None,
    }
}

/// The block returns `Poll::Pending`: it suspends a coroutine.
pub open spec fn sets_pending(block: BasicBlockData) -> bool {
    polled(block) == Some(PollVariant::Pending)
}

/// The first target that is neither the block nor one for cleanup.
pub open spec fn other_target(
    targets: Seq<BasicBlock>,
    blocks: Seq<BasicBlockData>,
    bb: BasicBlock,
) -> Option<BasicBlock>
    decreases targets.len(),
{
    if targets.len() == 0 {
        None
    } else if targets[0] != bb && !blocks[targets[0] as int].is_cleanup {
        Some(targets[0])
    } else {
        other_target(targets.drop_first(), blocks, bb)
    }
}

/// Where the coroutine resumes if the block is one that the switch leads to.
pub open spec fn resumed_from(
    block: BasicBlockData,
    blocks: Seq<BasicBlockData>,
    bb: BasicBlock,
) -> Option<BasicBlock> {
    if switch_targets(block).contains(bb) {
        other_target(switch_targets(block), blocks, bb)
    } else {
        None
    }
}

/// Where a suspended coroutine resumes: another target of the first of the
/// switches from `from` on that leads to the suspending block and has one.
pub open spec fn continuation(
    blocks: Seq<BasicBlockData>,
    from: int,
    bb: BasicBlock,
) -> Option<BasicBlock>
    decreases blocks.len() - from,
{
    if from < 0 || from >= blocks.len() {
        None
    } else {
        match resumed_from(blocks[from], blocks, bb) {
            Some(t) => Some(t),
            None => continuation(blocks, from + 1, bb),
        }
    }
}

/// The translation with a return from a block to the end of the function. All
/// returns share one transition.
pub open spec fn with_return(
    v: BodyView,
    bb: BasicBlock,
    name: Seq<char>,
    instance: usize,
    end: PlaceId,
) -> BodyView {
    let t = if v.return_transition == 0 {
        BodyView {
            net: v.net.with_transition(
                transition_name(name, bb, "return"@),
                TransitionTypeView::Return(instance),
            ),
            return_transition: v.next_transition(),
            ..v
        }
    } else {
        v
    };
    t.with_net(
        t.net.with_input(v.blocks[bb].last, t.return_transition, 1).with_output(
            end,
            t.return_transition,
            1,
        ),
    )
}

impl<'b, 'p> BodyToPetriNet<'b, 'p> {
    /// Gives every block of the body its first place; blocks for cleanup and
    /// those that are never reached get none.
    pub fn init_basic_block(&mut self, body: &Body, body_name: &str)
        requires
            old(self).wf(),
        ensures
            final(self).wf(),
            final(self).alike(old(self)),
            final(self)@ == with_blocks(
                old(self)@,
                body.basic_blocks@,
                body_name@,
                body.basic_blocks@.len(),
            ),
    {
        let ghost v = self@;
        let n = body.basic_blocks.len();
        let mut i: usize = 0;
        while i < n
            invariant
                i <= n,
                n == body.basic_blocks@.len(),
                self.wf(),
                self.alike(old(self)),
                self@ == with_blocks(v, body.basic_blocks@, body_name@, i as nat),
            decreases n - i,
        {
            let block = &body.basic_blocks[i];
            if block.is_cleanup || block.is_empty_unreachable() {
                self.exclude_bb.push(i);
            } else {
                let span = match &block.terminator {
                    Some(t) => t.span.clone(),
                    None => {
                        proof {
                            reveal_strlit("");
                            assert(""@ =~= Seq::<char>::empty());
                        }
                        "".to_owned()
                    },
                };
                let name = body_name.to_owned().concat("_").concat(index_text(i).as_str());
                let start = self.bb_place(name, span);
                self.bb_graph.register(i, start);
            }
            i = i + 1;
        }
    }

    /// Enters the function at a block.
    pub fn handle_start_block(&mut self, name: &str, bb_idx: BasicBlock, def_id: DefId)
        requires
            old(self).wf(),
            old(self)@.placed(bb_idx),
        ensures
            final(self).wf(),
            final(self).alike(old(self)),
            final(self)@ == old(self).entered_at(bb_idx, name@, def_id),
    {
        let id = self.net.add_transition(
            PtTransition {
                name: transition_text(name, bb_idx, "start"),
                transition_type: TransitionType::Start(self.instance_id),
            },
        );
        if let Some(ends) = self.functions_map.get(&def_id) {
            self.net.add_input_arc(ends.0, id, 1);
        }
        self.net.add_output_arc(self.bb_graph.start(bb_idx), id, 1);
    }

    /// A check that holds.
    pub fn handle_assert(&mut self, bb_idx: BasicBlock, target: &BasicBlock, name: &str)
        requires
            old(self).wf(),
            old(self)@.placed(bb_idx),
            old(self)@.placed(*target),
        ensures
            final(self).wf(),
            final(self).alike(old(self)),
            final(self)@ == old(self)@.with_fallthrough(
                bb_idx,
                transition_name(name@, bb_idx, "assert"@),
                TransitionTypeView::Assert,
                *target,
            ),
    {
        self.add_fallthrough_transition(bb_idx, name, "assert", TransitionType::Assert, *target);
    }

    /// Goes on at another block; one without places is not gone to.
    pub fn handle_fallthrough(
        &mut self,
        bb_idx: BasicBlock,
        target: &BasicBlock,
        name: &str,
        kind: &str,
    )
        requires
            old(self).wf(),
            old(self)@.placed(bb_idx),
            !old(self)@.excluded.contains(*target) ==> old(self)@.placed(*target),
        ensures
            final(self).wf(),
            final(self).alike(old(self)),
            final(self)@ == old(self).fallen_through(bb_idx, *target, name@, kind@),
    {
        if self.is_excluded(*target) {
            return;
        }
        self.add_fallthrough_transition(bb_idx, name, kind, TransitionType::Goto, *target);
    }

    /// Leaves the program at a block.
    pub fn handle_terminal_block(&mut self, bb_idx: BasicBlock, name: &str, kind: &str)
        requires
            old(self).wf(),
            old(self)@.placed(bb_idx),
        ensures
            final(self).wf(),
            final(self).alike(old(self)),
            final(self)@ == old(self)@.with_terminal(
                bb_idx,
                transition_name(name@, bb_idx, kind@),
                TransitionTypeView::Return(old(self).instance_id),
                old(self).entry_exit.1,
            ),
    {
        self.add_terminal_transition(
            bb_idx,
            name,
            kind,
            TransitionType::Return(self.instance_id),
        );
    }

    /// Goes on at another block; a block for cleanup stands for a panic.
    pub fn handle_goto(&mut self, bb_idx: BasicBlock, target: &BasicBlock, name: &str)
        requires
            old(self).wf(),
            old(self)@.placed(bb_idx),
            *target < old(self).body.basic_blocks@.len(),
            !old(self).body.basic_blocks@[*target as int].is_cleanup ==> old(self)@.placed(*target),
        ensures
            final(self).wf(),
            final(self).alike(old(self)),
            final(self)@ == old(self).gone_to(bb_idx, *target, name@),
    {
        if self.body.basic_blocks[*target].is_cleanup {
            self.handle_panic(bb_idx, name);
            return;
        }
        self.add_fallthrough_transition(bb_idx, name, "goto", TransitionType::Goto, *target);
    }

    /// Goes on at one of several blocks. The first block of a coroutine
    /// dispatches on its state: only the entry is kept, since a coroutine
    /// resumes at the continuation of its suspension.
    pub fn handle_switch(&mut self, bb_idx: BasicBlock, targets: &Vec<BasicBlock>, name: &str)
        requires
            old(self).wf(),
            old(self)@.placed(bb_idx),
            forall|i: int|
                0 <= i < targets@.len() && !old(self)@.excluded.contains(#[trigger] targets@[i])
                    ==> old(self)@.placed(targets@[i]),
            wired(
                targets@,
                old(self)@.excluded,
                bb_idx == 0 && old(self).is_coroutine,
            ).len() < u8::MAX,
        ensures
            final(self).wf(),
            final(self).alike(old(self)),
            final(self)@ == old(self).switched(bb_idx, targets@, name@),
    {
        let ghost v = self@;
        let dispatch = bb_idx == 0 && self.is_coroutine;
        let ghost all = wired(targets@, v.excluded, dispatch);
        let mut t_num: u8 = 1;
        let mut i: usize = 0;
        while i < targets.len()
            invariant
                i <= targets@.len(),
                self.wf(),
                self.alike(old(self)),
                v.placed(bb_idx),
                dispatch == (bb_idx == 0 && self.is_coroutine),
                v.blocks == self@.blocks,
                v.excluded == self@.excluded,
                all == wired(targets@, v.excluded, dispatch),
                all.len() < u8::MAX,
                forall|j: int|
                    0 <= j < targets@.len() && !v.excluded.contains(#[trigger] targets@[j])
                        ==> v.placed(targets@[j]),
                t_num == wired(targets@.take(i as int), v.excluded, dispatch).len() + 1,
                self@ == with_switch(
                    v,
                    bb_idx,
                    name@,
                    wired(targets@.take(i as int), v.excluded, dispatch),
                ),
            decreases targets@.len() - i,
        {
            let t = targets[i];
            proof {
                assert(targets@.take(i + 1).drop_last() =~= targets@.take(i as int));
                assert(targets@.take(i + 1).last() == t);
                wired_prefix(targets@, v.excluded, dispatch, i + 1);
            }
            if !(dispatch && t_num > 1) && !self.is_excluded(t) {
                let ghost before = wired(targets@.take(i as int), v.excluded, dispatch);
                let id = self.exit_transition(
                    bb_idx,
                    numbered_text(name, bb_idx, "switch", t_num as usize),
                    TransitionType::Switch,
                );
                self.net.add_output_arc(self.bb_graph.start(t), id, 1);
                t_num = t_num + 1;
                proof {
                    assert(before.push(t).drop_last() =~= before);
                }
            }
            i = i + 1;
        }
        proof {
            assert(targets@.take(i as int) =~= targets@);
        }
    }

    /// Returns from the function. A coroutine that returns that its result is
    /// not ready is suspended, not completed: it keeps its locks and goes on at
    /// its continuation.
    pub fn handle_return(&mut self, bb_idx: BasicBlock, name: &str)
        requires
            old(self).wf(),
            old(self)@.placed(bb_idx),
            old(self).is_coroutine ==> bb_idx < old(self).body.basic_blocks@.len(),
            old(self).suspends(bb_idx) ==> (match continuation(
                old(self).body.basic_blocks@,
                0,
                bb_idx,
            ) {
                Some(t) => !old(self)@.excluded.contains(t) ==> old(self)@.placed(t),
                None => true,
            }),
            !old(self).suspends(bb_idx) ==> old(self).functions_map@.contains_key(
                old(self).def_id,
            ),
        ensures
            final(self).wf(),
            final(self).alike(old(self)),
            final(self)@ == old(self).returned_from(bb_idx, name@),
    {
        if self.is_coroutine && self.block_sets_poll_pending(bb_idx) {
            if let Some(target) = self.find_suspend_continuation(bb_idx) {
                self.handle_fallthrough(bb_idx, &target, name, "suspend");
            }
            return;
        }
        let end = self.functions_map.get(&self.def_id).unwrap().1;
        if self.return_transition == 0 {
            self.return_transition = self.net.add_transition(
                PtTransition {
                    name: transition_text(name, bb_idx, "return"),
                    transition_type: TransitionType::Return(self.instance_id),
                },
            );
        }
        self.net.add_input_arc(self.bb_graph.last(bb_idx), self.return_transition, 1);
        self.net.add_output_arc(end, self.return_transition, 1);
    }

    /// The translation with the function entered at a block: a transition that
    /// takes the token of the start of the function, where that is known.
    pub open spec fn entered_at(&self, bb: BasicBlock, name: Seq<char>, def_id: DefId) -> BodyView {
        let v = self@;
        let t = v.next_transition();
        let net = v.net.with_transition(
            transition_name(name, bb, "start"@),
            TransitionTypeView::Start(self.instance_id),
        );
        let entered = if self.functions_map@.contains_key(def_id) {
            net.with_input(self.functions_map@[def_id].0, t, 1)
        } else {
            net
        };
        v.with_net(entered.with_output(v.blocks[bb].start, t, 1))
    }

    /// The translation going on at another block, unless that has no places.
    pub open spec fn fallen_through(
        &self,
        bb: BasicBlock,
        target: BasicBlock,
        name: Seq<char>,
        kind: Seq<char>,
    ) -> BodyView {
        if self@.excluded.contains(target) {
            self@
        } else {
            self@.with_fallthrough(
                bb,
                transition_name(name, bb, kind),
                TransitionTypeView::Goto,
                target,
            )
        }
    }

    /// The translation going on at another block; a block for cleanup stands
    /// for a panic, which ends the program.
    pub open spec fn gone_to(&self, bb: BasicBlock, target: BasicBlock, name: Seq<char>) -> BodyView {
        if self.body.basic_blocks@[target as int].is_cleanup {
            self@.with_terminal(
                bb,
                transition_name(name, bb, "panic"@),
                TransitionTypeView::Return(self.instance_id),
                self.entry_exit.1,
            )
        } else {
            self@.with_fallthrough(
                bb,
                transition_name(name, bb, "goto"@),
                TransitionTypeView::Goto,
                target,
            )
        }
    }

    /// The translation going on at one of several blocks; the first block of a
    /// coroutine dispatches on its state.
    pub open spec fn switched(
        &self,
        bb: BasicBlock,
        targets: Seq<BasicBlock>,
        name: Seq<char>,
    ) -> BodyView {
        with_switch(
            self@,
            bb,
            name,
            wired(targets, self@.excluded, bb == 0 && self.is_coroutine),
        )
    }

    /// The translation with a return from a block: one that suspends a coroutine
    /// goes on at its continuation.
    pub open spec fn returned_from(&self, bb: BasicBlock, name: Seq<char>) -> BodyView {
        if self.suspends(bb) {
            match continuation(self.body.basic_blocks@, 0, bb) {
                Some(t) => self.fallen_through(bb, t, name, "suspend"@),
                None => self@,
            }
        } else {
            with_return(
                self@,
                bb,
                name,
                self.instance_id,
                self.functions_map@[self.def_id].1,
            )
        }
    }

    /// The block suspends the coroutine.
    pub open spec fn suspends(&self, bb: BasicBlock) -> bool {
        self.is_coroutine && sets_pending(self.body.basic_blocks@[bb as int])
    }

    /// Begins a call: a transition that takes the token of the block.
    pub fn create_call_transition(&mut self, bb_idx: BasicBlock, bb_term_name: &str) -> (id:
        TransitionId)
        requires
            old(self).wf(),
            old(self)@.placed(bb_idx),
        ensures
            final(self).wf(),
            final(self).alike(old(self)),
            final(self)@ == old(self)@.with_exit(
                bb_idx,
                bb_term_name@,
                TransitionTypeView::Function,
            ),
            id == old(self)@.next_transition(),
    {
        self.exit_transition(bb_idx, bb_term_name.to_owned(), TransitionType::Function)
    }

    /// Ends a call at the block to which it returns, if it returns.
    pub fn connect_to_target(
        &mut self,
        _bb_idx: BasicBlock,
        bb_end: TransitionId,
        target: &Option<BasicBlock>,
    )
        requires
            old(self).wf(),
            target matches Some(t) ==> old(self)@.placed(*t),
        ensures
            final(self).wf(),
            final(self).alike(old(self)),
            final(self)@ == match *target {
                Some(t) => old(self)@.with_net(
                    old(self)@.net.with_output(old(self)@.blocks[t].start, bb_end, 1),
                ),
                None => old(self)@,
            },
    {
        if let Some(t) = target {
            self.net.add_output_arc(self.bb_graph.start(*t), bb_end, 1);
        }
    }

    /// Unwinds out of the function: the program ends.
    pub fn handle_unwind_continue(&mut self, bb_idx: BasicBlock, name: &str)
        requires
            old(self).wf(),
            old(self)@.placed(bb_idx),
        ensures
            final(self).wf(),
            final(self).alike(old(self)),
            final(self)@ == old(self)@.with_terminal(
                bb_idx,
                transition_name(name@, bb_idx, "unwind"@),
                TransitionTypeView::Return(old(self).instance_id),
                old(self).entry_exit.1,
            ),
    {
        self.add_terminal_transition(
            bb_idx,
            name,
            "unwind",
            TransitionType::Return(self.instance_id),
        );
    }

    /// Panics: the program ends.
    pub fn handle_panic(&mut self, bb_idx: BasicBlock, name: &str)
        requires
            old(self).wf(),
            old(self)@.placed(bb_idx),
        ensures
            final(self).wf(),
            final(self).alike(old(self)),
            final(self)@ == old(self)@.with_terminal(
                bb_idx,
                transition_name(name@, bb_idx, "panic"@),
                TransitionTypeView::Return(old(self).instance_id),
                old(self).entry_exit.1,
            ),
    {
        self.add_terminal_transition(
            bb_idx,
            name,
            "panic",
            TransitionType::Return(self.instance_id),
        );
    }

    /// Whether a block returns `Poll::Pending`, which suspends a coroutine,
    /// rather than `Poll::Ready`, which completes it: the first assignment to
    /// the return place decides.
    pub fn block_sets_poll_pending(&self, bb_idx: BasicBlock) -> (b: bool)
        requires
            bb_idx < self.body.basic_blocks@.len(),
        ensures
            b == sets_pending(self.body.basic_blocks@[bb_idx as int]),
    {
        let statements = &self.body.basic_blocks[bb_idx].statements;
        let mut i: usize = 0;
        proof {
            assert(statements@.skip(0) =~= statements@);
        }
        while i < statements.len()
            invariant
                i <= statements@.len(),
                bb_idx < self.body.basic_blocks@.len(),
                *statements == self.body.basic_blocks@[bb_idx as int].statements,
                first_result(statements@) == first_result(statements@.skip(i as int)),
            decreases statements@.len() - i,
        {
            proof {
                assert(statements@.skip(i as int).drop_first() =~= statements@.skip(i + 1));
                assert(statements@.skip(i as int)[0] == statements@[i as int]);
            }
            if let StatementKind::Assign(place, _) = &statements[i].kind {
                if place.local == 0 {
                    return matches!(statements[i].poll, Some(PollVariant::Pending));
                }
            }
            i = i + 1;
        }
        false
    }

    /// Where a coroutine resumes after a block that suspends it: the switch on
    /// the poll that leads to the block has the continuation as another target.
    pub fn find_suspend_continuation(&self, suspend_bb: BasicBlock) -> (r: Option<BasicBlock>)
        requires
            body_ok(*self.body),
        ensures
            r == continuation(self.body.basic_blocks@, 0, suspend_bb),
    {
        let blocks = &self.body.basic_blocks;
        let mut i: usize = 0;
        while i < blocks.len()
            invariant
                i <= blocks@.len(),
                blocks@ == self.body.basic_blocks@,
                body_ok(*self.body),
                continuation(blocks@, 0, suspend_bb) == continuation(blocks@, i as int, suspend_bb),
            decreases blocks@.len() - i,
        {
            if let Some(term) = &blocks[i].terminator {
                if let TerminatorKind::SwitchInt { targets } = &term.kind {
                    proof {
                        assert(switch_targets(blocks@[i as int]) == targets@);
                        assert forall|j: int| 0 <= j < targets@.len() implies #[trigger] targets@[j]
                            < blocks@.len() by {
                            assert(switch_targets(self.body.basic_blocks@[i as int])[j]
                                < self.body.basic_blocks@.len());
                        }
                    }
                    if leads_to(targets, suspend_bb) {
                        let other = find_other_target(targets, blocks, suspend_bb);
                        if other.is_some() {
                            return other;
                        }
                    }
                }
            }
            i = i + 1;
        }
        None
    }
}

/// Whether a target is among the targets.
fn leads_to(targets: &Vec<BasicBlock>, bb: BasicBlock) -> (b: bool)
    ensures
        b == targets@.contains(bb),
{
    let mut i: usize = 0;
    while i < targets.len()
        invariant
            i <= targets@.len(),
            forall|j: int| 0 <= j < i ==> targets@[j] != bb,
        decreases targets@.len() - i,
    {
        if targets[i] == bb {
            return true;
        }
        i = i + 1;
    }
    false
}

/// The first target that is neither the block nor one for cleanup.
fn find_other_target(
    targets: &Vec<BasicBlock>,
    blocks: &Vec<BasicBlockData>,
    bb: BasicBlock,
) -> (r: Option<BasicBlock>)
    requires
        forall|j: int| 0 <= j < targets@.len() ==> #[trigger] targets@[j] < blocks@.len(),
    ensures
        r == other_target(targets@, blocks@, bb),
{
    let mut i: usize = 0;
    proof {
        assert(targets@.skip(0) =~= targets@);
    }
    while i < targets.len()
        invariant
            i <= targets@.len(),
            forall|j: int| 0 <= j < targets@.len() ==> #[trigger] targets@[j] < blocks@.len(),
            other_target(targets@, blocks@, bb) == other_target(
                targets@.skip(i as int),
                blocks@,
                bb,
            ),
        decreases targets@.len() - i,
    {
        proof {
            assert(targets@.skip(i as int).drop_first() =~= targets@.skip(i + 1));
            assert(targets@.skip(i as int)[0] == targets@[i as int]);
        }
        let t = targets[i];
        if t != bb && !blocks[t].is_cleanup {
            return Some(t);
        }
        i = i + 1;
    }
    None
}

/// No more targets are wired of fewer targets.
proof fn wired_prefix(targets: Seq<BasicBlock>, excluded: Seq<usize>, dispatch: bool, n: int)
    requires
        0 <= n <= targets.len(),
    ensures
        wired(targets.take(n), excluded, dispatch).len() <= wired(targets, excluded, dispatch).len(),
    decreases targets.len(),
{
    if n < targets.len() {
        let front = targets.drop_last();
        assert(front.take(n) =~= targets.take(n));
        wired_prefix(front, excluded, dispatch, n);
    } else {
        assert(targets.take(n) =~= targets);
    }
}

} // verus!
