//! What tracing guards back to their locks promises: which definitions the
//! statements and calls of a body leave behind, and where they lead.

use super::blocking::{
    acquire_receiver, after_block, after_blocks, after_call, after_terminator, arg_place,
    declared_condvars, declared_guards, defs_after_statement, defs_after_statements, guard_of_ty,
    is_condvar_ty, plain_guard, resolved_from, resolved_objects, resolved_receiver, traced,
    CondVarId, DefSource, Findings, LockGuardId, LockGuardInfo, LockGuardTy,
};
use crate::collections::{list_at, with_appended};
use crate::memory::pointsto::AliasId;
use crate::text::{before_char, contains_text, has_prefix};
use crate::translate::mir::{
    attr_present, first_field, operand_place, BasicBlock, BasicBlockData, Callee, InstanceId, Local,
    LocalDecl, Operand, Place, ProjectionElem, Rvalue, Statement, StatementKind, Terminator,
    TerminatorKind, Ty,
};
use vstd::prelude::*;
use vstd::std_specs::cmp::PartialEqSpec;

verus! {

/// The definitions of every local are still there, in their order, and others
/// may have come after them.
pub open spec fn defs_begin<'b>(
    a: Map<Local, Seq<DefSource<'b>>>,
    b: Map<Local, Seq<DefSource<'b>>>,
) -> bool {
    forall|l: Local|
        #![trigger list_at(b, l)]
        list_at(a, l).len() <= list_at(b, l).len() && list_at(a, l) == list_at(b, l).take(
            list_at(a, l).len() as int,
        )
}

proof fn defs_begin_through<'b>(
    a: Map<Local, Seq<DefSource<'b>>>,
    b: Map<Local, Seq<DefSource<'b>>>,
    c: Map<Local, Seq<DefSource<'b>>>,
)
    requires
        defs_begin(a, b),
        defs_begin(b, c),
    ensures
        defs_begin(a, c),
{
    assert forall|l: Local|
        #![trigger list_at(c, l)]
        list_at(a, l).len() <= list_at(c, l).len() && list_at(a, l) == list_at(c, l).take(
            list_at(a, l).len() as int,
        ) by {
        let n = list_at(a, l).len() as int;
        assert(list_at(b, l).len() <= list_at(c, l).len());
        assert(list_at(c, l).take(list_at(b, l).len() as int).take(n) =~= list_at(c, l).take(n));
    }
}

proof fn statement_begins<'b>(defs: Map<Local, Seq<DefSource<'b>>>, stmt: &'b Statement)
    ensures
        defs_begin(defs, defs_after_statement(defs, stmt)),
{
    let after = defs_after_statement(defs, stmt);
    assert forall|l: Local|
        #![trigger list_at(after, l)]
        list_at(defs, l).len() <= list_at(after, l).len() && list_at(defs, l) == list_at(
            after,
            l,
        ).take(list_at(defs, l).len() as int) by {
        assert(list_at(defs, l) =~= list_at(after, l).take(list_at(defs, l).len() as int));
    }
}

proof fn statements_begin<'b>(
    defs: Map<Local, Seq<DefSource<'b>>>,
    statements: &'b Vec<Statement>,
    m: nat,
    n: nat,
)
    requires
        m <= n,
    ensures
        defs_begin(
            defs_after_statements(defs, statements, m),
            defs_after_statements(defs, statements, n),
        ),
    decreases n,
{
    let a = defs_after_statements(defs, statements, m);
    if m == n {
        assert forall|l: Local| #[trigger] list_at(a, l) == list_at(a, l).take(
            list_at(a, l).len() as int,
        ) by {
            assert(list_at(a, l) =~= list_at(a, l).take(list_at(a, l).len() as int));
        }
    } else {
        let k = (n - 1) as nat;
        statements_begin(defs, statements, m, k);
        let b = defs_after_statements(defs, statements, k);
        statement_begins(b, &statements@[n - 1]);
        defs_begin_through(a, b, defs_after_statements(defs, statements, n));
    }
}

proof fn terminator_begins<'b>(
    s: Findings<'b>,
    instance_id: InstanceId,
    terminator: &'b Terminator,
)
    ensures
        defs_begin(s.defs, after_terminator(s, instance_id, terminator).defs),
{
    let after = after_terminator(s, instance_id, terminator).defs;
    assert forall|l: Local|
        #![trigger list_at(after, l)]
        list_at(s.defs, l).len() <= list_at(after, l).len() && list_at(s.defs, l) == list_at(
            after,
            l,
        ).take(list_at(s.defs, l).len() as int) by {
        assert(list_at(s.defs, l) =~= list_at(after, l).take(list_at(s.defs, l).len() as int));
    }
}

/// The findings once the statements of a block are read.
pub open spec fn before_end<'b>(s: Findings<'b>, block: &'b BasicBlockData) -> Findings<'b> {
    Findings {
        defs: defs_after_statements(s.defs, &block.statements, block.statements@.len()),
        ..s
    }
}

proof fn block_begins<'b>(s: Findings<'b>, instance_id: InstanceId, block: &'b BasicBlockData)
    ensures
        defs_begin(s.defs, after_block(s, instance_id, block).defs),
        defs_begin(before_end(s, block).defs, after_block(s, instance_id, block).defs),
{
    let t = before_end(s, block);
    statements_begin(s.defs, &block.statements, 0, block.statements@.len());
    statements_begin(
        s.defs,
        &block.statements,
        block.statements@.len(),
        block.statements@.len(),
    );
    match block.terminator {
        Some(terminator) => {
            terminator_begins(t, instance_id, &terminator);
            defs_begin_through(s.defs, t.defs, after_block(s, instance_id, block).defs);
        },
        None => {},
    }
}

proof fn blocks_begin<'b>(
    s: Findings<'b>,
    instance_id: InstanceId,
    blocks: &'b Vec<BasicBlockData>,
    m: nat,
    n: nat,
)
    requires
        m <= n,
    ensures
        defs_begin(
            after_blocks(s, instance_id, blocks, m).defs,
            after_blocks(s, instance_id, blocks, n).defs,
        ),
    decreases n,
{
    let a = after_blocks(s, instance_id, blocks, m);
    if m == n {
        assert forall|l: Local| #[trigger] list_at(a.defs, l) == list_at(a.defs, l).take(
            list_at(a.defs, l).len() as int,
        ) by {
            assert(list_at(a.defs, l) =~= list_at(a.defs, l).take(
                list_at(a.defs, l).len() as int,
            ));
        }
    } else {
        let k = (n - 1) as nat;
        blocks_begin(s, instance_id, blocks, m, k);
        let b = after_blocks(s, instance_id, blocks, k);
        block_begins(b, instance_id, &blocks@[n - 1]);
        defs_begin_through(a.defs, b.defs, after_blocks(s, instance_id, blocks, n).defs);
    }
}

proof fn last_stays<'b>(
    a: Map<Local, Seq<DefSource<'b>>>,
    b: Map<Local, Seq<DefSource<'b>>>,
    l: Local,
    x: DefSource<'b>,
)
    requires
        defs_begin(a, b),
        list_at(a, l).len() > 0,
        list_at(a, l).last() == x,
    ensures
        list_at(b, l).contains(x),
{
    let k = list_at(a, l).len() - 1;
    assert(list_at(b, l).take(list_at(a, l).len() as int)[k] == list_at(b, l)[k]);
    assert(list_at(b, l)[k] == x);
}

/// Every assignment of a body into a whole local is among the definitions of
/// the local: a move and a copy forward their source, and a borrow borrows its
/// place, with the first field on the way to it.
pub proof fn assignments_define_locals<'b>(
    s: Findings<'b>,
    instance_id: InstanceId,
    blocks: &'b Vec<BasicBlockData>,
    b: int,
    i: int,
)
    requires
        0 <= b < blocks@.len(),
        0 <= i < blocks@[b].statements@.len(),
    ensures
        ({
            let defs = after_blocks(s, instance_id, blocks, blocks@.len()).defs;
            match blocks@[b].statements@[i].kind {
                StatementKind::Assign(to, Rvalue::Use(Operand::Copy(from))) => {
                    to.projection@.len() == 0 ==> list_at(defs, to.local).contains(
                        DefSource::Forward { local: from.local, projection: &from.projection },
                    )
                },
                StatementKind::Assign(to, Rvalue::Use(Operand::Move(from))) => {
                    to.projection@.len() == 0 ==> list_at(defs, to.local).contains(
                        DefSource::Forward { local: from.local, projection: &from.projection },
                    )
                },
                StatementKind::Assign(to, Rvalue::Ref(from)) => {
                    to.projection@.len() == 0 ==> list_at(defs, to.local).contains(
                        DefSource::Borrow {
                            base: from.local,
                            field: first_field(from.projection@),
                        },
                    )
                },
                _ => true,
            }
        }),
{
    let all = after_blocks(s, instance_id, blocks, blocks@.len()).defs;
    let t = after_blocks(s, instance_id, blocks, b as nat);
    let block = &blocks@[b];
    let n = block.statements@.len();
    let here = defs_after_statements(t.defs, &block.statements, (i + 1) as nat);
    statements_begin(t.defs, &block.statements, (i + 1) as nat, n);
    block_begins(t, instance_id, block);
    defs_begin_through(here, before_end(t, block).defs, after_block(t, instance_id, block).defs);
    blocks_begin(s, instance_id, blocks, (b + 1) as nat, blocks@.len());
    defs_begin_through(here, after_blocks(s, instance_id, blocks, (b + 1) as nat).defs, all);
    match block.statements@[i].kind {
        StatementKind::Assign(to, Rvalue::Use(Operand::Copy(from))) => {
            if to.projection@.len() == 0 {
                last_stays(
                    here,
                    all,
                    to.local,
                    DefSource::Forward { local: from.local, projection: &from.projection },
                );
            }
        },
        StatementKind::Assign(to, Rvalue::Use(Operand::Move(from))) => {
            if to.projection@.len() == 0 {
                last_stays(
                    here,
                    all,
                    to.local,
                    DefSource::Forward { local: from.local, projection: &from.projection },
                );
            }
        },
        StatementKind::Assign(to, Rvalue::Ref(from)) => {
            if to.projection@.len() == 0 {
                last_stays(
                    here,
                    all,
                    to.local,
                    DefSource::Borrow { base: from.local, field: first_field(from.projection@) },
                );
            }
        },
        _ => {},
    }
}

/// The block ends in a call of a named function that returns into a whole
/// local, with a place as its argument at `i`.
pub open spec fn ends_in_call(
    block: BasicBlockData,
    callee: Callee,
    i: int,
    arg: Place,
    to: Local,
) -> bool {
    match block.terminator {
        Some(terminator) => match terminator.kind {
            TerminatorKind::Call { callee: c, args, destination, .. } => {
                &&& c == Some(callee)
                &&& 0 <= i < args@.len()
                &&& args@[i] == Operand::Copy(arg) || args@[i] == Operand::Move(arg)
                &&& destination.local == to
                &&& destination.projection@.len() == 0
            },
            _ => false,
        },
        None => false,
    }
}

/// Dereferencing an `Arc` or `Rc`, extracting from a `Result` or `Option`, and
/// whatever else produces a guard does not change the lock object: the result
/// is defined by the first argument, last of its definitions after the block
/// and still among them in the end.
pub proof fn results_forward_their_argument<'b>(
    s: Findings<'b>,
    instance_id: InstanceId,
    blocks: &'b Vec<BasicBlockData>,
    b: int,
    callee: Callee,
    arg: Place,
    to: Local,
)
    requires
        0 <= b < blocks@.len(),
        ends_in_call(blocks@[b], callee, 0, arg, to),
        !callee.lock_acquire,
        callee.arc_rc_deref || callee.wrapper_extract || after_blocks(
            s,
            instance_id,
            blocks,
            b as nat,
        ).guards.contains_key(plain_guard(instance_id, to)),
    ensures
        ({
            let after = after_blocks(s, instance_id, blocks, (b + 1) as nat).defs;
            let all = after_blocks(s, instance_id, blocks, blocks@.len()).defs;
            let forward = DefSource::Forward { local: arg.local, projection: &arg.projection };
            &&& list_at(after, to).len() > 0
            &&& list_at(after, to).last() == forward
            &&& list_at(all, to).contains(forward)
        }),
{
    let t = after_blocks(s, instance_id, blocks, b as nat);
    let after = after_blocks(s, instance_id, blocks, (b + 1) as nat).defs;
    let forward = DefSource::Forward { local: arg.local, projection: &arg.projection };
    assert(list_at(after, to).last() == forward);
    blocks_begin(s, instance_id, blocks, (b + 1) as nat, blocks@.len());
    last_stays(after, after_blocks(s, instance_id, blocks, blocks@.len()).defs, to, forward);
}

/// A wait hands back the guard that it was given: the result of a wait that is
/// nothing else is defined by the second argument.
pub proof fn waits_forward_their_guard<'b>(
    s: Findings<'b>,
    instance_id: InstanceId,
    blocks: &'b Vec<BasicBlockData>,
    b: int,
    callee: Callee,
    condvar: Place,
    guard: Place,
    to: Local,
)
    requires
        0 <= b < blocks@.len(),
        ends_in_call(blocks@[b], callee, 0, condvar, to),
        ends_in_call(blocks@[b], callee, 1, guard, to),
        callee.condvar_wait,
        !callee.lock_acquire && !callee.arc_rc_deref && !callee.wrapper_extract,
        !after_blocks(s, instance_id, blocks, b as nat).guards.contains_key(
            plain_guard(instance_id, to),
        ),
    ensures
        ({
            let after = after_blocks(s, instance_id, blocks, (b + 1) as nat).defs;
            let all = after_blocks(s, instance_id, blocks, blocks@.len()).defs;
            let forward = DefSource::Forward {
                local: guard.local,
                projection: &guard.projection,
            };
            &&& list_at(after, to).len() > 0
            &&& list_at(after, to).last() == forward
            &&& list_at(all, to).contains(forward)
        }),
{
    let after = after_blocks(s, instance_id, blocks, (b + 1) as nat).defs;
    let forward = DefSource::Forward { local: guard.local, projection: &guard.projection };
    assert(list_at(after, to).last() == forward);
    blocks_begin(s, instance_id, blocks, (b + 1) as nat, blocks@.len());
    last_stays(after, after_blocks(s, instance_id, blocks, blocks@.len()).defs, to, forward);
}

/// An acquire defines its result by its receiver.
pub proof fn acquires_name_their_receiver<'b>(
    s: Findings<'b>,
    instance_id: InstanceId,
    blocks: &'b Vec<BasicBlockData>,
    b: int,
    callee: Callee,
    arg: Place,
    to: Local,
)
    requires
        0 <= b < blocks@.len(),
        ends_in_call(blocks@[b], callee, 0, arg, to),
        callee.lock_acquire,
    ensures
        ({
            let before = before_end(
                after_blocks(s, instance_id, blocks, b as nat),
                &blocks@[b],
            ).defs;
            let all = after_blocks(s, instance_id, blocks, blocks@.len()).defs;
            let receiver = acquire_receiver(before, arg);
            list_at(all, to).contains(
                DefSource::LockAcquire { local: receiver.0, field: receiver.1 },
            )
        }),
{
    let t = after_blocks(s, instance_id, blocks, b as nat);
    let receiver = acquire_receiver(before_end(t, &blocks@[b]).defs, arg);
    let after = after_blocks(s, instance_id, blocks, (b + 1) as nat).defs;
    let acquire = DefSource::LockAcquire { local: receiver.0, field: receiver.1 };
    assert(list_at(after, to).last() == acquire);
    blocks_begin(s, instance_id, blocks, (b + 1) as nat, blocks@.len());
    last_stays(after, after_blocks(s, instance_id, blocks, blocks@.len()).defs, to, acquire);
}

/// The statement defines the local: it moves or copies a place into it, or
/// borrows one.
pub open spec fn is_of_statement<'b>(stmt: Statement, l: Local, x: DefSource<'b>) -> bool {
    match stmt.kind {
        StatementKind::Assign(to, Rvalue::Use(Operand::Copy(from))) => to.local == l
            && to.projection@.len() == 0 && x == (DefSource::Forward {
            local: from.local,
            projection: &from.projection,
        }),
        StatementKind::Assign(to, Rvalue::Use(Operand::Move(from))) => to.local == l
            && to.projection@.len() == 0 && x == (DefSource::Forward {
            local: from.local,
            projection: &from.projection,
        }),
        StatementKind::Assign(to, Rvalue::Ref(from)) => to.local == l && to.projection@.len() == 0
            && x == (DefSource::Borrow {
            base: from.local,
            field: first_field(from.projection@),
        }),
        _ => false,
    }
}

/// The call defines the local: an acquire by its receiver, a dereference, an
/// extraction and whatever produces a guard by the first argument, and a wait
/// by the second.
pub open spec fn is_of_call<'b>(
    t: Findings<'b>,
    instance_id: InstanceId,
    block: BasicBlockData,
    callee: Callee,
    arg: Place,
    l: Local,
    x: DefSource<'b>,
) -> bool {
    if callee.lock_acquire {
        ends_in_call(block, callee, 0, arg, l) && x == (DefSource::LockAcquire {
            local: acquire_receiver(t.defs, arg).0,
            field: acquire_receiver(t.defs, arg).1,
        })
    } else if callee.wrapper_extract || callee.arc_rc_deref || t.guards.contains_key(
        plain_guard(instance_id, l),
    ) {
        ends_in_call(block, callee, 0, arg, l) && x == (DefSource::Forward {
            local: arg.local,
            projection: &arg.projection,
        })
    } else {
        callee.condvar_wait && ends_in_call(block, callee, 1, arg, l) && x == (DefSource::Forward {
            local: arg.local,
            projection: &arg.projection,
        })
    }
}

/// Some statement or the end of the block defines the local.
pub open spec fn is_of_block<'b>(
    s: Findings<'b>,
    instance_id: InstanceId,
    blocks: &'b Vec<BasicBlockData>,
    b: int,
    l: Local,
    x: DefSource<'b>,
) -> bool {
    &&& 0 <= b < blocks@.len()
    &&& {
        ||| exists|i: int|
            0 <= i < blocks@[b].statements@.len() && is_of_statement(
                #[trigger] blocks@[b].statements@[i],
                l,
                x,
            )
        ||| exists|callee: Callee, arg: Place| #[trigger]
            is_of_call(
                before_end(after_blocks(s, instance_id, blocks, b as nat), &blocks@[b]),
                instance_id,
                blocks@[b],
                callee,
                arg,
                l,
                x,
            )
    }
}

proof fn appended_is_new<'b>(
    defs: Map<Local, Seq<DefSource<'b>>>,
    k: Local,
    y: DefSource<'b>,
    l: Local,
    x: DefSource<'b>,
)
    requires
        list_at(with_appended(defs, k, y), l).contains(x),
        !list_at(defs, l).contains(x),
    ensures
        l == k,
        x == y,
{
    let after = list_at(with_appended(defs, k, y), l);
    let i = choose|i: int| 0 <= i < after.len() && after[i] == x;
    if l == k {
        if i < list_at(defs, k).len() {
            assert(list_at(defs, k)[i] == x);
        }
    } else {
        assert(list_at(defs, l)[i] == x);
    }
}

proof fn new_by_statement<'b>(
    defs: Map<Local, Seq<DefSource<'b>>>,
    statements: &'b Vec<Statement>,
    n: nat,
    l: Local,
    x: DefSource<'b>,
) -> (i: int)
    requires
        n <= statements@.len(),
        list_at(defs_after_statements(defs, statements, n), l).contains(x),
        !list_at(defs, l).contains(x),
    ensures
        0 <= i < n,
        is_of_statement(statements@[i], l, x),
    decreases n,
{
    let before = defs_after_statements(defs, statements, (n - 1) as nat);
    if list_at(before, l).contains(x) {
        new_by_statement(defs, statements, (n - 1) as nat, l, x)
    } else {
        match statements@[n - 1].kind {
            StatementKind::Assign(to, Rvalue::Use(op)) => {
                match operand_place(op) {
                    Some(src) => {
                        appended_is_new(
                            before,
                            to.local,
                            DefSource::Forward { local: src.local, projection: &src.projection },
                            l,
                            x,
                        );
                    },
                    None => {},
                }
            },
            StatementKind::Assign(to, Rvalue::Ref(from)) => {
                appended_is_new(
                    before,
                    to.local,
                    DefSource::Borrow { base: from.local, field: first_field(from.projection@) },
                    l,
                    x,
                );
            },
            _ => {},
        }
        n - 1
    }
}

proof fn new_by_call<'b>(
    t: Findings<'b>,
    instance_id: InstanceId,
    block: &'b BasicBlockData,
    l: Local,
    x: DefSource<'b>,
)
    requires
        block.terminator is Some,
        list_at(after_terminator(t, instance_id, &block.terminator->0).defs, l).contains(x),
        !list_at(t.defs, l).contains(x),
    ensures
        exists|callee: Callee, arg: Place| #[trigger]
            is_of_call(t, instance_id, *block, callee, arg, l, x),
{
    let terminator = block.terminator->0;
    match terminator.kind {
        TerminatorKind::Call { callee, args, destination, .. } => {
            let c = callee->0;
            let arg = arg_place(args@, 0)->0;
            assert(arg_place(args@, 0) is Some);
            if c.lock_acquire {
                let receiver = acquire_receiver(t.defs, arg);
                appended_is_new(
                    t.defs,
                    destination.local,
                    DefSource::LockAcquire { local: receiver.0, field: receiver.1 },
                    l,
                    x,
                );
                assert(is_of_call(t, instance_id, *block, c, arg, l, x));
            } else if c.wrapper_extract || c.arc_rc_deref || t.guards.contains_key(
                plain_guard(instance_id, destination.local),
            ) {
                appended_is_new(
                    t.defs,
                    destination.local,
                    DefSource::Forward { local: arg.local, projection: &arg.projection },
                    l,
                    x,
                );
                assert(is_of_call(t, instance_id, *block, c, arg, l, x));
            } else {
                let guard = arg_place(args@, 1)->0;
                appended_is_new(
                    t.defs,
                    destination.local,
                    DefSource::Forward { local: guard.local, projection: &guard.projection },
                    l,
                    x,
                );
                assert(is_of_call(t, instance_id, *block, c, guard, l, x));
            }
        },
        _ => {},
    }
}

/// Every definition of a local comes from a statement of the body that assigns
/// to it or from a call that returns into it.
pub proof fn definitions_come_from_the_body<'b>(
    s: Findings<'b>,
    instance_id: InstanceId,
    blocks: &'b Vec<BasicBlockData>,
    n: nat,
    l: Local,
    x: DefSource<'b>,
) -> (b: int)
    requires
        n <= blocks@.len(),
        list_at(after_blocks(s, instance_id, blocks, n).defs, l).contains(x),
        !list_at(s.defs, l).contains(x),
    ensures
        0 <= b < n,
        is_of_block(s, instance_id, blocks, b, l, x),
    decreases n,
{
    let m = (n - 1) as nat;
    let t = after_blocks(s, instance_id, blocks, m);
    let block = &blocks@[n - 1];
    if list_at(t.defs, l).contains(x) {
        definitions_come_from_the_body(s, instance_id, blocks, m, l, x)
    } else {
        let u = before_end(t, block);
        if list_at(u.defs, l).contains(x) {
            let i = new_by_statement(t.defs, &block.statements, block.statements@.len(), l, x);
            assert(is_of_statement(blocks@[n - 1].statements@[i], l, x));
        } else {
            new_by_call(u, instance_id, block, l, x);
        }
        n - 1
    }
}

// Where the receiver of an acquire is looked for.

/// The trace of a local takes at least this many steps.
spec fn needs<'b>(defs: Map<Local, Seq<DefSource<'b>>>, l: Local, n: nat) -> bool {
    traced(defs, l, n) is Some && (n == 0 || traced(defs, l, (n - 1) as nat) is None)
}

proof fn traced_more<'b>(defs: Map<Local, Seq<DefSource<'b>>>, l: Local, m: nat, n: nat)
    requires
        m <= n,
        traced(defs, l, m) is Some,
    ensures
        traced(defs, l, n) == traced(defs, l, m),
    decreases m,
{
    if m > 0 && list_at(defs, l).len() > 0 {
        match list_at(defs, l)[0] {
            DefSource::Forward { local, .. } => {
                traced_more(defs, local, (m - 1) as nat, (n - 1) as nat);
            },
            _ => {},
        }
    }
}

/// The locals that a trace passes, each with fewer steps to go than the one
/// before it.
proof fn trace_locals<'b>(defs: Map<Local, Seq<DefSource<'b>>>, l: Local, n: nat) -> (c: Seq<Local>)
    requires
        needs(defs, l, n),
    ensures
        c.len() == n,
        c.no_duplicates(),
        forall|i: int| 0 <= i < c.len() ==> #[trigger] defs.contains_key(c[i]) && needs(
            defs,
            c[i],
            (n - i) as nat,
        ),
    decreases n,
{
    let first = list_at(defs, l)[0];
    match first {
        DefSource::Forward { local, .. } => {
            let m = (n - 1) as nat;
            let rest = trace_locals(defs, local, m);
            let c = seq![l] + rest;
            assert forall|i: int| 0 <= i < c.len() implies #[trigger] defs.contains_key(c[i])
                && needs(defs, c[i], (n - i) as nat) by {
                if i > 0 {
                    assert(c[i] == rest[i - 1]);
                    assert(defs.contains_key(rest[i - 1]));
                }
            }
            assert forall|i: int, j: int|
                0 <= i < c.len() && 0 <= j < c.len() && i != j implies c[i] != c[j] by {
                assert(defs.contains_key(c[i]) && defs.contains_key(c[j]));
                if c[i] == c[j] {
                    let (a, b) = if i < j {
                        (i, j)
                    } else {
                        (j, i)
                    };
                    traced_more(defs, c[a], (n - b) as nat, (n - a - 1) as nat);
                }
            }
            c
        },
        _ => {
            assert(n == 1) by {
                if n > 1 {
                    assert(traced(defs, l, (n - 1) as nat) is Some);
                }
            }
            let c = seq![l];
            assert(needs(defs, c[0], 1));
            c
        },
    }
}

/// A trace that ends does so within as many steps as there are locals with
/// definitions.
proof fn trace_is_short<'b>(defs: Map<Local, Seq<DefSource<'b>>>, l: Local, n: nat)
    requires
        defs.dom().finite(),
        traced(defs, l, n) is Some,
    ensures
        traced(defs, l, defs.dom().len()) == traced(defs, l, n),
    decreases n,
{
    if n > 0 && traced(defs, l, (n - 1) as nat) is Some {
        trace_is_short(defs, l, (n - 1) as nat);
        traced_more(defs, l, (n - 1) as nat, n);
    } else {
        let c = trace_locals(defs, l, n);
        assert(c.to_set().subset_of(defs.dom())) by {
            assert forall|x: Local| #[trigger] c.to_set().contains(x) implies defs.dom().contains(
                x,
            ) by {
                let i = choose|i: int| 0 <= i < c.len() && c[i] == x;
                assert(defs.contains_key(c[i]));
            }
        }
        c.unique_seq_to_set();
        vstd::set_lib::lemma_len_subset(c.to_set(), defs.dom());
        traced_more(defs, l, n, defs.dom().len());
    }
}

/// An acquire through a local whose first definition forwards another has the
/// receiver of an acquire through that other, where that leads to one; a field
/// of the argument itself counts first.
pub proof fn acquires_see_through_forwards<'b>(
    defs: Map<Local, Seq<DefSource<'b>>>,
    arg: Place,
    src: Place,
    projection: &'b Vec<ProjectionElem>,
)
    requires
        defs.dom().finite(),
        list_at(defs, arg.local).len() > 0,
        list_at(defs, arg.local)[0] == (DefSource::Forward { local: src.local, projection }),
        first_field(arg.projection@) == first_field(src.projection@),
        traced(defs, src.local, defs.dom().len() + 1) is Some,
    ensures
        acquire_receiver(defs, arg) == acquire_receiver(defs, src),
{
    trace_is_short(defs, src.local, defs.dom().len() + 1);
    assert(traced(defs, arg.local, defs.dom().len() + 1) == traced(
        defs,
        src.local,
        defs.dom().len(),
    ));
}

/// An acquire through a borrow has the borrowed place as its receiver, and one
/// through a local without definitions that local itself. A field of the
/// argument counts before the field of the borrow.
pub proof fn acquires_find_the_borrowed_place<'b>(
    defs: Map<Local, Seq<DefSource<'b>>>,
    arg: Place,
)
    ensures
        list_at(defs, arg.local).len() == 0 ==> acquire_receiver(defs, arg) == (
            arg.local,
            first_field(arg.projection@),
        ),
        list_at(defs, arg.local).len() > 0 ==> match list_at(defs, arg.local)[0] {
            DefSource::Borrow { base, field } => acquire_receiver(defs, arg) == (
                base,
                if first_field(arg.projection@) is Some {
                    first_field(arg.projection@)
                } else {
                    field
                },
            ),
            DefSource::LockAcquire { local, field } => acquire_receiver(defs, arg) == (
                local,
                if first_field(arg.projection@) is Some {
                    first_field(arg.projection@)
                } else {
                    field
                },
            ),
            DefSource::Forward { .. } => true,
        },
{
}

/// A lock behind an `Arc` or `Rc`: where a local is defined by a dereference
/// first, an acquire through it has the receiver of an acquire through what was
/// dereferenced, at whatever later point of the body.
pub proof fn locks_are_found_behind_pointers<'b>(
    s: Findings<'b>,
    instance_id: InstanceId,
    blocks: &'b Vec<BasicBlockData>,
    b: int,
    callee: Callee,
    pointer: Place,
    to: Local,
    n: nat,
    arg: Place,
    whole: Place,
)
    requires
        0 <= b < n <= blocks@.len(),
        ends_in_call(blocks@[b], callee, 0, pointer, to),
        callee.arc_rc_deref,
        !callee.lock_acquire,
        list_at(
            before_end(after_blocks(s, instance_id, blocks, b as nat), &blocks@[b]).defs,
            to,
        ).len() == 0,
        arg.local == to,
        whole.local == pointer.local,
        first_field(arg.projection@) == first_field(whole.projection@),
        after_blocks(s, instance_id, blocks, n).defs.dom().finite(),
        traced(
            after_blocks(s, instance_id, blocks, n).defs,
            pointer.local,
            after_blocks(s, instance_id, blocks, n).defs.dom().len() + 1,
        ) is Some,
    ensures
        acquire_receiver(after_blocks(s, instance_id, blocks, n).defs, arg) == acquire_receiver(
            after_blocks(s, instance_id, blocks, n).defs,
            whole,
        ),
{
    let t = after_blocks(s, instance_id, blocks, b as nat);
    let after = after_blocks(s, instance_id, blocks, (b + 1) as nat).defs;
    let later = after_blocks(s, instance_id, blocks, n).defs;
    let forward = DefSource::Forward { local: pointer.local, projection: &pointer.projection };
    assert(list_at(after, to) =~= seq![forward]);
    blocks_begin(s, instance_id, blocks, (b + 1) as nat, n);
    assert(list_at(later, to).take(1)[0] == list_at(later, to)[0]);
    acquires_see_through_forwards(later, arg, whole, &pointer.projection);
}

// Where a guard leads.

/// The first definition of a guard decides where it leads to a receiver: an
/// acquire names it, a borrow of something that is no guard is it, and a
/// forward has it from its source, with the field of the source, else the first
/// field on the way.
pub proof fn the_first_receiver_counts<'b>(
    defs: Map<Local, Seq<DefSource<'b>>>,
    guards: Set<Local>,
    local: Local,
)
    requires
        defs.dom().finite(),
        list_at(defs, local).len() > 0,
    ensures
        ({
            let found = resolved_from(defs, guards, local, 0, Set::empty());
            match list_at(defs, local)[0] {
                DefSource::LockAcquire { local: l, field } => found == Some((l, field)),
                DefSource::Borrow { base, field } => {
                    let of_guard = resolved_from(defs, guards, base, 0, Set::empty().insert(base));
                    &&& !guards.contains(base) ==> found == Some((base, field))
                    &&& guards.contains(base) && defs.contains_key(base) && of_guard is Some
                        ==> found == of_guard
                },
                DefSource::Forward { local: src, projection } => {
                    let of_source = resolved_from(defs, guards, src, 0, Set::empty().insert(src));
                    defs.contains_key(src) ==> match of_source {
                        Some((l, Some(f))) => found == Some((l, Some(f))),
                        Some((l, None)) => found == Some((l, first_field(projection@))),
                        None => true,
                    }
                },
            }
        }),
{
    reveal_with_fuel(resolved_from, 2);
}

/// Every guard in a whole local whose receiver is found has that receiver as
/// its lock object, and a guard in a field keeps the one that it was recorded
/// with.
pub proof fn guards_have_lock_objects<'b>(
    s: Findings<'b>,
    instance_id: InstanceId,
    local: Local,
    id: LockGuardId,
)
    requires
        s.guards.contains_key(plain_guard(instance_id, local)),
        id.field is Some,
    ensures
        ({
            let objects = resolved_objects(s, instance_id);
            let guard = plain_guard(instance_id, local);
            &&& match resolved_receiver(s, instance_id, local) {
                Some((l, f)) => objects.contains_key(guard) && objects[guard] == (AliasId {
                    instance_id,
                    local: l,
                    array_index: None,
                    field: f,
                }),
                None => objects.contains_key(guard) == s.objects.contains_key(guard),
            }
            &&& s.objects.contains_key(id) ==> objects.contains_key(id) && objects[id]
                == s.objects[id]
            &&& !s.objects.contains_key(id) ==> !objects.contains_key(id)
        }),
{
}

/// A guard that an acquire stores into a field is recorded there with its kind
/// and with the receiver as its lock object.
pub proof fn stored_guards_are_recorded<'b>(
    s: Findings<'b>,
    instance_id: InstanceId,
    callee: Callee,
    args: &'b Vec<Operand>,
    arg: Place,
    to: Place,
    span: String,
)
    requires
        callee.lock_acquire,
        args@.len() > 0,
        args@[0] == Operand::Copy(arg) || args@[0] == Operand::Move(arg),
        to.projection@.len() > 0,
        guard_of_ty(to.ty) is Some,
    ensures
        ({
            let after = after_call(s, instance_id, callee, args, to, span);
            let id = LockGuardId {
                instance_id,
                local: to.local,
                field: first_field(to.projection@),
            };
            let receiver = acquire_receiver(s.defs, arg);
            &&& after.guards.contains_key(id)
            &&& Some(after.guards[id].lockguard_ty) == guard_of_ty(to.ty)
            &&& after.guards[id].span == span
            &&& after.objects.contains_key(id)
            &&& after.objects[id] == (AliasId {
                instance_id,
                local: receiver.0,
                array_index: None,
                field: receiver.1,
            })
            &&& after.defs == s.defs
        }),
{
}

// What is a guard.

/// The type is a nominal one without guard attributes, with the path before its
/// generic arguments.
pub open spec fn is_plain_type(ty: Ty, head: Seq<char>) -> bool {
    match ty.adt {
        Some(adt) => {
            &&& head == before_char(adt.path@, '<')
            &&& !attr_present(adt.attrs@, "pn_mutex_guard"@)
            &&& !attr_present(adt.attrs@, "pn_rwlock_read_guard"@)
            &&& !attr_present(adt.attrs@, "pn_rwlock_write_guard"@)
        },
        None => false,
    }
}

/// Guards are told by their paths: mutex guards, read guards and write guards
/// of `std`, `parking_lot` and `spin`, with what the lock protects; the guards
/// of asynchronous and modelling libraries are none.
pub proof fn guards_are_told_by_their_paths(ty: Ty, head: Seq<char>)
    requires
        is_plain_type(ty, head),
    ensures
        ({
            let args = (ty.adt->0).type_args@;
            let mutex = contains_text(head, "MutexGuard"@);
            let reads = contains_text(head, "RwLockReadGuard"@);
            let writes = contains_text(head, "RwLockWriteGuard"@);
            let skipped = contains_text(head, "async"@) || contains_text(head, "tokio"@)
                || contains_text(head, "future"@) || contains_text(head, "loom"@);
            let spin = contains_text(head, "spin"@);
            let parking = contains_text(head, "lock_api"@) || contains_text(head, "parking_lot"@);
            &&& skipped || !(mutex || reads || writes) ==> guard_of_ty(ty) is None
            &&& !skipped && spin && args.len() > 0 ==> {
                &&& mutex ==> guard_of_ty(ty) == Some(LockGuardTy::SpinMutex(args[0]))
                &&& !mutex && reads ==> guard_of_ty(ty) == Some(LockGuardTy::SpinRead(args[0]))
                &&& !mutex && !reads && writes ==> guard_of_ty(ty) == Some(
                    LockGuardTy::SpinWrite(args[0]),
                )
            }
            &&& !skipped && !spin && parking && args.len() > 1 ==> {
                &&& mutex ==> guard_of_ty(ty) == Some(LockGuardTy::ParkingLotMutex(args[1]))
                &&& !mutex && reads ==> guard_of_ty(ty) == Some(
                    LockGuardTy::ParkingLotRead(args[1]),
                )
                &&& !mutex && !reads && writes ==> guard_of_ty(ty) == Some(
                    LockGuardTy::ParkingLotWrite(args[1]),
                )
            }
            &&& !skipped && !spin && !parking && args.len() > 0 ==> {
                &&& mutex ==> guard_of_ty(ty) == Some(LockGuardTy::StdMutex(args[0]))
                &&& !mutex && reads ==> guard_of_ty(ty) == Some(
                    LockGuardTy::StdRwLockRead(args[0]),
                )
                &&& !mutex && !reads && writes ==> guard_of_ty(ty) == Some(
                    LockGuardTy::StdRwLockWrite(args[0]),
                )
            }
            &&& args.len() == 0 || (parking && !spin && args.len() == 1) ==> guard_of_ty(
                ty,
            ) is None
        }),
{
}

/// Every local whose type is a guard, or a condition variable, is declared as
/// one, where it is declared, and no other.
pub proof fn locals_are_declared_by_their_types(
    decls: Seq<LocalDecl>,
    instance_id: InstanceId,
    local: Local,
    ty: LockGuardTy,
)
    requires
        local < decls.len(),
    ensures
        ({
            let guards = declared_guards(decls, instance_id, decls.len());
            let condvars = declared_condvars(decls, instance_id, decls.len());
            let guard = LockGuardId { instance_id, local, field: None };
            let condvar = CondVarId { instance_id, local };
            let decl = decls[local as int];
            &&& guard_of_ty(decl.ty) == Some(ty) ==> guards.contains_key(guard) && guards[guard]
                == (LockGuardInfo { lockguard_ty: ty, span: decl.span })
            &&& guard_of_ty(decl.ty) is None ==> !guards.contains_key(guard)
            &&& condvars.contains_key(condvar) == is_condvar_ty(decl.ty)
            &&& is_condvar_ty(decl.ty) ==> condvars[condvar] == decl.span
        }),
{
}

/// A type with a guard attribute is the guard that the attribute names, and a
/// type with the attribute or the path of a condition variable is one.
pub proof fn attributes_name_guards(ty: Ty)
    requires
        ty.adt is Some,
    ensures
        ({
            let adt = ty.adt->0;
            let args = adt.type_args@;
            let mutex = attr_present(adt.attrs@, "pn_mutex_guard"@);
            let reads = attr_present(adt.attrs@, "pn_rwlock_read_guard"@);
            let writes = attr_present(adt.attrs@, "pn_rwlock_write_guard"@);
            &&& args.len() > 0 && mutex ==> guard_of_ty(ty) == Some(LockGuardTy::StdMutex(args[0]))
            &&& args.len() > 0 && !mutex && reads ==> guard_of_ty(ty) == Some(
                LockGuardTy::StdRwLockRead(args[0]),
            )
            &&& args.len() > 0 && !mutex && !reads && writes ==> guard_of_ty(ty) == Some(
                LockGuardTy::StdRwLockWrite(args[0]),
            )
            &&& attr_present(adt.attrs@, "pn_condvar"@) ==> is_condvar_ty(ty)
            &&& has_prefix(adt.path@, "std::sync::Condvar"@) ==> is_condvar_ty(ty)
            &&& is_condvar_ty(ty) ==> attr_present(adt.attrs@, "pn_condvar"@) || has_prefix(
                adt.path@,
                "std::sync::Condvar"@,
            )
        }),
{
}

/// A guard is located at its local, and at its field where it has one.
pub proof fn guards_are_located(id: LockGuardId)
    ensures
        id.alias().instance_id == id.instance_id,
        id.alias().local == id.local,
        id.alias().field == id.field,
        id.alias().array_index is None,
{
}

/// Definitions are the same where they are of one kind and name the same local
/// and field; how a forward was projected does not matter.
pub proof fn definitions_compare_by_what_they_name<'b>(
    a: Local,
    f: Option<u32>,
    p: &'b Vec<ProjectionElem>,
    b: Local,
    g: Option<u32>,
    q: &'b Vec<ProjectionElem>,
)
    ensures
        ({
            let forward = DefSource::Forward { local: a, projection: p };
            let acquire = DefSource::LockAcquire { local: a, field: f };
            let borrow = DefSource::Borrow { base: a, field: f };
            let other_forward = DefSource::Forward { local: b, projection: q };
            let other_acquire = DefSource::LockAcquire { local: b, field: g };
            let other_borrow = DefSource::Borrow { base: b, field: g };
            &&& forward.eq_spec(&other_forward) == (a == b)
            &&& acquire.eq_spec(&other_acquire) == (a == b && f == g)
            &&& borrow.eq_spec(&other_borrow) == (a == b && f == g)
            &&& !forward.eq_spec(&other_acquire) && !forward.eq_spec(&other_borrow)
            &&& !acquire.eq_spec(&other_borrow) && !acquire.eq_spec(&other_forward)
            &&& !borrow.eq_spec(&other_forward) && !borrow.eq_spec(&other_acquire)
        }),
{
}

proof fn guards_stay<'b>(
    s: Findings<'b>,
    instance_id: InstanceId,
    blocks: &'b Vec<BasicBlockData>,
    m: nat,
    n: nat,
    id: LockGuardId,
)
    requires
        m <= n,
    ensures
        after_blocks(s, instance_id, blocks, m).guards.contains_key(id) ==> after_blocks(
            s,
            instance_id,
            blocks,
            n,
        ).guards.contains_key(id),
        after_blocks(s, instance_id, blocks, m).objects.contains_key(id) ==> after_blocks(
            s,
            instance_id,
            blocks,
            n,
        ).objects.contains_key(id),
    decreases n,
{
    if m < n {
        guards_stay(s, instance_id, blocks, m, (n - 1) as nat, id);
    }
}

/// Every guard that some block of a body acquires into a field is recorded,
/// with its kind and its lock object right after the block, and is a guard of
/// the body in the end.
pub proof fn stored_guards_are_kept<'b>(
    s: Findings<'b>,
    instance_id: InstanceId,
    blocks: &'b Vec<BasicBlockData>,
    b: int,
    callee: Callee,
    args: Vec<Operand>,
    arg: Place,
    to: Place,
    return_to: Option<BasicBlock>,
)
    requires
        0 <= b < blocks@.len(),
        blocks@[b].terminator is Some,
        (blocks@[b].terminator->0).kind == (TerminatorKind::Call {
            callee: Some(callee),
            args,
            destination: to,
            return_to,
        }),
        callee.lock_acquire,
        args@.len() > 0,
        args@[0] == Operand::Copy(arg) || args@[0] == Operand::Move(arg),
        to.projection@.len() > 0,
        guard_of_ty(to.ty) is Some,
    ensures
        ({
            let before = before_end(
                after_blocks(s, instance_id, blocks, b as nat),
                &blocks@[b],
            ).defs;
            let after = after_blocks(s, instance_id, blocks, (b + 1) as nat);
            let all = after_blocks(s, instance_id, blocks, blocks@.len());
            let id = LockGuardId {
                instance_id,
                local: to.local,
                field: first_field(to.projection@),
            };
            let receiver = acquire_receiver(before, arg);
            &&& after.guards.contains_key(id)
            &&& Some(after.guards[id].lockguard_ty) == guard_of_ty(to.ty)
            &&& after.objects.contains_key(id)
            &&& after.objects[id] == (AliasId {
                instance_id,
                local: receiver.0,
                array_index: None,
                field: receiver.1,
            })
            &&& all.guards.contains_key(id)
            &&& all.objects.contains_key(id)
        }),
{
    let t = before_end(after_blocks(s, instance_id, blocks, b as nat), &blocks@[b]);
    let id = LockGuardId { instance_id, local: to.local, field: first_field(to.projection@) };
    let span = (blocks@[b].terminator->0).span;
    stored_guards_are_recorded(t, instance_id, callee, &args, arg, to, span);
    guards_stay(s, instance_id, blocks, (b + 1) as nat, blocks@.len(), id);
}

/// A guard whose first definition borrows another guard has that guard's lock,
/// and one whose first definition borrows anything else has what is borrowed.
pub proof fn borrowed_guards_lead_on<'b>(
    s: Findings<'b>,
    instance_id: InstanceId,
    local: Local,
    base: Local,
    field: Option<u32>,
)
    requires
        s.defs.dom().finite(),
        list_at(s.defs, local).len() > 0,
        list_at(s.defs, local)[0] == (DefSource::Borrow { base, field }),
    ensures
        !s.guards.contains_key(LockGuardId { instance_id, local: base, field: None })
            ==> resolved_receiver(s, instance_id, local) == Some((base, field)),
        s.guards.contains_key(LockGuardId { instance_id, local: base, field: None })
            && list_at(s.defs, base).len() > 0 ==> match list_at(s.defs, base)[0] {
            DefSource::LockAcquire { local: l, field: f } => resolved_receiver(
                s,
                instance_id,
                local,
            ) == Some((l, f)),
            _ => true,
        },
{
    reveal_with_fuel(resolved_from, 3);
}

} // verus!
