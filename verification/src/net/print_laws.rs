//! How values are printed: by their names and parts, so that a reader of a
//! report or a drawing can tell them apart.

use super::structure::{unsafe_op_texts, PlaceType, TransitionTypeView};
use crate::concurrency::atomic::AtomicOrdering;
use crate::memory::pointsto::AliasId;
use crate::text::{decimal, has_prefix, join_text, str_debug};
use crate::translate::mir_to_pn::names::{numbered_name, transition_name};
use vstd::prelude::*;

verus! {

/// Orderings and kinds of places print as they are called.
pub proof fn enumerations_print_their_names()
    ensures
        AtomicOrdering::Relaxed.name() == "Relaxed"@,
        AtomicOrdering::Release.name() == "Release"@,
        AtomicOrdering::Acquire.name() == "Acquire"@,
        AtomicOrdering::AcqRel.name() == "AcqRel"@,
        AtomicOrdering::SeqCst.name() == "SeqCst"@,
        PlaceType::Resources.name() == "Resources"@,
        PlaceType::FunctionStart.name() == "FunctionStart"@,
        PlaceType::FunctionEnd.name() == "FunctionEnd"@,
        PlaceType::BasicBlock.name() == "BasicBlock"@,
{
}

/// What is printed of an optional number.
pub open spec fn optional(n: Option<int>) -> Seq<char> {
    match n {
        Some(v) => "Some("@ + decimal(v as nat) + ")"@,
        None => "None"@,
    }
}

/// A location prints with its instance, its local, its element and its field.
pub proof fn locations_print_their_parts(id: AliasId)
    ensures
        id.debug() == "AliasId { instance_id: NodeIndex("@ + decimal(id.instance_id as nat)
            + "), local: _"@ + decimal(id.local as nat) + ", array_index: "@ + optional(
            match id.array_index {
                Some(v) => Some(v as int),
                None => None,
            },
        ) + ", field: "@ + optional(
            match id.field {
                Some(v) => Some(v as int),
                None => None,
            },
        ) + " }"@,
{
}

proof fn begins_with(a: Seq<char>, b: Seq<char>)
    ensures
        has_prefix(a + b, a),
        has_prefix(a, a),
{
    assert((a + b).subrange(0, a.len() as int) =~= a);
    assert(a.subrange(0, a.len() as int) =~= a);
}

proof fn longer_begins_with(a: Seq<char>, b: Seq<char>, prefix: Seq<char>)
    requires
        has_prefix(a, prefix),
    ensures
        has_prefix(a + b, prefix),
{
    assert((a + b).subrange(0, prefix.len() as int) =~= a.subrange(0, prefix.len() as int));
}

/// What a transition is printed with first: its name and, where it has one, its
/// number or location.
pub open spec fn heading(t: TransitionTypeView) -> Seq<char> {
    match t {
        TransitionTypeView::Start(i) => "Start("@ + decimal(i as nat),
        TransitionTypeView::Goto => "Goto"@,
        TransitionTypeView::Switch => "Switch"@,
        TransitionTypeView::Return(i) => "Return("@ + decimal(i as nat),
        TransitionTypeView::Assert => "Assert"@,
        TransitionTypeView::Drop => "Drop"@,
        TransitionTypeView::Function => "Function"@,
        TransitionTypeView::Lock(i) => "Lock("@ + decimal(i as nat),
        TransitionTypeView::Unlock(i) => "Unlock("@ + decimal(i as nat),
        TransitionTypeView::RwLockRead(i) => "RwLockRead("@ + decimal(i as nat),
        TransitionTypeView::RwLockWrite(i) => "RwLockWrite("@ + decimal(i as nat),
        TransitionTypeView::Wait => "Wait"@,
        TransitionTypeView::Notify(i) => "Notify("@ + decimal(i as nat),
        TransitionTypeView::Spawn(s) => "Spawn("@ + str_debug(s),
        TransitionTypeView::Join(s) => "Join("@ + str_debug(s),
        TransitionTypeView::UnsafeRead(i, _, _, _) => "UnsafeRead("@ + decimal(i as nat),
        TransitionTypeView::UnsafeWrite(i, _, _, _) => "UnsafeWrite("@ + decimal(i as nat),
        TransitionTypeView::UnsafeAccess(_) => "UnsafeAccess("@,
        TransitionTypeView::AtomicLoad(a, _, _, _) => "AtomicLoad("@ + a.debug(),
        TransitionTypeView::AtomicStore(a, _, _, _) => "AtomicStore("@ + a.debug(),
        TransitionTypeView::AtomicCmpXchg(a, _, _, _, _) => "AtomicCmpXchg("@ + a.debug(),
        TransitionTypeView::Inhibitor => "Inhibitor"@,
        TransitionTypeView::Reset => "Reset"@,
    }
}

/// Every transition prints under its own name, with its number or location
/// first.
pub proof fn transitions_print_under_their_names(t: TransitionTypeView)
    ensures
        has_prefix(t.debug(), heading(t)),
{
    let h = heading(t);
    begins_with(h, ")"@);
    begins_with(h, Seq::empty());
    match t {
        TransitionTypeView::UnsafeRead(i, s, b, ty) => {
            begins_with(h, ", "@);
            longer_begins_with(h + ", "@, str_debug(s), h);
            longer_begins_with(h + ", "@ + str_debug(s), ", "@, h);
            longer_begins_with(h + ", "@ + str_debug(s) + ", "@, decimal(b as nat), h);
            longer_begins_with(h + ", "@ + str_debug(s) + ", "@ + decimal(b as nat), ", "@, h);
            longer_begins_with(
                h + ", "@ + str_debug(s) + ", "@ + decimal(b as nat) + ", "@,
                str_debug(ty),
                h,
            );
            longer_begins_with(
                h + ", "@ + str_debug(s) + ", "@ + decimal(b as nat) + ", "@ + str_debug(ty),
                ")"@,
                h,
            );
        },
        TransitionTypeView::UnsafeWrite(i, s, b, ty) => {
            begins_with(h, ", "@);
            longer_begins_with(h + ", "@, str_debug(s), h);
            longer_begins_with(h + ", "@ + str_debug(s), ", "@, h);
            longer_begins_with(h + ", "@ + str_debug(s) + ", "@, decimal(b as nat), h);
            longer_begins_with(h + ", "@ + str_debug(s) + ", "@ + decimal(b as nat), ", "@, h);
            longer_begins_with(
                h + ", "@ + str_debug(s) + ", "@ + decimal(b as nat) + ", "@,
                str_debug(ty),
                h,
            );
            longer_begins_with(
                h + ", "@ + str_debug(s) + ", "@ + decimal(b as nat) + ", "@ + str_debug(ty),
                ")"@,
                h,
            );
        },
        TransitionTypeView::UnsafeAccess(ops) => {
            let texts = join_text(unsafe_op_texts(ops), ", "@);
            begins_with(h, "["@);
            longer_begins_with(h + "["@, texts, h);
            longer_begins_with(h + "["@ + texts, "]"@, h);
            longer_begins_with(h + "["@ + texts + "]"@, ")"@, h);
        },
        TransitionTypeView::AtomicLoad(a, o, s, tid) => {
            atomic_begins(h, o.name(), s, tid);
        },
        TransitionTypeView::AtomicStore(a, o, s, tid) => {
            atomic_begins(h, o.name(), s, tid);
        },
        TransitionTypeView::AtomicCmpXchg(a, o, f, s, tid) => {
            let names = o.name() + ", "@ + f.name();
            atomic_begins(h, names, s, tid);
            assert(t.debug() =~= h + ", "@ + names + ", "@ + str_debug(s) + ", "@ + decimal(
                tid as nat,
            ) + ")"@);
        },
        _ => {},
    }
}

proof fn atomic_begins(h: Seq<char>, names: Seq<char>, s: Seq<char>, tid: usize)
    ensures
        has_prefix(
            h + ", "@ + names + ", "@ + str_debug(s) + ", "@ + decimal(tid as nat) + ")"@,
            h,
        ),
{
    begins_with(h, ", "@);
    longer_begins_with(h + ", "@, names, h);
    longer_begins_with(h + ", "@ + names, ", "@, h);
    longer_begins_with(h + ", "@ + names + ", "@, str_debug(s), h);
    longer_begins_with(h + ", "@ + names + ", "@ + str_debug(s), ", "@, h);
    longer_begins_with(
        h + ", "@ + names + ", "@ + str_debug(s) + ", "@,
        decimal(tid as nat),
        h,
    );
    longer_begins_with(
        h + ", "@ + names + ", "@ + str_debug(s) + ", "@ + decimal(tid as nat),
        ")"@,
        h,
    );
}

/// The transitions of a block are named after the function, the block and what
/// they do, and numbered where there are several.
pub proof fn transitions_are_named_after_their_block(
    name: Seq<char>,
    bb: usize,
    kind: Seq<char>,
    n: nat,
)
    ensures
        transition_name(name, bb, kind) == name + "_"@ + decimal(bb as nat) + "_"@ + kind,
        numbered_name(name, bb, kind, n) == name + "_"@ + decimal(bb as nat) + "_"@ + kind + "_"@
            + decimal(n),
{
}

} // verus!
