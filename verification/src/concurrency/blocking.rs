//! Lock guards and condition variables of a function body.

use crate::collections::{
    entry_map_at, entry_map_size, has_key, key_index, list_at, lists, with_appended, Key, KeyedMap,
};
use crate::memory::pointsto::{same_field, AliasId};
use crate::text::{
    before_char, contains, contains_text, has_prefix, starts_with, text_before,
};
use crate::translate::mir::{
    attr_present, find_first_field, first_field, operand_place, BasicBlockData, Body, Callee,
    InstanceId, Local, LocalDecl, Operand, Place, ProjectionElem, Rvalue, Statement, StatementKind,
    Terminator, TerminatorKind, Ty,
};
use vstd::prelude::*;

verus! {

/// A lock guard: a local of an instance, or a field of a coroutine state that
/// the local points at.
#[derive(Clone, Copy, Debug, PartialEq, Eq, Hash, Structural)]
pub struct LockGuardId {
    pub instance_id: InstanceId,
    pub local: Local,
    /// The field index when the guard is stored inside a coroutine or struct
    /// state; `None` for a plain local.
    pub field: Option<u32>,
}

impl Key for LockGuardId {
    fn same(&self, other: &Self) -> (b: bool) {
        self.instance_id == other.instance_id && self.local == other.local && same_field(
            self.field,
            other.field,
        )
    }
}

impl LockGuardId {
    /// The location of the guard.
    pub open spec fn alias(self) -> AliasId {
        AliasId {
            instance_id: self.instance_id,
            local: self.local,
            array_index: None,
            field: self.field,
        }
    }

    /// A guard held by a plain local.
    pub fn new(instance_id: InstanceId, local: Local) -> (r: Self)
        ensures
            r == (LockGuardId { instance_id, local, field: None }),
    {
        LockGuardId { instance_id, local, field: None }
    }

    /// A guard held by a field of what a local points at.
    pub fn with_field(instance_id: InstanceId, local: Local, field: Option<u32>) -> (r: Self)
        ensures
            r == (LockGuardId { instance_id, local, field }),
    {
        LockGuardId { instance_id, local, field }
    }

    /// The location of the guard.
    pub fn get_alias_id(&self) -> (r: AliasId)
        ensures
            r == self.alias(),
    {
        AliasId {
            instance_id: self.instance_id,
            local: self.local,
            array_index: None,
            field: self.field,
        }
    }
}

/// A condition variable held by a local of an instance.
#[derive(Clone, Copy, Debug, PartialEq, Eq, Hash, Structural)]
pub struct CondVarId {
    pub instance_id: InstanceId,
    pub local: Local,
}

impl Key for CondVarId {
    fn same(&self, other: &Self) -> (b: bool) {
        self.instance_id == other.instance_id && self.local == other.local
    }
}

impl CondVarId {
    /// A condition variable held by a local.
    pub fn new(instance_id: InstanceId, local: Local) -> (r: Self)
        ensures
            r == (CondVarId { instance_id, local }),
    {
        CondVarId { instance_id, local }
    }

    /// The location of the condition variable.
    pub fn get_alias_id(&self) -> (r: AliasId)
        ensures
            r == AliasId::plain(self.instance_id, self.local),
    {
        AliasId::new(self.instance_id, self.local)
    }
}

/// The kind of a lock guard, with the printed type of what the lock protects.
#[derive(Debug)]
pub enum LockGuardTy {
    StdMutex(String),
    ParkingLotMutex(String),
    SpinMutex(String),
    StdRwLockRead(String),
    StdRwLockWrite(String),
    ParkingLotRead(String),
    ParkingLotWrite(String),
    SpinRead(String),
    SpinWrite(String),
}

impl Clone for LockGuardTy {
    fn clone(&self) -> (r: Self)
        ensures
            r == *self,
    {
        match self {
            LockGuardTy::StdMutex(t) => LockGuardTy::StdMutex(t.clone()),
            LockGuardTy::ParkingLotMutex(t) => LockGuardTy::ParkingLotMutex(t.clone()),
            LockGuardTy::SpinMutex(t) => LockGuardTy::SpinMutex(t.clone()),
            LockGuardTy::StdRwLockRead(t) => LockGuardTy::StdRwLockRead(t.clone()),
            LockGuardTy::StdRwLockWrite(t) => LockGuardTy::StdRwLockWrite(t.clone()),
            LockGuardTy::ParkingLotRead(t) => LockGuardTy::ParkingLotRead(t.clone()),
            LockGuardTy::ParkingLotWrite(t) => LockGuardTy::ParkingLotWrite(t.clone()),
            LockGuardTy::SpinRead(t) => LockGuardTy::SpinRead(t.clone()),
            LockGuardTy::SpinWrite(t) => LockGuardTy::SpinWrite(t.clone()),
        }
    }
}

/// The three shapes of guard that a path can name.
pub enum GuardFamily {
    Mutex,
    Read,
    Write,
}

/// The shape that a path names, mutexes first.
pub open spec fn guard_family(head: Seq<char>) -> Option<GuardFamily> {
    if contains_text(head, "MutexGuard"@) {
        Some(GuardFamily::Mutex)
    } else if contains_text(head, "RwLockReadGuard"@) {
        Some(GuardFamily::Read)
    } else if contains_text(head, "RwLockWriteGuard"@) {
        Some(GuardFamily::Write)
    } else {
        None
    }
}

/// The path belongs to an asynchronous or modelling library, whose guards are
/// not tracked.
pub open spec fn untracked_library(head: Seq<char>) -> bool {
    contains_text(head, "async"@) || contains_text(head, "tokio"@) || contains_text(
        head,
        "future"@,
    ) || contains_text(head, "loom"@)
}

/// The path belongs to `parking_lot` or the `lock_api` below it.
pub open spec fn parking_lot_library(head: Seq<char>) -> bool {
    contains_text(head, "lock_api"@) || contains_text(head, "parking_lot"@)
}

/// The type argument at `i`.
pub open spec fn type_arg(args: Seq<String>, i: int) -> Option<String> {
    if 0 <= i < args.len() {
        Some(args[i])
    } else {
        None
    }
}

/// The guard of a shape from the library that the path names. `parking_lot`
/// guards have the raw lock as their first type argument.
pub open spec fn guard_of_library(
    family: GuardFamily,
    head: Seq<char>,
    args: Seq<String>,
) -> Option<LockGuardTy> {
    if untracked_library(head) {
        None
    } else if contains_text(head, "spin"@) {
        match type_arg(args, 0) {
            None => None,
            Some(t) => match family {
                GuardFamily::Mutex => Some(LockGuardTy::SpinMutex(t)),
                GuardFamily::Read => Some(LockGuardTy::SpinRead(t)),
                GuardFamily::Write => Some(LockGuardTy::SpinWrite(t)),
            },
        }
    } else if parking_lot_library(head) {
        match type_arg(args, 1) {
            None => None,
            Some(t) => match family {
                GuardFamily::Mutex => Some(LockGuardTy::ParkingLotMutex(t)),
                GuardFamily::Read => Some(LockGuardTy::ParkingLotRead(t)),
                GuardFamily::Write => Some(LockGuardTy::ParkingLotWrite(t)),
            },
        }
    } else {
        match type_arg(args, 0) {
            None => None,
            Some(t) => match family {
                GuardFamily::Mutex => Some(LockGuardTy::StdMutex(t)),
                GuardFamily::Read => Some(LockGuardTy::StdRwLockRead(t)),
                GuardFamily::Write => Some(LockGuardTy::StdRwLockWrite(t)),
            },
        }
    }
}

/// The lock guard that a type is: by attribute first, then by the path before
/// its generic arguments.
pub open spec fn guard_of_ty(ty: Ty) -> Option<LockGuardTy> {
    match ty.adt {
        None => None,
        Some(adt) => {
            let args = adt.type_args@;
            if attr_present(adt.attrs@, "pn_mutex_guard"@) && args.len() > 0 {
                Some(LockGuardTy::StdMutex(args[0]))
            } else if attr_present(adt.attrs@, "pn_rwlock_read_guard"@) && args.len() > 0 {
                Some(LockGuardTy::StdRwLockRead(args[0]))
            } else if attr_present(adt.attrs@, "pn_rwlock_write_guard"@) && args.len() > 0 {
                Some(LockGuardTy::StdRwLockWrite(args[0]))
            } else {
                let head = before_char(adt.path@, '<');
                match guard_family(head) {
                    None => None,
                    Some(family) => guard_of_library(family, head, args),
                }
            }
        },
    }
}

/// The type argument at `i`.
fn get_type_arg(args: &Vec<String>, i: usize) -> (r: Option<String>)
    ensures
        r == type_arg(args@, i as int),
{
    if i < args.len() {
        Some(args[i].clone())
    } else {
        None
    }
}

/// The guard of a shape from the library that the path names.
fn library_guard(family: GuardFamily, head: &str, args: &Vec<String>) -> (r: Option<LockGuardTy>)
    ensures
        r == guard_of_library(family, head@, args@),
{
    if contains(head, "async") || contains(head, "tokio") || contains(head, "future") || contains(
        head,
        "loom",
    ) {
        None
    } else if contains(head, "spin") {
        match get_type_arg(args, 0) {
            None => None,
            Some(t) => match family {
                GuardFamily::Mutex => Some(LockGuardTy::SpinMutex(t)),
                GuardFamily::Read => Some(LockGuardTy::SpinRead(t)),
                GuardFamily::Write => Some(LockGuardTy::SpinWrite(t)),
            },
        }
    } else if contains(head, "lock_api") || contains(head, "parking_lot") {
        match get_type_arg(args, 1) {
            None => None,
            Some(t) => match family {
                GuardFamily::Mutex => Some(LockGuardTy::ParkingLotMutex(t)),
                GuardFamily::Read => Some(LockGuardTy::ParkingLotRead(t)),
                GuardFamily::Write => Some(LockGuardTy::ParkingLotWrite(t)),
            },
        }
    } else {
        match get_type_arg(args, 0) {
            None => None,
            Some(t) => match family {
                GuardFamily::Mutex => Some(LockGuardTy::StdMutex(t)),
                GuardFamily::Read => Some(LockGuardTy::StdRwLockRead(t)),
                GuardFamily::Write => Some(LockGuardTy::StdRwLockWrite(t)),
            },
        }
    }
}

impl LockGuardTy {
    /// The guard releases a write lock.
    pub open spec fn is_write(self) -> bool {
        match self {
            LockGuardTy::StdRwLockWrite(_)
            | LockGuardTy::ParkingLotWrite(_)
            | LockGuardTy::SpinWrite(_) => true,
            _ => false,
        }
    }

    /// The lock guard that the type of a local is, if it is one.
    pub fn from_local_ty(local_ty: &Ty) -> (r: Option<Self>)
        ensures
            r == guard_of_ty(*local_ty),
    {
        match &local_ty.adt {
            None => None,
            Some(adt) => {
                let args = &adt.type_args;
                if adt.has_pn_attribute("pn_mutex_guard") && args.len() > 0 {
                    return Some(LockGuardTy::StdMutex(args[0].clone()));
                }
                if adt.has_pn_attribute("pn_rwlock_read_guard") && args.len() > 0 {
                    return Some(LockGuardTy::StdRwLockRead(args[0].clone()));
                }
                if adt.has_pn_attribute("pn_rwlock_write_guard") && args.len() > 0 {
                    return Some(LockGuardTy::StdRwLockWrite(args[0].clone()));
                }
                let first_part = text_before(adt.path.as_str(), '<');
                let head = first_part.as_str();
                if contains(head, "MutexGuard") {
                    library_guard(GuardFamily::Mutex, head, args)
                } else if contains(head, "RwLockReadGuard") {
                    library_guard(GuardFamily::Read, head, args)
                } else if contains(head, "RwLockWriteGuard") {
                    library_guard(GuardFamily::Write, head, args)
                } else {
                    None
                }
            },
        }
    }
}

/// A guard's kind and where it is declared or acquired.
#[derive(Debug)]
pub struct LockGuardInfo {
    pub lockguard_ty: LockGuardTy,
    pub span: String,
}

impl Clone for LockGuardInfo {
    fn clone(&self) -> (r: Self)
        ensures
            r == *self,
    {
        LockGuardInfo { lockguard_ty: self.lockguard_ty.clone(), span: self.span.clone() }
    }
}

impl LockGuardInfo {
    /// A guard of the given kind at the given span.
    pub fn new(lockguard_ty: LockGuardTy, span: String) -> (r: Self)
        ensures
            r == (LockGuardInfo { lockguard_ty, span }),
    {
        LockGuardInfo { lockguard_ty, span }
    }
}

/// The guards of a body.
pub type LockGuardMap = KeyedMap<LockGuardId, LockGuardInfo>;

/// The condition variables of a body, with their spans.
pub type CondvarMap = KeyedMap<CondVarId, String>;

/// How a local obtained its value, used to trace a lock guard back to the
/// receiver of its acquiring call.
#[derive(Clone, Copy)]
pub enum DefSource<'b> {
    /// `dest = lock(receiver, ..)`: the receiver's local and field.
    LockAcquire { local: Local, field: Option<u32> },
    /// `dest = move src` or `dest = copy src`: the whole source place.
    Forward { local: Local, projection: &'b Vec<ProjectionElem> },
    /// `dest = &place`: the borrowed place's local and field.
    Borrow { base: Local, field: Option<u32> },
}

impl<'b> PartialEq for DefSource<'b> {
    fn eq(&self, other: &Self) -> (b: bool) {
        match (self, other) {
            (DefSource::Forward { local: la, .. }, DefSource::Forward { local: lb, .. }) => {
                *la == *lb
            },
            (
                DefSource::LockAcquire { local: la, field: fa },
                DefSource::LockAcquire { local: lb, field: fb },
            ) => *la == *lb && same_field(*fa, *fb),
            (
                DefSource::Borrow { base: ba, field: fa },
                DefSource::Borrow { base: bb, field: fb },
            ) => *ba == *bb && same_field(*fa, *fb),
            _ => false,
        }
    }
}

impl<'b> vstd::std_specs::cmp::PartialEqSpecImpl for DefSource<'b> {
    open spec fn obeys_eq_spec() -> bool {
        true
    }

    open spec fn eq_spec(&self, other: &Self) -> bool {
        self.hashed() == other.hashed()
    }
}

impl<'b> DefSource<'b> {
    /// What a source is hashed by: a tag, the local and the field. The
    /// projection of a forward does not count.
    pub open spec fn hashed(self) -> (u8, Local, Option<u32>) {
        match self {
            DefSource::Forward { local, .. } => (0u8, local, None),
            DefSource::LockAcquire { local, field } => (1u8, local, field),
            DefSource::Borrow { base, field } => (2u8, base, field),
        }
    }

    /// What a source is hashed by.
    pub fn hash_key(&self) -> (r: (u8, Local, Option<u32>))
        ensures
            r == self.hashed(),
    {
        match *self {
            DefSource::Forward { local, .. } => (0u8, local, None),
            DefSource::LockAcquire { local, field } => (1u8, local, field),
            DefSource::Borrow { base, field } => (2u8, base, field),
        }
    }
}


impl<'b> Eq for DefSource<'b> {

}

/// All definitions of the locals, in the order in which they were found.
pub type DefTable<'b> = KeyedMap<Local, Vec<DefSource<'b>>>;

/// What has been found of a body: the definitions of its locals, its guards,
/// and the lock objects of guards.
pub struct Findings<'b> {
    pub defs: Map<Local, Seq<DefSource<'b>>>,
    pub guards: Map<LockGuardId, LockGuardInfo>,
    pub objects: Map<LockGuardId, AliasId>,
}

/// A guard held by a plain local.
pub open spec fn plain_guard(instance_id: InstanceId, local: Local) -> LockGuardId {
    LockGuardId { instance_id, local, field: None }
}

/// The definition that a statement adds: a move or copy, or a borrow, into a
/// whole local.
pub open spec fn defs_after_statement<'b>(
    defs: Map<Local, Seq<DefSource<'b>>>,
    stmt: &'b Statement,
) -> Map<Local, Seq<DefSource<'b>>> {
    match stmt.kind {
        StatementKind::Assign(place, rvalue) => if place.projection@.len() != 0 {
            defs
        } else {
            match rvalue {
                Rvalue::Use(op) => match operand_place(op) {
                    Some(src) => with_appended(
                        defs,
                        place.local,
                        DefSource::Forward { local: src.local, projection: &src.projection },
                    ),
                    None => defs,
                },
                Rvalue::Ref(borrow) => with_appended(
                    defs,
                    place.local,
                    DefSource::Borrow {
                        base: borrow.local,
                        field: first_field(borrow.projection@),
                    },
                ),
                Rvalue::Other(_) => defs,
            }
        },
        StatementKind::Other => defs,
    }
}

/// The definitions after the first `n` statements.
pub open spec fn defs_after_statements<'b>(
    defs: Map<Local, Seq<DefSource<'b>>>,
    statements: &'b Vec<Statement>,
    n: nat,
) -> Map<Local, Seq<DefSource<'b>>>
    decreases n,
{
    if n == 0 {
        defs
    } else {
        defs_after_statement(
            defs_after_statements(defs, statements, (n - 1) as nat),
            &statements@[n - 1],
        )
    }
}

/// The receiver that a local leads back to through the first definition of
/// each local on the way, within `steps` steps.
pub open spec fn traced<'b>(
    defs: Map<Local, Seq<DefSource<'b>>>,
    start: Local,
    steps: nat,
) -> Option<(Local, Option<u32>)>
    decreases steps,
{
    if steps == 0 || list_at(defs, start).len() == 0 {
        None
    } else {
        match list_at(defs, start)[0] {
            DefSource::LockAcquire { local, field } => Some((local, field)),
            DefSource::Borrow { base, field } => Some((base, field)),
            DefSource::Forward { local, .. } => traced(defs, local, (steps - 1) as nat),
        }
    }
}

/// The lock object that the first argument of an acquiring call names: what
/// its local leads back to, else the local itself; a field of the argument
/// counts before a field found on the way.
pub open spec fn acquire_receiver<'b>(
    defs: Map<Local, Seq<DefSource<'b>>>,
    arg: Place,
) -> (Local, Option<u32>) {
    let own = first_field(arg.projection@);
    match traced(defs, arg.local, defs.dom().len() + 1) {
        Some((l, f)) => (l, if own is Some { own } else { f }),
        None => (arg.local, own),
    }
}

/// The place of the argument at `i`.
pub open spec fn arg_place(args: Seq<Operand>, i: int) -> Option<Place> {
    if 0 <= i < args.len() {
        operand_place(args[i])
    } else {
        None
    }
}

/// The lock object at a local and field.
pub open spec fn lock_object(
    instance_id: InstanceId,
    receiver: (Local, Option<u32>),
) -> AliasId {
    AliasId { instance_id, local: receiver.0, array_index: None, field: receiver.1 }
}

/// A guard that an acquiring call stores into a projection, with its lock
/// object.
pub open spec fn with_projected_guard<'b>(
    s: Findings<'b>,
    instance_id: InstanceId,
    destination: Place,
    receiver: (Local, Option<u32>),
    span: String,
) -> Findings<'b> {
    match guard_of_ty(destination.ty) {
        None => s,
        Some(lockguard_ty) => {
            let id = LockGuardId {
                instance_id,
                local: destination.local,
                field: first_field(destination.projection@),
            };
            Findings {
                defs: s.defs,
                guards: s.guards.insert(id, LockGuardInfo { lockguard_ty, span }),
                objects: s.objects.insert(id, lock_object(instance_id, receiver)),
            }
        },
    }
}

/// What a call of a directly named function adds. An acquire records its
/// receiver; an extractor, a dereference and any other call that produces a
/// guard forward their first argument; a wait forwards the guard that it was
/// given, its second argument.
pub open spec fn after_call<'b>(
    s: Findings<'b>,
    instance_id: InstanceId,
    callee: Callee,
    args: &'b Vec<Operand>,
    destination: Place,
    span: String,
) -> Findings<'b> {
    match arg_place(args@, 0) {
        None => s,
        Some(arg) => if callee.lock_acquire {
            let receiver = acquire_receiver(s.defs, arg);
            if destination.projection@.len() == 0 {
                Findings {
                    defs: with_appended(
                        s.defs,
                        destination.local,
                        DefSource::LockAcquire { local: receiver.0, field: receiver.1 },
                    ),
                    ..s
                }
            } else {
                with_projected_guard(s, instance_id, destination, receiver, span)
            }
        } else if destination.projection@.len() != 0 {
            s
        } else if callee.wrapper_extract || callee.arc_rc_deref || s.guards.contains_key(
            plain_guard(instance_id, destination.local),
        ) {
            Findings {
                defs: with_appended(
                    s.defs,
                    destination.local,
                    DefSource::Forward { local: arg.local, projection: &arg.projection },
                ),
                ..s
            }
        } else if callee.condvar_wait {
            match arg_place(args@, 1) {
                None => s,
                Some(guard) => Findings {
                    defs: with_appended(
                        s.defs,
                        destination.local,
                        DefSource::Forward { local: guard.local, projection: &guard.projection },
                    ),
                    ..s
                },
            }
        } else {
            s
        },
    }
}

/// What the end of a block adds.
pub open spec fn after_terminator<'b>(
    s: Findings<'b>,
    instance_id: InstanceId,
    terminator: &'b Terminator,
) -> Findings<'b> {
    match terminator.kind {
        TerminatorKind::Call { callee, args, destination, .. } => match callee {
            Some(c) => after_call(s, instance_id, c, &args, destination, terminator.span),
            None => s,
        },
        _ => s,
    }
}

/// What a block adds.
pub open spec fn after_block<'b>(
    s: Findings<'b>,
    instance_id: InstanceId,
    block: &'b BasicBlockData,
) -> Findings<'b> {
    let t = Findings {
        defs: defs_after_statements(s.defs, &block.statements, block.statements@.len()),
        ..s
    };
    match block.terminator {
        Some(terminator) => after_terminator(t, instance_id, &terminator),
        None => t,
    }
}

/// What the first `n` blocks add.
pub open spec fn after_blocks<'b>(
    s: Findings<'b>,
    instance_id: InstanceId,
    blocks: &'b Vec<BasicBlockData>,
    n: nat,
) -> Findings<'b>
    decreases n,
{
    if n == 0 {
        s
    } else {
        after_block(after_blocks(s, instance_id, blocks, (n - 1) as nat), instance_id, &blocks@[n - 1])
    }
}

/// The locals that hold a guard of the instance.
pub open spec fn guard_locals(
    guards: Map<LockGuardId, LockGuardInfo>,
    instance_id: InstanceId,
) -> Set<Local> {
    Set::new(|l: Local| guards.contains_key(plain_guard(instance_id, l)))
}

/// The receiver that the definitions of `local` from the `i`th on lead to. The
/// first chain that reaches a receiver counts; a chain that comes back to a
/// local of `visiting` is skipped. A borrow of a guard leads to that guard's
/// receiver, any other borrow is a receiver. A forward's own field counts where
/// none was found further on.
pub open spec fn resolved_from<'b>(
    defs: Map<Local, Seq<DefSource<'b>>>,
    guards: Set<Local>,
    local: Local,
    i: nat,
    visiting: Set<Local>,
) -> Option<(Local, Option<u32>)>
    decreases defs.dom().difference(visiting).len(), list_at(defs, local).len() - i,
    when defs.dom().finite()
    via resolved_from_terminates
{
    if i >= list_at(defs, local).len() {
        None
    } else {
        match list_at(defs, local)[i as int] {
            DefSource::LockAcquire { local: receiver, field } => Some((receiver, field)),
            DefSource::Borrow { base, field } => if !guards.contains(base) {
                Some((base, field))
            } else if visiting.contains(base) || !defs.contains_key(base) {
                resolved_from(defs, guards, local, i + 1, visiting)
            } else {
                match resolved_from(defs, guards, base, 0, visiting.insert(base)) {
                    Some(r) => Some(r),
                    None => resolved_from(defs, guards, local, i + 1, visiting),
                }
            },
            DefSource::Forward { local: src, projection } => if visiting.contains(src)
                || !defs.contains_key(src) {
                resolved_from(defs, guards, local, i + 1, visiting)
            } else {
                match resolved_from(defs, guards, src, 0, visiting.insert(src)) {
                    Some((l, f)) => Some((l, if f is Some { f } else { first_field(projection@) })),
                    None => resolved_from(defs, guards, local, i + 1, visiting),
                }
            },
        }
    }
}

/// Visiting one more defined local leaves fewer to visit.
proof fn visiting_shrinks(dom: Set<Local>, visiting: Set<Local>, l: Local)
    requires
        dom.finite(),
        dom.contains(l),
        !visiting.contains(l),
    ensures
        dom.difference(visiting.insert(l)).len() < dom.difference(visiting).len(),
{
    let left = dom.difference(visiting);
    assert(left.finite()) by {
        vstd::set_lib::lemma_set_subset_finite(dom, left);
    }
    assert(dom.difference(visiting.insert(l)) =~= left.remove(l));
    assert(left.contains(l));
}

#[via_fn]
proof fn resolved_from_terminates<'b>(
    defs: Map<Local, Seq<DefSource<'b>>>,
    guards: Set<Local>,
    local: Local,
    i: nat,
    visiting: Set<Local>,
) {
    if i < list_at(defs, local).len() {
        match list_at(defs, local)[i as int] {
            DefSource::LockAcquire { .. } => {},
            DefSource::Borrow { base, .. } => {
                if !visiting.contains(base) && defs.contains_key(base) {
                    visiting_shrinks(defs.dom(), visiting, base);
                }
            },
            DefSource::Forward { local: src, .. } => {
                if !visiting.contains(src) && defs.contains_key(src) {
                    visiting_shrinks(defs.dom(), visiting, src);
                }
            },
        }
    }
}

/// The receiver of the guard held by `local`.
pub open spec fn resolved_receiver<'b>(
    s: Findings<'b>,
    instance_id: InstanceId,
    local: Local,
) -> Option<(Local, Option<u32>)> {
    resolved_from(s.defs, guard_locals(s.guards, instance_id), local, 0, Set::empty())
}

/// The guard is held by a plain local whose receiver is found.
pub open spec fn is_resolved<'b>(
    s: Findings<'b>,
    instance_id: InstanceId,
    id: LockGuardId,
) -> bool {
    s.guards.contains_key(id) && id.field is None && resolved_receiver(s, instance_id, id.local)
        is Some
}

/// The lock objects of all guards: the resolved ones by their receivers, the
/// others as they were recorded.
pub open spec fn resolved_objects<'b>(
    s: Findings<'b>,
    instance_id: InstanceId,
) -> Map<LockGuardId, AliasId> {
    Map::new(
        |id: LockGuardId| is_resolved(s, instance_id, id) || s.objects.contains_key(id),
        |id: LockGuardId|
            if is_resolved(s, instance_id, id) {
                lock_object(instance_id, resolved_receiver(s, instance_id, id.local)->0)
            } else {
                s.objects[id]
            },
    )
}

/// The type is a condition variable, by attribute or by path.
pub open spec fn is_condvar_ty(ty: Ty) -> bool {
    match ty.adt {
        Some(adt) => attr_present(adt.attrs@, "pn_condvar"@) || has_prefix(
            adt.path@,
            "std::sync::Condvar"@,
        ),
        None => false,
    }
}

/// The guards among the first `n` locals.
pub open spec fn declared_guards(
    decls: Seq<LocalDecl>,
    instance_id: InstanceId,
    n: nat,
) -> Map<LockGuardId, LockGuardInfo> {
    Map::new(
        |id: LockGuardId|
            id.instance_id == instance_id && id.field is None && id.local < n && guard_of_ty(
                decls[id.local as int].ty,
            ) is Some,
        |id: LockGuardId|
            LockGuardInfo {
                lockguard_ty: guard_of_ty(decls[id.local as int].ty)->0,
                span: decls[id.local as int].span,
            },
    )
}

/// The condition variables among the first `n` locals.
pub open spec fn declared_condvars(
    decls: Seq<LocalDecl>,
    instance_id: InstanceId,
    n: nat,
) -> Map<CondVarId, String> {
    Map::new(
        |id: CondVarId|
            id.instance_id == instance_id && id.local < n && is_condvar_ty(
                decls[id.local as int].ty,
            ),
        |id: CondVarId| decls[id.local as int].span,
    )
}

/// Collects the lock guards and condition variables of one body.
pub struct BlockingCollector<'b> {
    pub instance_id: InstanceId,
    pub body: &'b Body,
    pub lockguards: LockGuardMap,
    pub condvars: CondvarMap,
    /// The lock object of each guard whose acquiring receiver is known. Guards
    /// are grouped by the lock that they protect rather than by their own
    /// aliases.
    pub lock_objects: KeyedMap<LockGuardId, AliasId>,
}

impl<'b> BlockingCollector<'b> {
    /// No key occurs twice in any of the maps.
    pub open spec fn wf(&self) -> bool {
        self.lockguards.wf() && self.condvars.wf() && self.lock_objects.wf()
    }

    /// The findings before the blocks are read.
    pub open spec fn initial_findings(&self) -> Findings<'b> {
        Findings { defs: Map::empty(), guards: self.lockguards@, objects: self.lock_objects@ }
    }

    /// The findings once all blocks are read.
    pub open spec fn findings(&self) -> Findings<'b> {
        after_blocks(
            self.initial_findings(),
            self.instance_id,
            &self.body.basic_blocks,
            self.body.basic_blocks@.len(),
        )
    }

    /// A collector that has found nothing yet.
    pub fn new(instance_id: InstanceId, body: &'b Body) -> (r: Self)
        ensures
            r.wf(),
            r.instance_id == instance_id,
            r.body == body,
            r.lockguards@ == Map::<LockGuardId, LockGuardInfo>::empty(),
            r.condvars@ == Map::<CondVarId, String>::empty(),
            r.lock_objects@ == Map::<LockGuardId, AliasId>::empty(),
    {
        BlockingCollector {
            instance_id,
            body,
            lockguards: KeyedMap::new(),
            condvars: KeyedMap::new(),
            lock_objects: KeyedMap::new(),
        }
    }

    /// Finds the guards and condition variables of the body, by the types of
    /// its locals, and then the lock object of each guard.
    pub fn analyze(&mut self)
        requires
            old(self).wf(),
        ensures
            final(self).wf(),
            final(self).instance_id == old(self).instance_id,
            final(self).body == old(self).body,
            final(self).condvars@ == old(self).condvars@.union_prefer_right(
                declared_condvars(
                    old(self).body.local_decls@,
                    old(self).instance_id,
                    old(self).body.local_decls@.len(),
                ),
            ),
            ({
                let declared = old(self).lockguards@.union_prefer_right(
                    declared_guards(
                        old(self).body.local_decls@,
                        old(self).instance_id,
                        old(self).body.local_decls@.len(),
                    ),
                );
                let found = after_blocks(
                    Findings {
                        defs: Map::empty(),
                        guards: declared,
                        objects: old(self).lock_objects@,
                    },
                    old(self).instance_id,
                    &old(self).body.basic_blocks,
                    old(self).body.basic_blocks@.len(),
                );
                &&& final(self).lockguards@ == found.guards
                &&& final(self).lock_objects@ == resolved_objects(found, old(self).instance_id)
            }),
    {
        let decls: &'b Vec<LocalDecl> = &self.body.local_decls;
        let mut local: usize = 0;
        proof {
            assert(declared_guards(decls@, self.instance_id, 0) =~= Map::empty());
            assert(declared_condvars(decls@, self.instance_id, 0) =~= Map::empty());
            assert(self.lockguards@.union_prefer_right(Map::empty()) =~= self.lockguards@);
            assert(self.condvars@.union_prefer_right(Map::empty()) =~= self.condvars@);
        }
        while local < decls.len()
            invariant
                local <= decls@.len(),
                decls == old(self).body.local_decls,
                self.wf(),
                self.instance_id == old(self).instance_id,
                self.body == old(self).body,
                self.lock_objects == old(self).lock_objects,
                self.lockguards@ == old(self).lockguards@.union_prefer_right(
                    declared_guards(decls@, self.instance_id, local as nat),
                ),
                self.condvars@ == old(self).condvars@.union_prefer_right(
                    declared_condvars(decls@, self.instance_id, local as nat),
                ),
            decreases decls@.len() - local,
        {
            let decl: &'b LocalDecl = &decls[local];
            let ghost g0 = declared_guards(decls@, self.instance_id, local as nat);
            let ghost g1 = declared_guards(decls@, self.instance_id, (local + 1) as nat);
            let ghost c0 = declared_condvars(decls@, self.instance_id, local as nat);
            let ghost c1 = declared_condvars(decls@, self.instance_id, (local + 1) as nat);
            let ghost gid = plain_guard(self.instance_id, local);
            let ghost cid = CondVarId { instance_id: self.instance_id, local };
            proof {
                assert forall|id: LockGuardId| id.instance_id == self.instance_id && id.field
                    is None && id.local == local implies id == gid by {}
                match guard_of_ty(decl.ty) {
                    Some(t) => {
                        assert(g1 =~= g0.insert(
                            gid,
                            LockGuardInfo { lockguard_ty: t, span: decl.span },
                        ));
                        assert(old(self).lockguards@.union_prefer_right(g1) =~= old(
                            self,
                        ).lockguards@.union_prefer_right(g0).insert(
                            gid,
                            LockGuardInfo { lockguard_ty: t, span: decl.span },
                        ));
                    },
                    None => {
                        assert(g1 =~= g0);
                    },
                }
                if is_condvar_ty(decl.ty) {
                    assert(c1 =~= c0.insert(cid, decl.span));
                    assert(old(self).condvars@.union_prefer_right(c1) =~= old(
                        self,
                    ).condvars@.union_prefer_right(c0).insert(cid, decl.span));
                } else {
                    assert(c1 =~= c0);
                }
            }
            if let Some(lockguard_ty) = LockGuardTy::from_local_ty(&decl.ty) {
                let lockguard_id = LockGuardId::new(self.instance_id, local);
                let lockguard_info = LockGuardInfo::new(lockguard_ty, decl.span.clone());
                self.lockguards.insert(lockguard_id, lockguard_info);
            }
            if let Some(adt) = &decl.ty.adt {
                if adt.has_pn_attribute("pn_condvar") || starts_with(
                    adt.path.as_str(),
                    "std::sync::Condvar",
                ) {
                    self.condvars.insert(
                        CondVarId::new(self.instance_id, local),
                        decl.span.clone(),
                    );
                }
            }
            local = local + 1;
        }
        self.resolve_lock_objects();
    }

    /// Reads the body's definitions and records, for every guard, the receiver
    /// of the call that acquired it. A guard local can be defined in several
    /// places: a loop-carried guard is assigned by the acquire and again by
    /// every wait, so all definitions are kept. Guards whose receiver is not
    /// found are left out.
    pub fn resolve_lock_objects(&mut self)
        requires
            old(self).wf(),
        ensures
            final(self).wf(),
            final(self).instance_id == old(self).instance_id,
            final(self).body == old(self).body,
            final(self).condvars == old(self).condvars,
            final(self).lockguards@ == old(self).findings().guards,
            final(self).lock_objects@ == resolved_objects(
                old(self).findings(),
                old(self).instance_id,
            ),
    {
        let body: &'b Body = self.body;
        let blocks: &'b Vec<BasicBlockData> = &body.basic_blocks;
        let mut def_source: DefTable<'b> = KeyedMap::new();
        proof {
            assert(lists(def_source@) =~= Map::<Local, Seq<DefSource<'b>>>::empty());
        }
        let mut bb: usize = 0;
        while bb < blocks.len()
            invariant
                bb <= blocks@.len(),
                blocks == old(self).body.basic_blocks,
                def_source.wf(),
                self.wf(),
                self.instance_id == old(self).instance_id,
                self.body == old(self).body,
                self.condvars == old(self).condvars,
                (Findings {
                    defs: lists(def_source@),
                    guards: self.lockguards@,
                    objects: self.lock_objects@,
                }) == after_blocks(
                    old(self).initial_findings(),
                    old(self).instance_id,
                    blocks,
                    bb as nat,
                ),
            decreases blocks@.len() - bb,
        {
            let block: &'b BasicBlockData = &blocks[bb];
            let statements: &'b Vec<Statement> = &block.statements;
            let ghost before = lists(def_source@);
            let mut i: usize = 0;
            while i < statements.len()
                invariant
                    i <= statements@.len(),
                    def_source.wf(),
                    lists(def_source@) == defs_after_statements(before, statements, i as nat),
                decreases statements@.len() - i,
            {
                Self::collect_statement(&mut def_source, &statements[i]);
                i = i + 1;
            }
            if let Some(terminator) = &block.terminator {
                self.collect_terminator(&mut def_source, terminator);
            }
            bb = bb + 1;
        }
        let ghost found = old(self).findings();
        let mut g: usize = 0;
        proof {
            entry_map_size(def_source.entries@);
            assert(found.defs.dom() =~= def_source@.dom());
            assert(self.lock_objects@ == found.objects);
        }
        while g < self.lockguards.entries.len()
            invariant
                g <= self.lockguards.entries@.len(),
                def_source.wf(),
                self.wf(),
                self.instance_id == old(self).instance_id,
                self.body == old(self).body,
                self.condvars == old(self).condvars,
                found == old(self).findings(),
                lists(def_source@) == found.defs,
                self.lockguards@ == found.guards,
                forall|id: LockGuardId| #[trigger]
                    self.lock_objects@.contains_key(id) <==> found.objects.contains_key(id) || (
                    is_resolved(found, self.instance_id, id) && key_index(
                        self.lockguards.entries@,
                        id,
                    ) < g),
                forall|id: LockGuardId| #[trigger]
                    self.lock_objects@.contains_key(id) ==> self.lock_objects@[id] == (if is_resolved(
                        found,
                        self.instance_id,
                        id,
                    ) && key_index(self.lockguards.entries@, id) < g {
                        lock_object(
                            self.instance_id,
                            resolved_receiver(found, self.instance_id, id.local)->0,
                        )
                    } else {
                        found.objects[id]
                    }),
            decreases self.lockguards.entries@.len() - g,
        {
            let guard_id: LockGuardId = self.lockguards.entries[g].0;
            let ghost entries = self.lockguards.entries@;
            proof {
                entry_map_at(entries, g as int);
                assert forall|id: LockGuardId| is_resolved(found, self.instance_id, id) implies (
                key_index(entries, id) < g + 1 <==> key_index(entries, id) < g || id == guard_id) by {
                    assert(has_key(entries, id));
                    let k = key_index(entries, id);
                    assert(entries[k].0 == id);
                    if k == g {
                        assert(id == guard_id);
                    }
                }
            }
            if guard_id.field.is_none() {
                let mut visiting: Vec<Local> = Vec::new();
                proof {
                    assert(visiting@.to_set() =~= Set::<Local>::empty());
                }
                let receiver = Self::resolve_guard_receiver(
                    &def_source,
                    &self.lockguards,
                    self.instance_id,
                    guard_id.local,
                    &mut visiting,
                );
                if let Some((local, field)) = receiver {
                    let alias_id = AliasId {
                        instance_id: self.instance_id,
                        local,
                        array_index: None,
                        field,
                    };
                    self.lock_objects.insert(guard_id, alias_id);
                }
            }
            g = g + 1;
        }
        proof {
            let all = resolved_objects(found, old(self).instance_id);
            assert forall|id: LockGuardId| is_resolved(found, self.instance_id, id) implies key_index(
                self.lockguards.entries@,
                id,
            ) < self.lockguards.entries@.len() by {
                assert(has_key(self.lockguards.entries@, id));
            }
            assert(self.lock_objects@ =~= all);
        }
    }

    /// Records the definition that a statement makes.
    fn collect_statement(def_source: &mut DefTable<'b>, stmt: &'b Statement)
        requires
            old(def_source).wf(),
        ensures
            final(def_source).wf(),
            lists(final(def_source)@) == defs_after_statement(lists(old(def_source)@), stmt),
    {
        if let StatementKind::Assign(place, rvalue) = &stmt.kind {
            if place.projection.len() != 0 {
                return;
            }
            match rvalue {
                Rvalue::Use(op) => {
                    if let Some(src) = op.place() {
                        def_source.push_value(
                            place.local,
                            DefSource::Forward { local: src.local, projection: &src.projection },
                        );
                    }
                },
                Rvalue::Ref(borrow) => {
                    let field = find_first_field(&borrow.projection);
                    def_source.push_value(
                        place.local,
                        DefSource::Borrow { base: borrow.local, field },
                    );
                },
                Rvalue::Other(_) => {},
            }
        }
    }

    /// Records what a call at the end of a block says of its destination.
    fn collect_terminator(&mut self, def_source: &mut DefTable<'b>, terminator: &'b Terminator)
        requires
            old(self).wf(),
            old(def_source).wf(),
        ensures
            final(self).wf(),
            final(def_source).wf(),
            final(self).instance_id == old(self).instance_id,
            final(self).body == old(self).body,
            final(self).condvars == old(self).condvars,
            (Findings {
                defs: lists(final(def_source)@),
                guards: final(self).lockguards@,
                objects: final(self).lock_objects@,
            }) == after_terminator(
                Findings {
                    defs: lists(old(def_source)@),
                    guards: old(self).lockguards@,
                    objects: old(self).lock_objects@,
                },
                old(self).instance_id,
                terminator,
            ),
    {
        if let TerminatorKind::Call { callee, args, destination, .. } = &terminator.kind {
            let callee: Callee = match callee {
                Some(c) => *c,
                None => {
                    return;
                },
            };
            let arg: &'b Place = match Self::nth_place(args, 0) {
                Some(p) => p,
                None => {
                    return;
                },
            };
            if callee.lock_acquire {
                let mut receiver_local: Local = arg.local;
                let mut receiver_field: Option<u32> = find_first_field(&arg.projection);
                if let Some((r_local, r_field)) = Self::trace_to_receiver(
                    def_source,
                    receiver_local,
                ) {
                    receiver_local = r_local;
                    if receiver_field.is_none() {
                        receiver_field = r_field;
                    }
                }
                if destination.projection.len() == 0 {
                    def_source.push_value(
                        destination.local,
                        DefSource::LockAcquire { local: receiver_local, field: receiver_field },
                    );
                } else {
                    self.register_projected_guard(
                        destination,
                        receiver_local,
                        receiver_field,
                        terminator.span.clone(),
                    );
                }
            } else if destination.projection.len() == 0 {
                if callee.wrapper_extract || callee.arc_rc_deref || self.lockguards.contains_key(
                    &LockGuardId::new(self.instance_id, destination.local),
                ) {
                    def_source.push_value(
                        destination.local,
                        DefSource::Forward { local: arg.local, projection: &arg.projection },
                    );
                } else if callee.condvar_wait {
                    if let Some(guard) = Self::nth_place(args, 1) {
                        def_source.push_value(
                            destination.local,
                            DefSource::Forward {
                                local: guard.local,
                                projection: &guard.projection,
                            },
                        );
                    }
                }
            }
        }
    }

    /// The place of the argument at `i`.
    fn nth_place(args: &'b Vec<Operand>, i: usize) -> (r: Option<&'b Place>)
        ensures
            match r {
                Some(p) => arg_place(args@, i as int) == Some(*p),
                None => arg_place(args@, i as int) is None,
            },
    {
        if i < args.len() {
            args[i].place()
        } else {
            None
        }
    }

    /// Registers a guard whose destination is a projection, a field of a
    /// coroutine or struct state, together with its lock object.
    pub fn register_projected_guard(
        &mut self,
        destination: &Place,
        receiver_local: Local,
        receiver_field: Option<u32>,
        span: String,
    )
        requires
            old(self).wf(),
        ensures
            final(self).wf(),
            final(self).instance_id == old(self).instance_id,
            final(self).body == old(self).body,
            final(self).condvars == old(self).condvars,
            ({
                let after = with_projected_guard(
                    old(self).initial_findings(),
                    old(self).instance_id,
                    *destination,
                    (receiver_local, receiver_field),
                    span,
                );
                &&& final(self).lockguards@ == after.guards
                &&& final(self).lock_objects@ == after.objects
            }),
    {
        let field = find_first_field(&destination.projection);
        if let Some(lockguard_ty) = LockGuardTy::from_local_ty(&destination.ty) {
            let guard_id = LockGuardId::with_field(self.instance_id, destination.local, field);
            self.lockguards.insert(guard_id, LockGuardInfo::new(lockguard_ty, span));
            self.lock_objects.insert(
                guard_id,
                AliasId {
                    instance_id: self.instance_id,
                    local: receiver_local,
                    array_index: None,
                    field: receiver_field,
                },
            );
        }
    }

    /// The lock object that a receiver local leads back to through borrows,
    /// along the first definition of each local on the way.
    pub fn trace_to_receiver(def_source: &DefTable<'b>, start: Local) -> (r: Option<
        (Local, Option<u32>),
    >)
        requires
            def_source.wf(),
        ensures
            r == traced(lists(def_source@), start, lists(def_source@).dom().len() + 1),
    {
        let steps: usize = def_source.entries.len();
        let ghost defs = lists(def_source@);
        proof {
            entry_map_size(def_source.entries@);
            assert(defs.dom() =~= def_source@.dom());
        }
        let mut current = start;
        let mut done: usize = 0;
        loop
            invariant
                def_source.wf(),
                defs == lists(def_source@),
                steps == defs.dom().len(),
                done <= steps,
                traced(defs, start, (steps + 1) as nat) == traced(
                    defs,
                    current,
                    (steps + 1 - done) as nat,
                ),
            decreases steps - done,
        {
            let defs_here = match def_source.get(&current) {
                Some(v) => v,
                None => {
                    return None;
                },
            };
            if defs_here.len() == 0 {
                return None;
            }
            match defs_here[0] {
                DefSource::LockAcquire { local, field } => {
                    return Some((local, field));
                },
                DefSource::Borrow { base, field } => {
                    return Some((base, field));
                },
                DefSource::Forward { local, .. } => {
                    current = local;
                },
            }
            if done == steps {
                proof {
                    assert(traced(defs, current, 0) is None);
                }
                return None;
            }
            done = done + 1;
        }
    }

    /// The lock object of a guard local: all its definition chains are walked,
    /// through moves, borrows, extractors and waits, and the first that reaches
    /// a receiver counts. A chain that loops back on itself is skipped.
    pub fn resolve_guard_receiver(
        def_source: &DefTable<'b>,
        lockguards: &LockGuardMap,
        instance_id: InstanceId,
        local: Local,
        visiting: &mut Vec<Local>,
    ) -> (r: Option<(Local, Option<u32>)>)
        requires
            def_source.wf(),
            lockguards.wf(),
        ensures
            r == resolved_from(
                lists(def_source@),
                guard_locals(lockguards@, instance_id),
                local,
                0,
                old(visiting)@.to_set(),
            ),
            r is None ==> final(visiting)@ == old(visiting)@,
        decreases lists(def_source@).dom().difference(old(visiting)@.to_set()).len(),
    {
        let ghost defs = lists(def_source@);
        let ghost guards = guard_locals(lockguards@, instance_id);
        let ghost seen = visiting@.to_set();
        proof {
            entry_map_size(def_source.entries@);
            assert(defs.dom() =~= def_source@.dom());
        }
        let own = match def_source.get(&local) {
            Some(v) => v,
            None => {
                return None;
            },
        };
        let mut i: usize = 0;
        while i < own.len()
            invariant
                i <= own@.len(),
                def_source.wf(),
                lockguards.wf(),
                defs == lists(def_source@),
                defs.dom().finite(),
                defs.contains_key(local),
                defs[local] == own@,
                guards == guard_locals(lockguards@, instance_id),
                seen == old(visiting)@.to_set(),
                visiting@ == old(visiting)@,
                resolved_from(defs, guards, local, 0, seen) == resolved_from(
                    defs,
                    guards,
                    local,
                    i as nat,
                    seen,
                ),
            decreases own@.len() - i,
        {
            match own[i] {
                DefSource::LockAcquire { local: receiver, field } => {
                    return Some((receiver, field));
                },
                DefSource::Borrow { base, field } => {
                    if lockguards.contains_key(&LockGuardId::new(instance_id, base)) {
                        if !Self::is_visiting(visiting, base) && def_source.contains_key(&base) {
                            proof {
                                visiting_shrinks(defs.dom(), seen, base);
                                pushed_set(visiting@, base);
                            }
                            visiting.push(base);
                            if let Some(r) = Self::resolve_guard_receiver(
                                def_source,
                                lockguards,
                                instance_id,
                                base,
                                visiting,
                            ) {
                                return Some(r);
                            }
                            visiting.pop();
                            proof {
                                assert(visiting@ =~= old(visiting)@);
                            }
                        }
                    } else {
                        return Some((base, field));
                    }
                },
                DefSource::Forward { local: src, projection } => {
                    if !Self::is_visiting(visiting, src) && def_source.contains_key(&src) {
                        proof {
                            visiting_shrinks(defs.dom(), seen, src);
                            pushed_set(visiting@, src);
                        }
                        visiting.push(src);
                        if let Some((l, f)) = Self::resolve_guard_receiver(
                            def_source,
                            lockguards,
                            instance_id,
                            src,
                            visiting,
                        ) {
                            let field = if f.is_some() {
                                f
                            } else {
                                find_first_field(projection)
                            };
                            return Some((l, field));
                        }
                        visiting.pop();
                        proof {
                            assert(visiting@ =~= old(visiting)@);
                        }
                    }
                },
            }
            i = i + 1;
        }
        None
    }

    /// Whether `local` is among the locals being visited.
    fn is_visiting(visiting: &Vec<Local>, local: Local) -> (b: bool)
        ensures
            b == visiting@.to_set().contains(local),
    {
        let mut i: usize = 0;
        while i < visiting.len()
            invariant
                i <= visiting@.len(),
                forall|j: int| 0 <= j < i ==> visiting@[j] != local,
            decreases visiting@.len() - i,
        {
            if visiting[i] == local {
                return true;
            }
            i = i + 1;
        }
        false
    }
}

/// The set of a sequence with one more element.
proof fn pushed_set(s: Seq<Local>, x: Local)
    ensures
        s.push(x).to_set() == s.to_set().insert(x),
{
    assert forall|y: Local| #[trigger] s.push(x).to_set().contains(y) <==> s.to_set().insert(
        x,
    ).contains(y) by {
        if s.contains(y) {
            let k = choose|k: int| 0 <= k < s.len() && s[k] == y;
            assert(s.push(x)[k] == y);
        }
        assert(s.push(x)[s.len() as int] == x);
    }
    assert(s.push(x).to_set() =~= s.to_set().insert(x));
}

/// The definitions of `a` lead on to `b`: a move or copy of `b`, or a borrow of
/// the guard `b`.
pub open spec fn leads_to<'b>(
    defs: Map<Local, Seq<DefSource<'b>>>,
    guards: Set<Local>,
    a: Local,
    b: Local,
) -> bool {
    exists|i: int|
        0 <= i < list_at(defs, a).len() && (match #[trigger] list_at(defs, a)[i] {
            DefSource::Forward { local, .. } => local == b,
            DefSource::Borrow { base, .. } => base == b && guards.contains(b),
            DefSource::LockAcquire { .. } => false,
        })
}

/// A definition of `a` names the receiver `r`: an acquire, or a borrow of
/// something that is no guard.
pub open spec fn ends_at<'b>(
    defs: Map<Local, Seq<DefSource<'b>>>,
    guards: Set<Local>,
    a: Local,
    r: Local,
) -> bool {
    exists|i: int|
        0 <= i < list_at(defs, a).len() && (match #[trigger] list_at(defs, a)[i] {
            DefSource::LockAcquire { local, .. } => local == r,
            DefSource::Borrow { base, .. } => base == r && !guards.contains(base),
            DefSource::Forward { .. } => false,
        })
}

/// `chain` is a chain of definitions from its first local to the receiver `r`.
pub open spec fn is_chain<'b>(
    defs: Map<Local, Seq<DefSource<'b>>>,
    guards: Set<Local>,
    chain: Seq<Local>,
    r: Local,
) -> bool {
    &&& chain.len() > 0
    &&& forall|k: int|
        0 <= k < chain.len() - 1 ==> leads_to(defs, guards, #[trigger] chain[k], chain[k + 1])
    &&& ends_at(defs, guards, chain.last(), r)
}

/// No local after the first occurs twice, and none is being visited.
pub open spec fn is_open_chain(chain: Seq<Local>, visiting: Set<Local>) -> bool {
    &&& forall|j: int, k: int| 1 <= j < k < chain.len() ==> chain[j] != chain[k]
    &&& forall|j: int| 1 <= j < chain.len() ==> !visiting.contains(#[trigger] chain[j])
}

/// Some chain of definitions leads from `local` to the receiver `r`.
pub open spec fn chain_leads<'b>(
    defs: Map<Local, Seq<DefSource<'b>>>,
    guards: Set<Local>,
    local: Local,
    r: Local,
) -> bool {
    exists|chain: Seq<Local>| #[trigger] is_chain(defs, guards, chain, r) && chain[0] == local
}

/// A receiver that the search reports lies at the end of a chain.
proof fn resolved_has_chain<'b>(
    defs: Map<Local, Seq<DefSource<'b>>>,
    guards: Set<Local>,
    local: Local,
    i: nat,
    visiting: Set<Local>,
)
    requires
        defs.dom().finite(),
    ensures
        resolved_from(defs, guards, local, i, visiting) matches Some(r) ==> chain_leads(
            defs,
            guards,
            local,
            r.0,
        ),
    decreases defs.dom().difference(visiting).len(), list_at(defs, local).len() - i,
{
    if i < list_at(defs, local).len() {
        match list_at(defs, local)[i as int] {
            DefSource::LockAcquire { local: receiver, .. } => {
                assert(ends_at(defs, guards, local, receiver));
                assert(is_chain(defs, guards, seq![local], receiver));
                assert(seq![local][0] == local);
            },
            DefSource::Borrow { base, .. } => {
                if !guards.contains(base) {
                    assert(ends_at(defs, guards, local, base));
                    assert(is_chain(defs, guards, seq![local], base));
                    assert(seq![local][0] == local);
                } else {
                    resolved_has_chain(defs, guards, local, i + 1, visiting);
                    if !visiting.contains(base) && defs.contains_key(base) {
                        visiting_shrinks(defs.dom(), visiting, base);
                        resolved_has_chain(defs, guards, base, 0, visiting.insert(base));
                        assert(leads_to(defs, guards, local, base));
                        if let Some(r) = resolved_from(defs, guards, base, 0, visiting.insert(base)) {
                            chain_extends(defs, guards, local, base, r.0);
                        }
                    }
                }
            },
            DefSource::Forward { local: src, .. } => {
                resolved_has_chain(defs, guards, local, i + 1, visiting);
                if !visiting.contains(src) && defs.contains_key(src) {
                    visiting_shrinks(defs.dom(), visiting, src);
                    resolved_has_chain(defs, guards, src, 0, visiting.insert(src));
                    assert(leads_to(defs, guards, local, src));
                    if let Some(r) = resolved_from(defs, guards, src, 0, visiting.insert(src)) {
                        chain_extends(defs, guards, local, src, r.0);
                    }
                }
            },
        }
    }
}

/// A chain with one more step in front.
proof fn chain_extends<'b>(
    defs: Map<Local, Seq<DefSource<'b>>>,
    guards: Set<Local>,
    a: Local,
    b: Local,
    r: Local,
)
    requires
        chain_leads(defs, guards, b, r),
        leads_to(defs, guards, a, b),
    ensures
        chain_leads(defs, guards, a, r),
{
    let rest = choose|chain: Seq<Local>| #[trigger]
        is_chain(defs, guards, chain, r) && chain[0] == b;
    let chain = seq![a] + rest;
    assert forall|k: int| 0 <= k < chain.len() - 1 implies leads_to(
        defs,
        guards,
        #[trigger] chain[k],
        chain[k + 1],
    ) by {
        if k > 0 {
            assert(chain[k] == rest[k - 1]);
            assert(chain[k + 1] == rest[k - 1 + 1]);
        }
    }
    assert(chain.last() == rest.last());
    assert(is_chain(defs, guards, chain, r));
    assert(chain[0] == a);
}

/// The search finds a receiver where an open chain leads to one.
proof fn open_chain_resolves<'b>(
    defs: Map<Local, Seq<DefSource<'b>>>,
    guards: Set<Local>,
    chain: Seq<Local>,
    r: Local,
    i: nat,
    visiting: Set<Local>,
)
    requires
        defs.dom().finite(),
        is_chain(defs, guards, chain, r),
        is_open_chain(chain, visiting),
        chain.len() == 1 ==> exists|k: int|
            i <= k < list_at(defs, chain[0]).len() && (match #[trigger] list_at(
                defs,
                chain[0],
            )[k] {
                DefSource::LockAcquire { local, .. } => local == r,
                DefSource::Borrow { base, .. } => base == r && !guards.contains(base),
                DefSource::Forward { .. } => false,
            }),
        chain.len() > 1 ==> exists|k: int|
            i <= k < list_at(defs, chain[0]).len() && (match #[trigger] list_at(
                defs,
                chain[0],
            )[k] {
                DefSource::Forward { local, .. } => local == chain[1],
                DefSource::Borrow { base, .. } => base == chain[1] && guards.contains(base),
                DefSource::LockAcquire { .. } => false,
            }),
    ensures
        resolved_from(defs, guards, chain[0], i, visiting) is Some,
    decreases chain.len(), list_at(defs, chain[0]).len() - i,
{
    let local = chain[0];
    let here = list_at(defs, local)[i as int];
    if chain.len() > 1 {
        let next = chain[1];
        let rest = chain.drop_first();
        let hit = match here {
            DefSource::Forward { local: l, .. } => l == next,
            DefSource::Borrow { base, .. } => base == next && guards.contains(base),
            DefSource::LockAcquire { .. } => false,
        };
        if hit {
            assert(list_at(defs, next).len() > 0) by {
                if chain.len() == 2 {
                    assert(ends_at(defs, guards, next, r));
                } else {
                    assert(leads_to(defs, guards, chain[1], chain[2]));
                }
            }
            assert(!visiting.contains(chain[1]));
            assert forall|k: int| 0 <= k < rest.len() - 1 implies leads_to(
                defs,
                guards,
                #[trigger] rest[k],
                rest[k + 1],
            ) by {
                assert(rest[k] == chain[k + 1]);
            }
            assert(is_chain(defs, guards, rest, r));
            assert(is_open_chain(rest, visiting.insert(next))) by {
                assert forall|j: int| 1 <= j < rest.len() implies !visiting.insert(next).contains(
                    #[trigger] rest[j],
                ) by {
                    assert(rest[j] == chain[j + 1]);
                    assert(chain[1] != chain[j + 1]);
                }
            }
            if rest.len() == 1 {
                assert(ends_at(defs, guards, rest[0], r));
            } else {
                assert(leads_to(defs, guards, rest[0], rest[1]));
            }
            open_chain_resolves(defs, guards, rest, r, 0, visiting.insert(next));
        } else {
            open_chain_resolves(defs, guards, chain, r, i + 1, visiting);
        }
    } else {
        let hit = match here {
            DefSource::LockAcquire { local: l, .. } => l == r,
            DefSource::Borrow { base, .. } => base == r && !guards.contains(base),
            DefSource::Forward { .. } => false,
        };
        if !hit {
            open_chain_resolves(defs, guards, chain, r, i + 1, visiting);
        }
    }
}

/// Every chain can be shortened to one that does not repeat a local after its
/// first.
proof fn open_chain_exists<'b>(
    defs: Map<Local, Seq<DefSource<'b>>>,
    guards: Set<Local>,
    chain: Seq<Local>,
    r: Local,
) -> (open: Seq<Local>)
    requires
        is_chain(defs, guards, chain, r),
    ensures
        is_chain(defs, guards, open, r),
        open[0] == chain[0],
        is_open_chain(open, Set::empty()),
    decreases chain.len(),
{
    if is_open_chain(chain, Set::empty()) {
        chain
    } else {
        let (j, k) = choose|j: int, k: int| 1 <= j < k < chain.len() && chain[j] == chain[k];
        let shorter = chain.take(j) + chain.skip(k);
        assert forall|m: int| 0 <= m < shorter.len() - 1 implies leads_to(
            defs,
            guards,
            #[trigger] shorter[m],
            shorter[m + 1],
        ) by {
            if m < j - 1 {
                assert(shorter[m] == chain[m] && shorter[m + 1] == chain[m + 1]);
            } else if m == j - 1 {
                assert(shorter[m] == chain[m]);
                assert(shorter[m + 1] == chain[k]);
                assert(chain[m + 1] == chain[k]);
            } else {
                assert(shorter[m] == chain[m - j + k]);
                assert(shorter[m + 1] == chain[m - j + k + 1]);
            }
        }
        assert(shorter.last() == chain.last());
        assert(shorter[0] == chain[0]);
        open_chain_exists(defs, guards, shorter, r)
    }
}

/// A guard's receiver is found exactly when some chain of definitions leads
/// from the guard to a receiver, loops or not, and a receiver that is found
/// lies at the end of such a chain.
pub proof fn guard_resolved_iff_some_chain<'b>(
    defs: Map<Local, Seq<DefSource<'b>>>,
    guards: Set<Local>,
    local: Local,
)
    requires
        defs.dom().finite(),
    ensures
        resolved_from(defs, guards, local, 0, Set::empty()) is Some <==> exists|r: Local|
            chain_leads(defs, guards, local, r),
        resolved_from(defs, guards, local, 0, Set::empty()) matches Some(found) ==> chain_leads(
            defs,
            guards,
            local,
            found.0,
        ),
{
    resolved_has_chain(defs, guards, local, 0, Set::empty());
    if exists|r: Local| chain_leads(defs, guards, local, r) {
        let r = choose|r: Local| chain_leads(defs, guards, local, r);
        let chain = choose|chain: Seq<Local>| #[trigger]
            is_chain(defs, guards, chain, r) && chain[0] == local;
        let open = open_chain_exists(defs, guards, chain, r);
        if open.len() == 1 {
            assert(ends_at(defs, guards, open[0], r));
        } else {
            assert(leads_to(defs, guards, open[0], open[1]));
        }
        open_chain_resolves(defs, guards, open, r, 0, Set::empty());
    }
}

/// A guard passed through a wait protects the same lock: where a local's only
/// definition forwards another local without a field step, both have the same
/// receiver.
pub proof fn forwarded_guard_keeps_its_lock<'b>(
    defs: Map<Local, Seq<DefSource<'b>>>,
    guards: Set<Local>,
    local: Local,
    src: Local,
    projection: &Vec<ProjectionElem>,
)
    requires
        defs.dom().finite(),
        defs.contains_key(src),
        list_at(defs, local) == seq![DefSource::Forward { local: src, projection }],
        first_field(projection@) is None,
    ensures
        resolved_from(defs, guards, local, 0, Set::empty()) == resolved_from(
            defs,
            guards,
            src,
            0,
            Set::empty().insert(src),
        ),
{
    reveal_with_fuel(resolved_from, 2);
}

} // verus!
