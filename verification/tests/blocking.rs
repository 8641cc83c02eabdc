use conc_bug_detector::concurrency::blocking::{
    BlockingCollector, CondVarId, DefSource, LockGuardId, LockGuardTy,
};
use conc_bug_detector::memory::pointsto::AliasId;
use conc_bug_detector::translate::mir::{
    Adt, BasicBlockData, Body, Callee, LocalDecl, Operand, Place, ProjectionElem, Rvalue,
    Statement, StatementKind, Terminator, TerminatorKind, Ty,
};

fn adt(path: &str, attrs: &[&str], args: &[&str]) -> Ty {
    Ty {
        text: path.to_string(),
        adt: Some(Adt {
            path: path.to_string(),
            attrs: attrs.iter().map(|a| a.to_string()).collect(),
            type_args: args.iter().map(|a| a.to_string()).collect(),
        }),
    }
}

fn plain() -> Ty {
    Ty { text: "usize".to_string(), adt: None }
}

fn guard() -> Ty {
    adt("std::sync::MutexGuard", &[], &["bool"])
}

fn place(local: usize, projection: &[ProjectionElem]) -> Place {
    Place { local, projection: projection.to_vec(), ty: plain() }
}

fn assign(local: usize, rvalue: Rvalue) -> Statement {
    Statement { kind: StatementKind::Assign(place(local, &[]), rvalue), poll: None }
}

fn other_callee() -> Callee {
    Callee {
        lock_acquire: false,
        wrapper_extract: false,
        arc_rc_deref: false,
        condvar_wait: false,
    }
}

fn call(callee: Callee, args: Vec<Place>, destination: Place) -> Option<Terminator> {
    Some(Terminator {
        kind: TerminatorKind::Call {
            callee: Some(callee),
            args: args.into_iter().map(Operand::Move).collect(),
            destination,
            return_to: None,
        },
        span: "lock.rs:9:9".to_string(),
    })
}

fn block(statements: Vec<Statement>, terminator: Option<Terminator>) -> BasicBlockData {
    BasicBlockData { statements, terminator, is_cleanup: false }
}

fn body(types: Vec<Ty>, basic_blocks: Vec<BasicBlockData>) -> Body {
    Body {
        local_decls: types
            .into_iter()
            .enumerate()
            .map(|(i, ty)| LocalDecl { ty, span: format!("lock.rs:{}:1", i) })
            .collect(),
        basic_blocks,
    }
}

fn lock() -> Callee {
    Callee { lock_acquire: true, ..other_callee() }
}

fn unwrap() -> Callee {
    Callee { wrapper_extract: true, ..other_callee() }
}

fn wait() -> Callee {
    Callee { condvar_wait: true, ..other_callee() }
}

#[test]
fn guards_are_recognized_by_attribute() {
    let ty = adt("my::Guard", &["pn_rwlock_write_guard"], &["u8"]);
    match LockGuardTy::from_local_ty(&ty) {
        Some(LockGuardTy::StdRwLockWrite(inner)) => assert_eq!(inner, "u8"),
        _ => panic!("not a write guard"),
    }
    // An attribute on a type without arguments falls back to the path.
    assert!(LockGuardTy::from_local_ty(&adt("my::Guard", &["pn_mutex_guard"], &[])).is_none());
}

#[test]
fn guards_are_recognized_by_path() {
    let kind = |path: &str| LockGuardTy::from_local_ty(&adt(path, &[], &["A", "B"]));
    assert!(matches!(kind("std::sync::MutexGuard"), Some(LockGuardTy::StdMutex(t)) if t == "A"));
    assert!(matches!(
        kind("lock_api::mutex::MutexGuard"),
        Some(LockGuardTy::ParkingLotMutex(t)) if t == "B"
    ));
    assert!(matches!(kind("spin::MutexGuard"), Some(LockGuardTy::SpinMutex(t)) if t == "A"));
    assert!(matches!(
        kind("std::sync::RwLockReadGuard"),
        Some(LockGuardTy::StdRwLockRead(t)) if t == "A"
    ));
    assert!(matches!(
        kind("parking_lot::RwLockWriteGuard"),
        Some(LockGuardTy::ParkingLotWrite(t)) if t == "B"
    ));
    assert!(matches!(kind("spin::RwLockReadGuard"), Some(LockGuardTy::SpinRead(_))));
    assert!(kind("tokio::sync::MutexGuard").is_none());
    assert!(kind("std::sync::Mutex").is_none());
    // What stands in the arguments does not count.
    assert!(kind("Wrapper<std::sync::MutexGuard>").is_none());
    assert!(LockGuardTy::from_local_ty(&plain()).is_none());
    // The library's guard has no second argument.
    let single = adt("parking_lot::MutexGuard", &[], &["A"]);
    assert!(LockGuardTy::from_local_ty(&single).is_none());
}

#[test]
fn a_guard_is_traced_to_the_locked_field() {
    // _4 = &((*_1).2); _2 = lock(_4); _3 = unwrap(_2)
    let b = body(
        vec![plain(), plain(), plain(), guard(), plain()],
        vec![
            block(
                vec![assign(
                    4,
                    Rvalue::Ref(place(1, &[ProjectionElem::Deref, ProjectionElem::Field(2)])),
                )],
                call(lock(), vec![place(4, &[])], place(2, &[])),
            ),
            block(Vec::new(), call(unwrap(), vec![place(2, &[])], place(3, &[]))),
        ],
    );
    let mut collector = BlockingCollector::new(7, &b);
    collector.analyze();
    let id = LockGuardId::new(7, 3);
    assert_eq!(collector.lockguards.entries.len(), 1);
    assert_eq!(collector.lockguards.get(&id).unwrap().span, "lock.rs:3:1");
    assert_eq!(
        collector.lock_objects.get(&id).copied(),
        Some(AliasId { instance_id: 7, local: 1, array_index: None, field: Some(2) })
    );
}

#[test]
fn a_guard_that_waits_keeps_its_lock() {
    // The guard of the loop comes back from the wait as well.
    let b = body(
        vec![plain(), plain(), plain(), guard(), plain(), plain()],
        vec![
            block(Vec::new(), call(lock(), vec![place(1, &[])], place(2, &[]))),
            block(Vec::new(), call(unwrap(), vec![place(5, &[])], place(3, &[]))),
            block(Vec::new(), call(unwrap(), vec![place(2, &[])], place(3, &[]))),
            block(
                Vec::new(),
                call(wait(), vec![place(4, &[]), place(3, &[])], place(5, &[])),
            ),
        ],
    );
    let mut collector = BlockingCollector::new(0, &b);
    collector.analyze();
    assert_eq!(
        collector.lock_objects.get(&LockGuardId::new(0, 3)).copied(),
        Some(AliasId::new(0, 1))
    );
}

#[test]
fn a_guard_without_a_known_lock_has_no_object() {
    let b = body(
        vec![plain(), guard()],
        vec![block(
            vec![assign(1, Rvalue::Use(Operand::Move(place(1, &[]))))],
            None,
        )],
    );
    let mut collector = BlockingCollector::new(0, &b);
    collector.analyze();
    assert!(collector.lockguards.contains_key(&LockGuardId::new(0, 1)));
    assert!(collector.lock_objects.entries.is_empty());
}

#[test]
fn guards_in_coroutine_state_are_kept_by_field() {
    let mut destination = place(
        6,
        &[ProjectionElem::Deref, ProjectionElem::Downcast(3), ProjectionElem::Field(1)],
    );
    destination.ty = adt("lock_api::MutexGuard", &[], &["R", "u32"]);
    let b = body(
        vec![plain(), plain()],
        vec![block(Vec::new(), call(lock(), vec![place(1, &[])], destination))],
    );
    let mut collector = BlockingCollector::new(2, &b);
    collector.analyze();
    let id = LockGuardId::with_field(2, 6, Some(1));
    assert!(matches!(
        &collector.lockguards.get(&id).unwrap().lockguard_ty,
        LockGuardTy::ParkingLotMutex(t) if t == "u32"
    ));
    assert_eq!(collector.lockguards.get(&id).unwrap().span, "lock.rs:9:9");
    assert_eq!(collector.lock_objects.get(&id).copied(), Some(AliasId::new(2, 1)));
    assert_eq!(
        id.get_alias_id(),
        AliasId { instance_id: 2, local: 6, array_index: None, field: Some(1) }
    );
}

#[test]
fn condition_variables_are_recognized() {
    let b = body(
        vec![
            plain(),
            adt("std::sync::Condvar", &[], &[]),
            adt("my::Cv", &["pn_condvar"], &[]),
            adt("my::std::sync::Condvar", &[], &[]),
        ],
        Vec::new(),
    );
    let mut collector = BlockingCollector::new(1, &b);
    collector.analyze();
    assert_eq!(collector.condvars.entries.len(), 2);
    assert_eq!(collector.condvars.get(&CondVarId::new(1, 1)).unwrap(), "lock.rs:1:1");
    assert_eq!(collector.condvars.get(&CondVarId::new(1, 2)).unwrap(), "lock.rs:2:1");
    assert_eq!(CondVarId::new(1, 2).get_alias_id(), AliasId::new(1, 2));
}

#[test]
fn sources_are_equal_whatever_their_projection() {
    let deref = vec![ProjectionElem::Deref];
    let none: Vec<ProjectionElem> = Vec::new();
    let a = DefSource::Forward { local: 1, projection: &deref };
    let b = DefSource::Forward { local: 1, projection: &none };
    assert!(a == b);
    assert_eq!(a.hash_key(), b.hash_key());
    let c = DefSource::LockAcquire { local: 1, field: None };
    let d = DefSource::Borrow { base: 1, field: None };
    assert!(c != d);
    assert!(a != c);
    assert_eq!(c.hash_key(), (1, 1, None));
    assert_eq!(d.hash_key(), (2, 1, None));
}
