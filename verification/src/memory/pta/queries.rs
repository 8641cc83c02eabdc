//! Questions about the points-to sets, over all contexts of a function.

use super::analysis::{PointerAnalysis, PtaView};
use super::constraint::ConstraintSet;
use super::ids::IdVec;
use super::loc::{
    place_in, place_in_facts, AbstractLoc, ArenaView, CiKey, FieldPath, LocArena, LocId, LocView,
    ProjElem, MAX_PATH_LEN,
};
use super::program::Program;
use super::result::{pointee_numbered, PointsToResult};
use crate::translate::mir::{InstanceId, Local};
use vstd::prelude::*;

verus! {

/// The location is the local itself, in some context.
pub open spec fn is_local(a: ArenaView, id: int, func: usize, local: Local) -> bool {
    match a.locs[id] {
        LocView::Var { ctx, func: f, base, path } => f == func && base == local && a.paths[path
            as int].len() == 0,
        _ => false,
    }
}

/// The locations of a local among the first `n`.
pub open spec fn local_ids(a: ArenaView, func: usize, local: Local, n: nat) -> Seq<LocId>
    decreases n,
{
    if n == 0 {
        Seq::empty()
    } else {
        let before = local_ids(a, func, local, (n - 1) as nat);
        if is_local(a, n - 1, func, local) {
            before.push((n - 1) as usize)
        } else {
            before
        }
    }
}

impl PtaView {
    /// The locations of a local, in all contexts.
    pub open spec fn nodes_of(self, instance: InstanceId, local: Local) -> Seq<LocId> {
        if self.funcs.contains(instance) {
            local_ids(
                self.facts.arena,
                place_in(self.funcs, instance) as usize,
                local,
                self.facts.arena.locs.len(),
            )
        } else {
            Seq::empty()
        }
    }

    /// The location is one of the local.
    pub open spec fn is_node(self, id: LocId, instance: InstanceId, local: Local) -> bool {
        self.funcs.contains(instance) && id < self.facts.arena.locs.len() && is_local(
            self.facts.arena,
            id as int,
            place_in(self.funcs, instance) as usize,
            local,
        )
    }

    /// A location without its context.
    pub open spec fn key(self, id: LocId) -> CiKey {
        self.facts.arena.locs[id as int].ci_key()
    }

    /// Some location of the local points to a location with the key.
    pub open spec fn points_to_key(
        self,
        result: PointsToResult,
        instance: InstanceId,
        local: Local,
        key: CiKey,
    ) -> bool {
        exists|id: LocId, p: LocId| #[trigger]
            self.is_node(id, instance, local) && #[trigger] result.holds(id, p) && self.key(p)
                == key
    }

    /// The location is the part of another at a field path, and not too deep.
    pub open spec fn is_part(self, part: LocId, whole: LocId, path: Seq<ProjElem>) -> bool {
        let a = self.facts.arena;
        &&& part < a.locs.len()
        &&& a.locs[part as int] == a.locs[whole as int].with_path(a.locs[part as int].path())
        &&& a.paths[a.locs[part as int].path() as int] == a.paths[a.locs[whole as int].path()
            as int] + path
        &&& a.paths[a.locs[part as int].path() as int].len() <= MAX_PATH_LEN
    }

    /// The part of a location at a field points to a location with the key.
    pub open spec fn part_points_to_key(
        self,
        result: PointsToResult,
        whole: LocId,
        field: u32,
        key: CiKey,
    ) -> bool {
        exists|part: LocId, p: LocId| #[trigger]
            self.is_part(part, whole, seq![ProjElem::Field(field)]) && #[trigger] result.holds(
                part,
                p,
            ) && self.key(p) == key
    }

    /// The key is one that a receiver stands for: a location of the local, what
    /// such a location points to, or what the field of either points to.
    pub open spec fn receiver_key(
        self,
        result: PointsToResult,
        instance: InstanceId,
        local: Local,
        field: Option<u32>,
        key: CiKey,
    ) -> bool {
        ||| exists|id: LocId| #[trigger] self.is_node(id, instance, local) && self.key(id) == key
        ||| self.points_to_key(result, instance, local, key)
        ||| (field matches Some(f) && exists|id: LocId| #[trigger]
            self.is_node(id, instance, local) && self.part_points_to_key(result, id, f, key))
        ||| (field matches Some(f) && exists|id: LocId, whole: LocId| #[trigger]
            self.is_node(id, instance, local) && #[trigger] result.holds(id, whole)
                && self.part_points_to_key(result, whole, f, key))
    }
}

proof fn local_ids_facts(a: ArenaView, func: usize, local: Local, n: nat)
    requires
        n <= a.locs.len() <= usize::MAX,
    ensures
        forall|id: LocId| #[trigger]
            local_ids(a, func, local, n).contains(id) <==> id < n && is_local(
                a,
                id as int,
                func,
                local,
            ),
    decreases n,
{
    if n > 0 {
        let m = (n - 1) as nat;
        local_ids_facts(a, func, local, m);
        let before = local_ids(a, func, local, m);
        let all = local_ids(a, func, local, n);
        assert forall|id: LocId| #[trigger] all.contains(id) <==> id < n && is_local(
            a,
            id as int,
            func,
            local,
        ) by {
            if all.contains(id) {
                let i = choose|i: int| 0 <= i < all.len() && all[i] == id;
                if i < before.len() {
                    assert(before[i] == id);
                    assert(before.contains(id));
                }
            }
            if id < n && is_local(a, id as int, func, local) {
                if id < m {
                    assert(before.contains(id));
                    let i = choose|i: int| 0 <= i < before.len() && before[i] == id;
                    assert(all[i] == id);
                } else {
                    assert(all[before.len() as int] == id);
                }
            }
        }
    }
}

/// Whether a key is in the list.
fn has_key(keys: &Vec<CiKey>, key: CiKey) -> (b: bool)
    ensures
        b == keys@.contains(key),
{
    let mut i: usize = 0;
    while i < keys.len()
        invariant
            i <= keys@.len(),
            forall|j: int| 0 <= j < i ==> keys@[j] != key,
        decreases keys@.len() - i,
    {
        if keys[i] == key {
            return true;
        }
        i = i + 1;
    }
    false
}

/// Puts a key into the list, unless it is there.
fn put_key(keys: &mut Vec<CiKey>, key: CiKey)
    ensures
        forall|k: CiKey| #[trigger] final(keys)@.contains(k) <==> k == key || old(keys)@.contains(k),
{
    if !has_key(keys, key) {
        let ghost before = keys@;
        keys.push(key);
        proof {
            assert forall|k: CiKey| #[trigger] keys@.contains(k) <==> k == key || before.contains(
                k,
            ) by {
                if keys@.contains(k) {
                    let i = choose|i: int| 0 <= i < keys@.len() && keys@[i] == k;
                    if i < before.len() {
                        assert(before[i] == k);
                    }
                }
                if before.contains(k) {
                    let i = choose|i: int| 0 <= i < before.len() && before[i] == k;
                    assert(keys@[i] == k);
                }
                assert(keys@[before.len() as int] == key);
            }
        }
    }
}

/// Whether two lists share a key.
fn share_key(a: &Vec<CiKey>, b: &Vec<CiKey>) -> (r: bool)
    ensures
        r == exists|k: CiKey| #[trigger] a@.contains(k) && b@.contains(k),
{
    let mut i: usize = 0;
    while i < a.len()
        invariant
            i <= a@.len(),
            forall|j: int| 0 <= j < i ==> !b@.contains(#[trigger] a@[j]),
        decreases a@.len() - i,
    {
        if has_key(b, a[i]) {
            assert(a@.contains(a@[i as int]));
            return true;
        }
        i = i + 1;
    }
    proof {
        assert forall|k: CiKey| #[trigger] a@.contains(k) implies !b@.contains(k) by {
            let j = choose|j: int| 0 <= j < a@.len() && a@[j] == k;
            assert(!b@.contains(a@[j]));
        }
    }
    false
}

impl<'p> PointerAnalysis<'p> {
    /// The number of a function, where it has one.
    pub fn func_id(&self, instance: InstanceId) -> (r: Option<usize>)
        ensures
            r == if self@.funcs.contains(instance) {
                Some(place_in(self@.funcs, instance) as usize)
            } else {
                None
            },
    {
        self.funcs.get_id(instance)
    }

    /// Whether a location is the local itself, in some context.
    fn location_is_local(&self, id: LocId, func: usize, local: Local) -> (b: bool)
        requires
            self.wf(),
            id < self@.facts.arena.locs.len(),
        ensures
            b == is_local(self@.facts.arena, id as int, func, local),
    {
        proof {
            assert(self@.facts.arena.locs[id as int].path() < self@.facts.arena.paths.len());
        }
        match self.facts.arena.loc(id) {
            AbstractLoc::Var { ctx: _, func: f, base, path } => *f == func && *base == local
                && self.facts.arena.path(*path).len() == 0,
            _ => false,
        }
    }

    /// The locations of a local, in all contexts. Local `0` is the return
    /// place, and the parameters come next.
    pub fn var_nodes(&self, instance: InstanceId, local: Local) -> (r: IdVec)
        requires
            self.wf(),
        ensures
            r@ == self@.nodes_of(instance, local),
    {
        let mut out = IdVec::new();
        match self.funcs.get_id(instance) {
            Some(func) => {
                let n = self.facts.arena.loc_count();
                let ghost a = self@.facts.arena;
                let mut id: usize = 0;
                while id < n
                    invariant
                        self.wf(),
                        a == self@.facts.arena,
                        n == a.locs.len(),
                        id <= n,
                        out@ == local_ids(a, func, local, id as nat),
                    decreases n - id,
                {
                    if self.location_is_local(id, func, local) {
                        out.push(id);
                    }
                    id = id + 1;
                }
            },
            None => {},
        }
        out
    }

    /// The locations that a local points to, in all contexts, without their
    /// contexts.
    pub fn collapsed_points_to(
        &self,
        result: &PointsToResult,
        instance: InstanceId,
        local: Local,
    ) -> (r: Vec<CiKey>)
        requires
            self.wf(),
            result.fits(self@.facts.arena),
        ensures
            forall|key: CiKey| #[trigger]
                r@.contains(key) <==> self@.points_to_key(*result, instance, local, key),
    {
        let nodes = self.var_nodes(instance, local).to_vec();
        let mut keys: Vec<CiKey> = Vec::new();
        let count = self.facts.arena.loc_count();
        proof {
            nodes_are_locals(self@, instance, local, count);
        }
        let mut i: usize = 0;
        while i < nodes.len()
            invariant
                self.wf(),
                result.fits(self@.facts.arena),
                i <= nodes@.len(),
                forall|key: CiKey| #[trigger]
                    keys@.contains(key) <==> pointed_from(self@, *result, nodes@, i as int, key),
            decreases nodes@.len() - i,
        {
            let pointees = result.points_to(nodes[i]);
            let ghost begun = keys@;
            let mut j: usize = 0;
            while j < pointees.len()
                invariant
                    self.wf(),
                    result.fits(self@.facts.arena),
                    i < nodes@.len(),
                    j <= pointees@.len(),
                    pointees@ == result.pointees(nodes@[i as int]),
                    forall|key: CiKey| #[trigger]
                        keys@.contains(key) <==> begun.contains(key) || key_among(
                            self@,
                            pointees@.take(j as int),
                            key,
                        ),
                decreases pointees@.len() - j,
            {
                proof {
                    pointee_numbered(*result, self@.facts.arena, nodes@[i as int], j as int);
                    key_among_push(self@, pointees@, j as int);
                }
                put_key(&mut keys, self.facts.arena.ci_key(pointees[j]));
                j = j + 1;
            }
            proof {
                assert(pointees@.take(j as int) =~= pointees@);
                assert forall|key: CiKey| #[trigger] keys@.contains(key) <==> pointed_from(
                    self@,
                    *result,
                    nodes@,
                    i + 1,
                    key,
                ) by {
                    assert(begun.contains(key) <==> pointed_from(
                        self@,
                        *result,
                        nodes@,
                        i as int,
                        key,
                    ));
                    pointed_from_next(self@, *result, nodes@, i as int, key);
                }
            }
            i = i + 1;
        }
        proof {
            assert forall|key: CiKey| #[trigger] keys@.contains(key) <==> self@.points_to_key(
                *result,
                instance,
                local,
                key,
            ) by {
                pointed_from_all(self@, *result, instance, local, nodes@, key);
            }
        }
        keys
    }

    /// Whether two locals may point to the same location.
    pub fn collapsed_may_alias(
        &self,
        result: &PointsToResult,
        a: InstanceId,
        a_local: Local,
        b: InstanceId,
        b_local: Local,
    ) -> (r: bool)
        requires
            self.wf(),
            result.fits(self@.facts.arena),
        ensures
            r == exists|key: CiKey| #[trigger]
                self@.points_to_key(*result, a, a_local, key) && self@.points_to_key(
                    *result,
                    b,
                    b_local,
                    key,
                ),
    {
        let sa = self.collapsed_points_to(result, a, a_local);
        let sb = self.collapsed_points_to(result, b, b_local);
        proof {
            if exists|k: CiKey| #[trigger] sa@.contains(k) && sb@.contains(k) {
                let k = choose|k: CiKey| #[trigger] sa@.contains(k) && sb@.contains(k);
                assert(self@.points_to_key(*result, a, a_local, k));
            }
            if exists|key: CiKey| #[trigger]
                self@.points_to_key(*result, a, a_local, key) && self@.points_to_key(
                    *result,
                    b,
                    b_local,
                    key,
                ) {
                let key = choose|key: CiKey| #[trigger]
                    self@.points_to_key(*result, a, a_local, key) && self@.points_to_key(
                        *result,
                        b,
                        b_local,
                        key,
                    );
                assert(sa@.contains(key));
            }
        }
        share_key(&sa, &sb)
    }
}

/// The key is that of one of the locations.
pub open spec fn key_among(v: PtaView, ids: Seq<LocId>, key: CiKey) -> bool {
    exists|j: int| 0 <= j < ids.len() && v.key(#[trigger] ids[j]) == key
}

/// The key is that of a location that one of the first `n` nodes points to.
pub open spec fn pointed_from(
    v: PtaView,
    result: PointsToResult,
    nodes: Seq<LocId>,
    n: int,
    key: CiKey,
) -> bool {
    exists|i: int| 0 <= i < n && #[trigger] key_among(v, result.pointees(nodes[i]), key)
}

proof fn key_among_push(v: PtaView, ids: Seq<LocId>, j: int)
    requires
        0 <= j < ids.len(),
    ensures
        forall|key: CiKey| #[trigger]
            key_among(v, ids.take(j + 1), key) <==> key_among(v, ids.take(j), key) || v.key(ids[j])
                == key,
{
    let a = ids.take(j);
    let b = ids.take(j + 1);
    assert forall|key: CiKey| #[trigger] key_among(v, b, key) <==> key_among(v, a, key) || v.key(
        ids[j],
    ) == key by {
        if key_among(v, b, key) {
            let i = choose|i: int| 0 <= i < b.len() && v.key(#[trigger] b[i]) == key;
            if i < j {
                assert(a[i] == b[i]);
            }
        }
        if key_among(v, a, key) {
            let i = choose|i: int| 0 <= i < a.len() && v.key(#[trigger] a[i]) == key;
            assert(b[i] == a[i]);
        }
        assert(b[j] == ids[j]);
    }
}

proof fn pointed_from_next(
    v: PtaView,
    result: PointsToResult,
    nodes: Seq<LocId>,
    n: int,
    key: CiKey,
)
    requires
        0 <= n < nodes.len(),
    ensures
        pointed_from(v, result, nodes, n + 1, key) <==> pointed_from(v, result, nodes, n, key)
            || key_among(v, result.pointees(nodes[n]), key),
{
    if pointed_from(v, result, nodes, n + 1, key) {
        let i = choose|i: int|
            0 <= i < n + 1 && #[trigger] key_among(v, result.pointees(nodes[i]), key);
        if i < n {
            assert(key_among(v, result.pointees(nodes[i]), key));
        }
    }
}

/// The listed locations of a local are its locations.
proof fn nodes_are_locals(v: PtaView, instance: InstanceId, local: Local, count: usize)
    requires
        count == v.facts.arena.locs.len(),
    ensures
        forall|id: LocId| #[trigger]
            v.nodes_of(instance, local).contains(id) <==> v.is_node(id, instance, local),
{
    if v.funcs.contains(instance) {
        local_ids_facts(
            v.facts.arena,
            place_in(v.funcs, instance) as usize,
            local,
            v.facts.arena.locs.len(),
        );
    }
    assert forall|id: LocId| #[trigger] v.nodes_of(instance, local).contains(id) <==> v.is_node(
        id,
        instance,
        local,
    ) by {
    }
}

proof fn pointed_from_all(
    v: PtaView,
    result: PointsToResult,
    instance: InstanceId,
    local: Local,
    nodes: Seq<LocId>,
    key: CiKey,
)
    requires
        forall|id: LocId| #[trigger] nodes.contains(id) <==> v.is_node(id, instance, local),
    ensures
        pointed_from(v, result, nodes, nodes.len() as int, key) <==> v.points_to_key(
            result,
            instance,
            local,
            key,
        ),
{
    if pointed_from(v, result, nodes, nodes.len() as int, key) {
        let i = choose|i: int|
            0 <= i < nodes.len() && #[trigger] key_among(v, result.pointees(nodes[i]), key);
        let ids = result.pointees(nodes[i]);
        let j = choose|j: int| 0 <= j < ids.len() && v.key(#[trigger] ids[j]) == key;
        assert(nodes.contains(nodes[i]));
        assert(v.is_node(nodes[i], instance, local));
        assert(result.holds(nodes[i], ids[j]));
    }
    if v.points_to_key(result, instance, local, key) {
        let (id, p) = choose|id: LocId, p: LocId| #[trigger]
            v.is_node(id, instance, local) && #[trigger] result.holds(id, p) && v.key(p) == key;
        assert(nodes.contains(id));
        let i = choose|i: int| 0 <= i < nodes.len() && nodes[i] == id;
        let ids = result.pointees(nodes[i]);
        let j = choose|j: int| 0 <= j < ids.len() && ids[j] == p;
        assert(v.key(ids[j]) == key);
        assert(key_among(v, result.pointees(nodes[i]), key));
    }
}

/// A part that is numbered is what projecting gives, whatever else is numbered
/// by then.
proof fn part_is_projection(
    v: PtaView,
    now: ArenaView,
    whole: LocId,
    suffix: FieldPath,
    path: Seq<ProjElem>,
    part: LocId,
)
    requires
        v.facts.arena.wf(),
        now.wf(),
        v.facts.arena.extends_to(now),
        whole < v.facts.arena.locs.len(),
        suffix < now.paths.len(),
        now.paths[suffix as int] == path,
        now.locs.len() <= usize::MAX,
        now.paths.len() <= usize::MAX,
        v.is_part(part, whole, path),
    ensures
        now.project(whole, suffix) == Some(part),
{
    let a = v.facts.arena;
    let loc = a.locs[part as int];
    let joined = a.paths[a.locs[whole as int].path() as int] + path;
    assert(now.locs[whole as int] == a.locs[whole as int]);
    assert(now.locs[part as int] == loc);
    let old_path = a.locs[whole as int].path();
    assert(now.paths[old_path as int] == a.paths[old_path as int]);
    assert(now.projected_path(whole, suffix) == joined);
    let id = loc.path();
    assert(now.paths[id as int] == a.paths[id as int]);
    assert(now.paths[id as int] == joined);
    place_in_facts(now.paths, joined);
    assert(now.paths.contains(joined));
    let m = place_in(now.paths, joined) as int;
    assert(now.paths[m] == joined);
    if m != id {
        assert(now.paths[m] != now.paths[id as int]);
    }
    assert(now.path_id(joined) == id);
    assert(now.projection(whole, suffix) == loc);
    place_in_facts(now.locs, loc);
    assert(now.locs.contains(loc));
    let q = place_in(now.locs, loc) as int;
    assert(now.locs[q] == loc);
    if q != part {
        assert(now.locs[q] != now.locs[part as int]);
    }
}

/// What projecting gives is the part, where it was numbered before.
proof fn projection_is_part(
    v: PtaView,
    now: ArenaView,
    whole: LocId,
    suffix: FieldPath,
    path: Seq<ProjElem>,
    q: LocId,
)
    requires
        v.facts.arena.wf(),
        now.wf(),
        v.facts.arena.extends_to(now),
        whole < v.facts.arena.locs.len(),
        suffix < now.paths.len(),
        now.paths[suffix as int] == path,
        now.paths.len() <= usize::MAX,
        now.project(whole, suffix) == Some(q),
        q < v.facts.arena.locs.len(),
        now.locs[q as int] == now.projection(whole, suffix),
    ensures
        v.is_part(q, whole, path),
{
    let a = v.facts.arena;
    assert(now.locs[whole as int] == a.locs[whole as int]);
    assert(now.locs[q as int] == a.locs[q as int]);
    let old_path = a.locs[whole as int].path();
    assert(now.paths[old_path as int] == a.paths[old_path as int]);
    let joined = now.projected_path(whole, suffix);
    let id = now.path_id(joined);
    assert(a.locs[q as int].path() == id);
    assert(id < a.paths.len());
    assert(now.paths[id as int] == a.paths[id as int]);
    place_in_facts(now.paths, joined);
    assert(place_in(now.paths, joined) as int == id) by {
        assert(place_in(now.paths, joined) <= now.paths.len());
    }
    assert(now.paths[id as int] == joined);
}

/// The locations that were added are parts of others.
pub open spec fn only_parts_added(a: ArenaView, b: ArenaView) -> bool {
    forall|i: int|
        a.locs.len() <= i < b.locs.len() ==> b.paths[(#[trigger] b.locs[i]).path() as int].len() > 0
}

/// The key is what the field of one of the first `n` locations points to.
pub open spec fn part_from(
    v: PtaView,
    result: PointsToResult,
    wholes: Seq<LocId>,
    n: int,
    field: u32,
    key: CiKey,
) -> bool {
    exists|i: int| 0 <= i < n && #[trigger] v.part_points_to_key(result, wholes[i], field, key)
}

impl<'p> PointerAnalysis<'p> {
    /// Adds what the field of a location points to.
    fn add_part_keys(
        &mut self,
        result: &PointsToResult,
        whole: LocId,
        suffix: FieldPath,
        keys: &mut Vec<CiKey>,
        Ghost(v): Ghost<PtaView>,
        Ghost(field): Ghost<u32>,
    )
        requires
            old(self).wf(),
            v.facts.arena.wf(),
            result.fits(v.facts.arena),
            v.facts.arena.extends_to(old(self)@.facts.arena),
            whole < v.facts.arena.locs.len(),
            suffix < old(self)@.facts.arena.paths.len(),
            old(self)@.facts.arena.paths[suffix as int] == seq![ProjElem::Field(field)],
        ensures
            final(self).wf(),
            final(self).kept(old(self)),
            final(self).same_but_names(old(self)),
            forall|key: CiKey| #[trigger]
                final(keys)@.contains(key) <==> old(keys)@.contains(key) || v.part_points_to_key(
                    *result,
                    whole,
                    field,
                    key,
                ),
    {
        let ghost now = self@.facts.arena;
        let ghost path = seq![ProjElem::Field(field)];
        let ghost begun = keys@;
        let n: usize = self.facts.arena.locs.len();
        let part = self.facts.name_part(whole, suffix);
        let paths: usize = self.facts.arena.paths.len();
        proof {
            assert(self@.facts.arena.paths.len() == paths);
            projection_adds_part(now, whole, suffix, self@.facts.arena);
        }
        match part {
            Some(q) => {
                let pointees = result.points_to(q);
                let mut j: usize = 0;
                while j < pointees.len()
                    invariant
                        self.wf(),
                        self.kept(old(self)),
                        self.same_but_names(old(self)),
                        result.fits(v.facts.arena),
                        v.facts.arena.extends_to(self@.facts.arena),
                        j <= pointees@.len(),
                        pointees@ == result.pointees(q),
                        forall|key: CiKey| #[trigger]
                            keys@.contains(key) <==> begun.contains(key) || key_among(
                                v,
                                pointees@.take(j as int),
                                key,
                            ),
                    decreases pointees@.len() - j,
                {
                    proof {
                        pointee_numbered(*result, v.facts.arena, q, j as int);
                        key_among_push(v, pointees@, j as int);
                        assert(self@.facts.arena.locs[pointees@[j as int] as int]
                            == v.facts.arena.locs[pointees@[j as int] as int]);
                    }
                    put_key(keys, self.facts.arena.ci_key(pointees[j]));
                    j = j + 1;
                }
                proof {
                    assert(pointees@.take(j as int) =~= pointees@);
                    assert forall|key: CiKey| #[trigger] keys@.contains(key) <==> begun.contains(
                        key,
                    ) || v.part_points_to_key(*result, whole, field, key) by {
                        if key_among(v, pointees@, key) {
                            let i = choose|i: int|
                                0 <= i < pointees@.len() && v.key(#[trigger] pointees@[i]) == key;
                            pointee_numbered(*result, v.facts.arena, q, i);
                            assert(now.locs.len() == n);
                            place_in_facts(now.locs, now.projection(whole, suffix));
                            projection_is_part(v, now, whole, suffix, path, q);
                            assert(result.holds(q, pointees@[i]));
                        }
                        if v.part_points_to_key(*result, whole, field, key) {
                            let (part, p) = choose|part: LocId, p: LocId| #[trigger]
                                v.is_part(part, whole, path) && #[trigger] result.holds(part, p)
                                    && v.key(p) == key;
                            part_is_projection(v, now, whole, suffix, path, part);
                            assert(part == q);
                            let i = choose|i: int|
                                0 <= i < pointees@.len() && pointees@[i] == p;
                            assert(v.key(pointees@[i]) == key);
                        }
                    }
                }
            },
            None => {
                proof {
                    assert forall|key: CiKey| !v.part_points_to_key(*result, whole, field, key) by {
                        if v.part_points_to_key(*result, whole, field, key) {
                            let (part, p) = choose|part: LocId, p: LocId| #[trigger]
                                v.is_part(part, whole, path) && #[trigger] result.holds(part, p)
                                    && v.key(p) == key;
                            part_is_projection(v, now, whole, suffix, path, part);
                        }
                    }
                }
            },
        }
    }

    /// Nothing but the numbered locations and field paths has changed.
    pub open spec fn same_but_names(&self, before: &Self) -> bool {
        &&& self.funcs == before.funcs
        &&& self.temp_counter == before.temp_counter
        &&& self@.facts.constraints == before@.facts.constraints
        &&& only_parts_added(before@.facts.arena, self@.facts.arena)
    }

    /// Adds what the fields of locations point to.
    fn add_parts_keys(
        &mut self,
        result: &PointsToResult,
        wholes: &Vec<LocId>,
        suffix: FieldPath,
        keys: &mut Vec<CiKey>,
        Ghost(v): Ghost<PtaView>,
        Ghost(field): Ghost<u32>,
    )
        requires
            old(self).wf(),
            v.facts.arena.wf(),
            result.fits(v.facts.arena),
            v.facts.arena.extends_to(old(self)@.facts.arena),
            forall|i: int|
                0 <= i < wholes@.len() ==> #[trigger] wholes@[i] < v.facts.arena.locs.len(),
            suffix < old(self)@.facts.arena.paths.len(),
            old(self)@.facts.arena.paths[suffix as int] == seq![ProjElem::Field(field)],
        ensures
            final(self).wf(),
            final(self).kept(old(self)),
            final(self).same_but_names(old(self)),
            forall|key: CiKey| #[trigger]
                final(keys)@.contains(key) <==> old(keys)@.contains(key) || part_from(
                    v,
                    *result,
                    wholes@,
                    wholes@.len() as int,
                    field,
                    key,
                ),
    {
        let ghost begun = keys@;
        let mut i: usize = 0;
        while i < wholes.len()
            invariant
                i <= wholes@.len(),
                self.wf(),
                self.kept(old(self)),
                self.same_but_names(old(self)),
                v.facts.arena.wf(),
                result.fits(v.facts.arena),
                v.facts.arena.extends_to(old(self)@.facts.arena),
                forall|j: int|
                    0 <= j < wholes@.len() ==> #[trigger] wholes@[j] < v.facts.arena.locs.len(),
                suffix < old(self)@.facts.arena.paths.len(),
                old(self)@.facts.arena.paths[suffix as int] == seq![ProjElem::Field(field)],
                forall|key: CiKey| #[trigger]
                    keys@.contains(key) <==> begun.contains(key) || part_from(
                        v,
                        *result,
                        wholes@,
                        i as int,
                        field,
                        key,
                    ),
            decreases wholes@.len() - i,
        {
            let ghost before = keys@;
            proof {
                assert(wholes@[i as int] < v.facts.arena.locs.len());
                assert(self@.facts.arena.paths[suffix as int]
                    == old(self)@.facts.arena.paths[suffix as int]);
            }
            let ghost between = self@.facts.arena;
            self.add_part_keys(result, wholes[i], suffix, keys, Ghost(v), Ghost(field));
            proof {
                parts_added_twice(old(self)@.facts.arena, between, self@.facts.arena);
                assert forall|key: CiKey| #[trigger] keys@.contains(key) <==> begun.contains(key)
                    || part_from(v, *result, wholes@, i + 1, field, key) by {
                    assert(before.contains(key) <==> begun.contains(key) || part_from(
                        v,
                        *result,
                        wholes@,
                        i as int,
                        field,
                        key,
                    ));
                    if part_from(v, *result, wholes@, i + 1, field, key) {
                        let j = choose|j: int|
                            0 <= j < i + 1 && #[trigger] v.part_points_to_key(
                                *result,
                                wholes@[j],
                                field,
                                key,
                            );
                        if j < i {
                            assert(part_from(v, *result, wholes@, i as int, field, key));
                        }
                    }
                    if v.part_points_to_key(*result, wholes@[i as int], field, key) {
                        assert(part_from(v, *result, wholes@, i + 1, field, key));
                    }
                    if part_from(v, *result, wholes@, i as int, field, key) {
                        let j = choose|j: int|
                            0 <= j < i && #[trigger] v.part_points_to_key(
                                *result,
                                wholes@[j],
                                field,
                                key,
                            );
                        assert(part_from(v, *result, wholes@, i + 1, field, key));
                    }
                }
            }
            i = i + 1;
        }
    }

    /// The keys that a receiver stands for: the locations of the local, what
    /// they point to, and, where the receiver has a field, what that field of
    /// either points to. This covers receivers such as `&self.field` and the
    /// captured variables of a closure.
    pub fn collapsed_receiver_points_to(
        &mut self,
        result: &PointsToResult,
        instance: InstanceId,
        local: Local,
        field: Option<u32>,
    ) -> (r: Vec<CiKey>)
        requires
            old(self).wf(),
            result.fits(old(self)@.facts.arena),
        ensures
            final(self).wf(),
            final(self).kept(old(self)),
            final(self).same_but_names(old(self)),
            forall|key: CiKey| #[trigger]
                r@.contains(key) <==> old(self)@.receiver_key(
                    *result,
                    instance,
                    local,
                    field,
                    key,
                ),
    {
        let ghost v = self@;
        let mut keys = self.collapsed_points_to(result, instance, local);
        let nodes = self.var_nodes(instance, local).to_vec();
        let count = self.facts.arena.loc_count();
        proof {
            nodes_are_locals(v, instance, local, count);
        }
        let ghost pointed = keys@;
        let mut pointees: Vec<LocId> = Vec::new();
        let mut i: usize = 0;
        while i < nodes.len()
            invariant
                self.wf(),
                v == self@,
                self == old(self),
                result.fits(v.facts.arena),
                i <= nodes@.len(),
                forall|id: LocId| #[trigger]
                    nodes@.contains(id) <==> v.is_node(id, instance, local),
                forall|key: CiKey| #[trigger]
                    keys@.contains(key) <==> pointed.contains(key) || key_among(
                        v,
                        nodes@.take(i as int),
                        key,
                    ),
                forall|p: LocId| #[trigger]
                    pointees@.contains(p) <==> held_by(*result, nodes@, i as int, p),
            decreases nodes@.len() - i,
        {
            proof {
                assert(nodes@.contains(nodes@[i as int]));
                assert(v.is_node(nodes@[i as int], instance, local));
                key_among_push(v, nodes@, i as int);
            }
            put_key(&mut keys, self.facts.arena.ci_key(nodes[i]));
            let list = result.points_to(nodes[i]);
            let ghost before = pointees@;
            let mut j: usize = 0;
            while j < list.len()
                invariant
                    j <= list@.len(),
                    pointees@ == before + list@.take(j as int),
                decreases list@.len() - j,
            {
                pointees.push(list[j]);
                j = j + 1;
                proof {
                    assert(pointees@ =~= before + list@.take(j as int));
                }
            }
            proof {
                assert(list@.take(j as int) =~= list@);
                assert forall|p: LocId| #[trigger] pointees@.contains(p) <==> held_by(
                    *result,
                    nodes@,
                    i + 1,
                    p,
                ) by {
                    held_by_next(*result, nodes@, i as int, p);
                    assert(before.contains(p) <==> held_by(*result, nodes@, i as int, p));
                    appended_contains(before, list@, p);
                }
            }
            i = i + 1;
        }
        proof {
            assert(nodes@.take(i as int) =~= nodes@);
        }
        let ghost based = keys@;
        match field {
            Some(f) => {
                let mut path: Vec<ProjElem> = Vec::new();
                path.push(ProjElem::Field(f));
                proof {
                    assert(path@ =~= seq![ProjElem::Field(f)]);
                    assert forall|m: int| 0 <= m < nodes@.len() implies #[trigger] nodes@[m]
                        < v.facts.arena.locs.len() by {
                        assert(nodes@.contains(nodes@[m]));
                        assert(v.is_node(nodes@[m], instance, local));
                    }
                    assert forall|m: int| 0 <= m < pointees@.len() implies #[trigger] pointees@[m]
                        < v.facts.arena.locs.len() by {
                        assert(pointees@.contains(pointees@[m]));
                        let p = pointees@[m];
                        let q = choose|q: int|
                            0 <= q < nodes@.len() && #[trigger] result.holds(nodes@[q], p);
                        let list = result.pointees(nodes@[q]);
                        let j = choose|j: int| 0 <= j < list.len() && list[j] == p;
                        pointee_numbered(*result, v.facts.arena, nodes@[q], j);
                    }
                }
                let suffix = self.facts.name_path(&path);
                let ghost b = self@.facts.arena;
                self.add_parts_keys(result, &nodes, suffix, &mut keys, Ghost(v), Ghost(f));
                let ghost c = self@.facts.arena;
                proof {
                    assert(self@.facts.arena.paths[suffix as int] == seq![ProjElem::Field(f)]);
                    parts_added_twice(v.facts.arena, b, c);
                }
                self.add_parts_keys(result, &pointees, suffix, &mut keys, Ghost(v), Ghost(f));
                proof {
                    parts_added_twice(v.facts.arena, c, self@.facts.arena);
                }
            },
            None => {},
        }
        proof {
            assert forall|key: CiKey| #[trigger] keys@.contains(key) <==> v.receiver_key(
                *result,
                instance,
                local,
                field,
                key,
            ) by {
                assert(based.contains(key) <==> pointed.contains(key) || key_among(
                    v,
                    nodes@,
                    key,
                ));
                assert(pointed.contains(key) <==> v.points_to_key(*result, instance, local, key));
                receiver_keys(v, *result, instance, local, field, nodes@, pointees@, key);
            }
        }
        keys
    }

    /// Whether two receivers may stand for the same location.
    pub fn collapsed_may_alias_receiver(
        &mut self,
        result: &PointsToResult,
        a: InstanceId,
        a_local: Local,
        a_field: Option<u32>,
        b: InstanceId,
        b_local: Local,
        b_field: Option<u32>,
    ) -> (r: bool)
        requires
            old(self).wf(),
            result.fits(old(self)@.facts.arena),
        ensures
            final(self).wf(),
            final(self).kept(old(self)),
            final(self).same_but_names(old(self)),
            r == old(self)@.share_receiver(
                *result,
                a,
                a_local,
                a_field,
                b,
                b_local,
                b_field,
            ),
    {
        let ghost v = self@;
        let sa = self.collapsed_receiver_points_to(result, a, a_local, a_field);
        proof {
            fits_extend(*result, v.facts.arena, self@.facts.arena);
        }
        let ghost w = self@;
        let sb = self.collapsed_receiver_points_to(result, b, b_local, b_field);
        proof {
            parts_added_twice(v.facts.arena, w.facts.arena, self@.facts.arena);
            assert forall|key: CiKey| #[trigger] sb@.contains(key) <==> v.receiver_key(
                *result,
                b,
                b_local,
                b_field,
                key,
            ) by {
                receiver_same(v, w, *result, b, b_local, b_field, key);
            }
            if exists|k: CiKey| #[trigger] sa@.contains(k) && sb@.contains(k) {
                let k = choose|k: CiKey| #[trigger] sa@.contains(k) && sb@.contains(k);
                assert(v.receiver_key(*result, a, a_local, a_field, k));
            }
            if v.share_receiver(*result, a, a_local, a_field, b, b_local, b_field) {
                let k = choose|k: CiKey| #[trigger]
                    v.receiver_key(*result, a, a_local, a_field, k) && v.receiver_key(
                        *result,
                        b,
                        b_local,
                        b_field,
                        k,
                    );
                assert(sa@.contains(k));
            }
        }
        share_key(&sa, &sb)
    }
}

/// Projecting along a field adds a part, if anything.
proof fn projection_adds_part(a: ArenaView, whole: LocId, suffix: FieldPath, b: ArenaView)
    requires
        a.wf(),
        b == a.with_projection(whole, suffix),
        b.wf(),
        a.extends_to(b),
        suffix < a.paths.len(),
        a.paths[suffix as int].len() > 0,
        b.paths.len() <= usize::MAX,
    ensures
        only_parts_added(a, b),
{
    if a.can_project(whole, suffix) {
        let path = a.projected_path(whole, suffix);
        let loc = a.projection(whole, suffix);
        place_in_facts(a.paths, path);
        assert forall|i: int| a.locs.len() <= i < b.locs.len() implies b.paths[(
        #[trigger] b.locs[i]).path() as int].len() > 0 by {
            assert(b.locs[i] == loc);
            assert(b.paths[a.path_id(path) as int] == path);
        }
    }
}

/// Adding parts in two goes adds parts.
proof fn parts_added_twice(a: ArenaView, b: ArenaView, c: ArenaView)
    requires
        only_parts_added(a, b),
        only_parts_added(b, c),
        b.wf(),
        b.extends_to(c),
    ensures
        only_parts_added(a, c),
{
    assert forall|i: int| a.locs.len() <= i < c.locs.len() implies c.paths[(
    #[trigger] c.locs[i]).path() as int].len() > 0 by {
        if i < b.locs.len() {
            assert(c.locs[i] == b.locs[i]);
            assert(b.locs[i].path() < b.paths.len());
            assert(c.paths[b.locs[i].path() as int] == b.paths[b.locs[i].path() as int]);
        }
    }
}

impl PtaView {
    /// Two receivers stand for a common location.
    pub open spec fn share_receiver(
        self,
        result: PointsToResult,
        a: InstanceId,
        a_local: Local,
        a_field: Option<u32>,
        b: InstanceId,
        b_local: Local,
        b_field: Option<u32>,
    ) -> bool {
        exists|key: CiKey| #[trigger]
            self.receiver_key(result, a, a_local, a_field, key) && self.receiver_key(
                result,
                b,
                b_local,
                b_field,
                key,
            )
    }
}

/// A result fits an arena that numbers more.
pub proof fn fits_extend(result: PointsToResult, a: ArenaView, b: ArenaView)
    requires
        result.fits(a),
        a.extends_to(b),
    ensures
        result.fits(b),
{
    assert forall|i: int, j: int|
        #![trigger result.pts@[i]@[j]]
        0 <= i < result.pts@.len() && 0 <= j < result.pts@[i]@.len() implies result.pts@[i]@[j]
        < b.locs.len() by {
        assert(result.pts@[i]@[j] < a.locs.len());
    }
}

/// The keys found are those that the receiver stands for.
proof fn receiver_keys(
    v: PtaView,
    result: PointsToResult,
    instance: InstanceId,
    local: Local,
    field: Option<u32>,
    nodes: Seq<LocId>,
    pointees: Seq<LocId>,
    key: CiKey,
)
    requires
        forall|id: LocId| #[trigger] nodes.contains(id) <==> v.is_node(id, instance, local),
        forall|p: LocId| #[trigger]
            pointees.contains(p) <==> held_by(result, nodes, nodes.len() as int, p),
    ensures
        v.receiver_key(result, instance, local, field, key) <==> (v.points_to_key(
            result,
            instance,
            local,
            key,
        ) || key_among(v, nodes, key) || (field matches Some(f) && (part_from(
            v,
            result,
            nodes,
            nodes.len() as int,
            f,
            key,
        ) || part_from(v, result, pointees, pointees.len() as int, f, key)))),
{
    assert((exists|id: LocId| #[trigger] v.is_node(id, instance, local) && v.key(id) == key)
        <==> key_among(v, nodes, key)) by {
        if key_among(v, nodes, key) {
            let i = choose|i: int| 0 <= i < nodes.len() && v.key(#[trigger] nodes[i]) == key;
            assert(nodes.contains(nodes[i]));
            assert(v.is_node(nodes[i], instance, local));
        }
        if exists|id: LocId| #[trigger] v.is_node(id, instance, local) && v.key(id) == key {
            let id = choose|id: LocId| #[trigger]
                v.is_node(id, instance, local) && v.key(id) == key;
            assert(nodes.contains(id));
            let i = choose|i: int| 0 <= i < nodes.len() && nodes[i] == id;
            assert(v.key(nodes[i]) == key);
        }
    }
    match field {
        Some(f) => {
            assert((exists|id: LocId| #[trigger]
                v.is_node(id, instance, local) && v.part_points_to_key(result, id, f, key))
                <==> part_from(v, result, nodes, nodes.len() as int, f, key)) by {
                if part_from(v, result, nodes, nodes.len() as int, f, key) {
                    let i = choose|i: int|
                        0 <= i < nodes.len() && #[trigger] v.part_points_to_key(
                            result,
                            nodes[i],
                            f,
                            key,
                        );
                    assert(nodes.contains(nodes[i]));
                    assert(v.is_node(nodes[i], instance, local));
                }
                if exists|id: LocId| #[trigger]
                    v.is_node(id, instance, local) && v.part_points_to_key(result, id, f, key) {
                    let id = choose|id: LocId| #[trigger]
                        v.is_node(id, instance, local) && v.part_points_to_key(result, id, f, key);
                    assert(nodes.contains(id));
                    let i = choose|i: int| 0 <= i < nodes.len() && nodes[i] == id;
                    assert(v.part_points_to_key(result, nodes[i], f, key));
                }
            }
            assert((exists|id: LocId, whole: LocId| #[trigger]
                v.is_node(id, instance, local) && #[trigger] result.holds(id, whole)
                    && v.part_points_to_key(result, whole, f, key)) <==> part_from(
                v,
                result,
                pointees,
                pointees.len() as int,
                f,
                key,
            )) by {
                if part_from(v, result, pointees, pointees.len() as int, f, key) {
                    let i = choose|i: int|
                        0 <= i < pointees.len() && #[trigger] v.part_points_to_key(
                            result,
                            pointees[i],
                            f,
                            key,
                        );
                    let whole = pointees[i];
                    assert(pointees.contains(whole));
                    let j = choose|j: int|
                        0 <= j < nodes.len() && #[trigger] result.holds(nodes[j], whole);
                    assert(nodes.contains(nodes[j]));
                    assert(v.is_node(nodes[j], instance, local));
                }
                if exists|id: LocId, whole: LocId| #[trigger]
                    v.is_node(id, instance, local) && #[trigger] result.holds(id, whole)
                        && v.part_points_to_key(result, whole, f, key) {
                    let (id, whole) = choose|id: LocId, whole: LocId| #[trigger]
                        v.is_node(id, instance, local) && #[trigger] result.holds(id, whole)
                            && v.part_points_to_key(result, whole, f, key);
                    assert(nodes.contains(id));
                    let j = choose|j: int| 0 <= j < nodes.len() && nodes[j] == id;
                    assert(result.holds(nodes[j], whole));
                    assert(held_by(result, nodes, nodes.len() as int, whole));
                    assert(pointees.contains(whole));
                    let i = choose|i: int| 0 <= i < pointees.len() && pointees[i] == whole;
                    assert(v.part_points_to_key(result, pointees[i], f, key));
                }
            }
        },
        None => {},
    }
}

/// A pair of locations of which one holds the other is numbered.
proof fn holds_numbered(result: PointsToResult, a: ArenaView, id: LocId, p: LocId)
    requires
        result.fits(a),
        result.holds(id, p),
    ensures
        id < a.locs.len(),
        p < a.locs.len(),
{
    let list = result.pointees(id);
    let j = choose|j: int| 0 <= j < list.len() && list[j] == p;
    pointee_numbered(result, a, id, j);
}

/// A part of a location at the same field points to the same keys, whatever
/// was added.
proof fn part_key_same(v: PtaView, w: PtaView, result: PointsToResult, whole: LocId, f: u32, key: CiKey)
    requires
        v.facts.arena.wf(),
        result.fits(v.facts.arena),
        v.facts.arena.extends_to(w.facts.arena),
        whole < v.facts.arena.locs.len(),
    ensures
        v.part_points_to_key(result, whole, f, key) <==> w.part_points_to_key(
            result,
            whole,
            f,
            key,
        ),
{
    let a = v.facts.arena;
    let b = w.facts.arena;
    let path = seq![ProjElem::Field(f)];
    assert(b.locs[whole as int] == a.locs[whole as int]);
    let wp = a.locs[whole as int].path();
    assert(wp < a.paths.len());
    assert(b.paths[wp as int] == a.paths[wp as int]);
    if v.part_points_to_key(result, whole, f, key) {
        let (part, p) = choose|part: LocId, p: LocId| #[trigger]
            v.is_part(part, whole, path) && #[trigger] result.holds(part, p) && v.key(p) == key;
        holds_numbered(result, a, part, p);
        assert(b.locs[part as int] == a.locs[part as int]);
        assert(b.locs[p as int] == a.locs[p as int]);
        let pp = a.locs[part as int].path();
        assert(pp < a.paths.len());
        assert(b.paths[pp as int] == a.paths[pp as int]);
        assert(w.is_part(part, whole, path));
        assert(result.holds(part, p) && w.key(p) == key);
    }
    if w.part_points_to_key(result, whole, f, key) {
        let (part, p) = choose|part: LocId, p: LocId| #[trigger]
            w.is_part(part, whole, path) && #[trigger] result.holds(part, p) && w.key(p) == key;
        holds_numbered(result, a, part, p);
        assert(b.locs[part as int] == a.locs[part as int]);
        assert(b.locs[p as int] == a.locs[p as int]);
        let pp = a.locs[part as int].path();
        assert(pp < a.paths.len());
        assert(b.paths[pp as int] == a.paths[pp as int]);
        assert(v.is_part(part, whole, path));
        assert(result.holds(part, p) && v.key(p) == key);
    }
}

/// A local has the same locations, whatever parts were added.
proof fn nodes_same(v: PtaView, w: PtaView, id: LocId, instance: InstanceId, local: Local)
    requires
        v.facts.arena.wf(),
        v.facts.arena.extends_to(w.facts.arena),
        only_parts_added(v.facts.arena, w.facts.arena),
        v.funcs == w.funcs,
    ensures
        v.is_node(id, instance, local) <==> w.is_node(id, instance, local),
        v.is_node(id, instance, local) ==> v.key(id) == w.key(id),
{
    let a = v.facts.arena;
    let b = w.facts.arena;
    if id < a.locs.len() {
        assert(b.locs[id as int] == a.locs[id as int]);
        assert(a.locs[id as int].path() < a.paths.len());
        assert(b.paths[a.locs[id as int].path() as int] == a.paths[a.locs[id as int].path()
            as int]);
    } else if id < b.locs.len() {
        assert(b.paths[b.locs[id as int].path() as int].len() > 0);
    }
}

/// A receiver stands for the same keys, whatever parts were added.
pub proof fn receiver_same(
    v: PtaView,
    w: PtaView,
    result: PointsToResult,
    instance: InstanceId,
    local: Local,
    field: Option<u32>,
    key: CiKey,
)
    requires
        v.facts.arena.wf(),
        result.fits(v.facts.arena),
        v.facts.arena.extends_to(w.facts.arena),
        only_parts_added(v.facts.arena, w.facts.arena),
        v.funcs == w.funcs,
    ensures
        v.receiver_key(result, instance, local, field, key) <==> w.receiver_key(
            result,
            instance,
            local,
            field,
            key,
        ),
{
    let a = v.facts.arena;
    let b = w.facts.arena;
    assert forall|id: LocId| #[trigger] v.is_node(id, instance, local) <==> w.is_node(
        id,
        instance,
        local,
    ) by {
        nodes_same(v, w, id, instance, local);
    }
    assert((exists|id: LocId| #[trigger] v.is_node(id, instance, local) && v.key(id) == key) <==> (
    exists|id: LocId| #[trigger] w.is_node(id, instance, local) && w.key(id) == key)) by {
        if exists|id: LocId| #[trigger] v.is_node(id, instance, local) && v.key(id) == key {
            let id = choose|id: LocId| #[trigger]
                v.is_node(id, instance, local) && v.key(id) == key;
            nodes_same(v, w, id, instance, local);
            assert(w.is_node(id, instance, local) && w.key(id) == key);
        }
        if exists|id: LocId| #[trigger] w.is_node(id, instance, local) && w.key(id) == key {
            let id = choose|id: LocId| #[trigger]
                w.is_node(id, instance, local) && w.key(id) == key;
            nodes_same(v, w, id, instance, local);
            assert(v.is_node(id, instance, local) && v.key(id) == key);
        }
    }
    assert(v.points_to_key(result, instance, local, key) <==> w.points_to_key(
        result,
        instance,
        local,
        key,
    )) by {
        if v.points_to_key(result, instance, local, key) {
            let (id, p) = choose|id: LocId, p: LocId| #[trigger]
                v.is_node(id, instance, local) && #[trigger] result.holds(id, p) && v.key(p) == key;
            holds_numbered(result, a, id, p);
            assert(b.locs[p as int] == a.locs[p as int]);
            assert(w.is_node(id, instance, local));
        }
        if w.points_to_key(result, instance, local, key) {
            let (id, p) = choose|id: LocId, p: LocId| #[trigger]
                w.is_node(id, instance, local) && #[trigger] result.holds(id, p) && w.key(p) == key;
            holds_numbered(result, a, id, p);
            assert(b.locs[p as int] == a.locs[p as int]);
            assert(v.is_node(id, instance, local));
        }
    }
    match field {
        Some(f) => {
            receiver_parts_same(v, w, result, instance, local, f, key);
        },
        None => {},
    }
}

proof fn receiver_parts_same(
    v: PtaView,
    w: PtaView,
    result: PointsToResult,
    instance: InstanceId,
    local: Local,
    f: u32,
    key: CiKey,
)
    requires
        v.facts.arena.wf(),
        result.fits(v.facts.arena),
        v.facts.arena.extends_to(w.facts.arena),
        v.funcs == w.funcs,
        forall|id: LocId| #[trigger]
            v.is_node(id, instance, local) <==> w.is_node(id, instance, local),
    ensures
        (exists|id: LocId| #[trigger]
            v.is_node(id, instance, local) && v.part_points_to_key(result, id, f, key)) <==> (
        exists|id: LocId| #[trigger]
            w.is_node(id, instance, local) && w.part_points_to_key(result, id, f, key)),
        (exists|id: LocId, whole: LocId| #[trigger]
            v.is_node(id, instance, local) && #[trigger] result.holds(id, whole)
                && v.part_points_to_key(result, whole, f, key)) <==> (exists|
            id: LocId,
            whole: LocId,
        | #[trigger]
            w.is_node(id, instance, local) && #[trigger] result.holds(id, whole)
                && w.part_points_to_key(result, whole, f, key)),
{
    let a = v.facts.arena;
    if exists|id: LocId| #[trigger]
        v.is_node(id, instance, local) && v.part_points_to_key(result, id, f, key) {
        let id = choose|id: LocId| #[trigger]
            v.is_node(id, instance, local) && v.part_points_to_key(result, id, f, key);
        part_key_same(v, w, result, id, f, key);
        assert(w.is_node(id, instance, local));
    }
    if exists|id: LocId| #[trigger]
        w.is_node(id, instance, local) && w.part_points_to_key(result, id, f, key) {
        let id = choose|id: LocId| #[trigger]
            w.is_node(id, instance, local) && w.part_points_to_key(result, id, f, key);
        assert(v.is_node(id, instance, local));
        part_key_same(v, w, result, id, f, key);
    }
    if exists|id: LocId, whole: LocId| #[trigger]
        v.is_node(id, instance, local) && #[trigger] result.holds(id, whole)
            && v.part_points_to_key(result, whole, f, key) {
        let (id, whole) = choose|id: LocId, whole: LocId| #[trigger]
            v.is_node(id, instance, local) && #[trigger] result.holds(id, whole)
                && v.part_points_to_key(result, whole, f, key);
        holds_numbered(result, a, id, whole);
        part_key_same(v, w, result, whole, f, key);
        assert(w.is_node(id, instance, local));
    }
    if exists|id: LocId, whole: LocId| #[trigger]
        w.is_node(id, instance, local) && #[trigger] result.holds(id, whole)
            && w.part_points_to_key(result, whole, f, key) {
        let (id, whole) = choose|id: LocId, whole: LocId| #[trigger]
            w.is_node(id, instance, local) && #[trigger] result.holds(id, whole)
                && w.part_points_to_key(result, whole, f, key);
        holds_numbered(result, a, id, whole);
        part_key_same(v, w, result, whole, f, key);
        assert(v.is_node(id, instance, local));
    }
}

/// One of the first `n` nodes points to the location.
pub open spec fn held_by(result: PointsToResult, nodes: Seq<LocId>, n: int, p: LocId) -> bool {
    exists|i: int| 0 <= i < n && #[trigger] result.holds(nodes[i], p)
}

proof fn held_by_next(result: PointsToResult, nodes: Seq<LocId>, n: int, p: LocId)
    requires
        0 <= n < nodes.len(),
    ensures
        held_by(result, nodes, n + 1, p) <==> held_by(result, nodes, n, p) || result.holds(
            nodes[n],
            p,
        ),
{
    if held_by(result, nodes, n + 1, p) {
        let i = choose|i: int| 0 <= i < n + 1 && #[trigger] result.holds(nodes[i], p);
        if i < n {
            assert(result.holds(nodes[i], p));
        }
    }
}

proof fn appended_contains(a: Seq<LocId>, b: Seq<LocId>, p: LocId)
    ensures
        (a + b).contains(p) <==> a.contains(p) || b.contains(p),
{
    let s = a + b;
    if s.contains(p) {
        let i = choose|i: int| 0 <= i < s.len() && s[i] == p;
        if i < a.len() {
            assert(a[i] == p);
        } else {
            assert(b[i - a.len()] == p);
        }
    }
    if a.contains(p) {
        let i = choose|i: int| 0 <= i < a.len() && a[i] == p;
        assert(s[i] == p);
    }
    if b.contains(p) {
        let i = choose|i: int| 0 <= i < b.len() && b[i] == p;
        assert(s[a.len() + i] == p);
    }
}

impl<'p> PointerAnalysis<'p> {
    /// Whether a local may point to another local itself.
    pub fn collapsed_points_to_local(
        &self,
        result: &PointsToResult,
        pointer: InstanceId,
        pointer_local: Local,
        pointee: InstanceId,
        pointee_local: Local,
    ) -> (r: bool)
        requires
            self.wf(),
            result.fits(self@.facts.arena),
        ensures
            r == self@.points_to_local(*result, pointer, pointer_local, pointee, pointee_local),
    {
        let targets = self.collapsed_points_to(result, pointer, pointer_local);
        match (self.funcs.get_id(pointee), self.facts.arena.empty_path_id()) {
            (Some(func), Some(path)) => has_key(
                &targets,
                CiKey::Var { func, base: pointee_local, path },
            ),
            _ => false,
        }
    }

    /// The numbered locations and field paths.
    pub fn arena(&self) -> (r: &LocArena)
        ensures
            r@ == self@.facts.arena,
    {
        &self.facts.arena
    }

    /// The program.
    pub fn tcx(&self) -> (r: &'p Program)
        ensures
            r == self.program,
    {
        self.program
    }

    /// The constraints.
    pub fn constraints(&self) -> (r: &ConstraintSet)
        ensures
            r@ == self@.facts.constraints,
    {
        &self.facts.constraints
    }
}

impl PtaView {
    /// A location of the first local points to the second local itself, in
    /// some context.
    pub open spec fn points_to_local(
        self,
        result: PointsToResult,
        pointer: InstanceId,
        pointer_local: Local,
        pointee: InstanceId,
        pointee_local: Local,
    ) -> bool {
        &&& self.funcs.contains(pointee)
        &&& self.facts.arena.paths.contains(Seq::<ProjElem>::empty())
        &&& self.points_to_key(
            result,
            pointer,
            pointer_local,
            CiKey::Var {
                func: place_in(self.funcs, pointee) as usize,
                base: pointee_local,
                path: self.facts.arena.empty_id(),
            },
        )
    }
}

} // verus!
