//! Alias queries for the translation.
//!
//! One whole-program pointer analysis, solved once, stands behind queries by
//! [`AliasId`] that answer with an [`ApproximateAliasKind`]. Models of further
//! calls are registered on the analysis without touching the callers.

use crate::collections::Key;
use crate::config::PnConfig;
use crate::memory::pointsto::{AliasId, ApproximateAliasKind};
use crate::memory::pta::analysis::{builds, nothing_built, PointerAnalysis, PtaView};
use crate::memory::pta::dump::report_text;
use crate::memory::pta::loc::CiKey;
use crate::memory::pta::program::Program;
use crate::memory::pta::queries::{fits_extend, receiver_same};
use crate::memory::pta::result::PointsToResult;
use crate::memory::pta::solver::solves;
use crate::translate::mir::InstanceId;
use vstd::prelude::*;

verus! {

/// The solved pointer analysis of a program.
pub struct AliasEngine<'p> {
    pub pta: PointerAnalysis<'p>,
    pub result: PointsToResult,
}

/// The ids are of different elements or of different fields of one local.
pub open spec fn apart(a: AliasId, b: AliasId) -> bool {
    &&& a.instance_id == b.instance_id
    &&& a.local == b.local
    &&& {
        ||| a.array_index is Some && b.array_index is Some && a.array_index != b.array_index
        ||| a.field is Some && b.field is Some && a.field != b.field
    }
}

/// The answer where the points-to sets do or do not share a location.
pub open spec fn shared_kind(a: AliasId, b: AliasId, shared: bool) -> ApproximateAliasKind {
    if a == b {
        ApproximateAliasKind::Probably
    } else if !apart(a, b) && shared {
        ApproximateAliasKind::Possibly
    } else {
        ApproximateAliasKind::Unlikely
    }
}

/// Whether two ids are of different elements or fields of one local.
fn told_apart(a: AliasId, b: AliasId) -> (r: bool)
    ensures
        r == apart(a, b),
{
    if a.instance_id != b.instance_id || a.local != b.local {
        return false;
    }
    match (a.array_index, b.array_index) {
        (Some(x), Some(y)) => if x != y {
            return true;
        },
        _ => {},
    }
    match (a.field, b.field) {
        (Some(x), Some(y)) => x != y,
        _ => false,
    }
}

impl PtaView {
    /// The points-to sets of two locals share a location.
    pub open spec fn share_pointee(self, result: PointsToResult, a: AliasId, b: AliasId) -> bool {
        exists|key: CiKey| #[trigger]
            self.points_to_key(result, a.instance_id, a.local, key) && self.points_to_key(
                result,
                b.instance_id,
                b.local,
                key,
            )
    }

    /// Two receivers may stand for one location.
    pub open spec fn share_place(self, result: PointsToResult, a: AliasId, b: AliasId) -> bool {
        self.share_receiver(
            result,
            a.instance_id,
            a.local,
            a.field,
            b.instance_id,
            b.local,
            b.field,
        )
    }
}

impl<'p> AliasEngine<'p> {
    /// The points-to sets are of numbered locations.
    pub open spec fn wf(&self) -> bool {
        self.pta.wf() && self.result.fits(self.pta@.facts.arena)
    }

    /// Whether two ids may be of one location.
    pub open spec fn alias_kind(&self, a: AliasId, b: AliasId) -> ApproximateAliasKind {
        shared_kind(a, b, self.pta@.share_place(self.result, a, b))
    }

    /// Whether two ids may hold pointers to one location.
    pub open spec fn atomic_kind(&self, a: AliasId, b: AliasId) -> ApproximateAliasKind {
        shared_kind(a, b, self.pta@.share_pointee(self.result, a, b))
    }

    /// Builds and solves the pointer analysis of what the roots reach, with the
    /// configured contexts.
    pub fn new(program: &'p Program, roots: &Vec<InstanceId>, config: &PnConfig) -> (r: Self)
        requires
            program.wf(),
            forall|i: int|
                0 <= i < roots@.len() ==> #[trigger] roots@[i] < program.functions@.len(),
        ensures
            r.wf(),
            r.pta.program == program,
            r.pta.policy.k == config.pta_k,
            r.pta.registry.models@.len() == 0,
            exists|built: PtaView| #[trigger]
                builds(r.pta.setting(), nothing_built(), roots@, built) && r.pta@.funcs
                    == built.funcs && r.pta@.facts.constraints == built.facts.constraints
                    && built.facts.arena.extends_to(r.pta@.facts.arena),
            solves(r.result, r.pta@.facts.constraints, r.pta@.facts.arena),
    {
        let mut pta = PointerAnalysis::with_k(program, config.pta_k);
        pta.build_reachable(roots);
        let ghost built = pta@;
        let ghost set = pta.setting();
        let result = pta.solve();
        proof {
            assert(pta.setting() == set);
            assert(builds(pta.setting(), nothing_built(), roots@, built));
        }
        AliasEngine { pta, result }
    }

    /// Whether two ids may be of one location. Parts that the query names are
    /// numbered; that changes no answer.
    pub fn alias(&mut self, aid1: AliasId, aid2: AliasId) -> (r: ApproximateAliasKind)
        requires
            old(self).wf(),
        ensures
            final(self).wf(),
            final(self).result == old(self).result,
            final(self).pta.kept(&old(self).pta),
            final(self).pta.same_but_names(&old(self).pta),
            r == old(self).alias_kind(aid1, aid2),
    {
        if aid1.same(&aid2) {
            return ApproximateAliasKind::Probably;
        }
        if told_apart(aid1, aid2) {
            return ApproximateAliasKind::Unlikely;
        }
        let shared = self.pta.collapsed_may_alias_receiver(
            &self.result,
            aid1.instance_id,
            aid1.local,
            aid1.field,
            aid2.instance_id,
            aid2.local,
            aid2.field,
        );
        proof {
            fits_extend(self.result, old(self).pta@.facts.arena, self.pta@.facts.arena);
        }
        if shared {
            ApproximateAliasKind::Possibly
        } else {
            ApproximateAliasKind::Unlikely
        }
    }

    /// Whether two ids may hold pointers to one location.
    pub fn alias_atomic(&mut self, aid1: AliasId, aid2: AliasId) -> (r: ApproximateAliasKind)
        requires
            old(self).wf(),
        ensures
            *final(self) == *old(self),
            r == old(self).atomic_kind(aid1, aid2),
    {
        if aid1.same(&aid2) {
            return ApproximateAliasKind::Probably;
        }
        if told_apart(aid1, aid2) {
            return ApproximateAliasKind::Unlikely;
        }
        if self.pta.collapsed_may_alias(
            &self.result,
            aid1.instance_id,
            aid1.local,
            aid2.instance_id,
            aid2.local,
        ) {
            ApproximateAliasKind::Possibly
        } else {
            ApproximateAliasKind::Unlikely
        }
    }

    /// Whether a pointer may point to a local.
    pub fn points_to(&mut self, pointer: AliasId, pointee: AliasId) -> (r: ApproximateAliasKind)
        requires
            old(self).wf(),
        ensures
            *final(self) == *old(self),
            r == if old(self).pta@.points_to_local(
                old(self).result,
                pointer.instance_id,
                pointer.local,
                pointee.instance_id,
                pointee.local,
            ) {
                ApproximateAliasKind::Possibly
            } else {
                ApproximateAliasKind::Unlikely
            },
    {
        if self.pta.collapsed_points_to_local(
            &self.result,
            pointer.instance_id,
            pointer.local,
            pointee.instance_id,
            pointee.local,
        ) {
            ApproximateAliasKind::Possibly
        } else {
            ApproximateAliasKind::Unlikely
        }
    }

    /// The analysis is of the whole program, so nothing is to be prepared.
    pub fn ensure_pts_for_instances(&mut self, _instances: &Vec<InstanceId>)
        ensures
            *final(self) == *old(self),
    {
    }

    /// The points-to relation as text.
    pub fn format_points_to_report(&self) -> (r: String)
        requires
            self.wf(),
        ensures
            r@ == report_text(self.pta@.facts.arena, self.result),
    {
        self.pta.format_report(&self.result)
    }
}

/// Aliasing does not depend on the order of the ids.
pub proof fn aliasing_is_symmetric(e: AliasEngine, a: AliasId, b: AliasId)
    ensures
        e.alias_kind(a, b) == e.alias_kind(b, a),
        e.atomic_kind(a, b) == e.atomic_kind(b, a),
{
    let v = e.pta@;
    let r = e.result;
    if v.share_place(r, a, b) {
        let k = choose|k: CiKey| #[trigger]
            v.receiver_key(r, a.instance_id, a.local, a.field, k) && v.receiver_key(
                r,
                b.instance_id,
                b.local,
                b.field,
                k,
            );
        assert(v.receiver_key(r, b.instance_id, b.local, b.field, k));
    }
    if v.share_place(r, b, a) {
        let k = choose|k: CiKey| #[trigger]
            v.receiver_key(r, b.instance_id, b.local, b.field, k) && v.receiver_key(
                r,
                a.instance_id,
                a.local,
                a.field,
                k,
            );
        assert(v.receiver_key(r, a.instance_id, a.local, a.field, k));
    }
    if v.share_pointee(r, a, b) {
        let k = choose|k: CiKey| #[trigger]
            v.points_to_key(r, a.instance_id, a.local, k) && v.points_to_key(
                r,
                b.instance_id,
                b.local,
                k,
            );
        assert(v.points_to_key(r, b.instance_id, b.local, k));
    }
    if v.share_pointee(r, b, a) {
        let k = choose|k: CiKey| #[trigger]
            v.points_to_key(r, b.instance_id, b.local, k) && v.points_to_key(
                r,
                a.instance_id,
                a.local,
                k,
            );
        assert(v.points_to_key(r, a.instance_id, a.local, k));
    }
}

/// An alias query changes the answer of no other: answers do not depend on the
/// order of the queries.
pub proof fn queries_change_no_answer(before: AliasEngine, after: AliasEngine, a: AliasId, b: AliasId)
    requires
        before.wf(),
        after.result == before.result,
        after.pta.kept(&before.pta),
        after.pta.same_but_names(&before.pta),
    ensures
        after.alias_kind(a, b) == before.alias_kind(a, b),
{
    let v = before.pta@;
    let w = after.pta@;
    let r = before.result;
    assert forall|k: CiKey| #[trigger]
        v.receiver_key(r, a.instance_id, a.local, a.field, k) == w.receiver_key(
            r,
            a.instance_id,
            a.local,
            a.field,
            k,
        ) by {
        receiver_same(v, w, r, a.instance_id, a.local, a.field, k);
    }
    assert forall|k: CiKey| #[trigger]
        v.receiver_key(r, b.instance_id, b.local, b.field, k) == w.receiver_key(
            r,
            b.instance_id,
            b.local,
            b.field,
            k,
        ) by {
        receiver_same(v, w, r, b.instance_id, b.local, b.field, k);
    }
    if v.share_place(r, a, b) {
        let k = choose|k: CiKey| #[trigger]
            v.receiver_key(r, a.instance_id, a.local, a.field, k) && v.receiver_key(
                r,
                b.instance_id,
                b.local,
                b.field,
                k,
            );
        assert(w.receiver_key(r, a.instance_id, a.local, a.field, k));
        assert(v.receiver_key(r, b.instance_id, b.local, b.field, k));
    }
    if w.share_place(r, a, b) {
        let k = choose|k: CiKey| #[trigger]
            w.receiver_key(r, a.instance_id, a.local, a.field, k) && w.receiver_key(
                r,
                b.instance_id,
                b.local,
                b.field,
                k,
            );
        assert(v.receiver_key(r, a.instance_id, a.local, a.field, k));
        assert(v.receiver_key(r, b.instance_id, b.local, b.field, k));
    }
}

} // verus!
