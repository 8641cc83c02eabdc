//! The constraints of one body in one context.

use super::constraint::{with_items, Constraint, ConstraintSet};
use super::ids::{add_id, id_lists, with_id, IdVec};
use super::loc::{
    joined_path, with_item, AbstractLoc, AllocSite, ArenaView, CallSite, Context, FieldPath,
    LocArena, LocId, LocView, ProjElem,
};
use super::model::{model_constraints, CallNodes, ModelEffect, ModelRegistry};
use super::program::{Call, Capture, Flow, FlowKind, Function, Node, NodeBase};
use crate::collections::{list_at, KeyedMap};
use crate::translate::mir::{DefId, InstanceId};
use vstd::prelude::*;

verus! {

/// The locations, constraints and closure environments found so far.
#[verifier::ext_equal]
pub struct FactsView {
    pub arena: ArenaView,
    pub constraints: Seq<Constraint>,
    pub envs: Map<DefId, Seq<LocId>>,
    pub env_paths: Map<DefId, Seq<FieldPath>>,
}

/// The constraint is between numbered locations.
pub open spec fn constraint_ok(c: Constraint, arena: ArenaView) -> bool {
    match c {
        Constraint::AddressOf { dst, obj } => dst < arena.locs.len() && obj < arena.locs.len(),
        Constraint::Copy { dst, src } => dst < arena.locs.len() && src < arena.locs.len(),
        Constraint::Load { dst, src } => dst < arena.locs.len() && src < arena.locs.len(),
        Constraint::Store { dst, src } => dst < arena.locs.len() && src < arena.locs.len(),
        Constraint::Offset { dst, src, suffix } => dst < arena.locs.len() && src
            < arena.locs.len() && suffix < arena.paths.len(),
    }
}

/// The constraints are between numbered locations.
pub open spec fn constraints_ok(cs: Seq<Constraint>, arena: ArenaView) -> bool {
    forall|i: int| 0 <= i < cs.len() ==> constraint_ok(#[trigger] cs[i], arena)
}

/// The lists hold numbers below the bound.
pub open spec fn lists_ok(m: Map<DefId, Seq<usize>>, bound: nat) -> bool {
    forall|k: DefId, i: int|
        #![trigger m[k][i]]
        m.contains_key(k) && 0 <= i < m[k].len() ==> m[k][i] < bound
}

impl FactsView {
    /// What the facts speak of is numbered.
    pub open spec fn wf(self) -> bool {
        &&& self.arena.wf()
        &&& constraints_ok(self.constraints, self.arena)
        &&& lists_ok(self.envs, self.arena.locs.len())
        &&& lists_ok(self.env_paths, self.arena.paths.len())
    }

    /// The facts with another arena.
    pub open spec fn with_arena(self, arena: ArenaView) -> FactsView {
        FactsView { arena, ..self }
    }

    /// The facts with one more constraint.
    pub open spec fn with_constraint(self, c: Constraint) -> FactsView {
        FactsView { constraints: with_item(self.constraints, c), ..self }
    }

    /// The facts with more constraints.
    pub open spec fn with_constraints(self, cs: Seq<Constraint>) -> FactsView {
        FactsView { constraints: with_items(self.constraints, cs), ..self }
    }
}

/// The location of a node of a function in a context.
pub open spec fn node_loc(
    base: NodeBase,
    func: usize,
    ctx: Seq<CallSite>,
    path: FieldPath,
) -> LocView {
    match base {
        NodeBase::Local(base) => LocView::Var { ctx, func, base, path },
        NodeBase::Heap { bb, idx } => LocView::Heap {
            ctx,
            site: AllocSite { func, bb, idx },
            path,
        },
        NodeBase::Global(def_index) => LocView::Global { def_index, path },
    }
}

/// The arena with a node numbered.
pub open spec fn with_node(
    a: ArenaView,
    func: usize,
    ctx: Seq<CallSite>,
    node: Node,
) -> ArenaView {
    a.with_path(node.path@).with_loc(node_loc(node.base, func, ctx, a.path_id(node.path@)))
}

/// The number of a node.
pub open spec fn node_id(a: ArenaView, func: usize, ctx: Seq<CallSite>, node: Node) -> LocId {
    a.with_path(node.path@).loc_id(node_loc(node.base, func, ctx, a.path_id(node.path@)))
}

/// The constraint of a flow.
pub open spec fn flow_constraint(
    kind: FlowKind,
    dst: LocId,
    src: LocId,
    suffix: FieldPath,
) -> Constraint {
    match kind {
        FlowKind::AddressOf => Constraint::AddressOf { dst, obj: src },
        FlowKind::Copy => Constraint::Copy { dst, src },
        FlowKind::Load => Constraint::Load { dst, src },
        FlowKind::Store => Constraint::Store { dst, src },
        FlowKind::Offset => Constraint::Offset { dst, src, suffix },
    }
}

/// The facts with one flow of a body.
pub open spec fn with_flow(
    v: FactsView,
    func: usize,
    ctx: Seq<CallSite>,
    flow: Flow,
) -> FactsView {
    let a = with_node(v.arena, func, ctx, flow.dst);
    let dst = node_id(v.arena, func, ctx, flow.dst);
    let b = with_node(a, func, ctx, flow.src);
    let src = node_id(a, func, ctx, flow.src);
    v.with_arena(b.with_path(flow.suffix@)).with_constraint(
        flow_constraint(flow.kind, dst, src, b.path_id(flow.suffix@)),
    )
}

/// The facts with the flows of a body.
pub open spec fn with_flows(
    v: FactsView,
    func: usize,
    ctx: Seq<CallSite>,
    flows: Seq<Flow>,
) -> FactsView
    decreases flows.len(),
{
    if flows.len() == 0 {
        v
    } else {
        with_flow(with_flows(v, func, ctx, flows.drop_last()), func, ctx, flows.last())
    }
}

/// The facts with captured parts of a closure.
pub open spec fn with_captured(
    v: FactsView,
    closure: DefId,
    paths: Seq<Vec<ProjElem>>,
) -> FactsView
    decreases paths.len(),
{
    if paths.len() == 0 {
        v
    } else {
        let before = with_captured(v, closure, paths.drop_last());
        let path = paths.last()@;
        FactsView {
            arena: before.arena.with_path(path),
            env_paths: with_id(before.env_paths, closure, before.arena.path_id(path)),
            ..before
        }
    }
}

/// The facts with the construction of a closure.
pub open spec fn with_capture(
    v: FactsView,
    func: usize,
    ctx: Seq<CallSite>,
    capture: Capture,
) -> FactsView {
    with_captured(
        FactsView {
            arena: with_node(v.arena, func, ctx, capture.heap),
            envs: with_id(v.envs, capture.closure, node_id(v.arena, func, ctx, capture.heap)),
            ..v
        },
        capture.closure,
        capture.paths@,
    )
}

/// The facts with the closures that a body constructs.
pub open spec fn with_captures(
    v: FactsView,
    func: usize,
    ctx: Seq<CallSite>,
    captures: Seq<Capture>,
) -> FactsView
    decreases captures.len(),
{
    if captures.len() == 0 {
        v
    } else {
        with_capture(with_captures(v, func, ctx, captures.drop_last()), func, ctx, captures.last())
    }
}

/// The arguments of a call: the arena that numbers them, and their numbers.
#[verifier::ext_equal]
pub struct ArgsView {
    pub arena: ArenaView,
    pub ids: Seq<Option<LocId>>,
}

/// The arguments of a call.
pub open spec fn args_of(
    a: ArenaView,
    func: usize,
    ctx: Seq<CallSite>,
    args: Seq<Option<Node>>,
) -> ArgsView
    decreases args.len(),
{
    if args.len() == 0 {
        ArgsView { arena: a, ids: Seq::empty() }
    } else {
        let before = args_of(a, func, ctx, args.drop_last());
        match args.last() {
            Some(node) => ArgsView {
                arena: with_node(before.arena, func, ctx, node),
                ids: before.ids.push(Some(node_id(before.arena, func, ctx, node))),
            },
            None => ArgsView { ids: before.ids.push(None), ..before },
        }
    }
}

/// A call that is left to be resolved.
#[verifier::ext_equal]
pub struct PendingView {
    pub callee: Option<InstanceId>,
    pub bb: usize,
    pub dest: LocId,
    pub args: Seq<Option<LocId>>,
    pub heap: LocId,
}

/// A call that is left to be resolved.
#[derive(Debug)]
pub struct PendingCall {
    pub callee: Option<InstanceId>,
    pub bb: usize,
    pub nodes: CallNodes,
}

impl View for PendingCall {
    type V = PendingView;

    open spec fn view(&self) -> PendingView {
        PendingView {
            callee: self.callee,
            bb: self.bb,
            dest: self.nodes.dest,
            args: self.nodes.args@,
            heap: self.nodes.fresh_heap,
        }
    }
}

/// The calls that are left to be resolved.
pub open spec fn pending_views(calls: Seq<PendingCall>) -> Seq<PendingView> {
    calls.map_values(|c: PendingCall| c@)
}

/// The facts and the calls left after some calls of a body.
#[verifier::ext_equal]
pub struct CallsView {
    pub facts: FactsView,
    pub pending: Seq<PendingView>,
}

/// The memory that a call may allocate.
pub open spec fn fresh_heap(
    func: usize,
    ctx: Seq<CallSite>,
    bb: usize,
    idx: usize,
    path: FieldPath,
) -> LocView {
    LocView::Heap { ctx, site: AllocSite { func, bb, idx }, path }
}

/// The facts with one call of a body: a modelled one adds what its model says,
/// any other is left to be resolved.
pub open spec fn with_call(
    s: CallsView,
    func: usize,
    ctx: Seq<CallSite>,
    call: Call,
    registry: ModelRegistry,
) -> CallsView {
    let a = with_node(s.facts.arena, func, ctx, call.dest);
    let dest = node_id(s.facts.arena, func, ctx, call.dest);
    let args = args_of(a, func, ctx, call.args@);
    let b = args.arena.with_empty();
    let loc = fresh_heap(func, ctx, call.bb, call.idx, args.arena.empty_id());
    let heap = b.loc_id(loc);
    let facts = s.facts.with_arena(b.with_loc(loc));
    let effect = match call.path {
        Some(path) => registry.effect(path@),
        None => None,
    };
    match effect {
        Some(effect) => CallsView {
            facts: facts.with_constraints(model_constraints(effect, dest, args.ids, heap)),
            ..s
        },
        None => CallsView {
            facts,
            pending: s.pending.push(
                PendingView { callee: call.callee, bb: call.bb, dest, args: args.ids, heap },
            ),
        },
    }
}

/// The facts with the calls of a body.
pub open spec fn with_calls(
    s: CallsView,
    func: usize,
    ctx: Seq<CallSite>,
    calls: Seq<Call>,
    registry: ModelRegistry,
) -> CallsView
    decreases calls.len(),
{
    if calls.len() == 0 {
        s
    } else {
        with_call(
            with_calls(s, func, ctx, calls.drop_last(), registry),
            func,
            ctx,
            calls.last(),
            registry,
        )
    }
}

/// The facts with a body, and its calls left to be resolved.
pub open spec fn with_body(
    v: FactsView,
    func: usize,
    ctx: Seq<CallSite>,
    function: Function,
    registry: ModelRegistry,
) -> CallsView {
    let facts = with_captures(
        with_flows(v, func, ctx, function.flows@),
        func,
        ctx,
        function.captures@,
    );
    with_calls(CallsView { facts, pending: Seq::empty() }, func, ctx, function.calls@, registry)
}

/// The locations, constraints and closure environments found so far.
pub struct Facts {
    pub arena: LocArena,
    pub constraints: ConstraintSet,
    /// For each closure, the environments made where it is constructed.
    pub closure_envs: KeyedMap<DefId, IdVec>,
    /// For each closure, the captured parts of its environments.
    pub closure_env_paths: KeyedMap<DefId, IdVec>,
}

impl View for Facts {
    type V = FactsView;

    open spec fn view(&self) -> FactsView {
        FactsView {
            arena: self.arena@,
            constraints: self.constraints@,
            envs: id_lists(self.closure_envs@),
            env_paths: id_lists(self.closure_env_paths@),
        }
    }
}

/// Facts stay well formed when more is numbered.
pub proof fn facts_extend(v: FactsView, arena: ArenaView)
    requires
        v.wf(),
        arena.wf(),
        v.arena.extends_to(arena),
    ensures
        v.with_arena(arena).wf(),
{
    let w = v.with_arena(arena);
    assert forall|i: int| 0 <= i < w.constraints.len() implies constraint_ok(
        #[trigger] w.constraints[i],
        arena,
    ) by {
        assert(constraint_ok(v.constraints[i], v.arena));
    }
}

/// Facts stay well formed with one more constraint between numbered locations.
pub proof fn facts_constrain(v: FactsView, c: Constraint)
    requires
        v.wf(),
        constraint_ok(c, v.arena),
    ensures
        v.with_constraint(c).wf(),
{
    let w = v.with_constraint(c);
    assert forall|i: int| 0 <= i < w.constraints.len() implies constraint_ok(
        #[trigger] w.constraints[i],
        w.arena,
    ) by {
        if i < v.constraints.len() {
            assert(w.constraints[i] == v.constraints[i]);
        }
    }
}

/// Facts stay well formed with more constraints between numbered locations.
pub proof fn facts_constrain_all(v: FactsView, cs: Seq<Constraint>)
    requires
        v.wf(),
        constraints_ok(cs, v.arena),
    ensures
        v.with_constraints(cs).wf(),
    decreases cs.len(),
{
    if cs.len() > 0 {
        let front = cs.drop_last();
        assert forall|i: int| 0 <= i < front.len() implies constraint_ok(
            #[trigger] front[i],
            v.arena,
        ) by {
            assert(front[i] == cs[i]);
        }
        facts_constrain_all(v, front);
        assert(constraint_ok(cs[cs.len() - 1], v.arena));
        facts_constrain(v.with_constraints(front), cs.last());
        assert(v.with_constraints(cs) =~= v.with_constraints(front).with_constraint(cs.last()));
    }
}

/// Lists stay below the bound with one more number below it.
pub proof fn lists_add(m: Map<DefId, Seq<usize>>, k: DefId, x: usize, bound: nat)
    requires
        lists_ok(m, bound),
        x < bound,
    ensures
        lists_ok(with_id(m, k, x), bound),
{
    let w = with_id(m, k, x);
    assert forall|j: DefId, i: int|
        #![trigger w[j][i]]
        w.contains_key(j) && 0 <= i < w[j].len() implies w[j][i] < bound by {
        if j == k {
            let list = list_at(m, k);
            if i < list.len() {
                assert(w[j][i] == list[i]);
                assert(m[k][i] < bound);
            }
        } else {
            assert(w[j] == m[j]);
            assert(m[j][i] < bound);
        }
    }
}

/// A copy of a field path.
pub fn copy_path(path: &Vec<ProjElem>) -> (r: Vec<ProjElem>)
    ensures
        r@ == path@,
{
    let none: Vec<ProjElem> = Vec::new();
    let r = joined_path(path, &none);
    proof {
        assert(r@ =~= path@);
    }
    r
}

/// The numbered arguments are numbered locations.
pub open spec fn args_ok(ids: Seq<Option<LocId>>, arena: ArenaView) -> bool {
    forall|i: int| 0 <= i < ids.len() ==> (match #[trigger] ids[i] {
        Some(id) => id < arena.locs.len(),
        None => true,
    })
}

/// The call is between numbered locations.
pub open spec fn pending_ok(c: PendingView, arena: ArenaView) -> bool {
    c.dest < arena.locs.len() && c.heap < arena.locs.len() && args_ok(c.args, arena)
}

/// A call stays between numbered locations when more is numbered.
pub proof fn pending_extend(c: PendingView, a: ArenaView, b: ArenaView)
    requires
        pending_ok(c, a),
        a.extends_to(b),
    ensures
        pending_ok(c, b),
{
    assert forall|i: int| 0 <= i < c.args.len() implies (match #[trigger] c.args[i] {
        Some(id) => id < b.locs.len(),
        None => true,
    }) by {
        let x = c.args[i];
        assert(match x {
            Some(id) => id < a.locs.len(),
            None => true,
        });
    }
}

/// What a model says is between numbered locations.
proof fn model_ok(
    effect: ModelEffect,
    dest: LocId,
    args: Seq<Option<LocId>>,
    heap: LocId,
    arena: ArenaView,
)
    requires
        dest < arena.locs.len(),
        heap < arena.locs.len(),
        args_ok(args, arena),
    ensures
        constraints_ok(model_constraints(effect, dest, args, heap), arena),
{
    match effect {
        ModelEffect::ReturnsArg(i) => {
            if i < args.len() {
                let x = args[i as int];
                assert(match x {
                    Some(id) => id < arena.locs.len(),
                    None => true,
                });
            }
        },
        _ => {},
    }
}

impl Facts {
    /// What the facts speak of is numbered.
    pub open spec fn wf(&self) -> bool {
        self.closure_envs.wf() && self.closure_env_paths.wf() && self@.wf()
    }

    /// No facts.
    pub fn new() -> (r: Self)
        ensures
            r.wf(),
            r@ == (FactsView {
                arena: ArenaView { paths: Seq::empty(), locs: Seq::empty() },
                constraints: Seq::empty(),
                envs: Map::empty(),
                env_paths: Map::empty(),
            }),
    {
        let r = Facts {
            arena: LocArena::new(),
            constraints: ConstraintSet::new(),
            closure_envs: KeyedMap::new(),
            closure_env_paths: KeyedMap::new(),
        };
        proof {
            assert(r@.envs =~= Map::<DefId, Seq<LocId>>::empty());
            assert(r@.env_paths =~= Map::<DefId, Seq<FieldPath>>::empty());
        }
        r
    }

    /// Numbers a node of a function in a context.
    pub fn node(&mut self, func: usize, ctx: &Context, node: &Node) -> (id: LocId)
        requires
            old(self).wf(),
        ensures
            final(self).wf(),
            final(self)@ == old(self)@.with_arena(with_node(old(self)@.arena, func, ctx@, *node)),
            id == node_id(old(self)@.arena, func, ctx@, *node),
            old(self)@.arena.extends_to(final(self)@.arena),
            id < final(self)@.arena.locs.len(),
    {
        let ghost v = self@;
        let path = self.arena.intern_path(copy_path(&node.path));
        let loc = match node.base {
            NodeBase::Local(base) => AbstractLoc::Var { ctx: ctx.duplicate(), func, base, path },
            NodeBase::Heap { bb, idx } => AbstractLoc::Heap {
                ctx: ctx.duplicate(),
                site: AllocSite { func, bb, idx },
                path,
            },
            NodeBase::Global(def_index) => AbstractLoc::Global { def_index, path },
        };
        let id = self.arena.intern_loc(loc);
        proof {
            facts_extend(v, self.arena@);
            assert(self@ =~= v.with_arena(self.arena@));
        }
        id
    }

    /// Numbers a field path.
    pub fn name_path(&mut self, path: &Vec<ProjElem>) -> (id: FieldPath)
        requires
            old(self).wf(),
        ensures
            final(self).wf(),
            final(self)@ == old(self)@.with_arena(old(self)@.arena.with_path(path@)),
            id == old(self)@.arena.path_id(path@),
            old(self)@.arena.extends_to(final(self)@.arena),
            id < final(self)@.arena.paths.len(),
            final(self)@.arena.paths[id as int] == path@,
    {
        let ghost v = self@;
        let id = self.arena.intern_path(copy_path(path));
        proof {
            facts_extend(v, self.arena@);
            assert(self@ =~= v.with_arena(self.arena@));
        }
        id
    }

    /// Numbers the empty field path.
    pub fn name_empty(&mut self) -> (id: FieldPath)
        requires
            old(self).wf(),
        ensures
            final(self).wf(),
            final(self)@ == old(self)@.with_arena(old(self)@.arena.with_empty()),
            id == old(self)@.arena.empty_id(),
            old(self)@.arena.extends_to(final(self)@.arena),
            id < final(self)@.arena.paths.len(),
    {
        let ghost v = self@;
        let id = self.arena.empty_path();
        proof {
            facts_extend(v, self.arena@);
            assert(self@ =~= v.with_arena(self.arena@));
        }
        id
    }

    /// Numbers a part of a local of a function in a context.
    pub fn name_var(&mut self, ctx: &Context, func: usize, base: usize, path: FieldPath) -> (id:
        LocId)
        requires
            old(self).wf(),
            path < old(self)@.arena.paths.len(),
        ensures
            final(self).wf(),
            final(self)@ == old(self)@.with_arena(
                old(self)@.arena.with_loc(LocView::Var { ctx: ctx@, func, base, path }),
            ),
            id == old(self)@.arena.loc_id(LocView::Var { ctx: ctx@, func, base, path }),
            old(self)@.arena.extends_to(final(self)@.arena),
            id < final(self)@.arena.locs.len(),
    {
        let ghost v = self@;
        let id = self.arena.var_ctx(ctx.duplicate(), func, base, path);
        proof {
            facts_extend(v, self.arena@);
            assert(self@ =~= v.with_arena(self.arena@));
        }
        id
    }

    /// Numbers the part of a location.
    pub fn name_part(&mut self, loc: LocId, suffix: FieldPath) -> (r: Option<LocId>)
        requires
            old(self).wf(),
            loc < old(self)@.arena.locs.len(),
            suffix < old(self)@.arena.paths.len(),
        ensures
            final(self).wf(),
            final(self)@ == old(self)@.with_arena(
                old(self)@.arena.with_projection(loc, suffix),
            ),
            r == old(self)@.arena.project(loc, suffix),
            r is None ==> final(self)@ == old(self)@,
            old(self)@.arena.extends_to(final(self)@.arena),
            r matches Some(id) ==> id < final(self)@.arena.locs.len(),
    {
        let ghost v = self@;
        let r = self.arena.project(loc, suffix);
        proof {
            facts_extend(v, self.arena@);
            assert(self@ =~= v.with_arena(self.arena@));
            assert(v =~= v.with_arena(v.arena));
        }
        r
    }

    /// Adds a constraint.
    pub fn constrain(&mut self, c: Constraint)
        requires
            old(self).wf(),
            constraint_ok(c, old(self)@.arena),
        ensures
            final(self).wf(),
            final(self)@ == old(self)@.with_constraint(c),
    {
        let ghost v = self@;
        self.constraints.add(c);
        proof {
            facts_constrain(v, c);
            assert(self@ =~= v.with_constraint(c));
        }
    }

    /// Adds one flow of a body.
    fn add_flow(&mut self, func: usize, ctx: &Context, flow: &Flow)
        requires
            old(self).wf(),
        ensures
            final(self).wf(),
            final(self)@ == with_flow(old(self)@, func, ctx@, *flow),
            old(self)@.arena.extends_to(final(self)@.arena),
    {
        let dst = self.node(func, ctx, &flow.dst);
        let src = self.node(func, ctx, &flow.src);
        let suffix = self.name_path(&flow.suffix);
        let c = match flow.kind {
            FlowKind::AddressOf => Constraint::AddressOf { dst, obj: src },
            FlowKind::Copy => Constraint::Copy { dst, src },
            FlowKind::Load => Constraint::Load { dst, src },
            FlowKind::Store => Constraint::Store { dst, src },
            FlowKind::Offset => Constraint::Offset { dst, src, suffix },
        };
        self.constrain(c);
    }

    /// Adds the flows of a body.
    fn add_flows(&mut self, func: usize, ctx: &Context, flows: &Vec<Flow>)
        requires
            old(self).wf(),
        ensures
            final(self).wf(),
            final(self)@ == with_flows(old(self)@, func, ctx@, flows@),
            old(self)@.arena.extends_to(final(self)@.arena),
    {
        let ghost v = self@;
        let mut i: usize = 0;
        while i < flows.len()
            invariant
                i <= flows@.len(),
                self.wf(),
                self@ == with_flows(v, func, ctx@, flows@.take(i as int)),
                v.arena.extends_to(self@.arena),
            decreases flows@.len() - i,
        {
            proof {
                assert(flows@.take(i + 1).drop_last() =~= flows@.take(i as int));
            }
            self.add_flow(func, ctx, &flows[i]);
            i = i + 1;
        }
        proof {
            assert(flows@.take(i as int) =~= flows@);
        }
    }

    /// Adds the construction of a closure.
    fn add_capture(&mut self, func: usize, ctx: &Context, capture: &Capture)
        requires
            old(self).wf(),
        ensures
            final(self).wf(),
            final(self)@ == with_capture(old(self)@, func, ctx@, *capture),
            old(self)@.arena.extends_to(final(self)@.arena),
    {
        let heap = self.node(func, ctx, &capture.heap);
        let ghost u = self@;
        add_id(&mut self.closure_envs, capture.closure, heap);
        proof {
            lists_add(u.envs, capture.closure, heap, u.arena.locs.len());
        }
        let ghost v = self@;
        let mut i: usize = 0;
        while i < capture.paths.len()
            invariant
                i <= capture.paths@.len(),
                self.wf(),
                self@ == with_captured(v, capture.closure, capture.paths@.take(i as int)),
                v.arena.extends_to(self@.arena),
            decreases capture.paths@.len() - i,
        {
            proof {
                assert(capture.paths@.take(i + 1).drop_last() =~= capture.paths@.take(i as int));
            }
            let ghost w = self@;
            let path = self.arena.intern_path(copy_path(&capture.paths[i]));
            proof {
                facts_extend(w, self.arena@);
            }
            let ghost x = self@;
            add_id(&mut self.closure_env_paths, capture.closure, path);
            proof {
                assert(x =~= w.with_arena(self.arena@));
                lists_add(x.env_paths, capture.closure, path, x.arena.paths.len());
            }
            i = i + 1;
        }
        proof {
            assert(capture.paths@.take(i as int) =~= capture.paths@);
        }
    }

    /// Adds the closures that a body constructs.
    fn add_captures(&mut self, func: usize, ctx: &Context, captures: &Vec<Capture>)
        requires
            old(self).wf(),
        ensures
            final(self).wf(),
            final(self)@ == with_captures(old(self)@, func, ctx@, captures@),
            old(self)@.arena.extends_to(final(self)@.arena),
    {
        let ghost v = self@;
        let mut i: usize = 0;
        while i < captures.len()
            invariant
                i <= captures@.len(),
                self.wf(),
                self@ == with_captures(v, func, ctx@, captures@.take(i as int)),
                v.arena.extends_to(self@.arena),
            decreases captures@.len() - i,
        {
            proof {
                assert(captures@.take(i + 1).drop_last() =~= captures@.take(i as int));
            }
            self.add_capture(func, ctx, &captures[i]);
            i = i + 1;
        }
        proof {
            assert(captures@.take(i as int) =~= captures@);
        }
    }

    /// Numbers the arguments of a call.
    fn number_args(&mut self, func: usize, ctx: &Context, args: &Vec<Option<Node>>) -> (ids: Vec<
        Option<LocId>,
    >)
        requires
            old(self).wf(),
        ensures
            final(self).wf(),
            final(self)@ == old(self)@.with_arena(
                args_of(old(self)@.arena, func, ctx@, args@).arena,
            ),
            ids@ == args_of(old(self)@.arena, func, ctx@, args@).ids,
            old(self)@.arena.extends_to(final(self)@.arena),
            args_ok(ids@, final(self)@.arena),
    {
        let ghost v = self@;
        let mut ids: Vec<Option<LocId>> = Vec::new();
        let mut i: usize = 0;
        proof {
            assert(v =~= v.with_arena(v.arena));
        }
        while i < args.len()
            invariant
                i <= args@.len(),
                self.wf(),
                self@ == v.with_arena(args_of(v.arena, func, ctx@, args@.take(i as int)).arena),
                ids@ == args_of(v.arena, func, ctx@, args@.take(i as int)).ids,
                v.arena.extends_to(self@.arena),
                args_ok(ids@, self@.arena),
            decreases args@.len() - i,
        {
            proof {
                assert(args@.take(i + 1).drop_last() =~= args@.take(i as int));
            }
            let ghost before = ids@;
            let ghost a = self@.arena;
            match &args[i] {
                Some(node) => {
                    let id = self.node(func, ctx, node);
                    ids.push(Some(id));
                },
                None => {
                    ids.push(None);
                },
            }
            proof {
                assert forall|j: int| 0 <= j < ids@.len() implies (match #[trigger] ids@[j] {
                    Some(id) => id < self@.arena.locs.len(),
                    None => true,
                }) by {
                    if j < before.len() {
                        let x = before[j];
                        assert(ids@[j] == x);
                        assert(match x {
                            Some(id) => id < a.locs.len(),
                            None => true,
                        });
                    }
                }
            }
            i = i + 1;
        }
        proof {
            assert(args@.take(i as int) =~= args@);
        }
        ids
    }

    /// Adds one call of a body; one without a model is left to be resolved.
    fn add_call(
        &mut self,
        func: usize,
        ctx: &Context,
        call: &Call,
        registry: &ModelRegistry,
        pending: &mut Vec<PendingCall>,
    )
        requires
            old(self).wf(),
            forall|i: int|
                0 <= i < old(pending)@.len() ==> pending_ok(
                    (#[trigger] old(pending)@[i])@,
                    old(self)@.arena,
                ),
        ensures
            final(self).wf(),
            (CallsView { facts: final(self)@, pending: pending_views(final(pending)@) })
                == with_call(
                CallsView { facts: old(self)@, pending: pending_views(old(pending)@) },
                func,
                ctx@,
                *call,
                *registry,
            ),
            old(self)@.arena.extends_to(final(self)@.arena),
            forall|i: int|
                0 <= i < final(pending)@.len() ==> pending_ok(
                    (#[trigger] final(pending)@[i])@,
                    final(self)@.arena,
                ),
    {
        let ghost v = self@;
        let ghost calls = pending@;
        let dest = self.node(func, ctx, &call.dest);
        let args = self.number_args(func, ctx, &call.args);
        let ghost b = self@.arena;
        let ghost w = self@;
        let path = self.arena.empty_path();
        let heap = self.arena.intern_loc(
            AbstractLoc::Heap {
                ctx: ctx.duplicate(),
                site: AllocSite { func, bb: call.bb, idx: call.idx },
                path,
            },
        );
        proof {
            facts_extend(w, self.arena@);
            assert(self@ =~= w.with_arena(self.arena@));
            assert(args_ok(args@, self@.arena)) by {
                assert forall|j: int| 0 <= j < args@.len() implies (match #[trigger] args@[j] {
                    Some(id) => id < self@.arena.locs.len(),
                    None => true,
                }) by {
                    let x = args@[j];
                    assert(match x {
                        Some(id) => id < b.locs.len(),
                        None => true,
                    });
                }
            }
            assert forall|i: int| 0 <= i < calls.len() implies pending_ok(
                (#[trigger] calls[i])@,
                self@.arena,
            ) by {
                pending_extend(calls[i]@, v.arena, self@.arena);
            }
        }
        let nodes = CallNodes { dest, args, fresh_heap: heap };
        let effect = match &call.path {
            Some(path) => registry.find_effect(path),
            None => None,
        };
        match effect {
            Some(effect) => {
                let ghost u = self@;
                registry.apply_effect(effect, &nodes, &mut self.constraints);
                proof {
                    model_ok(effect, dest, nodes.args@, heap, u.arena);
                    let cs = model_constraints(effect, dest, nodes.args@, heap);
                    facts_constrain_all(u, cs);
                    assert(self@ =~= u.with_constraints(cs));
                }
            },
            None => {
                let c = PendingCall { callee: call.callee, bb: call.bb, nodes };
                let ghost x = c@;
                pending.push(c);
                proof {
                    assert(pending_views(pending@) =~= pending_views(calls).push(x));
                    assert forall|i: int| 0 <= i < pending@.len() implies pending_ok(
                        (#[trigger] pending@[i])@,
                        self@.arena,
                    ) by {
                        if i < calls.len() {
                            assert(pending@[i] == calls[i]);
                        }
                    }
                }
            },
        }
    }
}

/// Adds a body in a context; its calls are left to be resolved.
pub fn build_body(
    facts: &mut Facts,
    func: usize,
    ctx: &Context,
    function: &Function,
    registry: &ModelRegistry,
) -> (pending: Vec<PendingCall>)
    requires
        old(facts).wf(),
    ensures
        final(facts).wf(),
        (CallsView { facts: final(facts)@, pending: pending_views(pending@) }) == with_body(
            old(facts)@,
            func,
            ctx@,
            *function,
            *registry,
        ),
        old(facts)@.arena.extends_to(final(facts)@.arena),
        forall|i: int|
            0 <= i < pending@.len() ==> pending_ok(
                (#[trigger] pending@[i])@,
                final(facts)@.arena,
            ),
{
    let ghost v = facts@;
    facts.add_flows(func, ctx, &function.flows);
    facts.add_captures(func, ctx, &function.captures);
    let ghost s = CallsView { facts: facts@, pending: Seq::empty() };
    let mut pending: Vec<PendingCall> = Vec::new();
    proof {
        assert(pending_views(pending@) =~= Seq::<PendingView>::empty());
    }
    let mut i: usize = 0;
    while i < function.calls.len()
        invariant
            i <= function.calls@.len(),
            facts.wf(),
            v.arena.extends_to(facts@.arena),
            (CallsView { facts: facts@, pending: pending_views(pending@) }) == with_calls(
                s,
                func,
                ctx@,
                function.calls@.take(i as int),
                *registry,
            ),
            forall|j: int|
                0 <= j < pending@.len() ==> pending_ok((#[trigger] pending@[j])@, facts@.arena),
        decreases function.calls@.len() - i,
    {
        proof {
            assert(function.calls@.take(i + 1).drop_last() =~= function.calls@.take(i as int));
        }
        facts.add_call(func, ctx, &function.calls[i], registry, &mut pending);
        i = i + 1;
    }
    proof {
        assert(function.calls@.take(i as int) =~= function.calls@);
    }
    pending
}

} // verus!
