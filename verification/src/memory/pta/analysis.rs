//! Whole-program driver.
//!
//! [`PointerAnalysis`] builds the constraints of every function that can be
//! reached by direct calls from a set of roots. Calls of analyzed functions are
//! bound to their parameters and results; any other call is handled
//! conservatively. Each function is built once for each of its contexts, the
//! last `k` call sites on the way to it.

use super::builder::{
    args_ok, build_body, constraint_ok, constraints_ok, facts_constrain_all, pending_extend,
    pending_ok, pending_views, with_body, CallsView, Facts, FactsView, PendingCall, PendingView,
};
use super::constraint::Constraint;
use super::context::{contexts_are_bounded, extended, KCallSite};
use super::ids::{id_lists, IdVec};
use super::interproc::FuncMap;
use super::loc::{
    place_in, with_item, ArenaView, CallSite, Context, FieldPath, LocId, LocView, ProjElem,
};
use super::model::{arg_copies, unknown_constraints, ModelRegistry};
use super::program::{Function, Program};
use crate::collections::{list_at, KeyedMap};
use crate::enumeration::{
    below, below_complete, distinct_within, pairs, pairs_complete, words, words_complete,
};
use crate::translate::mir::{DefId, InstanceId};
use std::collections::VecDeque;
use vstd::prelude::*;

verus! {

/// How many fields of a closure environment are bound. Fields that were not
/// captured are copies of nothing.
pub const MAX_UPVAR_FIELDS: u32 = 32;

/// The first number of a temporary.
pub const FIRST_TEMP: usize = 1_000_000;

/// A function in a context.
pub type InContext = (InstanceId, Seq<CallSite>);

/// A closure that was built, with its number.
pub struct ClosureView {
    pub instance: InstanceId,
    pub ctx: Seq<CallSite>,
    pub func: usize,
}

/// How far the analysis has come.
#[verifier::ext_equal]
pub struct PtaView {
    pub facts: FactsView,
    pub funcs: Seq<InstanceId>,
    /// The functions that were built, in their contexts.
    pub built: Seq<InContext>,
    /// The closures whose environments are still to be bound.
    pub closures: Seq<ClosureView>,
    /// The number of the next temporary.
    pub temp: usize,
}

/// The number after `n`; the largest one stays.
pub open spec fn next_number(n: usize) -> usize {
    if n < usize::MAX {
        (n + 1) as usize
    } else {
        n
    }
}

impl PtaView {
    /// The analysis with other facts.
    pub open spec fn with_facts(self, facts: FactsView) -> PtaView {
        PtaView { facts, ..self }
    }

    /// The analysis with another arena.
    pub open spec fn with_arena(self, arena: ArenaView) -> PtaView {
        self.with_facts(self.facts.with_arena(arena))
    }

    /// The analysis with one more constraint.
    pub open spec fn with_constraint(self, c: Constraint) -> PtaView {
        self.with_facts(self.facts.with_constraint(c))
    }

    /// The location of the next temporary.
    pub open spec fn temp_loc(self) -> LocView {
        LocView::Var {
            ctx: Seq::empty(),
            func: 0,
            base: self.temp,
            path: self.facts.arena.empty_id(),
        }
    }

    /// The number of the location of the next temporary.
    pub open spec fn temp_id(self) -> LocId {
        self.facts.arena.with_empty().loc_id(self.temp_loc())
    }

    /// The analysis with one more temporary.
    pub open spec fn with_temp(self) -> PtaView {
        PtaView {
            temp: next_number(self.temp),
            ..self.with_arena(self.facts.arena.with_empty().with_loc(self.temp_loc()))
        }
    }
}

/// The location of a part of a local.
pub open spec fn var(ctx: Seq<CallSite>, func: usize, base: usize, path: FieldPath) -> LocView {
    LocView::Var { ctx, func, base, path }
}

/// The binding of one leaf field of a parameter: the field of the parameter
/// holds what the field of the argument's pointees holds.
pub open spec fn with_leaf(s: PtaView, param: LocId, arg: LocId, path: Seq<ProjElem>) -> PtaView {
    let id = s.facts.arena.path_id(path);
    let named = s.with_arena(s.facts.arena.with_path(path));
    if path.len() == 0 {
        named
    } else {
        match named.facts.arena.project(param, id) {
            Some(part) => {
                let t = named.with_arena(named.facts.arena.with_projection(param, id));
                t.with_temp().with_constraint(
                    Constraint::Offset { dst: t.temp_id(), src: arg, suffix: id },
                ).with_constraint(Constraint::Load { dst: part, src: t.temp_id() })
            },
            None => named,
        }
    }
}

/// The binding of the leaf fields of a parameter.
pub open spec fn with_leaves(
    s: PtaView,
    param: LocId,
    arg: LocId,
    paths: Seq<Vec<ProjElem>>,
) -> PtaView
    decreases paths.len(),
{
    if paths.len() == 0 {
        s
    } else {
        with_leaf(with_leaves(s, param, arg, paths.drop_last()), param, arg, paths.last()@)
    }
}

/// The leaf fields of a parameter's type.
pub open spec fn leaf_paths(function: Function, i: int) -> Seq<Vec<ProjElem>> {
    if 0 < i <= function.param_paths@.len() {
        function.param_paths@[i - 1]@
    } else {
        Seq::empty()
    }
}

/// The binding of a parameter: it holds what the argument holds, and so do its
/// fields.
pub open spec fn with_param(
    s: PtaView,
    func: usize,
    ctx: Seq<CallSite>,
    function: Function,
    i: usize,
    args: Seq<Option<LocId>>,
) -> PtaView {
    if 0 < i <= args.len() && args[i - 1] is Some {
        let arg = args[i - 1]->0;
        let a = s.facts.arena.with_empty();
        let loc = var(ctx, func, i, s.facts.arena.empty_id());
        let param = a.loc_id(loc);
        with_leaves(
            s.with_arena(a.with_loc(loc)).with_constraint(
                Constraint::Copy { dst: param, src: arg },
            ),
            param,
            arg,
            leaf_paths(function, i as int),
        )
    } else {
        s
    }
}

/// The binding of the first `n` parameters.
pub open spec fn with_params(
    s: PtaView,
    func: usize,
    ctx: Seq<CallSite>,
    function: Function,
    n: nat,
    args: Seq<Option<LocId>>,
) -> PtaView
    decreases n,
{
    if n == 0 {
        s
    } else {
        with_param(
            with_params(s, func, ctx, function, (n - 1) as nat, args),
            func,
            ctx,
            function,
            n as usize,
            args,
        )
    }
}

/// The binding of a call to an analyzed function: the result holds what the
/// function returns, and the parameters hold the arguments.
pub open spec fn with_callee(
    s: PtaView,
    callee: InstanceId,
    ctx: Seq<CallSite>,
    function: Function,
    call: PendingView,
) -> PtaView {
    let func = place_in(s.funcs, callee) as usize;
    let a = s.facts.arena.with_empty();
    let loc = var(ctx, func, 0, s.facts.arena.empty_id());
    let ret = a.loc_id(loc);
    let t = PtaView {
        funcs: with_item(s.funcs, callee),
        ..s.with_arena(a.with_loc(loc)).with_constraint(
            Constraint::Copy { dst: call.dest, src: ret },
        )
    };
    with_params(t, func, ctx, function, function.arg_count as nat, call.args)
}

/// The analysis, and the functions that are still to be built.
#[verifier::ext_equal]
pub struct RunView {
    pub pta: PtaView,
    pub queue: Seq<InContext>,
}

/// What is fixed while the analysis runs.
pub struct Setting {
    pub program: Program,
    pub registry: ModelRegistry,
    pub k: nat,
}

/// The context of the callee of a call.
pub open spec fn callee_context(
    set: Setting,
    func: usize,
    ctx: Seq<CallSite>,
    call: PendingView,
) -> Seq<CallSite> {
    extended(ctx, CallSite { func, bb: call.bb }, set.k)
}

/// The call is one of an analyzed function.
pub open spec fn is_resolved(set: Setting, call: PendingView) -> bool {
    match call.callee {
        Some(c) => c < set.program.functions@.len() && set.program.functions@[c as int].analyzed(),
        None => false,
    }
}

/// The analysis with one call resolved: the callee is bound and is to be built
/// in its context, or else the call is handled conservatively.
pub open spec fn resolved(
    set: Setting,
    s: RunView,
    func: usize,
    ctx: Seq<CallSite>,
    call: PendingView,
) -> RunView {
    if is_resolved(set, call) {
        let callee = call.callee->0;
        let callee_ctx = callee_context(set, func, ctx, call);
        RunView {
            pta: with_callee(
                s.pta,
                callee,
                callee_ctx,
                set.program.functions@[callee as int],
                call,
            ),
            queue: if s.pta.built.contains((callee, callee_ctx)) {
                s.queue
            } else {
                s.queue.push((callee, callee_ctx))
            },
        }
    } else {
        RunView {
            pta: s.pta.with_facts(
                s.pta.facts.with_constraints(
                    unknown_constraints(call.dest, call.args, call.heap),
                ),
            ),
            ..s
        }
    }
}

/// The analysis with calls resolved, first to last.
pub open spec fn all_resolved(
    set: Setting,
    s: RunView,
    func: usize,
    ctx: Seq<CallSite>,
    calls: Seq<PendingView>,
) -> RunView
    decreases calls.len(),
{
    if calls.len() == 0 {
        s
    } else {
        resolved(
            set,
            all_resolved(set, s, func, ctx, calls.drop_last()),
            func,
            ctx,
            calls.last(),
        )
    }
}

/// The body of a function in a context, and its calls left to be resolved.
pub open spec fn body_of(set: Setting, s: PtaView, x: InContext) -> CallsView {
    with_body(
        s.facts,
        place_in(s.funcs, x.0) as usize,
        x.1,
        set.program.functions@[x.0 as int],
        set.registry,
    )
}

/// The analysis with a function numbered and built in a context, its calls left
/// to be resolved.
pub open spec fn entered(set: Setting, s: PtaView, x: InContext) -> PtaView {
    let func = place_in(s.funcs, x.0) as usize;
    PtaView {
        facts: body_of(set, s, x).facts,
        funcs: with_item(s.funcs, x.0),
        built: s.built.push(x),
        closures: if set.program.functions@[x.0 as int].is_closure_like {
            s.closures.push(ClosureView { instance: x.0, ctx: x.1, func })
        } else {
            s.closures
        },
        ..s
    }
}

/// The analysis after the first function of the queue: one that was built in
/// its context, or that is not analyzed, is skipped.
pub open spec fn visited(set: Setting, s: RunView) -> RunView {
    let x = s.queue[0];
    let rest = s.queue.drop_first();
    if s.pta.built.contains(x) {
        RunView { queue: rest, ..s }
    } else if !set.program.functions@[x.0 as int].analyzed() {
        RunView { pta: PtaView { built: s.pta.built.push(x), ..s.pta }, queue: rest }
    } else {
        all_resolved(
            set,
            RunView { pta: entered(set, s.pta, x), queue: rest },
            place_in(s.pta.funcs, x.0) as usize,
            x.1,
            body_of(set, s.pta, x).pending,
        )
    }
}

/// The run leads from one state to the other, function by function, until
/// nothing is left to be built.
pub open spec fn is_run(set: Setting, trace: Seq<RunView>) -> bool {
    &&& trace.len() > 0
    &&& trace.last().queue.len() == 0
    &&& forall|i: int|
        0 <= i < trace.len() - 1 ==> (#[trigger] trace[i]).queue.len() > 0 && trace[i + 1]
            == visited(set, trace[i])
}

/// Building from the first state ends in the second.
pub open spec fn runs_to(set: Setting, s: RunView, t: PtaView) -> bool {
    exists|trace: Seq<RunView>| #[trigger]
        is_run(set, trace) && trace[0] == s && trace.last().pta == t
}

/// The binding of one field of a closure's environment parameter: it holds
/// what the field of the environment holds.
pub open spec fn with_env_field(
    s: PtaView,
    c: ClosureView,
    heap: LocId,
    path: FieldPath,
) -> PtaView {
    let loc = var(c.ctx, c.func, 1, path);
    let field = s.facts.arena.loc_id(loc);
    let named = s.with_arena(s.facts.arena.with_loc(loc));
    match named.facts.arena.project(heap, path) {
        Some(part) => named.with_arena(
            named.facts.arena.with_projection(heap, path),
        ).with_constraint(Constraint::Copy { dst: field, src: part }),
        None => named,
    }
}

/// The binding of the first `n` fields of a closure's environment parameter.
pub open spec fn with_env_slots(s: PtaView, c: ClosureView, heap: LocId, n: nat) -> PtaView
    decreases n,
{
    if n == 0 {
        s
    } else {
        let before = with_env_slots(s, c, heap, (n - 1) as nat);
        let path = seq![ProjElem::Field((n - 1) as u32)];
        let id = before.facts.arena.path_id(path);
        with_env_field(before.with_arena(before.facts.arena.with_path(path)), c, heap, id)
    }
}

/// The binding of captured parts of a closure's environment parameter.
pub open spec fn with_env_parts(
    s: PtaView,
    c: ClosureView,
    heap: LocId,
    paths: Seq<FieldPath>,
) -> PtaView
    decreases paths.len(),
{
    if paths.len() == 0 {
        s
    } else {
        let before = with_env_parts(s, c, heap, paths.drop_last());
        if before.facts.arena.paths[paths.last() as int].len() == 0 {
            before
        } else {
            with_env_field(before, c, heap, paths.last())
        }
    }
}

/// The binding of a closure's environment parameter to one environment. A
/// closure's parameter points to the environment, and its fields hold what the
/// environment's fields hold; a coroutine's parameter holds the state pointer
/// in its first field.
pub open spec fn with_env(
    s: PtaView,
    c: ClosureView,
    coroutine: bool,
    heap: LocId,
    paths: Seq<FieldPath>,
) -> PtaView {
    let empty = s.facts.arena.empty_id();
    let named = s.with_arena(s.facts.arena.with_empty());
    if coroutine {
        let path = seq![ProjElem::Field(0)];
        let id = named.facts.arena.path_id(path);
        let loc = var(c.ctx, c.func, 1, id);
        let a = named.facts.arena.with_path(path);
        named.with_arena(a.with_loc(loc)).with_constraint(
            Constraint::AddressOf { dst: a.loc_id(loc), obj: heap },
        )
    } else {
        let loc = var(c.ctx, c.func, 1, empty);
        let env = named.facts.arena.loc_id(loc);
        let t = named.with_arena(named.facts.arena.with_loc(loc)).with_constraint(
            Constraint::AddressOf { dst: env, obj: heap },
        );
        with_env_parts(
            with_env_slots(t, c, heap, MAX_UPVAR_FIELDS as nat),
            c,
            heap,
            paths,
        )
    }
}

/// The binding of a closure's environment parameter to the environments made
/// where the closure is constructed.
pub open spec fn with_envs(
    s: PtaView,
    c: ClosureView,
    coroutine: bool,
    heaps: Seq<LocId>,
    paths: Seq<FieldPath>,
) -> PtaView
    decreases heaps.len(),
{
    if heaps.len() == 0 {
        s
    } else {
        with_env(
            with_envs(s, c, coroutine, heaps.drop_last(), paths),
            c,
            coroutine,
            heaps.last(),
            paths,
        )
    }
}

/// The binding of one closure that was built.
pub open spec fn with_closure(set: Setting, s: PtaView, c: ClosureView) -> PtaView {
    let function = set.program.functions@[c.instance as int];
    with_envs(
        s,
        c,
        function.is_coroutine,
        list_at(s.facts.envs, function.def_id),
        list_at(s.facts.env_paths, function.def_id),
    )
}

/// The binding of the closures that were built.
pub open spec fn with_closures(set: Setting, s: PtaView, closures: Seq<ClosureView>) -> PtaView
    decreases closures.len(),
{
    if closures.len() == 0 {
        s
    } else {
        with_closure(set, with_closures(set, s, closures.drop_last()), closures.last())
    }
}

/// The roots, in the empty context.
pub open spec fn root_queue(roots: Seq<InstanceId>) -> Seq<InContext> {
    roots.map_values(|i: InstanceId| (i, Seq::<CallSite>::empty()))
}

/// Building what the roots reach leads from one state to the other: first the
/// functions, then the environments of the closures among them.
pub open spec fn builds(set: Setting, s: PtaView, roots: Seq<InstanceId>, t: PtaView) -> bool {
    exists|u: PtaView| #[trigger]
        runs_to(set, RunView { pta: s, queue: root_queue(roots) }, u) && t == with_closures(
            set,
            PtaView { closures: Seq::empty(), ..u },
            u.closures,
        )
}

/// A closure that was built, with its number.
#[derive(Debug)]
pub struct BuiltClosure {
    pub instance: InstanceId,
    pub ctx: Context,
    pub func: usize,
}

impl View for BuiltClosure {
    type V = ClosureView;

    open spec fn view(&self) -> ClosureView {
        ClosureView { instance: self.instance, ctx: self.ctx@, func: self.func }
    }
}

/// Functions in their contexts.
pub open spec fn context_views(s: Seq<(InstanceId, Context)>) -> Seq<InContext> {
    s.map_values(|x: (InstanceId, Context)| (x.0, x.1@))
}

/// The closures that were built.
pub open spec fn closure_views(s: Seq<BuiltClosure>) -> Seq<ClosureView> {
    s.map_values(|c: BuiltClosure| c@)
}

/// The pointer analysis of a program.
pub struct PointerAnalysis<'p> {
    pub program: &'p Program,
    pub facts: Facts,
    pub funcs: FuncMap,
    pub registry: ModelRegistry,
    pub policy: KCallSite,
    /// The functions that were built, in their contexts.
    pub built: Vec<(InstanceId, Context)>,
    /// The closures whose environments are still to be bound: the function that
    /// constructs a closure may be built after it.
    pub built_closures: Vec<BuiltClosure>,
    /// The number of the next temporary.
    pub temp_counter: usize,
}

impl<'p> View for PointerAnalysis<'p> {
    type V = PtaView;

    open spec fn view(&self) -> PtaView {
        PtaView {
            facts: self.facts@,
            funcs: self.funcs@,
            built: context_views(self.built@),
            closures: closure_views(self.built_closures@),
            temp: self.temp_counter,
        }
    }
}

/// The functions are instances of the program, in contexts of at most `k` call
/// sites.
pub open spec fn contexts_ok(s: Seq<InContext>, n: nat, k: nat) -> bool {
    forall|i: int| 0 <= i < s.len() ==> (#[trigger] s[i]).0 < n && s[i].1.len() <= k
}

/// What was built is part of the program, and nothing was built twice.
#[verifier::opaque]
pub open spec fn built_ok(built: Seq<InContext>, closures: Seq<ClosureView>, n: nat, k: nat) -> bool {
    &&& built.no_duplicates()
    &&& contexts_ok(built, n, k)
    &&& forall|i: int| 0 <= i < closures.len() ==> (#[trigger] closures[i]).instance < n
}

/// Every analyzed function that was built has a number.
#[verifier::opaque]
pub open spec fn built_numbered(
    program: Program,
    built: Seq<InContext>,
    funcs: Seq<InstanceId>,
) -> bool {
    forall|i: int|
        0 <= i < built.len() && program.functions@[(#[trigger] built[i]).0 as int].analyzed()
            ==> funcs.contains(built[i].0)
}

/// Numbering one more function takes no number away.
proof fn numbered_more(
    program: Program,
    built: Seq<InContext>,
    funcs: Seq<InstanceId>,
    instance: InstanceId,
)
    requires
        built_numbered(program, built, funcs),
    ensures
        built_numbered(program, built, with_item(funcs, instance)),
{
    reveal(built_numbered);
    let after = with_item(funcs, instance);
    assert forall|i: int|
        0 <= i < built.len() && program.functions@[(
        #[trigger] built[i]).0 as int].analyzed() implies after.contains(built[i].0) by {
        let k = choose|k: int| 0 <= k < funcs.len() && funcs[k] == built[i].0;
        assert(after[k] == built[i].0);
    }
}

/// A function that is numbered, or not analyzed, may be built.
proof fn numbered_built(
    program: Program,
    built: Seq<InContext>,
    funcs: Seq<InstanceId>,
    x: InContext,
)
    requires
        built_numbered(program, built, funcs),
        program.functions@[x.0 as int].analyzed() ==> funcs.contains(x.0),
    ensures
        built_numbered(program, built.push(x), funcs),
{
    reveal(built_numbered);
    let after = built.push(x);
    assert forall|i: int|
        0 <= i < after.len() && program.functions@[(
        #[trigger] after[i]).0 as int].analyzed() implies funcs.contains(after[i].0) by {
        if i < built.len() {
            assert(after[i] == built[i]);
        }
    }
}

impl<'p> PointerAnalysis<'p> {
    /// What is fixed while the analysis runs.
    pub open spec fn setting(&self) -> Setting {
        Setting { program: *self.program, registry: self.registry, k: self.policy.k as nat }
    }

    /// What the analysis speaks of is numbered and part of the program.
    pub open spec fn wf(&self) -> bool {
        &&& self.program.wf()
        &&& self.facts.wf()
        &&& built_ok(
            self@.built,
            self@.closures,
            self.program.functions@.len(),
            self.policy.k as nat,
        )
        &&& built_numbered(*self.program, self@.built, self@.funcs)
    }

    /// The other analysis is of the same program, with the same models and
    /// contexts.
    pub open spec fn alike(&self, other: &Self) -> bool {
        self.program == other.program && self.registry == other.registry && self.policy
            == other.policy
    }

    /// An analysis without contexts.
    pub fn new(program: &'p Program) -> (r: Self)
        requires
            program.wf(),
        ensures
            r.wf(),
            r.program == program,
            r.policy.k == 0,
            r.registry.models@.len() == 0,
            r@ == nothing_built(),
    {
        Self::with_k(program, 0)
    }

    /// An analysis with contexts of the last `k` call sites.
    pub fn with_k(program: &'p Program, k: usize) -> (r: Self)
        requires
            program.wf(),
        ensures
            r.wf(),
            r.program == program,
            r.policy.k == k,
            r.registry.models@.len() == 0,
            r@ == nothing_built(),
    {
        let r = PointerAnalysis {
            program,
            facts: Facts::new(),
            funcs: FuncMap::new(),
            registry: ModelRegistry::builtin(),
            policy: KCallSite::new(k),
            built: Vec::new(),
            built_closures: Vec::new(),
            temp_counter: FIRST_TEMP,
        };
        proof {
            reveal(built_ok);
            reveal(built_numbered);
            assert(r@ =~= nothing_built());
        }
        r
    }

    /// The models of calls, to add to.
    pub fn registry_mut(&mut self) -> (r: &mut ModelRegistry)
        ensures
            *r == old(self).registry,
            *final(self) == (PointerAnalysis { registry: *final(r), ..*old(self) }),
    {
        &mut self.registry
    }
}

/// The analysis that has built nothing.
pub open spec fn nothing_built() -> PtaView {
    PtaView {
        facts: FactsView {
            arena: ArenaView { paths: Seq::empty(), locs: Seq::empty() },
            constraints: Seq::empty(),
            envs: Map::empty(),
            env_paths: Map::empty(),
        },
        funcs: Seq::empty(),
        built: Seq::empty(),
        closures: Seq::empty(),
        temp: FIRST_TEMP,
    }
}

/// What an argument list holds is numbered, also when more is.
proof fn arg_numbered(args: Seq<Option<LocId>>, a: ArenaView, b: ArenaView, i: int)
    requires
        args_ok(args, a),
        a.extends_to(b),
        0 <= i < args.len(),
        args[i] is Some,
    ensures
        args[i]->0 < b.locs.len(),
{
    let x = args[i];
    assert(match x {
        Some(id) => id < a.locs.len(),
        None => true,
    });
}

/// What is known of an unknown call is between numbered locations.
proof fn unknown_ok(c: PendingView, arena: ArenaView)
    requires
        pending_ok(c, arena),
    ensures
        constraints_ok(unknown_constraints(c.dest, c.args, c.heap), arena),
{
    copies_ok(c.dest, c.args, arena);
    let copies = arg_copies(c.dest, c.args);
    let all = unknown_constraints(c.dest, c.args, c.heap);
    assert forall|i: int| 0 <= i < all.len() implies constraint_ok(#[trigger] all[i], arena) by {
        if i < copies.len() {
            assert(all[i] == copies[i]);
        }
    }
}

proof fn copies_ok(dest: LocId, args: Seq<Option<LocId>>, arena: ArenaView)
    requires
        dest < arena.locs.len(),
        args_ok(args, arena),
    ensures
        constraints_ok(arg_copies(dest, args), arena),
    decreases args.len(),
{
    if args.len() > 0 {
        let front = args.drop_last();
        assert(args_ok(front, arena)) by {
            assert forall|i: int| 0 <= i < front.len() implies (match #[trigger] front[i] {
                Some(id) => id < arena.locs.len(),
                None => true,
            }) by {
                let x = args[i];
                assert(front[i] == x);
                assert(match x {
                    Some(id) => id < arena.locs.len(),
                    None => true,
                });
            }
        }
        copies_ok(dest, front, arena);
        let before = arg_copies(dest, front);
        let all = arg_copies(dest, args);
        let last = args[args.len() - 1];
        assert(match last {
            Some(id) => id < arena.locs.len(),
            None => true,
        });
        assert forall|i: int| 0 <= i < all.len() implies constraint_ok(#[trigger] all[i], arena) by {
            if i < before.len() {
                assert(all[i] == before[i]);
            }
        }
    }
}

impl<'p> PointerAnalysis<'p> {
    /// Only the facts, the numbers of functions and the temporaries have
    /// changed, and what was numbered is so still.
    pub open spec fn kept(&self, before: &Self) -> bool {
        &&& self.alike(before)
        &&& self.built == before.built
        &&& self.built_closures == before.built_closures
        &&& before@.facts.arena.extends_to(self@.facts.arena)
        &&& self@.facts.envs == before@.facts.envs
        &&& self@.facts.env_paths == before@.facts.env_paths
    }

    /// Numbers a temporary, which is no local of any body.
    fn fresh_temp_loc(&mut self) -> (id: LocId)
        requires
            old(self).wf(),
        ensures
            final(self).wf(),
            final(self).kept(old(self)),
            final(self).funcs == old(self).funcs,
            final(self)@ == old(self)@.with_temp(),
            id == old(self)@.temp_id(),
            id < final(self)@.facts.arena.locs.len(),
    {
        let base = self.temp_counter;
        self.temp_counter = if base < usize::MAX {
            base + 1
        } else {
            base
        };
        let empty = self.facts.name_empty();
        let none = Context::empty();
        self.facts.name_var(&none, 0, base, empty)
    }

    /// Binds one leaf field of a parameter.
    fn bind_leaf(&mut self, param: LocId, arg: LocId, path: &Vec<ProjElem>)
        requires
            old(self).wf(),
            param < old(self)@.facts.arena.locs.len(),
            arg < old(self)@.facts.arena.locs.len(),
        ensures
            final(self).wf(),
            final(self).kept(old(self)),
            final(self).funcs == old(self).funcs,
            final(self)@ == with_leaf(old(self)@, param, arg, path@),
    {
        let id = self.facts.name_path(path);
        if path.len() == 0 {
            return;
        }
        match self.facts.name_part(param, id) {
            Some(part) => {
                let temp = self.fresh_temp_loc();
                self.facts.constrain(Constraint::Offset { dst: temp, src: arg, suffix: id });
                self.facts.constrain(Constraint::Load { dst: part, src: temp });
            },
            None => {},
        }
    }

    /// Binds the leaf fields of a parameter.
    fn bind_leaves(&mut self, param: LocId, arg: LocId, paths: &Vec<Vec<ProjElem>>)
        requires
            old(self).wf(),
            param < old(self)@.facts.arena.locs.len(),
            arg < old(self)@.facts.arena.locs.len(),
        ensures
            final(self).wf(),
            final(self).kept(old(self)),
            final(self).funcs == old(self).funcs,
            final(self)@ == with_leaves(old(self)@, param, arg, paths@),
    {
        let ghost s = self@;
        let mut i: usize = 0;
        while i < paths.len()
            invariant
                i <= paths@.len(),
                self.wf(),
                self.kept(old(self)),
                self.funcs == old(self).funcs,
                s == old(self)@,
                param < s.facts.arena.locs.len(),
                arg < s.facts.arena.locs.len(),
                self@ == with_leaves(s, param, arg, paths@.take(i as int)),
            decreases paths@.len() - i,
        {
            proof {
                assert(paths@.take(i + 1).drop_last() =~= paths@.take(i as int));
            }
            self.bind_leaf(param, arg, &paths[i]);
            i = i + 1;
        }
        proof {
            assert(paths@.take(i as int) =~= paths@);
        }
    }

    /// Binds a parameter.
    fn bind_param(
        &mut self,
        func: usize,
        ctx: &Context,
        function: &Function,
        i: usize,
        args: &Vec<Option<LocId>>,
    )
        requires
            old(self).wf(),
            args_ok(args@, old(self)@.facts.arena),
            i > 0,
        ensures
            final(self).wf(),
            final(self).kept(old(self)),
            final(self).funcs == old(self).funcs,
            final(self)@ == with_param(old(self)@, func, ctx@, *function, i, args@),
    {
        if i > args.len() {
            return;
        }
        match args[i - 1] {
            Some(arg) => {
                let ghost a = self@.facts.arena;
                let empty = self.facts.name_empty();
                let param = self.facts.name_var(ctx, func, i, empty);
                proof {
                    arg_numbered(args@, a, self@.facts.arena, i - 1);
                }
                self.facts.constrain(Constraint::Copy { dst: param, src: arg });
                if i <= function.param_paths.len() {
                    self.bind_leaves(param, arg, &function.param_paths[i - 1]);
                }
            },
            None => {},
        }
    }

    /// Binds a call to an analyzed function.
    fn bind_callee(
        &mut self,
        callee: InstanceId,
        ctx: &Context,
        function: &Function,
        call: &PendingCall,
    )
        requires
            old(self).wf(),
            pending_ok(call@, old(self)@.facts.arena),
        ensures
            final(self).wf(),
            final(self).kept(old(self)),
            final(self)@ == with_callee(old(self)@, callee, ctx@, *function, call@),
    {
        let ghost a = self@.facts.arena;
        let func = self.funcs.intern(callee);
        proof {
            numbered_more(*self.program, old(self)@.built, old(self)@.funcs, callee);
        }
        let empty = self.facts.name_empty();
        let ret = self.facts.name_var(ctx, func, 0, empty);
        self.facts.constrain(Constraint::Copy { dst: call.nodes.dest, src: ret });
        let ghost t = self@;
        let ghost args = call.nodes.args@;
        let mut i: usize = 0;
        while i < function.arg_count
            invariant
                i <= function.arg_count,
                self.wf(),
                self.kept(old(self)),
                a == old(self)@.facts.arena,
                args == call.nodes.args@,
                args_ok(args, a),
                self@ == with_params(t, func, ctx@, *function, i as nat, args),
            decreases function.arg_count - i,
        {
            i = i + 1;
            proof {
                args_stay(args, a, self@.facts.arena);
            }
            self.bind_param(func, ctx, function, i, &call.nodes.args);
        }
    }

    /// Whether a function was built in a context.
    fn is_built(&self, instance: InstanceId, ctx: &Context) -> (b: bool)
        ensures
            b == self@.built.contains((instance, ctx@)),
    {
        let mut i: usize = 0;
        while i < self.built.len()
            invariant
                i <= self.built@.len(),
                forall|j: int| 0 <= j < i ==> #[trigger] self@.built[j] != (instance, ctx@),
            decreases self.built@.len() - i,
        {
            if self.built[i].0 == instance && self.built[i].1.same(ctx) {
                proof {
                    assert(self@.built[i as int] == (instance, ctx@));
                }
                return true;
            }
            i = i + 1;
        }
        proof {
            if self@.built.contains((instance, ctx@)) {
                let j = choose|j: int|
                    0 <= j < self@.built.len() && self@.built[j] == (instance, ctx@);
                assert(self@.built[j] != (instance, ctx@));
            }
        }
        false
    }

    /// Handles a call of which nothing is known.
    fn apply_unknown(&mut self, call: &PendingCall)
        requires
            old(self).wf(),
            pending_ok(call@, old(self)@.facts.arena),
        ensures
            final(self).wf(),
            final(self).kept(old(self)),
            final(self)@ == old(self)@.with_facts(
                old(self)@.facts.with_constraints(
                    unknown_constraints(call@.dest, call@.args, call@.heap),
                ),
            ),
    {
        let ghost v = self@.facts;
        self.registry.apply_unknown(&call.nodes, &mut self.facts.constraints);
        proof {
            unknown_ok(call@, v.arena);
            let cs = unknown_constraints(call@.dest, call@.args, call@.heap);
            facts_constrain_all(v, cs);
            assert(self@.facts =~= v.with_constraints(cs));
        }
    }

    /// Resolves a call.
    fn resolve_pending(
        &mut self,
        caller_func: usize,
        caller_ctx: &Context,
        call: &PendingCall,
        queue: &mut VecDeque<(InstanceId, Context)>,
    )
        requires
            old(self).wf(),
            caller_ctx@.len() <= old(self).policy.k,
            pending_ok(call@, old(self)@.facts.arena),
            contexts_ok(
                context_views(old(queue)@),
                old(self).program.functions@.len(),
                old(self).policy.k as nat,
            ),
        ensures
            final(self).wf(),
            final(self).kept(old(self)),
            (RunView { pta: final(self)@, queue: context_views(final(queue)@) }) == resolved(
                old(self).setting(),
                RunView { pta: old(self)@, queue: context_views(old(queue)@) },
                caller_func,
                caller_ctx@,
                call@,
            ),
            contexts_ok(
                context_views(final(queue)@),
                old(self).program.functions@.len(),
                old(self).policy.k as nat,
            ),
    {
        let program = self.program;
        let k = Ghost(self.policy.k as nat);
        match call.callee {
            Some(callee) => {
                if callee < program.functions.len() && program.functions[callee].is_user_item
                    && !program.functions[callee].is_promoted {
                    let site = CallSite { func: caller_func, bb: call.bb };
                    let ctx = self.policy.extend(caller_ctx, site);
                    self.bind_callee(callee, &ctx, &program.functions[callee], call);
                    if !self.is_built(callee, &ctx) {
                        let ghost before = queue@;
                        proof {
                            contexts_are_bounded(caller_ctx@, site, k@);
                        }
                        let ghost x = (callee, ctx@);
                        queue.push_back((callee, ctx));
                        proof {
                            let views = context_views(queue@);
                            assert(views =~= context_views(before).push(x));
                            assert forall|i: int| 0 <= i < views.len() implies (
                            #[trigger] views[i]).0 < program.functions@.len() && views[i].1.len()
                                <= k@ by {
                                if i < before.len() {
                                    assert(views[i] == context_views(before)[i]);
                                }
                            }
                        }
                    }
                    return;
                }
            },
            None => {},
        }
        self.apply_unknown(call);
    }
}

/// What an argument list holds stays numbered.
proof fn args_stay(args: Seq<Option<LocId>>, a: ArenaView, b: ArenaView)
    requires
        args_ok(args, a),
        a.extends_to(b),
    ensures
        args_ok(args, b),
{
    assert forall|i: int| 0 <= i < args.len() implies (match #[trigger] args[i] {
        Some(id) => id < b.locs.len(),
        None => true,
    }) by {
        let x = args[i];
        assert(match x {
            Some(id) => id < a.locs.len(),
            None => true,
        });
    }
}

/// All call sites.
pub open spec fn all_sites() -> Seq<CallSite> {
    let numbers = below((usize::MAX + 1) as nat);
    pairs(numbers, numbers).map_values(|p: (usize, usize)| CallSite { func: p.0, bb: p.1 })
}

/// All functions in all contexts of at most `k` call sites.
pub open spec fn all_contexts(k: nat) -> Seq<InContext> {
    pairs(below((usize::MAX + 1) as nat), words(all_sites(), k))
}

/// What was built is no more than there are functions in contexts.
proof fn built_bounded(built: Seq<InContext>, closures: Seq<ClosureView>, n: nat, k: nat)
    requires
        built_ok(built, closures, n, k),
    ensures
        built.len() <= all_contexts(k).len(),
{
    reveal(built_ok);
    let numbers = below((usize::MAX + 1) as nat);
    let sites = all_sites();
    assert forall|i: int| 0 <= i < built.len() implies all_contexts(k).contains(
        #[trigger] built[i],
    ) by {
        let (instance, ctx) = built[i];
        below_complete((usize::MAX + 1) as nat, instance);
        assert forall|j: int| 0 <= j < ctx.len() implies sites.contains(#[trigger] ctx[j]) by {
            let site = ctx[j];
            below_complete((usize::MAX + 1) as nat, site.func);
            below_complete((usize::MAX + 1) as nat, site.bb);
            pairs_complete(numbers, numbers, site.func, site.bb);
            let all = pairs(numbers, numbers);
            let m = choose|m: int| 0 <= m < all.len() && all[m] == (site.func, site.bb);
            assert(sites[m] == site);
        }
        words_complete(sites, k, ctx);
        pairs_complete(numbers, words(sites, k), instance, ctx);
    }
    distinct_within(built, all_contexts(k));
}

/// One more function that was not built yet.
proof fn built_grows(
    built: Seq<InContext>,
    closures: Seq<ClosureView>,
    n: nat,
    k: nat,
    x: InContext,
)
    requires
        built_ok(built, closures, n, k),
        !built.contains(x),
        x.0 < n,
        x.1.len() <= k,
    ensures
        built_ok(built.push(x), closures, n, k),
{
    reveal(built_ok);
    let all = built.push(x);
    assert forall|a: int, b: int|
        0 <= a < all.len() && 0 <= b < all.len() && a != b implies all[a] != all[b] by {
        if a < built.len() && b < built.len() {
            assert(built[a] != built[b]);
        } else if a < built.len() {
            assert(built.contains(built[a]));
        } else {
            assert(built.contains(built[b]));
        }
    }
    assert forall|i: int| 0 <= i < all.len() implies (#[trigger] all[i]).0 < n && all[i].1.len()
        <= k by {
        if i < built.len() {
            assert(all[i] == built[i]);
        }
    }
}

/// One more closure.
proof fn closures_grow(
    built: Seq<InContext>,
    closures: Seq<ClosureView>,
    n: nat,
    k: nat,
    c: ClosureView,
)
    requires
        built_ok(built, closures, n, k),
        c.instance < n,
    ensures
        built_ok(built, closures.push(c), n, k),
{
    reveal(built_ok);
    let all = closures.push(c);
    assert forall|i: int| 0 <= i < all.len() implies (#[trigger] all[i]).instance < n by {
        if i < closures.len() {
            assert(all[i] == closures[i]);
        }
    }
}

impl<'p> PointerAnalysis<'p> {
    /// Resolves the calls of a body.
    fn resolve_all(
        &mut self,
        func: usize,
        ctx: &Context,
        calls: &Vec<PendingCall>,
        queue: &mut VecDeque<(InstanceId, Context)>,
    )
        requires
            old(self).wf(),
            ctx@.len() <= old(self).policy.k,
            forall|i: int|
                0 <= i < calls@.len() ==> pending_ok(
                    (#[trigger] calls@[i])@,
                    old(self)@.facts.arena,
                ),
            contexts_ok(
                context_views(old(queue)@),
                old(self).program.functions@.len(),
                old(self).policy.k as nat,
            ),
        ensures
            final(self).wf(),
            final(self).kept(old(self)),
            (RunView { pta: final(self)@, queue: context_views(final(queue)@) }) == all_resolved(
                old(self).setting(),
                RunView { pta: old(self)@, queue: context_views(old(queue)@) },
                func,
                ctx@,
                pending_views(calls@),
            ),
            contexts_ok(
                context_views(final(queue)@),
                old(self).program.functions@.len(),
                old(self).policy.k as nat,
            ),
    {
        let ghost s = RunView { pta: self@, queue: context_views(queue@) };
        let ghost views = pending_views(calls@);
        let ghost a = self@.facts.arena;
        let ghost n = self.program.functions@.len();
        let ghost k = self.policy.k as nat;
        let mut i: usize = 0;
        while i < calls.len()
            invariant
                i <= calls@.len(),
                self.wf(),
                self.kept(old(self)),
                a == old(self)@.facts.arena,
                n == self.program.functions@.len(),
                k == self.policy.k,
                ctx@.len() <= k,
                views == pending_views(calls@),
                forall|j: int| 0 <= j < calls@.len() ==> pending_ok((#[trigger] calls@[j])@, a),
                contexts_ok(context_views(queue@), n, k),
                (RunView { pta: self@, queue: context_views(queue@) }) == all_resolved(
                    old(self).setting(),
                    s,
                    func,
                    ctx@,
                    views.take(i as int),
                ),
            decreases calls@.len() - i,
        {
            proof {
                assert(views.take(i + 1).drop_last() =~= views.take(i as int));
                assert(views.take(i + 1).last() == calls@[i as int]@);
                pending_extend(calls@[i as int]@, a, self@.facts.arena);
            }
            self.resolve_pending(func, ctx, &calls[i], queue);
            i = i + 1;
        }
        proof {
            assert(views.take(i as int) =~= views);
        }
    }

    /// Builds a function in a context, unless it was built there.
    fn visit(
        &mut self,
        instance: InstanceId,
        ctx: Context,
        queue: &mut VecDeque<(InstanceId, Context)>,
    )
        requires
            old(self).wf(),
            instance < old(self).program.functions@.len(),
            ctx@.len() <= old(self).policy.k,
            contexts_ok(
                context_views(old(queue)@),
                old(self).program.functions@.len(),
                old(self).policy.k as nat,
            ),
        ensures
            final(self).wf(),
            final(self).alike(old(self)),
            (RunView { pta: final(self)@, queue: context_views(final(queue)@) }) == visited(
                old(self).setting(),
                RunView {
                    pta: old(self)@,
                    queue: seq![(instance, ctx@)] + context_views(old(queue)@),
                },
            ),
            contexts_ok(
                context_views(final(queue)@),
                old(self).program.functions@.len(),
                old(self).policy.k as nat,
            ),
            final(self)@.built.len() >= old(self)@.built.len(),
            final(self)@.built.len() == old(self)@.built.len() ==> final(queue)@ == old(queue)@,
    {
        let ghost s = self@;
        let ghost whole = RunView {
            pta: s,
            queue: seq![(instance, ctx@)] + context_views(queue@),
        };
        let ghost n = self.program.functions@.len();
        let ghost k = self.policy.k as nat;
        proof {
            assert(whole.queue[0] == (instance, ctx@));
            assert(whole.queue.drop_first() =~= context_views(queue@));
        }
        if self.is_built(instance, &ctx) {
            return;
        }
        let entry = ctx.duplicate();
        self.built.push((instance, entry));
        proof {
            assert(context_views(self.built@) =~= s.built.push((instance, ctx@)));
            built_grows(s.built, s.closures, n, k, (instance, ctx@));
        }
        let program = self.program;
        let function = &program.functions[instance];
        if !function.is_user_item || function.is_promoted {
            proof {
                numbered_built(*self.program, s.built, s.funcs, (instance, ctx@));
            }
            return;
        }
        let func = self.funcs.intern(instance);
        proof {
            numbered_more(*self.program, s.built, s.funcs, instance);
            assert(self@.funcs.contains(self@.funcs[func as int]));
            numbered_built(*self.program, s.built, self@.funcs, (instance, ctx@));
        }
        let pending = build_body(&mut self.facts, func, &ctx, function, &self.registry);
        if function.is_closure_like {
            let ghost before = self@;
            let c = BuiltClosure { instance, ctx: ctx.duplicate(), func };
            let ghost v = c@;
            self.built_closures.push(c);
            proof {
                assert(self@.closures =~= before.closures.push(v));
                closures_grow(before.built, before.closures, n, k, v);
            }
        }
        self.resolve_all(func, &ctx, &pending, queue);
    }

    /// Binds one field of a closure's environment parameter.
    fn bind_env_field(&mut self, c: &BuiltClosure, heap: LocId, path: FieldPath)
        requires
            old(self).wf(),
            heap < old(self)@.facts.arena.locs.len(),
            path < old(self)@.facts.arena.paths.len(),
        ensures
            final(self).wf(),
            final(self).kept(old(self)),
            final(self)@ == with_env_field(old(self)@, c@, heap, path),
    {
        let field = self.facts.name_var(&c.ctx, c.func, 1, path);
        match self.facts.name_part(heap, path) {
            Some(part) => {
                self.facts.constrain(Constraint::Copy { dst: field, src: part });
            },
            None => {},
        }
    }

    /// Binds a closure's environment parameter to one environment.
    fn bind_env(&mut self, c: &BuiltClosure, coroutine: bool, heap: LocId, paths: &Vec<FieldPath>)
        requires
            old(self).wf(),
            heap < old(self)@.facts.arena.locs.len(),
            forall|i: int|
                0 <= i < paths@.len() ==> #[trigger] paths@[i] < old(self)@.facts.arena.paths.len(),
        ensures
            final(self).wf(),
            final(self).kept(old(self)),
            final(self)@ == with_env(old(self)@, c@, coroutine, heap, paths@),
    {
        let ghost a = self@.facts.arena;
        let empty = self.facts.name_empty();
        if coroutine {
            let mut path: Vec<ProjElem> = Vec::new();
            path.push(ProjElem::Field(0));
            proof {
                assert(path@ =~= seq![ProjElem::Field(0)]);
            }
            let id = self.facts.name_path(&path);
            let field = self.facts.name_var(&c.ctx, c.func, 1, id);
            self.facts.constrain(Constraint::AddressOf { dst: field, obj: heap });
            return;
        }
        let env = self.facts.name_var(&c.ctx, c.func, 1, empty);
        self.facts.constrain(Constraint::AddressOf { dst: env, obj: heap });
        let ghost t = self@;
        let mut i: u32 = 0;
        while i < MAX_UPVAR_FIELDS
            invariant
                i <= MAX_UPVAR_FIELDS,
                self.wf(),
                self.kept(old(self)),
                a == old(self)@.facts.arena,
                heap < a.locs.len(),
                self@ == with_env_slots(t, c@, heap, i as nat),
            decreases MAX_UPVAR_FIELDS - i,
        {
            let mut path: Vec<ProjElem> = Vec::new();
            path.push(ProjElem::Field(i));
            proof {
                assert(path@ =~= seq![ProjElem::Field(i)]);
            }
            let id = self.facts.name_path(&path);
            self.bind_env_field(c, heap, id);
            i = i + 1;
        }
        let ghost u = self@;
        let mut j: usize = 0;
        while j < paths.len()
            invariant
                j <= paths@.len(),
                self.wf(),
                self.kept(old(self)),
                a == old(self)@.facts.arena,
                heap < a.locs.len(),
                forall|i: int| 0 <= i < paths@.len() ==> #[trigger] paths@[i] < a.paths.len(),
                self@ == with_env_parts(u, c@, heap, paths@.take(j as int)),
            decreases paths@.len() - j,
        {
            proof {
                assert(paths@.take(j + 1).drop_last() =~= paths@.take(j as int));
                assert(paths@[j as int] < a.paths.len());
            }
            if self.facts.arena.path(paths[j]).len() != 0 {
                self.bind_env_field(c, heap, paths[j]);
            }
            j = j + 1;
        }
        proof {
            assert(paths@.take(j as int) =~= paths@);
        }
    }

    /// Binds the environment parameter of a closure that was built.
    fn bind_closure(&mut self, c: &BuiltClosure)
        requires
            old(self).wf(),
            c.instance < old(self).program.functions@.len(),
        ensures
            final(self).wf(),
            final(self).kept(old(self)),
            final(self)@ == with_closure(old(self).setting(), old(self)@, c@),
    {
        let ghost s = self@;
        let program = self.program;
        let function = &program.functions[c.instance];
        let heaps = Self::ids_at(&self.facts.closure_envs, function.def_id);
        let paths = Self::ids_at(&self.facts.closure_env_paths, function.def_id);
        proof {
            assert forall|i: int| 0 <= i < heaps@.len() implies #[trigger] heaps@[i]
                < s.facts.arena.locs.len() by {
                assert(s.facts.envs[function.def_id][i] < s.facts.arena.locs.len());
            }
            assert forall|i: int| 0 <= i < paths@.len() implies #[trigger] paths@[i]
                < s.facts.arena.paths.len() by {
                assert(s.facts.env_paths[function.def_id][i] < s.facts.arena.paths.len());
            }
        }
        let mut i: usize = 0;
        while i < heaps.len()
            invariant
                i <= heaps@.len(),
                self.wf(),
                self.kept(old(self)),
                s == old(self)@,
                forall|j: int|
                    0 <= j < heaps@.len() ==> #[trigger] heaps@[j] < s.facts.arena.locs.len(),
                forall|j: int|
                    0 <= j < paths@.len() ==> #[trigger] paths@[j] < s.facts.arena.paths.len(),
                self@ == with_envs(
                    s,
                    c@,
                    function.is_coroutine,
                    heaps@.take(i as int),
                    paths@,
                ),
            decreases heaps@.len() - i,
        {
            proof {
                assert(heaps@.take(i + 1).drop_last() =~= heaps@.take(i as int));
                assert(heaps@[i as int] < s.facts.arena.locs.len());
            }
            self.bind_env(c, function.is_coroutine, heaps[i], &paths);
            i = i + 1;
        }
        proof {
            assert(heaps@.take(i as int) =~= heaps@);
        }
    }

    /// The list at a key, empty where there is none.
    fn ids_at(m: &KeyedMap<DefId, IdVec>, k: DefId) -> (r: Vec<usize>)
        requires
            m.wf(),
        ensures
            r@ == list_at(id_lists(m@), k),
    {
        match m.get(&k) {
            Some(v) => v.to_vec(),
            None => Vec::new(),
        }
    }

    /// Builds every function that can be reached by direct calls from the
    /// roots, which are entered in the empty context, and binds the
    /// environments of the closures among them. What was built before is
    /// skipped.
    pub fn build_reachable(&mut self, roots: &Vec<InstanceId>)
        requires
            old(self).wf(),
            forall|i: int|
                0 <= i < roots@.len() ==> #[trigger] roots@[i]
                    < old(self).program.functions@.len(),
        ensures
            final(self).wf(),
            final(self).alike(old(self)),
            builds(old(self).setting(), old(self)@, roots@, final(self)@),
    {
        let ghost s = self@;
        let ghost set = self.setting();
        let ghost n = self.program.functions@.len();
        let ghost k = self.policy.k as nat;
        let mut queue: VecDeque<(InstanceId, Context)> = VecDeque::new();
        let mut i: usize = 0;
        while i < roots.len()
            invariant
                i <= roots@.len(),
                forall|j: int| 0 <= j < roots@.len() ==> #[trigger] roots@[j] < n,
                context_views(queue@) == root_queue(roots@.take(i as int)),
                contexts_ok(context_views(queue@), n, k),
            decreases roots@.len() - i,
        {
            let ghost before = queue@;
            let none = Context::empty();
            let ghost x = (roots@[i as int], none@);
            queue.push_back((roots[i], none));
            i = i + 1;
            proof {
                let views = context_views(queue@);
                assert(views =~= context_views(before).push(x));
                assert(views =~= root_queue(roots@.take(i as int)));
                assert forall|j: int| 0 <= j < views.len() implies (#[trigger] views[j]).0 < n
                    && views[j].1.len() <= k by {
                    if j < before.len() {
                        assert(views[j] == context_views(before)[j]);
                    }
                }
            }
        }
        let ghost begun = RunView { pta: s, queue: context_views(queue@) };
        let ghost mut trace = seq![begun];
        proof {
            assert(roots@.take(i as int) =~= roots@);
        }
        while queue.len() > 0
            invariant
                self.wf(),
                self.alike(old(self)),
                set == old(self).setting(),
                n == self.program.functions@.len(),
                k == self.policy.k,
                contexts_ok(context_views(queue@), n, k),
                trace.len() > 0,
                trace[0] == begun,
                trace.last() == (RunView { pta: self@, queue: context_views(queue@) }),
                forall|j: int|
                    0 <= j < trace.len() - 1 ==> (#[trigger] trace[j]).queue.len() > 0 && trace[j
                        + 1] == visited(set, trace[j]),
            decreases all_contexts(k).len() - self@.built.len(), queue@.len(),
        {
            let ghost before = queue@;
            let ghost last = trace.last();
            let ghost earlier = trace;
            let (instance, ctx) = queue.pop_front().unwrap();
            proof {
                let views = context_views(before);
                assert(views[0] == (instance, ctx@));
                assert(seq![(instance, ctx@)] + context_views(queue@) =~= views);
                assert(contexts_ok(context_views(queue@), n, k)) by {
                    assert forall|j: int| 0 <= j < context_views(queue@).len() implies (
                    #[trigger] context_views(queue@)[j]).0 < n && context_views(queue@)[j].1.len()
                        <= k by {
                        assert(context_views(queue@)[j] == views[j + 1]);
                    }
                }
            }
            self.visit(instance, ctx, &mut queue);
            proof {
                built_bounded(self@.built, self@.closures, n, k);
                let next = RunView { pta: self@, queue: context_views(queue@) };
                assert(next == visited(set, last));
                trace = trace.push(next);
                assert forall|j: int| 0 <= j < trace.len() - 1 implies (
                #[trigger] trace[j]).queue.len() > 0 && trace[j + 1] == visited(set, trace[j]) by {
                    assert(trace[j] == earlier[j]);
                    if j + 1 < earlier.len() {
                        assert(trace[j + 1] == earlier[j + 1]);
                    }
                }
            }
        }
        let ghost u = self@;
        proof {
            assert(trace.last().queue.len() == 0);
            assert(is_run(set, trace));
            assert(runs_to(set, begun, u));
        }
        let mut closures: Vec<BuiltClosure> = Vec::new();
        std::mem::swap(&mut closures, &mut self.built_closures);
        let ghost v = self@;
        proof {
            reveal(built_ok);
            assert(closure_views(closures@) =~= u.closures);
            assert(v.closures =~= Seq::<ClosureView>::empty());
            assert(v =~= (PtaView { closures: Seq::empty(), ..u }));
            assert forall|j: int| 0 <= j < closures@.len() implies (
            #[trigger] closures@[j]).instance < n by {
                assert(u.closures[j].instance < n);
            }
        }
        let mut j: usize = 0;
        while j < closures.len()
            invariant
                j <= closures@.len(),
                self.wf(),
                self.alike(old(self)),
                set == old(self).setting(),
                n == self.program.functions@.len(),
                forall|m: int| 0 <= m < closures@.len() ==> (#[trigger] closures@[m]).instance < n,
                u.closures == closure_views(closures@),
                self@ == with_closures(set, v, u.closures.take(j as int)),
            decreases closures@.len() - j,
        {
            proof {
                assert(u.closures.take(j + 1).drop_last() =~= u.closures.take(j as int));
                assert(u.closures.take(j + 1).last() == closures@[j as int]@);
                assert(closures@[j as int].instance < n);
            }
            self.bind_closure(&closures[j]);
            j = j + 1;
        }
        proof {
            assert(u.closures.take(j as int) =~= u.closures);
        }
    }
}

} // verus!
