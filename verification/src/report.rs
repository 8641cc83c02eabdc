//! What the detectors report.

use crate::text::texts;
use vstd::prelude::*;

verus! {

/// One atomic operation of a violation.
#[derive(Debug)]
pub struct AtomicOperation {
    pub operation_type: String,
    pub ordering: String,
    pub variable: String,
    pub location: String,
}

/// An atomic operation with its texts as characters.
pub struct AtomicOperationView {
    pub operation_type: Seq<char>,
    pub ordering: Seq<char>,
    pub variable: Seq<char>,
    pub location: Seq<char>,
}

impl View for AtomicOperation {
    type V = AtomicOperationView;

    open spec fn view(&self) -> AtomicOperationView {
        AtomicOperationView {
            operation_type: self.operation_type@,
            ordering: self.ordering@,
            variable: self.variable@,
            location: self.location@,
        }
    }
}

impl AtomicOperation {
    /// Whether two operations read the same.
    pub fn same(&self, other: &Self) -> (b: bool)
        ensures
            b == (self@ == other@),
    {
        self.operation_type == other.operation_type && self.ordering == other.ordering
            && self.variable == other.variable && self.location == other.location
    }
}

/// The operations with their texts as characters.
pub open spec fn operation_views(ops: Seq<AtomicOperation>) -> Seq<AtomicOperationView> {
    ops.map_values(|op: AtomicOperation| op@)
}

/// A load and the stores that conflict with it.
#[derive(Debug)]
pub struct ViolationPattern {
    pub load_op: AtomicOperation,
    pub store_ops: Vec<AtomicOperation>,
}

/// A violation with its texts as characters.
pub struct ViolationView {
    pub load_op: AtomicOperationView,
    pub store_ops: Seq<AtomicOperationView>,
}

impl View for ViolationPattern {
    type V = ViolationView;

    open spec fn view(&self) -> ViolationView {
        ViolationView { load_op: self.load_op@, store_ops: operation_views(self.store_ops@) }
    }
}

impl ViolationPattern {
    /// Whether two violations read the same.
    pub fn same(&self, other: &Self) -> (b: bool)
        ensures
            b == (self@ == other@),
    {
        if !self.load_op.same(&other.load_op) {
            return false;
        }
        if self.store_ops.len() != other.store_ops.len() {
            proof {
                assert(self@.store_ops.len() != other@.store_ops.len());
            }
            return false;
        }
        let mut i: usize = 0;
        while i < self.store_ops.len()
            invariant
                i <= self.store_ops@.len(),
                self.store_ops@.len() == other.store_ops@.len(),
                forall|j: int| 0 <= j < i ==> self@.store_ops[j] == other@.store_ops[j],
            decreases self.store_ops@.len() - i,
        {
            if !self.store_ops[i].same(&other.store_ops[i]) {
                proof {
                    assert(self@.store_ops[i as int] != other@.store_ops[i as int]);
                }
                return false;
            }
            i = i + 1;
        }
        proof {
            assert(self@.store_ops =~= other@.store_ops);
        }
        true
    }
}

/// The violations with their texts as characters.
pub open spec fn violation_views(patterns: Seq<ViolationPattern>) -> Seq<ViolationView> {
    patterns.map_values(|p: ViolationPattern| p@)
}

/// The report of the atomicity detector.
#[derive(Debug)]
pub struct AtomicReport {
    pub tool_name: String,
    pub has_violation: bool,
    pub violation_count: usize,
    pub violations: Vec<ViolationPattern>,
}

impl AtomicReport {
    /// A report without violations.
    pub fn new(tool_name: String) -> (r: Self)
        ensures
            r.tool_name == tool_name,
            !r.has_violation,
            r.violation_count == 0,
            r.violations@ == Seq::<ViolationPattern>::empty(),
    {
        AtomicReport {
            tool_name,
            has_violation: false,
            violation_count: 0,
            violations: Vec::new(),
        }
    }
}

/// The tokens that a blocked transition finds on a resource, and those that it
/// needs.
#[derive(Debug)]
pub struct ResourceStatus {
    pub resource_name: String,
    pub has: u64,
    pub needs: u64,
}

/// The status of a resource with its name as characters.
pub struct ResourceStatusView {
    pub resource_name: Seq<char>,
    pub has: u64,
    pub needs: u64,
}

impl View for ResourceStatus {
    type V = ResourceStatusView;

    open spec fn view(&self) -> ResourceStatusView {
        ResourceStatusView {
            resource_name: self.resource_name@,
            has: self.has,
            needs: self.needs,
        }
    }
}

/// One step of the path to a deadlock that took tokens from a resource.
#[derive(Debug)]
pub struct ResourceTraceStep {
    pub resource_name: String,
    pub transition_name: String,
    pub operation: String,
    pub location: String,
    pub from_state: String,
    pub to_state: String,
    pub before: u64,
    pub after: u64,
}

/// A step with its texts as characters.
pub struct TraceStepView {
    pub resource_name: Seq<char>,
    pub transition_name: Seq<char>,
    pub operation: Seq<char>,
    pub location: Seq<char>,
    pub from_state: Seq<char>,
    pub to_state: Seq<char>,
    pub before: u64,
    pub after: u64,
}

impl View for ResourceTraceStep {
    type V = TraceStepView;

    open spec fn view(&self) -> TraceStepView {
        TraceStepView {
            resource_name: self.resource_name@,
            transition_name: self.transition_name@,
            operation: self.operation@,
            location: self.location@,
            from_state: self.from_state@,
            to_state: self.to_state@,
            before: self.before,
            after: self.after,
        }
    }
}

/// The statuses with their texts as characters.
pub open spec fn status_views(s: Seq<ResourceStatus>) -> Seq<ResourceStatusView> {
    s.map_values(|x: ResourceStatus| x@)
}

/// The steps with their texts as characters.
pub open spec fn step_views(s: Seq<ResourceTraceStep>) -> Seq<TraceStepView> {
    s.map_values(|x: ResourceTraceStep| x@)
}

/// A transition whose thread is ready and whose resources are not.
#[derive(Debug)]
pub struct BlockedTransition {
    pub id: String,
    pub name: String,
    pub location: String,
    pub operation: String,
    pub needed_resources: Vec<String>,
    pub resource_status: Vec<ResourceStatus>,
    pub resource_trace: Vec<ResourceTraceStep>,
}

/// A blocked transition with its texts as characters.
pub struct BlockedView {
    pub id: Seq<char>,
    pub name: Seq<char>,
    pub location: Seq<char>,
    pub operation: Seq<char>,
    pub needed_resources: Seq<Seq<char>>,
    pub resource_status: Seq<ResourceStatusView>,
    pub resource_trace: Seq<TraceStepView>,
}

impl View for BlockedTransition {
    type V = BlockedView;

    open spec fn view(&self) -> BlockedView {
        BlockedView {
            id: self.id@,
            name: self.name@,
            location: self.location@,
            operation: self.operation@,
            needed_resources: texts(self.needed_resources@),
            resource_status: status_views(self.resource_status@),
            resource_trace: step_views(self.resource_trace@),
        }
    }
}

/// The blocked transitions with their texts as characters.
pub open spec fn blocked_views(s: Seq<BlockedTransition>) -> Seq<BlockedView> {
    s.map_values(|x: BlockedTransition| x@)
}

/// The marked places of a state with their texts as characters.
pub open spec fn marking_views(s: Seq<(String, u8)>) -> Seq<(Seq<char>, u8)> {
    s.map_values(|x: (String, u8)| (x.0@, x.1))
}

/// A state in which the program is stuck.
#[derive(Debug)]
pub struct DeadlockState {
    pub state_id: String,
    pub marking: Vec<(String, u8)>,
    pub description: String,
    pub blocked_transitions: Vec<BlockedTransition>,
}

/// A deadlock state with its texts as characters.
pub struct DeadlockStateView {
    pub state_id: Seq<char>,
    pub marking: Seq<(Seq<char>, u8)>,
    pub description: Seq<char>,
    pub blocked_transitions: Seq<BlockedView>,
}

impl View for DeadlockState {
    type V = DeadlockStateView;

    open spec fn view(&self) -> DeadlockStateView {
        DeadlockStateView {
            state_id: self.state_id@,
            marking: marking_views(self.marking@),
            description: self.description@,
            blocked_transitions: blocked_views(self.blocked_transitions@),
        }
    }
}

/// The deadlock states with their texts as characters.
pub open spec fn state_views(s: Seq<DeadlockState>) -> Seq<DeadlockStateView> {
    s.map_values(|x: DeadlockState| x@)
}

/// How a deadlock comes about.
#[derive(Debug)]
pub struct DeadlockTrace {
    pub steps: Vec<String>,
    pub final_state: Option<DeadlockState>,
}

/// A trace with its texts as characters.
pub struct DeadlockTraceView {
    pub steps: Seq<Seq<char>>,
    pub final_state: Option<DeadlockStateView>,
}

impl View for DeadlockTrace {
    type V = DeadlockTraceView;

    open spec fn view(&self) -> DeadlockTraceView {
        DeadlockTraceView {
            steps: texts(self.steps@),
            final_state: match self.final_state {
                Some(s) => Some(s@),
                None => None,
            },
        }
    }
}

/// The traces with their texts as characters.
pub open spec fn trace_views(s: Seq<DeadlockTrace>) -> Seq<DeadlockTraceView> {
    s.map_values(|x: DeadlockTrace| x@)
}

/// The size of the state graph.
#[derive(Clone, Copy, Debug, PartialEq, Eq, Structural)]
pub struct StateSpaceInfo {
    pub total_states: usize,
    pub total_transitions: usize,
    pub reachable_states: usize,
}

/// The report of the deadlock detector.
#[derive(Debug)]
pub struct DeadlockReport {
    pub tool_name: String,
    pub has_deadlock: bool,
    pub deadlock_count: usize,
    pub deadlock_states: Vec<DeadlockState>,
    pub traces: Vec<DeadlockTrace>,
    pub state_space_info: Option<StateSpaceInfo>,
}

impl DeadlockReport {
    /// A report without deadlocks.
    pub fn new(tool_name: String) -> (r: Self)
        ensures
            r.tool_name == tool_name,
            !r.has_deadlock,
            r.deadlock_count == 0,
            r.deadlock_states@ == Seq::<DeadlockState>::empty(),
            r.traces@ == Seq::<DeadlockTrace>::empty(),
            r.state_space_info is None,
    {
        DeadlockReport {
            tool_name,
            has_deadlock: false,
            deadlock_count: 0,
            deadlock_states: Vec::new(),
            traces: Vec::new(),
            state_space_info: None,
        }
    }
}

} // verus!
