//! The functions of a program, as far as pointers flow through them.

use super::loc::ProjElem;
use crate::translate::mir::{DefId, InstanceId};
use vstd::prelude::*;

verus! {

/// What a node of a body stands for.
#[derive(Clone, Copy, Debug, PartialEq, Eq, Structural)]
pub enum NodeBase {
    /// A local; `0` is the return place, and the parameters come next.
    Local(usize),
    /// The memory that a block allocates, told apart by a number.
    Heap { bb: usize, idx: usize },
    /// A static.
    Global(usize),
}

/// A node of a body: a base and the steps that lead into it.
#[derive(Debug)]
pub struct Node {
    pub base: NodeBase,
    pub path: Vec<ProjElem>,
}

/// How pointers flow from one node to another.
#[derive(Clone, Copy, Debug, PartialEq, Eq, Structural)]
pub enum FlowKind {
    /// The address of the source.
    AddressOf,
    /// The value of the source.
    Copy,
    /// What the source points to.
    Load,
    /// Into what the destination points to.
    Store,
    /// The address of a part of what the source points to.
    Offset,
}

/// One flow of pointers in a body.
#[derive(Debug)]
pub struct Flow {
    pub kind: FlowKind,
    pub dst: Node,
    pub src: Node,
    /// The part, for an offset.
    pub suffix: Vec<ProjElem>,
}

/// A call in a body.
#[derive(Debug)]
pub struct Call {
    /// The printed path of a directly named callee.
    pub path: Option<String>,
    /// The instance that the callee resolves to.
    pub callee: Option<InstanceId>,
    pub bb: usize,
    /// Tells the memory that the call may allocate apart.
    pub idx: usize,
    pub dest: Node,
    pub args: Vec<Option<Node>>,
}

/// The construction of a closure: its environment, and the captured parts.
#[derive(Debug)]
pub struct Capture {
    pub closure: DefId,
    pub heap: Node,
    pub paths: Vec<Vec<ProjElem>>,
}

/// A function instance.
#[derive(Debug)]
pub struct Function {
    pub def_id: DefId,
    /// A user function whose body is at hand.
    pub is_user_item: bool,
    /// A promoted constant.
    pub is_promoted: bool,
    /// A closure or coroutine.
    pub is_closure_like: bool,
    pub is_coroutine: bool,
    pub arg_count: usize,
    /// For each parameter, the paths of the leaf fields of its type.
    pub param_paths: Vec<Vec<Vec<ProjElem>>>,
    pub flows: Vec<Flow>,
    pub captures: Vec<Capture>,
    pub calls: Vec<Call>,
}

impl Function {
    /// The body is analyzed.
    pub open spec fn analyzed(&self) -> bool {
        self.is_user_item && !self.is_promoted
    }
}

/// The function instances of a program, by number.
#[derive(Debug)]
pub struct Program {
    pub functions: Vec<Function>,
}

/// The callee is among the first `n` instances.
pub open spec fn callee_ok(call: Call, n: nat) -> bool {
    match call.callee {
        Some(c) => c < n,
        None => true,
    }
}

impl Program {
    /// Every call resolves to an instance of the program, if to any.
    pub open spec fn wf(&self) -> bool {
        forall|i: int, j: int|
            0 <= i < self.functions@.len() && 0 <= j < self.functions@[i].calls@.len()
                ==> callee_ok(#[trigger] self.functions@[i].calls@[j], self.functions@.len())
    }
}

} // verus!
