//! The parts of a function body that the analyses read, as plain values.
//!
//! Locals, blocks, definitions and instances are numbered; types and spans
//! carry their printed text next to the facts that decide something.

use vstd::prelude::*;

verus! {

/// A local variable of a body; `0` is the return place.
pub type Local = usize;

/// A basic block of a body.
pub type BasicBlock = usize;

/// A node of the call graph.
pub type InstanceId = usize;

/// A definition.
pub type DefId = usize;

/// A nominal type.
pub struct Adt {
    /// The printed path of the definition.
    pub path: String,
    /// The names of the analyzer attributes on the definition.
    pub attrs: Vec<String>,
    /// The printed type arguments.
    pub type_args: Vec<String>,
}

/// A normalized type.
pub struct Ty {
    /// The printed type.
    pub text: String,
    /// The nominal type, where it is one.
    pub adt: Option<Adt>,
}

/// One step of a projection.
#[derive(Clone, Copy, Debug, PartialEq, Eq, Structural)]
pub enum ProjectionElem {
    Deref,
    Field(u32),
    Index(Local),
    ConstantIndex { offset: u64 },
    Subslice,
    Downcast(u32),
    Other,
}

/// A local with the steps that lead into it.
pub struct Place {
    pub local: Local,
    pub projection: Vec<ProjectionElem>,
    /// The type of the whole place.
    pub ty: Ty,
}

/// An operand.
pub enum Operand {
    Copy(Place),
    Move(Place),
    Constant,
}

/// The right side of an assignment.
pub enum Rvalue {
    Use(Operand),
    Ref(Place),
    /// Any other form, with the places that it reads.
    Other(Vec<Place>),
}

/// What a statement does.
pub enum StatementKind {
    Assign(Place, Rvalue),
    Other,
}

/// A variant of `Poll`.
#[derive(Clone, Copy, Debug, PartialEq, Eq, Structural)]
pub enum PollVariant {
    Pending,
    Ready,
}

/// A statement.
pub struct Statement {
    pub kind: StatementKind,
    /// The variant of `Poll` that the right side of an assignment builds, where
    /// it builds one.
    pub poll: Option<PollVariant>,
}

/// What is known of a directly named callee.
#[derive(Clone, Copy, Debug, PartialEq, Eq, Structural)]
pub struct Callee {
    /// A `lock()`, `read()` or `write()` of a lock.
    pub lock_acquire: bool,
    /// A `Result` or `Option` extractor such as `unwrap`.
    pub wrapper_extract: bool,
    /// The dereference of an `Arc` or `Rc`.
    pub arc_rc_deref: bool,
    /// A condition variable's wait.
    pub condvar_wait: bool,
}

/// How a block ends.
pub enum TerminatorKind {
    Goto { target: BasicBlock },
    SwitchInt { targets: Vec<BasicBlock> },
    Return,
    Unreachable,
    Drop { place: Place, target: BasicBlock },
    Call {
        callee: Option<Callee>,
        args: Vec<Operand>,
        destination: Place,
        return_to: Option<BasicBlock>,
    },
    Assert { target: BasicBlock },
    Other,
}

/// The end of a block, with the printed span.
pub struct Terminator {
    pub kind: TerminatorKind,
    pub span: String,
}

/// A basic block.
pub struct BasicBlockData {
    pub statements: Vec<Statement>,
    pub terminator: Option<Terminator>,
    pub is_cleanup: bool,
}

/// The declaration of a local.
pub struct LocalDecl {
    pub ty: Ty,
    pub span: String,
}

/// A function body.
pub struct Body {
    pub local_decls: Vec<LocalDecl>,
    pub basic_blocks: Vec<BasicBlockData>,
}

/// The index of the first field step.
pub open spec fn first_field(projection: Seq<ProjectionElem>) -> Option<u32>
    decreases projection.len(),
{
    if projection.len() == 0 {
        None
    } else {
        match projection[0] {
            ProjectionElem::Field(f) => Some(f),
            _ => first_field(projection.drop_first()),
        }
    }
}

/// The offset of the last constant-index step.
pub open spec fn last_constant_index(projection: Seq<ProjectionElem>) -> Option<u64>
    decreases projection.len(),
{
    if projection.len() == 0 {
        None
    } else {
        match projection.last() {
            ProjectionElem::ConstantIndex { offset } => Some(offset),
            _ => last_constant_index(projection.drop_last()),
        }
    }
}

/// Some step indexes by a local.
pub open spec fn has_dynamic_index(projection: Seq<ProjectionElem>) -> bool {
    exists|i: int| 0 <= i < projection.len() && (#[trigger] projection[i]) is Index
}

/// The index of the first field step.
pub fn find_first_field(projection: &Vec<ProjectionElem>) -> (r: Option<u32>)
    ensures
        r == first_field(projection@),
{
    let mut i: usize = 0;
    proof {
        assert(projection@.skip(0) =~= projection@);
    }
    while i < projection.len()
        invariant
            i <= projection@.len(),
            first_field(projection@) == first_field(projection@.skip(i as int)),
        decreases projection@.len() - i,
    {
        proof {
            assert(projection@.skip(i as int).drop_first() =~= projection@.skip(i + 1));
        }
        if let ProjectionElem::Field(f) = projection[i] {
            return Some(f);
        }
        i = i + 1;
    }
    None
}

/// The offset of the last constant-index step.
pub fn find_last_constant_index(projection: &Vec<ProjectionElem>) -> (r: Option<u64>)
    ensures
        r == last_constant_index(projection@),
{
    let mut i: usize = projection.len();
    proof {
        assert(projection@.take(i as int) =~= projection@);
    }
    while i > 0
        invariant
            i <= projection@.len(),
            last_constant_index(projection@) == last_constant_index(projection@.take(i as int)),
        decreases i,
    {
        proof {
            assert(projection@.take(i as int).drop_last() =~= projection@.take(i - 1));
        }
        i = i - 1;
        if let ProjectionElem::ConstantIndex { offset } = projection[i] {
            return Some(offset);
        }
    }
    None
}

/// Whether some step indexes by a local.
pub fn indexes_dynamically(projection: &Vec<ProjectionElem>) -> (b: bool)
    ensures
        b == has_dynamic_index(projection@),
{
    let mut i: usize = 0;
    while i < projection.len()
        invariant
            i <= projection@.len(),
            forall|j: int| 0 <= j < i ==> !((#[trigger] projection@[j]) is Index),
        decreases projection@.len() - i,
    {
        if let ProjectionElem::Index(_) = projection[i] {
            proof {
                assert(projection@[i as int] is Index);
            }
            return true;
        }
        i = i + 1;
    }
    false
}

/// The place of an operand that moves or copies one.
pub open spec fn operand_place(op: Operand) -> Option<Place> {
    match op {
        Operand::Copy(p) => Some(p),
        Operand::Move(p) => Some(p),
        Operand::Constant => None,
    }
}

impl Operand {
    /// The place that is moved or copied.
    pub fn place(&self) -> (r: Option<&Place>)
        ensures
            match r {
                Some(p) => operand_place(*self) == Some(*p),
                None => operand_place(*self) is None,
            },
    {
        match self {
            Operand::Copy(p) => Some(p),
            Operand::Move(p) => Some(p),
            Operand::Constant => None,
        }
    }
}

impl BasicBlockData {
    /// No statements, and an end that is never reached.
    pub open spec fn empty_unreachable(&self) -> bool {
        self.statements@.len() == 0 && (self.terminator matches Some(t)
            && t.kind is Unreachable)
    }

    /// Whether the block holds nothing but an unreachable end.
    pub fn is_empty_unreachable(&self) -> (b: bool)
        ensures
            b == self.empty_unreachable(),
    {
        if self.statements.len() != 0 {
            return false;
        }
        match &self.terminator {
            Some(t) => matches!(t.kind, TerminatorKind::Unreachable),
            None => false,
        }
    }
}

/// The attribute `name` is on the definition.
pub open spec fn attr_present(attrs: Seq<String>, name: Seq<char>) -> bool {
    exists|i: int| 0 <= i < attrs.len() && (#[trigger] attrs[i])@ == name
}

impl Adt {
    /// Whether the definition carries the attribute `name`.
    pub fn has_pn_attribute(&self, name: &str) -> (b: bool)
        ensures
            b == attr_present(self.attrs@, name@),
    {
        let wanted: String = name.to_owned();
        let mut i: usize = 0;
        while i < self.attrs.len()
            invariant
                i <= self.attrs@.len(),
                wanted@ == name@,
                forall|j: int| 0 <= j < i ==> (#[trigger] self.attrs@[j])@ != name@,
            decreases self.attrs@.len() - i,
        {
            if self.attrs[i] == wanted {
                return true;
            }
            i = i + 1;
        }
        false
    }
}

/// The first field step decides the field of a projection, and the last
/// constant-index step its index, wherever they stand.
pub proof fn steps_decide(projection: Seq<ProjectionElem>, i: int)
    requires
        0 <= i < projection.len(),
    ensures
        (forall|j: int| 0 <= j < i ==> !((#[trigger] projection[j]) is Field)) ==> (
        projection[i] matches ProjectionElem::Field(f) ==> first_field(projection) == Some(f)),
        (forall|j: int| 0 <= j < projection.len() ==> !((#[trigger] projection[j]) is Field))
            ==> first_field(projection) is None,
        (forall|j: int|
            i < j < projection.len() ==> !((#[trigger] projection[j]) is ConstantIndex)) ==> (
        projection[i] matches ProjectionElem::ConstantIndex { offset } ==> last_constant_index(
            projection,
        ) == Some(offset)),
        (forall|j: int|
            0 <= j < projection.len() ==> !((#[trigger] projection[j]) is ConstantIndex))
            ==> last_constant_index(projection) is None,
    decreases projection.len(),
{
    let rest = projection.drop_first();
    let front = projection.drop_last();
    assert forall|j: int| 0 <= j < rest.len() implies #[trigger] rest[j] == projection[j + 1] by {
    }
    assert forall|j: int| 0 <= j < front.len() implies #[trigger] front[j] == projection[j] by {
    }
    if i > 0 {
        steps_decide(rest, i - 1);
    } else if rest.len() > 0 {
        steps_decide(rest, 0);
    }
    if i < front.len() {
        steps_decide(front, i);
    } else if front.len() > 0 {
        steps_decide(front, 0);
    }
}

/// A move and a copy have their place, and a constant has none.
pub proof fn operands_have_their_place(place: Place)
    ensures
        operand_place(Operand::Copy(place)) == Some(place),
        operand_place(Operand::Move(place)) == Some(place),
        operand_place(Operand::Constant) is None,
{
}

} // verus!
