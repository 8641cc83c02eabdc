//! The Petri net: places, transitions and arcs.

use crate::concurrency::atomic::AtomicOrdering;
use crate::memory::pointsto::AliasId;
use crate::text::{
    decimal, index_text, join, join_text, str_debug, str_debug_text, texts,
};
use vstd::prelude::*;

verus! {

/// A place of a net.
pub type PlaceId = usize;

/// A transition of a net.
pub type TransitionId = usize;

/// What a place stands for.
#[derive(Clone, Copy, Debug, PartialEq, Eq, Structural)]
pub enum PlaceType {
    /// A lock, condition variable, atomic or other shared resource.
    Resources,
    /// The entry of a function.
    FunctionStart,
    /// The exit of a function.
    FunctionEnd,
    /// A point inside a function.
    BasicBlock,
}

impl PlaceType {
    /// The printed name.
    pub open spec fn name(self) -> Seq<char> {
        match self {
            PlaceType::Resources => "Resources"@,
            PlaceType::FunctionStart => "FunctionStart"@,
            PlaceType::FunctionEnd => "FunctionEnd"@,
            PlaceType::BasicBlock => "BasicBlock"@,
        }
    }

    /// The printed name.
    pub fn name_text(self) -> (r: &'static str)
        ensures
            r@ == self.name(),
    {
        match self {
            PlaceType::Resources => "Resources",
            PlaceType::FunctionStart => "FunctionStart",
            PlaceType::FunctionEnd => "FunctionEnd",
            PlaceType::BasicBlock => "BasicBlock",
        }
    }
}

/// A place: its name, its tokens at the start, the most tokens that it can
/// hold (`None` for no bound), what it stands for and where it comes from.
#[derive(Debug)]
pub struct PtPlace {
    pub name: String,
    pub tokens: u64,
    pub capacity: Option<u64>,
    pub place_type: PlaceType,
    pub span: String,
}

/// A place with its texts as characters.
pub struct PlaceView {
    pub name: Seq<char>,
    pub tokens: u64,
    pub capacity: Option<u64>,
    pub place_type: PlaceType,
    pub span: Seq<char>,
}

impl View for PtPlace {
    type V = PlaceView;

    open spec fn view(&self) -> PlaceView {
        PlaceView {
            name: self.name@,
            tokens: self.tokens,
            capacity: self.capacity,
            place_type: self.place_type,
            span: self.span@,
        }
    }
}

/// One raw-pointer access: the location, whether it writes, and where.
#[derive(Debug)]
pub struct UnsafeOp {
    pub alias: usize,
    pub is_write: bool,
    pub span: String,
    pub basic_block: usize,
    pub ty: String,
}

/// A raw-pointer access with its texts as characters.
pub struct UnsafeOpView {
    pub alias: usize,
    pub is_write: bool,
    pub span: Seq<char>,
    pub basic_block: usize,
    pub ty: Seq<char>,
}

impl View for UnsafeOp {
    type V = UnsafeOpView;

    open spec fn view(&self) -> UnsafeOpView {
        UnsafeOpView {
            alias: self.alias,
            is_write: self.is_write,
            span: self.span@,
            basic_block: self.basic_block,
            ty: self.ty@,
        }
    }
}

/// The accesses with their texts as characters.
pub open spec fn unsafe_op_views(ops: Seq<UnsafeOp>) -> Seq<UnsafeOpView> {
    ops.map_values(|op: UnsafeOp| op@)
}

/// What is printed for a truth value.
pub open spec fn bool_name(b: bool) -> Seq<char> {
    if b {
        "true"@
    } else {
        "false"@
    }
}

impl UnsafeOpView {
    /// The printed form.
    pub open spec fn debug(self) -> Seq<char> {
        "UnsafeOp { alias: "@ + decimal(self.alias as nat) + ", is_write: "@ + bool_name(
            self.is_write,
        ) + ", span: "@ + str_debug(self.span) + ", basic_block: "@ + decimal(
            self.basic_block as nat,
        ) + ", ty: "@ + str_debug(self.ty) + " }"@
    }
}

/// The printed forms of the accesses.
pub open spec fn unsafe_op_texts(ops: Seq<UnsafeOpView>) -> Seq<Seq<char>> {
    ops.map_values(|op: UnsafeOpView| op.debug())
}

impl UnsafeOp {
    /// The printed form.
    pub fn debug_text(&self) -> (r: String)
        ensures
            r@ == self@.debug(),
    {
        let written = if self.is_write {
            "true"
        } else {
            "false"
        };
        "UnsafeOp { alias: ".to_owned().concat(index_text(self.alias).as_str()).concat(
            ", is_write: ",
        ).concat(written).concat(", span: ").concat(str_debug_text(self.span.as_str()).as_str()).concat(
            ", basic_block: ",
        ).concat(index_text(self.basic_block).as_str()).concat(", ty: ").concat(
            str_debug_text(self.ty.as_str()).as_str(),
        ).concat(" }")
    }
}

/// The printed accesses, separated by commas.
fn unsafe_ops_text(ops: &Vec<UnsafeOp>) -> (r: String)
    ensures
        r@ == join_text(unsafe_op_texts(unsafe_op_views(ops@)), ", "@),
{
    let mut pieces: Vec<String> = Vec::new();
    let mut i: usize = 0;
    while i < ops.len()
        invariant
            i <= ops@.len(),
            pieces@.len() == i,
            forall|j: int| 0 <= j < i ==> (#[trigger] pieces@[j])@ == ops@[j]@.debug(),
        decreases ops@.len() - i,
    {
        pieces.push(ops[i].debug_text());
        i = i + 1;
    }
    proof {
        assert(texts(pieces@) =~= unsafe_op_texts(unsafe_op_views(ops@)));
    }
    join(&pieces, ", ")
}

/// What firing a transition stands for.
pub enum TransitionType {
    /// Enters a function instance.
    Start(usize),
    Goto,
    Switch,
    /// Leaves a function instance.
    Return(usize),
    Assert,
    Drop,
    Function,
    /// Acquires the mutex of the lock resource.
    Lock(usize),
    /// Releases a lock resource.
    Unlock(usize),
    RwLockRead(usize),
    RwLockWrite(usize),
    Wait,
    Notify(usize),
    Spawn(String),
    Join(String),
    /// A raw-pointer read: location, span, block, type.
    UnsafeRead(usize, String, usize, String),
    /// A raw-pointer write: location, span, block, type.
    UnsafeWrite(usize, String, usize, String),
    /// The raw-pointer accesses of one block, one per location.
    UnsafeAccess(Vec<UnsafeOp>),
    /// An atomic load: location, ordering, span, thread.
    AtomicLoad(AliasId, AtomicOrdering, String, usize),
    /// An atomic store: location, ordering, span, thread.
    AtomicStore(AliasId, AtomicOrdering, String, usize),
    /// An atomic exchange: location, orderings on success and failure, span,
    /// thread.
    AtomicCmpXchg(AliasId, AtomicOrdering, AtomicOrdering, String, usize),
    Inhibitor,
    Reset,
}

/// What firing a transition stands for, with its texts as characters.
pub enum TransitionTypeView {
    /// Enters a function instance.
    Start(usize),
    Goto,
    Switch,
    /// Leaves a function instance.
    Return(usize),
    Assert,
    Drop,
    Function,
    /// Acquires the mutex of the lock resource.
    Lock(usize),
    /// Releases a lock resource.
    Unlock(usize),
    RwLockRead(usize),
    RwLockWrite(usize),
    Wait,
    Notify(usize),
    Spawn(Seq<char>),
    Join(Seq<char>),
    /// A raw-pointer read: location, span, block, type.
    UnsafeRead(usize, Seq<char>, usize, Seq<char>),
    /// A raw-pointer write: location, span, block, type.
    UnsafeWrite(usize, Seq<char>, usize, Seq<char>),
    /// The raw-pointer accesses of one block, one per location.
    UnsafeAccess(Seq<UnsafeOpView>),
    /// An atomic load: location, ordering, span, thread.
    AtomicLoad(AliasId, AtomicOrdering, Seq<char>, usize),
    /// An atomic store: location, ordering, span, thread.
    AtomicStore(AliasId, AtomicOrdering, Seq<char>, usize),
    /// An atomic exchange: location, orderings on success and failure, span,
    /// thread.
    AtomicCmpXchg(AliasId, AtomicOrdering, AtomicOrdering, Seq<char>, usize),
    Inhibitor,
    Reset,
}

impl View for TransitionType {
    type V = TransitionTypeView;

    open spec fn view(&self) -> TransitionTypeView {
        match self {
            TransitionType::Start(x0) => TransitionTypeView::Start(*x0),
            TransitionType::Goto => TransitionTypeView::Goto,
            TransitionType::Switch => TransitionTypeView::Switch,
            TransitionType::Return(x0) => TransitionTypeView::Return(*x0),
            TransitionType::Assert => TransitionTypeView::Assert,
            TransitionType::Drop => TransitionTypeView::Drop,
            TransitionType::Function => TransitionTypeView::Function,
            TransitionType::Lock(x0) => TransitionTypeView::Lock(*x0),
            TransitionType::Unlock(x0) => TransitionTypeView::Unlock(*x0),
            TransitionType::RwLockRead(x0) => TransitionTypeView::RwLockRead(*x0),
            TransitionType::RwLockWrite(x0) => TransitionTypeView::RwLockWrite(*x0),
            TransitionType::Wait => TransitionTypeView::Wait,
            TransitionType::Notify(x0) => TransitionTypeView::Notify(*x0),
            TransitionType::Spawn(x0) => TransitionTypeView::Spawn(x0@),
            TransitionType::Join(x0) => TransitionTypeView::Join(x0@),
            TransitionType::UnsafeRead(x0, x1, x2, x3) => {
                TransitionTypeView::UnsafeRead(*x0, x1@, *x2, x3@)
            },
            TransitionType::UnsafeWrite(x0, x1, x2, x3) => {
                TransitionTypeView::UnsafeWrite(*x0, x1@, *x2, x3@)
            },
            TransitionType::UnsafeAccess(x0) => {
                TransitionTypeView::UnsafeAccess(unsafe_op_views(x0@))
            },
            TransitionType::AtomicLoad(x0, x1, x2, x3) => {
                TransitionTypeView::AtomicLoad(*x0, *x1, x2@, *x3)
            },
            TransitionType::AtomicStore(x0, x1, x2, x3) => {
                TransitionTypeView::AtomicStore(*x0, *x1, x2@, *x3)
            },
            TransitionType::AtomicCmpXchg(x0, x1, x2, x3, x4) => {
                TransitionTypeView::AtomicCmpXchg(*x0, *x1, *x2, x3@, *x4)
            },
            TransitionType::Inhibitor => TransitionTypeView::Inhibitor,
            TransitionType::Reset => TransitionTypeView::Reset,
        }
    }
}

impl TransitionTypeView {
    /// The printed form.
    pub open spec fn debug(self) -> Seq<char> {
        match self {
            TransitionTypeView::Start(x0) => "Start("@ + decimal(x0 as nat) + ")"@,
            TransitionTypeView::Goto => "Goto"@,
            TransitionTypeView::Switch => "Switch"@,
            TransitionTypeView::Return(x0) => "Return("@ + decimal(x0 as nat) + ")"@,
            TransitionTypeView::Assert => "Assert"@,
            TransitionTypeView::Drop => "Drop"@,
            TransitionTypeView::Function => "Function"@,
            TransitionTypeView::Lock(x0) => "Lock("@ + decimal(x0 as nat) + ")"@,
            TransitionTypeView::Unlock(x0) => "Unlock("@ + decimal(x0 as nat) + ")"@,
            TransitionTypeView::RwLockRead(x0) => "RwLockRead("@ + decimal(x0 as nat) + ")"@,
            TransitionTypeView::RwLockWrite(x0) => "RwLockWrite("@ + decimal(x0 as nat) + ")"@,
            TransitionTypeView::Wait => "Wait"@,
            TransitionTypeView::Notify(x0) => "Notify("@ + decimal(x0 as nat) + ")"@,
            TransitionTypeView::Spawn(x0) => "Spawn("@ + str_debug(x0) + ")"@,
            TransitionTypeView::Join(x0) => "Join("@ + str_debug(x0) + ")"@,
            TransitionTypeView::UnsafeRead(x0, x1, x2, x3) => {
                "UnsafeRead("@ + decimal(x0 as nat) + ", "@ + str_debug(x1) + ", "@
                    + decimal(x2 as nat) + ", "@ + str_debug(x3) + ")"@
            },
            TransitionTypeView::UnsafeWrite(x0, x1, x2, x3) => {
                "UnsafeWrite("@ + decimal(x0 as nat) + ", "@ + str_debug(x1) + ", "@
                    + decimal(x2 as nat) + ", "@ + str_debug(x3) + ")"@
            },
            TransitionTypeView::UnsafeAccess(x0) => {
                "UnsafeAccess("@ + "["@ + join_text(unsafe_op_texts(x0), ", "@) + "]"@ + ")"@
            },
            TransitionTypeView::AtomicLoad(x0, x1, x2, x3) => {
                "AtomicLoad("@ + x0.debug() + ", "@ + x1.name() + ", "@ + str_debug(x2) + ", "@
                    + decimal(x3 as nat) + ")"@
            },
            TransitionTypeView::AtomicStore(x0, x1, x2, x3) => {
                "AtomicStore("@ + x0.debug() + ", "@ + x1.name() + ", "@ + str_debug(x2) + ", "@
                    + decimal(x3 as nat) + ")"@
            },
            TransitionTypeView::AtomicCmpXchg(x0, x1, x2, x3, x4) => {
                "AtomicCmpXchg("@ + x0.debug() + ", "@ + x1.name() + ", "@ + x2.name() + ", "@
                    + str_debug(x3) + ", "@ + decimal(x4 as nat) + ")"@
            },
            TransitionTypeView::Inhibitor => "Inhibitor"@,
            TransitionTypeView::Reset => "Reset"@,
        }
    }
}

impl TransitionType {
    /// The printed form.
    pub fn debug_text(&self) -> (r: String)
        ensures
            r@ == self@.debug(),
    {
        match self {
            TransitionType::Start(x0) => {
                "Start(".to_owned().concat(index_text(*x0).as_str()).concat(")")
            },
            TransitionType::Goto => "Goto".to_owned(),
            TransitionType::Switch => "Switch".to_owned(),
            TransitionType::Return(x0) => {
                "Return(".to_owned().concat(index_text(*x0).as_str()).concat(")")
            },
            TransitionType::Assert => "Assert".to_owned(),
            TransitionType::Drop => "Drop".to_owned(),
            TransitionType::Function => "Function".to_owned(),
            TransitionType::Lock(x0) => {
                "Lock(".to_owned().concat(index_text(*x0).as_str()).concat(")")
            },
            TransitionType::Unlock(x0) => {
                "Unlock(".to_owned().concat(index_text(*x0).as_str()).concat(")")
            },
            TransitionType::RwLockRead(x0) => {
                "RwLockRead(".to_owned().concat(index_text(*x0).as_str()).concat(")")
            },
            TransitionType::RwLockWrite(x0) => {
                "RwLockWrite(".to_owned().concat(index_text(*x0).as_str()).concat(")")
            },
            TransitionType::Wait => "Wait".to_owned(),
            TransitionType::Notify(x0) => {
                "Notify(".to_owned().concat(index_text(*x0).as_str()).concat(")")
            },
            TransitionType::Spawn(x0) => {
                "Spawn(".to_owned().concat(str_debug_text(x0.as_str()).as_str()).concat(")")
            },
            TransitionType::Join(x0) => {
                "Join(".to_owned().concat(str_debug_text(x0.as_str()).as_str()).concat(")")
            },
            TransitionType::UnsafeRead(x0, x1, x2, x3) => {
                "UnsafeRead(".to_owned().concat(index_text(*x0).as_str()).concat(", ")
                    .concat(str_debug_text(x1.as_str()).as_str()).concat(", ")
                    .concat(index_text(*x2).as_str()).concat(", ")
                    .concat(str_debug_text(x3.as_str()).as_str()).concat(")")
            },
            TransitionType::UnsafeWrite(x0, x1, x2, x3) => {
                "UnsafeWrite(".to_owned().concat(index_text(*x0).as_str()).concat(", ")
                    .concat(str_debug_text(x1.as_str()).as_str()).concat(", ")
                    .concat(index_text(*x2).as_str()).concat(", ")
                    .concat(str_debug_text(x3.as_str()).as_str()).concat(")")
            },
            TransitionType::UnsafeAccess(x0) => {
                "UnsafeAccess(".to_owned().concat("[").concat(unsafe_ops_text(x0).as_str())
                    .concat("]").concat(")")
            },
            TransitionType::AtomicLoad(x0, x1, x2, x3) => {
                "AtomicLoad(".to_owned().concat(x0.debug_text().as_str()).concat(", ")
                    .concat(x1.name_text()).concat(", ")
                    .concat(str_debug_text(x2.as_str()).as_str()).concat(", ")
                    .concat(index_text(*x3).as_str()).concat(")")
            },
            TransitionType::AtomicStore(x0, x1, x2, x3) => {
                "AtomicStore(".to_owned().concat(x0.debug_text().as_str()).concat(", ")
                    .concat(x1.name_text()).concat(", ")
                    .concat(str_debug_text(x2.as_str()).as_str()).concat(", ")
                    .concat(index_text(*x3).as_str()).concat(")")
            },
            TransitionType::AtomicCmpXchg(x0, x1, x2, x3, x4) => {
                "AtomicCmpXchg(".to_owned().concat(x0.debug_text().as_str()).concat(", ")
                    .concat(x1.name_text()).concat(", ").concat(x2.name_text()).concat(", ")
                    .concat(str_debug_text(x3.as_str()).as_str()).concat(", ")
                    .concat(index_text(*x4).as_str()).concat(")")
            },
            TransitionType::Inhibitor => "Inhibitor".to_owned(),
            TransitionType::Reset => "Reset".to_owned(),
        }
    }
}

/// A transition: its name and what firing it stands for.
pub struct PtTransition {
    pub name: String,
    pub transition_type: TransitionType,
}

/// A transition with its texts as characters.
pub struct TransitionView {
    pub name: Seq<char>,
    pub transition_type: TransitionTypeView,
}

impl View for PtTransition {
    type V = TransitionView;

    open spec fn view(&self) -> TransitionView {
        TransitionView { name: self.name@, transition_type: self.transition_type@ }
    }
}

/// Which way an arc goes.
#[derive(Clone, Copy, Debug, PartialEq, Eq, Structural)]
pub enum ArcDir {
    /// From a place to a transition.
    Input,
    /// From a transition to a place.
    Output,
    /// Blocks the transition while the place holds tokens.
    Inhibitor,
    /// Empties the place.
    Reset,
}

/// An arc between a place and a transition.
#[derive(Clone, Copy, Debug, PartialEq, Eq, Structural)]
pub struct Arc {
    pub place: PlaceId,
    pub transition: TransitionId,
    pub weight: u64,
    pub direction: ArcDir,
}

/// A Petri net.
pub struct PtNet {
    pub places: Vec<PtPlace>,
    pub transitions: Vec<PtTransition>,
    pub arcs: Vec<Arc>,
}

/// A Petri net with its texts as characters.
pub struct NetView {
    pub places: Seq<PlaceView>,
    pub transitions: Seq<TransitionView>,
    pub arcs: Seq<Arc>,
}

impl View for PtNet {
    type V = NetView;

    open spec fn view(&self) -> NetView {
        NetView {
            places: self.places@.map_values(|p: PtPlace| p@),
            transitions: self.transitions@.map_values(|t: PtTransition| t@),
            arcs: self.arcs@,
        }
    }
}

/// The sum of the weights of the arcs between a place and a transition in one
/// direction.
pub open spec fn total_weight(
    arcs: Seq<Arc>,
    place: PlaceId,
    transition: TransitionId,
    direction: ArcDir,
) -> nat
    decreases arcs.len(),
{
    if arcs.len() == 0 {
        0
    } else {
        let a = arcs.last();
        total_weight(arcs.drop_last(), place, transition, direction) + (if a.place == place
            && a.transition == transition && a.direction == direction {
            a.weight as nat
        } else {
            0
        })
    }
}

/// The largest weight where the sum is larger still.
pub open spec fn capped(total: nat) -> u64 {
    if total > u64::MAX {
        u64::MAX
    } else {
        total as u64
    }
}

impl NetView {
    /// The net with one more place.
    pub open spec fn with_place(self, place: PlaceView) -> NetView {
        NetView { places: self.places.push(place), ..self }
    }

    /// The net with one more transition.
    pub open spec fn with_transition(self, name: Seq<char>, transition_type: TransitionTypeView) -> NetView {
        NetView {
            transitions: self.transitions.push(TransitionView { name, transition_type }),
            ..self
        }
    }

    /// The net with one more arc from a place to a transition.
    pub open spec fn with_input(self, place: PlaceId, transition: TransitionId, weight: u64) -> NetView {
        NetView {
            arcs: self.arcs.push(Arc { place, transition, weight, direction: ArcDir::Input }),
            ..self
        }
    }

    /// The net with one more arc from a transition to a place.
    pub open spec fn with_output(self, place: PlaceId, transition: TransitionId, weight: u64) -> NetView {
        NetView {
            arcs: self.arcs.push(Arc { place, transition, weight, direction: ArcDir::Output }),
            ..self
        }
    }

    /// The net with the type of one transition replaced.
    pub open spec fn with_transition_type(
        self,
        transition: TransitionId,
        transition_type: TransitionTypeView,
    ) -> NetView {
        NetView {
            transitions: self.transitions.update(
                transition as int,
                TransitionView {
                    name: self.transitions[transition as int].name,
                    transition_type,
                },
            ),
            ..self
        }
    }

    /// The tokens that a transition takes from a place.
    pub open spec fn input(self, place: PlaceId, transition: TransitionId) -> u64 {
        capped(total_weight(self.arcs, place, transition, ArcDir::Input))
    }

    /// The tokens that a transition puts onto a place.
    pub open spec fn output(self, place: PlaceId, transition: TransitionId) -> u64 {
        capped(total_weight(self.arcs, place, transition, ArcDir::Output))
    }
}

impl PtNet {
    /// The net without places, transitions and arcs.
    pub fn empty() -> (r: Self)
        ensures
            r@ == (NetView {
                places: Seq::empty(),
                transitions: Seq::empty(),
                arcs: Seq::empty(),
            }),
    {
        let r = PtNet { places: Vec::new(), transitions: Vec::new(), arcs: Vec::new() };
        proof {
            assert(r@.places =~= Seq::empty());
            assert(r@.transitions =~= Seq::empty());
        }
        r
    }

    /// Adds a place.
    pub fn add_place(&mut self, place: PtPlace) -> (id: PlaceId)
        ensures
            final(self)@ == old(self)@.with_place(place@),
            id == old(self)@.places.len(),
    {
        let id = self.places.len();
        self.places.push(place);
        proof {
            assert(self@.places =~= old(self)@.places.push(place@));
        }
        id
    }

    /// Adds a transition.
    pub fn add_transition(&mut self, transition: PtTransition) -> (id: TransitionId)
        ensures
            final(self)@ == old(self)@.with_transition(
                transition.name@,
                transition.transition_type@,
            ),
            id == old(self)@.transitions.len(),
    {
        let id = self.transitions.len();
        self.transitions.push(transition);
        proof {
            assert(self@.transitions =~= old(self)@.transitions.push(transition@));
        }
        id
    }

    /// Adds an arc from a place to a transition.
    pub fn add_input_arc(&mut self, place: PlaceId, transition: TransitionId, weight: u64)
        ensures
            final(self)@ == old(self)@.with_input(place, transition, weight),
    {
        self.arcs.push(Arc { place, transition, weight, direction: ArcDir::Input });
    }

    /// Adds an arc from a transition to a place.
    pub fn add_output_arc(&mut self, place: PlaceId, transition: TransitionId, weight: u64)
        ensures
            final(self)@ == old(self)@.with_output(place, transition, weight),
    {
        self.arcs.push(Arc { place, transition, weight, direction: ArcDir::Output });
    }

    /// Replaces the type of a transition.
    pub fn set_transition_type(&mut self, transition: TransitionId, transition_type: TransitionType)
        requires
            transition < old(self)@.transitions.len(),
        ensures
            final(self)@ == old(self)@.with_transition_type(transition, transition_type@),
    {
        self.transitions[transition].transition_type = transition_type;
        proof {
            assert(self@.transitions =~= old(self)@.with_transition_type(
                transition,
                transition_type@,
            ).transitions);
        }
    }

    /// The sum of the weights of the arcs of one direction, at most the largest
    /// weight.
    fn weight_of(&self, place: PlaceId, transition: TransitionId, direction: ArcDir) -> (w: u64)
        ensures
            w == capped(total_weight(self.arcs@, place, transition, direction)),
    {
        let mut sum: u64 = 0;
        let mut i: usize = 0;
        proof {
            assert(self.arcs@.take(0) =~= Seq::<Arc>::empty());
        }
        while i < self.arcs.len()
            invariant
                i <= self.arcs@.len(),
                sum == capped(
                    total_weight(self.arcs@.take(i as int), place, transition, direction),
                ),
            decreases self.arcs@.len() - i,
        {
            let a = self.arcs[i];
            proof {
                assert(self.arcs@.take(i + 1).drop_last() =~= self.arcs@.take(i as int));
                assert(self.arcs@.take(i + 1).last() == a);
            }
            if a.place == place && a.transition == transition && a.direction == direction {
                sum = sum.saturating_add(a.weight);
            }
            i = i + 1;
        }
        proof {
            assert(self.arcs@.take(i as int) =~= self.arcs@);
        }
        sum
    }

    /// The tokens that a transition takes from a place.
    pub fn input_weight(&self, place: PlaceId, transition: TransitionId) -> (w: u64)
        ensures
            w == self@.input(place, transition),
    {
        self.weight_of(place, transition, ArcDir::Input)
    }

    /// The tokens that a transition puts onto a place.
    pub fn output_weight(&self, place: PlaceId, transition: TransitionId) -> (w: u64)
        ensures
            w == self@.output(place, transition),
    {
        self.weight_of(place, transition, ArcDir::Output)
    }
}

} // verus!
