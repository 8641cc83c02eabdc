//! Abstract locations, field paths and contexts, numbered as they come.

use crate::collections::Key;
use vstd::prelude::*;

verus! {

/// The number of a location.
pub type LocId = usize;

/// The number of a field path.
pub type FieldPath = usize;

/// The longest field path that is told apart; what lies deeper has no location
/// of its own.
pub const MAX_PATH_LEN: usize = 8;

/// One step of a field path.
#[derive(Clone, Copy, Debug, PartialEq, Eq, Structural)]
pub enum ProjElem {
    Field(u32),
    Deref,
    Index,
}

/// A call: the calling function and its block.
#[derive(Clone, Copy, Debug, PartialEq, Eq, Structural)]
pub struct CallSite {
    pub func: usize,
    pub bb: usize,
}

/// The latest call sites on the way to a function, last call last.
#[derive(Debug)]
pub struct Context {
    pub sites: Vec<CallSite>,
}

impl View for Context {
    type V = Seq<CallSite>;

    open spec fn view(&self) -> Seq<CallSite> {
        self.sites@
    }
}

impl Context {
    /// No call sites.
    pub fn empty() -> (r: Self)
        ensures
            r@ == Seq::<CallSite>::empty(),
    {
        Context { sites: Vec::new() }
    }

    /// A copy.
    pub fn duplicate(&self) -> (r: Self)
        ensures
            r@ == self@,
    {
        let mut sites: Vec<CallSite> = Vec::new();
        let mut i: usize = 0;
        while i < self.sites.len()
            invariant
                i <= self.sites@.len(),
                sites@ == self.sites@.take(i as int),
            decreases self.sites@.len() - i,
        {
            sites.push(self.sites[i]);
            i = i + 1;
            proof {
                assert(sites@ =~= self.sites@.take(i as int));
            }
        }
        proof {
            assert(sites@ =~= self.sites@);
        }
        Context { sites }
    }

    /// Whether two contexts are the same.
    pub fn same(&self, other: &Context) -> (b: bool)
        ensures
            b == (self@ == other@),
    {
        if self.sites.len() != other.sites.len() {
            return false;
        }
        let mut i: usize = 0;
        while i < self.sites.len()
            invariant
                i <= self.sites@.len(),
                self.sites@.len() == other.sites@.len(),
                forall|j: int| 0 <= j < i ==> self.sites@[j] == other.sites@[j],
            decreases self.sites@.len() - i,
        {
            if self.sites[i] != other.sites[i] {
                return false;
            }
            i = i + 1;
        }
        proof {
            assert(self@ =~= other@);
        }
        true
    }
}

/// Where memory is allocated.
#[derive(Clone, Copy, Debug, PartialEq, Eq, Structural)]
pub struct AllocSite {
    pub func: usize,
    pub bb: usize,
    pub idx: usize,
}

/// An abstract location.
#[derive(Debug)]
pub enum AbstractLoc {
    /// A local of a function in a context, or a part of it.
    Var { ctx: Context, func: usize, base: usize, path: FieldPath },
    /// Allocated memory, or a part of it.
    Heap { ctx: Context, site: AllocSite, path: FieldPath },
    /// A static, or a part of it.
    Global { def_index: usize, path: FieldPath },
}

/// An abstract location with its context as a sequence.
pub enum LocView {
    Var { ctx: Seq<CallSite>, func: usize, base: usize, path: FieldPath },
    Heap { ctx: Seq<CallSite>, site: AllocSite, path: FieldPath },
    Global { def_index: usize, path: FieldPath },
}

impl View for AbstractLoc {
    type V = LocView;

    open spec fn view(&self) -> LocView {
        match self {
            AbstractLoc::Var { ctx, func, base, path } => LocView::Var {
                ctx: ctx@,
                func: *func,
                base: *base,
                path: *path,
            },
            AbstractLoc::Heap { ctx, site, path } => LocView::Heap {
                ctx: ctx@,
                site: *site,
                path: *path,
            },
            AbstractLoc::Global { def_index, path } => LocView::Global {
                def_index: *def_index,
                path: *path,
            },
        }
    }
}

/// A location without its context.
#[derive(Clone, Copy, Debug, PartialEq, Eq, Structural)]
pub enum CiKey {
    Var { func: usize, base: usize, path: FieldPath },
    Heap { site: AllocSite, path: FieldPath },
    Global { def_index: usize, path: FieldPath },
}

impl LocView {
    /// The field path.
    pub open spec fn path(self) -> FieldPath {
        match self {
            LocView::Var { ctx, func, base, path } => path,
            LocView::Heap { ctx, site, path } => path,
            LocView::Global { def_index, path } => path,
        }
    }

    /// The location with another field path.
    pub open spec fn with_path(self, to: FieldPath) -> LocView {
        match self {
            LocView::Var { ctx, func, base, path } => LocView::Var { ctx, func, base, path: to },
            LocView::Heap { ctx, site, path } => LocView::Heap { ctx, site, path: to },
            LocView::Global { def_index, path } => LocView::Global { def_index, path: to },
        }
    }

    /// The location without its context.
    pub open spec fn ci_key(self) -> CiKey {
        match self {
            LocView::Var { ctx, func, base, path } => CiKey::Var { func, base, path },
            LocView::Heap { ctx, site, path } => CiKey::Heap { site, path },
            LocView::Global { def_index, path } => CiKey::Global { def_index, path },
        }
    }
}

impl AbstractLoc {
    /// Whether two locations are the same.
    fn same(&self, other: &AbstractLoc) -> (b: bool)
        ensures
            b == (self@ == other@),
    {
        match (self, other) {
            (
                AbstractLoc::Var { ctx, func, base, path },
                AbstractLoc::Var { ctx: c, func: f, base: b, path: p },
            ) => *func == *f && *base == *b && *path == *p && ctx.same(c),
            (
                AbstractLoc::Heap { ctx, site, path },
                AbstractLoc::Heap { ctx: c, site: s, path: p },
            ) => *site == *s && *path == *p && ctx.same(c),
            (
                AbstractLoc::Global { def_index, path },
                AbstractLoc::Global { def_index: d, path: p },
            ) => *def_index == *d && *path == *p,
            _ => false,
        }
    }

    /// The field path.
    pub fn field_path(&self) -> (r: FieldPath)
        ensures
            r == self@.path(),
    {
        match self {
            AbstractLoc::Var { ctx: _, func: _, base: _, path } => *path,
            AbstractLoc::Heap { ctx: _, site: _, path } => *path,
            AbstractLoc::Global { def_index: _, path } => *path,
        }
    }

    /// A copy with another field path.
    fn at_path(&self, to: FieldPath) -> (r: AbstractLoc)
        ensures
            r@ == self@.with_path(to),
    {
        match self {
            AbstractLoc::Var { ctx, func, base, path: _ } => AbstractLoc::Var {
                ctx: ctx.duplicate(),
                func: *func,
                base: *base,
                path: to,
            },
            AbstractLoc::Heap { ctx, site, path: _ } => AbstractLoc::Heap {
                ctx: ctx.duplicate(),
                site: *site,
                path: to,
            },
            AbstractLoc::Global { def_index, path: _ } => AbstractLoc::Global {
                def_index: *def_index,
                path: to,
            },
        }
    }
}

/// The position at which `x` first occurs, or the length where it does not.
pub open spec fn place_in<T>(s: Seq<T>, x: T) -> nat
    decreases s.len(),
{
    if s.len() == 0 {
        0
    } else {
        let p = place_in(s.drop_last(), x);
        if p < s.len() - 1 || s.last() == x {
            p
        } else {
            s.len()
        }
    }
}

/// The sequence with `x` at its end, unless it occurs.
pub open spec fn with_item<T>(s: Seq<T>, x: T) -> Seq<T> {
    if s.contains(x) {
        s
    } else {
        s.push(x)
    }
}

/// Where an item is found.
pub proof fn place_in_facts<T>(s: Seq<T>, x: T)
    ensures
        place_in(s, x) <= s.len(),
        place_in(s, x) < s.len() ==> s[place_in(s, x) as int] == x,
        (place_in(s, x) < s.len()) == s.contains(x),
        forall|j: int| 0 <= j < place_in(s, x) ==> s[j] != x,
        place_in(s, x) < with_item(s, x).len(),
        with_item(s, x)[place_in(s, x) as int] == x,
    decreases s.len(),
{
    if s.len() > 0 {
        let front = s.drop_last();
        place_in_facts(front, x);
        let p = place_in(front, x);
        if p < front.len() {
            assert(s[p as int] == front[p as int]);
            assert(s.contains(x));
        } else if s.last() == x {
            assert(s[s.len() - 1] == x);
        } else {
            assert(!s.contains(x)) by {
                if s.contains(x) {
                    let j = choose|j: int| 0 <= j < s.len() && s[j] == x;
                    assert(front[j] == x);
                }
            }
        }
        assert forall|j: int| 0 <= j < place_in(s, x) implies s[j] != x by {
            if j < front.len() {
                assert(s[j] == front[j]);
                if j >= p {
                    assert(!front.contains(x));
                    assert(front.contains(front[j]));
                }
            }
        }
    }
}

/// An item that is found at `i` and at no earlier position is placed there.
pub proof fn place_in_at<T>(s: Seq<T>, x: T, i: int)
    requires
        0 <= i < s.len(),
        s[i] == x,
        forall|j: int| 0 <= j < i ==> s[j] != x,
    ensures
        place_in(s, x) == i,
        s.contains(x),
{
    place_in_facts(s, x);
    let p = place_in(s, x) as int;
    if p < i {
        assert(s[p] == x);
    } else if i < p {
        assert(s[i] != x);
    }
}

/// The numbered locations and field paths.
#[verifier::ext_equal]
pub struct ArenaView {
    pub paths: Seq<Seq<ProjElem>>,
    pub locs: Seq<LocView>,
}

impl ArenaView {
    /// Every location has a numbered field path, and nothing is numbered twice.
    pub open spec fn wf(self) -> bool {
        &&& self.paths.no_duplicates()
        &&& self.locs.no_duplicates()
        &&& forall|i: int| 0 <= i < self.locs.len() ==> (#[trigger] self.locs[i]).path()
            < self.paths.len()
    }

    /// The number of a field path.
    pub open spec fn path_id(self, path: Seq<ProjElem>) -> FieldPath {
        place_in(self.paths, path) as usize
    }

    /// The arena with the field path numbered.
    pub open spec fn with_path(self, path: Seq<ProjElem>) -> ArenaView {
        ArenaView { paths: with_item(self.paths, path), ..self }
    }

    /// The number of a location.
    pub open spec fn loc_id(self, loc: LocView) -> LocId {
        place_in(self.locs, loc) as usize
    }

    /// The arena with the location numbered.
    pub open spec fn with_loc(self, loc: LocView) -> ArenaView {
        ArenaView { locs: with_item(self.locs, loc), ..self }
    }

    /// The arena with the empty field path numbered.
    pub open spec fn with_empty(self) -> ArenaView {
        self.with_path(Seq::empty())
    }

    /// The number of the empty field path.
    pub open spec fn empty_id(self) -> FieldPath {
        self.path_id(Seq::empty())
    }

    /// The field path of the part of a location.
    pub open spec fn projected_path(self, loc: LocId, suffix: FieldPath) -> Seq<ProjElem> {
        self.paths[self.locs[loc as int].path() as int] + self.paths[suffix as int]
    }

    /// The part of a location has a location of its own.
    pub open spec fn can_project(self, loc: LocId, suffix: FieldPath) -> bool {
        self.projected_path(loc, suffix).len() <= MAX_PATH_LEN
    }

    /// The part of a location.
    pub open spec fn projection(self, loc: LocId, suffix: FieldPath) -> LocView {
        self.locs[loc as int].with_path(self.path_id(self.projected_path(loc, suffix)))
    }

    /// The arena with the part of a location numbered.
    pub open spec fn with_projection(self, loc: LocId, suffix: FieldPath) -> ArenaView {
        if self.can_project(loc, suffix) {
            self.with_path(self.projected_path(loc, suffix)).with_loc(
                self.projection(loc, suffix),
            )
        } else {
            self
        }
    }

    /// The number of the part of a location.
    pub open spec fn project(self, loc: LocId, suffix: FieldPath) -> Option<LocId> {
        if self.can_project(loc, suffix) {
            Some(self.loc_id(self.projection(loc, suffix)))
        } else {
            None
        }
    }

    /// The other arena numbers at least what this one does, in the same way.
    pub open spec fn extends_to(self, other: ArenaView) -> bool {
        &&& self.paths.len() <= other.paths.len()
        &&& self.locs.len() <= other.locs.len()
        &&& forall|i: int| 0 <= i < self.paths.len() ==> #[trigger] other.paths[i] == self.paths[i]
        &&& forall|i: int| 0 <= i < self.locs.len() ==> #[trigger] other.locs[i] == self.locs[i]
    }
}

/// Numbering one more item keeps items distinct.
pub proof fn with_item_distinct<T>(s: Seq<T>, x: T)
    requires
        s.no_duplicates(),
    ensures
        with_item(s, x).no_duplicates(),
        s.len() <= with_item(s, x).len() <= s.len() + 1,
        forall|i: int| 0 <= i < s.len() ==> #[trigger] with_item(s, x)[i] == s[i],
{
    let r = with_item(s, x);
    if !s.contains(x) {
        assert forall|a: int, b: int|
            0 <= a < r.len() && 0 <= b < r.len() && a != b implies r[a] != r[b] by {
            if a < s.len() && b < s.len() {
                assert(s[a] != s[b]);
            } else if a < s.len() {
                assert(s.contains(s[a]));
            } else {
                assert(s.contains(s[b]));
            }
        }
    }
}

/// Numbering a field path keeps the arena well formed.
pub proof fn with_path_wf(a: ArenaView, path: Seq<ProjElem>)
    requires
        a.wf(),
        a.with_path(path).paths.len() <= usize::MAX,
    ensures
        a.with_path(path).wf(),
        a.extends_to(a.with_path(path)),
        a.path_id(path) < a.with_path(path).paths.len(),
        a.with_path(path).paths[a.path_id(path) as int] == path,
{
    with_item_distinct(a.paths, path);
    place_in_facts(a.paths, path);
}

/// Numbering a location keeps the arena well formed.
pub proof fn with_loc_wf(a: ArenaView, loc: LocView)
    requires
        a.wf(),
        loc.path() < a.paths.len(),
        a.with_loc(loc).locs.len() <= usize::MAX,
    ensures
        a.with_loc(loc).wf(),
        a.extends_to(a.with_loc(loc)),
        a.loc_id(loc) < a.with_loc(loc).locs.len(),
        a.with_loc(loc).locs[a.loc_id(loc) as int] == loc,
{
    with_item_distinct(a.locs, loc);
    place_in_facts(a.locs, loc);
    let b = a.with_loc(loc);
    assert forall|i: int| 0 <= i < b.locs.len() implies (#[trigger] b.locs[i]).path()
        < b.paths.len() by {
        if i < a.locs.len() {
            assert(b.locs[i] == a.locs[i]);
        }
    }
}

/// The numbered locations and field paths.
#[derive(Debug)]
pub struct LocArena {
    pub paths: Vec<Vec<ProjElem>>,
    pub locs: Vec<AbstractLoc>,
}

/// The field paths as sequences.
pub open spec fn path_views(paths: Seq<Vec<ProjElem>>) -> Seq<Seq<ProjElem>> {
    paths.map_values(|p: Vec<ProjElem>| p@)
}

/// The locations with their contexts as sequences.
pub open spec fn loc_views(locs: Seq<AbstractLoc>) -> Seq<LocView> {
    locs.map_values(|l: AbstractLoc| l@)
}

impl View for LocArena {
    type V = ArenaView;

    open spec fn view(&self) -> ArenaView {
        ArenaView { paths: path_views(self.paths@), locs: loc_views(self.locs@) }
    }
}

/// Whether two field paths are the same.
pub fn same_path(a: &Vec<ProjElem>, b: &Vec<ProjElem>) -> (r: bool)
    ensures
        r == (a@ == b@),
{
    if a.len() != b.len() {
        return false;
    }
    let mut i: usize = 0;
    while i < a.len()
        invariant
            i <= a@.len(),
            a@.len() == b@.len(),
            forall|j: int| 0 <= j < i ==> a@[j] == b@[j],
        decreases a@.len() - i,
    {
        if a[i] != b[i] {
            return false;
        }
        i = i + 1;
    }
    proof {
        assert(a@ =~= b@);
    }
    true
}

/// The steps of one field path and then those of another.
pub fn joined_path(a: &Vec<ProjElem>, b: &Vec<ProjElem>) -> (r: Vec<ProjElem>)
    ensures
        r@ == a@ + b@,
{
    let mut r: Vec<ProjElem> = Vec::new();
    let mut i: usize = 0;
    while i < a.len()
        invariant
            i <= a@.len(),
            r@ == a@.take(i as int),
        decreases a@.len() - i,
    {
        r.push(a[i]);
        i = i + 1;
        proof {
            assert(r@ =~= a@.take(i as int));
        }
    }
    let mut j: usize = 0;
    proof {
        assert(r@ =~= a@ + b@.take(0));
    }
    while j < b.len()
        invariant
            j <= b@.len(),
            r@ == a@ + b@.take(j as int),
        decreases b@.len() - j,
    {
        r.push(b[j]);
        j = j + 1;
        proof {
            assert(r@ =~= a@ + b@.take(j as int));
        }
    }
    proof {
        assert(b@.take(j as int) =~= b@);
    }
    r
}

impl LocArena {
    /// Nothing numbered yet.
    pub fn new() -> (r: Self)
        ensures
            r@ == (ArenaView { paths: Seq::empty(), locs: Seq::empty() }),
            r@.wf(),
    {
        let r = LocArena { paths: Vec::new(), locs: Vec::new() };
        proof {
            assert(r@.paths =~= Seq::<Seq<ProjElem>>::empty());
            assert(r@.locs =~= Seq::<LocView>::empty());
        }
        r
    }

    /// The position of a field path, or how many there are.
    fn find_path(&self, path: &Vec<ProjElem>) -> (r: usize)
        ensures
            r == place_in(self@.paths, path@),
    {
        let mut i: usize = 0;
        while i < self.paths.len()
            invariant
                i <= self.paths@.len(),
                forall|j: int| 0 <= j < i ==> (#[trigger] self@.paths[j]) != path@,
            decreases self.paths@.len() - i,
        {
            if same_path(&self.paths[i], path) {
                proof {
                    assert(self@.paths[i as int] == path@);
                    place_in_at(self@.paths, path@, i as int);
                }
                return i;
            }
            i = i + 1;
        }
        proof {
            place_in_facts(self@.paths, path@);
            if self@.paths.contains(path@) {
                let j = choose|j: int| 0 <= j < self@.paths.len() && self@.paths[j] == path@;
                assert(self@.paths[j] != path@);
            }
        }
        i
    }

    /// Numbers a field path.
    pub fn intern_path(&mut self, path: Vec<ProjElem>) -> (id: FieldPath)
        requires
            old(self)@.wf(),
        ensures
            final(self)@ == old(self)@.with_path(path@),
            final(self)@.wf(),
            id == old(self)@.path_id(path@),
            old(self)@.extends_to(final(self)@),
            id < final(self)@.paths.len(),
            final(self)@.paths[id as int] == path@,
    {
        let ghost a = self@;
        let i = self.find_path(&path);
        proof {
            place_in_facts(a.paths, path@);
        }
        if i == self.paths.len() {
            let ghost p = path@;
            self.paths.push(path);
            proof {
                assert(self@.paths =~= a.paths.push(p));
            }
        }
        let n: usize = self.paths.len();
        proof {
            assert(self@ =~= a.with_path(path@));
            assert(self@.paths.len() == n);
            with_path_wf(a, path@);
        }
        i
    }

    /// The position of a location, or how many there are.
    fn find_loc(&self, loc: &AbstractLoc) -> (r: usize)
        ensures
            r == place_in(self@.locs, loc@),
    {
        let mut i: usize = 0;
        while i < self.locs.len()
            invariant
                i <= self.locs@.len(),
                forall|j: int| 0 <= j < i ==> (#[trigger] self@.locs[j]) != loc@,
            decreases self.locs@.len() - i,
        {
            if self.locs[i].same(loc) {
                proof {
                    assert(self@.locs[i as int] == loc@);
                    place_in_at(self@.locs, loc@, i as int);
                }
                return i;
            }
            i = i + 1;
        }
        proof {
            place_in_facts(self@.locs, loc@);
            if self@.locs.contains(loc@) {
                let j = choose|j: int| 0 <= j < self@.locs.len() && self@.locs[j] == loc@;
                assert(self@.locs[j] != loc@);
            }
        }
        i
    }

    /// Numbers a location.
    pub fn intern_loc(&mut self, loc: AbstractLoc) -> (id: LocId)
        requires
            old(self)@.wf(),
            loc@.path() < old(self)@.paths.len(),
        ensures
            final(self)@ == old(self)@.with_loc(loc@),
            final(self)@.wf(),
            id == old(self)@.loc_id(loc@),
            old(self)@.extends_to(final(self)@),
            id < final(self)@.locs.len(),
            final(self)@.locs[id as int] == loc@,
    {
        let ghost a = self@;
        let i = self.find_loc(&loc);
        proof {
            place_in_facts(a.locs, loc@);
        }
        if i == self.locs.len() {
            let ghost l = loc@;
            self.locs.push(loc);
            proof {
                assert(self@.locs =~= a.locs.push(l));
            }
        }
        let n: usize = self.locs.len();
        proof {
            assert(self@ =~= a.with_loc(loc@));
            assert(self@.locs.len() == n);
            with_loc_wf(a, loc@);
        }
        i
    }

    /// Numbers the empty field path.
    pub fn empty_path(&mut self) -> (id: FieldPath)
        requires
            old(self)@.wf(),
        ensures
            final(self)@ == old(self)@.with_empty(),
            final(self)@.wf(),
            id == old(self)@.empty_id(),
            old(self)@.extends_to(final(self)@),
            id < final(self)@.paths.len(),
            final(self)@.paths[id as int] == Seq::<ProjElem>::empty(),
    {
        let path: Vec<ProjElem> = Vec::new();
        proof {
            assert(path@ =~= Seq::<ProjElem>::empty());
        }
        self.intern_path(path)
    }

    /// The number of the empty field path, where it has one.
    pub fn empty_path_id(&self) -> (r: Option<FieldPath>)
        ensures
            r == if self@.paths.contains(Seq::<ProjElem>::empty()) {
                Some(self@.empty_id())
            } else {
                None
            },
    {
        let path: Vec<ProjElem> = Vec::new();
        let i = self.find_path(&path);
        proof {
            assert(path@ =~= Seq::<ProjElem>::empty());
            place_in_facts(self@.paths, path@);
        }
        if i < self.paths.len() {
            Some(i)
        } else {
            None
        }
    }

    /// Numbers a field path with one more step.
    pub fn extend_path(&mut self, base: FieldPath, elem: ProjElem) -> (id: FieldPath)
        requires
            old(self)@.wf(),
            base < old(self)@.paths.len(),
        ensures
            final(self)@ == old(self)@.with_path(old(self)@.paths[base as int].push(elem)),
            final(self)@.wf(),
            id == old(self)@.path_id(old(self)@.paths[base as int].push(elem)),
            old(self)@.extends_to(final(self)@),
            id < final(self)@.paths.len(),
            final(self)@.paths[id as int] == old(self)@.paths[base as int].push(elem),
    {
        let mut step: Vec<ProjElem> = Vec::new();
        step.push(elem);
        let path = joined_path(&self.paths[base], &step);
        proof {
            assert(self@.paths[base as int] == self.paths@[base as int]@);
            assert(path@ =~= self@.paths[base as int].push(elem));
        }
        self.intern_path(path)
    }

    /// Numbers a local of a function in a context, or a part of it.
    pub fn var_ctx(&mut self, ctx: Context, func: usize, base: usize, path: FieldPath) -> (id: LocId)
        requires
            old(self)@.wf(),
            path < old(self)@.paths.len(),
        ensures
            final(self)@ == old(self)@.with_loc(LocView::Var { ctx: ctx@, func, base, path }),
            final(self)@.wf(),
            id == old(self)@.loc_id(LocView::Var { ctx: ctx@, func, base, path }),
            old(self)@.extends_to(final(self)@),
            id < final(self)@.locs.len(),
            final(self)@.locs[id as int] == (LocView::Var { ctx: ctx@, func, base, path }),
    {
        self.intern_loc(AbstractLoc::Var { ctx, func, base, path })
    }

    /// Numbers the part of a location; what lies too deep has none.
    pub fn project(&mut self, loc: LocId, suffix: FieldPath) -> (r: Option<LocId>)
        requires
            old(self)@.wf(),
            loc < old(self)@.locs.len(),
            suffix < old(self)@.paths.len(),
        ensures
            final(self)@ == old(self)@.with_projection(loc, suffix),
            final(self)@.wf(),
            r == old(self)@.project(loc, suffix),
            old(self)@.extends_to(final(self)@),
            r matches Some(id) ==> id < final(self)@.locs.len() && final(self)@.locs[id as int]
                == old(self)@.projection(loc, suffix),
    {
        let ghost a = self@;
        proof {
            assert(a.locs[loc as int] == self.locs@[loc as int]@);
        }
        let old_path = self.locs[loc].field_path();
        let path = joined_path(&self.paths[old_path], &self.paths[suffix]);
        proof {
            assert(a.paths[old_path as int] == self.paths@[old_path as int]@);
            assert(a.paths[suffix as int] == self.paths@[suffix as int]@);
            assert(path@ == a.projected_path(loc, suffix));
        }
        if path.len() > MAX_PATH_LEN {
            return None;
        }
        let to = self.intern_path(path);
        proof {
            assert(self@.locs[loc as int] == self.locs@[loc as int]@);
        }
        let part = self.locs[loc].at_path(to);
        Some(self.intern_loc(part))
    }

    /// The location without its context.
    pub fn ci_key(&self, loc: LocId) -> (r: CiKey)
        requires
            loc < self@.locs.len(),
        ensures
            r == self@.locs[loc as int].ci_key(),
    {
        proof {
            assert(self@.locs[loc as int] == self.locs@[loc as int]@);
        }
        match &self.locs[loc] {
            AbstractLoc::Var { ctx: _, func, base, path } => CiKey::Var {
                func: *func,
                base: *base,
                path: *path,
            },
            AbstractLoc::Heap { ctx: _, site, path } => CiKey::Heap { site: *site, path: *path },
            AbstractLoc::Global { def_index, path } => CiKey::Global {
                def_index: *def_index,
                path: *path,
            },
        }
    }

    /// The steps of a field path.
    pub fn path(&self, path: FieldPath) -> (r: &Vec<ProjElem>)
        requires
            path < self@.paths.len(),
        ensures
            r@ == self@.paths[path as int],
    {
        proof {
            assert(self@.paths[path as int] == self.paths@[path as int]@);
        }
        &self.paths[path]
    }

    /// The location with a number.
    pub fn loc(&self, loc: LocId) -> (r: &AbstractLoc)
        requires
            loc < self@.locs.len(),
        ensures
            r@ == self@.locs[loc as int],
    {
        proof {
            assert(self@.locs[loc as int] == self.locs@[loc as int]@);
        }
        &self.locs[loc]
    }

    /// How many locations are numbered.
    pub fn loc_count(&self) -> (n: usize)
        ensures
            n == self@.locs.len(),
    {
        self.locs.len()
    }
}

impl Key for CiKey {
    fn same(&self, other: &Self) -> (b: bool) {
        *self == *other
    }
}

/// A location has parts down to eight steps and none below: the part is the
/// same base with the longer path.
pub proof fn parts_lie_at_most_eight_steps_deep(a: ArenaView, loc: LocId, suffix: FieldPath)
    ensures
        ({
            let path = a.paths[a.locs[loc as int].path() as int] + a.paths[suffix as int];
            &&& path.len() > 8 ==> a.project(loc, suffix) is None && a.with_projection(loc, suffix)
                == a
            &&& path.len() <= 8 ==> a.project(loc, suffix) is Some && a.with_projection(
                loc,
                suffix,
            ).paths.contains(path)
        }),
{
    let path = a.projected_path(loc, suffix);
    place_in_facts(a.paths, path);
    if path.len() <= 8 {
        let after = a.with_projection(loc, suffix);
        assert(after.paths[place_in(a.paths, path) as int] == path);
    }
}

} // verus!
