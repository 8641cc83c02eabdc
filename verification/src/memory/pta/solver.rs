//! The least points-to sets that satisfy the constraints.

use super::analysis::PointerAnalysis;
use super::builder::{constraint_ok, constraints_ok, facts_extend};
use super::constraint::Constraint;
use super::loc::{
    place_in, place_in_at, place_in_facts, ArenaView, FieldPath, LocArena, LocId, LocView, ProjElem,
    MAX_PATH_LEN,
};
use super::queries::only_parts_added;
use super::result::{ascending, pointee_numbered, PointsToResult};
use crate::detect::shortest_path::distinct_below;
use crate::enumeration::{
    below, below_complete, distinct_within, pairs, pairs_complete, words, words_complete,
};
use vstd::prelude::*;

verus! {

/// A relation between locations: the first may point to the second.
pub type Relation = spec_fn(LocId, LocId) -> bool;

/// What a location may point to, another may point to.
pub open spec fn copies(r: Relation, dst: LocId, src: LocId) -> bool {
    forall|o: LocId| #[trigger] r(src, o) ==> r(dst, o)
}

/// What lies behind a pointer, a location may point to.
pub open spec fn loads(r: Relation, dst: LocId, src: LocId) -> bool {
    forall|o: LocId, p: LocId| #[trigger] r(src, o) && #[trigger] r(o, p) ==> r(dst, p)
}

/// What a location may point to, what lies behind a pointer may point to.
pub open spec fn stores(r: Relation, dst: LocId, src: LocId) -> bool {
    forall|o: LocId, p: LocId| #[trigger] r(dst, o) && #[trigger] r(src, p) ==> r(o, p)
}

/// The parts of what a location may point to, another may point to.
pub open spec fn offsets(
    r: Relation,
    dst: LocId,
    src: LocId,
    suffix: FieldPath,
    a: ArenaView,
) -> bool {
    forall|o: LocId| #[trigger]
        r(src, o) && a.can_project(o, suffix) ==> r(dst, a.loc_id(a.projection(o, suffix)))
}

/// The relation satisfies a constraint.
pub open spec fn satisfies(r: Relation, c: Constraint, a: ArenaView) -> bool {
    match c {
        Constraint::AddressOf { dst, obj } => r(dst, obj),
        Constraint::Copy { dst, src } => copies(r, dst, src),
        Constraint::Load { dst, src } => loads(r, dst, src),
        Constraint::Store { dst, src } => stores(r, dst, src),
        Constraint::Offset { dst, src, suffix } => offsets(r, dst, src, suffix, a),
    }
}

/// The relation satisfies every constraint.
pub open spec fn satisfies_all(r: Relation, cs: Seq<Constraint>, a: ArenaView) -> bool {
    forall|i: int| 0 <= i < cs.len() ==> satisfies(r, #[trigger] cs[i], a)
}

/// The relation of a result.
pub open spec fn relation(result: PointsToResult) -> Relation {
    |n: LocId, p: LocId| result.holds(n, p)
}

/// The result holds no more than any relation that satisfies the constraints.
pub open spec fn is_least(result: PointsToResult, cs: Seq<Constraint>, a: ArenaView) -> bool {
    forall|r: Relation, n: LocId, p: LocId|
        #![trigger satisfies_all(r, cs, a), result.holds(n, p)]
        satisfies_all(r, cs, a) && result.holds(n, p) ==> r(n, p)
}

/// The result is the least solution of the constraints.
pub open spec fn solves(result: PointsToResult, cs: Seq<Constraint>, a: ArenaView) -> bool {
    satisfies_all(relation(result), cs, a) && is_least(result, cs, a)
}

/// The result holds no more than any relation that satisfies the constraints,
/// whatever else is numbered.
pub open spec fn is_forced(result: PointsToResult, cs: Seq<Constraint>, a: ArenaView) -> bool {
    forall|b: ArenaView, r: Relation, n: LocId, p: LocId|
        #![trigger satisfies_all(r, cs, b), result.holds(n, p)]
        b.wf() && a.extends_to(b) && satisfies_all(r, cs, b) && result.holds(n, p) ==> r(n, p)
}

/// Every relation that satisfies the constraints holds the pair, whatever else
/// is numbered.
pub open spec fn implied(n: LocId, p: LocId, cs: Seq<Constraint>, a: ArenaView) -> bool {
    forall|b: ArenaView, r: Relation| #[trigger]
        satisfies_all(r, cs, b) && b.wf() && a.extends_to(b) ==> r(n, p)
}

/// The points-to sets are in ascending order.
pub open spec fn lists_ascend(result: PointsToResult) -> bool {
    forall|i: int| 0 <= i < result.pts@.len() ==> ascending((#[trigger] result.pts@[i])@)
}

/// How many pairs the first `n` points-to sets hold.
pub open spec fn total(pts: Seq<Vec<LocId>>, n: nat) -> nat
    decreases n,
{
    if n == 0 {
        0
    } else {
        total(pts, (n - 1) as nat) + pts[n - 1]@.len()
    }
}

/// How many pairs a result holds.
pub open spec fn size(result: PointsToResult) -> nat {
    total(result.pts@, result.pts@.len())
}

proof fn total_same(a: Seq<Vec<LocId>>, b: Seq<Vec<LocId>>, n: nat)
    requires
        n <= a.len(),
        n <= b.len(),
        forall|i: int| 0 <= i < n ==> (#[trigger] a[i])@.len() == b[i]@.len(),
    ensures
        total(a, n) == total(b, n),
    decreases n,
{
    if n > 0 {
        total_same(a, b, (n - 1) as nat);
        assert(a[n - 1]@.len() == b[n - 1]@.len());
    }
}

proof fn total_grows(a: Seq<Vec<LocId>>, b: Seq<Vec<LocId>>, k: int, n: nat)
    requires
        n <= a.len() == b.len(),
        0 <= k < n,
        forall|i: int| 0 <= i < n && i != k ==> (#[trigger] a[i])@.len() == b[i]@.len(),
        b[k]@.len() == a[k]@.len() + 1,
    ensures
        total(b, n) == total(a, n) + 1,
    decreases n,
{
    if k == n - 1 {
        total_same(a, b, (n - 1) as nat);
    } else {
        total_grows(a, b, k, (n - 1) as nat);
        assert(a[n - 1]@.len() == b[n - 1]@.len());
    }
}

/// A result over locations below a bound holds no more than that many pairs.
proof fn total_bounded(pts: Seq<Vec<LocId>>, n: nat, bound: nat)
    requires
        n <= pts.len(),
        forall|i: int| 0 <= i < n ==> (#[trigger] pts[i])@.len() <= bound,
    ensures
        total(pts, n) <= n * bound,
    decreases n,
{
    if n > 0 {
        total_bounded(pts, (n - 1) as nat, bound);
        assert(pts[n - 1]@.len() <= bound);
        assert((n - 1) * bound + bound == n * bound) by (nonlinear_arith);
    }
}

/// Puts a number into an ascending list; the result is whether it is new.
fn insert_sorted(list: &mut Vec<LocId>, x: LocId) -> (new: bool)
    requires
        ascending(old(list)@),
    ensures
        ascending(final(list)@),
        new == !old(list)@.contains(x),
        forall|y: LocId| #[trigger] final(list)@.contains(y) <==> y == x || old(list)@.contains(y),
        new ==> final(list)@.len() == old(list)@.len() + 1,
        !new ==> *final(list) == *old(list),
{
    let ghost s = list@;
    let mut i: usize = 0;
    while i < list.len() && list[i] < x
        invariant
            i <= list@.len(),
            list@ == s,
            *list == *old(list),
            forall|j: int| 0 <= j < i ==> s[j] < x,
        decreases list@.len() - i,
    {
        i = i + 1;
    }
    if i < list.len() && list[i] == x {
        proof {
            assert(s.contains(s[i as int]));
        }
        return false;
    }
    proof {
        if s.contains(x) {
            let j = choose|j: int| 0 <= j < s.len() && s[j] == x;
            if j > i {
                assert(s[i as int] < s[j]);
            }
        }
    }
    list.insert(i, x);
    proof {
        let t = list@;
        assert(t == s.insert(i as int, x));
        assert forall|a: int, b: int| 0 <= a < b < t.len() implies #[trigger] t[a]
            < #[trigger] t[b] by {
            if a < i {
                assert(t[a] == s[a]);
            } else if a > i {
                assert(t[a] == s[a - 1]);
            }
            if b < i {
                assert(t[b] == s[b]);
            } else if b > i {
                assert(t[b] == s[b - 1]);
                if b - 1 > i {
                    assert(s[i as int] < s[b - 1]);
                }
            }
        }
        assert forall|y: LocId| #[trigger] t.contains(y) <==> y == x || s.contains(y) by {
            if t.contains(y) {
                let k = choose|k: int| 0 <= k < t.len() && t[k] == y;
                if k < i {
                    assert(s[k] == y);
                } else if k > i {
                    assert(s[k - 1] == y);
                }
            }
            if s.contains(y) {
                let k = choose|k: int| 0 <= k < s.len() && s[k] == y;
                if k < i {
                    assert(t[k] == y);
                } else {
                    assert(t[k + 1] == y);
                }
            }
            assert(t[i as int] == x);
        }
    }
    true
}

/// Lets a location point to another; the result is whether that is new.
fn add_pair(result: &mut PointsToResult, node: LocId, x: LocId) -> (new: bool)
    requires
        lists_ascend(*old(result)),
        node < old(result).pts@.len(),
    ensures
        lists_ascend(*final(result)),
        final(result).pts@.len() == old(result).pts@.len(),
        new == !old(result).holds(node, x),
        forall|n: LocId, p: LocId| #[trigger]
            final(result).holds(n, p) <==> old(result).holds(n, p) || (n == node && p == x),
        new ==> size(*final(result)) == size(*old(result)) + 1,
        !new ==> final(result).pts@ == old(result).pts@,
{
    let ghost s = result.pts@;
    let new = insert_sorted(&mut result.pts[node], x);
    proof {
        let t = result.pts@;
        assert forall|i: int| 0 <= i < t.len() implies ascending((#[trigger] t[i])@) by {
            if i != node {
                assert(t[i] == s[i]);
            }
        }
        assert forall|n: LocId, p: LocId| #[trigger] result.holds(n, p) <==> old(result).holds(
            n,
            p,
        ) || (n == node && p == x) by {
            if n < t.len() && n != node {
                assert(t[n as int] == s[n as int]);
            }
            if n == node {
                assert(t[n as int]@.contains(p) <==> p == x || s[n as int]@.contains(p));
            }
        }
        if new {
            total_grows(s, t, node as int, s.len());
        } else {
            assert(t =~= s);
        }
    }
    new
}

/// Every step of a field path.
spec fn all_elems() -> Seq<ProjElem> {
    seq![ProjElem::Deref, ProjElem::Index] + Seq::new(
        0x1_0000_0000nat,
        |i: int| ProjElem::Field(i as u32),
    )
}

proof fn every_elem(e: ProjElem)
    ensures
        all_elems().contains(e),
{
    let all = all_elems();
    match e {
        ProjElem::Deref => {
            assert(all[0] == e);
        },
        ProjElem::Index => {
            assert(all[1] == e);
        },
        ProjElem::Field(i) => {
            assert(all[2 + i as int] == e);
        },
    }
}

/// The length of the longest path, or the longest that is told apart.
spec fn longest(paths: Seq<Seq<ProjElem>>) -> nat
    decreases paths.len(),
{
    if paths.len() == 0 {
        MAX_PATH_LEN as nat
    } else {
        let n = longest(paths.drop_last());
        if n < paths.last().len() {
            paths.last().len()
        } else {
            n
        }
    }
}

proof fn longest_facts(paths: Seq<Seq<ProjElem>>, i: int)
    requires
        0 <= i < paths.len(),
    ensures
        paths[i].len() <= longest(paths),
        MAX_PATH_LEN <= longest(paths),
    decreases paths.len(),
{
    let front = paths.drop_last();
    if i < front.len() {
        assert(front[i] == paths[i]);
        longest_facts(front, i);
    } else if front.len() > 0 {
        longest_facts(front, 0);
    }
}

proof fn longest_least(paths: Seq<Seq<ProjElem>>)
    ensures
        MAX_PATH_LEN <= longest(paths),
{
    if paths.len() > 0 {
        longest_facts(paths, 0);
    }
}

/// How many field paths there can be.
spec fn path_bound(a0: ArenaView) -> nat {
    words(all_elems(), longest(a0.paths)).len()
}

/// Every location there can be.
spec fn all_locs(a0: ArenaView) -> Seq<LocView> {
    pairs(a0.locs, below(path_bound(a0))).map_values(
        |p: (LocView, usize)| p.0.with_path(p.1),
    )
}

/// The location is a numbered one, or a part of it.
spec fn stems(a0: ArenaView, loc: LocView) -> bool {
    exists|i: int| 0 <= i < a0.locs.len() && (#[trigger] a0.locs[i]).with_path(loc.path()) == loc
}

/// Only parts of locations have been numbered since.
spec fn grown(a0: ArenaView, a: ArenaView) -> bool {
    &&& a0.extends_to(a)
    &&& forall|i: int| 0 <= i < a.paths.len() ==> (#[trigger] a.paths[i]).len() <= longest(a0.paths)
    &&& forall|i: int| 0 <= i < a.locs.len() ==> stems(a0, #[trigger] a.locs[i])
    &&& only_parts_added(a0, a)
}

proof fn grown_start(a0: ArenaView)
    ensures
        grown(a0, a0),
{
    assert forall|i: int| 0 <= i < a0.paths.len() implies (#[trigger] a0.paths[i]).len() <= longest(
        a0.paths,
    ) by {
        longest_facts(a0.paths, i);
    }
    assert forall|i: int| 0 <= i < a0.locs.len() implies stems(a0, #[trigger] a0.locs[i]) by {
        assert(a0.locs[i].with_path(a0.locs[i].path()) == a0.locs[i]);
    }
}

/// What can be numbered is bounded.
proof fn grown_bounded(a0: ArenaView, a: ArenaView)
    requires
        a.wf(),
        grown(a0, a),
    ensures
        a.locs.len() <= all_locs(a0).len(),
{
    let all = words(all_elems(), longest(a0.paths));
    assert forall|i: int| 0 <= i < a.paths.len() implies all.contains(#[trigger] a.paths[i]) by {
        let word = a.paths[i];
        assert forall|k: int| 0 <= k < word.len() implies all_elems().contains(
            #[trigger] word[k],
        ) by {
            every_elem(word[k]);
        }
        words_complete(all_elems(), longest(a0.paths), word);
    }
    distinct_within(a.paths, all);
    let bound = path_bound(a0);
    assert forall|i: int| 0 <= i < a.locs.len() implies all_locs(a0).contains(
        #[trigger] a.locs[i],
    ) by {
        let loc = a.locs[i];
        assert(stems(a0, loc));
        let k = choose|k: int|
            0 <= k < a0.locs.len() && (#[trigger] a0.locs[k]).with_path(loc.path()) == loc;
        assert(a0.locs.contains(a0.locs[k]));
        below_complete(bound, loc.path());
        pairs_complete(a0.locs, below(bound), a0.locs[k], loc.path());
        let both = pairs(a0.locs, below(bound));
        let m = choose|m: int| 0 <= m < both.len() && both[m] == (a0.locs[k], loc.path());
        assert(all_locs(a0)[m] == loc);
    }
    distinct_within(a.locs, all_locs(a0));
}

/// An item of a list without repetitions is placed where it is.
proof fn place_in_at_only<T>(s: Seq<T>, x: T, i: int)
    requires
        s.no_duplicates(),
        0 <= i < s.len(),
        s[i] == x,
    ensures
        place_in(s, x) == i,
{
    place_in_facts(s, x);
    assert(s.contains(x));
    let p = place_in(s, x) as int;
    assert(s[p] == x);
}

/// Numbering a part of a location numbers nothing else.
proof fn grown_project(a0: ArenaView, a: ArenaView, loc: LocId, suffix: FieldPath)
    requires
        a.wf(),
        grown(a0, a),
        loc < a.locs.len(),
        suffix < a.paths.len() <= usize::MAX,
        a.extends_to(a.with_projection(loc, suffix)),
    ensures
        grown(a0, a.with_projection(loc, suffix)),
{
    let b = a.with_projection(loc, suffix);
    longest_least(a0.paths);
    assert forall|i: int| 0 <= i < b.paths.len() implies (#[trigger] b.paths[i]).len() <= longest(
        a0.paths,
    ) by {
        if i < a.paths.len() {
            assert(b.paths[i] == a.paths[i]);
        }
    }
    assert forall|i: int| 0 <= i < b.locs.len() implies stems(a0, #[trigger] b.locs[i]) by {
        if i < a.locs.len() {
            assert(b.locs[i] == a.locs[i]);
        } else {
            let part = b.locs[i];
            let whole = a.locs[loc as int];
            assert(stems(a0, whole));
            let k = choose|k: int|
                0 <= k < a0.locs.len() && (#[trigger] a0.locs[k]).with_path(whole.path()) == whole;
            assert(a0.locs[k].with_path(part.path()) == part);
        }
    }
    let path = a.projected_path(loc, suffix);
    let whole = a.locs[loc as int];
    place_in_facts(a.paths, path);
    assert forall|i: int| a0.locs.len() <= i < b.locs.len() implies b.paths[(
    #[trigger] b.locs[i]).path() as int].len() > 0 by {
        if i < a.locs.len() {
            assert(b.locs[i] == a.locs[i]);
            assert(b.paths[a.locs[i].path() as int] == a.paths[a.locs[i].path() as int]);
        } else if path.len() == 0 {
            assert(a.paths[whole.path() as int] =~= path);
            place_in_at_only(a.paths, path, whole.path() as int);
            assert(a.projection(loc, suffix) == whole);
            assert(a.locs.contains(whole));
        } else {
            assert(b.paths[a.path_id(path) as int] == path);
        }
    }
}

/// A part that is numbered keeps its number.
proof fn project_stable(a: ArenaView, b: ArenaView, loc: LocId, suffix: FieldPath)
    requires
        a.wf(),
        b.wf(),
        loc < a.locs.len(),
        suffix < a.paths.len(),
        a.extends_to(a.with_projection(loc, suffix)),
        a.with_projection(loc, suffix).extends_to(b),
        a.with_projection(loc, suffix).locs.len() <= usize::MAX,
        a.with_projection(loc, suffix).paths.len() <= usize::MAX,
    ensures
        b.can_project(loc, suffix) == a.can_project(loc, suffix),
        a.can_project(loc, suffix) ==> b.loc_id(b.projection(loc, suffix)) == a.loc_id(
            a.projection(loc, suffix),
        ),
{
    let m = a.with_projection(loc, suffix);
    let path = a.projected_path(loc, suffix);
    assert(m.locs[loc as int] == a.locs[loc as int]);
    assert(b.locs[loc as int] == m.locs[loc as int]);
    let p = a.locs[loc as int].path();
    assert(m.paths[p as int] == a.paths[p as int]);
    assert(b.paths[p as int] == m.paths[p as int]);
    assert(m.paths[suffix as int] == a.paths[suffix as int]);
    assert(b.paths[suffix as int] == m.paths[suffix as int]);
    assert(b.projected_path(loc, suffix) == path);
    if a.can_project(loc, suffix) {
        place_in_facts(a.paths, path);
        let i = place_in(a.paths, path) as int;
        assert(m.paths[i] == path);
        assert(b.paths[i] == path);
        assert forall|j: int| 0 <= j < i implies b.paths[j] != path by {}
        place_in_at(b.paths, path, i);
        let part = a.projection(loc, suffix);
        place_in_facts(a.locs, part);
        let k = place_in(a.locs, part) as int;
        assert(m.locs[k] == part);
        assert(b.locs[k] == part);
        assert forall|j: int| 0 <= j < k implies b.locs[j] != part by {}
        place_in_at(b.locs, part, k);
        assert(b.projection(loc, suffix) == part);
    }
}

/// A part that is not numbered yet gets the next number.
proof fn project_new(a: ArenaView, loc: LocId, suffix: FieldPath)
    requires
        a.wf(),
        loc < a.locs.len(),
        suffix < a.paths.len(),
        a.can_project(loc, suffix),
        a.paths.len() <= usize::MAX,
        a.loc_id(a.projection(loc, suffix)) < a.locs.len() <= usize::MAX,
    ensures
        a.with_projection(loc, suffix) == a,
{
    let path = a.projected_path(loc, suffix);
    let part = a.projection(loc, suffix);
    place_in_facts(a.locs, part);
    place_in_facts(a.paths, path);
    let k = place_in(a.locs, part) as int;
    assert(a.locs[k] == part);
    assert(part.path() < a.paths.len());
    assert(a.paths.contains(path));
    assert(a.locs.contains(part));
    assert(a.with_projection(loc, suffix) =~= a);
}

/// The sets found so far speak of numbered locations and hold nothing that the
/// constraints do not force.
spec fn solving(
    result: PointsToResult,
    a: ArenaView,
    a0: ArenaView,
    cs: Seq<Constraint>,
) -> bool {
    &&& a.wf()
    &&& grown(a0, a)
    &&& constraints_ok(cs, a0)
    &&& result.fits(a)
    &&& result.pts@.len() == a.locs.len()
    &&& is_forced(result, cs, a)
}

/// What a step does: pairs are only added, and where none is new nothing has
/// changed.
spec fn stepped(before: PointsToResult, after: PointsToResult, changed: bool) -> bool {
    &&& forall|n: LocId, p: LocId| #[trigger] before.holds(n, p) ==> after.holds(n, p)
    &&& changed ==> size(after) > size(before)
    &&& !changed ==> after.pts@ == before.pts@
}

proof fn solving_add(
    before: PointsToResult,
    after: PointsToResult,
    a: ArenaView,
    a0: ArenaView,
    cs: Seq<Constraint>,
    node: LocId,
    x: LocId,
)
    requires
        solving(before, a, a0, cs),
        lists_ascend(after),
        after.pts@.len() == before.pts@.len(),
        forall|n: LocId, p: LocId| #[trigger]
            after.holds(n, p) <==> before.holds(n, p) || (n == node && p == x),
        node < a.locs.len() <= usize::MAX,
        x < a.locs.len(),
        implied(node, x, cs, a),
    ensures
        solving(after, a, a0, cs),
{
    assert forall|i: int, j: int|
        #![trigger after.pts@[i]@[j]]
        0 <= i < after.pts@.len() && 0 <= j < after.pts@[i]@.len() implies after.pts@[i]@[j]
        < a.locs.len() by {
        let p = after.pts@[i]@[j];
        let n = i as usize;
        assert(after.pointees(n)[j] == p);
        assert(after.holds(n, p));
        if before.holds(n, p) {
            let held = before.pointees(n);
            let k = choose|k: int| 0 <= k < held.len() && held[k] == p;
            pointee_numbered(before, a, n, k);
        }
    }
}

/// Fires one rule for a pair.
fn deduce(
    result: &mut PointsToResult,
    arena: &LocArena,
    node: LocId,
    x: LocId,
    Ghost(a0): Ghost<ArenaView>,
    Ghost(cs): Ghost<Seq<Constraint>>,
) -> (new: bool)
    requires
        solving(*old(result), arena@, a0, cs),
        node < arena@.locs.len(),
        x < arena@.locs.len(),
        implied(node, x, cs, arena@),
    ensures
        solving(*final(result), arena@, a0, cs),
        stepped(*old(result), *final(result), new),
        final(result).holds(node, x),
        new == !old(result).holds(node, x),
{
    let ghost before = *result;
    let new = add_pair(result, node, x);
    proof {
        assert(arena@.locs.len() == arena.locs.len());
        solving_add(before, *result, arena@, a0, cs, node, x);
    }
    new
}

proof fn stepped_twice(
    a: PointsToResult,
    b: PointsToResult,
    c: PointsToResult,
    first: bool,
    second: bool,
)
    requires
        stepped(a, b, first),
        stepped(b, c, second),
    ensures
        stepped(a, c, first || second),
{
    if !first {
        assert(size(a) == size(b));
    }
    if !second {
        assert(size(b) == size(c));
    }
}

/// Fires one rule for each pair of a location with an item of a list.
fn deduce_all(
    result: &mut PointsToResult,
    arena: &LocArena,
    node: LocId,
    list: &Vec<LocId>,
    Ghost(a0): Ghost<ArenaView>,
    Ghost(cs): Ghost<Seq<Constraint>>,
) -> (changed: bool)
    requires
        solving(*old(result), arena@, a0, cs),
        node < arena@.locs.len(),
        forall|j: int|
            0 <= j < list@.len() ==> #[trigger] list@[j] < arena@.locs.len() && implied(
                node,
                list@[j],
                cs,
                arena@,
            ),
    ensures
        solving(*final(result), arena@, a0, cs),
        stepped(*old(result), *final(result), changed),
        forall|j: int| 0 <= j < list@.len() ==> final(result).holds(node, #[trigger] list@[j]),
{
    let ghost r0 = *result;
    let mut changed = false;
    let mut i: usize = 0;
    while i < list.len()
        invariant
            i <= list@.len(),
            solving(*result, arena@, a0, cs),
            stepped(r0, *result, changed),
            node < arena@.locs.len(),
            forall|j: int|
                0 <= j < list@.len() ==> #[trigger] list@[j] < arena@.locs.len() && implied(
                    node,
                    list@[j],
                    cs,
                    arena@,
                ),
            forall|j: int| 0 <= j < i ==> result.holds(node, #[trigger] list@[j]),
        decreases list@.len() - i,
    {
        let ghost r1 = *result;
        let new = deduce(result, arena, node, list[i], Ghost(a0), Ghost(cs));
        proof {
            stepped_twice(r0, r1, *result, changed, new);
            assert forall|j: int| 0 <= j < i + 1 implies result.holds(node, #[trigger] list@[j]) by {
                if j < i {
                    assert(r1.holds(node, list@[j]));
                }
            }
        }
        changed = changed || new;
        i = i + 1;
    }
    changed
}

/// The constraints are met for what is held now, or something is new.
spec fn met(
    before: PointsToResult,
    after: PointsToResult,
    changed: bool,
    c: Constraint,
    a: ArenaView,
) -> bool {
    &&& stepped(before, after, changed)
    &&& !changed ==> satisfies(relation(after), c, a)
}

/// The constraint speaks of numbered locations.
proof fn constraint_fits(
    result: PointsToResult,
    a: ArenaView,
    a0: ArenaView,
    cs: Seq<Constraint>,
    c: Constraint,
)
    requires
        solving(result, a, a0, cs),
        cs.contains(c),
    ensures
        constraint_ok(c, a),
        forall|b: ArenaView, r: Relation| #[trigger] satisfies_all(r, cs, b) ==> satisfies(r, c, b),
{
    let k = choose|k: int| 0 <= k < cs.len() && cs[k] == c;
    assert(constraint_ok(cs[k], a0));
    assert forall|b: ArenaView, r: Relation| #[trigger] satisfies_all(r, cs, b) implies satisfies(
        r,
        c,
        b,
    ) by {
        assert(satisfies(r, cs[k], b));
    }
}

/// Meets a `Copy` constraint for what is held now.
fn apply_copy(
    result: &mut PointsToResult,
    arena: &LocArena,
    dst: LocId,
    src: LocId,
    Ghost(a0): Ghost<ArenaView>,
    Ghost(cs): Ghost<Seq<Constraint>>,
) -> (changed: bool)
    requires
        solving(*old(result), arena@, a0, cs),
        cs.contains(Constraint::Copy { dst, src }),
    ensures
        solving(*final(result), arena@, a0, cs),
        met(*old(result), *final(result), changed, Constraint::Copy { dst, src }, arena@),
{
    let ghost r0 = *result;
    let ghost c = Constraint::Copy { dst, src };
    let objs = result.points_to(src);
    proof {
        constraint_fits(r0, arena@, a0, cs, c);
        assert forall|j: int| 0 <= j < objs@.len() implies #[trigger] objs@[j] < arena@.locs.len()
            && implied(dst, objs@[j], cs, arena@) by {
            pointee_numbered(r0, arena@, src, j);
            assert(r0.holds(src, objs@[j]));
        }
    }
    let changed = deduce_all(result, arena, dst, &objs, Ghost(a0), Ghost(cs));
    proof {
        if !changed {
            let r = relation(*result);
            assert forall|o: LocId| #[trigger] r(src, o) implies r(dst, o) by {
                assert(result.holds(src, o));
                assert(r0.pointees(src).contains(o));
                let j = choose|j: int| 0 <= j < objs@.len() && objs@[j] == o;
                assert(result.holds(dst, objs@[j]));
            }
        }
    }
    changed
}

/// Meets a `Load` constraint for what is held now.
fn apply_load(
    result: &mut PointsToResult,
    arena: &LocArena,
    dst: LocId,
    src: LocId,
    Ghost(a0): Ghost<ArenaView>,
    Ghost(cs): Ghost<Seq<Constraint>>,
) -> (changed: bool)
    requires
        solving(*old(result), arena@, a0, cs),
        cs.contains(Constraint::Load { dst, src }),
    ensures
        solving(*final(result), arena@, a0, cs),
        met(*old(result), *final(result), changed, Constraint::Load { dst, src }, arena@),
{
    let ghost r0 = *result;
    let ghost c = Constraint::Load { dst, src };
    let objs = result.points_to(src);
    proof {
        constraint_fits(r0, arena@, a0, cs, c);
    }
    let mut changed = false;
    let mut i: usize = 0;
    while i < objs.len()
        invariant
            i <= objs@.len(),
            objs@ == r0.pointees(src),
            solving(*result, arena@, a0, cs),
            stepped(r0, *result, changed),
            c == (Constraint::Load { dst, src }),
            dst < arena@.locs.len(),
            forall|b: ArenaView, r: Relation| #[trigger]
                satisfies_all(r, cs, b) ==> satisfies(r, c, b),
            !changed ==> forall|j: int, p: LocId|
                0 <= j < i && #[trigger] r0.holds(objs@[j], p) ==> r0.holds(dst, p),
        decreases objs@.len() - i,
    {
        let o = objs[i];
        let ghost r1 = *result;
        let held = result.points_to(o);
        proof {
            assert(r0.holds(src, o));
            assert(r1.holds(src, o));
            assert forall|j: int| 0 <= j < held@.len() implies #[trigger] held@[j]
                < arena@.locs.len() && implied(dst, held@[j], cs, arena@) by {
                let p = held@[j];
                pointee_numbered(r1, arena@, o, j);
                assert(r1.holds(o, p));
                assert forall|b: ArenaView, r: Relation| #[trigger]
                    satisfies_all(r, cs, b) && b.wf() && arena@.extends_to(b) implies r(dst,
                    p,
                ) by {
                    assert(satisfies(r, c, b));
                    assert(r(src, o));
                    assert(r(o, p));
                }
            }
        }
        let new = deduce_all(result, arena, dst, &held, Ghost(a0), Ghost(cs));
        proof {
            stepped_twice(r0, r1, *result, changed, new);
            if !changed && !new {
                assert forall|j: int, p: LocId|
                    0 <= j < i + 1 && #[trigger] r0.holds(objs@[j], p) implies r0.holds(
                    dst,
                    p,
                ) by {
                    if j == i {
                        let k = choose|k: int| 0 <= k < held@.len() && held@[k] == p;
                        assert(result.holds(dst, held@[k]));
                    }
                }
            }
        }
        changed = changed || new;
        i = i + 1;
    }
    proof {
        if !changed {
            let r = relation(*result);
            assert forall|o: LocId, p: LocId| #[trigger] r(src, o) && #[trigger] r(o, p) implies r(dst,
                p,
            ) by {
                assert(r0.pointees(src).contains(o));
                let j = choose|j: int| 0 <= j < objs@.len() && objs@[j] == o;
                assert(r0.holds(objs@[j], p));
            }
        }
    }
    changed
}

/// Meets a `Store` constraint for what is held now.
fn apply_store(
    result: &mut PointsToResult,
    arena: &LocArena,
    dst: LocId,
    src: LocId,
    Ghost(a0): Ghost<ArenaView>,
    Ghost(cs): Ghost<Seq<Constraint>>,
) -> (changed: bool)
    requires
        solving(*old(result), arena@, a0, cs),
        cs.contains(Constraint::Store { dst, src }),
    ensures
        solving(*final(result), arena@, a0, cs),
        met(*old(result), *final(result), changed, Constraint::Store { dst, src }, arena@),
{
    let ghost r0 = *result;
    let ghost c = Constraint::Store { dst, src };
    let objs = result.points_to(dst);
    proof {
        constraint_fits(r0, arena@, a0, cs, c);
    }
    let mut changed = false;
    let mut i: usize = 0;
    while i < objs.len()
        invariant
            i <= objs@.len(),
            objs@ == r0.pointees(dst),
            solving(r0, arena@, a0, cs),
            solving(*result, arena@, a0, cs),
            stepped(r0, *result, changed),
            c == (Constraint::Store { dst, src }),
            forall|b: ArenaView, r: Relation| #[trigger]
                satisfies_all(r, cs, b) ==> satisfies(r, c, b),
            !changed ==> forall|j: int, p: LocId|
                #![trigger r0.holds(objs@[j], p)]
                0 <= j < i && r0.holds(src, p) ==> r0.holds(objs@[j], p),
        decreases objs@.len() - i,
    {
        let o = objs[i];
        let ghost r1 = *result;
        let held = result.points_to(src);
        proof {
            pointee_numbered(r0, arena@, dst, i as int);
            assert(r0.holds(dst, o));
            assert(r1.holds(dst, o));
            assert forall|j: int| 0 <= j < held@.len() implies #[trigger] held@[j]
                < arena@.locs.len() && implied(o, held@[j], cs, arena@) by {
                let p = held@[j];
                pointee_numbered(r1, arena@, src, j);
                assert(r1.holds(src, p));
                assert forall|b: ArenaView, r: Relation| #[trigger]
                    satisfies_all(r, cs, b) && b.wf() && arena@.extends_to(b) implies r(o, p) by {
                    assert(satisfies(r, c, b));
                    assert(r(dst, o));
                    assert(r(src, p));
                }
            }
        }
        let new = deduce_all(result, arena, o, &held, Ghost(a0), Ghost(cs));
        proof {
            stepped_twice(r0, r1, *result, changed, new);
            if !changed && !new {
                assert forall|j: int, p: LocId|
                    #![trigger r0.holds(objs@[j], p)]
                    0 <= j < i + 1 && r0.holds(src, p) implies r0.holds(objs@[j], p) by {
                    if j == i {
                        let k = choose|k: int| 0 <= k < held@.len() && held@[k] == p;
                        assert(result.holds(o, held@[k]));
                    }
                }
            }
        }
        changed = changed || new;
        i = i + 1;
    }
    proof {
        if !changed {
            let r = relation(*result);
            assert forall|o: LocId, p: LocId|
                #[trigger] r(dst, o) && #[trigger] r(src, p) implies r(o, p) by {
                assert(r0.pointees(dst).contains(o));
                let j = choose|j: int| 0 <= j < objs@.len() && objs@[j] == o;
                assert(r0.holds(objs@[j], p));
            }
        }
    }
    changed
}

/// Gives every numbered location a points-to set.
fn pad(result: &mut PointsToResult, n: usize)
    requires
        old(result).pts@.len() <= n,
        lists_ascend(*old(result)),
    ensures
        final(result).pts@.len() == n,
        lists_ascend(*final(result)),
        forall|m: LocId, p: LocId| #[trigger]
            final(result).holds(m, p) == old(result).holds(m, p),
        size(*final(result)) == size(*old(result)),
        old(result).pts@.len() == n ==> final(result).pts@ == old(result).pts@,
{
    let ghost r0 = *result;
    while result.pts.len() < n
        invariant
            result.pts@.len() <= n,
            r0.pts@.len() <= result.pts@.len(),
            lists_ascend(*result),
            forall|m: LocId, p: LocId| #[trigger] result.holds(m, p) == r0.holds(m, p),
            size(*result) == size(r0),
            r0.pts@.len() == n ==> result.pts@ == r0.pts@,
        decreases n - result.pts@.len(),
    {
        let ghost r1 = *result;
        result.pts.push(Vec::new());
        proof {
            let s = r1.pts@;
            let t = result.pts@;
            assert forall|i: int| 0 <= i < t.len() implies ascending((#[trigger] t[i])@) by {
                if i < s.len() {
                    assert(t[i] == s[i]);
                }
            }
            assert forall|m: LocId, p: LocId| #[trigger] result.holds(m, p) == r0.holds(m, p) by {
                assert(r1.holds(m, p) == r0.holds(m, p));
                if m < s.len() {
                    assert(t[m as int] == s[m as int]);
                } else if m == s.len() {
                    assert(t[m as int]@.len() == 0);
                }
            }
            total_same(s, t, s.len());
        }
    }
}

/// The sets stay as they are where more locations are numbered.
proof fn solving_grow(
    before: PointsToResult,
    after: PointsToResult,
    a: ArenaView,
    b: ArenaView,
    a0: ArenaView,
    cs: Seq<Constraint>,
)
    requires
        solving(before, a, a0, cs),
        b.wf(),
        a.extends_to(b),
        grown(a0, b),
        b.locs.len() <= usize::MAX,
        after.pts@.len() == b.locs.len(),
        lists_ascend(after),
        forall|n: LocId, p: LocId| #[trigger] after.holds(n, p) == before.holds(n, p),
    ensures
        solving(after, b, a0, cs),
{
    assert forall|i: int, j: int|
        #![trigger after.pts@[i]@[j]]
        0 <= i < after.pts@.len() && 0 <= j < after.pts@[i]@.len() implies after.pts@[i]@[j]
        < b.locs.len() by {
        let p = after.pts@[i]@[j];
        let n = i as usize;
        assert(after.pointees(n)[j] == p);
        assert(after.holds(n, p));
        let held = before.pointees(n);
        let k = choose|k: int| 0 <= k < held.len() && held[k] == p;
        pointee_numbered(before, a, n, k);
    }
    assert(is_forced(after, cs, b)) by {
        assert forall|c: ArenaView, r: Relation, n: LocId, p: LocId|
            #![trigger satisfies_all(r, cs, c), after.holds(n, p)]
            c.wf() && b.extends_to(c) && satisfies_all(r, cs, c) && after.holds(n, p) implies r(n,
            p,
        ) by {
            assert(a.extends_to(c)) by {
                assert forall|i: int| 0 <= i < a.paths.len() implies #[trigger] c.paths[i]
                    == a.paths[i] by {
                    assert(b.paths[i] == a.paths[i]);
                }
                assert forall|i: int| 0 <= i < a.locs.len() implies #[trigger] c.locs[i]
                    == a.locs[i] by {
                    assert(b.locs[i] == a.locs[i]);
                }
            }
            assert(before.holds(n, p));
        }
    }
}

/// Meets an `Offset` constraint for what is held now.
fn apply_offset(
    result: &mut PointsToResult,
    arena: &mut LocArena,
    dst: LocId,
    src: LocId,
    suffix: FieldPath,
    Ghost(a0): Ghost<ArenaView>,
    Ghost(cs): Ghost<Seq<Constraint>>,
) -> (changed: bool)
    requires
        solving(*old(result), old(arena)@, a0, cs),
        cs.contains(Constraint::Offset { dst, src, suffix }),
    ensures
        solving(*final(result), final(arena)@, a0, cs),
        met(
            *old(result),
            *final(result),
            changed,
            Constraint::Offset { dst, src, suffix },
            final(arena)@,
        ),
        !changed ==> final(arena)@ == old(arena)@,
{
    let ghost r0 = *result;
    let ghost s0 = arena@;
    let ghost c = Constraint::Offset { dst, src, suffix };
    let objs = result.points_to(src);
    proof {
        constraint_fits(r0, arena@, a0, cs, c);
    }
    let mut changed = false;
    let mut i: usize = 0;
    while i < objs.len()
        invariant
            i <= objs@.len(),
            objs@ == r0.pointees(src),
            solving(r0, s0, a0, cs),
            s0.extends_to(arena@),
            solving(*result, arena@, a0, cs),
            stepped(r0, *result, changed),
            c == (Constraint::Offset { dst, src, suffix }),
            constraint_ok(c, s0),
            forall|b: ArenaView, r: Relation| #[trigger]
                satisfies_all(r, cs, b) ==> satisfies(r, c, b),
            !changed ==> arena@ == s0,
            !changed ==> forall|j: int|
                0 <= j < i && s0.can_project(#[trigger] objs@[j], suffix) ==> r0.holds(
                    dst,
                    s0.loc_id(s0.projection(objs@[j], suffix)),
                ),
        decreases objs@.len() - i,
    {
        let o = objs[i];
        let ghost r1 = *result;
        let ghost s1 = arena@;
        proof {
            pointee_numbered(r0, s0, src, i as int);
            assert(r0.holds(src, o));
            assert(r1.holds(src, o));
        }
        match arena.project(o, suffix) {
            Some(q) => {
                let n: usize = arena.loc_count();
                let ghost s2 = arena@;
                pad(result, n);
                proof {
                    let ghost paths: usize = arena.paths.len();
                    grown_project(a0, s1, o, suffix);
                    solving_grow(r1, *result, s1, s2, a0, cs);
                    assert(implied(dst, q, cs, s2)) by {
                        assert forall|b: ArenaView, r: Relation| #[trigger]
                            satisfies_all(r, cs, b) && b.wf() && s2.extends_to(b) implies r(dst,
                            q,
                        ) by {
                            project_stable(s1, b, o, suffix);
                            assert(s1.extends_to(b)) by {
                                assert forall|k: int| 0 <= k < s1.paths.len() implies #[trigger] b.paths[k]
                                    == s1.paths[k] by {
                                    assert(s2.paths[k] == s1.paths[k]);
                                }
                                assert forall|k: int| 0 <= k < s1.locs.len() implies #[trigger] b.locs[k]
                                    == s1.locs[k] by {
                                    assert(s2.locs[k] == s1.locs[k]);
                                }
                            }
                            assert(r(src, o));
                        }
                    }
                }
                let ghost r2 = *result;
                let new = deduce(result, arena, dst, q, Ghost(a0), Ghost(cs));
                proof {
                    if !new {
                        assert(r2.holds(dst, q));
                        assert(r1.holds(dst, q));
                        let held = r1.pointees(dst);
                        let k = choose|k: int| 0 <= k < held.len() && held[k] == q;
                        pointee_numbered(r1, s1, dst, k);
                        project_new(s1, o, suffix);
                        assert(s2 == s1);
                        assert(result.pts@ == r1.pts@);
                    }
                    assert(stepped(r1, *result, new)) by {
                        assert forall|n: LocId, p: LocId| #[trigger] r1.holds(n, p) implies result.holds(n, p) by {
                            assert(r2.holds(n, p));
                        }
                    }
                    stepped_twice(r0, r1, *result, changed, new);
                }
                changed = changed || new;
            },
            None => {},
        }
        i = i + 1;
    }
    proof {
        if !changed {
            let r = relation(*result);
            assert forall|o: LocId|
                #[trigger] r(src, o) && s0.can_project(o, suffix) implies r(dst,
                s0.loc_id(s0.projection(o, suffix)),
            ) by {
                assert(r0.pointees(src).contains(o));
                let j = choose|j: int| 0 <= j < objs@.len() && objs@[j] == o;
                assert(s0.can_project(objs@[j], suffix));
            }
        }
    }
    changed
}

/// Meets a constraint for what is held now.
fn apply(
    result: &mut PointsToResult,
    arena: &mut LocArena,
    c: &Constraint,
    Ghost(a0): Ghost<ArenaView>,
    Ghost(cs): Ghost<Seq<Constraint>>,
) -> (changed: bool)
    requires
        solving(*old(result), old(arena)@, a0, cs),
        cs.contains(*c),
    ensures
        solving(*final(result), final(arena)@, a0, cs),
        met(*old(result), *final(result), changed, *c, final(arena)@),
        !changed ==> final(arena)@ == old(arena)@,
{
    match c {
        Constraint::AddressOf { dst, obj } => {
            proof {
                constraint_fits(*result, arena@, a0, cs, *c);
            }
            deduce(result, arena, *dst, *obj, Ghost(a0), Ghost(cs))
        },
        Constraint::Copy { dst, src } => apply_copy(
            result,
            arena,
            *dst,
            *src,
            Ghost(a0),
            Ghost(cs),
        ),
        Constraint::Load { dst, src } => apply_load(
            result,
            arena,
            *dst,
            *src,
            Ghost(a0),
            Ghost(cs),
        ),
        Constraint::Store { dst, src } => apply_store(
            result,
            arena,
            *dst,
            *src,
            Ghost(a0),
            Ghost(cs),
        ),
        Constraint::Offset { dst, src, suffix } => apply_offset(
            result,
            arena,
            *dst,
            *src,
            *suffix,
            Ghost(a0),
            Ghost(cs),
        ),
    }
}

/// What can be held is bounded.
proof fn solving_bounded(
    result: PointsToResult,
    a: ArenaView,
    a0: ArenaView,
    cs: Seq<Constraint>,
)
    requires
        solving(result, a, a0, cs),
    ensures
        size(result) <= all_locs(a0).len() * all_locs(a0).len(),
{
    grown_bounded(a0, a);
    let n = a.locs.len();
    let bound = all_locs(a0).len();
    assert forall|i: int| 0 <= i < n implies (#[trigger] result.pts@[i])@.len() <= bound by {
        let list = result.pts@[i]@;
        assert forall|j: int| 0 <= j < list.len() implies #[trigger] list[j] < n by {
            assert(result.pts@[i]@[j] < n);
        }
        assert(list.no_duplicates());
        distinct_below(list, n);
    }
    total_bounded(result.pts@, n, bound);
    assert(n * bound <= bound * bound) by (nonlinear_arith)
        requires
            n <= bound,
    ;
}

/// Meets every constraint once for what is held by then.
fn apply_each(
    result: &mut PointsToResult,
    arena: &mut LocArena,
    constraints: &Vec<Constraint>,
    Ghost(a0): Ghost<ArenaView>,
) -> (changed: bool)
    requires
        solving(*old(result), old(arena)@, a0, constraints@),
    ensures
        solving(*final(result), final(arena)@, a0, constraints@),
        stepped(*old(result), *final(result), changed),
        !changed ==> satisfies_all(relation(*final(result)), constraints@, final(arena)@),
{
    let ghost r0 = *result;
    let ghost s0 = arena@;
    let mut changed = false;
    let mut i: usize = 0;
    while i < constraints.len()
        invariant
            i <= constraints@.len(),
            solving(*result, arena@, a0, constraints@),
            stepped(r0, *result, changed),
            !changed ==> arena@ == s0,
            !changed ==> forall|j: int|
                0 <= j < i ==> satisfies(relation(r0), #[trigger] constraints@[j], s0),
        decreases constraints@.len() - i,
    {
        let ghost r1 = *result;
        assert(constraints@.contains(constraints@[i as int]));
        let new = apply(result, arena, &constraints[i], Ghost(a0), Ghost(constraints@));
        proof {
            stepped_twice(r0, r1, *result, changed, new);
            if !changed && !new {
                assert(relation(*result) =~= relation(r0));
            }
        }
        changed = changed || new;
        i = i + 1;
    }
    proof {
        if !changed {
            assert(relation(*result) =~= relation(r0));
        }
    }
    changed
}

/// The least points-to sets that satisfy the constraints. Parts of locations
/// that the constraints reach are numbered on the way.
pub fn least_solution(arena: &mut LocArena, constraints: &Vec<Constraint>) -> (r: PointsToResult)
    requires
        old(arena)@.wf(),
        constraints_ok(constraints@, old(arena)@),
    ensures
        final(arena)@.wf(),
        old(arena)@.extends_to(final(arena)@),
        only_parts_added(old(arena)@, final(arena)@),
        r.fits(final(arena)@),
        solves(r, constraints@, final(arena)@),
{
    let ghost a0 = arena@;
    let mut result = PointsToResult { pts: Vec::new() };
    pad(&mut result, arena.loc_count());
    proof {
        grown_start(a0);
        assert(forall|n: LocId, p: LocId| !#[trigger] result.holds(n, p));
        assert forall|i: int, j: int|
            #![trigger result.pts@[i]@[j]]
            0 <= i < result.pts@.len() && 0 <= j < result.pts@[i]@.len() implies result.pts@[i]@[j]
            < a0.locs.len() by {
            assert(result.pointees(i as usize)[j] == result.pts@[i]@[j]);
            assert(result.holds(i as usize, result.pts@[i]@[j]));
        }
    }
    let mut go = true;
    while go
        invariant
            solving(result, arena@, a0, constraints@),
            !go ==> satisfies_all(relation(result), constraints@, arena@),
        decreases all_locs(a0).len() * all_locs(a0).len() - size(result), (if go { 1int } else { 0int }),
    {
        proof {
            solving_bounded(result, arena@, a0, constraints@);
        }
        go = apply_each(&mut result, arena, constraints, Ghost(a0));
        proof {
            solving_bounded(result, arena@, a0, constraints@);
        }
    }
    result
}

impl<'p> PointerAnalysis<'p> {
    /// The least points-to sets that satisfy the constraints found so far.
    pub fn solve(&mut self) -> (r: PointsToResult)
        requires
            old(self).wf(),
        ensures
            final(self).wf(),
            final(self).kept(old(self)),
            final(self).same_but_names(old(self)),
            r.fits(final(self)@.facts.arena),
            solves(r, old(self)@.facts.constraints, final(self)@.facts.arena),
    {
        let result = least_solution(&mut self.facts.arena, &self.facts.constraints.items);
        proof {
            facts_extend(old(self)@.facts, self@.facts.arena);
        }
        result
    }
}

} // verus!
