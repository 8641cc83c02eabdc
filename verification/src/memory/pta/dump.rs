//! The points-to relation as text.

use super::analysis::PointerAnalysis;
use super::loc::{AbstractLoc, ArenaView, CallSite, Context, FieldPath, LocId, LocView, ProjElem};
use super::result::{pointee_numbered, PointsToResult};
use crate::text::{
    contains_text, decimal, decimal_text, index_text, join, join_text, occurs_at, texts,
};
use vstd::prelude::*;

verus! {

/// A step of a field path as text.
pub open spec fn step_text(elem: ProjElem) -> Seq<char> {
    match elem {
        ProjElem::Field(i) => "."@ + decimal(i as nat),
        ProjElem::Deref => ".*"@,
        ProjElem::Index => "[*]"@,
    }
}

/// A field path as text.
pub open spec fn path_text(path: Seq<ProjElem>) -> Seq<char>
    decreases path.len(),
{
    if path.len() == 0 {
        Seq::empty()
    } else {
        path_text(path.drop_last()) + step_text(path.last())
    }
}

/// A call site as text.
pub open spec fn site_text(site: CallSite) -> Seq<char> {
    decimal(site.func as nat) + ":"@ + decimal(site.bb as nat)
}

/// A context as text; the empty one is not shown.
pub open spec fn context_text(ctx: Seq<CallSite>) -> Seq<char> {
    if ctx.len() == 0 {
        Seq::empty()
    } else {
        "@["@ + join_text(ctx.map_values(|s: CallSite| site_text(s)), ","@) + "]"@
    }
}

/// A location as text.
pub open spec fn loc_text(a: ArenaView, id: LocId) -> Seq<char> {
    match a.locs[id as int] {
        LocView::Var { ctx, func, base, path } => "f"@ + decimal(func as nat) + "::_"@ + decimal(
            base as nat,
        ) + path_text(a.paths[path as int]) + context_text(ctx),
        LocView::Heap { ctx, site, path } => "Heap(f"@ + decimal(site.func as nat) + ":bb"@
            + decimal(site.bb as nat) + "#"@ + decimal(site.idx as nat) + ")"@ + path_text(
            a.paths[path as int],
        ),
        LocView::Global { def_index, path } => "Global("@ + decimal(def_index as nat) + ")"@
            + path_text(a.paths[path as int]),
    }
}

/// The line of a location that points to something.
pub open spec fn entry_text(a: ArenaView, node: LocId, pointees: Seq<LocId>) -> Seq<char> {
    "  "@ + loc_text(a, node) + " -> { "@ + join_text(
        pointees.map_values(|p: LocId| loc_text(a, p)),
        ", "@,
    ) + " }\n"@
}

/// How many of the first `n` locations point to something.
pub open spec fn entry_count(result: PointsToResult, n: nat) -> nat
    decreases n,
{
    if n == 0 {
        0
    } else {
        entry_count(result, (n - 1) as nat) + (if result.pointees((n - 1) as usize).len() > 0 {
            1nat
        } else {
            0nat
        })
    }
}

/// The lines of the first `n` locations, in ascending order.
pub open spec fn entries_text(a: ArenaView, result: PointsToResult, n: nat) -> Seq<char>
    decreases n,
{
    if n == 0 {
        Seq::empty()
    } else {
        let before = entries_text(a, result, (n - 1) as nat);
        let pointees = result.pointees((n - 1) as usize);
        if pointees.len() > 0 {
            before + entry_text(a, (n - 1) as usize, pointees)
        } else {
            before
        }
    }
}

/// The points-to relation as text.
pub open spec fn report_text(a: ArenaView, result: PointsToResult) -> Seq<char> {
    let n = result.pts@.len();
    "=== PTA Points-To Report (new engine) ===\n"@ + "nodes-with-pointees: "@ + decimal(
        entry_count(result, n),
    ) + "\n"@ + entries_text(a, result, n) + "=== End ===\n"@
}

proof fn entry_count_bound(result: PointsToResult, n: nat)
    ensures
        entry_count(result, n) <= n,
    decreases n,
{
    if n > 0 {
        entry_count_bound(result, (n - 1) as nat);
    }
}

impl<'p> PointerAnalysis<'p> {
    /// A field path as text.
    fn fmt_path(&self, path: FieldPath) -> (r: String)
        requires
            path < self@.facts.arena.paths.len(),
        ensures
            r@ == path_text(self@.facts.arena.paths[path as int]),
    {
        let steps = self.facts.arena.path(path);
        let mut s = "".to_owned();
        proof {
            reveal_strlit("");
            assert(s@ =~= Seq::<char>::empty());
        }
        let mut i: usize = 0;
        while i < steps.len()
            invariant
                i <= steps@.len(),
                s@ == path_text(steps@.take(i as int)),
            decreases steps@.len() - i,
        {
            proof {
                assert(steps@.take(i + 1).drop_last() =~= steps@.take(i as int));
            }
            s = match steps[i] {
                ProjElem::Field(f) => s.concat(".").concat(decimal_text(f as u64).as_str()),
                ProjElem::Deref => s.concat(".*"),
                ProjElem::Index => s.concat("[*]"),
            };
            proof {
                assert(s@ =~= path_text(steps@.take(i + 1)));
            }
            i = i + 1;
        }
        proof {
            assert(steps@.take(i as int) =~= steps@);
        }
        s
    }

    /// A context as text.
    fn fmt_context(ctx: &Context) -> (r: String)
        ensures
            r@ == context_text(ctx@),
    {
        if ctx.sites.len() == 0 {
            proof {
                reveal_strlit("");
                assert(""@ =~= Seq::<char>::empty());
            }
            return "".to_owned();
        }
        let mut pieces: Vec<String> = Vec::new();
        let mut i: usize = 0;
        while i < ctx.sites.len()
            invariant
                i <= ctx.sites@.len(),
                pieces@.len() == i,
                forall|j: int| 0 <= j < i ==> (#[trigger] pieces@[j])@ == site_text(ctx.sites@[j]),
            decreases ctx.sites@.len() - i,
        {
            let site = ctx.sites[i];
            pieces.push(
                index_text(site.func).as_str().to_owned().concat(":").concat(
                    index_text(site.bb).as_str(),
                ),
            );
            i = i + 1;
        }
        proof {
            assert(texts(pieces@) =~= ctx@.map_values(|s: CallSite| site_text(s)));
        }
        "@[".to_owned().concat(join(&pieces, ",").as_str()).concat("]")
    }

    /// A location as text.
    fn fmt_loc(&self, id: LocId) -> (r: String)
        requires
            self.wf(),
            id < self@.facts.arena.locs.len(),
        ensures
            r@ == loc_text(self@.facts.arena, id),
    {
        proof {
            assert(self@.facts.arena.locs[id as int].path() < self@.facts.arena.paths.len());
        }
        match self.facts.arena.loc(id) {
            AbstractLoc::Var { ctx, func, base, path } => "f".to_owned().concat(
                index_text(*func).as_str(),
            ).concat("::_").concat(index_text(*base).as_str()).concat(
                self.fmt_path(*path).as_str(),
            ).concat(Self::fmt_context(ctx).as_str()),
            AbstractLoc::Heap { ctx: _, site, path } => "Heap(f".to_owned().concat(
                index_text(site.func).as_str(),
            ).concat(":bb").concat(index_text(site.bb).as_str()).concat("#").concat(
                index_text(site.idx).as_str(),
            ).concat(")").concat(self.fmt_path(*path).as_str()),
            AbstractLoc::Global { def_index, path } => "Global(".to_owned().concat(
                index_text(*def_index).as_str(),
            ).concat(")").concat(self.fmt_path(*path).as_str()),
        }
    }

    /// The line of a location that points to something.
    fn fmt_entry(&self, node: LocId, pointees: &Vec<LocId>) -> (r: String)
        requires
            self.wf(),
            node < self@.facts.arena.locs.len(),
            forall|i: int|
                0 <= i < pointees@.len() ==> #[trigger] pointees@[i]
                    < self@.facts.arena.locs.len(),
        ensures
            r@ == entry_text(self@.facts.arena, node, pointees@),
    {
        let ghost a = self@.facts.arena;
        let mut pieces: Vec<String> = Vec::new();
        let mut i: usize = 0;
        while i < pointees.len()
            invariant
                self.wf(),
                a == self@.facts.arena,
                i <= pointees@.len(),
                forall|j: int|
                    0 <= j < pointees@.len() ==> #[trigger] pointees@[j] < a.locs.len(),
                pieces@.len() == i,
                forall|j: int| 0 <= j < i ==> (#[trigger] pieces@[j])@ == loc_text(a, pointees@[j]),
            decreases pointees@.len() - i,
        {
            assert(pointees@[i as int] < a.locs.len());
            pieces.push(self.fmt_loc(pointees[i]));
            i = i + 1;
        }
        proof {
            assert(texts(pieces@) =~= pointees@.map_values(|p: LocId| loc_text(a, p)));
        }
        "  ".to_owned().concat(self.fmt_loc(node).as_str()).concat(" -> { ").concat(
            join(&pieces, ", ").as_str(),
        ).concat(" }\n")
    }

    /// The points-to relation as text, in ascending order of the locations.
    pub fn format_report(&self, result: &PointsToResult) -> (r: String)
        requires
            self.wf(),
            result.fits(self@.facts.arena),
        ensures
            r@ == report_text(self@.facts.arena, *result),
    {
        let ghost a = self@.facts.arena;
        let n: usize = result.pts.len();
        let mut count: usize = 0;
        let mut lines = "".to_owned();
        proof {
            reveal_strlit("");
            assert(lines@ =~= Seq::<char>::empty());
        }
        let mut node: usize = 0;
        while node < n
            invariant
                self.wf(),
                a == self@.facts.arena,
                result.fits(a),
                n == result.pts@.len(),
                node <= n,
                count == entry_count(*result, node as nat),
                lines@ == entries_text(a, *result, node as nat),
            decreases n - node,
        {
            let pointees = result.points_to(node);
            proof {
                entry_count_bound(*result, node as nat);
            }
            if pointees.len() > 0 {
                proof {
                    assert forall|i: int| 0 <= i < pointees@.len() implies #[trigger] pointees@[i]
                        < a.locs.len() by {
                        pointee_numbered(*result, a, node, i);
                    }
                }
                count = count + 1;
                let line = self.fmt_entry(node, &pointees);
                lines.append(line.as_str());
            }
            node = node + 1;
        }
        "=== PTA Points-To Report (new engine) ===\n".to_owned().concat(
            "nodes-with-pointees: ",
        ).concat(index_text(count).as_str()).concat("\n").concat(lines.as_str()).concat(
            "=== End ===\n",
        )
    }
}

/// Every location that points to something has its line in the report, with all
/// that it points to in ascending order, and no other location has one.
pub proof fn pointing_locations_are_listed(
    a: ArenaView,
    result: PointsToResult,
    n: nat,
    node: LocId,
)
    requires
        node < n <= usize::MAX,
    ensures
        result.pointees(node).len() > 0 ==> contains_text(
            entries_text(a, result, n),
            "  "@ + loc_text(a, node) + " -> { "@ + join_text(
                result.pointees(node).map_values(|p: LocId| loc_text(a, p)),
                ", "@,
            ) + " }\n"@,
        ),
        (forall|i: LocId| i < n ==> #[trigger] result.pointees(i).len() == 0) ==> entries_text(
            a,
            result,
            n,
        ).len() == 0,
    decreases n,
{
    let before = entries_text(a, result, (n - 1) as nat);
    let last = (n - 1) as usize;
    let all = entries_text(a, result, n);
    let line = entry_text(a, node, result.pointees(node));
    if node < last {
        pointing_locations_are_listed(a, result, (n - 1) as nat, node);
        if result.pointees(node).len() > 0 {
            let at = choose|at: int| occurs_at(before, line, at);
            assert(all.subrange(at, at + line.len()) =~= before.subrange(at, at + line.len()));
            assert(occurs_at(all, line, at));
        }
    } else {
        if result.pointees(node).len() > 0 {
            let at = before.len() as int;
            assert(all.subrange(at, at + line.len()) =~= line);
            assert(occurs_at(all, line, at));
        }
        if n > 1 {
            pointing_locations_are_listed(a, result, (n - 1) as nat, 0);
        }
    }
}

/// A location is written as the function and the local, the allocation or the
/// static, and then the steps of its path in order; a context follows that of a
/// local.
pub proof fn locations_are_written_out(a: ArenaView, id: LocId, path: Seq<ProjElem>, e: ProjElem)
    ensures
        path_text(path.push(e)) == path_text(path) + (match e {
            ProjElem::Field(i) => "."@ + decimal(i as nat),
            ProjElem::Deref => ".*"@,
            ProjElem::Index => "[*]"@,
        }),
        a.locs[id as int] matches LocView::Var { ctx, func, base, path } ==> ctx.len() == 0
            ==> loc_text(a, id) == "f"@ + decimal(func as nat) + "::_"@ + decimal(base as nat)
            + path_text(a.paths[path as int]),
        a.locs[id as int] matches LocView::Var { ctx, func, base, path } ==> ctx.len() == 1
            ==> loc_text(a, id) == "f"@ + decimal(func as nat) + "::_"@ + decimal(base as nat)
            + path_text(a.paths[path as int]) + ("@["@ + (decimal(ctx[0].func as nat) + ":"@
            + decimal(ctx[0].bb as nat)) + "]"@),
        a.locs[id as int] matches LocView::Heap { site, path, .. } ==> loc_text(a, id) == "Heap(f"@
            + decimal(site.func as nat) + ":bb"@ + decimal(site.bb as nat) + "#"@ + decimal(
            site.idx as nat,
        ) + ")"@ + path_text(a.paths[path as int]),
        a.locs[id as int] matches LocView::Global { def_index, path } ==> loc_text(a, id)
            == "Global("@ + decimal(def_index as nat) + ")"@ + path_text(a.paths[path as int]),
{
    assert(path.push(e).drop_last() =~= path);
    match a.locs[id as int] {
        LocView::Var { ctx, func, base, path } => {
            if ctx.len() == 0 {
                let t = "f"@ + decimal(func as nat) + "::_"@ + decimal(base as nat) + path_text(
                    a.paths[path as int],
                );
                assert(t + Seq::<char>::empty() =~= t);
            }
            if ctx.len() == 1 {
                let sites = ctx.map_values(|s: CallSite| site_text(s));
                assert(sites.len() == 1);
                assert(sites[0] == site_text(ctx[0]));
            }
        },
        _ => {},
    }
}

/// The report counts the locations that point to something.
pub proof fn pointing_locations_are_counted(result: PointsToResult, n: nat)
    requires
        n <= usize::MAX,
    ensures
        entry_count(result, n) == Set::new(
            |i: int| 0 <= i < n && result.pointees(i as usize).len() > 0,
        ).len(),
        Set::new(|i: int| 0 <= i < n && result.pointees(i as usize).len() > 0).finite(),
    decreases n,
{
    let all = Set::new(|i: int| 0 <= i < n && result.pointees(i as usize).len() > 0);
    if n == 0 {
        assert(all =~= Set::<int>::empty());
    } else {
        let m = (n - 1) as nat;
        let before = Set::new(|i: int| 0 <= i < m && result.pointees(i as usize).len() > 0);
        pointing_locations_are_counted(result, m);
        if result.pointees(m as usize).len() > 0 {
            assert(all =~= before.insert(m as int));
        } else {
            assert(all =~= before);
        }
    }
}

} // verus!
