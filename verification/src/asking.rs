//! What the answers of an analysis are, question by question.
//!
//! Each law is stated on what a question returns, over the lists that it is asked of.
use vstd::prelude::*;

use crate::access_path::{
    AccessPath, Accessor, Base, CritId, Inclusion, Instance, Path, PtVal, Root, Step, Summary,
    Value,
};
use crate::analysis::HybridAnalysis;
use crate::ir::{Name, Proc, Var};
use crate::query::{crit_subst, render_dispatch, render_summary, summarised, within};
use crate::tuples::tuples;

verus! {

/// A points-to set holds every allocation and every constant that the path has in the
/// procedure, whatever the path's length, and nothing that it has not. A path counts in
/// addition only while its root is published, and is no placeholder that is settled.
pub proof fn law_points_to_sets(
    h: &HybridAnalysis,
    p: &Proc,
    path: &AccessPath,
    r: Vec<PtVal>,
    v: Value,
)
    requires
        call_ensures(HybridAnalysis::points_to_path, (h, p, path), r),
    ensures
        !(v is Path) ==> (tuples(r@).contains(v) <==> tuples(h.points@).contains((p@, path@, v))),
        v is Path ==> (tuples(r@).contains(v) <==> {
            &&& tuples(h.points@).contains((p@, path@, v))
            &&& tuples(h.pub_root@).contains((p@, v->Path_0.root))
            &&& match v->Path_0.root {
                Root::Slot(id, i) => !tuples(h.settled@).contains((p@, id)),
                Root::Res(id) => !tuples(h.settled@).contains((p@, id)),
                _ => true,
            }
        }),
{
}

/// The points-to set of a local is that of its bare path.
pub proof fn law_points_to_sets_of_locals<V: Into<Var>>(
    h: &HybridAnalysis,
    p: &Proc,
    x: V,
    r: Vec<PtVal>,
)
    requires
        call_ensures(HybridAnalysis::points_to::<V>, (h, p, x), r),
    ensures
        exists|y: Var| #[trigger]
            call_ensures(V::into, (x,), y) && forall|v: Value| #[trigger]
                tuples(r@).contains(v) <==> {
                    &&& tuples(h.points@).contains(
                        (p@, Path { root: Root::Var(y@), steps: Seq::empty() }, v),
                    )
                    &&& v is Path ==> {
                        &&& tuples(h.pub_root@).contains((p@, v->Path_0.root))
                        &&& match v->Path_0.root {
                            Root::Slot(id, i) => !tuples(h.settled@).contains((p@, id)),
                            Root::Res(id) => !tuples(h.settled@).contains((p@, id)),
                            _ => true,
                        }
                    }
                },
{
    let y = choose|y: Var| #[trigger]
        call_ensures(V::into, (x,), y) && tuples(r@) == h.seen_at(p@, Path::var(y@));
    assert(call_ensures(V::into, (x,), y));
    assert(Path::var(y@) == (Path { root: Root::Var(y@), steps: Seq::<Step>::empty() }));
}

/// A summary still defers what is pending and not settled.
pub proof fn law_deferred_placeholders(
    h: &HybridAnalysis,
    p: &Proc,
    r: Vec<CritId>,
    id: Instance,
)
    requires
        call_ensures(HybridAnalysis::placeholders, (h, p), r),
    ensures
        tuples(r@).contains(id) <==> tuples(h.pending@).contains((p@, id)) && !tuples(
            h.settled@,
        ).contains((p@, id)),
{
}

/// The callees, the accessors and the dispatches are what is resolved, no more and no
/// less.
pub proof fn law_resolutions_are_reported(
    h: &HybridAnalysis,
    p: &Proc,
    id: &CritId,
    callees: Vec<Proc>,
    accessors: Vec<Accessor>,
    all: Vec<(Proc, CritId, Proc)>,
    x: (Name, Instance, Name),
    a: Step,
)
    requires
        call_ensures(HybridAnalysis::callees_of, (h, p, id), callees),
        call_ensures(HybridAnalysis::accessors_of, (h, p, id), accessors),
        call_ensures(HybridAnalysis::dispatches, (h,), all),
    ensures
        tuples(callees@).contains(x.2) <==> tuples(h.resolve@).contains((p@, id@, x.2)),
        tuples(accessors@).contains(a) <==> tuples(h.index_acc@).contains((p@, id@, a)),
        tuples(all@).contains(x) <==> tuples(h.resolve@).contains(x),
{
}

/// The published path constraints are the points-to facts whose value is a path and whose
/// both ends are rooted in the published vocabulary, one for one and in their order.
pub proof fn law_published_constraints(
    h: &HybridAnalysis,
    r: Vec<(Proc, AccessPath, AccessPath)>,
)
    requires
        call_ensures(HybridAnalysis::pub_edges, (h,), r),
    ensures
        forall|p: Name, a: Path, b: Path| #[trigger]
            tuples(r@).contains((p, a, b)) <==> {
                &&& tuples(h.points@).contains((p, a, Value::Path(b)))
                &&& tuples(h.pub_root@).contains((p, a.root))
                &&& tuples(h.pub_root@).contains((p, b.root))
            },
        exists|at: Seq<int>| #[trigger]
            at.len() == r@.len() && (forall|j: int|
                0 <= j < at.len() ==> 0 <= #[trigger] at[j] < h.points@.len() && h.points@[at[j]]@
                    == (r@[j]@.0, r@[j]@.1, Value::Path(r@[j]@.2))) && (forall|j: int, k: int|
                0 <= j < k < at.len() ==> #[trigger] at[j] < #[trigger] at[k]),
{
    let n = h.points@.len() as int;
    let at = picks(h, n);
    lemma_picks(h, n);
    assert(at.len() == r@.len());
    assert forall|j: int| 0 <= j < at.len() implies 0 <= #[trigger] at[j] < n && h.points@[at[j]]@
        == (r@[j]@.0, r@[j]@.1, Value::Path(r@[j]@.2)) by {
        assert(r@[j]@ == h.edges_to(n)[j]);
    }
}

/// Which points-to facts are published path constraints.
spec fn picks(h: &HybridAnalysis, n: int) -> Seq<int>
    decreases n,
{
    if n <= 0 {
        Seq::empty()
    } else if h.published_edge(h.points@[n - 1]@) is Some {
        picks(h, n - 1).push(n - 1)
    } else {
        picks(h, n - 1)
    }
}

proof fn lemma_picks(h: &HybridAnalysis, n: int)
    requires
        0 <= n <= h.points@.len(),
    ensures
        picks(h, n).len() == h.edges_to(n).len(),
        forall|j: int|
            0 <= j < picks(h, n).len() ==> 0 <= #[trigger] picks(h, n)[j] < n && h.points@[picks(
                h,
                n,
            )[j]]@ == (h.edges_to(n)[j].0, h.edges_to(n)[j].1, Value::Path(h.edges_to(n)[j].2)),
        forall|j: int, k: int|
            0 <= j < k < picks(h, n).len() ==> #[trigger] picks(h, n)[j] < #[trigger] picks(
                h,
                n,
            )[k],
    decreases n,
{
    if n > 0 {
        lemma_picks(h, n - 1);
    }
}

/// The summary of a procedure: its published path constraints and its published values,
/// without those over a placeholder that is settled. Each procedure with a constraint has
/// one summary, and none without.
pub proof fn law_summaries(
    h: &HybridAnalysis,
    r: Vec<(Proc, Summary)>,
    p: Name,
    c: Inclusion,
    i: int,
    j: int,
)
    requires
        call_ensures(HybridAnalysis::summaries, (h,), r),
    ensures
        (exists|k: int|
            0 <= k < r@.len() && (#[trigger] r@[k]).0@ == p && tuples(r@[k].1@).contains(c))
            <==> open_root(h, p, c.sup.root) && {
            ||| {
                &&& c.sub is Path
                &&& tuples(h.points@).contains((p, c.sup, c.sub))
                &&& tuples(h.pub_root@).contains((p, c.sup.root))
                &&& tuples(h.pub_root@).contains((p, c.sub->Path_0.root))
                &&& open_root(h, p, c.sub->Path_0.root)
            }
            ||| tuples(h.pub_points@).contains((p, c.sup, c.sub))
        },
        0 <= i < j < r@.len() ==> r@[i].0@ != r@[j].0@,
        0 <= i < r@.len() ==> r@[i].1@.len() > 0,
{
    assert(summarised(r@, p, c) <==> h.summary_of(p).contains(c));
    if 0 <= i < j < r@.len() {
        crate::order::lemma_before_asymmetric(
            crate::order::name_rank(r@[i].0@),
            crate::order::name_rank(r@[j].0@),
        );
    }
}

/// The root is no placeholder that the procedure has settled.
pub open spec fn open_root(h: &HybridAnalysis, p: Name, root: Root) -> bool {
    match root {
        Root::Slot(id, i) => !tuples(h.settled@).contains((p, id)),
        Root::Res(id) => !tuples(h.settled@).contains((p, id)),
        _ => true,
    }
}

/// The substitution of a resolved call: a formal of the callee is the slot, its return the
/// result, its own placeholder is renamed while the call string fits; nothing else has a
/// place.
pub proof fn law_substitution(callee: &Proc, id: &CritId, base: &Base, k: usize, r: Option<Base>)
    requires
        call_ensures(crit_subst, (callee, id, base, k), r),
    ensures
        match base@ {
            Root::Var(x) => r is None,
            Root::Param(q, i) => if q == callee@ {
                r is Some && r->0@ == Root::Slot(id@, i)
            } else {
                r is None
            },
            Root::Ret(q) => if q == callee@ {
                r is Some && r->0@ == Root::Res(id@)
            } else {
                r is None
            },
            Root::Slot(x, i) => if x.chain.len() + 1 + id@.chain.len() <= k {
                r is Some && r->0@ == Root::Slot(
                    (Instance {
                        stmt: x.stmt,
                        chain: x.chain + seq![id@.stmt] + id@.chain,
                    }),
                    i,
                )
            } else {
                r is None
            },
            Root::Res(x) => if x.chain.len() + 1 + id@.chain.len() <= k {
                r is Some && r->0@ == Root::Res(
                    (Instance { stmt: x.stmt, chain: x.chain + seq![id@.stmt] + id@.chain }),
                )
            } else {
                r is None
            },
        },
{
    match base@ {
        Root::Slot(x, i) => {
            assert(x.chain + seq![id@.stmt] + id@.chain =~= x.nest(id@).chain);
        },
        Root::Res(x) => {
            assert(x.chain + seq![id@.stmt] + id@.chain =~= x.nest(id@).chain);
        },
        _ => {},
    }
}

/// A renamed placeholder fits where both call strings and the callsite between them do.
pub proof fn law_renaming_fits(inner: &CritId, outer: &CritId, k: usize, r: bool)
    requires
        call_ensures(within, (inner, outer, k), r),
    ensures
        r <==> inner@.chain.len() + 1 + outer@.chain.len() <= k,
{
}

/// A rendered summary has a line for each constraint and then one for each placeholder it
/// defers.
pub proof fn law_rendered_summaries(
    summary: &Summary,
    placeholders: &Vec<CritId>,
    r: Vec<String>,
    i: int,
    id: &CritId,
    callee: &Proc,
    line: String,
)
    requires
        call_ensures(render_summary, (summary, placeholders), r),
        call_ensures(render_dispatch, (id, callee), line),
    ensures
        r@.len() == summary@.len() + placeholders@.len(),
        0 <= i < summary@.len() ==> r@[i]@ == summary@[i]@.sup.show() + " \u{2287} "@
            + summary@[i]@.sub.show(),
        0 <= i < placeholders@.len() ==> r@[summary@.len() + i]@ == "critical "@
            + placeholders@[i]@.show() + " deferred"@,
        line@ == id@.show() + " \u{2192} "@ + callee@,
{
}

} // verus!
