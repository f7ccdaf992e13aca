//! What a finished analysis tells an outside observer.
use vstd::prelude::*;

use crate::access_path::{
    AccessPath, Accessor, Base, Constraint, CritId, Inclusion, Instance, Path, PtVal, Root, Step,
    Summary, Value,
};
use crate::analysis::HybridAnalysis;
use crate::ir::{Name, Proc, Symbol, Var};
use crate::order::{ascending, ordered, RankSet};
use crate::rules::crit_root;
use crate::text;
use crate::tuples::tuples;

verus! {

/// Where a root of `callee`'s published summary lands when the summary is inlined
/// at the resolved instance `id`.
///
/// It is a function of `id` and `base`: the callee's formals go to the operand slots
/// of the placeholder, its return to the result, and its own placeholders are
/// renamed into the holder by [`CritId::nest`]. A local, and a root of some other
/// procedure, have no image; neither has a placeholder whose renamed call string
/// would be longer than `k`.
pub fn crit_subst(callee: &Proc, id: &CritId, base: &Base, k: usize) -> (r: Option<Base>)
    ensures
        match r {
            Some(b) => crit_root(callee@, id@, base@, k as nat) == Some(b@),
            None => crit_root(callee@, id@, base@, k as nat) is None,
        },
{
    match base {
        Base::Var(_) => None,
        Base::Param(p, i) => if *p == *callee {
            Some(Base::CritSlot(id.clone(), *i))
        } else {
            None
        },
        Base::Ret(p) => if *p == *callee {
            Some(Base::CritRet(id.clone()))
        } else {
            None
        },
        Base::CritSlot(id2, j) => if within(id2, id, k) {
            Some(Base::CritSlot(id2.nest(id), *j))
        } else {
            None
        },
        Base::CritRet(id2) => if within(id2, id, k) {
            Some(Base::CritRet(id2.nest(id)))
        } else {
            None
        },
    }
}

/// Whether `inner` renamed into `outer` has a call string of at most `k`.
pub fn within(inner: &CritId, outer: &CritId, k: usize) -> (r: bool)
    ensures
        r == (inner@.nest(outer@).depth() <= k),
{
    let a: usize = inner.depth();
    let b: usize = outer.depth();
    b < k && a <= k - b - 1
}

impl HybridAnalysis {
    // -- what is published -------------------------------------------------------

    /// `root` belongs to the vocabulary that `p` publishes.
    pub open spec fn publishes(&self, p: Name, root: Root) -> bool {
        tuples(self.pub_root@).contains((p, root))
    }

    /// `root` is a placeholder node of an instance that `p` has settled.
    pub open spec fn decided(&self, p: Name, root: Root) -> bool {
        root.instance() matches Some(id) && tuples(self.settled@).contains((p, id))
    }

    /// The path constraint that a points-to fact publishes, if it publishes one.
    pub open spec fn published_edge(&self, x: (Name, Path, Value)) -> Option<(Name, Path, Path)> {
        match x.2 {
            Value::Path(b) => if self.publishes(x.0, x.1.root) && self.publishes(x.0, b.root) {
                Some((x.0, x.1, b))
            } else {
                None
            },
            _ => None,
        }
    }

    /// The path constraints that the first `n` points-to facts publish, in order.
    pub open spec fn edges_to(&self, n: int) -> Seq<(Name, Path, Path)>
        decreases n,
    {
        if n <= 0 {
            Seq::empty()
        } else {
            match self.published_edge(self.points@[n - 1]@) {
                Some(x) => self.edges_to(n - 1).push(x),
                None => self.edges_to(n - 1),
            }
        }
    }

    /// The published path constraints as a set.
    pub open spec fn edge_set(&self) -> Set<(Name, Path, Path)> {
        Set::new(
            |x: (Name, Path, Path)|
                tuples(self.points@).contains((x.0, x.1, Value::Path(x.2))) && self.publishes(
                    x.0,
                    x.1.root,
                ) && self.publishes(x.0, x.2.root),
        )
    }

    /// The hybrid summary of `p`: its published constraints, without those over a
    /// placeholder that is settled.
    pub open spec fn summary_of(&self, p: Name) -> Set<Inclusion> {
        Set::new(
            |c: Inclusion|
                {
                    &&& !self.decided(p, c.sup.root)
                    &&& {
                        ||| c.sub matches Value::Path(sub) && self.edge_set().contains(
                            (p, c.sup, sub),
                        ) && !self.decided(p, sub.root)
                        ||| tuples(self.pub_points@).contains((p, c.sup, c.sub))
                    }
                },
        )
    }

    /// The instances that the summary of `p` still defers.
    pub open spec fn deferred(&self, p: Name) -> Set<Instance> {
        Set::new(
            |id: Instance|
                tuples(self.pending@).contains((p, id)) && !tuples(self.settled@).contains((p, id)),
        )
    }

    /// The points-to set of `w` in `p` as an outside observer sees it: a path counts
    /// only while its root is published and undecided.
    pub open spec fn seen_at(&self, p: Name, w: Path) -> Set<Value> {
        Set::new(
            |v: Value|
                tuples(self.points@).contains((p, w, v)) && match v {
                    Value::Path(b) => self.publishes(p, b.root) && !self.decided(p, b.root),
                    _ => true,
                },
        )
    }

    fn is_published(&self, roots: &RankSet, p: &Proc, base: &Base) -> (r: bool)
        requires
            roots.holds(self.pub_root@),
        ensures
            r == self.publishes(p@, base@),
    {
        let x = (p.clone(), base.clone());
        proof {
            assert(x@ == (p@, base@));
        }
        roots.has(&x, Ghost(self.pub_root@))
    }

    fn is_settled(&self, settled: &RankSet, p: &Proc, id: &CritId) -> (r: bool)
        requires
            settled.holds(self.settled@),
        ensures
            r == tuples(self.settled@).contains((p@, id@)),
    {
        let x = (p.clone(), id.clone());
        proof {
            assert(x@ == (p@, id@));
        }
        settled.has(&x, Ghost(self.settled@))
    }

    /// Whether `base` is a placeholder node of an instance `p` has settled.
    fn is_decided(&self, settled: &RankSet, p: &Proc, base: &Base) -> (r: bool)
        requires
            settled.holds(self.settled@),
        ensures
            r == self.decided(p@, base@),
    {
        match base.crit_id() {
            Some(id) => self.is_settled(settled, p, id),
            None => false,
        }
    }

    /// The published *path* constraints of every procedure: the points-to facts
    /// whose value is a path and whose both endpoints are rooted in the published
    /// vocabulary.
    pub fn pub_edges(&self) -> (r: Vec<(Proc, AccessPath, AccessPath)>)
        ensures
            r@.len() == self.edges_to(self.points@.len() as int).len(),
            forall|i: int|
                0 <= i < r@.len() ==> (#[trigger] r@[i])@ == self.edges_to(
                    self.points@.len() as int,
                )[i],
            tuples(r@) == self.edge_set(),
    {
        let roots = RankSet::of_list(&self.pub_root);
        let mut r: Vec<(Proc, AccessPath, AccessPath)> = Vec::new();
        let mut i: usize = 0;
        while i < self.points.len()
            invariant
                i <= self.points@.len(),
                roots.holds(self.pub_root@),
                r@.len() == self.edges_to(i as int).len(),
                forall|j: int|
                    0 <= j < r@.len() ==> (#[trigger] r@[j])@ == self.edges_to(i as int)[j],
                forall|j: int|
                    0 <= j < r@.len() ==> self.edge_set().contains((#[trigger] r@[j])@),
                forall|j: int|
                    0 <= j < i ==> match self.published_edge((#[trigger] self.points@[j])@) {
                        Some(x) => tuples(r@).contains(x),
                        None => true,
                    },
            decreases self.points@.len() - i,
        {
            let x = &self.points[i];
            let ghost before = r@;
            match &x.2 {
                PtVal::Path(b) => {
                    if self.is_published(&roots, &x.0, &x.1.base) && self.is_published(
                        &roots,
                        &x.0,
                        &b.base,
                    ) {
                        let y = (x.0.clone(), x.1.clone(), b.clone());
                        r.push(y);
                        proof {
                            assert(self.points@[i as int]@ == (x.0@, x.1@, x.2@));
                            assert(self.published_edge(self.points@[i as int]@) == Some(y@));
                            assert(tuples(self.points@).contains(self.points@[i as int]@));
                            assert(r@[before.len() as int]@ == y@);
                            assert forall|z: (Name, Path, Path)| tuples(before).contains(z) implies
                            #[trigger] tuples(r@).contains(z) by {
                                let j = choose|j: int|
                                    0 <= j < before.len() && (#[trigger] before[j])@ == z;
                                assert(r@[j]@ == z);
                            }
                            assert(tuples(r@).contains(y@));
                        }
                    }
                },
                _ => {},
            }
            i += 1;
        }
        proof {
            assert(tuples(r@) =~= self.edge_set()) by {
                assert forall|x: (Name, Path, Path)| self.edge_set().contains(x)
                    implies #[trigger] tuples(
                    r@,
                ).contains(x) by {
                    let y = (x.0, x.1, Value::Path(x.2));
                    let j = choose|j: int|
                        0 <= j < self.points@.len() && (#[trigger] self.points@[j])@ == y;
                    assert(self.published_edge(self.points@[j]@) == Some(x));
                }
            }
        }
        r
    }

    /// Every constraint that some summary holds, with its procedure.
    fn all_constraints(&self) -> (r: Vec<(Proc, Constraint)>)
        ensures
            forall|i: int|
                0 <= i < r@.len() ==> self.summary_of((#[trigger] r@[i]).0@).contains(r@[i].1@),
            forall|p: Name, c: Inclusion| #[trigger]
                self.summary_of(p).contains(c) ==> tuples(r@).contains((p, c)),
    {
        let settled = RankSet::of_list(&self.settled);
        let edges = self.pub_edges();
        let mut r: Vec<(Proc, Constraint)> = Vec::new();
        let mut i: usize = 0;
        while i < edges.len()
            invariant
                i <= edges@.len(),
                settled.holds(self.settled@),
                tuples(edges@) == self.edge_set(),
                forall|j: int|
                    0 <= j < r@.len() ==> self.summary_of((#[trigger] r@[j]).0@).contains(r@[j].1@),
                forall|j: int|
                    0 <= j < i && !self.decided((#[trigger] edges@[j]).0@, edges@[j].1@.root)
                        && !self.decided(edges@[j].0@, edges@[j].2@.root) ==> tuples(r@).contains(
                        (
                            edges@[j].0@,
                            Inclusion { sup: edges@[j].1@, sub: Value::Path(edges@[j].2@) },
                        ),
                    ),
            decreases edges@.len() - i,
        {
            let x = &edges[i];
            let ghost before = r@;
            if !self.is_decided(&settled, &x.0, &x.1.base) && !self.is_decided(
                &settled,
                &x.0,
                &x.2.base,
            ) {
                let c = Constraint::Path { sup: x.1.clone(), sub: x.2.clone() };
                proof {
                    assert(tuples(edges@).contains(edges@[i as int]@));
                    assert(self.edge_set().contains((x.0@, x.1@, x.2@)));
                    assert(c@ == Inclusion { sup: x.1@, sub: Value::Path(x.2@) });
                    assert(self.summary_of(x.0@).contains(c@));
                }
                r.push((x.0.clone(), c));
                proof {
                    lemma_pushed(before, r@);
                }
            }
            i += 1;
        }
        i = 0;
        while i < self.pub_points.len()
            invariant
                i <= self.pub_points@.len(),
                settled.holds(self.settled@),
                tuples(edges@) == self.edge_set(),
                forall|j: int|
                    0 <= j < r@.len() ==> self.summary_of((#[trigger] r@[j]).0@).contains(r@[j].1@),
                forall|j: int|
                    0 <= j < edges@.len() && !self.decided(
                        (#[trigger] edges@[j]).0@,
                        edges@[j].1@.root,
                    ) && !self.decided(edges@[j].0@, edges@[j].2@.root) ==> tuples(r@).contains(
                        (
                            edges@[j].0@,
                            Inclusion { sup: edges@[j].1@, sub: Value::Path(edges@[j].2@) },
                        ),
                    ),
                forall|j: int|
                    0 <= j < i && !self.decided(
                        (#[trigger] self.pub_points@[j]).0@,
                        self.pub_points@[j].1@.root,
                    ) ==> tuples(r@).contains(
                        (
                            self.pub_points@[j].0@,
                            Inclusion {
                                sup: self.pub_points@[j].1@,
                                sub: self.pub_points@[j].2@,
                            },
                        ),
                    ),
            decreases self.pub_points@.len() - i,
        {
            let x = &self.pub_points[i];
            let ghost before = r@;
            if !self.is_decided(&settled, &x.0, &x.1.base) {
                let c = x.2.constrain(x.1.clone());
                proof {
                    assert(tuples(self.pub_points@).contains(self.pub_points@[i as int]@));
                    assert(c@ == Inclusion { sup: x.1@, sub: x.2@ });
                    assert(self.summary_of(x.0@).contains(c@));
                }
                r.push((x.0.clone(), c));
                proof {
                    lemma_pushed(before, r@);
                }
            }
            i += 1;
        }
        proof {
            assert forall|p: Name, c: Inclusion| #[trigger]
                self.summary_of(p).contains(c) implies tuples(r@).contains((p, c)) by {
                if tuples(self.pub_points@).contains((p, c.sup, c.sub)) {
                    let y = (p, c.sup, c.sub);
                    let j = choose|j: int|
                        0 <= j < self.pub_points@.len() && (#[trigger] self.pub_points@[j])@ == y;
                    assert(self.pub_points@[j].0@ == p && self.pub_points@[j].1@ == c.sup
                        && self.pub_points@[j].2@ == c.sub);
                } else {
                    let sub = c.sub->Path_0;
                    let y = (p, c.sup, sub);
                    assert(tuples(edges@).contains(y));
                    let j = choose|j: int| 0 <= j < edges@.len() && (#[trigger] edges@[j])@ == y;
                    assert(edges@[j].0@ == p && edges@[j].1@ == c.sup && edges@[j].2@ == sub);
                }
            }
        }
        r
    }

    /// The hybrid summary of every procedure that has one, as access-path
    /// constraints, in the order of the procedures. Procedures with an empty summary
    /// are omitted.
    ///
    /// Constraints over a *settled* placeholder are dropped: the values that flow
    /// through it are already in the summary by transitivity, and the placeholder
    /// itself no longer stands for anything the caller must decide.
    pub fn summaries(&self) -> (r: Vec<(Proc, Summary)>)
        ensures
            forall|i: int|
                0 <= i < r@.len() ==> tuples((#[trigger] r@[i]).1@) == self.summary_of(r@[i].0@)
                    && ascending(r@[i].1@) && r@[i].1@.len() > 0,
            forall|i: int, j: int|
                0 <= i < j < r@.len() ==> crate::order::before(
                    crate::order::name_rank((#[trigger] r@[i]).0@),
                    crate::order::name_rank((#[trigger] r@[j]).0@),
                ),
            forall|p: Name, c: Inclusion| #[trigger]
                self.summary_of(p).contains(c) ==> exists|i: int|
                    0 <= i < r@.len() && (#[trigger] r@[i]).0@ == p,
            forall|p: Name, c: Inclusion| #[trigger]
                summarised(r@, p, c) <==> self.summary_of(p).contains(c),
    {
        let all = self.all_constraints();
        let mut named: Vec<Proc> = Vec::new();
        let mut i: usize = 0;
        while i < all.len()
            invariant
                i <= all@.len(),
                named@.len() == i,
                forall|j: int| 0 <= j < i ==> (#[trigger] named@[j])@ == all@[j].0@,
            decreases all@.len() - i,
        {
            named.push(all[i].0.clone());
            i += 1;
        }
        let procs = ordered(&named);
        let mut r: Vec<(Proc, Summary)> = Vec::new();
        i = 0;
        while i < procs.len()
            invariant
                i <= procs@.len(),
                ascending(procs@),
                tuples(procs@) == tuples(named@),
                named@.len() == all@.len(),
                forall|j: int| 0 <= j < all@.len() ==> (#[trigger] named@[j])@ == all@[j].0@,
                forall|j: int|
                    0 <= j < all@.len() ==> self.summary_of((#[trigger] all@[j]).0@).contains(
                        all@[j].1@,
                    ),
                forall|p: Name, c: Inclusion| #[trigger]
                    self.summary_of(p).contains(c) ==> tuples(all@).contains((p, c)),
                r@.len() == i,
                forall|j: int|
                    0 <= j < i ==> (#[trigger] r@[j]).0@ == procs@[j]@ && tuples(r@[j].1@)
                        == self.summary_of(r@[j].0@) && ascending(r@[j].1@) && r@[j].1@.len() > 0,
            decreases procs@.len() - i,
        {
            let p = &procs[i];
            let mut list: Vec<Constraint> = Vec::new();
            let mut j: usize = 0;
            while j < all.len()
                invariant
                    j <= all@.len(),
                    forall|z: int|
                        0 <= z < all@.len() ==> self.summary_of((#[trigger] all@[z]).0@).contains(
                            all@[z].1@,
                        ),
                    forall|z: int|
                        0 <= z < list@.len() ==> self.summary_of(p@).contains(
                            (#[trigger] list@[z])@,
                        ),
                    forall|z: int|
                        0 <= z < j && (#[trigger] all@[z]).0@ == p@ ==> tuples(list@).contains(
                            all@[z].1@,
                        ),
                decreases all@.len() - j,
            {
                let ghost before = list@;
                if all[j].0 == *p {
                    let c = all[j].1.clone();
                    list.push(c);
                    proof {
                        lemma_pushed(before, list@);
                    }
                }
                j += 1;
            }
            let summary = ordered(&list);
            proof {
                let set = self.summary_of(p@);
                assert(tuples(list@) =~= set) by {
                    assert forall|c: Inclusion| set.contains(c) implies #[trigger] tuples(
                        list@,
                    ).contains(c) by {
                        let z = choose|z: int| 0 <= z < all@.len()
                            && (#[trigger] all@[z])@ == (p@, c);
                        assert(all@[z].0@ == p@ && all@[z].1@ == c);
                    }
                }
                assert(tuples(procs@).contains(procs@[i as int]@));
                let z = choose|z: int| 0 <= z < named@.len() && (#[trigger] named@[z])@ == p@;
                assert(tuples(summary@).contains(all@[z].1@));
            }
            r.push((p.clone(), summary));
            i += 1;
        }
        proof {
            assert forall|i: int, j: int| 0 <= i < j < r@.len() implies crate::order::before(
                crate::order::name_rank((#[trigger] r@[i]).0@),
                crate::order::name_rank((#[trigger] r@[j]).0@),
            ) by {
                assert(procs@[i]@ == r@[i].0@ && procs@[j]@ == r@[j].0@);
            }
            assert forall|p: Name, c: Inclusion| #[trigger] self.summary_of(p).contains(c)
                implies exists|
                i: int,
            | 0 <= i < r@.len() && (#[trigger] r@[i]).0@ == p by {
                let z = choose|z: int| 0 <= z < all@.len() && (#[trigger] all@[z])@ == (p, c);
                assert(named@[z]@ == p);
                assert(tuples(procs@).contains(p));
                let i = choose|i: int| 0 <= i < procs@.len() && (#[trigger] procs@[i])@ == p;
                assert(r@[i].0@ == p);
            }
            assert forall|p: Name, c: Inclusion| #[trigger]
                summarised(r@, p, c) <==> self.summary_of(p).contains(c) by {
                if self.summary_of(p).contains(c) {
                    let i = choose|i: int| 0 <= i < r@.len() && (#[trigger] r@[i]).0@ == p;
                    assert(tuples(r@[i].1@).contains(c));
                }
            }
        }
        r
    }

    /// The pending critical statements `p`'s summary still defers, in order. A
    /// decided placeholder is still *carried*, but it is no longer deferred, so it is
    /// not reported here.
    pub fn placeholders(&self, p: &Proc) -> (r: Vec<CritId>)
        ensures
            tuples(r@) == self.deferred(p@),
            ascending(r@),
    {
        let settled = RankSet::of_list(&self.settled);
        let mut list: Vec<CritId> = Vec::new();
        let mut i: usize = 0;
        while i < self.pending.len()
            invariant
                i <= self.pending@.len(),
                settled.holds(self.settled@),
                forall|z: int|
                    0 <= z < list@.len() ==> self.deferred(p@).contains((#[trigger] list@[z])@),
                forall|z: int|
                    0 <= z < i && (#[trigger] self.pending@[z]).0@ == p@ && !tuples(
                        self.settled@,
                    ).contains(self.pending@[z]@) ==> tuples(list@).contains(
                        self.pending@[z].1@,
                    ),
            decreases self.pending@.len() - i,
        {
            let x = &self.pending[i];
            let ghost before = list@;
            proof {
                assert(tuples(self.pending@).contains(self.pending@[i as int]@));
                assert(x@ == (x.0@, x.1@));
            }
            if x.0 == *p && !self.is_settled(&settled, &x.0, &x.1) {
                let id = x.1.clone();
                list.push(id);
                proof {
                    lemma_pushed(before, list@);
                }
            }
            i += 1;
        }
        proof {
            assert(tuples(list@) =~= self.deferred(p@)) by {
                assert forall|id: Instance| self.deferred(p@).contains(id)
                    implies #[trigger] tuples(
                    list@,
                ).contains(id) by {
                    let z = choose|z: int|
                        0 <= z < self.pending@.len() && (#[trigger] self.pending@[z])@ == (p@, id);
                    assert(self.pending@[z].0@ == p@ && self.pending@[z].1@ == id);
                }
            }
        }
        ordered(&list)
    }

    /// The points-to set of `path` as an outside observer should see it, in order.
    ///
    /// Concrete values always count. A path counts only when its root is still
    /// published *and still stands for something undecided*. A path rooted at a
    /// settled placeholder is dropped for the same reason locals are: the values that
    /// actually flow through it are already in the set by transitivity.
    pub fn points_to_path(&self, p: &Proc, path: &AccessPath) -> (r: Vec<PtVal>)
        ensures
            tuples(r@) == self.seen_at(p@, path@),
            ascending(r@),
    {
        let settled = RankSet::of_list(&self.settled);
        let roots = RankSet::of_list(&self.pub_root);
        let mut list: Vec<PtVal> = Vec::new();
        let mut i: usize = 0;
        while i < self.points.len()
            invariant
                i <= self.points@.len(),
                settled.holds(self.settled@),
                roots.holds(self.pub_root@),
                forall|z: int|
                    0 <= z < list@.len() ==> self.seen_at(p@, path@).contains(
                        (#[trigger] list@[z])@,
                    ),
                forall|z: int|
                    0 <= z < i && (#[trigger] self.points@[z]).0@ == p@ && self.points@[z].1@
                        == path@ && self.seen_at(p@, path@).contains(self.points@[z].2@)
                        ==> tuples(list@).contains(self.points@[z].2@),
            decreases self.points@.len() - i,
        {
            let x = &self.points[i];
            let ghost before = list@;
            proof {
                assert(tuples(self.points@).contains(self.points@[i as int]@));
                assert(x@ == (x.0@, x.1@, x.2@));
            }
            if x.0 == *p && x.1 == *path {
                let counts = match &x.2 {
                    PtVal::Path(b) => self.is_published(&roots, p, &b.base) && !self.is_decided(
                        &settled,
                        p,
                        &b.base,
                    ),
                    _ => true,
                };
                if counts {
                    let v = x.2.clone();
                    list.push(v);
                    proof {
                        lemma_pushed(before, list@);
                    }
                }
            }
            i += 1;
        }
        proof {
            assert(tuples(list@) =~= self.seen_at(p@, path@)) by {
                assert forall|v: Value| self.seen_at(p@, path@).contains(v)
                    implies #[trigger] tuples(
                    list@,
                ).contains(v) by {
                    let z = choose|z: int|
                        0 <= z < self.points@.len() && (#[trigger] self.points@[z])@ == (
                            p@,
                            path@,
                            v,
                        );
                    assert(self.points@[z].0@ == p@ && self.points@[z].1@ == path@
                        && self.points@[z].2@ == v);
                }
            }
        }
        ordered(&list)
    }

    /// [`HybridAnalysis::points_to_path`] for a bare local of `p`.
    pub fn points_to<V: Into<Var>>(&self, p: &Proc, v: V) -> (r: Vec<PtVal>)
        ensures
            exists|x: Var| #[trigger]
                call_ensures(V::into, (v,), x) && tuples(r@) == self.seen_at(p@, Path::var(x@)),
            ascending(r@),
    {
        let x: Var = v.into();
        let w = AccessPath { base: Base::Var(x.clone()), accessors: Vec::new() };
        proof {
            assert(w@.steps =~= Seq::<Step>::empty());
            assert(w@ == Path::var(x@));
        }
        self.points_to_path(p, &w)
    }

    /// The call edges Hybrid Inlining admits for the critical statements, in order.
    pub fn dispatches(&self) -> (r: Vec<(Proc, CritId, Proc)>)
        ensures
            tuples(r@) == tuples(self.resolve@),
            ascending(r@),
    {
        ordered(&self.resolve)
    }

    /// The callees the instance `id` held by `p` may reach, in order.
    pub fn callees_of(&self, p: &Proc, id: &CritId) -> (r: Vec<Proc>)
        ensures
            tuples(r@) == Set::new(
                |c: Name| tuples(self.resolve@).contains((p@, id@, c)),
            ),
            ascending(r@),
    {
        let ghost set = Set::new(|c: Name| tuples(self.resolve@).contains((p@, id@, c)));
        let mut list: Vec<Proc> = Vec::new();
        let mut i: usize = 0;
        while i < self.resolve.len()
            invariant
                i <= self.resolve@.len(),
                set == Set::new(|c: Name| tuples(self.resolve@).contains((p@, id@, c))),
                forall|z: int| 0 <= z < list@.len() ==> set.contains((#[trigger] list@[z])@),
                forall|z: int|
                    0 <= z < i && (#[trigger] self.resolve@[z]).0@ == p@ && self.resolve@[z].1@
                        == id@ ==> tuples(list@).contains(self.resolve@[z].2@),
            decreases self.resolve@.len() - i,
        {
            let x = &self.resolve[i];
            let ghost before = list@;
            proof {
                assert(tuples(self.resolve@).contains(self.resolve@[i as int]@));
                assert(x@ == (x.0@, x.1@, x.2@));
            }
            if x.0 == *p && x.1 == *id {
                let c = x.2.clone();
                list.push(c);
                proof {
                    lemma_pushed(before, list@);
                }
            }
            i += 1;
        }
        proof {
            assert(tuples(list@) =~= set) by {
                assert forall|c: Name| set.contains(c)
                    implies #[trigger] tuples(list@).contains(c) by {
                    let z = choose|z: int|
                        0 <= z < self.resolve@.len() && (#[trigger] self.resolve@[z])@ == (
                            p@,
                            id@,
                            c,
                        );
                    assert(self.resolve@[z].0@ == p@ && self.resolve@[z].1@ == id@
                        && self.resolve@[z].2@ == c);
                }
            }
        }
        ordered(&list)
    }

    /// The accessors the access `id` held by `p` resolves to, in order.
    pub fn accessors_of(&self, p: &Proc, id: &CritId) -> (r: Vec<Accessor>)
        ensures
            tuples(r@) == Set::new(
                |a: Step| tuples(self.index_acc@).contains((p@, id@, a)),
            ),
            ascending(r@),
    {
        let ghost set = Set::new(|a: Step| tuples(self.index_acc@).contains((p@, id@, a)));
        let mut list: Vec<Accessor> = Vec::new();
        let mut i: usize = 0;
        while i < self.index_acc.len()
            invariant
                i <= self.index_acc@.len(),
                set == Set::new(|a: Step| tuples(self.index_acc@).contains((p@, id@, a))),
                forall|z: int| 0 <= z < list@.len() ==> set.contains((#[trigger] list@[z])@),
                forall|z: int|
                    0 <= z < i && (#[trigger] self.index_acc@[z]).0@ == p@ && self.index_acc@[z].1@
                        == id@ ==> tuples(list@).contains(self.index_acc@[z].2@),
            decreases self.index_acc@.len() - i,
        {
            let x = &self.index_acc[i];
            let ghost before = list@;
            proof {
                assert(tuples(self.index_acc@).contains(self.index_acc@[i as int]@));
                assert(x@ == (x.0@, x.1@, x.2@));
            }
            if x.0 == *p && x.1 == *id {
                let a = x.2.clone();
                list.push(a);
                proof {
                    lemma_pushed(before, list@);
                }
            }
            i += 1;
        }
        proof {
            assert(tuples(list@) =~= set) by {
                assert forall|a: Step| set.contains(a)
                    implies #[trigger] tuples(list@).contains(a) by {
                    let z = choose|z: int|
                        0 <= z < self.index_acc@.len() && (#[trigger] self.index_acc@[z])@ == (
                            p@,
                            id@,
                            a,
                        );
                    assert(self.index_acc@[z].0@ == p@ && self.index_acc@[z].1@ == id@
                        && self.index_acc@[z].2@ == a);
                }
            }
        }
        ordered(&list)
    }
}

/// The list has the constraint in the summary of the procedure.
pub open spec fn summarised(v: Seq<(Proc, Summary)>, p: Name, c: Inclusion) -> bool {
    exists|i: int| 0 <= i < v.len() && (#[trigger] v[i]).0@ == p && tuples(v[i].1@).contains(c)
}

/// One more entry, one more value.
proof fn lemma_pushed<T: View>(a: Seq<T>, b: Seq<T>)
    requires
        b.len() == a.len() + 1,
        forall|j: int| 0 <= j < a.len() ==> #[trigger] b[j] == a[j],
    ensures
        forall|x: T::V| tuples(a).contains(x) ==> #[trigger] tuples(b).contains(x),
        tuples(b).contains(b[a.len() as int]@),
{
    assert forall|x: T::V| tuples(a).contains(x) implies #[trigger] tuples(b).contains(x) by {
        let j = choose|j: int| 0 <= j < a.len() && (#[trigger] a[j])@ == x;
        assert(b[j]@ == x);
    }
}

/// Render a dispatch decision for a human, e.g. `⟨L25@L28·L31b⟩ → Y.poly`.
pub fn render_dispatch(id: &CritId, callee: &Proc) -> (r: String)
    ensures
        r@ == id@.show() + " \u{2192} "@ + callee@,
{
    text::cat3(&id.to_string(), " \u{2192} ", callee.text())
}

/// Present a summary: the constraints, then the pending critical statements the
/// summary still defers.
pub fn render_summary(summary: &Summary, placeholders: &Vec<CritId>) -> (r: Vec<String>)
    ensures
        r@.len() == summary@.len() + placeholders@.len(),
        forall|i: int| 0 <= i < summary@.len() ==> (#[trigger] r@[i])@ == summary@[i]@.show(),
        forall|i: int|
            0 <= i < placeholders@.len() ==> (#[trigger] r@[summary@.len() + i])@ == "critical "@
                + placeholders@[i]@.show() + " deferred"@,
{
    let mut r: Vec<String> = Vec::new();
    let mut i: usize = 0;
    while i < summary.len()
        invariant
            i <= summary@.len(),
            r@.len() == i,
            forall|j: int| 0 <= j < i ==> (#[trigger] r@[j])@ == summary@[j]@.show(),
        decreases summary@.len() - i,
    {
        let line = summary[i].to_string();
        r.push(line);
        i += 1;
    }
    i = 0;
    while i < placeholders.len()
        invariant
            i <= placeholders@.len(),
            r@.len() == summary@.len() + i,
            forall|j: int| 0 <= j < summary@.len() ==> (#[trigger] r@[j])@ == summary@[j]@.show(),
            forall|j: int|
                0 <= j < i ==> (#[trigger] r@[summary@.len() + j])@ == "critical "@
                    + placeholders@[j]@.show() + " deferred"@,
        decreases placeholders@.len() - i,
    {
        let shown = placeholders[i].to_string();
        let line = text::cat3("critical ", &shown, " deferred");
        r.push(line);
        i += 1;
    }
    r
}

} // verus!
