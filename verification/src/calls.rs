//! The rules that cross a callsite: inlining summaries where the callee is known
//! and at resolved instances, and passing placeholders on.
use vstd::prelude::*;

use crate::access_path::{Instance, Path, Root, Value};
use crate::codes::{Codes, Key};
use crate::derived::site_set;
use crate::engine::Engine;
use crate::facts::{lemma_find_three, three_ok, three_row};
use crate::inline::{images, roots_are};
use crate::ir::Name;
use crate::marks::Marks;
use crate::rules::{crit_root, lemma_monotone, Core, Setting};
use crate::state::State;

verus! {

proof fn lemma_roots_grow(list: Seq<Key>, c: Codes, d: Codes, want: Set<Root>)
    requires
        c.wf(),
        c.le(d),
        roots_are(list, c, want),
    ensures
        roots_are(list, d, want),
{
    c.lemma_grow(d);
    assert forall|j: int| 0 <= j < list.len() implies d.key_ok(#[trigger] list[j])
        && d.root(list[j])
        == c.root(list[j]) by {
        assert(c.key_ok(list[j]));
    }
    assert forall|x: Root| #[trigger] want.contains(x) implies exists|j: int|
        0 <= j < list.len() && d.root(#[trigger] list[j]) == x by {
        let j = choose|j: int| 0 <= j < list.len() && c.root(#[trigger] list[j]) == x;
        assert(d.root(list[j]) == x);
    }
}

/// Everything that the fact `x` of a callee gives at a callsite is in `said`.
pub open spec fn call_done(
    said: Core,
    w: Setting,
    m: Core,
    x: (Name, Path, Value),
    site: (Name, Name, Name),
) -> bool {
    &&& x.2 matches Value::Path(b) ==> forall|sup: Path, sub: Path|
        w.root_map(m, site.1, x.1.root, sup.root) && w.root_map(m, site.1, b.root, sub.root)
            && sup.steps == x.1.steps && sub.steps == b.steps ==> #[trigger] said.edge.contains(
            (site.2, sup, sub),
        )
    &&& forall|at: Path|
        w.pub_points(m, x.0, x.1, x.2) && w.root_map(m, site.1, x.1.root, at.root) && at.steps
            == x.1.steps ==> #[trigger] said.points.contains((site.2, at, x.2))
}

proof fn lemma_call_done_grow(
    a: Core,
    b: Core,
    w: Setting,
    m: Core,
    x: (Name, Path, Value),
    site: (Name, Name, Name),
)
    requires
        a.le(b),
        call_done(a, w, m, x, site),
    ensures
        call_done(b, w, m, x, site),
{
    if x.2 is Path {
        let p = x.2->Path_0;
        assert forall|sup: Path, sub: Path|
            w.root_map(m, site.1, x.1.root, sup.root) && w.root_map(m, site.1, p.root, sub.root)
                && sup.steps == x.1.steps && sub.steps == p.steps
                    implies #[trigger] b.edge.contains(
        (site.2, sup, sub)) by {
            assert(a.edge.contains((site.2, sup, sub)));
        }
    }
    assert forall|at: Path|
        w.pub_points(m, x.0, x.1, x.2) && w.root_map(m, site.1, x.1.root, at.root) && at.steps
            == x.1.steps implies #[trigger] b.points.contains((site.2, at, x.2)) by {
        assert(a.points.contains((site.2, at, x.2)));
    }
}

/// Everything that the fact `x` of a callee gives where the instance `r.1`, held
/// by `r.0`, reaches the callee `r.2`.
pub open spec fn dispatch_done(
    said: Core,
    w: Setting,
    m: Core,
    x: (Name, Path, Value),
    r: (Name, Instance, Name),
) -> bool {
    &&& x.2 matches Value::Path(b) ==> forall|sup: Path, sub: Path|
        crit_root(r.2, r.1, x.1.root, w.k) == Some(sup.root) && crit_root(r.2, r.1, b.root, w.k)
            == Some(sub.root) && sup.steps == x.1.steps && sub.steps == b.steps
            ==> #[trigger] said.edge.contains((r.0, sup, sub))
    &&& forall|at: Path|
        w.pub_points(m, x.0, x.1, x.2) && crit_root(r.2, r.1, x.1.root, w.k) == Some(at.root)
            && at.steps == x.1.steps ==> #[trigger] said.points.contains((r.0, at, x.2))
}

proof fn lemma_dispatch_done_grow(
    a: Core,
    b: Core,
    w: Setting,
    m: Core,
    x: (Name, Path, Value),
    r: (Name, Instance, Name),
)
    requires
        a.le(b),
        dispatch_done(a, w, m, x, r),
    ensures
        dispatch_done(b, w, m, x, r),
{
    if x.2 is Path {
        let p = x.2->Path_0;
        assert forall|sup: Path, sub: Path|
            crit_root(r.2, r.1, x.1.root, w.k) == Some(sup.root) && crit_root(
                r.2,
                r.1,
                p.root,
                w.k,
            ) == Some(sub.root) && sup.steps == x.1.steps && sub.steps == p.steps
                implies #[trigger] b.edge.contains(
        (r.0, sup, sub)) by {
            assert(a.edge.contains((r.0, sup, sub)));
        }
    }
    assert forall|at: Path|
        w.pub_points(m, x.0, x.1, x.2) && crit_root(r.2, r.1, x.1.root, w.k) == Some(at.root)
            && at.steps == x.1.steps implies #[trigger] b.points.contains((r.0, at, x.2)) by {
        assert(a.points.contains((r.0, at, x.2)));
    }
}

impl Engine {
    /// One published path constraint at one callsite.
    fn call_edges(
        &self,
        st: &mut State,
        marks: &Marks,
        q: usize,
        a: usize,
        b: usize,
        la: &Vec<Key>,
        lb: &Vec<Key>,
        Ghost(sn): Ghost<Name>,
        Ghost(cn): Ghost<Name>,
        Ghost(sm): Ghost<State>,
        Ghost(w): Ghost<Setting>,
        Ghost(seed): Ghost<Core>,
    )
        requires
            self.ready(*old(st), sm, *marks, w, seed),
            q < old(st).store@.names.len(),
            a < old(st).store@.paths.len(),
            b < old(st).store@.paths.len(),
            w.e.eff_direct(sn, cn),
            w.e.stands_in(sn, old(st).store@.name(q)),
            old(st).said().points.contains(
                (cn, old(st).store@.path(a), Value::Path(old(st).store@.path(b))),
            ),
            roots_are(
                la@,
                old(st).store@,
                images(w, sm.said(), sn, old(st).store@.path(a).root),
            ),
            roots_are(
                lb@,
                old(st).store@,
                images(w, sm.said(), sn, old(st).store@.path(b).root),
            ),
        ensures
            self.ready(*final(st), sm, *marks, w, seed),
            old(st).le(final(st)),
            ({
                let c = old(st).store@;
                forall|sup: Path, sub: Path|
                    w.root_map(sm.said(), sn, c.path(a).root, sup.root) && w.root_map(
                        sm.said(),
                        sn,
                        c.path(b).root,
                        sub.root,
                    ) && sup.steps == c.path(a).steps && sub.steps == c.path(b).steps
                        ==> #[trigger] final(st).said().edge.contains((c.name(q), sup, sub))
            }),
    {
        let ghost s0 = *st;
        let ghost c = st.store@;
        let ghost m = sm.said();
        let ghost pa = c.path(a);
        let ghost pb = c.path(b);
        let ghost wa = images(w, m, sn, pa.root);
        let ghost wb = images(w, m, sn, pb.root);
        proof {
            self.lemma_ready(s0, s0, sm, *marks, w, seed);
        }
        let mut i: usize = 0;
        while i < la.len()
            invariant
                i <= la@.len(),
                self.ready(*st, sm, *marks, w, seed),
                self.ready(s0, sm, *marks, w, seed),
                s0.le(st),
                c == s0.store@,
                m == sm.said(),
                q < c.names.len(),
                a < c.paths.len(),
                b < c.paths.len(),
                pa == c.path(a),
                pb == c.path(b),
                w.e.eff_direct(sn, cn),
                w.e.stands_in(sn, c.name(q)),
                s0.said().points.contains((cn, pa, Value::Path(pb))),
                wa == images(w, m, sn, pa.root),
                wb == images(w, m, sn, pb.root),
                roots_are(la@, c, wa),
                roots_are(lb@, c, wb),
                forall|z: int, v: int|
                    #![trigger la@[z], lb@[v]]
                    0 <= z < i && 0 <= v < lb@.len() ==> st.said().edge.contains(
                        (c.name(q), pa.rebase(c.root(la@[z])), pb.rebase(c.root(lb@[v]))),
                    ),
            decreases la@.len() - i,
        {
            let mut j: usize = 0;
            while j < lb.len()
                invariant
                    i < la@.len(),
                    j <= lb@.len(),
                    self.ready(*st, sm, *marks, w, seed),
                    self.ready(s0, sm, *marks, w, seed),
                    s0.le(st),
                    c == s0.store@,
                    m == sm.said(),
                    q < c.names.len(),
                    a < c.paths.len(),
                    b < c.paths.len(),
                    pa == c.path(a),
                    pb == c.path(b),
                    w.e.eff_direct(sn, cn),
                    w.e.stands_in(sn, c.name(q)),
                    s0.said().points.contains((cn, pa, Value::Path(pb))),
                    wa == images(w, m, sn, pa.root),
                    wb == images(w, m, sn, pb.root),
                    roots_are(la@, c, wa),
                    roots_are(lb@, c, wb),
                    forall|z: int, v: int|
                        #![trigger la@[z], lb@[v]]
                        0 <= z < i && 0 <= v < lb@.len() ==> st.said().edge.contains(
                            (c.name(q), pa.rebase(c.root(la@[z])), pb.rebase(c.root(lb@[v]))),
                        ),
                    forall|v: int|
                        0 <= v < j ==> st.said().edge.contains(
                            (
                                c.name(q),
                                pa.rebase(c.root(la@[i as int])),
                                pb.rebase(c.root(#[trigger] lb@[v])),
                            ),
                        ),
                decreases lb@.len() - j,
            {
                let ka = la[i];
                let kb = lb[j];
                let ghost s1 = *st;
                proof {
                    c.lemma_grow(st.store@);
                    assert(c.key_ok(la@[i as int]));
                    assert(c.key_ok(lb@[j as int]));
                    assert(st.store@.key_ok(ka) && st.store@.key_ok(kb));
                    assert(st.store@.path(a) == pa && st.store@.path(b) == pb);
                }
                let x: usize = st.store.rebase(a, ka);
                let ghost d1 = st.store@;
                proof {
                    s1.store@.lemma_grow(d1);
                }
                let y: usize = st.store.rebase(b, kb);
                let ghost s2 = *st;
                proof {
                    let d = st.store@;
                    s1.store@.lemma_le_trans(d1, d);
                    s1.lemma_store_grow(&s2);
                    self.lemma_ready(s1, s2, sm, *marks, w, seed);
                    s0.lemma_le_trans(&s1, &s2);
                    s0.lemma_grow(&s2);
                    d1.lemma_grow(d);
                    let sup = d.path(x);
                    let sub = d.path(y);
                    assert(sup == pa.rebase(c.root(ka)));
                    assert(sub == pb.rebase(c.root(kb)));
                    lemma_monotone(w, m, st.said());
                    assert(wa.contains(c.root(ka)) && wb.contains(c.root(kb)));
                    assert(w.root_map(m, sn, pa.root, sup.root));
                    assert(w.root_map(m, sn, pb.root, sub.root));
                    assert(w.root_map(st.said(), sn, pa.root, sup.root));
                    assert(w.root_map(st.said(), sn, pb.root, sub.root));
                    assert(st.said().points.contains((cn, pa, Value::Path(pb))));
                    assert(w.edge_by_call(st.said(), c.name(q), sup, sub));
                    assert(w.edge_from(st.said(), c.name(q), sup, sub));
                }
                st.derive_edge(q, x, y, Ghost(w), Ghost(seed));
                proof {
                    self.lemma_ready(s2, *st, sm, *marks, w, seed);
                    s0.lemma_le_trans(&s2, st);
                }
                j += 1;
            }
            i += 1;
        }
        proof {
            assert forall|sup: Path, sub: Path|
                w.root_map(m, sn, pa.root, sup.root) && w.root_map(m, sn, pb.root, sub.root)
                    && sup.steps == pa.steps && sub.steps == pb.steps
                        implies #[trigger] st.said().edge.contains(
            (c.name(q), sup, sub)) by {
                assert(wa.contains(sup.root) && wb.contains(sub.root));
                let z = choose|z: int| 0 <= z < la@.len() && c.root(#[trigger] la@[z]) == sup.root;
                let v = choose|v: int| 0 <= v < lb@.len() && c.root(#[trigger] lb@[v]) == sub.root;
                assert(sup == pa.rebase(c.root(la@[z])));
                assert(sub == pb.rebase(c.root(lb@[v])));
            }
        }
    }

    /// One published concrete value at one callsite.
    fn call_values(
        &self,
        st: &mut State,
        marks: &Marks,
        q: usize,
        a: usize,
        tag: usize,
        x: usize,
        la: &Vec<Key>,
        Ghost(sn): Ghost<Name>,
        Ghost(cn): Ghost<Name>,
        Ghost(sm): Ghost<State>,
        Ghost(w): Ghost<Setting>,
        Ghost(seed): Ghost<Core>,
    )
        requires
            self.ready(*old(st), sm, *marks, w, seed),
            q < old(st).store@.names.len(),
            a < old(st).store@.paths.len(),
            old(st).store@.value_ok(tag, x),
            w.e.eff_direct(sn, cn),
            w.e.stands_in(sn, old(st).store@.name(q)),
            w.pub_points(
                old(st).said(),
                cn,
                old(st).store@.path(a),
                old(st).store@.value(tag, x),
            ),
            roots_are(
                la@,
                old(st).store@,
                images(w, sm.said(), sn, old(st).store@.path(a).root),
            ),
        ensures
            self.ready(*final(st), sm, *marks, w, seed),
            old(st).le(final(st)),
            ({
                let c = old(st).store@;
                forall|at: Path|
                    w.root_map(sm.said(), sn, c.path(a).root, at.root) && at.steps
                        == c.path(a).steps ==> #[trigger] final(st).said().points.contains(
                        (c.name(q), at, c.value(tag, x)),
                    )
            }),
    {
        let ghost s0 = *st;
        let ghost c = st.store@;
        let ghost m = sm.said();
        let ghost pa = c.path(a);
        let ghost v = c.value(tag, x);
        let ghost wa = images(w, m, sn, pa.root);
        proof {
            self.lemma_ready(s0, s0, sm, *marks, w, seed);
        }
        let mut i: usize = 0;
        while i < la.len()
            invariant
                i <= la@.len(),
                self.ready(*st, sm, *marks, w, seed),
                self.ready(s0, sm, *marks, w, seed),
                s0.le(st),
                c == s0.store@,
                m == sm.said(),
                q < c.names.len(),
                a < c.paths.len(),
                c.value_ok(tag, x),
                pa == c.path(a),
                v == c.value(tag, x),
                w.e.eff_direct(sn, cn),
                w.e.stands_in(sn, c.name(q)),
                w.pub_points(s0.said(), cn, pa, v),
                wa == images(w, m, sn, pa.root),
                roots_are(la@, c, wa),
                forall|z: int|
                    0 <= z < i ==> st.said().points.contains(
                        (c.name(q), pa.rebase(c.root(#[trigger] la@[z])), v),
                    ),
            decreases la@.len() - i,
        {
            let ka = la[i];
            let ghost s1 = *st;
            proof {
                c.lemma_grow(st.store@);
                assert(c.key_ok(la@[i as int]));
                assert(st.store@.key_ok(ka));
                assert(st.store@.path(a) == pa);
            }
            let y: usize = st.store.rebase(a, ka);
            let ghost s2 = *st;
            proof {
                let d = st.store@;
                s1.lemma_store_grow(&s2);
                self.lemma_ready(s1, s2, sm, *marks, w, seed);
                s0.lemma_le_trans(&s1, &s2);
                s0.lemma_grow(&s2);
                c.lemma_grow(d);
                let at = d.path(y);
                assert(at == pa.rebase(c.root(ka)));
                lemma_monotone(w, m, st.said());
                lemma_monotone(w, s0.said(), st.said());
                assert(wa.contains(c.root(ka)));
                assert(w.root_map(m, sn, pa.root, at.root));
                assert(w.root_map(st.said(), sn, pa.root, at.root));
                assert(w.pub_points(st.said(), cn, pa, v));
                assert(w.points_by_call(st.said(), c.name(q), at, v));
                assert(w.points_from(st.said(), c.name(q), at, v));
                assert(d.value_ok(tag, x) && d.value(tag, x) == v);
            }
            st.derive_point(q, y, tag, x, Ghost(w), Ghost(seed));
            proof {
                self.lemma_ready(s2, *st, sm, *marks, w, seed);
                s0.lemma_le_trans(&s2, st);
            }
            i += 1;
        }
        proof {
            assert forall|at: Path|
                w.root_map(m, sn, pa.root, at.root) && at.steps == pa.steps
                    implies #[trigger] st.said().points.contains(
            (c.name(q), at, v)) by {
                assert(wa.contains(at.root));
                let z = choose|z: int| 0 <= z < la@.len() && c.root(#[trigger] la@[z]) == at.root;
                assert(at == pa.rebase(c.root(la@[z])));
            }
        }
    }

    /// One points-to fact at one callsite.
    fn call_one(
        &self,
        st: &mut State,
        marks: &Marks,
        i: usize,
        y: usize,
        Ghost(sm): Ghost<State>,
        Ghost(w): Ghost<Setting>,
        Ghost(seed): Ghost<Core>,
    )
        requires
            self.ready(*old(st), sm, *marks, w, seed),
            i < old(st).points@.len(),
            y < self.derived.sites@.len(),
            old(st).proc(old(st).points@[i as int][0]) == self.derived.sites@[y as int][0],
        ensures
            self.ready(*final(st), sm, *marks, w, seed),
            old(st).le(final(st)),
            call_done(
                final(st).said(),
                w,
                sm.said(),
                old(st).point_of(old(st).points@[i as int]),
                three_row(old(st).store@.names, self.derived.sites@[y as int]),
            ),
    {
        let ghost s0 = *st;
        let ghost c = st.store@;
        let ghost m = sm.said();
        let ghost row = st.points@[i as int];
        let ghost fact = st.point_of(row);
        let ghost site_row = self.derived.sites@[y as int];
        let ghost site = three_row(c.names, site_row);
        proof {
            self.lemma_ready(s0, s0, sm, *marks, w, seed);
            assert(st.point_ok(row));
            assert(st.node_ok(st.nodes@[row[0] as int]));
            assert(st.spot_ok(st.spots@[st.nodes@[row[0] as int][0] as int]));
            assert(st.points@.contains(row));
            st.lemma_row_point(row);
            assert(three_ok(c.names, site_row));
            assert(site_set(w.e).contains(site));
        }
        let n: usize = st.points.at(i, 0);
        let tag: usize = st.points.at(i, 1);
        let x: usize = st.points.at(i, 2);
        let a: usize = st.nodes.at(n, 1);
        let s: usize = self.derived.sites.at(y, 1);
        let q: usize = self.derived.sites.at(y, 2);
        let p: usize = self.derived.sites.at(y, 0);
        let ka = st.store.key(a);
        let la = self.map_root(st, marks, s, ka, Ghost(sm), Ghost(w), Ghost(seed));
        let ghost s1 = *st;
        proof {
            c.lemma_grow(st.store@);
            c.lemma_path(a);
        }
        if tag == 0 {
            proof {
                c.lemma_value_path(x);
            }
            let kb = st.store.key(x);
            proof {
                c.lemma_path(x);
                s1.store@.lemma_path(x);
            }
            let lb = self.map_root(st, marks, s, kb, Ghost(sm), Ghost(w), Ghost(seed));
            let ghost s2 = *st;
            proof {
                s1.store@.lemma_grow(st.store@);
                lemma_roots_grow(la@, s1.store@, st.store@, images(w, m, site.1, c.path(a).root));
                s0.lemma_le_trans(&s1, &s2);
            }
            self.call_edges(
                st,
                marks,
                q,
                a,
                x,
                &la,
                &lb,
                Ghost(site.1),
                Ghost(site.0),
                Ghost(sm),
                Ghost(w),
                Ghost(seed),
            );
            proof {
                s0.lemma_le_trans(&s2, st);
            }
        } else {
            proof {
                c.lemma_value_other(tag, x);
            }
            let k2 = st.store.key(a);
            if self.is_published(st, p, k2, Ghost(w)) {
                self.call_values(
                    st,
                    marks,
                    q,
                    a,
                    tag,
                    x,
                    &la,
                    Ghost(site.1),
                    Ghost(site.0),
                    Ghost(sm),
                    Ghost(w),
                    Ghost(seed),
                );
                proof {
                    s0.lemma_le_trans(&s1, st);
                }
            } else {
                proof {
                    lemma_monotone(w, m, st.said());
                    assert(!w.pub_points(m, fact.0, fact.1, fact.2));
                }
            }
        }
    }
}

/// What a callee of the state `sm` publishes has been inlined at every callsite.
pub open spec fn calls_done(said: Core, w: Setting, m: Core) -> bool {
    &&& forall|p: Name, sup: Path, sub: Path| #[trigger]
        w.edge_by_call(m, p, sup, sub) ==> said.edge.contains((p, sup, sub))
    &&& forall|p: Name, at: Path, v: Value| #[trigger]
        w.points_by_call(m, p, at, v) ==> said.points.contains((p, at, v))
}

pub open spec fn dispatches_done(said: Core, w: Setting, m: Core) -> bool {
    &&& forall|p: Name, sup: Path, sub: Path| #[trigger]
        w.edge_by_dispatch(m, p, sup, sub) ==> said.edge.contains((p, sup, sub))
    &&& forall|p: Name, at: Path, v: Value| #[trigger]
        w.points_by_dispatch(m, p, at, v) ==> said.points.contains((p, at, v))
}

impl Engine {
    /// One points-to fact at every callsite of its procedure.
    fn call_at(
        &self,
        st: &mut State,
        marks: &Marks,
        i: usize,
        Ghost(sm): Ghost<State>,
        Ghost(w): Ghost<Setting>,
        Ghost(seed): Ghost<Core>,
    )
        requires
            self.ready(*old(st), sm, *marks, w, seed),
            i < old(st).points@.len(),
        ensures
            self.ready(*final(st), sm, *marks, w, seed),
            old(st).le(final(st)),
            forall|y: int|
                0 <= y < self.derived.sites@.len() && (#[trigger] self.derived.sites@[y])[0]
                    == old(st).proc(old(st).points@[i as int][0]) ==> call_done(
                    final(st).said(),
                    w,
                    sm.said(),
                    old(st).point_of(old(st).points@[i as int]),
                    three_row(old(st).store@.names, self.derived.sites@[y]),
                ),
    {
        let ghost s0 = *st;
        let ghost m = sm.said();
        let ghost row = st.points@[i as int];
        proof {
            self.lemma_ready(s0, s0, sm, *marks, w, seed);
            assert(st.point_ok(row));
            assert(st.node_ok(st.nodes@[row[0] as int]));
            assert(st.spot_ok(st.spots@[st.nodes@[row[0] as int][0] as int]));
        }
        let n: usize = st.points.at(i, 0);
        let spot: usize = st.nodes.at(n, 0);
        let p: usize = st.spots.at(spot, 0);
        let list = self.derived.sites.heads(p);
        let mut j: usize = 0;
        while j < list.len()
            invariant
                j <= list@.len(),
                self.ready(*st, sm, *marks, w, seed),
                self.ready(s0, sm, *marks, w, seed),
                s0.le(st),
                m == sm.said(),
                i < s0.points@.len(),
                row == s0.points@[i as int],
                p == s0.proc(row[0]),
                forall|z: int|
                    0 <= z < list@.len() ==> (#[trigger] list@[z]) < self.derived.sites@.len()
                        && self.derived.sites@[list@[z] as int][0] == p,
                forall|z: int|
                    0 <= z < j ==> call_done(
                        st.said(),
                        w,
                        m,
                        s0.point_of(row),
                        three_row(s0.store@.names, self.derived.sites@[#[trigger] list@[z] as int]),
                    ),
            decreases list@.len() - j,
        {
            let y: usize = list[j];
            let ghost s1 = *st;
            proof {
                s0.lemma_grow(st);
                assert(s0.point_ok(row));
                s0.lemma_node_grow(st, row[0]);
                assert(st.points@[i as int] == row);
            }
            self.call_one(st, marks, i, y, Ghost(sm), Ghost(w), Ghost(seed));
            proof {
                self.lemma_ready(s1, *st, sm, *marks, w, seed);
                s0.lemma_le_trans(&s1, st);
                assert forall|z: int| 0 <= z < j + 1 implies call_done(
                    st.said(),
                    w,
                    m,
                    s0.point_of(row),
                    three_row(s0.store@.names, self.derived.sites@[#[trigger] list@[z] as int]),
                ) by {
                    if z < j {
                        lemma_call_done_grow(
                            s1.said(),
                            st.said(),
                            w,
                            m,
                            s0.point_of(row),
                            three_row(s0.store@.names, self.derived.sites@[list@[z] as int]),
                        );
                    }
                }
            }
            j += 1;
        }
        proof {
            let t = self.derived.sites@;
            self.derived.sites.lemma_distinct();
            assert forall|y: int| 0 <= y < t.len() && (#[trigger] t[y])[0] == p implies call_done(
                st.said(),
                w,
                m,
                s0.point_of(row),
                three_row(s0.store@.names, t[y]),
            ) by {
                assert(three_ok(s0.store@.names, t[y]));
                assert(list@.contains(y as usize));
                let z = choose|z: int| 0 <= z < list@.len() && list@[z] == y as usize;
                assert(call_done(
                    st.said(),
                    w,
                    m,
                    s0.point_of(row),
                    three_row(s0.store@.names, t[list@[z] as int]),
                ));
            }
        }
    }

    /// Inline every published summary at every callsite whose target is known.
    pub fn fire_calls(
        &self,
        st: &mut State,
        marks: &Marks,
        Ghost(sm): Ghost<State>,
        Ghost(w): Ghost<Setting>,
        Ghost(seed): Ghost<Core>,
    )
        requires
            self.ready(*old(st), sm, *marks, w, seed),
        ensures
            self.ready(*final(st), sm, *marks, w, seed),
            old(st).le(final(st)),
            calls_done(final(st).said(), w, sm.said()),
    {
        let ghost s0 = *st;
        let ghost m = sm.said();
        let ghost names = st.store@.names;
        let ghost t = self.derived.sites@;
        proof {
            self.lemma_ready(s0, s0, sm, *marks, w, seed);
        }
        let n: usize = st.points.len();
        let mut i: usize = 0;
        while i < n
            invariant
                i <= n,
                n == s0.points@.len(),
                self.ready(*st, sm, *marks, w, seed),
                self.ready(s0, sm, *marks, w, seed),
                s0.le(st),
                m == sm.said(),
                names == s0.store@.names,
                t == self.derived.sites@,
                forall|a: int, y: int|
                    #![trigger s0.points@[a], t[y]]
                    0 <= a < i && 0 <= y < t.len() && t[y][0] == s0.proc(s0.points@[a][0])
                        ==> call_done(
                        st.said(),
                        w,
                        m,
                        s0.point_of(s0.points@[a]),
                        three_row(names, t[y]),
                    ),
            decreases n - i,
        {
            let ghost s1 = *st;
            proof {
                s0.lemma_grow(st);
                assert(s0.point_ok(s0.points@[i as int]));
                s0.lemma_node_grow(st, s0.points@[i as int][0]);
            }
            self.call_at(st, marks, i, Ghost(sm), Ghost(w), Ghost(seed));
            proof {
                self.lemma_ready(s1, *st, sm, *marks, w, seed);
                s0.lemma_le_trans(&s1, st);
                assert(s1.points@[i as int] == s0.points@[i as int]);
                assert forall|a: int, y: int|
                    #![trigger s0.points@[a], t[y]]
                    0 <= a < i + 1 && 0 <= y < t.len() && t[y][0] == s0.proc(
                        s0.points@[a][0],
                    ) implies call_done(
                    st.said(),
                    w,
                    m,
                    s0.point_of(s0.points@[a]),
                    three_row(names, t[y]),
                ) by {
                    if a < i {
                        lemma_call_done_grow(
                            s1.said(),
                            st.said(),
                            w,
                            m,
                            s0.point_of(s0.points@[a]),
                            three_row(names, t[y]),
                        );
                    }
                }
            }
            i += 1;
        }
        proof {
            let c = s0.store@;
            assert forall|p: Name, sup: Path, sub: Path| #[trigger]
                w.edge_by_call(m, p, sup, sub) implies st.said().edge.contains((p, sup, sub)) by {
                let (s, callee, a, b) = choose|s: Name, callee: Name, a: Path, b: Path|
                    {
                        &&& #[trigger] w.e.eff_direct(s, callee)
                        &&& w.e.stands_in(s, p)
                        &&& #[trigger] m.points.contains((callee, a, Value::Path(b)))
                        &&& w.root_map(m, s, a.root, sup.root)
                        &&& w.root_map(m, s, b.root, sub.root)
                        &&& sup.steps == a.steps
                        &&& sub.steps == b.steps
                    };
                let j = s0.lemma_point_row((callee, a, Value::Path(b)));
                assert(site_set(w.e).contains((callee, s, p)));
                let y = lemma_find_three(t, names, site_set(w.e), (callee, s, p));
                self.lemma_same_proc(s0, s0.points@[j][0], t[y][0]);
                assert(call_done(
                    st.said(),
                    w,
                    m,
                    s0.point_of(s0.points@[j]),
                    three_row(names, t[y]),
                ));
            }
            assert forall|p: Name, at: Path, v: Value| #[trigger]
                w.points_by_call(m, p, at, v) implies st.said().points.contains((p, at, v)) by {
                let (s, callee, a) = choose|s: Name, callee: Name, a: Path|
                    {
                        &&& #[trigger] w.e.eff_direct(s, callee)
                        &&& w.e.stands_in(s, p)
                        &&& #[trigger] w.pub_points(m, callee, a, v)
                        &&& w.root_map(m, s, a.root, at.root)
                        &&& at.steps == a.steps
                    };
                let j = s0.lemma_point_row((callee, a, v));
                assert(site_set(w.e).contains((callee, s, p)));
                let y = lemma_find_three(t, names, site_set(w.e), (callee, s, p));
                self.lemma_same_proc(s0, s0.points@[j][0], t[y][0]);
                assert(call_done(
                    st.said(),
                    w,
                    m,
                    s0.point_of(s0.points@[j]),
                    three_row(names, t[y]),
                ));
            }
        }
    }

    /// A node's procedure by its number.
    proof fn lemma_same_proc(&self, s: State, n: usize, p: usize)
        requires
            s.tables_ok(),
            n < s.nodes@.len(),
            p < s.store@.names.len(),
            s.store@.name(s.proc(n)) == s.store@.name(p),
        ensures
            s.proc(n) == p,
    {
        assert(s.node_ok(s.nodes@[n as int]));
        assert(s.spot_ok(s.spots@[s.nodes@[n as int][0] as int]));
        s.store@.lemma_name_injective(s.proc(n), p);
    }

    /// One points-to fact of a callee at one resolved instance.
    fn dispatch_one(
        &self,
        st: &mut State,
        marks: &Marks,
        i: usize,
        y: usize,
        Ghost(sm): Ghost<State>,
        Ghost(w): Ghost<Setting>,
        Ghost(seed): Ghost<Core>,
    )
        requires
            self.ready(*old(st), sm, *marks, w, seed),
            i < old(st).points@.len(),
            y < marks.resolves@.len(),
            old(st).proc(old(st).points@[i as int][0]) == marks.resolves@[y as int][0],
        ensures
            self.ready(*final(st), sm, *marks, w, seed),
            old(st).le(final(st)),
            ({
                let c = old(st).store@;
                let row = marks.resolves@[y as int];
                dispatch_done(
                    final(st).said(),
                    w,
                    sm.said(),
                    old(st).point_of(old(st).points@[i as int]),
                    (c.name(row[1]), c.inst(row[2]), c.name(row[0])),
                )
            }),
    {
        let ghost s0 = *st;
        let ghost c = st.store@;
        let ghost m = sm.said();
        let ghost row = st.points@[i as int];
        let ghost fact = st.point_of(row);
        let ghost rrow = marks.resolves@[y as int];
        proof {
            self.lemma_ready(s0, s0, sm, *marks, w, seed);
            sm.store@.lemma_grow(c);
            assert(st.point_ok(row));
            assert(st.node_ok(st.nodes@[row[0] as int]));
            assert(st.spot_ok(st.spots@[st.nodes@[row[0] as int][0] as int]));
            assert(st.points@.contains(row));
            st.lemma_row_point(row);
            lemma_monotone(w, m, st.said());
            assert(w.resolve(m, c.name(rrow[1]), c.inst(rrow[2]), c.name(rrow[0])));
        }
        let n: usize = st.points.at(i, 0);
        let tag: usize = st.points.at(i, 1);
        let x: usize = st.points.at(i, 2);
        let a: usize = st.nodes.at(n, 1);
        let callee: usize = marks.resolves.at(y, 0);
        let p: usize = marks.resolves.at(y, 1);
        let id: usize = marks.resolves.at(y, 2);
        let ghost pn = c.name(p);
        let ghost inst = c.inst(id);
        let ghost cn = c.name(callee);
        let ka = st.store.key(a);
        let ta = self.crit_key(st, callee, id, ka, Ghost(w));
        let ghost s1 = *st;
        proof {
            self.lemma_ready(s0, s1, sm, *marks, w, seed);
            c.lemma_grow(st.store@);
            c.lemma_path(a);
        }
        match ta {
            None => {},
            Some(to) => {
                if tag == 0 {
                    proof {
                        c.lemma_value_path(x);
                        c.lemma_path(x);
                        s1.store@.lemma_path(x);
                    }
                    let kb = st.store.key(x);
                    let tb = self.crit_key(st, callee, id, kb, Ghost(w));
                    let ghost s2 = *st;
                    proof {
                        self.lemma_ready(s1, s2, sm, *marks, w, seed);
                        s0.lemma_le_trans(&s1, &s2);
                        s1.store@.lemma_grow(st.store@);
                    }
                    match tb {
                        None => {},
                        Some(to2) => {
                            let u: usize = st.store.rebase(a, to);
                            let ghost d1 = st.store@;
                            proof {
                                s2.store@.lemma_grow(d1);
                            }
                            let v: usize = st.store.rebase(x, to2);
                            let ghost s3 = *st;
                            proof {
                                let d = st.store@;
                                s2.store@.lemma_le_trans(d1, d);
                                d1.lemma_grow(d);
                                s2.lemma_store_grow(&s3);
                                self.lemma_ready(s2, s3, sm, *marks, w, seed);
                                s0.lemma_le_trans(&s2, &s3);
                                let sup = d.path(u);
                                let sub = d.path(v);
                                lemma_monotone(w, m, st.said());
                                assert(w.resolve(st.said(), pn, inst, cn));
                                assert(st.said().points.contains(
                                    (cn, fact.1, Value::Path(c.path(x))),
                                ));
                                assert(w.edge_by_dispatch(st.said(), pn, sup, sub));
                                assert(w.edge_from(st.said(), pn, sup, sub));
                            }
                            st.derive_edge(p, u, v, Ghost(w), Ghost(seed));
                            proof {
                                self.lemma_ready(s3, *st, sm, *marks, w, seed);
                                s0.lemma_le_trans(&s3, st);
                                let b = c.path(x);
                                assert forall|sup: Path, sub: Path|
                                    crit_root(cn, inst, fact.1.root, w.k) == Some(sup.root)
                                        && crit_root(cn, inst, b.root, w.k) == Some(sub.root)
                                        && sup.steps == fact.1.steps && sub.steps
                                        == b.steps implies #[trigger] st.said().edge.contains(
                                    (pn, sup, sub),
                                ) by {
                                    assert(sup == s3.store@.path(u));
                                    assert(sub == s3.store@.path(v));
                                }
                            }
                        },
                    }
                } else {
                    proof {
                        c.lemma_value_other(tag, x);
                    }
                    let k2 = st.store.key(a);
                    if self.is_published(st, callee, k2, Ghost(w)) {
                        let u: usize = st.store.rebase(a, to);
                        let ghost s3 = *st;
                        proof {
                            let d = st.store@;
                            s1.lemma_store_grow(&s3);
                            self.lemma_ready(s1, s3, sm, *marks, w, seed);
                            s0.lemma_le_trans(&s1, &s3);
                            s1.store@.lemma_grow(d);
                            let at = d.path(u);
                            lemma_monotone(w, m, st.said());
                            assert(w.resolve(st.said(), pn, inst, cn));
                            assert(w.pub_points(st.said(), cn, fact.1, fact.2));
                            assert(w.points_by_dispatch(st.said(), pn, at, fact.2));
                            assert(w.points_from(st.said(), pn, at, fact.2));
                            assert(d.value_ok(tag, x) && d.value(tag, x) == fact.2);
                        }
                        st.derive_point(p, u, tag, x, Ghost(w), Ghost(seed));
                        proof {
                            self.lemma_ready(s3, *st, sm, *marks, w, seed);
                            s0.lemma_le_trans(&s3, st);
                            assert forall|at: Path|
                                crit_root(cn, inst, fact.1.root, w.k) == Some(at.root) && at.steps
                                    == fact.1.steps implies #[trigger] st.said().points.contains(
                                (pn, at, fact.2),
                            ) by {
                                assert(at == s3.store@.path(u));
                            }
                        }
                    } else {
                        proof {
                            lemma_monotone(w, m, st.said());
                            assert(!w.pub_points(m, fact.0, fact.1, fact.2));
                        }
                    }
                }
            },
        }
    }

    /// Inline every published summary at every resolved instance.
    pub fn fire_dispatches(
        &self,
        st: &mut State,
        marks: &Marks,
        Ghost(sm): Ghost<State>,
        Ghost(w): Ghost<Setting>,
        Ghost(seed): Ghost<Core>,
    )
        requires
            self.ready(*old(st), sm, *marks, w, seed),
        ensures
            self.ready(*final(st), sm, *marks, w, seed),
            old(st).le(final(st)),
            dispatches_done(final(st).said(), w, sm.said()),
    {
        let ghost s0 = *st;
        let ghost c = st.store@;
        let ghost m = sm.said();
        let ghost t = marks.resolves@;
        proof {
            self.lemma_ready(s0, s0, sm, *marks, w, seed);
        }
        let n: usize = st.points.len();
        let mut i: usize = 0;
        while i < n
            invariant
                i <= n,
                n == s0.points@.len(),
                self.ready(*st, sm, *marks, w, seed),
                self.ready(s0, sm, *marks, w, seed),
                s0.le(st),
                c == s0.store@,
                m == sm.said(),
                t == marks.resolves@,
                forall|a: int, y: int|
                    #![trigger s0.points@[a], t[y]]
                    0 <= a < i && 0 <= y < t.len() && t[y][0] == s0.proc(s0.points@[a][0])
                        ==> dispatch_done(
                        st.said(),
                        w,
                        m,
                        s0.point_of(s0.points@[a]),
                        (c.name(t[y][1]), c.inst(t[y][2]), c.name(t[y][0])),
                    ),
            decreases n - i,
        {
            let ghost row = s0.points@[i as int];
            proof {
                s0.lemma_grow(st);
                assert(s0.point_ok(row));
                s0.lemma_node_grow(st, row[0]);
                assert(st.points@[i as int] == row);
                assert(st.node_ok(st.nodes@[row[0] as int]));
                assert(st.spot_ok(st.spots@[st.nodes@[row[0] as int][0] as int]));
                assert(st.point_ok(row));
            }
            let u: usize = st.points.at(i, 0);
            let spot: usize = st.nodes.at(u, 0);
            let p: usize = st.spots.at(spot, 0);
            let list = marks.resolves.heads(p);
            let ghost s1 = *st;
            proof {
                self.lemma_ready(s1, s1, sm, *marks, w, seed);
            }
            let mut j: usize = 0;
            while j < list.len()
                invariant
                    i < n,
                    n == s0.points@.len(),
                    j <= list@.len(),
                    self.ready(*st, sm, *marks, w, seed),
                    self.ready(s0, sm, *marks, w, seed),
                    self.ready(s1, sm, *marks, w, seed),
                    s0.le(st),
                    s1.le(st),
                    c == s0.store@,
                    m == sm.said(),
                    t == marks.resolves@,
                    row == s0.points@[i as int],
                    p == s0.proc(row[0]),
                    forall|z: int|
                        0 <= z < list@.len() ==> (#[trigger] list@[z]) < t.len()
                            && t[list@[z] as int][0] == p,
                    forall|z: int|
                        0 <= z < j ==> dispatch_done(
                            st.said(),
                            w,
                            m,
                            s0.point_of(row),
                            (
                                c.name(t[#[trigger] list@[z] as int][1]),
                                c.inst(t[list@[z] as int][2]),
                                c.name(t[list@[z] as int][0]),
                            ),
                        ),
                decreases list@.len() - j,
            {
                let y: usize = list[j];
                let ghost s2 = *st;
                proof {
                    s0.lemma_grow(st);
                    assert(s0.point_ok(row));
                    s0.lemma_node_grow(st, row[0]);
                    assert(st.points@[i as int] == row);
                    sm.store@.lemma_grow(c);
                    c.lemma_grow(st.store@);
                }
                self.dispatch_one(st, marks, i, y, Ghost(sm), Ghost(w), Ghost(seed));
                proof {
                    self.lemma_ready(s2, *st, sm, *marks, w, seed);
                    s0.lemma_le_trans(&s2, st);
                    s1.lemma_le_trans(&s2, st);
                    assert forall|z: int| 0 <= z < j + 1 implies dispatch_done(
                        st.said(),
                        w,
                        m,
                        s0.point_of(row),
                        (
                            c.name(t[#[trigger] list@[z] as int][1]),
                            c.inst(t[list@[z] as int][2]),
                            c.name(t[list@[z] as int][0]),
                        ),
                    ) by {
                        let r = (
                            c.name(t[list@[z] as int][1]),
                            c.inst(t[list@[z] as int][2]),
                            c.name(t[list@[z] as int][0]),
                        );
                        if z < j {
                            lemma_dispatch_done_grow(
                                s2.said(),
                                st.said(),
                                w,
                                m,
                                s0.point_of(row),
                                r,
                            );
                        }
                    }
                }
                j += 1;
            }
            proof {
                s1.lemma_grow(st);
                marks.resolves.lemma_distinct();
                assert forall|a: int, y: int|
                    #![trigger s0.points@[a], t[y]]
                    0 <= a < i + 1 && 0 <= y < t.len() && t[y][0] == s0.proc(
                        s0.points@[a][0],
                    ) implies dispatch_done(
                    st.said(),
                    w,
                    m,
                    s0.point_of(s0.points@[a]),
                    (c.name(t[y][1]), c.inst(t[y][2]), c.name(t[y][0])),
                ) by {
                    if a < i {
                        lemma_dispatch_done_grow(
                            s1.said(),
                            st.said(),
                            w,
                            m,
                            s0.point_of(s0.points@[a]),
                            (c.name(t[y][1]), c.inst(t[y][2]), c.name(t[y][0])),
                        );
                    } else {
                        assert(list@.contains(y as usize));
                        let z = choose|z: int| 0 <= z < list@.len() && list@[z] == y as usize;
                        assert(t[list@[z] as int] == t[y]);
                    }
                }
            }
            i += 1;
        }
        proof {
            sm.store@.lemma_grow(c);
            assert forall|p: Name, sup: Path, sub: Path| #[trigger]
                w.edge_by_dispatch(m, p, sup, sub)
                    implies st.said().edge.contains((p, sup, sub)) by {
                let (id, callee, a, b) = choose|id: Instance, callee: Name, a: Path, b: Path|
                    {
                        &&& #[trigger] w.resolve(m, p, id, callee)
                        &&& #[trigger] m.points.contains((callee, a, Value::Path(b)))
                        &&& crit_root(callee, id, a.root, w.k) == Some(sup.root)
                        &&& crit_root(callee, id, b.root, w.k) == Some(sub.root)
                        &&& sup.steps == a.steps
                        &&& sub.steps == b.steps
                    };
                let j = s0.lemma_point_row((callee, a, Value::Path(b)));
                let y = lemma_resolve_row(*marks, sm, w, p, id, callee);
                self.lemma_same_proc(s0, s0.points@[j][0], t[y][0]);
                assert(dispatch_done(
                    st.said(),
                    w,
                    m,
                    s0.point_of(s0.points@[j]),
                    (c.name(t[y][1]), c.inst(t[y][2]), c.name(t[y][0])),
                ));
            }
            assert forall|p: Name, at: Path, v: Value| #[trigger]
                w.points_by_dispatch(m, p, at, v) implies st.said().points.contains((p, at, v)) by {
                let (id, callee, a) = choose|id: Instance, callee: Name, a: Path|
                    {
                        &&& #[trigger] w.resolve(m, p, id, callee)
                        &&& #[trigger] w.pub_points(m, callee, a, v)
                        &&& crit_root(callee, id, a.root, w.k) == Some(at.root)
                        &&& at.steps == a.steps
                    };
                let j = s0.lemma_point_row((callee, a, v));
                let y = lemma_resolve_row(*marks, sm, w, p, id, callee);
                self.lemma_same_proc(s0, s0.points@[j][0], t[y][0]);
                assert(dispatch_done(
                    st.said(),
                    w,
                    m,
                    s0.point_of(s0.points@[j]),
                    (c.name(t[y][1]), c.inst(t[y][2]), c.name(t[y][0])),
                ));
            }
        }
    }
}

/// The row of a resolution.
proof fn lemma_resolve_row(
    marks: Marks,
    sm: State,
    w: Setting,
    p: Name,
    id: Instance,
    callee: Name,
) -> (y: int)
    requires
        marks.ok(sm, w),
        w.resolve(sm.said(), p, id, callee),
    ensures
        0 <= y < marks.resolves@.len(),
        ({
            let c = sm.store@;
            let row = marks.resolves@[y];
            row.len() == 3 && row[0] < c.names.len() && row[1] < c.names.len() && row[2]
                < c.insts.len() && c.name(row[1]) == p && c.inst(row[2]) == id && c.name(row[0])
                == callee
        }),
{
    let c = sm.store@;
    let t = marks.resolves@;
    choose|i: int|
        0 <= i < t.len() && c.name((#[trigger] t[i])[1]) == p && c.inst(t[i][2]) == id && c.name(
            t[i][0],
        ) == callee
}

} // verus!
