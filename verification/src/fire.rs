//! Firing the rules: each function here derives everything that one rule derives
//! from a core the state already holds, and nothing that does not follow.
use vstd::prelude::*;

use crate::access_path::{Instance, Path, Value};
use crate::codes::{flat_ok, flat_steps, Kind};
use crate::engine::Engine;
use crate::ir::Name;
use crate::rules::{congruent, lemma_monotone, lemma_rules_monotone, Core, Setting};
use crate::state::State;

verus! {

/// What a rule may do to the state: everything it adds follows from `seed`.
pub open spec fn sound(w: Setting, seed: Core, a: State, b: State) -> bool {
    b.wf() && a.le(&b) && w.follows(seed, b.said())
}

proof fn lemma_follows_edge(w: Setting, seed: Core, m: Core, x: (Name, Path, Path))
    requires
        w.follows(seed, m),
        w.edge_from(m, x.0, x.1, x.2),
    ensures
        w.follows(seed, (Core { edge: m.edge.insert(x), ..m })),
{
    let n = Core { edge: m.edge.insert(x), ..m };
    assert forall|other: Core| #[trigger] w.closed_under(other) && seed.le(other) implies n.le(
        other,
    ) by {
        lemma_rules_monotone(w, m, other);
        assert(w.edge_from(other, x.0, x.1, x.2));
    }
}

proof fn lemma_follows_point(w: Setting, seed: Core, m: Core, x: (Name, Path, Value))
    requires
        w.follows(seed, m),
        w.points_from(m, x.0, x.1, x.2),
    ensures
        w.follows(seed, (Core { points: m.points.insert(x), ..m })),
{
    let n = Core { points: m.points.insert(x), ..m };
    assert forall|other: Core| #[trigger] w.closed_under(other) && seed.le(other) implies n.le(
        other,
    ) by {
        lemma_rules_monotone(w, m, other);
        assert(w.points_from(other, x.0, x.1, x.2));
    }
}

proof fn lemma_follows_pending(w: Setting, seed: Core, m: Core, x: (Name, Instance))
    requires
        w.follows(seed, m),
        w.pending_from(m, x.0, x.1),
    ensures
        w.follows(seed, (Core { pending: m.pending.insert(x), ..m })),
{
    let n = Core { pending: m.pending.insert(x), ..m };
    assert forall|other: Core| #[trigger] w.closed_under(other) && seed.le(other) implies n.le(
        other,
    ) by {
        lemma_rules_monotone(w, m, other);
        assert(w.pending_from(other, x.0, x.1));
    }
}

impl State {
    pub fn derive_edge(
        &mut self,
        p: usize,
        sup: usize,
        sub: usize,
        Ghost(w): Ghost<Setting>,
        Ghost(seed): Ghost<Core>,
    )
        requires
            old(self).wf(),
            p < old(self).store@.names.len(),
            sup < old(self).store@.paths.len(),
            sub < old(self).store@.paths.len(),
            w.follows(seed, old(self).said()),
            w.edge_from(
                old(self).said(),
                old(self).store@.name(p),
                old(self).store@.path(sup),
                old(self).store@.path(sub),
            ),
        ensures
            sound(w, seed, *old(self), *final(self)),
            final(self).store == old(self).store,
            final(self).points == old(self).points,
            final(self).pending == old(self).pending,
            final(self).said().points == old(self).said().points,
            final(self).said().pending == old(self).said().pending,
            old(self).said().le(final(self).said()),
            final(self).said().edge.contains(
                (
                    old(self).store@.name(p),
                    old(self).store@.path(sup),
                    old(self).store@.path(sub),
                ),
            ),
    {
        proof {
            let c = self.store@;
            lemma_follows_edge(w, seed, self.said(), (c.name(p), c.path(sup), c.path(sub)));
        }
        self.put_edge(p, sup, sub);
    }

    pub fn derive_point(
        &mut self,
        p: usize,
        at: usize,
        tag: usize,
        x: usize,
        Ghost(w): Ghost<Setting>,
        Ghost(seed): Ghost<Core>,
    )
        requires
            old(self).wf(),
            p < old(self).store@.names.len(),
            at < old(self).store@.paths.len(),
            old(self).store@.value_ok(tag, x),
            w.follows(seed, old(self).said()),
            w.points_from(
                old(self).said(),
                old(self).store@.name(p),
                old(self).store@.path(at),
                old(self).store@.value(tag, x),
            ),
        ensures
            sound(w, seed, *old(self), *final(self)),
            final(self).store == old(self).store,
            final(self).edges == old(self).edges,
            final(self).pending == old(self).pending,
            final(self).said().edge == old(self).said().edge,
            final(self).said().pending == old(self).said().pending,
            old(self).said().le(final(self).said()),
            final(self).said().points.contains(
                (
                    old(self).store@.name(p),
                    old(self).store@.path(at),
                    old(self).store@.value(tag, x),
                ),
            ),
    {
        proof {
            let c = self.store@;
            lemma_follows_point(w, seed, self.said(), (c.name(p), c.path(at), c.value(tag, x)));
        }
        self.put_point(p, at, tag, x);
    }

    pub fn derive_pending(
        &mut self,
        p: usize,
        id: usize,
        Ghost(w): Ghost<Setting>,
        Ghost(seed): Ghost<Core>,
    )
        requires
            old(self).wf(),
            p < old(self).store@.names.len(),
            id < old(self).store@.insts.len(),
            w.follows(seed, old(self).said()),
            w.pending_from(old(self).said(), old(self).store@.name(p), old(self).store@.inst(id)),
        ensures
            sound(w, seed, *old(self), *final(self)),
            final(self).store == old(self).store,
            final(self).edges == old(self).edges,
            final(self).points == old(self).points,
            old(self).said().le(final(self).said()),
            final(self).said().pending.contains(
                (old(self).store@.name(p), old(self).store@.inst(id)),
            ),
    {
        proof {
            let c = self.store@;
            lemma_follows_pending(w, seed, self.said(), (c.name(p), c.inst(id)));
        }
        self.put_pending(p, id);
    }
}

/// What a constraint contains flows to its container, and a symbolic path is a
/// value of its container.
pub fn fire_flow(
    st: &mut State,
    Ghost(w): Ghost<Setting>,
    Ghost(seed): Ghost<Core>,
    Ghost(m): Ghost<Core>,
)
    requires
        old(st).wf(),
        w.follows(seed, old(st).said()),
        m.le(old(st).said()),
    ensures
        sound(w, seed, *old(st), *final(st)),
        forall|p: Name, x: Path, v: Value| #[trigger]
            w.points_by_flow(m, p, x, v) ==> final(st).said().points.contains((p, x, v)),
        forall|p: Name, x: Path, v: Value| #[trigger]
            w.points_by_symbol(m, p, x, v) ==> final(st).said().points.contains((p, x, v)),
{
    let ghost s0 = *st;
    let ghost c = st.store@;
    let mut i: usize = 0;
    while i < st.edges.len()
        invariant
            i <= st.edges@.len(),
            sound(w, seed, s0, *st),
            s0.wf(),
            st.store == s0.store,
            st.edges == s0.edges,
            c == s0.store@,
            forall|a: int, b: int|
                #![trigger s0.edges@[a], s0.points@[b]]
                0 <= a < i && 0 <= b < s0.points@.len() && s0.points@[b][0] == s0.edges@[a][1]
                    ==> st.said().points.contains(
                    (
                        s0.edge_of(s0.edges@[a]).0,
                        s0.edge_of(s0.edges@[a]).1,
                        s0.point_of(s0.points@[b]).2,
                    ),
                ),
            forall|a: int|
                0 <= a < i && s0.edge_of(#[trigger] s0.edges@[a]).2.root.is_symbolic()
                    ==> st.said().points.contains(
                    (
                        s0.edge_of(s0.edges@[a]).0,
                        s0.edge_of(s0.edges@[a]).1,
                        Value::Path(s0.edge_of(s0.edges@[a]).2),
                    ),
                ),
        decreases st.edges@.len() - i,
    {
        let ghost row = st.edges@[i as int];
        let ghost x = s0.edge_of(row);
        proof {
            assert(st.edge_ok(row));
            assert(st.node_ok(st.nodes@[row[0] as int]));
            assert(st.node_ok(st.nodes@[row[1] as int]));
            assert(st.spot_ok(st.spots@[st.nodes@[row[0] as int][0] as int]));
            s0.lemma_grow(st);
            assert(st.edges@.contains(row));
            st.lemma_row_edge(row);
            assert(st.edge_of(row) == x);
        }
        let a: usize = st.edges.at(i, 0);
        let b: usize = st.edges.at(i, 1);
        let spot: usize = st.nodes.at(a, 0);
        let p: usize = st.spots.at(spot, 0);
        let sup: usize = st.nodes.at(a, 1);
        let sub: usize = st.nodes.at(b, 1);
        let key = st.store.key(sub);
        let symbolic = match key.kind() {
            Kind::Var(_) => false,
            _ => true,
        };
        let ghost s1 = *st;
        if symbolic {
            proof {
                c.lemma_value_path(sub);
                assert(w.points_by_symbol(st.said(), x.0, x.1, Value::Path(x.2)));
                assert(w.points_from(st.said(), x.0, x.1, Value::Path(x.2)));
            }
            st.derive_point(p, sup, 0, sub, Ghost(w), Ghost(seed));
            proof {
                s0.lemma_le_trans(&s1, st);
            }
        }
        let ghost s2 = *st;
        let list = st.points.heads(b);
        let mut j: usize = 0;
        while j < list.len()
            invariant
                j <= list@.len(),
                i < st.edges@.len(),
                sound(w, seed, s0, *st),
                s0.wf(),
                s2.wf(),
                s0.le(&s2),
                s2.le(st),
                st.store == s0.store,
                s2.store == s0.store,
                st.edges == s0.edges,
                c == s0.store@,
                row == s0.edges@[i as int],
                s0.edge_ok(row),
                x == s0.edge_of(row),
                st.said().edge.contains(x),
                b == row[1],
                p < c.names.len(),
                sup < c.paths.len(),
                c.name(p) == x.0,
                c.path(sup) == x.1,
                forall|z: int|
                    0 <= z < list@.len() ==> (#[trigger] list@[z]) < s2.points@.len()
                        && s2.points@[list@[z] as int][0] == b,
                forall|a: int, b: int|
                    #![trigger s0.edges@[a], s0.points@[b]]
                    0 <= a < i && 0 <= b < s0.points@.len() && s0.points@[b][0] == s0.edges@[a][1]
                        ==> st.said().points.contains(
                        (
                            s0.edge_of(s0.edges@[a]).0,
                            s0.edge_of(s0.edges@[a]).1,
                            s0.point_of(s0.points@[b]).2,
                        ),
                    ),
                forall|a: int|
                    0 <= a < i + 1 && s0.edge_of(#[trigger] s0.edges@[a]).2.root.is_symbolic()
                        ==> st.said().points.contains(
                        (
                            s0.edge_of(s0.edges@[a]).0,
                            s0.edge_of(s0.edges@[a]).1,
                            Value::Path(s0.edge_of(s0.edges@[a]).2),
                        ),
                    ),
                forall|z: int|
                    0 <= z < j ==> st.said().points.contains(
                        (x.0, x.1, s2.point_of(s2.points@[#[trigger] list@[z] as int]).2),
                    ),
            decreases list@.len() - j,
        {
            let y: usize = list[j];
            let ghost prow = s2.points@[y as int];
            proof {
                assert(st.points@[y as int] == prow);
                assert(s2.point_ok(prow));
                s2.lemma_grow(st);
                s0.lemma_node_grow(&s2, b);
                assert(s2.points@.contains(prow));
                assert(st.points@.contains(prow));
                st.lemma_row_point(prow);
                assert(st.point_of(prow) == s2.point_of(prow));
                assert(s2.point_of(prow).0 == x.0) by {
                    assert(s0.proc(row[0]) == s0.proc(row[1]));
                }
                assert(s2.point_of(prow).1 == x.2);
            }
            let tag: usize = st.points.at(y, 1);
            let v: usize = st.points.at(y, 2);
            proof {
                assert(w.points_by_flow(st.said(), x.0, x.1, c.value(tag, v)));
                assert(w.points_from(st.said(), x.0, x.1, c.value(tag, v)));
            }
            let ghost s3 = *st;
            st.derive_point(p, sup, tag, v, Ghost(w), Ghost(seed));
            proof {
                s0.lemma_le_trans(&s3, st);
                s2.lemma_le_trans(&s3, st);
            }
            j += 1;
        }
        proof {
            assert forall|y: int|
                0 <= y < s0.points@.len() && (#[trigger] s0.points@[y])[0] == row[1]
                    implies st.said().points.contains(
            (x.0, x.1, s0.point_of(s0.points@[y]).2)) by {
                s2.points.lemma_distinct();
                assert(s2.points@[y] == s0.points@[y]);
                assert(s0.point_ok(s0.points@[y]));
                assert(list@.contains(y as usize));
                let z = choose|z: int| 0 <= z < list@.len() && list@[z] == y as usize;
                s0.lemma_grow(&s2);
                assert(s2.point_of(s2.points@[list@[z] as int]).2 == s0.point_of(s0.points@[y]).2);
            }
        }
        i += 1;
    }
    proof {
        assert forall|p: Name, x: Path, v: Value| #[trigger]
            w.points_by_flow(m, p, x, v) implies st.said().points.contains((p, x, v)) by {
            let sub = choose|sub: Path| #[trigger]
                m.edge.contains((p, x, sub)) && m.points.contains((p, sub, v));
            let a = s0.lemma_edge_row((p, x, sub));
            let b = s0.lemma_point_row((p, sub, v));
            s0.lemma_node_injective(s0.points@[b][0], s0.edges@[a][1]);
            assert(st.said().points.contains(
                (
                    s0.edge_of(s0.edges@[a]).0,
                    s0.edge_of(s0.edges@[a]).1,
                    s0.point_of(s0.points@[b]).2,
                ),
            ));
        }
        assert forall|p: Name, x: Path, v: Value| #[trigger]
            w.points_by_symbol(m, p, x, v) implies st.said().points.contains((p, x, v)) by {
            let sub = v->Path_0;
            let a = s0.lemma_edge_row((p, x, sub));
            assert(st.said().points.contains(
                (
                    s0.edge_of(s0.edges@[a]).0,
                    s0.edge_of(s0.edges@[a]).1,
                    Value::Path(s0.edge_of(s0.edges@[a]).2),
                ),
            ));
        }
    }
}

// ---------------------------------------------------------------------------
// Suffix congruence
// ---------------------------------------------------------------------------

impl Engine {
    /// A path with more accessors, if the vocabulary admits it.
    pub fn extend(
        &self,
        st: &mut State,
        x: usize,
        f: &[usize],
        Ghost(w): Ghost<Setting>,
    ) -> (r: Option<usize>)
        requires
            old(st).wf(),
            self.ok(old(st).store@, w),
            x < old(st).store@.paths.len(),
            flat_ok(old(st).store@.names, f@),
        ensures
            final(st).wf(),
            old(st).le(final(st)),
            old(st).same_tables(final(st)),
            final(st).said() == old(st).said(),
            self.ok(final(st).store@, w),
            ({
                let c = old(st).store@;
                let steps = c.path(x).steps + flat_steps(c.names, f@);
                match r {
                    Some(y) => y < final(st).store@.paths.len() && w.e.paths.contains(steps)
                        && final(st).store@.path(y) == c.path(x).with_steps(steps),
                    None => !w.e.paths.contains(steps),
                }
            }),
    {
        let ghost s0 = *st;
        let ghost c = st.store@;
        proof {
            c.lemma_path(x);
        }
        let mut ext = st.store.flat(x);
        let ghost a = ext@;
        let mut j: usize = 0;
        while j < f.len()
            invariant
                j <= f@.len(),
                ext@ == a + f@.take(j as int),
            decreases f@.len() - j,
        {
            ext.push(f[j]);
            proof {
                assert(f@.take(j + 1) =~= f@.take(j as int).push(f@[j as int]));
                assert(ext@ =~= a + f@.take(j + 1));
            }
            j += 1;
        }
        proof {
            assert(f@.take(j as int) =~= f@);
            crate::codes::lemma_flat_append(c.names, a, f@);
        }
        if self.admits(ext.as_slice(), Ghost(c), Ghost(w)) {
            let y: usize = st.store.append(x, f);
            proof {
                s0.lemma_store_grow(st);
                self.lemma_grow(c, st.store@, w);
            }
            Some(y)
        } else {
            proof {
                s0.lemma_store_grow(st);
            }
            None
        }
    }

    /// Congruence from the containing side, for one constraint.
    fn extend_sup_at(
        &self,
        st: &mut State,
        i: usize,
        Ghost(w): Ghost<Setting>,
        Ghost(seed): Ghost<Core>,
    )
        requires
            old(st).wf(),
            self.ok(old(st).store@, w),
            w.follows(seed, old(st).said()),
            i < old(st).edges@.len(),
        ensures
            sound(w, seed, *old(st), *final(st)),
            self.ok(final(st).store@, w),
            ({
                let s0 = *old(st);
                let x = s0.edge_of(s0.edges@[i as int]);
                forall|n: usize, sub: Path|
                    #![trigger s0.place(n), congruent(x.1, x.2, s0.store@.path(s0.place(n)), sub)]
                    n < s0.nodes@.len() && s0.store@.name(s0.proc(n)) == x.0 && congruent(
                        x.1,
                        x.2,
                        s0.store@.path(s0.place(n)),
                        sub,
                    ) && w.e.paths.contains(sub.steps) ==> final(st).said().edge.contains(
                        (x.0, s0.store@.path(s0.place(n)), sub),
                    )
            }),
    {
        let ghost s0 = *st;
        let ghost c = st.store@;
        let ghost row = st.edges@[i as int];
        let ghost x = s0.edge_of(row);
        proof {
            assert(st.edge_ok(row));
            assert(st.node_ok(st.nodes@[row[0] as int]));
            assert(st.node_ok(st.nodes@[row[1] as int]));
            assert(st.spot_ok(st.spots@[st.nodes@[row[0] as int][0] as int]));
            assert(st.edges@.contains(row));
            st.lemma_row_edge(row);
            s0.store@.lemma_le_trans(c, c);
        }
        let a: usize = st.edges.at(i, 0);
        let b: usize = st.edges.at(i, 1);
        let spot: usize = st.nodes.at(a, 0);
        let p: usize = st.spots.at(spot, 0);
        let sup: usize = st.nodes.at(a, 1);
        let sub: usize = st.nodes.at(b, 1);
        let list = st.nodes.heads(spot);
        let mut j: usize = 0;
        while j < list.len()
            invariant
                j <= list@.len(),
                s0.wf(),
                sound(w, seed, s0, *st),
                self.ok(st.store@, w),
                c == s0.store@,
                x == s0.edge_of(row),
                st.said().edge.contains(x),
                p < c.names.len(),
                sup < c.paths.len(),
                sub < c.paths.len(),
                spot < s0.spots@.len(),
                s0.spots@[spot as int][0] == p,
                c.name(p) == x.0,
                c.path(sup) == x.1,
                c.path(sub) == x.2,
                forall|z: int|
                    0 <= z < list@.len() ==> (#[trigger] list@[z]) < s0.nodes@.len()
                        && s0.nodes@[list@[z] as int][0] == spot,
                forall|z: int, y: Path|
                    #![trigger list@[z], congruent(x.1, x.2, c.path(s0.place(list@[z])), y)]
                    0 <= z < j && congruent(x.1, x.2, c.path(s0.place(list@[z])), y)
                        && w.e.paths.contains(y.steps) ==> st.said().edge.contains(
                        (x.0, c.path(s0.place(list@[z])), y),
                    ),
            decreases list@.len() - j,
        {
            let n: usize = list[j];
            proof {
                s0.lemma_node_grow(st, n);
                c.lemma_grow(st.store@);
                assert(s0.node_ok(s0.nodes@[n as int]));
                assert(st.nodes@[n as int] == s0.nodes@[n as int]);
            }
            let long: usize = st.nodes.at(n, 1);
            let ghost z = c.path(long);
            let ghost s1 = *st;
            match st.store.rest(long, sup) {
                None => {},
                Some(f) => {
                    let extended = self.extend(st, sub, f.as_slice(), Ghost(w));
                    proof {
                        s1.store@.lemma_grow(st.store@);
                        s0.lemma_le_trans(&s1, st);
                    }
                    match extended {
                        None => {},
                        Some(y) => {
                            let ghost s2 = *st;
                            proof {
                                let d = st.store@;
                                assert(congruent(x.1, x.2, z, d.path(y)));
                                s0.lemma_node_grow(st, n);
                                st.lemma_node_used(n);
                                assert(st.said().path_used(x.0, z));
                                assert(w.edge_by_extending_sup(st.said(), x.0, z, d.path(y)));
                                assert(w.edge_from(st.said(), x.0, z, d.path(y)));
                                assert(d.path(long) == z);
                            }
                            st.derive_edge(p, long, y, Ghost(w), Ghost(seed));
                            proof {
                                s0.lemma_le_trans(&s2, st);
                            }
                        },
                    }
                },
            }
            proof {
                assert(s1.said().le(st.said()));
                assert forall|y: Path|
                    congruent(x.1, x.2, z, y) && w.e.paths.contains(y.steps)
                        implies #[trigger] st.said().edge.contains(
                (x.0, z, y)) by {
                    assert(z.extends(x.1) && z.steps.len() > x.1.steps.len());
                }
            }
            j += 1;
        }
        proof {
            assert forall|n: usize, y: Path|
                #![trigger s0.place(n), congruent(x.1, x.2, s0.store@.path(s0.place(n)), y)]
                n < s0.nodes@.len() && s0.store@.name(s0.proc(n)) == x.0 && congruent(
                    x.1,
                    x.2,
                    s0.store@.path(s0.place(n)),
                    y,
                ) && w.e.paths.contains(y.steps) implies st.said().edge.contains(
                (x.0, s0.store@.path(s0.place(n)), y),
            ) by {
                assert(s0.node_ok(s0.nodes@[n as int]));
                assert(s0.spot_ok(s0.spots@[s0.nodes@[n as int][0] as int]));
                c.lemma_name_injective(s0.proc(n), p);
                s0.lemma_same_spot(n, a);
                s0.nodes.lemma_distinct();
                assert(list@.contains(n));
                let z = choose|z: int| 0 <= z < list@.len() && list@[z] == n;
                assert(s0.place(list@[z]) == s0.place(n));
            }
        }
    }

    /// Congruence from the contained side, for one constraint.
    fn extend_sub_at(
        &self,
        st: &mut State,
        i: usize,
        Ghost(w): Ghost<Setting>,
        Ghost(seed): Ghost<Core>,
    )
        requires
            old(st).wf(),
            self.ok(old(st).store@, w),
            w.follows(seed, old(st).said()),
            i < old(st).edges@.len(),
        ensures
            sound(w, seed, *old(st), *final(st)),
            self.ok(final(st).store@, w),
            ({
                let s0 = *old(st);
                let x = s0.edge_of(s0.edges@[i as int]);
                forall|n: usize, sup: Path|
                    #![trigger s0.place(n), congruent(x.2, x.1, s0.store@.path(s0.place(n)), sup)]
                    n < s0.nodes@.len() && s0.store@.name(s0.proc(n)) == x.0 && congruent(
                        x.2,
                        x.1,
                        s0.store@.path(s0.place(n)),
                        sup,
                    ) && w.e.paths.contains(sup.steps) ==> final(st).said().edge.contains(
                        (x.0, sup, s0.store@.path(s0.place(n))),
                    )
            }),
    {
        let ghost s0 = *st;
        let ghost c = st.store@;
        let ghost row = st.edges@[i as int];
        let ghost x = s0.edge_of(row);
        proof {
            assert(st.edge_ok(row));
            assert(st.node_ok(st.nodes@[row[0] as int]));
            assert(st.node_ok(st.nodes@[row[1] as int]));
            assert(st.spot_ok(st.spots@[st.nodes@[row[1] as int][0] as int]));
            assert(st.edges@.contains(row));
            st.lemma_row_edge(row);
            s0.store@.lemma_le_trans(c, c);
        }
        let a: usize = st.edges.at(i, 0);
        let b: usize = st.edges.at(i, 1);
        let spot: usize = st.nodes.at(b, 0);
        let p: usize = st.spots.at(spot, 0);
        let sup: usize = st.nodes.at(a, 1);
        let sub: usize = st.nodes.at(b, 1);
        let list = st.nodes.heads(spot);
        let mut j: usize = 0;
        while j < list.len()
            invariant
                j <= list@.len(),
                s0.wf(),
                sound(w, seed, s0, *st),
                self.ok(st.store@, w),
                c == s0.store@,
                x == s0.edge_of(row),
                st.said().edge.contains(x),
                p < c.names.len(),
                sup < c.paths.len(),
                sub < c.paths.len(),
                spot < s0.spots@.len(),
                s0.spots@[spot as int][0] == p,
                c.name(p) == x.0,
                c.path(sup) == x.1,
                c.path(sub) == x.2,
                forall|z: int|
                    0 <= z < list@.len() ==> (#[trigger] list@[z]) < s0.nodes@.len()
                        && s0.nodes@[list@[z] as int][0] == spot,
                forall|z: int, y: Path|
                    #![trigger list@[z], congruent(x.2, x.1, c.path(s0.place(list@[z])), y)]
                    0 <= z < j && congruent(x.2, x.1, c.path(s0.place(list@[z])), y)
                        && w.e.paths.contains(y.steps) ==> st.said().edge.contains(
                        (x.0, y, c.path(s0.place(list@[z]))),
                    ),
            decreases list@.len() - j,
        {
            let n: usize = list[j];
            proof {
                s0.lemma_node_grow(st, n);
                c.lemma_grow(st.store@);
                assert(s0.node_ok(s0.nodes@[n as int]));
                assert(st.nodes@[n as int] == s0.nodes@[n as int]);
            }
            let long: usize = st.nodes.at(n, 1);
            let ghost z = c.path(long);
            let ghost s1 = *st;
            match st.store.rest(long, sub) {
                None => {},
                Some(f) => {
                    let extended = self.extend(st, sup, f.as_slice(), Ghost(w));
                    proof {
                        s1.store@.lemma_grow(st.store@);
                        s0.lemma_le_trans(&s1, st);
                    }
                    match extended {
                        None => {},
                        Some(y) => {
                            let ghost s2 = *st;
                            proof {
                                let d = st.store@;
                                assert(congruent(x.2, x.1, z, d.path(y)));
                                s0.lemma_node_grow(st, n);
                                st.lemma_node_used(n);
                                assert(st.said().path_used(x.0, z));
                                assert(w.edge_by_extending_sub(st.said(), x.0, d.path(y), z));
                                assert(w.edge_from(st.said(), x.0, d.path(y), z));
                                assert(d.path(long) == z);
                            }
                            st.derive_edge(p, y, long, Ghost(w), Ghost(seed));
                            proof {
                                s0.lemma_le_trans(&s2, st);
                            }
                        },
                    }
                },
            }
            proof {
                assert(s1.said().le(st.said()));
                assert forall|y: Path|
                    congruent(x.2, x.1, z, y) && w.e.paths.contains(y.steps)
                        implies #[trigger] st.said().edge.contains(
                (x.0, y, z)) by {
                    assert(z.extends(x.2) && z.steps.len() > x.2.steps.len());
                }
            }
            j += 1;
        }
        proof {
            assert forall|n: usize, y: Path|
                #![trigger s0.place(n), congruent(x.2, x.1, s0.store@.path(s0.place(n)), y)]
                n < s0.nodes@.len() && s0.store@.name(s0.proc(n)) == x.0 && congruent(
                    x.2,
                    x.1,
                    s0.store@.path(s0.place(n)),
                    y,
                ) && w.e.paths.contains(y.steps) implies st.said().edge.contains(
                (x.0, y, s0.store@.path(s0.place(n))),
            ) by {
                assert(s0.node_ok(s0.nodes@[n as int]));
                assert(s0.spot_ok(s0.spots@[s0.nodes@[n as int][0] as int]));
                c.lemma_name_injective(s0.proc(n), p);
                s0.lemma_same_spot(n, b);
                s0.nodes.lemma_distinct();
                assert(list@.contains(n));
                let z = choose|z: int| 0 <= z < list@.len() && list@[z] == n;
                assert(s0.place(list@[z]) == s0.place(n));
            }
        }
    }

    /// Suffix congruence.
    pub fn fire_congruence(
        &self,
        st: &mut State,
        Ghost(w): Ghost<Setting>,
        Ghost(seed): Ghost<Core>,
        Ghost(m): Ghost<Core>,
    )
        requires
            old(st).wf(),
            self.ok(old(st).store@, w),
            w.follows(seed, old(st).said()),
            m.le(old(st).said()),
        ensures
            sound(w, seed, *old(st), *final(st)),
            self.ok(final(st).store@, w),
            forall|p: Name, x: Path, y: Path| #[trigger]
                w.edge_by_extending_sup(m, p, x, y) ==> final(st).said().edge.contains((p, x, y)),
            forall|p: Name, x: Path, y: Path| #[trigger]
                w.edge_by_extending_sub(m, p, x, y) ==> final(st).said().edge.contains((p, x, y)),
    {
        let ghost s0 = *st;
        let ghost c = st.store@;
        let n: usize = st.edges.len();
        let mut i: usize = 0;
        while i < n
            invariant
                i <= n,
                n == s0.edges@.len(),
                s0.wf(),
                sound(w, seed, s0, *st),
                self.ok(st.store@, w),
                c == s0.store@,
                forall|a: int, u: usize, y: Path|
                    #![trigger s0.edges@[a], congruent(
                        s0.edge_of(s0.edges@[a]).1,
                        s0.edge_of(s0.edges@[a]).2,
                        c.path(s0.place(u)),
                        y,
                    )]
                    0 <= a < i && u < s0.nodes@.len() && c.name(s0.proc(u)) == s0.edge_of(
                        s0.edges@[a],
                    ).0 && congruent(
                        s0.edge_of(s0.edges@[a]).1,
                        s0.edge_of(s0.edges@[a]).2,
                        c.path(s0.place(u)),
                        y,
                    ) && w.e.paths.contains(y.steps) ==> st.said().edge.contains(
                        (s0.edge_of(s0.edges@[a]).0, c.path(s0.place(u)), y),
                    ),
                forall|a: int, u: usize, y: Path|
                    #![trigger s0.edges@[a], congruent(
                        s0.edge_of(s0.edges@[a]).2,
                        s0.edge_of(s0.edges@[a]).1,
                        c.path(s0.place(u)),
                        y,
                    )]
                    0 <= a < i && u < s0.nodes@.len() && c.name(s0.proc(u)) == s0.edge_of(
                        s0.edges@[a],
                    ).0 && congruent(
                        s0.edge_of(s0.edges@[a]).2,
                        s0.edge_of(s0.edges@[a]).1,
                        c.path(s0.place(u)),
                        y,
                    ) && w.e.paths.contains(y.steps) ==> st.said().edge.contains(
                        (s0.edge_of(s0.edges@[a]).0, y, c.path(s0.place(u))),
                    ),
            decreases n - i,
        {
            let ghost s1 = *st;
            self.extend_sup_at(st, i, Ghost(w), Ghost(seed));
            let ghost s2 = *st;
            proof {
                s1.lemma_grow(&s2);
                s0.lemma_le_trans(&s1, &s2);
            }
            self.extend_sub_at(st, i, Ghost(w), Ghost(seed));
            proof {
                s2.lemma_grow(st);
                s0.lemma_le_trans(&s2, st);
                s0.lemma_grow(&s1);
                s0.lemma_grow(&s2);
                let x = s0.edge_of(s0.edges@[i as int]);
                assert(s1.edges@[i as int] == s0.edges@[i as int]);
                assert(s2.edges@[i as int] == s0.edges@[i as int]);
                assert forall|u: usize, y: Path|
                    #![trigger congruent(x.1, x.2, c.path(s0.place(u)), y)]
                    u < s0.nodes@.len() && c.name(s0.proc(u)) == x.0 && congruent(
                        x.1,
                        x.2,
                        c.path(s0.place(u)),
                        y,
                    ) && w.e.paths.contains(y.steps) implies st.said().edge.contains(
                    (x.0, c.path(s0.place(u)), y),
                ) by {
                    s0.lemma_node_grow(&s1, u);
                    assert(s1.place(u) == s0.place(u));
                    assert(congruent(x.1, x.2, s1.store@.path(s1.place(u)), y));
                }
                assert forall|u: usize, y: Path|
                    #![trigger congruent(x.2, x.1, c.path(s0.place(u)), y)]
                    u < s0.nodes@.len() && c.name(s0.proc(u)) == x.0 && congruent(
                        x.2,
                        x.1,
                        c.path(s0.place(u)),
                        y,
                    ) && w.e.paths.contains(y.steps) implies st.said().edge.contains(
                    (x.0, y, c.path(s0.place(u))),
                ) by {
                    s0.lemma_node_grow(&s2, u);
                    assert(s2.place(u) == s0.place(u));
                    assert(congruent(x.2, x.1, s2.store@.path(s2.place(u)), y));
                }
            }
            i += 1;
        }
        proof {
            lemma_monotone(w, m, s0.said());
            assert forall|p: Name, x: Path, y: Path| #[trigger]
                w.edge_by_extending_sup(m, p, x, y) implies st.said().edge.contains((p, x, y)) by {
                let (a, b) = choose|a: Path, b: Path| #[trigger]
                    m.edge.contains((p, a, b)) && congruent(a, b, x, y);
                let j = s0.lemma_edge_row((p, a, b));
                assert(s0.said().path_used(p, x));
                let u = s0.lemma_used_node(p, x);
                assert(congruent(
                    s0.edge_of(s0.edges@[j]).1,
                    s0.edge_of(s0.edges@[j]).2,
                    c.path(s0.place(u)),
                    y,
                ));
            }
            assert forall|p: Name, x: Path, y: Path| #[trigger]
                w.edge_by_extending_sub(m, p, x, y) implies st.said().edge.contains((p, x, y)) by {
                let (a, b) = choose|a: Path, b: Path| #[trigger]
                    m.edge.contains((p, a, b)) && congruent(b, a, y, x);
                let j = s0.lemma_edge_row((p, a, b));
                assert(s0.said().path_used(p, y));
                let u = s0.lemma_used_node(p, y);
                assert(congruent(
                    s0.edge_of(s0.edges@[j]).2,
                    s0.edge_of(s0.edges@[j]).1,
                    c.path(s0.place(u)),
                    x,
                ));
            }
        }
    }
}

} // verus!
