//! The rules about placeholders themselves: passing them on, and deciding an
//! access through a variable index.
use vstd::prelude::*;

use crate::access_path::{Instance, Path, Step, Value};
use crate::codes::{flat_ok, flat_steps, step_of, step_ok, Key};
use crate::derived::site_set;
use crate::engine::Engine;
use crate::facts::{lemma_find_three, three_ok, three_row};
use crate::ir::Name;
use crate::marks::Marks;
use crate::rules::{lemma_monotone, Core, Setting};
use crate::state::State;

verus! {

impl Engine {
    /// Blocked placeholders move into the callers.
    pub fn fire_propagation(
        &self,
        st: &mut State,
        marks: &Marks,
        Ghost(sm): Ghost<State>,
        Ghost(w): Ghost<Setting>,
        Ghost(seed): Ghost<Core>,
    )
        requires
            self.ready(*old(st), sm, *marks, w, seed),
        ensures
            self.ready(*final(st), sm, *marks, w, seed),
            old(st).le(final(st)),
            forall|p: Name, id: Instance| #[trigger]
                w.pending_by_call(sm.said(), p, id) ==> final(st).said().pending.contains((p, id)),
    {
        let ghost s0 = *st;
        let ghost c = st.store@;
        let ghost m = sm.said();
        let ghost t = self.derived.sites@;
        proof {
            self.lemma_ready(s0, s0, sm, *marks, w, seed);
        }
        let n: usize = marks.blocked.len();
        let mut i: usize = 0;
        while i < n
            invariant
                i <= n,
                n == marks.blocked@.len(),
                self.ready(*st, sm, *marks, w, seed),
                self.ready(s0, sm, *marks, w, seed),
                s0.le(st),
                c == s0.store@,
                m == sm.said(),
                t == self.derived.sites@,
                forall|a: int, y: int|
                    #![trigger sm.pending@[a], t[y]]
                    0 <= a < i && 0 <= y < t.len() && t[y][0] == sm.pending@[a][0]
                        && w.blocked(m, sm.pending_of(sm.pending@[a]).0,
                            sm.pending_of(sm.pending@[a]).1)
                        && sm.pending_of(sm.pending@[a]).1.depth() < w.k
                        ==> st.said().pending.contains(
                        (
                            c.names[t[y][2] as int],
                            sm.pending_of(sm.pending@[a]).1.push(c.names[t[y][1] as int]),
                        ),
                    ),
            decreases n - i,
        {
            let ghost row = sm.pending@[i as int];
            let ghost x = sm.pending_of(row);
            let ghost s1 = *st;
            proof {
                assert(sm.pending_ok(row));
                assert(st.pending@[i as int] == row);
                sm.store@.lemma_grow(st.store@);
                self.lemma_ready(s1, s1, sm, *marks, w, seed);
            }
            let p: usize = st.pending.at(i, 0);
            let id: usize = st.pending.at(i, 1);
            if marks.blocked[i] && st.store.depth(id) < self.k {
                let list = self.derived.sites.heads(p);
                let mut j: usize = 0;
                while j < list.len()
                    invariant
                        i < n,
                        n == marks.blocked@.len(),
                        j <= list@.len(),
                        self.ready(*st, sm, *marks, w, seed),
                        self.ready(s0, sm, *marks, w, seed),
                        self.ready(s1, sm, *marks, w, seed),
                        s0.le(st),
                        s1.le(st),
                        c == s0.store@,
                        m == sm.said(),
                        t == self.derived.sites@,
                        row == sm.pending@[i as int],
                        x == sm.pending_of(row),
                        sm.pending_ok(row),
                        p == row[0],
                        id == row[1],
                        w.blocked(m, x.0, x.1),
                        x.1.depth() < w.k,
                        forall|z: int|
                            0 <= z < list@.len() ==> (#[trigger] list@[z]) < t.len()
                                && t[list@[z] as int][0] == p,
                        forall|z: int|
                            0 <= z < j ==> st.said().pending.contains(
                                (
                                    c.names[t[#[trigger] list@[z] as int][2] as int],
                                    x.1.push(c.names[t[list@[z] as int][1] as int]),
                                ),
                            ),
                    decreases list@.len() - j,
                {
                    let y: usize = list[j];
                    let ghost site = three_row(c.names, t[y as int]);
                    proof {
                        assert(three_ok(c.names, t[y as int]));
                        assert(site_set(w.e).contains(site));
                        sm.store@.lemma_grow(st.store@);
                    }
                    let s: usize = self.derived.sites.at(y, 1);
                    let q: usize = self.derived.sites.at(y, 2);
                    let ghost s2 = *st;
                    let id2: usize = st.store.push(id, s);
                    let ghost s3 = *st;
                    proof {
                        s2.lemma_store_grow(&s3);
                        self.lemma_ready(s2, s3, sm, *marks, w, seed);
                        s0.lemma_le_trans(&s2, &s3);
                        s1.lemma_le_trans(&s2, &s3);
                        lemma_monotone(w, m, st.said());
                        assert(w.blocked(st.said(), site.0, x.1));
                        assert(w.pending_by_call(st.said(), site.2, st.store@.inst(id2)));
                        assert(w.pending_from(st.said(), site.2, st.store@.inst(id2)));
                    }
                    st.derive_pending(q, id2, Ghost(w), Ghost(seed));
                    proof {
                        self.lemma_ready(s3, *st, sm, *marks, w, seed);
                        s0.lemma_le_trans(&s3, st);
                        s1.lemma_le_trans(&s3, st);
                    }
                    j += 1;
                }
                proof {
                    self.derived.sites.lemma_distinct();
                    assert forall|y: int| 0 <= y < t.len() && (#[trigger] t[y])[0] == p
                        implies st.said().pending.contains(
                    (c.names[t[y][2] as int], x.1.push(c.names[t[y][1] as int]))) by {
                        assert(three_ok(c.names, t[y]));
                        assert(list@.contains(y as usize));
                        let z = choose|z: int| 0 <= z < list@.len() && list@[z] == y as usize;
                        assert(t[list@[z] as int] == t[y]);
                    }
                }
            }
            proof {
                s1.lemma_grow(st);
            }
            i += 1;
        }
        proof {
            assert forall|p: Name, id: Instance| #[trigger]
                w.pending_by_call(m, p, id) implies st.said().pending.contains((p, id)) by {
                let (s, callee, id0) = choose|s: Name, callee: Name, id0: Instance|
                    {
                        &&& #[trigger] w.e.eff_direct(s, callee)
                        &&& w.e.stands_in(s, p)
                        &&& #[trigger] w.blocked(m, callee, id0)
                        &&& id0.depth() < w.k
                        &&& id == id0.push(s)
                    };
                let a = sm.lemma_pending_row((callee, id0));
                assert(site_set(w.e).contains((callee, s, p)));
                let y = lemma_find_three(t, c.names, site_set(w.e), (callee, s, p));
                c.lemma_wf();
                assert(t[y][0] == sm.pending@[a][0]) by {
                    c.lemma_name_injective(t[y][0], sm.pending@[a][0]);
                }
                assert(st.said().pending.contains(
                    (
                        c.names[t[y][2] as int],
                        sm.pending_of(sm.pending@[a]).1.push(c.names[t[y][1] as int]),
                    ),
                ));
            }
        }
    }

    /// A resolved callee's placeholders are renamed into the holder.
    pub fn fire_nesting(
        &self,
        st: &mut State,
        marks: &Marks,
        Ghost(sm): Ghost<State>,
        Ghost(w): Ghost<Setting>,
        Ghost(seed): Ghost<Core>,
    )
        requires
            self.ready(*old(st), sm, *marks, w, seed),
        ensures
            self.ready(*final(st), sm, *marks, w, seed),
            old(st).le(final(st)),
            forall|p: Name, id: Instance| #[trigger]
                w.pending_by_dispatch(sm.said(), p, id) ==> final(st).said().pending.contains(
                    (p, id),
                ),
    {
        let ghost s0 = *st;
        let ghost c = st.store@;
        let ghost m = sm.said();
        let ghost t = marks.resolves@;
        proof {
            self.lemma_ready(s0, s0, sm, *marks, w, seed);
            sm.store@.lemma_grow(c);
        }
        let mut i: usize = 0;
        while i < marks.resolves.len()
            invariant
                i <= t.len(),
                t == marks.resolves@,
                self.ready(*st, sm, *marks, w, seed),
                self.ready(s0, sm, *marks, w, seed),
                s0.le(st),
                c == s0.store@,
                m == sm.said(),
                forall|y: int, a: int|
                    #![trigger t[y], sm.pending@[a]]
                    0 <= y < i && 0 <= a < sm.pending@.len() && t[y][0] == sm.pending@[a][0]
                        && sm.pending_of(sm.pending@[a]).1.nest(c.inst(t[y][2])).depth() <= w.k
                        ==> st.said().pending.contains(
                        (
                            c.names[t[y][1] as int],
                            sm.pending_of(sm.pending@[a]).1.nest(c.inst(t[y][2])),
                        ),
                    ),
            decreases t.len() - i,
        {
            let ghost row = t[i as int];
            let ghost s1 = *st;
            proof {
                sm.store@.lemma_grow(c);
                c.lemma_grow(st.store@);
                self.lemma_ready(s1, s1, sm, *marks, w, seed);
                assert(w.resolve(m, c.name(row[1]), c.inst(row[2]), c.name(row[0])));
            }
            let callee: usize = marks.resolves.at(i, 0);
            let p: usize = marks.resolves.at(i, 1);
            let outer: usize = marks.resolves.at(i, 2);
            let outer_depth: usize = st.store.depth(outer);
            if outer_depth < self.k {
                let room: usize = self.k - outer_depth - 1;
                let list = st.pending.heads(callee);
                let mut j: usize = 0;
                while j < list.len()
                    invariant
                        i < t.len(),
                        t == marks.resolves@,
                        j <= list@.len(),
                        self.ready(*st, sm, *marks, w, seed),
                        self.ready(s0, sm, *marks, w, seed),
                        self.ready(s1, sm, *marks, w, seed),
                        s0.le(st),
                        s1.le(st),
                        s0.le(&s1),
                        c == s0.store@,
                        m == sm.said(),
                        row == t[i as int],
                        row.len() == 3,
                        callee == row[0],
                        p == row[1],
                        outer == row[2],
                        callee < c.names.len(),
                        p < c.names.len(),
                        outer < c.insts.len(),
                        w.resolve(m, c.name(p), c.inst(outer), c.name(callee)),
                        outer_depth == c.inst(outer).depth(),
                        outer_depth < self.k,
                        room == self.k - outer_depth - 1,
                        forall|z: int|
                            0 <= z < list@.len() ==> (#[trigger] list@[z]) < s1.pending@.len()
                                && s1.pending@[list@[z] as int][0] == callee,
                        forall|z: int|
                            0 <= z < j && s1.pending_of(
                                s1.pending@[#[trigger] list@[z] as int],
                            ).1.nest(c.inst(outer)).depth() <= w.k ==> st.said().pending.contains(
                                (
                                    c.names[p as int],
                                    s1.pending_of(s1.pending@[list@[z] as int]).1.nest(
                                        c.inst(outer),
                                    ),
                                ),
                            ),
                    decreases list@.len() - j,
                {
                    let y: usize = list[j];
                    let ghost prow = s1.pending@[y as int];
                    let ghost s2 = *st;
                    proof {
                        assert(s1.pending_ok(prow));
                        assert(st.pending@[y as int] == prow);
                        s1.store@.lemma_grow(st.store@);
                        c.lemma_grow(st.store@);
                        c.lemma_grow(s1.store@);
                        assert(st.pending@.contains(prow));
                        st.lemma_row_pending(prow);
                        self.lemma_ready(s2, s2, sm, *marks, w, seed);
                    }
                    let id2: usize = st.pending.at(y, 1);
                    let ghost inner = s1.store@.inst(id2);
                    if st.store.depth(id2) <= room {
                        let id3: usize = st.store.nest(id2, outer);
                        let ghost s3 = *st;
                        proof {
                            s2.lemma_store_grow(&s3);
                            self.lemma_ready(s2, s3, sm, *marks, w, seed);
                            s0.lemma_le_trans(&s2, &s3);
                            s1.lemma_le_trans(&s2, &s3);
                            lemma_monotone(w, m, st.said());
                            let nested = st.store@.inst(id3);
                            assert(nested == inner.nest(c.inst(outer)));
                            assert(st.said().pending.contains((c.name(callee), inner)));
                            assert(w.resolve(st.said(), c.name(p), c.inst(outer), c.name(callee)));
                            assert(w.pending_by_dispatch(st.said(), c.name(p), nested));
                            assert(w.pending_from(st.said(), c.name(p), nested));
                        }
                        st.derive_pending(p, id3, Ghost(w), Ghost(seed));
                        proof {
                            self.lemma_ready(s3, *st, sm, *marks, w, seed);
                            s0.lemma_le_trans(&s3, st);
                            s1.lemma_le_trans(&s3, st);
                        }
                    }
                    j += 1;
                }
                proof {
                    s1.pending.lemma_distinct();
                    sm.store@.lemma_grow(s1.store@);
                    sm.lemma_grow(&s1);
                    assert forall|a: int|
                        0 <= a < sm.pending@.len() && (#[trigger] sm.pending@[a])[0] == callee
                            && sm.pending_of(sm.pending@[a]).1.nest(c.inst(outer)).depth()
                            <= w.k implies st.said().pending.contains(
                        (
                            c.names[p as int],
                            sm.pending_of(sm.pending@[a]).1.nest(c.inst(outer)),
                        ),
                    ) by {
                        assert(sm.pending_ok(sm.pending@[a]));
                        assert(s1.pending@[a] == sm.pending@[a]);
                        assert(list@.contains(a as usize));
                        let z = choose|z: int| 0 <= z < list@.len() && list@[z] == a as usize;
                        assert(s1.pending@[list@[z] as int] == sm.pending@[a]);
                    }
                }
            }
            proof {
                s1.lemma_grow(st);
            }
            i += 1;
        }
        proof {
            assert forall|p: Name, id: Instance| #[trigger]
                w.pending_by_dispatch(m, p, id) implies st.said().pending.contains((p, id)) by {
                let (id0, callee, id2) = choose|id0: Instance, callee: Name, id2: Instance|
                    {
                        &&& #[trigger] w.resolve(m, p, id0, callee)
                        &&& #[trigger] m.pending.contains((callee, id2))
                        &&& id2.nest(id0).depth() <= w.k
                        &&& id == id2.nest(id0)
                    };
                let a = sm.lemma_pending_row((callee, id2));
                let y = choose|y: int|
                    0 <= y < t.len() && sm.store@.name((#[trigger] t[y])[1]) == p && sm.store@.inst(
                        t[y][2],
                    ) == id0 && sm.store@.name(t[y][0]) == callee;
                sm.store@.lemma_grow(c);
                c.lemma_name_injective(t[y][0], sm.pending@[a][0]);
                assert(c.inst(t[y][2]) == id0);
                assert(st.said().pending.contains(
                    (
                        c.names[t[y][1] as int],
                        sm.pending_of(sm.pending@[a]).1.nest(c.inst(t[y][2])),
                    ),
                ));
            }
        }
    }

    /// What the base operand of an access may stand for, as paths.
    fn bases(&self, st: &State, p: usize, id: usize, Ghost(w): Ghost<Setting>) -> (r: Vec<usize>)
        requires
            st.tables_ok(),
            p < st.store@.names.len(),
            id < st.store@.insts.len(),
        ensures
            forall|j: int|
                0 <= j < r@.len() ==> (#[trigger] r@[j]) < st.store@.paths.len() && w.base_of(
                    st.said(),
                    st.store@.name(p),
                    st.store@.inst(id),
                    st.store@.path(r@[j]),
                ),
            forall|x: Path| #[trigger]
                w.base_of(st.said(), st.store@.name(p), st.store@.inst(id), x) ==> exists|j: int|
                    0 <= j < r@.len() && st.store@.path(#[trigger] r@[j]) == x,
    {
        let ghost c = st.store@;
        let ghost m = st.said();
        let ghost pn = c.name(p);
        let ghost inst = c.inst(id);
        let ghost lhs = Path::slot(inst, 0);
        let mut r: Vec<usize> = Vec::new();
        match self.slot_node(st, p, id, 0) {
            None => {
                proof {
                    assert forall|x: Path| #[trigger] w.base_of(m, pn, inst, x) implies false by {
                        if m.edge.contains((pn, lhs, x)) {
                            let j = st.lemma_edge_row((pn, lhs, x));
                            let n = st.edges@[j][0];
                            assert(c.name(st.proc(n)) == pn);
                        } else {
                            let j = st.lemma_point_row((pn, lhs, Value::Path(x)));
                            let n = st.points@[j][0];
                            assert(c.name(st.proc(n)) == pn);
                        }
                    }
                }
                r
            },
            Some(n) => {
                let list = st.edges.heads(n);
                let mut j: usize = 0;
                while j < list.len()
                    invariant
                        j <= list@.len(),
                        st.tables_ok(),
                        c == st.store@,
                        m == st.said(),
                        n < st.nodes@.len(),
                        c.name(st.proc(n)) == pn,
                        c.path(st.place(n)) == lhs,
                        lhs == Path::slot(inst, 0),
                        r@.len() == j,
                        forall|z: int|
                            0 <= z < list@.len() ==> (#[trigger] list@[z]) < st.edges@.len()
                                && st.edges@[list@[z] as int][0] == n,
                        forall|z: int|
                            0 <= z < r@.len() ==> (#[trigger] r@[z]) < c.paths.len() && w.base_of(
                                m,
                                pn,
                                inst,
                                c.path(r@[z]),
                            ),
                        forall|z: int|
                            0 <= z < j ==> r@[z] == st.place(
                                st.edges@[#[trigger] list@[z] as int][1],
                            ),
                    decreases list@.len() - j,
                {
                    let y: usize = list[j];
                    let ghost row = st.edges@[y as int];
                    proof {
                        assert(st.edge_ok(row));
                        assert(st.node_ok(st.nodes@[row[1] as int]));
                        assert(st.edges@.contains(row));
                        st.lemma_row_edge(row);
                    }
                    let b: usize = st.edges.at(y, 1);
                    r.push(st.nodes.at(b, 1));
                    j += 1;
                }
                let ghost r0 = r@;
                let plist = st.points.heads(n);
                let mut i: usize = 0;
                while i < plist.len()
                    invariant
                        i <= plist@.len(),
                        st.tables_ok(),
                        c == st.store@,
                        m == st.said(),
                        n < st.nodes@.len(),
                        c.name(st.proc(n)) == pn,
                        c.path(st.place(n)) == lhs,
                        lhs == Path::slot(inst, 0),
                        r0.len() <= r@.len(),
                        forall|z: int| 0 <= z < r0.len() ==> #[trigger] r@[z] == r0[z],
                        forall|z: int|
                            0 <= z < plist@.len() ==> (#[trigger] plist@[z]) < st.points@.len()
                                && st.points@[plist@[z] as int][0] == n,
                        forall|z: int|
                            0 <= z < r@.len() ==> (#[trigger] r@[z]) < c.paths.len() && w.base_of(
                                m,
                                pn,
                                inst,
                                c.path(r@[z]),
                            ),
                        forall|z: int|
                            0 <= z < i && st.points@[#[trigger] plist@[z] as int][1] == 0
                                ==> r@.contains(st.points@[plist@[z] as int][2]),
                    decreases plist@.len() - i,
                {
                    let y: usize = plist[i];
                    let ghost row = st.points@[y as int];
                    proof {
                        assert(st.point_ok(row));
                        assert(st.points@.contains(row));
                        st.lemma_row_point(row);
                    }
                    if st.points.at(y, 1) == 0 {
                        let x: usize = st.points.at(y, 2);
                        let ghost before = r@;
                        r.push(x);
                        proof {
                            c.lemma_value_path(x);
                            assert(r@[before.len() as int] == x);
                            assert forall|z: int|
                                0 <= z < i + 1 && st.points@[#[trigger] plist@[z] as int][1]
                                    == 0 implies r@.contains(st.points@[plist@[z] as int][2]) by {
                                if z < i {
                                    let q = choose|q: int|
                                        0 <= q < before.len() && before[q]
                                            == st.points@[plist@[z] as int][2];
                                    assert(r@[q] == before[q]);
                                }
                            }
                        }
                    }
                    i += 1;
                }
                proof {
                    assert forall|x: Path| #[trigger] w.base_of(m, pn, inst, x)
                        implies exists|j: int|
                        0 <= j < r@.len() && c.path(#[trigger] r@[j]) == x by {
                        if m.edge.contains((pn, lhs, x)) {
                            let y = st.lemma_edge_row((pn, lhs, x));
                            st.lemma_node_injective(st.edges@[y][0], n);
                            st.edges.lemma_distinct();
                            assert(list@.contains(y as usize));
                            let z = choose|z: int| 0 <= z < list@.len() && list@[z] == y as usize;
                            assert(r0[z] == st.place(st.edges@[list@[z] as int][1]));
                            assert(c.path(r@[z]) == x);
                        } else {
                            let y = st.lemma_point_row((pn, lhs, Value::Path(x)));
                            let row = st.points@[y];
                            st.lemma_node_injective(row[0], n);
                            st.points.lemma_distinct();
                            assert(plist@.contains(y as usize));
                            let z = choose|z: int| 0 <= z < plist@.len() && plist@[z] == y as usize;
                            if row[1] == 0 {
                                c.lemma_value_path(row[2]);
                            } else {
                                c.lemma_value_other(row[1], row[2]);
                            }
                            assert(st.points@[plist@[z] as int][1] == 0);
                            assert(r@.contains(row[2]));
                            let q = choose|q: int| 0 <= q < r@.len() && r@[q] == row[2];
                            assert(c.path(r@[q]) == x);
                        }
                    }
                }
                r
            },
        }
    }

    /// One decided access.
    fn decide_one(
        &self,
        st: &mut State,
        marks: &Marks,
        i: usize,
        Ghost(sm): Ghost<State>,
        Ghost(w): Ghost<Setting>,
        Ghost(seed): Ghost<Core>,
    )
        requires
            self.ready(*old(st), sm, *marks, w, seed),
            i < marks.accs@.len(),
        ensures
            self.ready(*final(st), sm, *marks, w, seed),
            old(st).le(final(st)),
            access_done(
                final(st).said(),
                w,
                sm.said(),
                old(st).store@.name(marks.accs@[i as int][0]),
                old(st).store@.inst(marks.accs@[i as int][1]),
                step_of(
                    old(st).store@.names,
                    marks.accs@[i as int][2],
                    marks.accs@[i as int][3],
                ),
            ),
    {
        let ghost s0 = *st;
        let ghost c = st.store@;
        let ghost m = sm.said();
        let ghost row = marks.accs@[i as int];
        proof {
            self.lemma_ready(s0, s0, sm, *marks, w, seed);
            sm.store@.lemma_grow(c);
            lemma_monotone(w, m, st.said());
        }
        let p: usize = marks.accs.at(i, 0);
        let id: usize = marks.accs.at(i, 1);
        let tag: usize = marks.accs.at(i, 2);
        let name: usize = marks.accs.at(i, 3);
        let ghost pn = c.name(p);
        let ghost inst = c.inst(id);
        let ghost acc = step_of(c.names, tag, name);
        let f: Vec<usize> = vec![tag, name];
        proof {
            assert(w.index_acc(m, pn, inst, acc));
            assert forall|j: int| 0 <= 2 * j < f@.len() implies #[trigger] step_ok(
                c.names,
                f@[2 * j],
                f@[2 * j + 1],
            ) by {
                assert(j == 0);
            }
            assert(flat_ok(c.names, f@));
            assert(flat_steps(c.names, f@) =~= seq![acc]);
        }
        let s: usize = st.store.stmt(id);
        let load = self.is_load(s, Ghost(c), Ghost(w));
        let stores = self.is_store(s, Ghost(c), Ghost(w));
        let list = self.bases(st, p, id, Ghost(w));
        let key_res = Key::res(id);
        let key_slot = Key::slot(id, 2);
        proof {
            assert(c.key_ok(key_res));
            assert(c.key_ok(key_slot));
        }
        let res: usize = st.store.bare(key_res);
        let ghost d1 = st.store@;
        proof {
            c.lemma_grow(d1);
            assert(d1.key_ok(key_slot));
        }
        let slot: usize = st.store.bare(key_slot);
        let ghost s1 = *st;
        proof {
            let d = st.store@;
            c.lemma_le_trans(d1, d);
            d1.lemma_grow(d);
            s0.lemma_store_grow(&s1);
            self.lemma_ready(s0, s1, sm, *marks, w, seed);
            assert(d.path(res) == Path::res(inst));
            assert(d.path(slot) == Path::slot(inst, 2));
        }
        let mut j: usize = 0;
        while j < list.len()
            invariant
                j <= list@.len(),
                self.ready(*st, sm, *marks, w, seed),
                self.ready(s0, sm, *marks, w, seed),
                self.ready(s1, sm, *marks, w, seed),
                s0.le(st),
                s1.le(st),
                c == s0.store@,
                m == sm.said(),
                p < c.names.len(),
                id < c.insts.len(),
                pn == c.name(p),
                inst == c.inst(id),
                load == w.e.load_stmt(inst.stmt),
                stores == w.e.store_stmt(inst.stmt),
                flat_ok(c.names, f@),
                flat_steps(c.names, f@) == seq![acc],
                w.index_acc(m, pn, inst, acc),
                res < s1.store@.paths.len(),
                slot < s1.store@.paths.len(),
                s1.store@.path(res) == Path::res(inst),
                s1.store@.path(slot) == Path::slot(inst, 2),
                forall|z: int|
                    0 <= z < list@.len() ==> (#[trigger] list@[z]) < c.paths.len() && w.base_of(
                        s0.said(),
                        pn,
                        inst,
                        c.path(list@[z]),
                    ),
                forall|z: int|
                    0 <= z < j && w.e.paths.contains(
                        c.path(#[trigger] list@[z]).then_step(acc).steps,
                    ) ==> (load ==> st.said().edge.contains(
                        (pn, Path::res(inst), c.path(list@[z]).then_step(acc)),
                    )) && (stores ==> st.said().edge.contains(
                        (pn, c.path(list@[z]).then_step(acc), Path::slot(inst, 2)),
                    )),
            decreases list@.len() - j,
        {
            let x: usize = list[j];
            let ghost base = c.path(x);
            let ghost s2 = *st;
            proof {
                c.lemma_grow(st.store@);
                assert(w.base_of(s0.said(), pn, inst, c.path(list@[j as int])));
            }
            let extended = self.extend(st, x, f.as_slice(), Ghost(w));
            let ghost s3 = *st;
            proof {
                self.lemma_ready(s2, s3, sm, *marks, w, seed);
                s0.lemma_le_trans(&s2, &s3);
                s1.lemma_le_trans(&s2, &s3);
                s1.store@.lemma_grow(st.store@);
                assert(base.steps + seq![acc] =~= base.steps.push(acc));
                s0.lemma_grow(&s3);
                lemma_monotone(w, m, s3.said());
                lemma_monotone(w, s0.said(), s3.said());
            }
            match extended {
                None => {},
                Some(y) => {
                    proof {
                        assert(st.store@.path(y) == base.then_step(acc));
                        assert(w.base_of(st.said(), pn, inst, base));
                        assert(w.index_acc(st.said(), pn, inst, acc));
                    }
                    if load {
                        proof {
                            assert(w.edge_by_load(
                                st.said(),
                                pn,
                                Path::res(inst),
                                base.then_step(acc),
                            ));
                            assert(w.edge_from(
                                st.said(),
                                pn,
                                Path::res(inst),
                                base.then_step(acc),
                            ));
                        }
                        st.derive_edge(p, res, y, Ghost(w), Ghost(seed));
                        proof {
                            self.lemma_ready(s3, *st, sm, *marks, w, seed);
                            s0.lemma_le_trans(&s3, st);
                            s1.lemma_le_trans(&s3, st);
                        }
                    }
                    let ghost s4 = *st;
                    if stores {
                        proof {
                            self.lemma_ready(s4, s4, sm, *marks, w, seed);
                            self.lemma_ready(s3, s4, sm, *marks, w, seed);
                            lemma_monotone(w, s3.said(), st.said());
                            assert(w.edge_by_store(
                                st.said(),
                                pn,
                                base.then_step(acc),
                                Path::slot(inst, 2),
                            ));
                            assert(w.edge_from(
                                st.said(),
                                pn,
                                base.then_step(acc),
                                Path::slot(inst, 2),
                            ));
                        }
                        st.derive_edge(p, y, slot, Ghost(w), Ghost(seed));
                        proof {
                            self.lemma_ready(s4, *st, sm, *marks, w, seed);
                            s0.lemma_le_trans(&s4, st);
                            s1.lemma_le_trans(&s4, st);
                        }
                    }
                },
            }
            j += 1;
        }
        proof {
            assert forall|x: Path| #[trigger] w.base_of(m, pn, inst, x) && w.e.paths.contains(
                x.then_step(acc).steps,
            ) implies (w.e.load_stmt(inst.stmt) ==> st.said().edge.contains(
                (pn, Path::res(inst), x.then_step(acc)),
            )) && (w.e.store_stmt(inst.stmt) ==> st.said().edge.contains(
                (pn, x.then_step(acc), Path::slot(inst, 2)),
            )) by {
                lemma_monotone(w, m, s0.said());
                assert(w.base_of(s0.said(), pn, inst, x));
                let z = choose|z: int| 0 <= z < list@.len() && c.path(#[trigger] list@[z]) == x;
                assert(c.path(list@[z]) == x);
            }
        }
    }

    /// Decided accesses read and write the extended base.
    pub fn fire_accesses(
        &self,
        st: &mut State,
        marks: &Marks,
        Ghost(sm): Ghost<State>,
        Ghost(w): Ghost<Setting>,
        Ghost(seed): Ghost<Core>,
    )
        requires
            self.ready(*old(st), sm, *marks, w, seed),
        ensures
            self.ready(*final(st), sm, *marks, w, seed),
            old(st).le(final(st)),
            forall|p: Name, x: Path, y: Path| #[trigger]
                w.edge_by_load(sm.said(), p, x, y) ==> final(st).said().edge.contains((p, x, y)),
            forall|p: Name, x: Path, y: Path| #[trigger]
                w.edge_by_store(sm.said(), p, x, y) ==> final(st).said().edge.contains((p, x, y)),
    {
        let ghost s0 = *st;
        let ghost c = st.store@;
        let ghost m = sm.said();
        let ghost t = marks.accs@;
        proof {
            self.lemma_ready(s0, s0, sm, *marks, w, seed);
            sm.store@.lemma_grow(c);
        }
        let mut i: usize = 0;
        while i < marks.accs.len()
            invariant
                i <= t.len(),
                t == marks.accs@,
                self.ready(*st, sm, *marks, w, seed),
                self.ready(s0, sm, *marks, w, seed),
                s0.le(st),
                c == s0.store@,
                m == sm.said(),
                forall|y: int|
                    0 <= y < i ==> access_done(
                        st.said(),
                        w,
                        m,
                        c.name((#[trigger] t[y])[0]),
                        c.inst(t[y][1]),
                        step_of(c.names, t[y][2], t[y][3]),
                    ),
            decreases t.len() - i,
        {
            let ghost s1 = *st;
            proof {
                sm.store@.lemma_grow(c);
                c.lemma_grow(st.store@);
                assert(t[i as int].len() == 4);
            }
            self.decide_one(st, marks, i, Ghost(sm), Ghost(w), Ghost(seed));
            proof {
                self.lemma_ready(s1, *st, sm, *marks, w, seed);
                s0.lemma_le_trans(&s1, st);
                assert forall|y: int| 0 <= y < i + 1 implies access_done(
                    st.said(),
                    w,
                    m,
                    c.name((#[trigger] t[y])[0]),
                    c.inst(t[y][1]),
                    step_of(c.names, t[y][2], t[y][3]),
                ) by {
                    if y < i {
                        lemma_access_done_grow(
                            s1.said(),
                            st.said(),
                            w,
                            m,
                            c.name(t[y][0]),
                            c.inst(t[y][1]),
                            step_of(c.names, t[y][2], t[y][3]),
                        );
                    }
                }
            }
            i += 1;
        }
        proof {
            assert forall|p: Name, x: Path, y: Path| #[trigger]
                w.edge_by_load(m, p, x, y) implies st.said().edge.contains((p, x, y)) by {
                let (id, acc, base) = choose|id: Instance, acc: Step, base: Path|
                    {
                        &&& #[trigger] w.index_acc(m, p, id, acc)
                        &&& w.e.load_stmt(id.stmt)
                        &&& #[trigger] w.base_of(m, p, id, base)
                        &&& x == Path::res(id)
                        &&& y == base.then_step(acc)
                    };
                let z = choose|z: int|
                    0 <= z < t.len() && sm.store@.name((#[trigger] t[z])[0]) == p && sm.store@.inst(
                        t[z][1],
                    ) == id && step_of(sm.store@.names, t[z][2], t[z][3]) == acc;
                assert(access_done(
                    st.said(),
                    w,
                    m,
                    c.name(t[z][0]),
                    c.inst(t[z][1]),
                    step_of(c.names, t[z][2], t[z][3]),
                ));
            }
            assert forall|p: Name, x: Path, y: Path| #[trigger]
                w.edge_by_store(m, p, x, y) implies st.said().edge.contains((p, x, y)) by {
                let (id, acc, base) = choose|id: Instance, acc: Step, base: Path|
                    {
                        &&& #[trigger] w.index_acc(m, p, id, acc)
                        &&& w.e.store_stmt(id.stmt)
                        &&& #[trigger] w.base_of(m, p, id, base)
                        &&& x == base.then_step(acc)
                        &&& y == Path::slot(id, 2)
                    };
                let z = choose|z: int|
                    0 <= z < t.len() && sm.store@.name((#[trigger] t[z])[0]) == p && sm.store@.inst(
                        t[z][1],
                    ) == id && step_of(sm.store@.names, t[z][2], t[z][3]) == acc;
                assert(access_done(
                    st.said(),
                    w,
                    m,
                    c.name(t[z][0]),
                    c.inst(t[z][1]),
                    step_of(c.names, t[z][2], t[z][3]),
                ));
            }
        }
    }
}

/// Everything that deciding an access to `acc` gives is in `said`.
pub open spec fn access_done(
    said: Core,
    w: Setting,
    m: Core,
    p: Name,
    id: Instance,
    acc: Step,
) -> bool {
    forall|x: Path| #[trigger]
        w.base_of(m, p, id, x) && w.e.paths.contains(x.then_step(acc).steps) ==> (w.e.load_stmt(
            id.stmt,
        ) ==> said.edge.contains((p, Path::res(id), x.then_step(acc)))) && (w.e.store_stmt(id.stmt)
            ==> said.edge.contains((p, x.then_step(acc), Path::slot(id, 2))))
}

proof fn lemma_access_done_grow(
    a: Core,
    b: Core,
    w: Setting,
    m: Core,
    p: Name,
    id: Instance,
    acc: Step,
)
    requires
        a.le(b),
        access_done(a, w, m, p, id, acc),
    ensures
        access_done(b, w, m, p, id, acc),
{
}

} // verus!
