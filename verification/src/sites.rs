//! The substitutions that the callsites induce, as a relation.
use vstd::prelude::*;

use crate::access_path::{Instance, Root};
use crate::codes::{Codes, Key};
use crate::derived::eff_set;
use crate::engine::Engine;
use crate::facts::{indexed_ok, lemma_find_indexed, lemma_find_two, two_ok};
use crate::inline::{images, roots_are};
use crate::ir::Name;
use crate::marks::Marks;
use crate::roster::{keeps, lemma_maps, map_row, root_map_set};
use crate::rules::{Core, Setting};
use crate::state::State;
use crate::table::Table;
use crate::tuples::{key_at, means_maps};

verus! {

/// Every row is a tuple of `rel`.
pub open spec fn rows_are_maps(t: Seq<Seq<usize>>, c: Codes, rel: Set<(Name, Root, Root)>) -> bool {
    forall|row: Seq<usize>| #[trigger]
        t.contains(row) ==> row.len() == 7 && row[0] < c.names.len() && c.key_ok(key_at(row, 1))
            && c.key_ok(key_at(row, 4)) && rel.contains(
            (c.name(row[0]), c.root(key_at(row, 1)), c.root(key_at(row, 4))),
        )
}

/// Some row stands for the tuple.
pub open spec fn has_map(t: Seq<Seq<usize>>, c: Codes, s: Name, from: Root, to: Root) -> bool {
    exists|row: Seq<usize>| #[trigger]
        t.contains(row) && c.name(row[0]) == s && c.root(key_at(row, 1)) == from && c.root(
            key_at(row, 4),
        ) == to
}

/// Everything that callsite `s` makes of a root is there.
pub open spec fn mapped(
    t: Seq<Seq<usize>>,
    c: Codes,
    rel: Set<(Name, Root, Root)>,
    s: Name,
    from: Root,
) -> bool {
    forall|to: Root| #[trigger] rel.contains((s, from, to)) ==> has_map(t, c, s, from, to)
}

proof fn lemma_maps_grow(
    t: Seq<Seq<usize>>,
    u: Seq<Seq<usize>>,
    c: Codes,
    d: Codes,
    rel: Set<(Name, Root, Root)>,
)
    requires
        c.wf(),
        c.le(d),
        rows_are_maps(t, c, rel),
        keeps(t, u),
    ensures
        rows_are_maps(t, d, rel),
        forall|s: Name, from: Root| #[trigger]
            mapped(t, c, rel, s, from) ==> mapped(u, d, rel, s, from),
{
    c.lemma_grow(d);
    assert forall|s: Name, from: Root| #[trigger] mapped(t, c, rel, s, from) implies mapped(
        u,
        d,
        rel,
        s,
        from,
    ) by {
        assert forall|to: Root| #[trigger] rel.contains((s, from, to)) implies has_map(
            u,
            d,
            s,
            from,
            to,
        ) by {
            assert(has_map(t, c, s, from, to));
            let row = choose|row: Seq<usize>| #[trigger]
                t.contains(row) && c.name(row[0]) == s && c.root(key_at(row, 1)) == from && c.root(
                    key_at(row, 4),
                ) == to;
            assert(u.contains(row));
            assert(d.root(key_at(row, 1)) == from);
        }
    }
}

impl Engine {
    /// Add what callsite `s` makes of a root.
    fn add_images(
        &self,
        t: &mut Table,
        st: &mut State,
        marks: &Marks,
        s: usize,
        key: Key,
        Ghost(sm): Ghost<State>,
        Ghost(w): Ghost<Setting>,
        Ghost(seed): Ghost<Core>,
    )
        requires
            self.ready(*old(st), sm, *marks, w, seed),
            s < old(st).store@.names.len(),
            old(st).store@.key_ok(key),
            old(t).wf(),
            rows_are_maps(old(t)@, old(st).store@, root_map_set(w, sm.said())),
        ensures
            self.ready(*final(st), sm, *marks, w, seed),
            old(st).le(final(st)),
            old(st).same_tables(final(st)),
            final(st).said() == old(st).said(),
            final(t).wf(),
            rows_are_maps(final(t)@, final(st).store@, root_map_set(w, sm.said())),
            keeps(old(t)@, final(t)@),
            mapped(
                final(t)@,
                final(st).store@,
                root_map_set(w, sm.said()),
                old(st).store@.name(s),
                old(st).store@.root(key),
            ),
    {
        let ghost c = st.store@;
        let ghost rel = root_map_set(w, sm.said());
        let ghost from = c.root(key);
        let ghost start = t@;
        let list = self.map_root(st, marks, s, key, Ghost(sm), Ghost(w), Ghost(seed));
        let ghost d = st.store@;
        let ghost want = images(w, sm.said(), c.name(s), from);
        proof {
            lemma_maps_grow(t@, t@, c, d, rel);
            c.lemma_grow(d);
        }
        let mut z: usize = 0;
        while z < list.len()
            invariant
                z <= list@.len(),
                s < d.names.len(),
                d.key_ok(key),
                d.root(key) == from,
                want == images(w, sm.said(), d.name(s), from),
                rel == root_map_set(w, sm.said()),
                roots_are(list@, d, want),
                t.wf(),
                rows_are_maps(t@, d, rel),
                keeps(start, t@),
                forall|y: int| 0 <= y < z ==> t@.contains(map_row(s, key, #[trigger] list@[y])),
            decreases list@.len() - z,
        {
            let to: Key = list[z];
            let cells: Vec<usize> = vec![s, key.tag, key.a, key.b, to.tag, to.a, to.b];
            proof {
                assert(cells@ =~= map_row(s, key, list@[z as int]));
                assert(key_at(cells@, 1) == key);
                assert(key_at(cells@, 4) == to);
                assert(d.key_ok(list@[z as int]));
                assert(want.contains(d.root(list@[z as int])));
            }
            t.insert(cells);
            z += 1;
        }
        proof {
            assert forall|to: Root| #[trigger] rel.contains((d.name(s), from, to)) implies has_map(
                t@,
                d,
                d.name(s),
                from,
                to,
            ) by {
                assert(want.contains(to));
                let y = choose|y: int| 0 <= y < list@.len() && d.root(#[trigger] list@[y]) == to;
                let row = map_row(s, key, list@[y]);
                assert(t@.contains(row));
                assert(key_at(row, 1) == key);
                assert(key_at(row, 4) == list@[y]);
            }
        }
    }

    /// What the callsite of one row makes of the callee's formals and return.
    fn add_own(
        &self,
        t: &mut Table,
        st: &mut State,
        marks: &Marks,
        s: usize,
        p: usize,
        Ghost(sm): Ghost<State>,
        Ghost(w): Ghost<Setting>,
        Ghost(seed): Ghost<Core>,
    )
        requires
            self.ready(*old(st), sm, *marks, w, seed),
            s < old(st).store@.names.len(),
            p < old(st).store@.names.len(),
            old(t).wf(),
            rows_are_maps(old(t)@, old(st).store@, root_map_set(w, sm.said())),
        ensures
            self.ready(*final(st), sm, *marks, w, seed),
            old(st).le(final(st)),
            old(st).same_tables(final(st)),
            final(st).said() == old(st).said(),
            final(t).wf(),
            rows_are_maps(final(t)@, final(st).store@, root_map_set(w, sm.said())),
            keeps(old(t)@, final(t)@),
            ({
                let c = old(st).store@;
                let rel = root_map_set(w, sm.said());
                &&& mapped(final(t)@, final(st).store@, rel, c.name(s), Root::Ret(c.name(p)))
                &&& forall|i: usize| #[trigger]
                    mapped(final(t)@, final(st).store@, rel, c.name(s), Root::Param(c.name(p), i))
            }),
    {
        let ghost c = st.store@;
        let ghost s0 = *st;
        let ghost rel = root_map_set(w, sm.said());
        let ghost start = t@;
        let args = &self.facts.actual_arg;
        proof {
            assert forall|i: int| 0 <= i < args@.len() implies 1 < (#[trigger] args@[i]).len() by {
                assert(indexed_ok(c.names, args@[i]));
            }
        }
        let list = args.column(s, 1);
        let key = Key::ret(p);
        proof {
            assert(c.key_ok(key));
        }
        self.add_images(t, st, marks, s, key, Ghost(sm), Ghost(w), Ghost(seed));
        let mut z: usize = 0;
        proof {
            c.lemma_wf();
            c.lemma_grow(st.store@);
        }
        while z < list.len()
            invariant
                z <= list@.len(),
                self.ready(*st, sm, *marks, w, seed),
                s0.wf(),
                c == s0.store@,
                s0.le(st),
                s0.same_tables(st),
                st.said() == s0.said(),
                s < c.names.len(),
                p < c.names.len(),
                rel == root_map_set(w, sm.said()),
                t.wf(),
                rows_are_maps(t@, st.store@, rel),
                keeps(start, t@),
                mapped(t@, st.store@, rel, c.name(s), Root::Ret(c.name(p))),
                forall|y: int|
                    0 <= y < z ==> mapped(
                        t@,
                        st.store@,
                        rel,
                        c.name(s),
                        Root::Param(c.name(p), #[trigger] list@[y]),
                    ),
            decreases list@.len() - z,
        {
            let ghost t0 = t@;
            let ghost s1 = *st;
            let ghost d = st.store@;
            proof {
                c.lemma_grow(d);
            }
            let key = Key::param(p, list[z]);
            proof {
                assert(d.key_ok(key));
            }
            self.add_images(t, st, marks, s, key, Ghost(sm), Ghost(w), Ghost(seed));
            proof {
                s0.lemma_le_trans(&s1, st);
                lemma_maps_grow(t0, t@, d, st.store@, rel);
            }
            z += 1;
        }
        proof {
            let d = st.store@;
            assert forall|i: usize| #[trigger]
                mapped(t@, d, rel, c.name(s), Root::Param(c.name(p), i)) by {
                if !list@.contains(i) {
                    assert forall|to: Root| #[trigger]
                        rel.contains((c.name(s), Root::Param(c.name(p), i), to)) implies false by {
                        let a = to->Var_0;
                        assert(w.e.actual_arg.contains((c.name(s), i, a)));
                        let y = lemma_find_indexed(
                            args@,
                            c.names,
                            w.e.actual_arg,
                            (c.name(s), i, a),
                        );
                        assert(args@[y][0] == s && args@[y][1] == i);
                    }
                } else {
                    let y = choose|y: int| 0 <= y < list@.len() && list@[y] == i;
                    assert(mapped(t@, d, rel, c.name(s), Root::Param(c.name(p), list@[y])));
                }
            }
        }
    }

    /// What a callsite makes of the nodes of one placeholder.
    fn add_renamed(
        &self,
        t: &mut Table,
        st: &mut State,
        marks: &Marks,
        s: usize,
        id: usize,
        Ghost(sm): Ghost<State>,
        Ghost(w): Ghost<Setting>,
        Ghost(seed): Ghost<Core>,
    )
        requires
            self.ready(*old(st), sm, *marks, w, seed),
            s < old(st).store@.names.len(),
            id < old(st).store@.insts.len(),
            old(t).wf(),
            rows_are_maps(old(t)@, old(st).store@, root_map_set(w, sm.said())),
        ensures
            self.ready(*final(st), sm, *marks, w, seed),
            old(st).le(final(st)),
            old(st).same_tables(final(st)),
            final(st).said() == old(st).said(),
            final(t).wf(),
            rows_are_maps(final(t)@, final(st).store@, root_map_set(w, sm.said())),
            keeps(old(t)@, final(t)@),
            ({
                let c = old(st).store@;
                let rel = root_map_set(w, sm.said());
                &&& mapped(final(t)@, final(st).store@, rel, c.name(s), Root::Res(c.inst(id)))
                &&& forall|i: usize| #[trigger]
                    mapped(final(t)@, final(st).store@, rel, c.name(s), Root::Slot(c.inst(id), i))
            }),
    {
        let ghost c = st.store@;
        let ghost s0 = *st;
        let ghost rel = root_map_set(w, sm.said());
        let ghost start = t@;
        let list = self.positions(st.store.stmt(id), Ghost(c), Ghost(w));
        let key = Key::res(id);
        proof {
            assert(c.key_ok(key));
        }
        self.add_images(t, st, marks, s, key, Ghost(sm), Ghost(w), Ghost(seed));
        let mut z: usize = 0;
        proof {
            c.lemma_grow(st.store@);
        }
        while z < list.len()
            invariant
                z <= list@.len(),
                self.ready(*st, sm, *marks, w, seed),
                s0.wf(),
                c == s0.store@,
                s0.le(st),
                s0.same_tables(st),
                st.said() == s0.said(),
                s < c.names.len(),
                id < c.insts.len(),
                rel == root_map_set(w, sm.said()),
                t.wf(),
                rows_are_maps(t@, st.store@, rel),
                keeps(start, t@),
                mapped(t@, st.store@, rel, c.name(s), Root::Res(c.inst(id))),
                forall|y: int|
                    0 <= y < z ==> mapped(
                        t@,
                        st.store@,
                        rel,
                        c.name(s),
                        Root::Slot(c.inst(id), #[trigger] list@[y]),
                    ),
            decreases list@.len() - z,
        {
            let ghost t0 = t@;
            let ghost s1 = *st;
            let ghost d = st.store@;
            proof {
                c.lemma_grow(d);
            }
            let key = Key::slot(id, list[z]);
            proof {
                assert(d.key_ok(key));
            }
            self.add_images(t, st, marks, s, key, Ghost(sm), Ghost(w), Ghost(seed));
            proof {
                s0.lemma_le_trans(&s1, st);
                lemma_maps_grow(t0, t@, d, st.store@, rel);
            }
            z += 1;
        }
        proof {
            let d = st.store@;
            assert forall|i: usize| #[trigger]
                mapped(t@, d, rel, c.name(s), Root::Slot(c.inst(id), i)) by {
                if !list@.contains(i) {
                    assert(!w.e.operand(c.inst(id).stmt, i));
                } else {
                    let y = choose|y: int| 0 <= y < list@.len() && list@[y] == i;
                    assert(mapped(t@, d, rel, c.name(s), Root::Slot(c.inst(id), list@[y])));
                }
            }
        }
    }

    /// What the callsite of one row makes of the callee's placeholders.
    fn add_held(
        &self,
        t: &mut Table,
        st: &mut State,
        marks: &Marks,
        s: usize,
        p: usize,
        Ghost(sm): Ghost<State>,
        Ghost(w): Ghost<Setting>,
        Ghost(seed): Ghost<Core>,
    )
        requires
            self.ready(*old(st), sm, *marks, w, seed),
            sm.said() == old(st).said(),
            s < old(st).store@.names.len(),
            p < old(st).store@.names.len(),
            old(t).wf(),
            rows_are_maps(old(t)@, old(st).store@, root_map_set(w, sm.said())),
        ensures
            self.ready(*final(st), sm, *marks, w, seed),
            old(st).le(final(st)),
            old(st).same_tables(final(st)),
            final(st).said() == old(st).said(),
            final(t).wf(),
            rows_are_maps(final(t)@, final(st).store@, root_map_set(w, sm.said())),
            keeps(old(t)@, final(t)@),
            ({
                let c = old(st).store@;
                let rel = root_map_set(w, sm.said());
                forall|id: Instance| #[trigger]
                    sm.said().pending.contains((c.name(p), id)) ==> renamed(
                        final(t)@,
                        final(st).store@,
                        rel,
                        c.name(s),
                        id,
                    )
            }),
    {
        let ghost c = st.store@;
        let ghost s0 = *st;
        let ghost m = sm.said();
        let ghost rel = root_map_set(w, m);
        let ghost start = t@;
        let list = st.pending.heads(p);
        let mut z: usize = 0;
        while z < list.len()
            invariant
                z <= list@.len(),
                self.ready(*st, sm, *marks, w, seed),
                s0.wf(),
                c == s0.store@,
                s0.le(st),
                s0.same_tables(st),
                st.said() == s0.said(),
                s < c.names.len(),
                p < c.names.len(),
                rel == root_map_set(w, sm.said()),
                t.wf(),
                rows_are_maps(t@, st.store@, rel),
                keeps(start, t@),
                forall|y: int| 0 <= y < list@.len() ==> #[trigger] list@[y] < s0.pending@.len(),
                forall|y: int|
                    0 <= y < z ==> renamed(
                        t@,
                        st.store@,
                        rel,
                        c.name(s),
                        c.inst(s0.pending@[#[trigger] list@[y] as int][1]),
                    ),
            decreases list@.len() - z,
        {
            let ghost t0 = t@;
            let ghost s1 = *st;
            let ghost d = st.store@;
            let j: usize = list[z];
            proof {
                c.lemma_grow(d);
                assert(s0.pending@ == st.pending@);
                assert(s0.pending_ok(s0.pending@[j as int]));
            }
            let id: usize = st.pending.at(j, 1);
            self.add_renamed(t, st, marks, s, id, Ghost(sm), Ghost(w), Ghost(seed));
            proof {
                s0.lemma_le_trans(&s1, st);
                lemma_maps_grow(t0, t@, d, st.store@, rel);
                assert(d.inst(id) == c.inst(id));
                assert forall|y: int| 0 <= y < z + 1 implies renamed(
                    t@,
                    st.store@,
                    rel,
                    c.name(s),
                    c.inst(s0.pending@[#[trigger] list@[y] as int][1]),
                ) by {
                    if y < z {
                        let x = c.inst(s0.pending@[list@[y] as int][1]);
                        assert(renamed(t0, d, rel, c.name(s), x));
                        assert(mapped(t0, d, rel, c.name(s), Root::Res(x)));
                        assert forall|i: usize| #[trigger]
                            mapped(t@, st.store@, rel, c.name(s), Root::Slot(x, i)) by {
                            assert(mapped(t0, d, rel, c.name(s), Root::Slot(x, i)));
                        }
                    }
                }
            }
            z += 1;
        }
        proof {
            let d = st.store@;
            assert forall|id: Instance| #[trigger]
                m.pending.contains((c.name(p), id)) implies renamed(t@, d, rel, c.name(s), id) by {
                let j = s0.lemma_pending_row((c.name(p), id));
                let row = s0.pending@[j];
                assert(s0.pending_ok(row));
                c.lemma_name_injective(row[0], p);
                s0.pending.lemma_distinct();
                assert(list@.contains(j as usize));
                let y = choose|y: int| 0 <= y < list@.len() && list@[y] == j as usize;
                assert(renamed(t@, d, rel, c.name(s), c.inst(s0.pending@[list@[y] as int][1])));
            }
        }
    }

    /// Everything that the callsites do to roots.
    pub fn root_maps(
        &self,
        st: &mut State,
        marks: &Marks,
        Ghost(w): Ghost<Setting>,
        Ghost(seed): Ghost<Core>,
    ) -> (t: Table)
        requires
            old(st).wf(),
            self.ok(old(st).store@, w),
            marks.ok(*old(st), w),
            w.least(seed, old(st).said()),
        ensures
            final(st).wf(),
            final(st).said() == old(st).said(),
            t.wf(),
            means_maps(t@, final(st).store@, root_map_set(w, old(st).said())),
    {
        let ghost sm = *st;
        let ghost c = st.store@;
        let ghost m = sm.said();
        let ghost rel = root_map_set(w, m);
        let eff = &self.derived.eff;
        let mut t = Table::new();
        let mut i: usize = 0;
        proof {
            sm.lemma_store_grow(st);
            c.lemma_wf();
        }
        while i < eff.len()
            invariant
                i <= eff@.len(),
                eff == &self.derived.eff,
                self.ready(*st, sm, *marks, w, seed),
                c == sm.store@,
                m == sm.said(),
                st.said() == m,
                sm.same_tables(st),
                rel == root_map_set(w, m),
                t.wf(),
                rows_are_maps(t@, st.store@, rel),
                forall|j: int|
                    0 <= j < i ==> covered(
                        t@,
                        st.store@,
                        rel,
                        m,
                        c.name((#[trigger] eff@[j])[0]),
                        c.name(eff@[j][1]),
                    ),
            decreases eff@.len() - i,
        {
            let ghost t0 = t@;
            let ghost s1 = *st;
            proof {
                assert(two_ok(st.store@.names, eff@[i as int]));
                c.lemma_grow(st.store@);
            }
            let s: usize = eff.at(i, 0);
            let p: usize = eff.at(i, 1);
            self.add_own(&mut t, st, marks, s, p, Ghost(sm), Ghost(w), Ghost(seed));
            let ghost t1 = t@;
            let ghost s2 = *st;
            proof {
                s1.store@.lemma_grow(s2.store@);
                sm.lemma_le_trans(&s1, &s2);
            }
            self.add_held(&mut t, st, marks, s, p, Ghost(sm), Ghost(w), Ghost(seed));
            proof {
                let d = st.store@;
                sm.lemma_le_trans(&s2, st);
                s1.lemma_le_trans(&s2, st);
                lemma_maps_grow(t0, t@, s1.store@, d, rel);
                lemma_maps_grow(t1, t@, s2.store@, d, rel);
                let sn = c.name(s);
                let pn = c.name(p);
                assert(s1.store@.name(s) == sn && s1.store@.name(p) == pn);
                assert(s2.store@.name(s) == sn && s2.store@.name(p) == pn);
                assert(covered(t@, d, rel, m, sn, pn)) by {
                    assert(mapped(t1, s2.store@, rel, sn, Root::Ret(pn)));
                    assert forall|n: usize| #[trigger] mapped(t@, d, rel, sn,
                        Root::Param(pn, n)) by {
                        assert(mapped(t1, s2.store@, rel, sn, Root::Param(pn, n)));
                    }
                }
                assert forall|j: int| 0 <= j < i + 1 implies covered(
                    t@,
                    d,
                    rel,
                    m,
                    c.name((#[trigger] eff@[j])[0]),
                    c.name(eff@[j][1]),
                ) by {
                    if j < i {
                        lemma_covered_grow(
                            t0,
                            t@,
                            s1.store@,
                            d,
                            rel,
                            m,
                            c.name(eff@[j][0]),
                            c.name(eff@[j][1]),
                        );
                    }
                }
            }
            i += 1;
        }
        proof {
            let d = st.store@;
            c.lemma_grow(d);
            assert forall|x: (Name, Root, Root)| #[trigger] rel.contains(x) implies exists|
                row: Seq<usize>,
            | #[trigger]
                t@.contains(row) && (
                    d.name(row[0]),
                    d.root(key_at(row, 1)),
                    d.root(key_at(row, 4)),
                ) == x by {
                assert(w.root_map(m, x.0, x.1, x.2));
                let callee: Name = match x.1 {
                    Root::Param(q, _) => q,
                    Root::Ret(q) => q,
                    Root::Slot(id, _) => choose|q: Name| #[trigger]
                        w.e.eff_direct(x.0, q) && w.blocked(m, q, id),
                    Root::Res(id) => choose|q: Name| #[trigger]
                        w.e.eff_direct(x.0, q) && w.blocked(m, q, id),
                    Root::Var(q) => q,
                };
                assert(eff_set(w.e).contains((x.0, callee)));
                let j = lemma_find_two(eff@, c.names, eff_set(w.e), (x.0, callee));
                assert(covered(t@, d, rel, m, c.name(eff@[j][0]), c.name(eff@[j][1])));
                match x.1 {
                    Root::Slot(id, n) => {
                        assert(m.pending.contains((callee, id)));
                        assert(mapped(t@, d, rel, x.0, Root::Slot(id, n)));
                    },
                    Root::Res(id) => {
                        assert(m.pending.contains((callee, id)));
                        assert(mapped(t@, d, rel, x.0, Root::Res(id)));
                    },
                    _ => {
                        assert(mapped(t@, d, rel, x.0, x.1));
                    },
                }
                assert(rel.contains((x.0, x.1, x.2)));
                assert(has_map(t@, d, x.0, x.1, x.2));
            }
            lemma_maps(t@, d, rel);
        }
        t
    }
}

/// Every node of the placeholder `id` is renamed.
pub open spec fn renamed(
    t: Seq<Seq<usize>>,
    c: Codes,
    rel: Set<(Name, Root, Root)>,
    s: Name,
    id: Instance,
) -> bool {
    &&& mapped(t, c, rel, s, Root::Res(id))
    &&& forall|i: usize| #[trigger] mapped(t, c, rel, s, Root::Slot(id, i))
}

/// Every root that the callee may publish is mapped.
pub open spec fn covered(
    t: Seq<Seq<usize>>,
    c: Codes,
    rel: Set<(Name, Root, Root)>,
    m: Core,
    s: Name,
    p: Name,
) -> bool {
    &&& mapped(t, c, rel, s, Root::Ret(p))
    &&& forall|i: usize| #[trigger] mapped(t, c, rel, s, Root::Param(p, i))
    &&& forall|id: Instance| #[trigger] m.pending.contains((p, id)) ==> renamed(t, c, rel, s, id)
}

proof fn lemma_covered_grow(
    t: Seq<Seq<usize>>,
    u: Seq<Seq<usize>>,
    c: Codes,
    d: Codes,
    rel: Set<(Name, Root, Root)>,
    m: Core,
    s: Name,
    p: Name,
)
    requires
        c.wf(),
        c.le(d),
        rows_are_maps(t, c, rel),
        keeps(t, u),
        covered(t, c, rel, m, s, p),
    ensures
        covered(u, d, rel, m, s, p),
{
    lemma_maps_grow(t, u, c, d, rel);
    assert forall|i: usize| #[trigger] mapped(u, d, rel, s, Root::Param(p, i)) by {
        assert(mapped(t, c, rel, s, Root::Param(p, i)));
    }
    assert forall|id: Instance| #[trigger] m.pending.contains((p, id)) implies renamed(
        u,
        d,
        rel,
        s,
        id,
    ) by {
        assert(renamed(t, c, rel, s, id));
        assert forall|i: usize| #[trigger] mapped(u, d, rel, s, Root::Slot(id, i)) by {
            assert(mapped(t, c, rel, s, Root::Slot(id, i)));
        }
    }
}

} // verus!
