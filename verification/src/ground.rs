//! The rules that need nothing but the facts: what each statement says by itself,
//! formals and returns, and where critical statements originate.
use vstd::prelude::*;

use crate::access_path::{Instance, Path, Step, Value};
use crate::codes::{flat_ok, flat_steps, step_of, step_ok, Codes, Key};
use crate::derived::critical_set;
use crate::engine::Engine;
use crate::facts::{
    four_ok, four_row, homes, indexed_ok, indexed_row, lemma_find_four, lemma_find_indexed,
    lemma_find_one, lemma_find_three, lemma_find_two, lemma_has_one, one_ok, one_row, three_ok,
    three_row, two_ok, two_row,
};
use crate::ir::{ArgIdx, Name};
use crate::rules::{Core, Setting};
use crate::state::State;

verus! {

/// Everything that the facts derive by themselves is in `m`.
pub open spec fn grounded(w: Setting, m: Core) -> bool {
    &&& forall|p: Name, x: Path, y: Path| #[trigger]
        w.edge_by_statement(p, x, y) ==> m.edge.contains((p, x, y))
    &&& forall|p: Name, x: Path, y: Path| #[trigger]
        w.edge_by_formal(p, x, y) ==> m.edge.contains((p, x, y))
    &&& forall|p: Name, x: Path, y: Path| #[trigger]
        w.edge_by_return(p, x, y) ==> m.edge.contains((p, x, y))
    &&& forall|p: Name, x: Path, v: Value| #[trigger]
        w.points_by_statement(p, x, v) ==> m.points.contains((p, x, v))
    &&& forall|p: Name, id: Instance| #[trigger]
        w.e.crit_origin(p, id.stmt, id) ==> m.pending.contains((p, id))
}

/// The constraint that statement `s` demands holds wherever `s` stands.
pub open spec fn placed_edge(w: Setting, m: Core, s: Name, x: Path, y: Path) -> bool {
    forall|p: Name| #[trigger] w.e.stands_in(s, p) ==> m.edge.contains((p, x, y))
}

pub open spec fn placed_point(w: Setting, m: Core, s: Name, x: Path, v: Value) -> bool {
    forall|p: Name| #[trigger] w.e.stands_in(s, p) ==> m.points.contains((p, x, v))
}

impl Engine {
    /// What a rule over the facts alone needs to know.
    pub open spec fn steady(&self, st: State, w: Setting, seed: Core) -> bool {
        st.wf() && self.ok(st.store@, w) && w.follows(seed, st.said())
    }

    pub proof fn lemma_steady(&self, a: State, b: State, w: Setting, seed: Core)
        requires
            self.steady(a, w, seed),
            b.wf(),
            a.le(&b),
            w.follows(seed, b.said()),
        ensures
            self.steady(b, w, seed),
            a.said().le(b.said()),
    {
        a.lemma_grow(&b);
        self.lemma_grow(a.store@, b.store@, w);
    }

    /// The path of a root.
    fn bare_path(&self, st: &mut State, key: Key, Ghost(w): Ghost<Setting>,
        Ghost(seed): Ghost<Core>) -> (r:
        usize)
        requires
            self.steady(*old(st), w, seed),
            old(st).store@.key_ok(key),
        ensures
            self.steady(*final(st), w, seed),
            old(st).le(final(st)),
            final(st).said() == old(st).said(),
            final(st).store@.insts == old(st).store@.insts,
            r < final(st).store@.paths.len(),
            final(st).store@.path(r) == Path::bare(old(st).store@.root(key)),
    {
        let ghost s0 = *st;
        let r: usize = st.store.bare(key);
        proof {
            s0.lemma_store_grow(st);
            self.lemma_steady(s0, *st, w, seed);
        }
        r
    }

    /// The path of a local with one accessor.
    fn step_path(
        &self,
        st: &mut State,
        v: usize,
        tag: usize,
        n: usize,
        Ghost(w): Ghost<Setting>,
        Ghost(seed): Ghost<Core>,
    ) -> (r: usize)
        requires
            self.steady(*old(st), w, seed),
            v < old(st).store@.names.len(),
            step_ok(old(st).store@.names, tag, n),
        ensures
            self.steady(*final(st), w, seed),
            old(st).le(final(st)),
            final(st).said() == old(st).said(),
            r < final(st).store@.paths.len(),
            final(st).store@.path(r) == Path::var(old(st).store@.name(v)).then_step(
                step_of(old(st).store@.names, tag, n),
            ),
    {
        let ghost s0 = *st;
        let key = Key::var(v);
        proof {
            assert(s0.store@.key_ok(key));
        }
        let x: usize = self.bare_path(st, key, Ghost(w), Ghost(seed));
        let ghost s1 = *st;
        let f: Vec<usize> = vec![tag, n];
        proof {
            let names = s0.store@.names;
            assert forall|j: int| 0 <= 2 * j < f@.len() implies #[trigger] step_ok(
                names,
                f@[2 * j],
                f@[2 * j + 1],
            ) by {
                assert(j == 0);
            }
            assert(flat_ok(names, f@));
            assert(flat_steps(names, f@) =~= seq![step_of(names, tag, n)]);
        }
        let r: usize = st.store.append(x, f.as_slice());
        proof {
            s1.lemma_store_grow(st);
            self.lemma_steady(s1, *st, w, seed);
            s0.lemma_le_trans(&s1, st);
            let acc = step_of(s0.store@.names, tag, n);
            assert(Seq::<Step>::empty() + seq![acc] =~= Seq::<Step>::empty().push(acc));
        }
        r
    }

    /// A constraint that statement `s` demands, wherever `s` stands.
    fn place_edge(
        &self,
        st: &mut State,
        s: usize,
        sup: usize,
        sub: usize,
        Ghost(w): Ghost<Setting>,
        Ghost(seed): Ghost<Core>,
    )
        requires
            self.steady(*old(st), w, seed),
            s < old(st).store@.names.len(),
            sup < old(st).store@.paths.len(),
            sub < old(st).store@.paths.len(),
            w.e.says(
                old(st).store@.name(s),
                old(st).store@.path(sup),
                old(st).store@.path(sub),
            ),
        ensures
            self.steady(*final(st), w, seed),
            old(st).le(final(st)),
            old(st).said().le(final(st).said()),
            placed_edge(
                w,
                final(st).said(),
                old(st).store@.name(s),
                old(st).store@.path(sup),
                old(st).store@.path(sub),
            ),
    {
        let ghost s0 = *st;
        let ghost c = st.store@;
        let t = &self.facts.homes;
        let list = t.heads(s);
        let mut j: usize = 0;
        while j < list.len()
            invariant
                j <= list@.len(),
                t == &self.facts.homes,
                self.steady(*st, w, seed),
                s0.le(st),
                s0.said().le(st.said()),
                st.store == s0.store,
                c == s0.store@,
                sup < c.paths.len(),
                sub < c.paths.len(),
                w.e.says(c.name(s), c.path(sup), c.path(sub)),
                forall|z: int|
                    0 <= z < list@.len() ==> (#[trigger] list@[z]) < t@.len()
                        && t@[list@[z] as int][0]
                        == s,
                forall|z: int|
                    0 <= z < j ==> st.said().edge.contains(
                        (
                            c.names[t@[#[trigger] list@[z] as int][1] as int],
                            c.path(sup),
                            c.path(sub),
                        ),
                    ),
            decreases list@.len() - j,
        {
            let y: usize = list[j];
            let ghost s1 = *st;
            proof {
                assert(two_ok(c.names, t@[y as int]));
                let x = two_row(c.names, t@[y as int]);
                assert(homes(w.e).contains(x));
                assert(w.e.stands_in(x.0, x.1));
                assert(w.edge_by_statement(x.1, c.path(sup), c.path(sub)));
                assert(w.edge_from(st.said(), x.1, c.path(sup), c.path(sub)));
            }
            let p: usize = t.at(y, 1);
            st.derive_edge(p, sup, sub, Ghost(w), Ghost(seed));
            proof {
                self.lemma_steady(s1, *st, w, seed);
                s0.lemma_le_trans(&s1, st);
            }
            j += 1;
        }
        proof {
            c.lemma_wf();
            assert forall|p: Name| #[trigger] w.e.stands_in(c.name(s), p)
                implies st.said().edge.contains(
                (p, c.path(sup), c.path(sub)),
            ) by {
                assert(homes(w.e).contains((c.name(s), p)));
                let y = lemma_find_two(t@, c.names, homes(w.e), (c.name(s), p));
                t.lemma_distinct();
                assert(t@[y][0] == s);
                assert(list@.contains(y as usize));
                let z = choose|z: int| 0 <= z < list@.len() && list@[z] == y as usize;
                assert(c.names[t@[list@[z] as int][1] as int] == p);
            }
        }
    }

    /// A points-to fact that statement `s` gives, wherever `s` stands.
    fn place_point(
        &self,
        st: &mut State,
        s: usize,
        at: usize,
        tag: usize,
        n: usize,
        Ghost(w): Ghost<Setting>,
        Ghost(seed): Ghost<Core>,
    )
        requires
            self.steady(*old(st), w, seed),
            s < old(st).store@.names.len(),
            at < old(st).store@.paths.len(),
            old(st).store@.value_ok(tag, n),
            w.e.holds(
                old(st).store@.name(s),
                old(st).store@.path(at),
                old(st).store@.value(tag, n),
            ),
        ensures
            self.steady(*final(st), w, seed),
            old(st).le(final(st)),
            old(st).said().le(final(st).said()),
            placed_point(
                w,
                final(st).said(),
                old(st).store@.name(s),
                old(st).store@.path(at),
                old(st).store@.value(tag, n),
            ),
    {
        let ghost s0 = *st;
        let ghost c = st.store@;
        let ghost v = c.value(tag, n);
        let t = &self.facts.homes;
        let list = t.heads(s);
        let mut j: usize = 0;
        while j < list.len()
            invariant
                j <= list@.len(),
                t == &self.facts.homes,
                self.steady(*st, w, seed),
                s0.le(st),
                s0.said().le(st.said()),
                st.store == s0.store,
                c == s0.store@,
                at < c.paths.len(),
                c.value_ok(tag, n),
                v == c.value(tag, n),
                w.e.holds(c.name(s), c.path(at), v),
                forall|z: int|
                    0 <= z < list@.len() ==> (#[trigger] list@[z]) < t@.len()
                        && t@[list@[z] as int][0]
                        == s,
                forall|z: int|
                    0 <= z < j ==> st.said().points.contains(
                        (c.names[t@[#[trigger] list@[z] as int][1] as int], c.path(at), v),
                    ),
            decreases list@.len() - j,
        {
            let y: usize = list[j];
            let ghost s1 = *st;
            proof {
                assert(two_ok(c.names, t@[y as int]));
                let x = two_row(c.names, t@[y as int]);
                assert(homes(w.e).contains(x));
                assert(w.e.stands_in(x.0, x.1));
                assert(w.points_by_statement(x.1, c.path(at), v));
                assert(w.points_from(st.said(), x.1, c.path(at), v));
            }
            let p: usize = t.at(y, 1);
            st.derive_point(p, at, tag, n, Ghost(w), Ghost(seed));
            proof {
                self.lemma_steady(s1, *st, w, seed);
                s0.lemma_le_trans(&s1, st);
            }
            j += 1;
        }
        proof {
            c.lemma_wf();
            assert forall|p: Name| #[trigger] w.e.stands_in(c.name(s), p)
                implies st.said().points.contains(
                (p, c.path(at), v),
            ) by {
                assert(homes(w.e).contains((c.name(s), p)));
                let y = lemma_find_two(t@, c.names, homes(w.e), (c.name(s), p));
                t.lemma_distinct();
                assert(t@[y][0] == s);
                assert(list@.contains(y as usize));
                let z = choose|z: int| 0 <= z < list@.len() && list@[z] == y as usize;
                assert(c.names[t@[list@[z] as int][1] as int] == p);
            }
        }
    }

    /// Whether a statement is critical.
    pub fn is_critical(&self, s: usize, Ghost(c): Ghost<Codes>, Ghost(w): Ghost<Setting>)
        -> (r: bool)
        requires
            c.wf(),
            self.ok(c, w),
            s < c.names.len(),
        ensures
            r == w.e.critical(c.name(s)),
    {
        let cells: Vec<usize> = vec![s];
        proof {
            c.lemma_wf();
            lemma_has_one(self.derived.critical@, c.names, critical_set(w.e), cells@);
        }
        self.derived.critical.has(cells.as_slice())
    }

    fn ground_moves(&self, st: &mut State, Ghost(w): Ghost<Setting>, Ghost(seed): Ghost<Core>)
        requires
            self.steady(*old(st), w, seed),
        ensures
            self.steady(*final(st), w, seed),
            old(st).le(final(st)),
            old(st).said().le(final(st).said()),
            forall|x: (Name, Name, Name)| #[trigger]
                w.e.mov.contains(x) ==> placed_edge(w, final(st).said(), x.0, Path::var(x.1),
                    Path::var(x.2)),
    {
        let ghost s0 = *st;
        let ghost names = st.store@.names;
        let t = &self.facts.mov;
        let mut j: usize = 0;
        while j < t.len()
            invariant
                j <= t@.len(),
                t == &self.facts.mov,
                self.steady(s0, w, seed),
                self.steady(*st, w, seed),
                s0.le(st),
                s0.said().le(st.said()),
                names == s0.store@.names,
                forall|z: int|
                    0 <= z < j ==> {
                        let x = three_row(names, #[trigger] t@[z]);
                        placed_edge(w, st.said(), x.0, Path::var(x.1), Path::var(x.2))
                    },
            decreases t@.len() - j,
        {
            let ghost x = three_row(names, t@[j as int]);
            let ghost s1 = *st;
            proof {
                assert(three_ok(names, t@[j as int]));
                assert(w.e.mov.contains(x));
            }
            let s: usize = t.at(j, 0);
            let k0 = Key::var(t.at(j, 1));
            proof {
                assert(st.store@.key_ok(k0));
            }
            let w0: usize = self.bare_path(st, k0, Ghost(w), Ghost(seed));
            let ghost g0 = *st;
            proof {
                s1.lemma_le_trans(&s1, &g0);
                s0.lemma_le_trans(&s1, &g0);
            }
            let k1 = Key::var(t.at(j, 2));
            proof {
                assert(st.store@.key_ok(k1));
            }
            let w1: usize = self.bare_path(st, k1, Ghost(w), Ghost(seed));
            let ghost g1 = *st;
            proof {
                g0.lemma_le_trans(&g0, &g1);
                s0.lemma_le_trans(&g0, &g1);
            }
            proof {
                g0.store@.lemma_grow(g1.store@);
                assert(g1.store@.path(w0) == Path::var(x.1));
                assert(g1.store@.path(w1) == Path::var(x.2));
            }
            proof {
                assert(w.e.mov.contains((x.0, x.1, x.2)));
                assert(w.e.says(x.0, Path::var(x.1), Path::var(x.2)));
            }
            self.place_edge(st, s, w0, w1, Ghost(w), Ghost(seed));
            let ghost e0 = *st;
            proof {
                s0.lemma_le_trans(&g1, &e0);
            }
            proof {
                self.lemma_steady(s1, *st, w, seed);
                assert forall|z: int| 0 <= z < j + 1 implies {
                    let x = three_row(names, #[trigger] t@[z]);
                    placed_edge(w, st.said(), x.0, Path::var(x.1), Path::var(x.2))
                } by {
                    let y = three_row(names, t@[z]);
                    if z < j {
                        lemma_placed_edge_grow(w, s1.said(), st.said(), y.0, Path::var(y.1),
                            Path::var(y.2));
                    }
                }
            }
            j += 1;
        }
        proof {
            assert forall|x: (Name, Name, Name)| #[trigger] w.e.mov.contains(x)
                implies placed_edge(w, st.said(), x.0, Path::var(x.1), Path::var(x.2)) by {
                let z = lemma_find_three(t@, names, w.e.mov, x);
                assert(three_row(names, t@[z]) == x);
            }
        }
    }

    fn ground_field_loads(&self, st: &mut State, Ghost(w): Ghost<Setting>, Ghost(seed): Ghost<Core>)
        requires
            self.steady(*old(st), w, seed),
        ensures
            self.steady(*final(st), w, seed),
            old(st).le(final(st)),
            old(st).said().le(final(st).said()),
            forall|x: (Name, Name, Name, Name)| #[trigger]
                w.e.load_field.contains(x)
                    ==> placed_edge(w, final(st).said(), x.0, Path::var(x.1),
                    Path::var(x.2).then_step(Step::Field(x.3))),
    {
        let ghost s0 = *st;
        let ghost names = st.store@.names;
        let t = &self.facts.load_field;
        let mut j: usize = 0;
        while j < t.len()
            invariant
                j <= t@.len(),
                t == &self.facts.load_field,
                self.steady(s0, w, seed),
                self.steady(*st, w, seed),
                s0.le(st),
                s0.said().le(st.said()),
                names == s0.store@.names,
                forall|z: int|
                    0 <= z < j ==> {
                        let x = four_row(names, #[trigger] t@[z]);
                        placed_edge(w, st.said(), x.0, Path::var(x.1),
                            Path::var(x.2).then_step(Step::Field(x.3)))
                    },
            decreases t@.len() - j,
        {
            let ghost x = four_row(names, t@[j as int]);
            let ghost s1 = *st;
            proof {
                assert(four_ok(names, t@[j as int]));
                assert(w.e.load_field.contains(x));
            }
            let s: usize = t.at(j, 0);
            let k0 = Key::var(t.at(j, 1));
            proof {
                assert(st.store@.key_ok(k0));
            }
            let w0: usize = self.bare_path(st, k0, Ghost(w), Ghost(seed));
            let ghost g0 = *st;
            proof {
                s1.lemma_le_trans(&s1, &g0);
                s0.lemma_le_trans(&s1, &g0);
            }
            let w1: usize = self.step_path(st, t.at(j, 2), 0, t.at(j, 3), Ghost(w), Ghost(seed));
            let ghost g1 = *st;
            proof {
                g0.lemma_le_trans(&g0, &g1);
                s0.lemma_le_trans(&g0, &g1);
            }
            proof {
                g0.store@.lemma_grow(g1.store@);
                assert(g1.store@.path(w0) == Path::var(x.1));
                assert(g1.store@.path(w1) == Path::var(x.2).then_step(Step::Field(x.3)));
            }
            proof {
                assert(w.e.load_field.contains((x.0, x.1, x.2, x.3)));
                assert(w.e.says(x.0, Path::var(x.1), Path::var(x.2).then_step(Step::Field(x.3))));
            }
            self.place_edge(st, s, w0, w1, Ghost(w), Ghost(seed));
            let ghost e0 = *st;
            proof {
                s0.lemma_le_trans(&g1, &e0);
            }
            proof {
                self.lemma_steady(s1, *st, w, seed);
                assert forall|z: int| 0 <= z < j + 1 implies {
                    let x = four_row(names, #[trigger] t@[z]);
                    placed_edge(w, st.said(), x.0, Path::var(x.1),
                        Path::var(x.2).then_step(Step::Field(x.3)))
                } by {
                    let y = four_row(names, t@[z]);
                    if z < j {
                        lemma_placed_edge_grow(w, s1.said(), st.said(), y.0, Path::var(y.1),
                            Path::var(y.2).then_step(Step::Field(y.3)));
                    }
                }
            }
            j += 1;
        }
        proof {
            assert forall|x: (Name, Name, Name, Name)| #[trigger] w.e.load_field.contains(x)
                implies placed_edge(w, st.said(), x.0, Path::var(x.1),
                Path::var(x.2).then_step(Step::Field(x.3))) by {
                let z = lemma_find_four(t@, names, w.e.load_field, x);
                assert(four_row(names, t@[z]) == x);
            }
        }
    }

    fn ground_field_stores(&self, st: &mut State, Ghost(w): Ghost<Setting>,
        Ghost(seed): Ghost<Core>)
        requires
            self.steady(*old(st), w, seed),
        ensures
            self.steady(*final(st), w, seed),
            old(st).le(final(st)),
            old(st).said().le(final(st).said()),
            forall|x: (Name, Name, Name, Name)| #[trigger]
                w.e.store_field.contains(x)
                    ==> placed_edge(w, final(st).said(), x.0,
                    Path::var(x.1).then_step(Step::Field(x.2)), Path::var(x.3)),
    {
        let ghost s0 = *st;
        let ghost names = st.store@.names;
        let t = &self.facts.store_field;
        let mut j: usize = 0;
        while j < t.len()
            invariant
                j <= t@.len(),
                t == &self.facts.store_field,
                self.steady(s0, w, seed),
                self.steady(*st, w, seed),
                s0.le(st),
                s0.said().le(st.said()),
                names == s0.store@.names,
                forall|z: int|
                    0 <= z < j ==> {
                        let x = four_row(names, #[trigger] t@[z]);
                        placed_edge(w, st.said(), x.0, Path::var(x.1).then_step(Step::Field(x.2)),
                            Path::var(x.3))
                    },
            decreases t@.len() - j,
        {
            let ghost x = four_row(names, t@[j as int]);
            let ghost s1 = *st;
            proof {
                assert(four_ok(names, t@[j as int]));
                assert(w.e.store_field.contains(x));
            }
            let s: usize = t.at(j, 0);
            let w0: usize = self.step_path(st, t.at(j, 1), 0, t.at(j, 2), Ghost(w), Ghost(seed));
            let ghost g0 = *st;
            proof {
                s1.lemma_le_trans(&s1, &g0);
                s0.lemma_le_trans(&s1, &g0);
            }
            let k1 = Key::var(t.at(j, 3));
            proof {
                assert(st.store@.key_ok(k1));
            }
            let w1: usize = self.bare_path(st, k1, Ghost(w), Ghost(seed));
            let ghost g1 = *st;
            proof {
                g0.lemma_le_trans(&g0, &g1);
                s0.lemma_le_trans(&g0, &g1);
            }
            proof {
                g0.store@.lemma_grow(g1.store@);
                assert(g1.store@.path(w0) == Path::var(x.1).then_step(Step::Field(x.2)));
                assert(g1.store@.path(w1) == Path::var(x.3));
            }
            proof {
                assert(w.e.store_field.contains((x.0, x.1, x.2, x.3)));
                assert(w.e.says(x.0, Path::var(x.1).then_step(Step::Field(x.2)), Path::var(x.3)));
            }
            self.place_edge(st, s, w0, w1, Ghost(w), Ghost(seed));
            let ghost e0 = *st;
            proof {
                s0.lemma_le_trans(&g1, &e0);
            }
            proof {
                self.lemma_steady(s1, *st, w, seed);
                assert forall|z: int| 0 <= z < j + 1 implies {
                    let x = four_row(names, #[trigger] t@[z]);
                    placed_edge(w, st.said(), x.0, Path::var(x.1).then_step(Step::Field(x.2)),
                        Path::var(x.3))
                } by {
                    let y = four_row(names, t@[z]);
                    if z < j {
                        lemma_placed_edge_grow(w, s1.said(), st.said(), y.0,
                            Path::var(y.1).then_step(Step::Field(y.2)), Path::var(y.3));
                    }
                }
            }
            j += 1;
        }
        proof {
            assert forall|x: (Name, Name, Name, Name)| #[trigger] w.e.store_field.contains(x)
                implies placed_edge(w, st.said(), x.0, Path::var(x.1).then_step(Step::Field(x.2)),
                Path::var(x.3)) by {
                let z = lemma_find_four(t@, names, w.e.store_field, x);
                assert(four_row(names, t@[z]) == x);
            }
        }
    }

    fn ground_index_loads(&self, st: &mut State, Ghost(w): Ghost<Setting>, Ghost(seed): Ghost<Core>)
        requires
            self.steady(*old(st), w, seed),
        ensures
            self.steady(*final(st), w, seed),
            old(st).le(final(st)),
            old(st).said().le(final(st).said()),
            forall|x: (Name, Name, Name, Name)| #[trigger]
                w.e.load_index_const.contains(x)
                    ==> placed_edge(w, final(st).said(), x.0, Path::var(x.1),
                    Path::var(x.2).then_step(Step::Index(x.3))),
    {
        let ghost s0 = *st;
        let ghost names = st.store@.names;
        let t = &self.facts.load_index_const;
        let mut j: usize = 0;
        while j < t.len()
            invariant
                j <= t@.len(),
                t == &self.facts.load_index_const,
                self.steady(s0, w, seed),
                self.steady(*st, w, seed),
                s0.le(st),
                s0.said().le(st.said()),
                names == s0.store@.names,
                forall|z: int|
                    0 <= z < j ==> {
                        let x = four_row(names, #[trigger] t@[z]);
                        placed_edge(w, st.said(), x.0, Path::var(x.1),
                            Path::var(x.2).then_step(Step::Index(x.3)))
                    },
            decreases t@.len() - j,
        {
            let ghost x = four_row(names, t@[j as int]);
            let ghost s1 = *st;
            proof {
                assert(four_ok(names, t@[j as int]));
                assert(w.e.load_index_const.contains(x));
            }
            let s: usize = t.at(j, 0);
            let k0 = Key::var(t.at(j, 1));
            proof {
                assert(st.store@.key_ok(k0));
            }
            let w0: usize = self.bare_path(st, k0, Ghost(w), Ghost(seed));
            let ghost g0 = *st;
            proof {
                s1.lemma_le_trans(&s1, &g0);
                s0.lemma_le_trans(&s1, &g0);
            }
            let w1: usize = self.step_path(st, t.at(j, 2), 1, t.at(j, 3), Ghost(w), Ghost(seed));
            let ghost g1 = *st;
            proof {
                g0.lemma_le_trans(&g0, &g1);
                s0.lemma_le_trans(&g0, &g1);
            }
            proof {
                g0.store@.lemma_grow(g1.store@);
                assert(g1.store@.path(w0) == Path::var(x.1));
                assert(g1.store@.path(w1) == Path::var(x.2).then_step(Step::Index(x.3)));
            }
            proof {
                assert(w.e.load_index_const.contains((x.0, x.1, x.2, x.3)));
                assert(w.e.says(x.0, Path::var(x.1), Path::var(x.2).then_step(Step::Index(x.3))));
            }
            self.place_edge(st, s, w0, w1, Ghost(w), Ghost(seed));
            let ghost e0 = *st;
            proof {
                s0.lemma_le_trans(&g1, &e0);
            }
            proof {
                self.lemma_steady(s1, *st, w, seed);
                assert forall|z: int| 0 <= z < j + 1 implies {
                    let x = four_row(names, #[trigger] t@[z]);
                    placed_edge(w, st.said(), x.0, Path::var(x.1),
                        Path::var(x.2).then_step(Step::Index(x.3)))
                } by {
                    let y = four_row(names, t@[z]);
                    if z < j {
                        lemma_placed_edge_grow(w, s1.said(), st.said(), y.0, Path::var(y.1),
                            Path::var(y.2).then_step(Step::Index(y.3)));
                    }
                }
            }
            j += 1;
        }
        proof {
            assert forall|x: (Name, Name, Name, Name)| #[trigger] w.e.load_index_const.contains(x)
                implies placed_edge(w, st.said(), x.0, Path::var(x.1),
                Path::var(x.2).then_step(Step::Index(x.3))) by {
                let z = lemma_find_four(t@, names, w.e.load_index_const, x);
                assert(four_row(names, t@[z]) == x);
            }
        }
    }

    fn ground_index_stores(&self, st: &mut State, Ghost(w): Ghost<Setting>,
        Ghost(seed): Ghost<Core>)
        requires
            self.steady(*old(st), w, seed),
        ensures
            self.steady(*final(st), w, seed),
            old(st).le(final(st)),
            old(st).said().le(final(st).said()),
            forall|x: (Name, Name, Name, Name)| #[trigger]
                w.e.store_index_const.contains(x)
                    ==> placed_edge(w, final(st).said(), x.0,
                    Path::var(x.1).then_step(Step::Index(x.2)), Path::var(x.3)),
    {
        let ghost s0 = *st;
        let ghost names = st.store@.names;
        let t = &self.facts.store_index_const;
        let mut j: usize = 0;
        while j < t.len()
            invariant
                j <= t@.len(),
                t == &self.facts.store_index_const,
                self.steady(s0, w, seed),
                self.steady(*st, w, seed),
                s0.le(st),
                s0.said().le(st.said()),
                names == s0.store@.names,
                forall|z: int|
                    0 <= z < j ==> {
                        let x = four_row(names, #[trigger] t@[z]);
                        placed_edge(w, st.said(), x.0, Path::var(x.1).then_step(Step::Index(x.2)),
                            Path::var(x.3))
                    },
            decreases t@.len() - j,
        {
            let ghost x = four_row(names, t@[j as int]);
            let ghost s1 = *st;
            proof {
                assert(four_ok(names, t@[j as int]));
                assert(w.e.store_index_const.contains(x));
            }
            let s: usize = t.at(j, 0);
            let w0: usize = self.step_path(st, t.at(j, 1), 1, t.at(j, 2), Ghost(w), Ghost(seed));
            let ghost g0 = *st;
            proof {
                s1.lemma_le_trans(&s1, &g0);
                s0.lemma_le_trans(&s1, &g0);
            }
            let k1 = Key::var(t.at(j, 3));
            proof {
                assert(st.store@.key_ok(k1));
            }
            let w1: usize = self.bare_path(st, k1, Ghost(w), Ghost(seed));
            let ghost g1 = *st;
            proof {
                g0.lemma_le_trans(&g0, &g1);
                s0.lemma_le_trans(&g0, &g1);
            }
            proof {
                g0.store@.lemma_grow(g1.store@);
                assert(g1.store@.path(w0) == Path::var(x.1).then_step(Step::Index(x.2)));
                assert(g1.store@.path(w1) == Path::var(x.3));
            }
            proof {
                assert(w.e.store_index_const.contains((x.0, x.1, x.2, x.3)));
                assert(w.e.says(x.0, Path::var(x.1).then_step(Step::Index(x.2)), Path::var(x.3)));
            }
            self.place_edge(st, s, w0, w1, Ghost(w), Ghost(seed));
            let ghost e0 = *st;
            proof {
                s0.lemma_le_trans(&g1, &e0);
            }
            proof {
                self.lemma_steady(s1, *st, w, seed);
                assert forall|z: int| 0 <= z < j + 1 implies {
                    let x = four_row(names, #[trigger] t@[z]);
                    placed_edge(w, st.said(), x.0, Path::var(x.1).then_step(Step::Index(x.2)),
                        Path::var(x.3))
                } by {
                    let y = four_row(names, t@[z]);
                    if z < j {
                        lemma_placed_edge_grow(w, s1.said(), st.said(), y.0,
                            Path::var(y.1).then_step(Step::Index(y.2)), Path::var(y.3));
                    }
                }
            }
            j += 1;
        }
        proof {
            assert forall|x: (Name, Name, Name, Name)| #[trigger] w.e.store_index_const.contains(x)
                implies placed_edge(w, st.said(), x.0, Path::var(x.1).then_step(Step::Index(x.2)),
                Path::var(x.3)) by {
                let z = lemma_find_four(t@, names, w.e.store_index_const, x);
                assert(four_row(names, t@[z]) == x);
            }
        }
    }

    fn ground_arguments(&self, st: &mut State, Ghost(w): Ghost<Setting>, Ghost(seed): Ghost<Core>)
        requires
            self.steady(*old(st), w, seed),
        ensures
            self.steady(*final(st), w, seed),
            old(st).le(final(st)),
            old(st).said().le(final(st).said()),
            forall|x: (Name, ArgIdx, Name)| #[trigger]
                w.e.actual_arg.contains(x) && w.e.critical(x.0)
                    ==> placed_edge(w, final(st).said(), x.0,
                        Path::slot(Instance::origin(x.0), x.1),
                    Path::var(x.2)),
    {
        let ghost s0 = *st;
        let ghost names = st.store@.names;
        let t = &self.facts.actual_arg;
        let mut j: usize = 0;
        while j < t.len()
            invariant
                j <= t@.len(),
                t == &self.facts.actual_arg,
                self.steady(s0, w, seed),
                self.steady(*st, w, seed),
                s0.le(st),
                s0.said().le(st.said()),
                names == s0.store@.names,
                forall|z: int|
                    0 <= z < j ==> {
                        let x = indexed_row(names, #[trigger] t@[z]);
                        w.e.critical(x.0) ==> placed_edge(w, st.said(), x.0,
                            Path::slot(Instance::origin(x.0), x.1), Path::var(x.2))
                    },
            decreases t@.len() - j,
        {
            let ghost x = indexed_row(names, t@[j as int]);
            let ghost s1 = *st;
            proof {
                assert(indexed_ok(names, t@[j as int]));
                assert(w.e.actual_arg.contains(x));
            }
            let s: usize = t.at(j, 0);
            if self.is_critical(s, Ghost(st.store@), Ghost(w)) {
                let id: usize = st.store.origin(s);
                let ghost si = *st;
                proof {
                    s1.lemma_store_grow(&si);
                    self.lemma_steady(s1, si, w, seed);
                    s0.lemma_le_trans(&s1, &si);
                }
                let k0 = Key::slot(id, t.at(j, 1));
                proof {
                    si.store@.lemma_grow(st.store@);
                    assert(st.store@.key_ok(k0));
                }
                let w0: usize = self.bare_path(st, k0, Ghost(w), Ghost(seed));
                let ghost g0 = *st;
                proof {
                    si.lemma_le_trans(&si, &g0);
                    s0.lemma_le_trans(&si, &g0);
                }
                let k1 = Key::var(t.at(j, 2));
                proof {
                    assert(st.store@.key_ok(k1));
                }
                let w1: usize = self.bare_path(st, k1, Ghost(w), Ghost(seed));
                let ghost g1 = *st;
                proof {
                    g0.lemma_le_trans(&g0, &g1);
                    s0.lemma_le_trans(&g0, &g1);
                    si.lemma_le_trans(&g0, &g1);
                }
                proof {
                    g0.store@.lemma_grow(g1.store@);
                    assert(g1.store@.path(w0) == Path::slot(Instance::origin(x.0), x.1));
                    assert(g1.store@.path(w1) == Path::var(x.2));
                }
                proof {
                    assert(w.e.actual_arg.contains((x.0, x.1, x.2)));
                    assert(w.e.wires(x.0, Path::slot(Instance::origin(x.0), x.1), Path::var(x.2)));
                    assert(w.e.says(x.0, Path::slot(Instance::origin(x.0), x.1), Path::var(x.2)));
                }
                self.place_edge(st, s, w0, w1, Ghost(w), Ghost(seed));
                let ghost e0 = *st;
                proof {
                    s0.lemma_le_trans(&g1, &e0);
                }
            }
            proof {
                self.lemma_steady(s1, *st, w, seed);
                assert forall|z: int| 0 <= z < j + 1 implies {
                    let x = indexed_row(names, #[trigger] t@[z]);
                    w.e.critical(x.0) ==> placed_edge(w, st.said(), x.0,
                        Path::slot(Instance::origin(x.0), x.1), Path::var(x.2))
                } by {
                    let y = indexed_row(names, t@[z]);
                    if z < j {
                        if w.e.critical(y.0) { lemma_placed_edge_grow(w, s1.said(), st.said(), y.0,
                            Path::slot(Instance::origin(y.0), y.1), Path::var(y.2)); }
                    }
                }
            }
            j += 1;
        }
        proof {
            assert forall|x: (Name, ArgIdx, Name)| #[trigger] w.e.actual_arg.contains(x)
                && w.e.critical(x.0) implies placed_edge(w, st.said(), x.0,
                Path::slot(Instance::origin(x.0), x.1), Path::var(x.2)) by {
                let z = lemma_find_indexed(t@, names, w.e.actual_arg, x);
                assert(indexed_row(names, t@[z]) == x);
            }
        }
    }

    fn ground_results(&self, st: &mut State, Ghost(w): Ghost<Setting>, Ghost(seed): Ghost<Core>)
        requires
            self.steady(*old(st), w, seed),
        ensures
            self.steady(*final(st), w, seed),
            old(st).le(final(st)),
            old(st).said().le(final(st).said()),
            forall|x: (Name, Name)| #[trigger]
                w.e.bind_ret.contains(x) && w.e.critical(x.0)
                    ==> placed_edge(w, final(st).said(), x.0, Path::var(x.1),
                    Path::res(Instance::origin(x.0))),
    {
        let ghost s0 = *st;
        let ghost names = st.store@.names;
        let t = &self.facts.bind_ret;
        let mut j: usize = 0;
        while j < t.len()
            invariant
                j <= t@.len(),
                t == &self.facts.bind_ret,
                self.steady(s0, w, seed),
                self.steady(*st, w, seed),
                s0.le(st),
                s0.said().le(st.said()),
                names == s0.store@.names,
                forall|z: int|
                    0 <= z < j ==> {
                        let x = two_row(names, #[trigger] t@[z]);
                        w.e.critical(x.0) ==> placed_edge(w, st.said(), x.0, Path::var(x.1),
                            Path::res(Instance::origin(x.0)))
                    },
            decreases t@.len() - j,
        {
            let ghost x = two_row(names, t@[j as int]);
            let ghost s1 = *st;
            proof {
                assert(two_ok(names, t@[j as int]));
                assert(w.e.bind_ret.contains(x));
            }
            let s: usize = t.at(j, 0);
            if self.is_critical(s, Ghost(st.store@), Ghost(w)) {
                let id: usize = st.store.origin(s);
                let ghost si = *st;
                proof {
                    s1.lemma_store_grow(&si);
                    self.lemma_steady(s1, si, w, seed);
                    s0.lemma_le_trans(&s1, &si);
                }
                let k0 = Key::var(t.at(j, 1));
                proof {
                    assert(st.store@.key_ok(k0));
                }
                let w0: usize = self.bare_path(st, k0, Ghost(w), Ghost(seed));
                let ghost g0 = *st;
                proof {
                    si.lemma_le_trans(&si, &g0);
                    s0.lemma_le_trans(&si, &g0);
                }
                let k1 = Key::res(id);
                proof {
                    si.store@.lemma_grow(st.store@);
                    assert(st.store@.key_ok(k1));
                }
                let w1: usize = self.bare_path(st, k1, Ghost(w), Ghost(seed));
                let ghost g1 = *st;
                proof {
                    g0.lemma_le_trans(&g0, &g1);
                    s0.lemma_le_trans(&g0, &g1);
                    si.lemma_le_trans(&g0, &g1);
                }
                proof {
                    g0.store@.lemma_grow(g1.store@);
                    assert(g1.store@.path(w0) == Path::var(x.1));
                    assert(g1.store@.path(w1) == Path::res(Instance::origin(x.0)));
                }
                proof {
                    assert(w.e.bind_ret.contains((x.0, x.1)));
                    assert(w.e.wires(x.0, Path::var(x.1), Path::res(Instance::origin(x.0))));
                    assert(w.e.says(x.0, Path::var(x.1), Path::res(Instance::origin(x.0))));
                }
                self.place_edge(st, s, w0, w1, Ghost(w), Ghost(seed));
                let ghost e0 = *st;
                proof {
                    s0.lemma_le_trans(&g1, &e0);
                }
            }
            proof {
                self.lemma_steady(s1, *st, w, seed);
                assert forall|z: int| 0 <= z < j + 1 implies {
                    let x = two_row(names, #[trigger] t@[z]);
                    w.e.critical(x.0) ==> placed_edge(w, st.said(), x.0, Path::var(x.1),
                        Path::res(Instance::origin(x.0)))
                } by {
                    let y = two_row(names, t@[z]);
                    if z < j {
                        if w.e.critical(y.0) { lemma_placed_edge_grow(w, s1.said(), st.said(), y.0,
                            Path::var(y.1), Path::res(Instance::origin(y.0))); }
                    }
                }
            }
            j += 1;
        }
        proof {
            assert forall|x: (Name, Name)| #[trigger] w.e.bind_ret.contains(x) && w.e.critical(x.0)
                implies placed_edge(w, st.said(), x.0, Path::var(x.1),
                Path::res(Instance::origin(x.0))) by {
                let z = lemma_find_two(t@, names, w.e.bind_ret, x);
                assert(two_row(names, t@[z]) == x);
            }
        }
    }

    fn ground_load_accesses(&self, st: &mut State, Ghost(w): Ghost<Setting>,
        Ghost(seed): Ghost<Core>)
        requires
            self.steady(*old(st), w, seed),
        ensures
            self.steady(*final(st), w, seed),
            old(st).le(final(st)),
            old(st).said().le(final(st).said()),
            forall|x: (Name, Name, Name, Name)| #[trigger]
                w.e.load_index_var.contains(x)
                    ==> placed_edge(w, final(st).said(), x.0, Path::slot(Instance::origin(x.0), 0),
                    Path::var(x.2)) && placed_edge(w, final(st).said(), x.0,
                    Path::slot(Instance::origin(x.0), 1), Path::var(x.3))
                    && placed_edge(w, final(st).said(), x.0, Path::var(x.1),
                    Path::res(Instance::origin(x.0))),
    {
        let ghost s0 = *st;
        let ghost names = st.store@.names;
        let t = &self.facts.load_index_var;
        let mut j: usize = 0;
        while j < t.len()
            invariant
                j <= t@.len(),
                t == &self.facts.load_index_var,
                self.steady(s0, w, seed),
                self.steady(*st, w, seed),
                s0.le(st),
                s0.said().le(st.said()),
                names == s0.store@.names,
                forall|z: int|
                    0 <= z < j ==> {
                        let x = four_row(names, #[trigger] t@[z]);
                        placed_edge(w, st.said(), x.0, Path::slot(Instance::origin(x.0), 0),
                            Path::var(x.2)) && placed_edge(w, st.said(), x.0,
                            Path::slot(Instance::origin(x.0), 1), Path::var(x.3))
                            && placed_edge(w, st.said(), x.0, Path::var(x.1),
                            Path::res(Instance::origin(x.0)))
                    },
            decreases t@.len() - j,
        {
            let ghost x = four_row(names, t@[j as int]);
            let ghost s1 = *st;
            proof {
                assert(four_ok(names, t@[j as int]));
                assert(w.e.load_index_var.contains(x));
            }
            let s: usize = t.at(j, 0);
            proof {
                assert(w.e.load_index_var.contains((x.0, x.1, x.2, x.3)));
                assert(w.e.load_stmt(x.0));
                assert(w.e.critical(x.0));
            }
            let id: usize = st.store.origin(s);
            let ghost si = *st;
            proof {
                s1.lemma_store_grow(&si);
                self.lemma_steady(s1, si, w, seed);
                s0.lemma_le_trans(&s1, &si);
            }
            let k0 = Key::slot(id, 0);
            proof {
                si.store@.lemma_grow(st.store@);
                assert(st.store@.key_ok(k0));
            }
            let w0: usize = self.bare_path(st, k0, Ghost(w), Ghost(seed));
            let ghost g0 = *st;
            proof {
                si.lemma_le_trans(&si, &g0);
                s0.lemma_le_trans(&si, &g0);
            }
            let k1 = Key::var(t.at(j, 2));
            proof {
                assert(st.store@.key_ok(k1));
            }
            let w1: usize = self.bare_path(st, k1, Ghost(w), Ghost(seed));
            let ghost g1 = *st;
            proof {
                g0.lemma_le_trans(&g0, &g1);
                s0.lemma_le_trans(&g0, &g1);
                si.lemma_le_trans(&g0, &g1);
            }
            let k2 = Key::slot(id, 1);
            proof {
                si.store@.lemma_grow(st.store@);
                assert(st.store@.key_ok(k2));
            }
            let w2: usize = self.bare_path(st, k2, Ghost(w), Ghost(seed));
            let ghost g2 = *st;
            proof {
                g1.lemma_le_trans(&g1, &g2);
                s0.lemma_le_trans(&g1, &g2);
                si.lemma_le_trans(&g1, &g2);
            }
            let k3 = Key::var(t.at(j, 3));
            proof {
                assert(st.store@.key_ok(k3));
            }
            let w3: usize = self.bare_path(st, k3, Ghost(w), Ghost(seed));
            let ghost g3 = *st;
            proof {
                g2.lemma_le_trans(&g2, &g3);
                s0.lemma_le_trans(&g2, &g3);
                si.lemma_le_trans(&g2, &g3);
            }
            let k4 = Key::var(t.at(j, 1));
            proof {
                assert(st.store@.key_ok(k4));
            }
            let w4: usize = self.bare_path(st, k4, Ghost(w), Ghost(seed));
            let ghost g4 = *st;
            proof {
                g3.lemma_le_trans(&g3, &g4);
                s0.lemma_le_trans(&g3, &g4);
                si.lemma_le_trans(&g3, &g4);
            }
            let k5 = Key::res(id);
            proof {
                si.store@.lemma_grow(st.store@);
                assert(st.store@.key_ok(k5));
            }
            let w5: usize = self.bare_path(st, k5, Ghost(w), Ghost(seed));
            let ghost g5 = *st;
            proof {
                g4.lemma_le_trans(&g4, &g5);
                s0.lemma_le_trans(&g4, &g5);
                si.lemma_le_trans(&g4, &g5);
            }
            proof {
                g0.lemma_le_trans(&g1, &g2);
                g0.lemma_le_trans(&g2, &g3);
                g0.lemma_le_trans(&g3, &g4);
                g0.lemma_le_trans(&g4, &g5);
                g0.store@.lemma_grow(g5.store@);
                assert(g5.store@.path(w0) == Path::slot(Instance::origin(x.0), 0));
                g1.lemma_le_trans(&g2, &g3);
                g1.lemma_le_trans(&g3, &g4);
                g1.lemma_le_trans(&g4, &g5);
                g1.store@.lemma_grow(g5.store@);
                assert(g5.store@.path(w1) == Path::var(x.2));
                g2.lemma_le_trans(&g3, &g4);
                g2.lemma_le_trans(&g4, &g5);
                g2.store@.lemma_grow(g5.store@);
                assert(g5.store@.path(w2) == Path::slot(Instance::origin(x.0), 1));
                g3.lemma_le_trans(&g4, &g5);
                g3.store@.lemma_grow(g5.store@);
                assert(g5.store@.path(w3) == Path::var(x.3));
                g4.store@.lemma_grow(g5.store@);
                assert(g5.store@.path(w4) == Path::var(x.1));
                assert(g5.store@.path(w5) == Path::res(Instance::origin(x.0)));
            }
            proof {
                assert(w.e.load_index_var.contains((x.0, x.1, x.2, x.3)));
                assert(w.e.wires(x.0, Path::slot(Instance::origin(x.0), 0), Path::var(x.2)));
                assert(w.e.says(x.0, Path::slot(Instance::origin(x.0), 0), Path::var(x.2)));
            }
            self.place_edge(st, s, w0, w1, Ghost(w), Ghost(seed));
            let ghost e0 = *st;
            proof {
                s0.lemma_le_trans(&g5, &e0);
            }
            proof {
                g5.store@.lemma_grow(e0.store@);
                assert(w.e.load_index_var.contains((x.0, x.1, x.2, x.3)));
                assert(w.e.wires(x.0, Path::slot(Instance::origin(x.0), 1), Path::var(x.3)));
                assert(w.e.says(x.0, Path::slot(Instance::origin(x.0), 1), Path::var(x.3)));
            }
            self.place_edge(st, s, w2, w3, Ghost(w), Ghost(seed));
            let ghost e1 = *st;
            proof {
                s0.lemma_le_trans(&e0, &e1);
                g5.lemma_le_trans(&e0, &e1);
            }
            proof {
                g5.store@.lemma_grow(e1.store@);
                assert(w.e.load_index_var.contains((x.0, x.1, x.2, x.3)));
                assert(w.e.wires(x.0, Path::var(x.1), Path::res(Instance::origin(x.0))));
                assert(w.e.says(x.0, Path::var(x.1), Path::res(Instance::origin(x.0))));
            }
            self.place_edge(st, s, w4, w5, Ghost(w), Ghost(seed));
            let ghost e2 = *st;
            proof {
                s0.lemma_le_trans(&e1, &e2);
                g5.lemma_le_trans(&e1, &e2);
            }
            proof {
                self.lemma_steady(s1, *st, w, seed);
                assert forall|z: int| 0 <= z < j + 1 implies {
                    let x = four_row(names, #[trigger] t@[z]);
                    placed_edge(w, st.said(), x.0, Path::slot(Instance::origin(x.0), 0),
                        Path::var(x.2)) && placed_edge(w, st.said(), x.0,
                        Path::slot(Instance::origin(x.0), 1), Path::var(x.3))
                        && placed_edge(w, st.said(), x.0, Path::var(x.1),
                        Path::res(Instance::origin(x.0)))
                } by {
                    let y = four_row(names, t@[z]);
                    if z < j {
                        lemma_placed_edge_grow(w, s1.said(), st.said(), y.0,
                            Path::slot(Instance::origin(y.0), 0), Path::var(y.2));
                        lemma_placed_edge_grow(w, s1.said(), st.said(), y.0,
                            Path::slot(Instance::origin(y.0), 1), Path::var(y.3));
                        lemma_placed_edge_grow(w, s1.said(), st.said(), y.0, Path::var(y.1),
                            Path::res(Instance::origin(y.0)));
                    }
                }
            }
            j += 1;
        }
        proof {
            assert forall|x: (Name, Name, Name, Name)| #[trigger] w.e.load_index_var.contains(x)
                implies placed_edge(w, st.said(), x.0, Path::slot(Instance::origin(x.0), 0),
                Path::var(x.2)) && placed_edge(w, st.said(), x.0,
                Path::slot(Instance::origin(x.0), 1), Path::var(x.3))
                && placed_edge(w, st.said(), x.0, Path::var(x.1),
                Path::res(Instance::origin(x.0))) by {
                let z = lemma_find_four(t@, names, w.e.load_index_var, x);
                assert(four_row(names, t@[z]) == x);
            }
        }
    }

    fn ground_store_accesses(&self, st: &mut State, Ghost(w): Ghost<Setting>,
        Ghost(seed): Ghost<Core>)
        requires
            self.steady(*old(st), w, seed),
        ensures
            self.steady(*final(st), w, seed),
            old(st).le(final(st)),
            old(st).said().le(final(st).said()),
            forall|x: (Name, Name, Name, Name)| #[trigger]
                w.e.store_index_var.contains(x)
                    ==> placed_edge(w, final(st).said(), x.0, Path::slot(Instance::origin(x.0), 0),
                    Path::var(x.1)) && placed_edge(w, final(st).said(), x.0,
                    Path::slot(Instance::origin(x.0), 1), Path::var(x.2))
                    && placed_edge(w, final(st).said(), x.0, Path::slot(Instance::origin(x.0), 2),
                    Path::var(x.3)),
    {
        let ghost s0 = *st;
        let ghost names = st.store@.names;
        let t = &self.facts.store_index_var;
        let mut j: usize = 0;
        while j < t.len()
            invariant
                j <= t@.len(),
                t == &self.facts.store_index_var,
                self.steady(s0, w, seed),
                self.steady(*st, w, seed),
                s0.le(st),
                s0.said().le(st.said()),
                names == s0.store@.names,
                forall|z: int|
                    0 <= z < j ==> {
                        let x = four_row(names, #[trigger] t@[z]);
                        placed_edge(w, st.said(), x.0, Path::slot(Instance::origin(x.0), 0),
                            Path::var(x.1)) && placed_edge(w, st.said(), x.0,
                            Path::slot(Instance::origin(x.0), 1), Path::var(x.2))
                            && placed_edge(w, st.said(), x.0, Path::slot(Instance::origin(x.0), 2),
                            Path::var(x.3))
                    },
            decreases t@.len() - j,
        {
            let ghost x = four_row(names, t@[j as int]);
            let ghost s1 = *st;
            proof {
                assert(four_ok(names, t@[j as int]));
                assert(w.e.store_index_var.contains(x));
            }
            let s: usize = t.at(j, 0);
            proof {
                assert(w.e.store_index_var.contains((x.0, x.1, x.2, x.3)));
                assert(w.e.store_stmt(x.0));
                assert(w.e.critical(x.0));
            }
            let id: usize = st.store.origin(s);
            let ghost si = *st;
            proof {
                s1.lemma_store_grow(&si);
                self.lemma_steady(s1, si, w, seed);
                s0.lemma_le_trans(&s1, &si);
            }
            let k0 = Key::slot(id, 0);
            proof {
                si.store@.lemma_grow(st.store@);
                assert(st.store@.key_ok(k0));
            }
            let w0: usize = self.bare_path(st, k0, Ghost(w), Ghost(seed));
            let ghost g0 = *st;
            proof {
                si.lemma_le_trans(&si, &g0);
                s0.lemma_le_trans(&si, &g0);
            }
            let k1 = Key::var(t.at(j, 1));
            proof {
                assert(st.store@.key_ok(k1));
            }
            let w1: usize = self.bare_path(st, k1, Ghost(w), Ghost(seed));
            let ghost g1 = *st;
            proof {
                g0.lemma_le_trans(&g0, &g1);
                s0.lemma_le_trans(&g0, &g1);
                si.lemma_le_trans(&g0, &g1);
            }
            let k2 = Key::slot(id, 1);
            proof {
                si.store@.lemma_grow(st.store@);
                assert(st.store@.key_ok(k2));
            }
            let w2: usize = self.bare_path(st, k2, Ghost(w), Ghost(seed));
            let ghost g2 = *st;
            proof {
                g1.lemma_le_trans(&g1, &g2);
                s0.lemma_le_trans(&g1, &g2);
                si.lemma_le_trans(&g1, &g2);
            }
            let k3 = Key::var(t.at(j, 2));
            proof {
                assert(st.store@.key_ok(k3));
            }
            let w3: usize = self.bare_path(st, k3, Ghost(w), Ghost(seed));
            let ghost g3 = *st;
            proof {
                g2.lemma_le_trans(&g2, &g3);
                s0.lemma_le_trans(&g2, &g3);
                si.lemma_le_trans(&g2, &g3);
            }
            let k4 = Key::slot(id, 2);
            proof {
                si.store@.lemma_grow(st.store@);
                assert(st.store@.key_ok(k4));
            }
            let w4: usize = self.bare_path(st, k4, Ghost(w), Ghost(seed));
            let ghost g4 = *st;
            proof {
                g3.lemma_le_trans(&g3, &g4);
                s0.lemma_le_trans(&g3, &g4);
                si.lemma_le_trans(&g3, &g4);
            }
            let k5 = Key::var(t.at(j, 3));
            proof {
                assert(st.store@.key_ok(k5));
            }
            let w5: usize = self.bare_path(st, k5, Ghost(w), Ghost(seed));
            let ghost g5 = *st;
            proof {
                g4.lemma_le_trans(&g4, &g5);
                s0.lemma_le_trans(&g4, &g5);
                si.lemma_le_trans(&g4, &g5);
            }
            proof {
                g0.lemma_le_trans(&g1, &g2);
                g0.lemma_le_trans(&g2, &g3);
                g0.lemma_le_trans(&g3, &g4);
                g0.lemma_le_trans(&g4, &g5);
                g0.store@.lemma_grow(g5.store@);
                assert(g5.store@.path(w0) == Path::slot(Instance::origin(x.0), 0));
                g1.lemma_le_trans(&g2, &g3);
                g1.lemma_le_trans(&g3, &g4);
                g1.lemma_le_trans(&g4, &g5);
                g1.store@.lemma_grow(g5.store@);
                assert(g5.store@.path(w1) == Path::var(x.1));
                g2.lemma_le_trans(&g3, &g4);
                g2.lemma_le_trans(&g4, &g5);
                g2.store@.lemma_grow(g5.store@);
                assert(g5.store@.path(w2) == Path::slot(Instance::origin(x.0), 1));
                g3.lemma_le_trans(&g4, &g5);
                g3.store@.lemma_grow(g5.store@);
                assert(g5.store@.path(w3) == Path::var(x.2));
                g4.store@.lemma_grow(g5.store@);
                assert(g5.store@.path(w4) == Path::slot(Instance::origin(x.0), 2));
                assert(g5.store@.path(w5) == Path::var(x.3));
            }
            proof {
                assert(w.e.store_index_var.contains((x.0, x.1, x.2, x.3)));
                assert(w.e.wires(x.0, Path::slot(Instance::origin(x.0), 0), Path::var(x.1)));
                assert(w.e.says(x.0, Path::slot(Instance::origin(x.0), 0), Path::var(x.1)));
            }
            self.place_edge(st, s, w0, w1, Ghost(w), Ghost(seed));
            let ghost e0 = *st;
            proof {
                s0.lemma_le_trans(&g5, &e0);
            }
            proof {
                g5.store@.lemma_grow(e0.store@);
                assert(w.e.store_index_var.contains((x.0, x.1, x.2, x.3)));
                assert(w.e.wires(x.0, Path::slot(Instance::origin(x.0), 1), Path::var(x.2)));
                assert(w.e.says(x.0, Path::slot(Instance::origin(x.0), 1), Path::var(x.2)));
            }
            self.place_edge(st, s, w2, w3, Ghost(w), Ghost(seed));
            let ghost e1 = *st;
            proof {
                s0.lemma_le_trans(&e0, &e1);
                g5.lemma_le_trans(&e0, &e1);
            }
            proof {
                g5.store@.lemma_grow(e1.store@);
                assert(w.e.store_index_var.contains((x.0, x.1, x.2, x.3)));
                assert(w.e.wires(x.0, Path::slot(Instance::origin(x.0), 2), Path::var(x.3)));
                assert(w.e.says(x.0, Path::slot(Instance::origin(x.0), 2), Path::var(x.3)));
            }
            self.place_edge(st, s, w4, w5, Ghost(w), Ghost(seed));
            let ghost e2 = *st;
            proof {
                s0.lemma_le_trans(&e1, &e2);
                g5.lemma_le_trans(&e1, &e2);
            }
            proof {
                self.lemma_steady(s1, *st, w, seed);
                assert forall|z: int| 0 <= z < j + 1 implies {
                    let x = four_row(names, #[trigger] t@[z]);
                    placed_edge(w, st.said(), x.0, Path::slot(Instance::origin(x.0), 0),
                        Path::var(x.1)) && placed_edge(w, st.said(), x.0,
                        Path::slot(Instance::origin(x.0), 1), Path::var(x.2))
                        && placed_edge(w, st.said(), x.0, Path::slot(Instance::origin(x.0), 2),
                        Path::var(x.3))
                } by {
                    let y = four_row(names, t@[z]);
                    if z < j {
                        lemma_placed_edge_grow(w, s1.said(), st.said(), y.0,
                            Path::slot(Instance::origin(y.0), 0), Path::var(y.1));
                        lemma_placed_edge_grow(w, s1.said(), st.said(), y.0,
                            Path::slot(Instance::origin(y.0), 1), Path::var(y.2));
                        lemma_placed_edge_grow(w, s1.said(), st.said(), y.0,
                            Path::slot(Instance::origin(y.0), 2), Path::var(y.3));
                    }
                }
            }
            j += 1;
        }
        proof {
            assert forall|x: (Name, Name, Name, Name)| #[trigger] w.e.store_index_var.contains(x)
                implies placed_edge(w, st.said(), x.0, Path::slot(Instance::origin(x.0), 0),
                Path::var(x.1)) && placed_edge(w, st.said(), x.0,
                Path::slot(Instance::origin(x.0), 1), Path::var(x.2))
                && placed_edge(w, st.said(), x.0, Path::slot(Instance::origin(x.0), 2),
                Path::var(x.3)) by {
                let z = lemma_find_four(t@, names, w.e.store_index_var, x);
                assert(four_row(names, t@[z]) == x);
            }
        }
    }

    fn ground_formals(&self, st: &mut State, Ghost(w): Ghost<Setting>, Ghost(seed): Ghost<Core>)
        requires
            self.steady(*old(st), w, seed),
        ensures
            self.steady(*final(st), w, seed),
            old(st).le(final(st)),
            old(st).said().le(final(st).said()),
            forall|p: Name, x: Path, y: Path| #[trigger]
                w.edge_by_formal(p, x, y) ==> final(st).said().edge.contains((p, x, y)),
    {
        let ghost s0 = *st;
        let ghost names = st.store@.names;
        let t = &self.facts.formal;
        let mut j: usize = 0;
        while j < t.len()
            invariant
                j <= t@.len(),
                t == &self.facts.formal,
                self.steady(s0, w, seed),
                self.steady(*st, w, seed),
                s0.le(st),
                s0.said().le(st.said()),
                names == s0.store@.names,
                forall|z: int|
                    0 <= z < j ==> {
                        let x = indexed_row(names, #[trigger] t@[z]);
                        st.said().edge.contains((x.0, Path::var(x.2), Path::param(x.0, x.1)))
                    },
            decreases t@.len() - j,
        {
            let ghost x = indexed_row(names, t@[j as int]);
            let ghost s1 = *st;
            proof {
                assert(indexed_ok(names, t@[j as int]));
                assert(w.e.formal.contains((x.0, x.1, x.2)));
            }
            let p: usize = t.at(j, 0);
            let i: usize = t.at(j, 1);
            let v: usize = t.at(j, 2);
            let ka = Key::var(v);
            let kb = Key::param(p, i);
            proof {
                assert(st.store@.key_ok(ka));
            }
            let sup: usize = self.bare_path(st, ka, Ghost(w), Ghost(seed));
            let ghost s2 = *st;
            proof {
                assert(st.store@.key_ok(kb));
            }
            let sub: usize = self.bare_path(st, kb, Ghost(w), Ghost(seed));
            let ghost s3 = *st;
            proof {
                s1.lemma_le_trans(&s2, &s3);
                s0.lemma_le_trans(&s1, &s3);
                s2.store@.lemma_grow(s3.store@);
                assert(w.edge_by_formal(x.0, Path::var(x.2), Path::param(x.0, x.1)));
                assert(w.edge_from(st.said(), x.0, Path::var(x.2), Path::param(x.0, x.1)));
            }
            st.derive_edge(p, sup, sub, Ghost(w), Ghost(seed));
            proof {
                self.lemma_steady(s3, *st, w, seed);
                s0.lemma_le_trans(&s3, st);
            }
            j += 1;
        }
        proof {
            assert forall|p: Name, x: Path, y: Path| #[trigger] w.edge_by_formal(p, x, y)
                implies st.said().edge.contains(
                (p, x, y),
            ) by {
                let (i, v) = choose|i: ArgIdx, v: Name| #[trigger]
                    w.e.formal.contains((p, i, v)) && x == Path::var(v) && y == Path::param(p, i);
                let z = lemma_find_indexed(t@, names, w.e.formal, (p, i, v));
                assert(indexed_row(names, t@[z]) == (p, i, v));
            }
        }
    }

    fn ground_returns(&self, st: &mut State, Ghost(w): Ghost<Setting>, Ghost(seed): Ghost<Core>)
        requires
            self.steady(*old(st), w, seed),
        ensures
            self.steady(*final(st), w, seed),
            old(st).le(final(st)),
            old(st).said().le(final(st).said()),
            forall|p: Name, x: Path, y: Path| #[trigger]
                w.edge_by_return(p, x, y) ==> final(st).said().edge.contains((p, x, y)),
    {
        let ghost s0 = *st;
        let ghost names = st.store@.names;
        let t = &self.facts.ret;
        let mut j: usize = 0;
        while j < t.len()
            invariant
                j <= t@.len(),
                t == &self.facts.ret,
                self.steady(s0, w, seed),
                self.steady(*st, w, seed),
                s0.le(st),
                s0.said().le(st.said()),
                names == s0.store@.names,
                forall|z: int|
                    0 <= z < j ==> {
                        let x = two_row(names, #[trigger] t@[z]);
                        st.said().edge.contains((x.0, Path::ret(x.0), Path::var(x.1)))
                    },
            decreases t@.len() - j,
        {
            let ghost x = two_row(names, t@[j as int]);
            let ghost s1 = *st;
            proof {
                assert(two_ok(names, t@[j as int]));
                assert(w.e.ret.contains((x.0, x.1)));
            }
            let p: usize = t.at(j, 0);
            let v: usize = t.at(j, 1);
            let ka = Key::ret(p);
            let kb = Key::var(v);
            proof {
                assert(st.store@.key_ok(ka));
            }
            let sup: usize = self.bare_path(st, ka, Ghost(w), Ghost(seed));
            let ghost s2 = *st;
            proof {
                assert(st.store@.key_ok(kb));
            }
            let sub: usize = self.bare_path(st, kb, Ghost(w), Ghost(seed));
            let ghost s3 = *st;
            proof {
                s1.lemma_le_trans(&s2, &s3);
                s0.lemma_le_trans(&s1, &s3);
                s2.store@.lemma_grow(s3.store@);
                assert(w.edge_by_return(x.0, Path::ret(x.0), Path::var(x.1)));
                assert(w.edge_from(st.said(), x.0, Path::ret(x.0), Path::var(x.1)));
            }
            st.derive_edge(p, sup, sub, Ghost(w), Ghost(seed));
            proof {
                self.lemma_steady(s3, *st, w, seed);
                s0.lemma_le_trans(&s3, st);
            }
            j += 1;
        }
        proof {
            assert forall|p: Name, x: Path, y: Path| #[trigger] w.edge_by_return(p, x, y)
                implies st.said().edge.contains(
                (p, x, y),
            ) by {
                let v = choose|v: Name| #[trigger]
                    w.e.ret.contains((p, v)) && x == Path::ret(p) && y == Path::var(v);
                let z = lemma_find_two(t@, names, w.e.ret, (p, v));
                assert(two_row(names, t@[z]) == (p, v));
            }
        }
    }

    fn ground_allocs(&self, st: &mut State, Ghost(w): Ghost<Setting>, Ghost(seed): Ghost<Core>)
        requires
            self.steady(*old(st), w, seed),
        ensures
            self.steady(*final(st), w, seed),
            old(st).le(final(st)),
            old(st).said().le(final(st).said()),
            forall|x: (Name, Name, Name)| #[trigger]
                w.e.alloc.contains(x) ==> placed_point(
                    w,
                    final(st).said(),
                    x.0,
                    Path::var(x.1),
                    Value::Alloc(x.2),
                ),
    {
        let ghost s0 = *st;
        let ghost names = st.store@.names;
        let t = &self.facts.alloc;
        let mut j: usize = 0;
        while j < t.len()
            invariant
                j <= t@.len(),
                t == &self.facts.alloc,
                self.steady(s0, w, seed),
                self.steady(*st, w, seed),
                s0.le(st),
                s0.said().le(st.said()),
                names == s0.store@.names,
                forall|z: int|
                    0 <= z < j ==> {
                        let x = three_row(names, #[trigger] t@[z]);
                        placed_point(w, st.said(), x.0, Path::var(x.1), Value::Alloc(x.2))
                    },
            decreases t@.len() - j,
        {
            let ghost x = three_row(names, t@[j as int]);
            let ghost s1 = *st;
            proof {
                assert(three_ok(names, t@[j as int]));
                assert(w.e.alloc.contains((x.0, x.1, x.2)));
            }
            let s: usize = t.at(j, 0);
            let v: usize = t.at(j, 1);
            let l: usize = t.at(j, 2);
            let key = Key::var(v);
            proof {
                assert(st.store@.key_ok(key));
            }
            let at: usize = self.bare_path(st, key, Ghost(w), Ghost(seed));
            let ghost s2 = *st;
            proof {
                s0.lemma_le_trans(&s1, &s2);
                st.store@.lemma_value_name(l);
                assert(w.e.holds(x.0, Path::var(x.1), Value::Alloc(x.2)));
            }
            self.place_point(st, s, at, 1, l, Ghost(w), Ghost(seed));
            proof {
                s0.lemma_le_trans(&s2, st);
                s1.lemma_le_trans(&s2, st);
                self.lemma_steady(s1, *st, w, seed);
                assert forall|z: int| 0 <= z < j + 1 implies {
                    let x = three_row(names, #[trigger] t@[z]);
                    placed_point(w, st.said(), x.0, Path::var(x.1), Value::Alloc(x.2))
                } by {
                    let y = three_row(names, t@[z]);
                    if z < j {
                        lemma_placed_point_grow(
                            w,
                            s1.said(),
                            st.said(),
                            y.0,
                            Path::var(y.1),
                            Value::Alloc(y.2),
                        );
                    }
                }
            }
            j += 1;
        }
        proof {
            assert forall|x: (Name, Name, Name)| #[trigger] w.e.alloc.contains(x)
                implies placed_point(
                w,
                st.said(),
                x.0,
                Path::var(x.1),
                Value::Alloc(x.2),
            ) by {
                let z = lemma_find_three(t@, names, w.e.alloc, x);
                assert(three_row(names, t@[z]) == x);
            }
        }
    }

    fn ground_consts(&self, st: &mut State, Ghost(w): Ghost<Setting>, Ghost(seed): Ghost<Core>)
        requires
            self.steady(*old(st), w, seed),
        ensures
            self.steady(*final(st), w, seed),
            old(st).le(final(st)),
            old(st).said().le(final(st).said()),
            forall|x: (Name, Name, Name)| #[trigger]
                w.e.const_assign.contains(x) ==> placed_point(
                    w,
                    final(st).said(),
                    x.0,
                    Path::var(x.1),
                    Value::Const(x.2),
                ),
    {
        let ghost s0 = *st;
        let ghost names = st.store@.names;
        let t = &self.facts.const_assign;
        let mut j: usize = 0;
        while j < t.len()
            invariant
                j <= t@.len(),
                t == &self.facts.const_assign,
                self.steady(s0, w, seed),
                self.steady(*st, w, seed),
                s0.le(st),
                s0.said().le(st.said()),
                names == s0.store@.names,
                forall|z: int|
                    0 <= z < j ==> {
                        let x = three_row(names, #[trigger] t@[z]);
                        placed_point(w, st.said(), x.0, Path::var(x.1), Value::Const(x.2))
                    },
            decreases t@.len() - j,
        {
            let ghost x = three_row(names, t@[j as int]);
            let ghost s1 = *st;
            proof {
                assert(three_ok(names, t@[j as int]));
                assert(w.e.const_assign.contains((x.0, x.1, x.2)));
            }
            let s: usize = t.at(j, 0);
            let v: usize = t.at(j, 1);
            let l: usize = t.at(j, 2);
            let key = Key::var(v);
            proof {
                assert(st.store@.key_ok(key));
            }
            let at: usize = self.bare_path(st, key, Ghost(w), Ghost(seed));
            let ghost s2 = *st;
            proof {
                s0.lemma_le_trans(&s1, &s2);
                st.store@.lemma_value_name(l);
                assert(w.e.holds(x.0, Path::var(x.1), Value::Const(x.2)));
            }
            self.place_point(st, s, at, 2, l, Ghost(w), Ghost(seed));
            proof {
                s0.lemma_le_trans(&s2, st);
                s1.lemma_le_trans(&s2, st);
                self.lemma_steady(s1, *st, w, seed);
                assert forall|z: int| 0 <= z < j + 1 implies {
                    let x = three_row(names, #[trigger] t@[z]);
                    placed_point(w, st.said(), x.0, Path::var(x.1), Value::Const(x.2))
                } by {
                    let y = three_row(names, t@[z]);
                    if z < j {
                        lemma_placed_point_grow(
                            w,
                            s1.said(),
                            st.said(),
                            y.0,
                            Path::var(y.1),
                            Value::Const(y.2),
                        );
                    }
                }
            }
            j += 1;
        }
        proof {
            assert forall|x: (Name, Name, Name)| #[trigger] w.e.const_assign.contains(x)
                implies placed_point(
                w,
                st.said(),
                x.0,
                Path::var(x.1),
                Value::Const(x.2),
            ) by {
                let z = lemma_find_three(t@, names, w.e.const_assign, x);
                assert(three_row(names, t@[z]) == x);
            }
        }
    }

    fn ground_origins(&self, st: &mut State, Ghost(w): Ghost<Setting>, Ghost(seed): Ghost<Core>)
        requires
            self.steady(*old(st), w, seed),
        ensures
            self.steady(*final(st), w, seed),
            old(st).le(final(st)),
            old(st).said().le(final(st).said()),
            forall|p: Name, id: Instance| #[trigger]
                w.e.crit_origin(p, id.stmt, id) ==> final(st).said().pending.contains((p, id)),
    {
        let ghost s0 = *st;
        let ghost names = st.store@.names;
        let t = &self.derived.critical;
        let places = &self.facts.homes;
        let mut j: usize = 0;
        while j < t.len()
            invariant
                j <= t@.len(),
                t == &self.derived.critical,
                places == &self.facts.homes,
                self.steady(s0, w, seed),
                self.steady(*st, w, seed),
                s0.le(st),
                s0.said().le(st.said()),
                names == s0.store@.names,
                forall|z: int, h: int|
                    #![trigger t@[z], places@[h]]
                    0 <= z < j && 0 <= h < places@.len() && places@[h][0] == t@[z][0]
                        ==> st.said().pending.contains(
                        (names[places@[h][1] as int], Instance::origin(names[t@[z][0] as int])),
                    ),
            decreases t@.len() - j,
        {
            let ghost s1 = *st;
            proof {
                assert(one_ok(names, t@[j as int]));
                assert(critical_set(w.e).contains(one_row(names, t@[j as int])));
            }
            let s: usize = t.at(j, 0);
            let ghost inst = Instance::origin(names[s as int]);
            let id: usize = st.store.origin(s);
            let ghost s2 = *st;
            proof {
                s1.lemma_store_grow(&s2);
                self.lemma_steady(s1, s2, w, seed);
                s0.lemma_le_trans(&s1, &s2);
            }
            let list = places.heads(s);
            let mut y: usize = 0;
            while y < list.len()
                invariant
                    y <= list@.len(),
                    places == &self.facts.homes,
                    self.steady(s1, w, seed),
                    self.steady(s2, w, seed),
                    self.steady(*st, w, seed),
                    s0.le(st),
                    s1.le(st),
                    s1.said().le(st.said()),
                    s0.said().le(st.said()),
                    st.store == s2.store,
                    names == s2.store@.names,
                    s < names.len(),
                    id < s2.store@.insts.len(),
                    s2.store@.inst(id) == inst,
                    inst == Instance::origin(names[s as int]),
                    w.e.critical(names[s as int]),
                    forall|z: int|
                        0 <= z < list@.len() ==> (#[trigger] list@[z]) < places@.len()
                            && places@[list@[z] as int][0] == s,
                    forall|z: int|
                        0 <= z < y ==> st.said().pending.contains(
                            (names[places@[#[trigger] list@[z] as int][1] as int], inst),
                        ),
                decreases list@.len() - y,
            {
                let h: usize = list[y];
                let ghost s3 = *st;
                proof {
                    assert(two_ok(names, places@[h as int]));
                    let x = two_row(names, places@[h as int]);
                    assert(homes(w.e).contains(x));
                    assert(w.e.crit_origin(x.1, inst.stmt, inst));
                    assert(w.pending_from(st.said(), x.1, inst));
                }
                let p: usize = places.at(h, 1);
                st.derive_pending(p, id, Ghost(w), Ghost(seed));
                proof {
                    self.lemma_steady(s3, *st, w, seed);
                    s0.lemma_le_trans(&s3, st);
                    s1.lemma_le_trans(&s3, st);
                }
                y += 1;
            }
            proof {
                assert forall|h: int| 0 <= h < places@.len() && (#[trigger] places@[h])[0] == s
                    implies st.said().pending.contains(
                (names[places@[h][1] as int], inst)) by {
                    places.lemma_distinct();
                    assert(two_ok(names, places@[h]));
                    assert(list@.contains(h as usize));
                    let z = choose|z: int| 0 <= z < list@.len() && list@[z] == h as usize;
                    assert(places@[list@[z] as int] == places@[h]);
                }
            }
            j += 1;
        }
        proof {
            st.store@.lemma_wf();
            assert forall|p: Name, id: Instance| #[trigger]
                w.e.crit_origin(p, id.stmt, id) implies st.said().pending.contains((p, id)) by {
                let s = id.stmt;
                assert(critical_set(w.e).contains(s));
                let z = lemma_find_one(t@, names, critical_set(w.e), s);
                assert(homes(w.e).contains((s, p)));
                let h = lemma_find_two(places@, names, homes(w.e), (s, p));
                assert(places@[h][0] == t@[z][0]);
                assert(one_row(names, t@[z]) == s);
            }
        }
    }

    /// Everything that the facts derive by themselves.
    pub fn ground(&self, st: &mut State, Ghost(w): Ghost<Setting>, Ghost(seed): Ghost<Core>)
        requires
            self.steady(*old(st), w, seed),
        ensures
            self.steady(*final(st), w, seed),
            old(st).le(final(st)),
            grounded(w, final(st).said()),
    {
        let ghost s0 = *st;
        self.ground_moves(st, Ghost(w), Ghost(seed));
        let ghost s1 = *st;
        self.ground_field_loads(st, Ghost(w), Ghost(seed));
        let ghost s2 = *st;
        proof {
            s0.lemma_le_trans(&s1, &s2);
        }
        self.ground_field_stores(st, Ghost(w), Ghost(seed));
        let ghost s3 = *st;
        proof {
            s0.lemma_le_trans(&s2, &s3);
        }
        self.ground_index_loads(st, Ghost(w), Ghost(seed));
        let ghost s4 = *st;
        proof {
            s0.lemma_le_trans(&s3, &s4);
        }
        self.ground_index_stores(st, Ghost(w), Ghost(seed));
        let ghost s5 = *st;
        proof {
            s0.lemma_le_trans(&s4, &s5);
        }
        self.ground_arguments(st, Ghost(w), Ghost(seed));
        let ghost s6 = *st;
        proof {
            s0.lemma_le_trans(&s5, &s6);
        }
        self.ground_results(st, Ghost(w), Ghost(seed));
        let ghost s7 = *st;
        proof {
            s0.lemma_le_trans(&s6, &s7);
        }
        self.ground_load_accesses(st, Ghost(w), Ghost(seed));
        let ghost s8 = *st;
        proof {
            s0.lemma_le_trans(&s7, &s8);
        }
        self.ground_store_accesses(st, Ghost(w), Ghost(seed));
        let ghost s9 = *st;
        proof {
            s0.lemma_le_trans(&s8, &s9);
        }
        self.ground_formals(st, Ghost(w), Ghost(seed));
        let ghost s10 = *st;
        proof {
            s0.lemma_le_trans(&s9, &s10);
        }
        self.ground_returns(st, Ghost(w), Ghost(seed));
        let ghost s11 = *st;
        proof {
            s0.lemma_le_trans(&s10, &s11);
        }
        self.ground_allocs(st, Ghost(w), Ghost(seed));
        let ghost s12 = *st;
        proof {
            s0.lemma_le_trans(&s11, &s12);
        }
        self.ground_consts(st, Ghost(w), Ghost(seed));
        let ghost s13 = *st;
        proof {
            s0.lemma_le_trans(&s12, &s13);
        }
        self.ground_origins(st, Ghost(w), Ghost(seed));
        let ghost s14 = *st;
        proof {
            s0.lemma_le_trans(&s13, &s14);
        }
        proof {
            let m = st.said();
            assert(s13.said().le(m));
            assert(s12.said().le(m));
            assert(s11.said().le(m));
            assert(s10.said().le(m));
            assert(s9.said().le(m));
            assert(s8.said().le(m));
            assert(s7.said().le(m));
            assert(s6.said().le(m));
            assert(s5.said().le(m));
            assert(s4.said().le(m));
            assert(s3.said().le(m));
            assert(s2.said().le(m));
            assert(s1.said().le(m));
            assert forall|p: Name, x: Path, y: Path| #[trigger] w.edge_by_statement(p, x, y)
                implies m.edge.contains(
                (p, x, y),
            ) by {
                let s = choose|s: Name| #[trigger] w.e.stands_in(s, p) && w.e.says(s, x, y);
                if exists|to: Name, from: Name| #[trigger]
                    w.e.mov.contains((s, to, from)) && x == Path::var(to) && y == Path::var(from) {
                    let (to, from) = choose|to: Name, from: Name| #[trigger]
                        w.e.mov.contains((s, to, from)) && x == Path::var(to)
                            && y == Path::var(from);
                    assert(placed_edge(w, s1.said(), s, x, y));
                } else if exists|to: Name, base: Name, f: Name| #[trigger]
                    w.e.load_field.contains((s, to, base, f)) && x == Path::var(to)
                        && y == Path::var(
                        base,
                    ).then_step(Step::Field(f)) {
                    let (to, base, f) = choose|to: Name, base: Name, f: Name| #[trigger]
                        w.e.load_field.contains((s, to, base, f)) && x == Path::var(to) && y
                            == Path::var(base).then_step(Step::Field(f));
                    assert(placed_edge(w, s2.said(), s, x, y));
                } else if exists|base: Name, f: Name, from: Name| #[trigger]
                    w.e.store_field.contains((s, base, f, from)) && x == Path::var(base).then_step(
                        Step::Field(f),
                    ) && y == Path::var(from) {
                    let (base, f, from) = choose|base: Name, f: Name, from: Name| #[trigger]
                        w.e.store_field.contains((s, base, f, from))
                            && x == Path::var(base).then_step(
                            Step::Field(f),
                        ) && y == Path::var(from);
                    assert(placed_edge(w, s3.said(), s, x, y));
                } else if exists|to: Name, base: Name, f: Name| #[trigger]
                    w.e.load_index_const.contains((s, to, base, f)) && x == Path::var(to) && y
                        == Path::var(base).then_step(Step::Index(f)) {
                    let (to, base, f) = choose|to: Name, base: Name, f: Name| #[trigger]
                        w.e.load_index_const.contains((s, to, base, f)) && x == Path::var(to) && y
                            == Path::var(base).then_step(Step::Index(f));
                    assert(placed_edge(w, s4.said(), s, x, y));
                } else if exists|base: Name, f: Name, from: Name| #[trigger]
                    w.e.store_index_const.contains((s, base, f, from)) && x == Path::var(
                        base,
                    ).then_step(Step::Index(f)) && y == Path::var(from) {
                    let (base, f, from) = choose|base: Name, f: Name, from: Name| #[trigger]
                        w.e.store_index_const.contains((s, base, f, from)) && x == Path::var(
                            base,
                        ).then_step(Step::Index(f)) && y == Path::var(from);
                    assert(placed_edge(w, s5.said(), s, x, y));
                } else {
                    let id = Instance::origin(s);
                    assert(w.e.critical(s) && w.e.wires(s, x, y));
                    if exists|i: ArgIdx, a: Name| #[trigger]
                        w.e.actual_arg.contains((s, i, a)) && x == Path::slot(id, i)
                            && y == Path::var(
                            a,
                        ) {
                        let (i, a) = choose|i: ArgIdx, a: Name| #[trigger]
                            w.e.actual_arg.contains((s, i, a)) && x == Path::slot(id, i) && y
                                == Path::var(a);
                        assert(placed_edge(w, s6.said(), s, x, y));
                    } else if exists|r: Name| #[trigger]
                        w.e.bind_ret.contains((s, r)) && x == Path::var(r) && y == Path::res(id) {
                        let r = choose|r: Name| #[trigger]
                            w.e.bind_ret.contains((s, r)) && x == Path::var(r)
                                && y == Path::res(id);
                        assert(placed_edge(w, s7.said(), s, x, y));
                    } else if exists|to: Name, base: Name, i: Name| #[trigger]
                        w.e.load_index_var.contains((s, to, base, i)) && {
                            ||| x == Path::slot(id, 0) && y == Path::var(base)
                            ||| x == Path::slot(id, 1) && y == Path::var(i)
                            ||| x == Path::var(to) && y == Path::res(id)
                        } {
                        let (to, base, i) = choose|to: Name, base: Name, i: Name| #[trigger]
                            w.e.load_index_var.contains((s, to, base, i)) && {
                                ||| x == Path::slot(id, 0) && y == Path::var(base)
                                ||| x == Path::slot(id, 1) && y == Path::var(i)
                                ||| x == Path::var(to) && y == Path::res(id)
                            };
                        assert(placed_edge(w, s8.said(), s, x, y));
                    } else {
                        let (base, i, from) = choose|base: Name, i: Name, from: Name| #[trigger]
                            w.e.store_index_var.contains((s, base, i, from)) && {
                                ||| x == Path::slot(id, 0) && y == Path::var(base)
                                ||| x == Path::slot(id, 1) && y == Path::var(i)
                                ||| x == Path::slot(id, 2) && y == Path::var(from)
                            };
                        assert(placed_edge(w, s9.said(), s, x, y));
                    }
                }
            }
            assert forall|p: Name, x: Path, v: Value| #[trigger]
                w.points_by_statement(p, x, v) implies m.points.contains((p, x, v)) by {
                let s = choose|s: Name| #[trigger] w.e.stands_in(s, p) && w.e.holds(s, x, v);
                if exists|y: Name, l: Name| #[trigger]
                    w.e.alloc.contains((s, y, l)) && x == Path::var(y) && v == Value::Alloc(l) {
                    let (y, l) = choose|y: Name, l: Name| #[trigger]
                        w.e.alloc.contains((s, y, l)) && x == Path::var(y) && v == Value::Alloc(l);
                    assert(placed_point(w, s12.said(), s, x, v));
                } else {
                    let (y, l) = choose|y: Name, l: Name| #[trigger]
                        w.e.const_assign.contains((s, y, l)) && x == Path::var(y)
                            && v == Value::Const(
                            l,
                        );
                    assert(placed_point(w, s13.said(), s, x, v));
                }
            }
            assert forall|p: Name, x: Path, y: Path| #[trigger] w.edge_by_formal(p, x, y)
                implies m.edge.contains(
                (p, x, y),
            ) by {
                assert(s10.said().edge.contains((p, x, y)));
            }
            assert forall|p: Name, x: Path, y: Path| #[trigger] w.edge_by_return(p, x, y)
                implies m.edge.contains(
                (p, x, y),
            ) by {
                assert(s11.said().edge.contains((p, x, y)));
            }
        }
    }
}

proof fn lemma_placed_edge_grow(w: Setting, a: Core, b: Core, s: Name, x: Path, y: Path)
    requires
        a.le(b),
        placed_edge(w, a, s, x, y),
    ensures
        placed_edge(w, b, s, x, y),
{
}

proof fn lemma_placed_point_grow(w: Setting, a: Core, b: Core, s: Name, x: Path, v: Value)
    requires
        a.le(b),
        placed_point(w, a, s, x, v),
    ensures
        placed_point(w, b, s, x, v),
{
}

} // verus!
