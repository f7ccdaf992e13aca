//! Inlining: what a callsite or a resolved instance does to a callee's summary.
use vstd::prelude::*;

use crate::access_path::Root;
use crate::codes::{Codes, Key, Kind};
use crate::derived::eff_set;
use crate::engine::Engine;
use crate::facts::{
    indexed_ok, indexed_row, lemma_find_indexed, lemma_find_two, lemma_has_two, two_ok, two_row,
};
use crate::ir::Name;
use crate::marks::{lists, Marks};
use crate::rules::{crit_root, Core, Setting};
use crate::state::State;

verus! {

/// A list of roots stands for exactly the roots that satisfy a predicate.
pub open spec fn roots_are(list: Seq<Key>, c: Codes, want: Set<Root>) -> bool {
    &&& forall|j: int|
        0 <= j < list.len() ==> c.key_ok(#[trigger] list[j]) && want.contains(c.root(list[j]))
    &&& forall|x: Root| #[trigger]
        want.contains(x) ==> exists|j: int| 0 <= j < list.len() && c.root(#[trigger] list[j]) == x
}

/// Where callsite `s` sends a root.
pub open spec fn images(w: Setting, m: Core, s: Name, root: Root) -> Set<Root> {
    Set::new(|to: Root| w.root_map(m, s, root, to))
}

impl Engine {
    /// Everything a rule that uses marks needs to know.
    pub open spec fn ready(&self, st: State, sm: State, marks: Marks, w: Setting, seed: Core)
        -> bool {
        &&& st.wf()
        &&& sm.wf()
        &&& sm.le(&st)
        &&& self.ok(st.store@, w)
        &&& marks.ok(sm, w)
        &&& w.follows(seed, st.said())
    }

    /// A rule may go on with the state it leaves.
    pub proof fn lemma_ready(
        &self,
        a: State,
        b: State,
        sm: State,
        marks: Marks,
        w: Setting,
        seed: Core,
    )
        requires
            self.ready(a, sm, marks, w, seed),
            b.wf(),
            a.le(&b),
            w.follows(seed, b.said()),
        ensures
            self.ready(b, sm, marks, w, seed),
            sm.said().le(a.said()),
            sm.said().le(b.said()),
            a.said().le(b.said()),
    {
        sm.lemma_le_trans(&a, &b);
        sm.lemma_grow(&a);
        sm.lemma_grow(&b);
        a.lemma_grow(&b);
        self.lemma_grow(a.store@, b.store@, w);
    }

    /// Whether some callee of `s` hands its placeholder `id` to the caller.
    pub fn moves(
        &self,
        st: &State,
        marks: &Marks,
        s: usize,
        id: usize,
        Ghost(sm): Ghost<State>,
        Ghost(w): Ghost<Setting>,
    ) -> (r: bool)
        requires
            st.tables_ok(),
            self.ok(st.store@, w),
            sm.tables_ok(),
            sm.le(st),
            marks.ok(sm, w),
            s < st.store@.names.len(),
            id < st.store@.insts.len(),
        ensures
            r == w.moves(sm.said(), st.store@.name(s), st.store@.inst(id)),
    {
        let ghost c = st.store@;
        let ghost m = sm.said();
        if st.store.depth(id) >= self.k {
            return false;
        }
        let eff = &self.derived.eff;
        let list = eff.heads(s);
        proof {
            c.lemma_wf();
            sm.lemma_grow(st);
            sm.store@.lemma_grow(c);
        }
        let mut j: usize = 0;
        while j < list.len()
            invariant
                j <= list@.len(),
                st.tables_ok(),
                sm.tables_ok(),
                sm.le(st),
                self.ok(c, w),
                marks.ok(sm, w),
                c == st.store@,
                m == sm.said(),
                eff == &self.derived.eff,
                s < c.names.len(),
                id < c.insts.len(),
                c.inst(id).depth() < w.k,
                forall|z: int|
                    0 <= z < list@.len() ==> (#[trigger] list@[z]) < eff@.len()
                        && eff@[list@[z] as int][0] == s,
                forall|z: int|
                    0 <= z < j ==> !w.blocked(
                        m,
                        c.name(eff@[#[trigger] list@[z] as int][1]),
                        c.inst(id),
                    ),
            decreases list@.len() - j,
        {
            let x: usize = list[j];
            proof {
                assert(two_ok(c.names, eff@[x as int]));
            }
            let callee: usize = eff.at(x, 1);
            let cells: Vec<usize> = vec![callee, id];
            let found = st.pending.find(cells.as_slice());
            proof {
                sm.lemma_grow(st);
                assert(eff_set(w.e).contains(two_row(c.names, eff@[x as int])));
                assert(w.e.eff_direct(c.name(s), c.name(callee)));
            }
            match found {
                Some(y) => {
                    if y < marks.blocked.len() {
                        proof {
                            assert(sm.pending@[y as int] == st.pending@[y as int]);
                            assert(sm.pending_of(sm.pending@[y as int]) == (
                                c.name(callee),
                                c.inst(id),
                            ));
                        }
                        if marks.blocked[y] {
                            return true;
                        }
                    } else {
                        proof {
                            if w.blocked(m, c.name(callee), c.inst(id)) {
                                let z = sm.lemma_pending_row((c.name(callee), c.inst(id)));
                                let row = sm.pending@[z];
                                sm.store@.lemma_grow(c);
                                assert(st.pending@[z] == row);
                                c.lemma_name_injective(row[0], callee);
                                c.lemma_inst_injective(row[1], id);
                                st.pending.lemma_distinct();
                                assert(row =~= st.pending@[y as int]);
                            }
                        }
                    }
                },
                None => {
                    proof {
                        if w.blocked(m, c.name(callee), c.inst(id)) {
                            let z = sm.lemma_pending_row((c.name(callee), c.inst(id)));
                            let row = sm.pending@[z];
                            sm.store@.lemma_grow(c);
                            assert(st.pending@[z] == row);
                            c.lemma_name_injective(row[0], callee);
                            c.lemma_inst_injective(row[1], id);
                            assert(row =~= cells@);
                            assert(st.pending@.contains(cells@));
                        }
                    }
                },
            }
            j += 1;
        }
        proof {
            if w.moves(m, c.name(s), c.inst(id)) {
                let callee = choose|callee: Name| #[trigger]
                    w.e.eff_direct(c.name(s), callee) && w.blocked(m, callee, c.inst(id));
                assert(eff_set(w.e).contains((c.name(s), callee)));
                let i = lemma_find_two(eff@, c.names, eff_set(w.e), (c.name(s), callee));
                eff.lemma_distinct();
                assert(eff@[i][0] == s);
                assert(list@.contains(i as usize));
                let z = choose|z: int| 0 <= z < list@.len() && list@[z] == i as usize;
                assert(!w.blocked(m, c.name(eff@[list@[z] as int][1]), c.inst(id)));
            }
        }
        false
    }

    fn is_callee(&self, s: usize, p: usize, Ghost(c): Ghost<Codes>, Ghost(w): Ghost<Setting>) -> (r:
        bool)
        requires
            c.wf(),
            self.ok(c, w),
            s < c.names.len(),
            p < c.names.len(),
        ensures
            r == w.e.eff_direct(c.name(s), c.name(p)),
    {
        let cells: Vec<usize> = vec![s, p];
        proof {
            c.lemma_wf();
            lemma_has_two(self.derived.eff@, c.names, eff_set(w.e), cells@);
        }
        self.derived.eff.has(cells.as_slice())
    }

    /// The arguments at position `i` of callsite `s`.
    fn arguments(&self, s: usize, i: usize, Ghost(c): Ghost<Codes>, Ghost(w): Ghost<Setting>) -> (r:
        Vec<usize>)
        requires
            c.wf(),
            self.ok(c, w),
            s < c.names.len(),
        ensures
            lists(
                r@,
                c.names,
                Set::new(|a: Name| w.e.actual_arg.contains((c.name(s), i, a))),
            ),
    {
        let t = &self.facts.actual_arg;
        let list = t.heads(s);
        let ghost want = Set::new(|a: Name| w.e.actual_arg.contains((c.name(s), i, a)));
        let mut r: Vec<usize> = Vec::new();
        let mut j: usize = 0;
        proof {
            c.lemma_wf();
        }
        while j < list.len()
            invariant
                j <= list@.len(),
                self.ok(c, w),
                t == &self.facts.actual_arg,
                s < c.names.len(),
                want == Set::new(|a: Name| w.e.actual_arg.contains((c.name(s), i, a))),
                forall|z: int|
                    0 <= z < list@.len() ==> (#[trigger] list@[z]) < t@.len()
                        && t@[list@[z] as int][0]
                        == s,
                forall|z: int|
                    0 <= z < r@.len() ==> (#[trigger] r@[z]) < c.names.len() && want.contains(
                        c.names[r@[z] as int],
                    ),
                forall|z: int|
                    0 <= z < j && t@[#[trigger] list@[z] as int][1] == i ==> r@.contains(
                        t@[list@[z] as int][2],
                    ),
            decreases list@.len() - j,
        {
            let x: usize = list[j];
            proof {
                assert(indexed_ok(c.names, t@[x as int]));
            }
            if t.at(x, 1) == i {
                let a: usize = t.at(x, 2);
                let ghost before = r@;
                r.push(a);
                proof {
                    let y = indexed_row(c.names, t@[x as int]);
                    assert(w.e.actual_arg.contains((y.0, y.1, y.2)));
                    assert(r@[before.len() as int] == a);
                    assert forall|z: int|
                        0 <= z < j + 1 && t@[#[trigger] list@[z] as int][1] == i
                            implies r@.contains(
                        t@[list@[z] as int][2],
                    ) by {
                        if z < j {
                            let q = choose|q: int|
                                0 <= q < before.len() && before[q] == t@[list@[z] as int][2];
                            assert(r@[q] == before[q]);
                        }
                    }
                }
            }
            j += 1;
        }
        proof {
            assert forall|a: Name| #[trigger] want.contains(a) implies exists|q: int|
                0 <= q < r@.len() && c.names[#[trigger] r@[q] as int] == a by {
                let y = lemma_find_indexed(t@, c.names, w.e.actual_arg, (c.name(s), i, a));
                t.lemma_distinct();
                assert(t@[y][0] == s && t@[y][1] == i);
                assert(list@.contains(y as usize));
                let z = choose|z: int| 0 <= z < list@.len() && list@[z] == y as usize;
                assert(r@.contains(t@[list@[z] as int][2]));
                let q = choose|q: int| 0 <= q < r@.len() && r@[q] == t@[y][2];
                assert(c.names[r@[q] as int] == a);
            }
        }
        r
    }

    /// The variables that callsite `s` binds its result to.
    fn results(&self, s: usize, Ghost(c): Ghost<Codes>, Ghost(w): Ghost<Setting>) -> (r: Vec<usize>)
        requires
            c.wf(),
            self.ok(c, w),
            s < c.names.len(),
        ensures
            lists(r@, c.names, Set::new(|a: Name| w.e.bind_ret.contains((c.name(s), a)))),
    {
        let t = &self.facts.bind_ret;
        let list = t.heads(s);
        let ghost want = Set::new(|a: Name| w.e.bind_ret.contains((c.name(s), a)));
        let mut r: Vec<usize> = Vec::new();
        let mut j: usize = 0;
        proof {
            c.lemma_wf();
        }
        while j < list.len()
            invariant
                j <= list@.len(),
                self.ok(c, w),
                t == &self.facts.bind_ret,
                r@.len() == j,
                forall|z: int|
                    0 <= z < list@.len() ==> (#[trigger] list@[z]) < t@.len()
                        && t@[list@[z] as int][0]
                        == s,
                forall|z: int| 0 <= z < j ==> #[trigger] r@[z] == t@[list@[z] as int][1],
            decreases list@.len() - j,
        {
            let x: usize = list[j];
            proof {
                assert(two_ok(c.names, t@[x as int]));
            }
            r.push(t.at(x, 1));
            j += 1;
        }
        proof {
            assert forall|z: int| 0 <= z < r@.len() implies (#[trigger] r@[z]) < c.names.len()
                && want.contains(c.names[r@[z] as int]) by {
                let row = t@[list@[z] as int];
                assert(two_ok(c.names, row));
                let y = two_row(c.names, row);
                assert(w.e.bind_ret.contains((y.0, y.1)));
            }
            assert forall|a: Name| #[trigger] want.contains(a) implies exists|q: int|
                0 <= q < r@.len() && c.names[#[trigger] r@[q] as int] == a by {
                let y = lemma_find_two(t@, c.names, w.e.bind_ret, (c.name(s), a));
                t.lemma_distinct();
                assert(t@[y][0] == s);
                assert(list@.contains(y as usize));
                let z = choose|z: int| 0 <= z < list@.len() && list@[z] == y as usize;
                assert(c.names[r@[z] as int] == a);
            }
        }
        r
    }

    /// Variables as roots.
    fn as_roots(
        &self,
        list: &Vec<usize>,
        Ghost(c): Ghost<Codes>,
        Ghost(set): Ghost<Set<Name>>,
    ) -> (r: Vec<Key>)
        requires
            lists(list@, c.names, set),
        ensures
            roots_are(r@, c, Set::new(|to: Root| to matches Root::Var(a) && set.contains(a))),
    {
        let mut r: Vec<Key> = Vec::new();
        let mut j: usize = 0;
        while j < list.len()
            invariant
                j <= list@.len(),
                lists(list@, c.names, set),
                r@.len() == j,
                forall|z: int|
                    0 <= z < j ==> c.key_ok(#[trigger] r@[z]) && c.root(r@[z]) == Root::Var(
                        c.name(list@[z]),
                    ),
            decreases list@.len() - j,
        {
            let v: usize = list[j];
            let key = Key::var(v);
            proof {
                assert(c.key_ok(key));
            }
            r.push(key);
            j += 1;
        }
        proof {
            let want = Set::new(|to: Root| to matches Root::Var(a) && set.contains(a));
            assert forall|z: int| 0 <= z < r@.len() implies c.key_ok(#[trigger] r@[z])
                && want.contains(c.root(r@[z])) by {
                assert(set.contains(c.names[list@[z] as int]));
            }
            assert forall|x: Root| #[trigger] want.contains(x) implies exists|q: int|
                0 <= q < r@.len() && c.root(#[trigger] r@[q]) == x by {
                let a = x->Var_0;
                let z = choose|z: int| 0 <= z < list@.len()
                    && c.names[#[trigger] list@[z] as int] == a;
                assert(c.root(r@[z]) == x);
            }
        }
        r
    }

    /// Where callsite `s` sends a root.
    pub fn map_root(
        &self,
        st: &mut State,
        marks: &Marks,
        s: usize,
        key: Key,
        Ghost(sm): Ghost<State>,
        Ghost(w): Ghost<Setting>,
        Ghost(seed): Ghost<Core>,
    ) -> (r: Vec<Key>)
        requires
            self.ready(*old(st), sm, *marks, w, seed),
            s < old(st).store@.names.len(),
            old(st).store@.key_ok(key),
        ensures
            self.ready(*final(st), sm, *marks, w, seed),
            old(st).le(final(st)),
            old(st).same_tables(final(st)),
            final(st).said() == old(st).said(),
            roots_are(
                r@,
                final(st).store@,
                images(w, sm.said(), old(st).store@.name(s), old(st).store@.root(key)),
            ),
    {
        let ghost s0 = *st;
        let ghost c = st.store@;
        let ghost m = sm.said();
        let ghost sn = c.name(s);
        let ghost want = images(w, m, sn, c.root(key));
        proof {
            s0.lemma_store_grow(st);
        }
        match key.kind() {
            Kind::Var(_) => {
                let r: Vec<Key> = Vec::new();
                r
            },
            Kind::Param(p, i) => {
                if self.is_callee(s, p, Ghost(c), Ghost(w)) {
                    let list = self.arguments(s, i, Ghost(c), Ghost(w));
                    let ghost set = Set::new(|a: Name| w.e.actual_arg.contains((sn, i, a)));
                    let r = self.as_roots(&list, Ghost(c), Ghost(set));
                    proof {
                        assert(want =~= Set::new(
                            |to: Root| to matches Root::Var(a) && set.contains(a),
                        ));
                    }
                    r
                } else {
                    let r: Vec<Key> = Vec::new();
                    r
                }
            },
            Kind::Ret(p) => {
                if self.is_callee(s, p, Ghost(c), Ghost(w)) {
                    let list = self.results(s, Ghost(c), Ghost(w));
                    let ghost set = Set::new(|a: Name| w.e.bind_ret.contains((sn, a)));
                    let r = self.as_roots(&list, Ghost(c), Ghost(set));
                    proof {
                        assert(want =~= Set::new(
                            |to: Root| to matches Root::Var(a) && set.contains(a),
                        ));
                    }
                    r
                } else {
                    let r: Vec<Key> = Vec::new();
                    r
                }
            },
            Kind::Slot(id, i) => {
                let stmt: usize = st.store.stmt(id);
                if self.moves(st, marks, s, id, Ghost(sm), Ghost(w)) && self.is_operand(
                    stmt,
                    i,
                    Ghost(c),
                    Ghost(w),
                ) {
                    let id2: usize = st.store.push(id, s);
                    proof {
                        s0.lemma_store_grow(st);
                        self.lemma_ready(s0, *st, sm, *marks, w, seed);
                    }
                    let to = Key::slot(id2, i);
                    let r: Vec<Key> = vec![to];
                    proof {
                        let d = st.store@;
                        assert(d.key_ok(to));
                        assert(r@[0] == to);
                        assert(want.contains(d.root(to)));
                    }
                    r
                } else {
                    let r: Vec<Key> = Vec::new();
                    r
                }
            },
            Kind::Res(id) => {
                if self.moves(st, marks, s, id, Ghost(sm), Ghost(w)) {
                    let id2: usize = st.store.push(id, s);
                    proof {
                        s0.lemma_store_grow(st);
                        self.lemma_ready(s0, *st, sm, *marks, w, seed);
                    }
                    let to = Key::res(id2);
                    let r: Vec<Key> = vec![to];
                    proof {
                        let d = st.store@;
                        assert(d.key_ok(to));
                        assert(r@[0] == to);
                        assert(want.contains(d.root(to)));
                    }
                    r
                } else {
                    let r: Vec<Key> = Vec::new();
                    r
                }
            },
        }
    }

    /// Where a resolved instance sends a root of the callee's summary.
    pub fn crit_key(
        &self,
        st: &mut State,
        callee: usize,
        id: usize,
        key: Key,
        Ghost(w): Ghost<Setting>,
    ) -> (r: Option<Key>)
        requires
            old(st).wf(),
            self.ok(old(st).store@, w),
            callee < old(st).store@.names.len(),
            id < old(st).store@.insts.len(),
            old(st).store@.key_ok(key),
        ensures
            final(st).wf(),
            old(st).le(final(st)),
            old(st).same_tables(final(st)),
            final(st).said() == old(st).said(),
            self.ok(final(st).store@, w),
            ({
                let c = old(st).store@;
                let want = crit_root(c.name(callee), c.inst(id), c.root(key), w.k);
                match r {
                    Some(to) => final(st).store@.key_ok(to) && want == Some(
                        final(st).store@.root(to),
                    ),
                    None => want is None,
                }
            }),
    {
        let ghost s0 = *st;
        let ghost c = st.store@;
        proof {
            s0.lemma_store_grow(st);
        }
        match key.kind() {
            Kind::Var(_) => None,
            Kind::Param(p, i) => {
                proof {
                    if c.name(p) == c.name(callee) {
                        c.lemma_name_injective(p, callee);
                    }
                }
                if p == callee {
                    let to = Key::slot(id, i);
                    proof {
                        assert(c.key_ok(to));
                    }
                    Some(to)
                } else {
                    None
                }
            },
            Kind::Ret(p) => {
                proof {
                    if c.name(p) == c.name(callee) {
                        c.lemma_name_injective(p, callee);
                    }
                }
                if p == callee {
                    let to = Key::res(id);
                    proof {
                        assert(c.key_ok(to));
                    }
                    Some(to)
                } else {
                    None
                }
            },
            Kind::Slot(id2, j) => {
                let outer: usize = st.store.depth(id);
                let inner: usize = st.store.depth(id2);
                if outer < self.k && inner <= self.k - outer - 1 {
                    let n: usize = st.store.nest(id2, id);
                    proof {
                        s0.lemma_store_grow(st);
                        self.lemma_grow(c, st.store@, w);
                    }
                    let to = Key::slot(n, j);
                    proof {
                        assert(st.store@.key_ok(to));
                    }
                    Some(to)
                } else {
                    None
                }
            },
            Kind::Res(id2) => {
                let outer: usize = st.store.depth(id);
                let inner: usize = st.store.depth(id2);
                if outer < self.k && inner <= self.k - outer - 1 {
                    let n: usize = st.store.nest(id2, id);
                    proof {
                        s0.lemma_store_grow(st);
                        self.lemma_grow(c, st.store@, w);
                    }
                    let to = Key::res(n);
                    proof {
                        assert(st.store@.key_ok(to));
                    }
                    Some(to)
                } else {
                    None
                }
            },
        }
    }
}

} // verus!
