//! What the fixpoint reads: the facts, what they settle, the access-path
//! vocabulary and the syntactic stratum, and the questions it asks of them.
use vstd::prelude::*;

use crate::access_path::{Instance, Path, Step, Value};
use crate::codes::{flat_ok, flat_steps, Codes, Key, Kind};
use crate::derived::{called_set, known_set, Derived};
use crate::facts::{
    four_ok, four_row, indexed_ok, indexed_row, lemma_find_four, lemma_find_indexed,
    lemma_find_three, lemma_has_one, means_indexed, three_ok, three_row, Facts,
};
use crate::ir::{ArgIdx, Name};
use crate::rules::Setting;
use crate::state::State;
use crate::table::Table;

verus! {

pub struct Engine {
    pub facts: Facts,
    pub derived: Derived,
    /// The admissible rows of accessors.
    pub bound: Table,
    /// A procedure and an instance that is certain to propagate out of it.
    pub will: Table,
    pub k: usize,
}

/// The rows are exactly the admissible accessor sequences.
pub open spec fn bound_ok(t: Seq<Seq<usize>>, names: Seq<Name>, paths: Set<Seq<Step>>) -> bool {
    &&& forall|i: int|
        0 <= i < t.len() ==> flat_ok(names, #[trigger] t[i]) && paths.contains(
            flat_steps(names, t[i]),
        )
    &&& forall|x: Seq<Step>| #[trigger]
        paths.contains(x) ==> exists|i: int|
            0 <= i < t.len() && flat_steps(names, #[trigger] t[i]) == x
}

/// The rows are exactly the instances that are certain to propagate.
pub open spec fn will_ok(t: Seq<Seq<usize>>, c: Codes, w: Setting) -> bool {
    &&& forall|i: int|
        0 <= i < t.len() ==> (#[trigger] t[i]).len() == 2 && t[i][0] < c.names.len() && t[i][1]
            < c.insts.len() && w.will_propagate(c.name(t[i][0]), c.inst(t[i][1]))
    &&& forall|p: Name, id: Instance| #[trigger]
        w.will_propagate(p, id) ==> exists|i: int|
            0 <= i < t.len() && c.name((#[trigger] t[i])[0]) == p && c.inst(t[i][1]) == id
}

impl Engine {
    pub open spec fn ok(&self, c: Codes, w: Setting) -> bool {
        &&& self.k == w.k
        &&& self.facts.ok(c.names, w.e)
        &&& self.derived.ok(c.names, w.e)
        &&& self.bound.wf() && bound_ok(self.bound@, c.names, w.e.paths)
        &&& self.will.wf() && will_ok(self.will@, c, w)
    }

    /// The engine's tables keep their meaning.
    pub proof fn lemma_grow(&self, c: Codes, d: Codes, w: Setting)
        requires
            c.wf(),
            c.le(d),
            self.ok(c, w),
        ensures
            self.ok(d, w),
    {
        c.lemma_grow(d);
        let t = self.will@;
        assert forall|p: Name, id: Instance| #[trigger] w.will_propagate(p, id)
            implies exists|i: int|
            0 <= i < t.len() && d.name((#[trigger] t[i])[0]) == p && d.inst(t[i][1]) == id by {
            let i = choose|i: int|
                0 <= i < t.len() && c.name((#[trigger] t[i])[0]) == p && c.inst(t[i][1]) == id;
            assert(d.inst(t[i][1]) == c.inst(t[i][1]));
        }
    }

    // -- questions to the facts ---------------------------------------------------

    pub fn is_known(&self, p: usize, Ghost(c): Ghost<Codes>, Ghost(w): Ghost<Setting>) -> (r: bool)
        requires
            c.wf(),
            self.ok(c, w),
            p < c.names.len(),
        ensures
            r == w.e.known_proc(c.name(p)),
    {
        let cells: Vec<usize> = vec![p];
        proof {
            c.lemma_wf();
            lemma_has_one(self.derived.known@, c.names, known_set(w.e), cells@);
        }
        self.derived.known.has(cells.as_slice())
    }

    pub fn is_called(&self, p: usize, Ghost(c): Ghost<Codes>, Ghost(w): Ghost<Setting>) -> (r: bool)
        requires
            c.wf(),
            self.ok(c, w),
            p < c.names.len(),
        ensures
            r == w.e.is_called(c.name(p)),
    {
        let cells: Vec<usize> = vec![p];
        proof {
            c.lemma_wf();
            lemma_has_one(self.derived.called@, c.names, called_set(w.e), cells@);
        }
        self.derived.called.has(cells.as_slice())
    }

    pub fn is_entry(&self, p: usize, Ghost(c): Ghost<Codes>, Ghost(w): Ghost<Setting>) -> (r: bool)
        requires
            c.wf(),
            self.ok(c, w),
            p < c.names.len(),
        ensures
            r == w.e.entry.contains(c.name(p)),
    {
        let cells: Vec<usize> = vec![p];
        proof {
            c.lemma_wf();
            lemma_has_one(self.facts.entry@, c.names, w.e.entry, cells@);
        }
        self.facts.entry.has(cells.as_slice())
    }

    pub fn is_load(&self, s: usize, Ghost(c): Ghost<Codes>, Ghost(w): Ghost<Setting>) -> (r: bool)
        requires
            c.wf(),
            self.ok(c, w),
            s < c.names.len(),
        ensures
            r == w.e.load_stmt(c.name(s)),
    {
        let list = self.facts.load_index_var.heads(s);
        proof {
            c.lemma_wf();
            let t = self.facts.load_index_var@;
            if list@.len() > 0 {
                let i = list@[0] as int;
                assert(four_ok(c.names, t[i]));
                let x = four_row(c.names, t[i]);
                assert(w.e.load_index_var.contains((x.0, x.1, x.2, x.3)));
            }
            if w.e.load_stmt(c.name(s)) {
                let (a, b, d) = choose|a: Name, b: Name, d: Name|
                    w.e.load_index_var.contains((c.name(s), a, b, d));
                let i = lemma_find_four(t, c.names, w.e.load_index_var, (c.name(s), a, b, d));
                assert(t[i][0] == s);
                assert(list@.contains(i as usize));
            }
        }
        list.len() > 0
    }

    pub fn is_store(&self, s: usize, Ghost(c): Ghost<Codes>, Ghost(w): Ghost<Setting>) -> (r: bool)
        requires
            c.wf(),
            self.ok(c, w),
            s < c.names.len(),
        ensures
            r == w.e.store_stmt(c.name(s)),
    {
        let list = self.facts.store_index_var.heads(s);
        proof {
            c.lemma_wf();
            let t = self.facts.store_index_var@;
            if list@.len() > 0 {
                let i = list@[0] as int;
                assert(four_ok(c.names, t[i]));
                let x = four_row(c.names, t[i]);
                assert(w.e.store_index_var.contains((x.0, x.1, x.2, x.3)));
            }
            if w.e.store_stmt(c.name(s)) {
                let (a, b, d) = choose|a: Name, b: Name, d: Name|
                    w.e.store_index_var.contains((c.name(s), a, b, d));
                let i = lemma_find_four(t, c.names, w.e.store_index_var, (c.name(s), a, b, d));
                assert(t[i][0] == s);
                assert(list@.contains(i as usize));
            }
        }
        list.len() > 0
    }

    pub fn is_call(&self, s: usize, Ghost(c): Ghost<Codes>, Ghost(w): Ghost<Setting>) -> (r: bool)
        requires
            c.wf(),
            self.ok(c, w),
            s < c.names.len(),
        ensures
            r == w.e.call_stmt(c.name(s)),
    {
        let list = self.facts.virtual_call.heads(s);
        proof {
            c.lemma_wf();
            let t = self.facts.virtual_call@;
            if list@.len() > 0 {
                let i = list@[0] as int;
                assert(three_ok(c.names, t[i]));
                let x = three_row(c.names, t[i]);
                assert(w.e.virtual_call.contains((x.0, x.1, x.2)));
            }
            if w.e.call_stmt(c.name(s)) {
                let (a, b) = choose|a: Name, b: Name| w.e.virtual_call.contains((c.name(s), a, b));
                let i = lemma_find_three(t, c.names, w.e.virtual_call, (c.name(s), a, b));
                assert(t[i][0] == s);
                assert(list@.contains(i as usize));
            }
        }
        list.len() > 0
    }

    pub fn is_index(&self, s: usize, Ghost(c): Ghost<Codes>, Ghost(w): Ghost<Setting>) -> (r: bool)
        requires
            c.wf(),
            self.ok(c, w),
            s < c.names.len(),
        ensures
            r == w.e.index_stmt(c.name(s)),
    {
        self.is_load(s, Ghost(c), Ghost(w)) || self.is_store(s, Ghost(c), Ghost(w))
    }

    /// Whether some row of an indexed relation has these first two columns.
    fn has_position(
        t: &Table,
        s: usize,
        i: usize,
        Ghost(names): Ghost<Seq<Name>>,
        Ghost(rel): Ghost<Set<(Name, usize, Name)>>,
    ) -> (r: bool)
        requires
            t.wf(),
            names.no_duplicates(),
            means_indexed(t@, names, rel),
            s < names.len(),
        ensures
            r == exists|v: Name| rel.contains((names[s as int], i, v)),
    {
        let list = t.heads(s);
        let mut j: usize = 0;
        while j < list.len()
            invariant
                j <= list@.len(),
                means_indexed(t@, names, rel),
                s < names.len(),
                forall|z: int|
                    0 <= z < list@.len() ==> (#[trigger] list@[z]) < t@.len()
                        && t@[list@[z] as int][0]
                        == s,
                forall|z: int| 0 <= z < j ==> t@[#[trigger] list@[z] as int][1] != i,
            decreases list@.len() - j,
        {
            let x: usize = list[j];
            proof {
                assert(indexed_ok(names, t@[x as int]));
            }
            if t.at(x, 1) == i {
                proof {
                    let y = indexed_row(names, t@[x as int]);
                    assert(rel.contains((y.0, y.1, y.2)));
                }
                return true;
            }
            j += 1;
        }
        proof {
            if exists|v: Name| rel.contains((names[s as int], i, v)) {
                let v = choose|v: Name| rel.contains((names[s as int], i, v));
                let x = lemma_find_indexed(t@, names, rel, (names[s as int], i, v));
                t.lemma_distinct();
                assert(t@[x][0] == s);
                assert(list@.contains(x as usize));
                let z = choose|z: int| 0 <= z < list@.len() && list@[z] == x as usize;
                assert(t@[list@[z] as int][1] != i);
            }
        }
        false
    }

    pub fn is_operand(
        &self,
        s: usize,
        i: usize,
        Ghost(c): Ghost<Codes>,
        Ghost(w): Ghost<Setting>,
    ) -> (r: bool)
        requires
            c.wf(),
            self.ok(c, w),
            s < c.names.len(),
        ensures
            r == w.e.operand(c.name(s), i),
    {
        proof {
            c.lemma_wf();
        }
        if Self::has_position(
            &self.facts.actual_arg,
            s,
            i,
            Ghost(c.names),
            Ghost(w.e.actual_arg),
        ) {
            return true;
        }
        if i <= 1 {
            self.is_index(s, Ghost(c), Ghost(w))
        } else {
            i == 2 && self.is_store(s, Ghost(c), Ghost(w))
        }
    }

    /// Whether a row of accessors is admissible.
    pub fn admits(&self, f: &[usize], Ghost(c): Ghost<Codes>, Ghost(w): Ghost<Setting>) -> (r: bool)
        requires
            c.wf(),
            self.ok(c, w),
            flat_ok(c.names, f@),
        ensures
            r == w.e.paths.contains(flat_steps(c.names, f@)),
    {
        let r = self.bound.has(f);
        proof {
            c.lemma_wf();
            let t = self.bound@;
            if t.contains(f@) {
                let i = choose|i: int| 0 <= i < t.len() && t[i] == f@;
                assert(w.e.paths.contains(flat_steps(c.names, t[i])));
            }
            if w.e.paths.contains(flat_steps(c.names, f@)) {
                let i = choose|i: int|
                    0 <= i < t.len() && flat_steps(c.names, #[trigger] t[i]) == flat_steps(
                        c.names,
                        f@,
                    );
                crate::codes::lemma_flat_injective(c.names, t[i], f@);
                assert(t.contains(f@));
            }
        }
        r
    }

    pub fn will_propagate(
        &self,
        p: usize,
        id: usize,
        Ghost(c): Ghost<Codes>,
        Ghost(w): Ghost<Setting>,
    ) -> (r: bool)
        requires
            c.wf(),
            self.ok(c, w),
            p < c.names.len(),
            id < c.insts.len(),
        ensures
            r == w.will_propagate(c.name(p), c.inst(id)),
    {
        let cells: Vec<usize> = vec![p, id];
        let r = self.will.has(cells.as_slice());
        proof {
            c.lemma_wf();
            let t = self.will@;
            if t.contains(cells@) {
                let i = choose|i: int| 0 <= i < t.len() && t[i] == cells@;
                assert(w.will_propagate(c.name(t[i][0]), c.inst(t[i][1])));
            }
            if w.will_propagate(c.name(p), c.inst(id)) {
                let i = choose|i: int|
                    0 <= i < t.len() && c.name((#[trigger] t[i])[0]) == c.name(p) && c.inst(t[i][1])
                        == c.inst(id);
                c.lemma_name_injective(t[i][0], p);
                c.lemma_inst_injective(t[i][1], id);
                assert(t[i] =~= cells@);
                assert(t.contains(cells@));
            }
        }
        r
    }

    // -- questions to a state -------------------------------------------------------

    pub fn is_pending(&self, st: &State, p: usize, id: usize) -> (r: bool)
        requires
            st.tables_ok(),
            p < st.store@.names.len(),
            id < st.store@.insts.len(),
        ensures
            r == st.said().pending.contains((st.store@.name(p), st.store@.inst(id))),
    {
        let cells: Vec<usize> = vec![p, id];
        let r = st.pending.has(cells.as_slice());
        proof {
            let c = st.store@;
            if st.pending@.contains(cells@) {
                st.lemma_row_pending(cells@);
            }
            if st.said().pending.contains((c.name(p), c.inst(id))) {
                let j = st.lemma_pending_row((c.name(p), c.inst(id)));
                let row = st.pending@[j];
                c.lemma_name_injective(row[0], p);
                c.lemma_inst_injective(row[1], id);
                assert(row =~= cells@);
                assert(st.pending@.contains(cells@));
            }
        }
        r
    }

    pub fn can_propagate(&self, st: &State, p: usize, id: usize, Ghost(w): Ghost<Setting>) -> (r:
        bool)
        requires
            st.tables_ok(),
            self.ok(st.store@, w),
            p < st.store@.names.len(),
            id < st.store@.insts.len(),
        ensures
            r == w.can_propagate(st.said(), st.store@.name(p), st.store@.inst(id)),
    {
        st.store.depth(id) < self.k && self.is_called(p, Ghost(st.store@), Ghost(w))
            && self.is_pending(st, p, id)
    }

    pub fn is_stuck(&self, st: &State, p: usize, id: usize, Ghost(w): Ghost<Setting>) -> (r: bool)
        requires
            st.tables_ok(),
            self.ok(st.store@, w),
            p < st.store@.names.len(),
            id < st.store@.insts.len(),
        ensures
            r == w.stuck(st.said(), st.store@.name(p), st.store@.inst(id)),
    {
        let ghost c = st.store@;
        if !self.is_pending(st, p, id) {
            return false;
        }
        if st.store.depth(id) >= self.k || self.is_entry(p, Ghost(c), Ghost(w)) {
            return true;
        }
        self.is_known(p, Ghost(c), Ghost(w)) && !self.is_called(p, Ghost(c), Ghost(w))
    }

    pub fn is_free(&self, st: &State, p: usize, key: Key, Ghost(w): Ghost<Setting>) -> (r: bool)
        requires
            st.tables_ok(),
            self.ok(st.store@, w),
            p < st.store@.names.len(),
            st.store@.key_ok(key),
        ensures
            r == w.free_root(st.said(), st.store@.name(p), st.store@.root(key)),
    {
        let ghost c = st.store@;
        proof {
            c.lemma_wf();
        }
        match key.kind() {
            Kind::Var(_) => false,
            Kind::Param(q, i) => q == p && Self::has_position(
                &self.facts.formal,
                p,
                i,
                Ghost(c.names),
                Ghost(w.e.formal),
            ),
            Kind::Ret(q) => q == p && self.is_known(p, Ghost(c), Ghost(w)),
            Kind::Slot(id, i) => self.can_propagate(st, p, id, Ghost(w)) && self.is_operand(
                st.store.stmt(id),
                i,
                Ghost(c),
                Ghost(w),
            ),
            Kind::Res(id) => self.can_propagate(st, p, id, Ghost(w)),
        }
    }

    pub fn is_published(&self, st: &State, p: usize, key: Key, Ghost(w): Ghost<Setting>)
        -> (r: bool)
        requires
            st.tables_ok(),
            self.ok(st.store@, w),
            p < st.store@.names.len(),
            st.store@.key_ok(key),
        ensures
            r == w.pub_root(st.said(), st.store@.name(p), st.store@.root(key)),
    {
        let ghost c = st.store@;
        proof {
            c.lemma_wf();
        }
        match key.kind() {
            Kind::Var(_) => false,
            Kind::Param(q, i) => q == p && Self::has_position(
                &self.facts.formal,
                p,
                i,
                Ghost(c.names),
                Ghost(w.e.formal),
            ),
            Kind::Ret(q) => q == p && self.is_known(p, Ghost(c), Ghost(w)),
            Kind::Slot(id, i) => self.is_pending(st, p, id) && self.is_operand(
                st.store.stmt(id),
                i,
                Ghost(c),
                Ghost(w),
            ),
            Kind::Res(id) => self.is_pending(st, p, id),
        }
    }

    /// The node of an operand slot, if it occurs.
    pub fn slot_node(&self, st: &State, p: usize, id: usize, i: usize) -> (r: Option<usize>)
        requires
            st.tables_ok(),
            p < st.store@.names.len(),
            id < st.store@.insts.len(),
        ensures
            match r {
                Some(n) => n < st.nodes@.len() && st.store@.name(st.proc(n)) == st.store@.name(p)
                    && st.store@.path(st.place(n)) == Path::slot(st.store@.inst(id), i),
                None => forall|n: usize|
                    n < st.nodes@.len() ==> !(st.store@.name(#[trigger] st.proc(n))
                        == st.store@.name(p) && st.store@.path(st.place(n)) == Path::slot(
                        st.store@.inst(id),
                        i,
                    )),
            },
    {
        let ghost c = st.store@;
        let key = Key::slot(id, i);
        proof {
            assert(c.key_ok(key));
        }
        match st.store.find_bare(key) {
            None => {
                proof {
                    assert forall|n: usize| n < st.nodes@.len() implies !(c.name(
                        #[trigger] st.proc(n),
                    ) == c.name(p) && c.path(st.place(n)) == Path::slot(c.inst(id), i)) by {
                        assert(st.node_ok(st.nodes@[n as int]));
                    }
                }
                None
            },
            Some(x) => {
                let r = st.find_node(p, x);
                proof {
                    if r is None {
                        assert forall|n: usize| n < st.nodes@.len() implies !(c.name(
                            #[trigger] st.proc(n),
                        ) == c.name(p) && c.path(st.place(n)) == Path::slot(c.inst(id), i)) by {
                            assert(st.node_ok(st.nodes@[n as int]));
                            assert(st.spot_ok(st.spots@[st.nodes@[n as int][0] as int]));
                            if c.name(st.proc(n)) == c.name(p) && c.path(st.place(n)) == Path::slot(
                                c.inst(id),
                                i,
                            ) {
                                c.lemma_name_injective(st.proc(n), p);
                                c.lemma_path_injective(st.place(n), x);
                            }
                        }
                    }
                }
                r
            },
        }
    }

    /// Whether a free root reaches operand `i`.
    fn reached(&self, st: &State, p: usize, id: usize, i: usize, Ghost(w): Ghost<Setting>) -> (r:
        bool)
        requires
            st.tables_ok(),
            self.ok(st.store@, w),
            p < st.store@.names.len(),
            id < st.store@.insts.len(),
        ensures
            r == exists|x: Path| #[trigger]
                st.said().points.contains(
                    (
                        st.store@.name(p),
                        Path::slot(st.store@.inst(id), i),
                        Value::Path(x),
                    ),
                ) && w.free_root(st.said(), st.store@.name(p), x.root),
    {
        let ghost c = st.store@;
        let ghost m = st.said();
        let ghost lhs = Path::slot(c.inst(id), i);
        match self.slot_node(st, p, id, i) {
            None => {
                proof {
                    assert forall|x: Path| #[trigger] m.points.contains(
                        (c.name(p), lhs, Value::Path(x)),
                    ) implies false by {
                        let j = st.lemma_point_row((c.name(p), lhs, Value::Path(x)));
                        let n = st.points@[j][0];
                        assert(c.name(st.proc(n)) == c.name(p));
                    }
                }
                false
            },
            Some(n) => {
                let list = st.points.heads(n);
                let mut j: usize = 0;
                while j < list.len()
                    invariant
                        j <= list@.len(),
                        st.tables_ok(),
                        self.ok(c, w),
                        c == st.store@,
                        m == st.said(),
                        p < c.names.len(),
                        n < st.nodes@.len(),
                        c.name(st.proc(n)) == c.name(p),
                        c.path(st.place(n)) == lhs,
                        lhs == Path::slot(c.inst(id), i),
                        forall|z: int|
                            0 <= z < list@.len() ==> (#[trigger] list@[z]) < st.points@.len()
                                && st.points@[list@[z] as int][0] == n,
                        forall|z: int, x: Path|
                            #![trigger list@[z], w.free_root(m, c.name(p), x.root)]
                            0 <= z < j && st.point_of(st.points@[list@[z] as int]).2
                                == Value::Path(x)
                                ==> !w.free_root(m, c.name(p), x.root),
                    decreases list@.len() - j,
                {
                    let y: usize = list[j];
                    proof {
                        assert(st.point_ok(st.points@[y as int]));
                    }
                    let tag: usize = st.points.at(y, 1);
                    let x: usize = st.points.at(y, 2);
                    if tag == 0 {
                        proof {
                            c.lemma_value_path(x);
                        }
                        let key = st.store.key(x);
                        if self.is_free(st, p, key, Ghost(w)) {
                            proof {
                                assert(st.points@.contains(st.points@[y as int]));
                                st.lemma_row_point(st.points@[y as int]);
                                assert(m.points.contains((c.name(p), lhs, Value::Path(c.path(x)))));
                            }
                            return true;
                        }
                    } else {
                        proof {
                            c.lemma_value_other(tag, x);
                        }
                    }
                    j += 1;
                }
                proof {
                    assert forall|x: Path| #[trigger] m.points.contains(
                        (c.name(p), lhs, Value::Path(x)),
                    ) implies !w.free_root(m, c.name(p), x.root) by {
                        let y = st.lemma_point_row((c.name(p), lhs, Value::Path(x)));
                        st.lemma_node_injective(st.points@[y][0], n);
                        st.points.lemma_distinct();
                        assert(list@.contains(y as usize));
                        let z = choose|z: int| 0 <= z < list@.len() && list@[z] == y as usize;
                        assert(st.point_of(st.points@[list@[z] as int]).2 == Value::Path(x));
                    }
                }
                false
            },
        }
    }

    pub fn is_blocked(&self, st: &State, p: usize, id: usize, Ghost(w): Ghost<Setting>) -> (r: bool)
        requires
            st.tables_ok(),
            self.ok(st.store@, w),
            p < st.store@.names.len(),
            id < st.store@.insts.len(),
        ensures
            r == w.blocked(st.said(), st.store@.name(p), st.store@.inst(id)),
    {
        let ghost c = st.store@;
        let ghost m = st.said();
        if !self.is_pending(st, p, id) {
            return false;
        }
        let s: usize = st.store.stmt(id);
        let at_zero = self.is_call(s, Ghost(c), Ghost(w)) && self.reached(st, p, id, 0, Ghost(w));
        if at_zero {
            return true;
        }
        let at_one = self.is_index(s, Ghost(c), Ghost(w)) && self.reached(st, p, id, 1, Ghost(w));
        proof {
            if w.blocked(m, c.name(p), c.inst(id)) {
                let (i, x) = choose|i: ArgIdx, x: Path| #[trigger]
                    m.points.contains((c.name(p), Path::slot(c.inst(id), i), Value::Path(x)))
                        && w.e.decisive(c.inst(id).stmt, i) && w.free_root(m, c.name(p), x.root);
                assert(i == 0 || i == 1);
            }
        }
        at_one
    }
}

} // verus!
