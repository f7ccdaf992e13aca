//! The relations of a finished state, as lists of tuples.
use vstd::prelude::*;

use crate::access_path::{
    AccessPath, Accessor, Base, CritId, Instance, Path, PtVal, Root, Step, Value,
};
use crate::codes::step_of;
use crate::derived::{dispatched_set, count_targets};
use crate::engine::Engine;
use crate::facts::{homes, lemma_find_one, lemma_find_two, one_ok, one_row, two_ok, two_row};
use crate::ir::{Edb, Name, Proc, Sig, Stmt};
use crate::marks::{accs_ok, held, resolves_ok, Marks};
use crate::roster::{pair_row, pub_points_set};
use crate::rules::{Core, Setting};
use crate::state::State;
use crate::table::Table;
use crate::tuples::{tuples, collect, exact, means_held, means_inst};

verus! {

impl State {
    /// The constraints.
    pub fn list_edges(&self) -> (r: Vec<(Proc, AccessPath, AccessPath)>)
        requires
            self.wf(),
        ensures
            exact(r@, self.said().edge),
    {
        let n: usize = self.edges.len();
        let ghost dec = |i: int| self.edge_of(self.edges@[i]);
        let f = |i: usize| -> (x: (Proc, AccessPath, AccessPath))
            requires
                i < n,
            ensures
                x@ == dec(i as int),
        {
            proof {
                let row = self.edges@[i as int];
                assert(self.edge_ok(row));
                assert(self.node_ok(self.nodes@[row[0] as int]));
                assert(self.node_ok(self.nodes@[row[1] as int]));
                assert(self.spot_ok(self.spots@[self.nodes@[row[0] as int][0] as int]));
            }
            let a: usize = self.edges.at(i, 0);
            let b: usize = self.edges.at(i, 1);
            let p: Proc = self.store.symbol(self.spots.at(self.nodes.at(a, 0), 0));
            let sup = self.store.access_path(self.nodes.at(a, 1));
            let sub = self.store.access_path(self.nodes.at(b, 1));
            (p, sup, sub)
        };
        proof {
            self.edges.lemma_distinct();
            assert forall|i: int| 0 <= i < n
                implies self.said().edge.contains(#[trigger] dec(i)) by {
                assert(self.edges@.contains(self.edges@[i]));
                self.lemma_row_edge(self.edges@[i]);
            }
            assert forall|i: int, j: int| 0 <= i < j < n
                implies #[trigger] dec(i) != #[trigger] dec(
                j,
            ) by {
                let x = self.edges@[i];
                let y = self.edges@[j];
                assert(self.edge_ok(x) && self.edge_ok(y));
                if dec(i) == dec(j) {
                    self.lemma_node_injective(x[0], y[0]);
                    self.lemma_node_injective(x[1], y[1]);
                    assert(x =~= y);
                }
            }
            assert forall|x: (Name, Path, Path)| #[trigger] self.said().edge.contains(x)
                implies exists|
                i: int,
            | 0 <= i < n && #[trigger] dec(i) == x by {
                let i = self.lemma_edge_row(x);
                assert(dec(i) == x);
            }
        }
        collect(n, f, Ghost(dec), Ghost(self.said().edge))
    }

    /// Some of the points-to facts.
    pub fn list_points(&self, t: &Table, Ghost(rel): Ghost<Set<(Name, Path, Value)>>) -> (r: Vec<
        (Proc, AccessPath, PtVal),
    >)
        requires
            self.wf(),
            t.wf(),
            forall|i: int|
                0 <= i < t@.len() ==> self.point_ok(#[trigger] t@[i]) && rel.contains(
                    self.point_of(t@[i]),
                ),
            forall|x: (Name, Path, Value)| #[trigger]
                rel.contains(x) ==> exists|i: int|
                    0 <= i < t@.len() && self.point_of(#[trigger] t@[i]) == x,
        ensures
            exact(r@, rel),
    {
        let n: usize = t.len();
        let ghost dec = |i: int| self.point_of(t@[i]);
        let f = |i: usize| -> (x: (Proc, AccessPath, PtVal))
            requires
                i < n,
            ensures
                x@ == dec(i as int),
        {
            proof {
                let row = t@[i as int];
                assert(self.point_ok(row));
                assert(self.node_ok(self.nodes@[row[0] as int]));
                assert(self.spot_ok(self.spots@[self.nodes@[row[0] as int][0] as int]));
            }
            let a: usize = t.at(i, 0);
            let p: Proc = self.store.symbol(self.spots.at(self.nodes.at(a, 0), 0));
            let at = self.store.access_path(self.nodes.at(a, 1));
            let v = self.store.pt_val(t.at(i, 1), t.at(i, 2));
            (p, at, v)
        };
        proof {
            t.lemma_distinct();
            assert forall|i: int, j: int| 0 <= i < j < n
                implies #[trigger] dec(i) != #[trigger] dec(
                j,
            ) by {
                let x = t@[i];
                let y = t@[j];
                assert(self.point_ok(x) && self.point_ok(y));
                if dec(i) == dec(j) {
                    self.lemma_node_injective(x[0], y[0]);
                    self.store@.lemma_value_injective(x[1], x[2], y[1], y[2]);
                    assert(x =~= y);
                }
            }
            assert forall|x: (Name, Path, Value)| #[trigger] rel.contains(x) implies exists|i: int|
                0 <= i < n && #[trigger] dec(i) == x by {
                let i = choose|i: int| 0 <= i < t@.len() && self.point_of(#[trigger] t@[i]) == x;
                assert(dec(i) == x);
            }
        }
        collect(n, f, Ghost(dec), Ghost(rel))
    }

    /// The paths that occur.
    pub fn list_used(&self) -> (r: Vec<(Proc, Base, AccessPath)>)
        requires
            self.wf(),
        ensures
            exact(
                r@,
                Set::new(
                    |x: (Name, Root, Path)| self.said().path_used(x.0, x.2) && x.1 == x.2.root,
                ),
            ),
    {
        let n: usize = self.nodes.len();
        let ghost rel = Set::new(
            |x: (Name, Root, Path)| self.said().path_used(x.0, x.2) && x.1 == x.2.root,
        );
        let ghost c = self.store@;
        let ghost dec = |i: int|
            (
                c.name(self.proc(i as usize)),
                c.path(self.place(i as usize)).root,
                c.path(self.place(i as usize)),
            );
        let f = |i: usize| -> (x: (Proc, Base, AccessPath))
            requires
                i < n,
            ensures
                x@ == dec(i as int),
        {
            proof {
                assert(self.node_ok(self.nodes@[i as int]));
                assert(self.spot_ok(self.spots@[self.nodes@[i as int][0] as int]));
                self.store@.lemma_path(self.nodes@[i as int][1]);
            }
            let p: Proc = self.store.symbol(self.spots.at(self.nodes.at(i, 0), 0));
            let w: usize = self.nodes.at(i, 1);
            let base = self.store.base(self.store.key(w));
            let at = self.store.access_path(w);
            (p, base, at)
        };
        proof {
            self.nodes.lemma_distinct();
            assert forall|i: int| 0 <= i < n implies rel.contains(#[trigger] dec(i)) by {
                self.lemma_node_used(i as usize);
            }
            assert forall|i: int, j: int| 0 <= i < j < n
                implies #[trigger] dec(i) != #[trigger] dec(
                j,
            ) by {
                if dec(i) == dec(j) {
                    self.lemma_node_injective(i as usize, j as usize);
                }
            }
            assert forall|x: (Name, Root, Path)| #[trigger] rel.contains(x) implies exists|i: int|
                0 <= i < n && #[trigger] dec(i) == x by {
                let i = self.lemma_used_node(x.0, x.2);
                assert(dec(i as int) == x);
            }
        }
        collect(n, f, Ghost(dec), Ghost(rel))
    }

    /// The pending rows that carry a mark.
    pub fn keep(&self, marks: &Vec<bool>, Ghost(rel): Ghost<Set<(Name, Instance)>>) -> (t: Table)
        requires
            self.wf(),
            marks@.len() == self.pending@.len(),
            forall|j: int|
                0 <= j < marks@.len() ==> marks@[j] == rel.contains(
                    self.pending_of(#[trigger] self.pending@[j]),
                ),
            rel.subset_of(self.said().pending),
        ensures
            t.wf(),
            means_held(t@, self.store@, rel),
    {
        let ghost c = self.store@;
        let mut t = Table::new();
        let mut i: usize = 0;
        while i < marks.len()
            invariant
                i <= marks@.len(),
                self.wf(),
                c == self.store@,
                marks@.len() == self.pending@.len(),
                t.wf(),
                forall|j: int|
                    0 <= j < marks@.len() ==> marks@[j] == rel.contains(
                        self.pending_of(#[trigger] self.pending@[j]),
                    ),
                forall|row: Seq<usize>| #[trigger]
                    t@.contains(row) ==> row.len() == 2 && row[0] < c.names.len() && row[1]
                        < c.insts.len() && rel.contains((c.name(row[0]), c.inst(row[1]))),
                forall|j: int| 0 <= j < i && marks@[j] ==> t@.contains(#[trigger] self.pending@[j]),
            decreases marks@.len() - i,
        {
            if marks[i] {
                proof {
                    assert(self.pending_ok(self.pending@[i as int]));
                }
                let cells: Vec<usize> = vec![self.pending.at(i, 0), self.pending.at(i, 1)];
                proof {
                    assert(cells@ =~= self.pending@[i as int]);
                }
                t.insert(cells);
            }
            i += 1;
        }
        proof {
            assert forall|i: int| 0 <= i < t@.len() implies (#[trigger] t@[i]).len() == 2
                && t@[i][0]
                < c.names.len() && t@[i][1] < c.insts.len() && rel.contains(
                (c.name(t@[i][0]), c.inst(t@[i][1])),
            ) by {
                assert(t@.contains(t@[i]));
            }
            assert forall|x: (Name, Instance)| #[trigger] rel.contains(x) implies exists|i: int|
                0 <= i < t@.len() && (c.name((#[trigger] t@[i])[0]), c.inst(t@[i][1])) == x by {
                assert(self.said().pending.contains(x));
                let j = self.lemma_pending_row(x);
                assert(t@.contains(self.pending@[j]));
                let i = choose|i: int| 0 <= i < t@.len() && t@[i] == self.pending@[j];
                assert((c.name(t@[i][0]), c.inst(t@[i][1])) == x);
            }
        }
        t
    }

    /// The instances that are pending anywhere.
    pub fn instances(&self) -> (t: Table)
        requires
            self.wf(),
        ensures
            t.wf(),
            means_inst(t@, self.store@, held_anywhere(self.said())),
    {
        let ghost c = self.store@;
        let ghost rel = held_anywhere(self.said());
        let mut t = Table::new();
        let mut i: usize = 0;
        while i < self.pending.len()
            invariant
                i <= self.pending@.len(),
                self.wf(),
                c == self.store@,
                rel == held_anywhere(self.said()),
                t.wf(),
                forall|row: Seq<usize>| #[trigger]
                    t@.contains(row) ==> row.len() == 1 && row[0] < c.insts.len() && rel.contains(
                        (c.inst(row[0]),),
                    ),
                forall|j: int| 0 <= j < i ==> t@.contains(seq![(#[trigger] self.pending@[j])[1]]),
            decreases self.pending@.len() - i,
        {
            proof {
                let row = self.pending@[i as int];
                assert(self.pending_ok(row));
                assert(self.pending@.contains(row));
                self.lemma_row_pending(row);
                assert(self.said().pending.contains((c.name(row[0]), c.inst(row[1]))));
                let x = (c.inst(row[1]),);
                assert(self.said().pending.contains((c.name(row[0]), x.0)));
                assert(rel.contains(x));
            }
            let cells: Vec<usize> = vec![self.pending.at(i, 1)];
            proof {
                assert(cells@ =~= seq![self.pending@[i as int][1]]);
            }
            t.insert(cells);
            i += 1;
        }
        proof {
            assert forall|i: int| 0 <= i < t@.len() implies (#[trigger] t@[i]).len() == 1
                && t@[i][0]
                < c.insts.len() && rel.contains((c.inst(t@[i][0]),)) by {
                assert(t@.contains(t@[i]));
            }
            assert forall|x: (Instance,)| #[trigger] rel.contains(x) implies exists|i: int|
                0 <= i < t@.len() && (c.inst((#[trigger] t@[i])[0]),) == x by {
                let p = choose|p: Name| self.said().pending.contains((p, x.0));
                let j = self.lemma_pending_row((p, x.0));
                let row = seq![self.pending@[j][1]];
                assert(t@.contains(row));
                let i = choose|i: int| 0 <= i < t@.len() && t@[i] == row;
                assert((c.inst(t@[i][0]),) == x);
            }
        }
        t
    }
}

/// The instances that some procedure holds.
pub open spec fn held_anywhere(m: Core) -> Set<(Instance,)> {
    Set::new(|x: (Instance,)| exists|p: Name| m.pending.contains((p, x.0)))
}

// ---------------------------------------------------------------------------
// What is said of pending instances
// ---------------------------------------------------------------------------

/// `t` lists the instances that reach a callee or an accessor.
pub open spec fn decides(t: Seq<Seq<usize>>, st: State, w: Setting) -> bool {
    let c = st.store@;
    forall|p: usize, id: usize|
        p < c.names.len() && id < c.insts.len() ==> (t.contains(#[trigger] pair_row(p, id)) <==> (
        exists|x: Name| w.resolve(st.said(), c.name(p), c.inst(id), x)) || (exists|a: Step|
            w.index_acc(st.said(), c.name(p), c.inst(id), a)))
}

pub open spec fn can_propagate_set(w: Setting, m: Core) -> Set<(Name, Instance)> {
    Set::new(|x: (Name, Instance)| w.can_propagate(m, x.0, x.1))
}

pub open spec fn stuck_set(w: Setting, m: Core) -> Set<(Name, Instance)> {
    Set::new(|x: (Name, Instance)| w.stuck(m, x.0, x.1))
}

pub open spec fn blocked_set(w: Setting, m: Core) -> Set<(Name, Instance)> {
    Set::new(|x: (Name, Instance)| w.blocked(m, x.0, x.1))
}

pub open spec fn top_set(w: Setting, m: Core) -> Set<(Name, Instance)> {
    Set::new(|x: (Name, Instance)| w.top(m, x.0, x.1))
}

pub open spec fn adequate_set(w: Setting, m: Core) -> Set<(Name, Instance)> {
    Set::new(|x: (Name, Instance)| w.adequate(m, x.0, x.1))
}

pub open spec fn undecidable_set(w: Setting, m: Core) -> Set<(Name, Instance)> {
    Set::new(|x: (Name, Instance)| w.index_undecidable(m, x.0, x.1))
}

pub open spec fn settled_set(w: Setting, m: Core) -> Set<(Name, Instance)> {
    Set::new(|x: (Name, Instance)| w.settled(m, x.0, x.1))
}

pub open spec fn will_set(w: Setting) -> Set<(Name, Instance)> {
    Set::new(|x: (Name, Instance)| w.will_propagate(x.0, x.1))
}

impl Engine {
    pub fn keep_can_propagate(&self, st: &State, Ghost(w): Ghost<Setting>) -> (t: Table)
        requires
            st.wf(),
            self.ok(st.store@, w),
        ensures
            t.wf(),
            means_held(t@, st.store@, can_propagate_set(w, st.said())),
    {
        let ghost rel = can_propagate_set(w, st.said());
        let mut flags: Vec<bool> = Vec::new();
        let mut i: usize = 0;
        while i < st.pending.len()
            invariant
                i <= st.pending@.len(),
                flags@.len() == i,
                st.wf(),
                self.ok(st.store@, w),
                rel == can_propagate_set(w, st.said()),
                forall|j: int|
                    0 <= j < i ==> flags@[j] == rel.contains(
                        st.pending_of(#[trigger] st.pending@[j]),
                    ),
            decreases st.pending@.len() - i,
        {
            proof {
                assert(st.pending_ok(st.pending@[i as int]));
                assert(st.pending@.contains(st.pending@[i as int]));
                st.lemma_row_pending(st.pending@[i as int]);
            }
            let p: usize = st.pending.at(i, 0);
            let id: usize = st.pending.at(i, 1);
            let x: bool = self.can_propagate(st, p, id, Ghost(w));
            flags.push(x);
            i += 1;
        }
        st.keep(&flags, Ghost(rel))
    }

    pub fn keep_stuck(&self, st: &State, Ghost(w): Ghost<Setting>) -> (t: Table)
        requires
            st.wf(),
            self.ok(st.store@, w),
        ensures
            t.wf(),
            means_held(t@, st.store@, stuck_set(w, st.said())),
    {
        let ghost rel = stuck_set(w, st.said());
        let mut flags: Vec<bool> = Vec::new();
        let mut i: usize = 0;
        while i < st.pending.len()
            invariant
                i <= st.pending@.len(),
                flags@.len() == i,
                st.wf(),
                self.ok(st.store@, w),
                rel == stuck_set(w, st.said()),
                forall|j: int|
                    0 <= j < i ==> flags@[j] == rel.contains(
                        st.pending_of(#[trigger] st.pending@[j]),
                    ),
            decreases st.pending@.len() - i,
        {
            proof {
                assert(st.pending_ok(st.pending@[i as int]));
                assert(st.pending@.contains(st.pending@[i as int]));
                st.lemma_row_pending(st.pending@[i as int]);
            }
            let p: usize = st.pending.at(i, 0);
            let id: usize = st.pending.at(i, 1);
            let x: bool = self.is_stuck(st, p, id, Ghost(w));
            flags.push(x);
            i += 1;
        }
        st.keep(&flags, Ghost(rel))
    }

    pub fn keep_blocked(&self, st: &State, marks: &Marks, Ghost(w): Ghost<Setting>) -> (t: Table)
        requires
            st.wf(),
            self.ok(st.store@, w),
            marks.ok(*st, w),
        ensures
            t.wf(),
            means_held(t@, st.store@, blocked_set(w, st.said())),
    {
        let ghost rel = blocked_set(w, st.said());
        let mut flags: Vec<bool> = Vec::new();
        let mut i: usize = 0;
        while i < st.pending.len()
            invariant
                i <= st.pending@.len(),
                flags@.len() == i,
                st.wf(),
                self.ok(st.store@, w),
                marks.ok(*st, w),
                rel == blocked_set(w, st.said()),
                forall|j: int|
                    0 <= j < i ==> flags@[j] == rel.contains(
                        st.pending_of(#[trigger] st.pending@[j]),
                    ),
            decreases st.pending@.len() - i,
        {
            proof {
                assert(st.pending_ok(st.pending@[i as int]));
                assert(st.pending@.contains(st.pending@[i as int]));
                st.lemma_row_pending(st.pending@[i as int]);
            }
            let p: usize = st.pending.at(i, 0);
            let id: usize = st.pending.at(i, 1);
            let x: bool = marks.blocked[i];
            flags.push(x);
            i += 1;
        }
        st.keep(&flags, Ghost(rel))
    }

    pub fn keep_top(&self, st: &State, marks: &Marks, Ghost(w): Ghost<Setting>) -> (t: Table)
        requires
            st.wf(),
            self.ok(st.store@, w),
            marks.ok(*st, w),
        ensures
            t.wf(),
            means_held(t@, st.store@, top_set(w, st.said())),
    {
        let ghost rel = top_set(w, st.said());
        let mut flags: Vec<bool> = Vec::new();
        let mut i: usize = 0;
        while i < st.pending.len()
            invariant
                i <= st.pending@.len(),
                flags@.len() == i,
                st.wf(),
                self.ok(st.store@, w),
                marks.ok(*st, w),
                rel == top_set(w, st.said()),
                forall|j: int|
                    0 <= j < i ==> flags@[j] == rel.contains(
                        st.pending_of(#[trigger] st.pending@[j]),
                    ),
            decreases st.pending@.len() - i,
        {
            proof {
                assert(st.pending_ok(st.pending@[i as int]));
                assert(st.pending@.contains(st.pending@[i as int]));
                st.lemma_row_pending(st.pending@[i as int]);
            }
            let p: usize = st.pending.at(i, 0);
            let id: usize = st.pending.at(i, 1);
            let x: bool = marks.blocked[i] && self.is_stuck(st, p, id, Ghost(w));
            flags.push(x);
            i += 1;
        }
        st.keep(&flags, Ghost(rel))
    }

    pub fn keep_adequate(&self, st: &State, marks: &Marks, Ghost(w): Ghost<Setting>) -> (t: Table)
        requires
            st.wf(),
            self.ok(st.store@, w),
            marks.ok(*st, w),
        ensures
            t.wf(),
            means_held(t@, st.store@, adequate_set(w, st.said())),
    {
        let ghost rel = adequate_set(w, st.said());
        let mut flags: Vec<bool> = Vec::new();
        let mut i: usize = 0;
        while i < st.pending.len()
            invariant
                i <= st.pending@.len(),
                flags@.len() == i,
                st.wf(),
                self.ok(st.store@, w),
                marks.ok(*st, w),
                rel == adequate_set(w, st.said()),
                forall|j: int|
                    0 <= j < i ==> flags@[j] == rel.contains(
                        st.pending_of(#[trigger] st.pending@[j]),
                    ),
            decreases st.pending@.len() - i,
        {
            proof {
                assert(st.pending_ok(st.pending@[i as int]));
                assert(st.pending@.contains(st.pending@[i as int]));
                st.lemma_row_pending(st.pending@[i as int]);
            }
            let p: usize = st.pending.at(i, 0);
            let id: usize = st.pending.at(i, 1);
            let x: bool = !marks.blocked[i];
            flags.push(x);
            i += 1;
        }
        st.keep(&flags, Ghost(rel))
    }

    pub fn keep_undecidable(&self, st: &State, Ghost(w): Ghost<Setting>) -> (t: Table)
        requires
            st.wf(),
            self.ok(st.store@, w),
        ensures
            t.wf(),
            means_held(t@, st.store@, undecidable_set(w, st.said())),
    {
        let ghost rel = undecidable_set(w, st.said());
        let mut flags: Vec<bool> = Vec::new();
        let mut i: usize = 0;
        while i < st.pending.len()
            invariant
                i <= st.pending@.len(),
                flags@.len() == i,
                st.wf(),
                self.ok(st.store@, w),
                rel == undecidable_set(w, st.said()),
                forall|j: int|
                    0 <= j < i ==> flags@[j] == rel.contains(
                        st.pending_of(#[trigger] st.pending@[j]),
                    ),
            decreases st.pending@.len() - i,
        {
            proof {
                assert(st.pending_ok(st.pending@[i as int]));
                assert(st.pending@.contains(st.pending@[i as int]));
                st.lemma_row_pending(st.pending@[i as int]);
            }
            let p: usize = st.pending.at(i, 0);
            let id: usize = st.pending.at(i, 1);
            let s: usize = st.store.stmt(id);
            let allocs = self.held_by(st, p, id, 1, 1);
            proof {
                let c = st.store@;
                let m = st.said();
                let set = held(m, c.name(p), c.inst(id), 1, 1);
                if allocs@.len() > 0 {
                    let l = c.names[allocs@[0] as int];
                    assert(set.contains(l));
                    assert(m.points.contains((c.name(p), Path::slot(c.inst(id), 1),
                        Value::Alloc(l))));
                }
                if w.index_undecidable(m, c.name(p), c.inst(id)) {
                    let l = choose|l: Name|
                        m.points.contains((c.name(p), Path::slot(c.inst(id), 1), Value::Alloc(l)));
                    assert(set.contains(l));
                }
            }
            let x: bool = !self.will_propagate(p, id, Ghost(st.store@), Ghost(w)) && self.is_index(
                s,
                Ghost(st.store@),
                Ghost(w),
            ) && allocs.len() > 0;
            flags.push(x);
            i += 1;
        }
        st.keep(&flags, Ghost(rel))
    }

    /// The instances that reach a callee or an accessor.
    fn decided(&self, st: &State, marks: &Marks, Ghost(w): Ghost<Setting>) -> (t: Table)
        requires
            st.wf(),
            marks.ok(*st, w),
        ensures
            t.wf(),
            decides(t@, *st, w),
    {
        let ghost c = st.store@;
        let ghost m = st.said();
        let mut t = Table::new();
        let rs = &marks.resolves;
        let xs = &marks.accs;
        let mut i: usize = 0;
        while i < rs.len()
            invariant
                i <= rs@.len(),
                t.wf(),
                resolves_ok(rs@, c, w, m),
                forall|row: Seq<usize>| #[trigger]
                    t@.contains(row) <==> exists|j: int|
                        0 <= j < i && row == seq![(#[trigger] rs@[j])[1], rs@[j][2]],
            decreases rs@.len() - i,
        {
            let ghost t0 = t@;
            let cells: Vec<usize> = vec![rs.at(i, 1), rs.at(i, 2)];
            let ghost row0 = cells@;
            t.insert(cells);
            proof {
                assert(row0 =~= seq![rs@[i as int][1], rs@[i as int][2]]);
                assert forall|row: Seq<usize>| #[trigger] t@.contains(row) <==> exists|j: int|
                    0 <= j < i + 1 && row == seq![(#[trigger] rs@[j])[1], rs@[j][2]] by {
                    if t0.contains(row) {
                        let j = choose|j: int|
                            0 <= j < i && row == seq![(#[trigger] rs@[j])[1], rs@[j][2]];
                        assert(row == seq![rs@[j][1], rs@[j][2]]);
                    }
                    if row == row0 {
                        assert(row == seq![rs@[i as int][1], rs@[i as int][2]]);
                    }
                }
            }
            i += 1;
        }
        let ghost t1 = t@;
        i = 0;
        while i < xs.len()
            invariant
                i <= xs@.len(),
                t.wf(),
                accs_ok(xs@, c, w, m),
                forall|row: Seq<usize>| #[trigger]
                    t@.contains(row) <==> t1.contains(row) || exists|j: int|
                        0 <= j < i && row == seq![(#[trigger] xs@[j])[0], xs@[j][1]],
            decreases xs@.len() - i,
        {
            let ghost t0 = t@;
            let cells: Vec<usize> = vec![xs.at(i, 0), xs.at(i, 1)];
            let ghost row0 = cells@;
            t.insert(cells);
            proof {
                assert(row0 =~= seq![xs@[i as int][0], xs@[i as int][1]]);
                assert forall|row: Seq<usize>| #[trigger] t@.contains(row) <==> t1.contains(row)
                    || exists|j: int|
                    0 <= j < i + 1 && row == seq![(#[trigger] xs@[j])[0], xs@[j][1]] by {
                    if t0.contains(row) && !t1.contains(row) {
                        let j = choose|j: int|
                            0 <= j < i && row == seq![(#[trigger] xs@[j])[0], xs@[j][1]];
                        assert(row == seq![xs@[j][0], xs@[j][1]]);
                    }
                    if row == row0 {
                        assert(row == seq![xs@[i as int][0], xs@[i as int][1]]);
                    }
                }
            }
            i += 1;
        }
        proof {
            assert forall|p: usize, id: usize|
                p < c.names.len() && id < c.insts.len()
                    implies (t@.contains(#[trigger] pair_row(p, id))
                <==> (exists|x: Name| w.resolve(m, c.name(p), c.inst(id), x)) || (exists|a: Step|
                w.index_acc(m, c.name(p), c.inst(id), a))) by {
                let row = pair_row(p, id);
                if t1.contains(row) {
                    let j = choose|j: int|
                        0 <= j < rs@.len() && row == seq![(#[trigger] rs@[j])[1], rs@[j][2]];
                    assert(row[0] == rs@[j][1] && row[1] == rs@[j][2]);
                    assert(w.resolve(m, c.name(p), c.inst(id), c.name(rs@[j][0])));
                } else if t@.contains(row) {
                    let j = choose|j: int|
                        0 <= j < xs@.len() && row == seq![(#[trigger] xs@[j])[0], xs@[j][1]];
                    assert(row[0] == xs@[j][0] && row[1] == xs@[j][1]);
                    assert(w.index_acc(
                        m,
                        c.name(p),
                        c.inst(id),
                        step_of(c.names, xs@[j][2], xs@[j][3]),
                    ));
                }
                if exists|x: Name| w.resolve(m, c.name(p), c.inst(id), x) {
                    let x = choose|x: Name| w.resolve(m, c.name(p), c.inst(id), x);
                    let j = choose|j: int|
                        0 <= j < rs@.len() && c.name((#[trigger] rs@[j])[1]) == c.name(p) && c.inst(
                            rs@[j][2],
                        ) == c.inst(id) && c.name(rs@[j][0]) == x;
                    c.lemma_name_injective(rs@[j][1], p);
                    c.lemma_inst_injective(rs@[j][2], id);
                    assert(row =~= seq![rs@[j][1], rs@[j][2]]);
                    assert(t1.contains(row));
                }
                if exists|a: Step| w.index_acc(m, c.name(p), c.inst(id), a) {
                    let a = choose|a: Step| w.index_acc(m, c.name(p), c.inst(id), a);
                    let j = choose|j: int|
                        0 <= j < xs@.len() && c.name((#[trigger] xs@[j])[0]) == c.name(p) && c.inst(
                            xs@[j][1],
                        ) == c.inst(id) && step_of(c.names, xs@[j][2], xs@[j][3]) == a;
                    c.lemma_name_injective(xs@[j][0], p);
                    c.lemma_inst_injective(xs@[j][1], id);
                    assert(row =~= seq![xs@[j][0], xs@[j][1]]);
                }
            }
        }
        t
    }

    pub fn keep_settled(&self, st: &State, marks: &Marks, Ghost(w): Ghost<Setting>) -> (t: Table)
        requires
            st.wf(),
            self.ok(st.store@, w),
            marks.ok(*st, w),
        ensures
            t.wf(),
            means_held(t@, st.store@, settled_set(w, st.said())),
    {
        let ghost rel = settled_set(w, st.said());
        let done = self.decided(st, marks, Ghost(w));
        let mut flags: Vec<bool> = Vec::new();
        let mut i: usize = 0;
        while i < st.pending.len()
            invariant
                i <= st.pending@.len(),
                flags@.len() == i,
                st.wf(),
                self.ok(st.store@, w),
                marks.ok(*st, w),
                done.wf(),
                decides(done@, *st, w),
                rel == settled_set(w, st.said()),
                forall|j: int|
                    0 <= j < i ==> flags@[j] == rel.contains(
                        st.pending_of(#[trigger] st.pending@[j]),
                    ),
            decreases st.pending@.len() - i,
        {
            proof {
                assert(st.pending_ok(st.pending@[i as int]));
                assert(st.pending@.contains(st.pending@[i as int]));
                st.lemma_row_pending(st.pending@[i as int]);
            }
            let p: usize = st.pending.at(i, 0);
            let id: usize = st.pending.at(i, 1);
            let cells: Vec<usize> = vec![p, id];
            proof {
                assert(cells@ =~= seq![p, id]);
                assert(cells@ == pair_row(p, id));
            }
            let x: bool = if marks.blocked[i] {
                self.is_stuck(st, p, id, Ghost(w))
            } else {
                done.has(cells.as_slice())
            };
            flags.push(x);
            i += 1;
        }
        st.keep(&flags, Ghost(rel))
    }

}

// ---------------------------------------------------------------------------
// Lists that the tables do not spell out
// ---------------------------------------------------------------------------

/// `(g, n)`: some statement dispatches the signature `g`, which has `n` targets.
pub open spec fn sig_size_set(e: Edb) -> Set<(Name, usize)> {
    Set::new(|x: (Name, usize)| e.sig_size(x.0, x.1 as nat))
}

pub open spec fn crit_origin_set(e: Edb) -> Set<(Name, Name, Instance)> {
    Set::new(|x: (Name, Name, Instance)| e.crit_origin(x.0, x.1, x.2))
}

pub open spec fn resolve_set(w: Setting, m: Core) -> Set<(Name, Instance, Name)> {
    Set::new(|x: (Name, Instance, Name)| w.resolve(m, x.0, x.1, x.2))
}

pub open spec fn index_acc_set(w: Setting, m: Core) -> Set<(Name, Instance, Step)> {
    Set::new(|x: (Name, Instance, Step)| w.index_acc(m, x.0, x.1, x.2))
}

impl Engine {
    /// The published points-to facts.
    pub fn list_pub_points(&self, st: &State, Ghost(w): Ghost<Setting>) -> (r: Vec<
        (Proc, AccessPath, PtVal),
    >)
        requires
            st.wf(),
            self.ok(st.store@, w),
        ensures
            exact(r@, pub_points_set(w, st.said())),
    {
        let ghost c = st.store@;
        let ghost m = st.said();
        let ghost rel = pub_points_set(w, m);
        let mut t = Table::new();
        let mut i: usize = 0;
        while i < st.points.len()
            invariant
                i <= st.points@.len(),
                st.wf(),
                c == st.store@,
                m == st.said(),
                self.ok(c, w),
                rel == pub_points_set(w, m),
                t.wf(),
                forall|row: Seq<usize>| #[trigger]
                    t@.contains(row) ==> st.point_ok(row) && rel.contains(st.point_of(row)),
                forall|j: int|
                    0 <= j < i && rel.contains(st.point_of(#[trigger] st.points@[j]))
                        ==> t@.contains(st.points@[j]),
            decreases st.points@.len() - i,
        {
            proof {
                let row = st.points@[i as int];
                assert(st.point_ok(row));
                assert(st.points@.contains(row));
                st.lemma_row_point(row);
                assert(st.node_ok(st.nodes@[row[0] as int]));
                assert(st.spot_ok(st.spots@[st.nodes@[row[0] as int][0] as int]));
                if row[1] == 0 {
                    c.lemma_value_path(row[2]);
                } else {
                    c.lemma_value_other(row[1], row[2]);
                }
            }
            let n: usize = st.points.at(i, 0);
            let tag: usize = st.points.at(i, 1);
            let x: usize = st.points.at(i, 2);
            if tag != 0 {
                let p: usize = st.spots.at(st.nodes.at(n, 0), 0);
                let key = st.store.key(st.nodes.at(n, 1));
                if self.is_published(st, p, key, Ghost(w)) {
                    let cells: Vec<usize> = vec![n, tag, x];
                    proof {
                        assert(cells@ =~= st.points@[i as int]);
                    }
                    t.insert(cells);
                }
            }
            i += 1;
        }
        proof {
            assert forall|i: int| 0 <= i < t@.len() implies st.point_ok(#[trigger] t@[i])
                && rel.contains(st.point_of(t@[i])) by {
                assert(t@.contains(t@[i]));
            }
            assert forall|x: (Name, Path, Value)| #[trigger] rel.contains(x) implies exists|i: int|
                0 <= i < t@.len() && st.point_of(#[trigger] t@[i]) == x by {
                assert(m.points.contains((x.0, x.1, x.2)));
                let j = st.lemma_point_row(x);
                assert(t@.contains(st.points@[j]));
                let i = choose|i: int| 0 <= i < t@.len() && t@[i] == st.points@[j];
                assert(st.point_of(t@[i]) == x);
            }
        }
        st.list_points(&t, Ghost(rel))
    }

    /// The sizes of the dispatched signatures.
    pub fn list_sig_sizes(&self, st: &State, Ghost(w): Ghost<Setting>) -> (r: Vec<(Sig, usize)>)
        requires
            st.wf(),
            self.ok(st.store@, w),
        ensures
            exact(r@, sig_size_set(w.e)),
    {
        let ghost c = st.store@;
        let ghost rel = sig_size_set(w.e);
        let t = &self.derived.dispatched;
        let mut r: Vec<(Sig, usize)> = Vec::new();
        let mut i: usize = 0;
        proof {
            c.lemma_wf();
        }
        while i < t.len()
            invariant
                i <= t@.len(),
                t == &self.derived.dispatched,
                st.wf(),
                c == st.store@,
                c.names.no_duplicates(),
                self.ok(c, w),
                r@.len() == i,
                forall|j: int|
                    0 <= j < i ==> (#[trigger] r@[j])@.0 == c.name(t@[j][0]) && r@[j]@.1
                        == w.e.targets(c.name(t@[j][0])).len(),
            decreases t@.len() - i,
        {
            proof {
                assert(one_ok(c.names, t@[i as int]));
            }
            let g: usize = t.at(i, 0);
            let n: usize = count_targets(&self.derived.targets, g, Ghost(c.names), Ghost(w.e));
            let sig: Sig = st.store.symbol(g);
            r.push((sig, n));
            i += 1;
        }
        proof {
            t.lemma_distinct();
            assert forall|i: int, j: int| 0 <= i < j < r@.len() implies (#[trigger] r@[i])@ != (
            #[trigger] r@[j])@ by {
                assert(one_ok(c.names, t@[i]) && one_ok(c.names, t@[j]));
                if r@[i]@ == r@[j]@ {
                    c.lemma_name_injective(t@[i][0], t@[j][0]);
                    assert(t@[i] =~= t@[j]);
                }
            }
            assert(tuples(r@) =~= rel) by {
                assert forall|x: (Name, usize)| #[trigger] tuples(r@).contains(x)
                    implies rel.contains(
                    x,
                ) by {
                    let i = choose|i: int| 0 <= i < r@.len() && (#[trigger] r@[i])@ == x;
                    assert(dispatched_set(w.e).contains(one_row(c.names, t@[i])));
                }
                assert forall|x: (Name, usize)| rel.contains(x)
                    implies #[trigger] tuples(r@).contains(
                    x,
                ) by {
                    assert(dispatched_set(w.e).contains(x.0));
                    let i = lemma_find_one(t@, c.names, dispatched_set(w.e), x.0);
                    assert(r@[i]@ == x);
                }
            }
        }
        r
    }

    /// The instances that the critical statements originate.
    pub fn list_origins(&self, st: &State, Ghost(w): Ghost<Setting>)
        -> (r: Vec<(Proc, Stmt, CritId)>)
        requires
            st.wf(),
            self.ok(st.store@, w),
        ensures
            exact(r@, crit_origin_set(w.e)),
    {
        let ghost c = st.store@;
        let ghost rel = crit_origin_set(w.e);
        let homes_of = &self.facts.homes;
        let mut t = Table::new();
        let mut i: usize = 0;
        proof {
            c.lemma_wf();
        }
        while i < homes_of.len()
            invariant
                i <= homes_of@.len(),
                homes_of == &self.facts.homes,
                c.wf(),
                c.names.no_duplicates(),
                self.ok(c, w),
                t.wf(),
                forall|row: Seq<usize>| #[trigger]
                    t@.contains(row) ==> two_ok(c.names, row) && origin_ok(
                        w.e,
                        two_row(c.names, row),
                    ),
                forall|j: int|
                    0 <= j < i && w.e.critical(two_row(c.names, #[trigger] homes_of@[j]).0)
                        ==> t@.contains(homes_of@[j]),
            decreases homes_of@.len() - i,
        {
            proof {
                assert(two_ok(c.names, homes_of@[i as int]));
                assert(homes(w.e).contains(two_row(c.names, homes_of@[i as int])));
            }
            let s: usize = homes_of.at(i, 0);
            if self.is_critical(s, Ghost(c), Ghost(w)) {
                let cells: Vec<usize> = vec![s, homes_of.at(i, 1)];
                proof {
                    assert(cells@ =~= homes_of@[i as int]);
                }
                t.insert(cells);
            }
            i += 1;
        }
        let ghost dec = |i: int|
            (
                c.name(t@[i][1]),
                c.name(t@[i][0]),
                Instance::origin(c.name(t@[i][0])),
            );
        let n: usize = t.len();
        let f = |i: usize| -> (x: (Proc, Stmt, CritId))
            requires
                i < n,
            ensures
                x@ == dec(i as int),
        {
            proof {
                assert(t@.contains(t@[i as int]));
            }
            let p: Proc = st.store.symbol(t.at(i, 1));
            let s: Stmt = st.store.symbol(t.at(i, 0));
            let s2: Stmt = st.store.symbol(t.at(i, 0));
            let id = CritId { stmt: s2, chain: Vec::new() };
            proof {
                assert(id@.chain =~= Seq::<Name>::empty());
            }
            (p, s, id)
        };
        proof {
            t.lemma_distinct();
            assert forall|i: int| 0 <= i < n implies rel.contains(#[trigger] dec(i)) by {
                assert(t@.contains(t@[i]));
                let x = two_row(c.names, t@[i]);
                assert(origin_ok(w.e, x));
            }
            assert forall|i: int, j: int| 0 <= i < j < n
                implies #[trigger] dec(i) != #[trigger] dec(
                j,
            ) by {
                assert(t@.contains(t@[i]) && t@.contains(t@[j]));
                if dec(i) == dec(j) {
                    c.lemma_name_injective(t@[i][0], t@[j][0]);
                    c.lemma_name_injective(t@[i][1], t@[j][1]);
                    assert(t@[i] =~= t@[j]);
                }
            }
            assert forall|x: (Name, Name, Instance)| #[trigger] rel.contains(x)
                implies exists|i: int|
                0 <= i < n && #[trigger] dec(i) == x by {
                assert(homes(w.e).contains((x.1, x.0)));
                let j = lemma_find_two(homes_of@, c.names, homes(w.e), (x.1, x.0));
                assert(t@.contains(homes_of@[j]));
                let i = choose|i: int| 0 <= i < t@.len() && t@[i] == homes_of@[j];
                assert(dec(i) == x);
            }
        }
        collect(n, f, Ghost(dec), Ghost(rel))
    }
}

/// A critical statement and its home.
pub open spec fn origin_ok(e: Edb, x: (Name, Name)) -> bool {
    e.critical(x.0) && e.stands_in(x.0, x.1)
}

impl State {
    /// The callees that the instances resolve to.
    pub fn list_resolves(&self, marks: &Marks, Ghost(w): Ghost<Setting>) -> (r: Vec<
        (Proc, CritId, Proc),
    >)
        requires
            self.wf(),
            marks.ok(*self, w),
        ensures
            exact(r@, resolve_set(w, self.said())),
    {
        let ghost c = self.store@;
        let ghost rel = resolve_set(w, self.said());
        let t = &marks.resolves;
        let n: usize = t.len();
        let ghost dec = |i: int| (c.name(t@[i][1]), c.inst(t@[i][2]), c.name(t@[i][0]));
        let f = |i: usize| -> (x: (Proc, CritId, Proc))
            requires
                i < n,
            ensures
                x@ == dec(i as int),
        {
            proof {
                assert(t@[i as int].len() == 3);
            }
            let p: Proc = self.store.symbol(t.at(i, 1));
            let callee: Proc = self.store.symbol(t.at(i, 0));
            (p, self.store.crit_id(t.at(i, 2)), callee)
        };
        proof {
            t.lemma_distinct();
            assert forall|i: int| 0 <= i < n implies rel.contains(#[trigger] dec(i)) by {
                assert(t@[i].len() == 3);
            }
            assert forall|i: int, j: int| 0 <= i < j < n
                implies #[trigger] dec(i) != #[trigger] dec(
                j,
            ) by {
                assert(t@[i].len() == 3 && t@[j].len() == 3);
                if dec(i) == dec(j) {
                    c.lemma_name_injective(t@[i][0], t@[j][0]);
                    c.lemma_name_injective(t@[i][1], t@[j][1]);
                    c.lemma_inst_injective(t@[i][2], t@[j][2]);
                    assert(t@[i] =~= t@[j]);
                }
            }
            assert forall|x: (Name, Instance, Name)| #[trigger] rel.contains(x)
                implies exists|i: int|
                0 <= i < n && #[trigger] dec(i) == x by {
                assert(w.resolve(self.said(), x.0, x.1, x.2));
                let i = choose|i: int|
                    0 <= i < t@.len() && c.name((#[trigger] t@[i])[1]) == x.0 && c.inst(t@[i][2])
                        == x.1 && c.name(t@[i][0]) == x.2;
                assert(dec(i) == x);
            }
        }
        collect(n, f, Ghost(dec), Ghost(rel))
    }

    /// The accessors that the accesses resolve to.
    pub fn list_index_accs(&self, marks: &Marks, Ghost(w): Ghost<Setting>) -> (r: Vec<
        (Proc, CritId, Accessor),
    >)
        requires
            self.wf(),
            marks.ok(*self, w),
        ensures
            exact(r@, index_acc_set(w, self.said())),
    {
        let ghost c = self.store@;
        let ghost rel = index_acc_set(w, self.said());
        let t = &marks.accs;
        let n: usize = t.len();
        let ghost dec = |i: int|
            (c.name(t@[i][0]), c.inst(t@[i][1]), step_of(c.names, t@[i][2], t@[i][3]));
        let f = |i: usize| -> (x: (Proc, CritId, Accessor))
            requires
                i < n,
            ensures
                x@ == dec(i as int),
        {
            proof {
                assert(t@[i as int].len() == 4);
            }
            let p: Proc = self.store.symbol(t.at(i, 0));
            (p, self.store.crit_id(t.at(i, 1)), self.store.accessor(t.at(i, 2), t.at(i, 3)))
        };
        proof {
            t.lemma_distinct();
            c.lemma_wf();
            assert forall|i: int| 0 <= i < n implies rel.contains(#[trigger] dec(i)) by {
                assert(t@[i].len() == 4);
            }
            assert forall|i: int, j: int| 0 <= i < j < n
                implies #[trigger] dec(i) != #[trigger] dec(
                j,
            ) by {
                assert(t@[i].len() == 4 && t@[j].len() == 4);
                if dec(i) == dec(j) {
                    c.lemma_name_injective(t@[i][0], t@[j][0]);
                    c.lemma_inst_injective(t@[i][1], t@[j][1]);
                    assert(t@[i] =~= t@[j]);
                }
            }
            assert forall|x: (Name, Instance, Step)| #[trigger] rel.contains(x)
                implies exists|i: int|
                0 <= i < n && #[trigger] dec(i) == x by {
                assert(w.index_acc(self.said(), x.0, x.1, x.2));
                let i = choose|i: int|
                    0 <= i < t@.len() && c.name((#[trigger] t@[i])[0]) == x.0 && c.inst(t@[i][1])
                        == x.1 && step_of(c.names, t@[i][2], t@[i][3]) == x.2;
                assert(dec(i) == x);
            }
        }
        collect(n, f, Ghost(dec), Ghost(rel))
    }
}

} // verus!
