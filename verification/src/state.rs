//! The state of the fixpoint, over numbers.
//!
//! A node is an access path in a procedure. Nodes are filed by their procedure
//! and root, so that the paths that extend one another lie together; constraints
//! are pairs of nodes, and points-to facts pair a node with a value.
use vstd::prelude::*;

use crate::access_path::{Instance, Path, Value};
use crate::codes::{initial, Key, Store};
use crate::ir::Name;
use crate::rules::Core;
use crate::table::Table;

verus! {

pub struct State {
    pub store: Store,
    /// A procedure and a root.
    pub spots: Table,
    /// A spot and a path with the spot's root.
    pub nodes: Table,
    /// Two nodes of one procedure.
    pub edges: Table,
    /// A node and a value.
    pub points: Table,
    /// A procedure and an instance.
    pub pending: Table,
}

pub open spec fn spot_key(row: Seq<usize>) -> Key {
    Key { tag: row[1], a: row[2], b: row[3] }
}

impl State {
    /// The number of a node's procedure.
    pub open spec fn proc(&self, n: usize) -> usize {
        self.spots@[self.nodes@[n as int][0] as int][0]
    }

    /// The number of a node's path.
    pub open spec fn place(&self, n: usize) -> usize {
        self.nodes@[n as int][1]
    }

    pub open spec fn spot_ok(&self, row: Seq<usize>) -> bool {
        row.len() == 4 && row[0] < self.store@.names.len() && self.store@.key_ok(spot_key(row))
    }

    pub open spec fn node_ok(&self, row: Seq<usize>) -> bool {
        &&& row.len() == 2
        &&& row[0] < self.spots@.len()
        &&& row[1] < self.store@.paths.len()
        &&& self.store@.key(row[1]) == spot_key(self.spots@[row[0] as int])
    }

    pub open spec fn edge_ok(&self, row: Seq<usize>) -> bool {
        &&& row.len() == 2
        &&& row[0] < self.nodes@.len()
        &&& row[1] < self.nodes@.len()
        &&& self.proc(row[0]) == self.proc(row[1])
    }

    pub open spec fn point_ok(&self, row: Seq<usize>) -> bool {
        row.len() == 3 && row[0] < self.nodes@.len() && self.store@.value_ok(row[1], row[2])
    }

    pub open spec fn pending_ok(&self, row: Seq<usize>) -> bool {
        row.len() == 2 && row[0] < self.store@.names.len() && row[1] < self.store@.insts.len()
    }

    /// Node `n` occurs in a constraint or has a points-to fact.
    pub open spec fn occurs(&self, n: usize) -> bool {
        ||| exists|j: int| 0 <= j < self.edges@.len() && (#[trigger] self.edges@[j])[0] == n
        ||| exists|j: int| 0 <= j < self.edges@.len() && (#[trigger] self.edges@[j])[1] == n
        ||| exists|j: int| 0 <= j < self.points@.len() && (#[trigger] self.points@[j])[0] == n
    }

    pub open spec fn tables_ok(&self) -> bool {
        &&& self.store.wf()
        &&& self.spots.wf()
        &&& self.nodes.wf()
        &&& self.edges.wf()
        &&& self.points.wf()
        &&& self.pending.wf()
        &&& forall|i: int| 0 <= i < self.spots@.len() ==> self.spot_ok(#[trigger] self.spots@[i])
        &&& forall|i: int| 0 <= i < self.nodes@.len() ==> self.node_ok(#[trigger] self.nodes@[i])
        &&& forall|i: int| 0 <= i < self.edges@.len() ==> self.edge_ok(#[trigger] self.edges@[i])
        &&& forall|i: int| 0 <= i < self.points@.len() ==> self.point_ok(#[trigger] self.points@[i])
        &&& forall|i: int|
            0 <= i < self.pending@.len() ==> self.pending_ok(#[trigger] self.pending@[i])
    }

    pub open spec fn wf(&self) -> bool {
        &&& self.tables_ok()
        &&& forall|n: usize| n < self.nodes@.len() ==> #[trigger] self.occurs(n)
    }

    pub open spec fn edge_of(&self, row: Seq<usize>) -> (Name, Path, Path) {
        let c = self.store@;
        (c.name(self.proc(row[0])), c.path(self.place(row[0])), c.path(self.place(row[1])))
    }

    pub open spec fn point_of(&self, row: Seq<usize>) -> (Name, Path, Value) {
        let c = self.store@;
        (c.name(self.proc(row[0])), c.path(self.place(row[0])), c.value(row[1], row[2]))
    }

    pub open spec fn pending_of(&self, row: Seq<usize>) -> (Name, Instance) {
        (self.store@.name(row[0]), self.store@.inst(row[1]))
    }

    /// What the state says so far.
    pub closed spec fn said(&self) -> Core {
        Core {
            edge: Set::new(
                |x: (Name, Path, Path)|
                    exists|j: int|
                        0 <= j < self.edges@.len() && self.edge_of(#[trigger] self.edges@[j]) == x,
            ),
            points: Set::new(
                |x: (Name, Path, Value)|
                    exists|j: int|
                        0 <= j < self.points@.len() && self.point_of(#[trigger] self.points@[j])
                            == x,
            ),
            pending: Set::new(
                |x: (Name, Instance)|
                    exists|j: int|
                        0 <= j < self.pending@.len() && self.pending_of(#[trigger] self.pending@[j])
                            == x,
            ),
        }
    }

    /// Everything in `self` is in `other`, under the same number.
    pub open spec fn le(&self, other: &State) -> bool {
        &&& self.store@.le(other.store@)
        &&& initial(self.spots@, other.spots@)
        &&& initial(self.nodes@, other.nodes@)
        &&& initial(self.edges@, other.edges@)
        &&& initial(self.points@, other.points@)
        &&& initial(self.pending@, other.pending@)
    }

    /// As `self`, with no more than further paths and instances numbered.
    pub open spec fn same_tables(&self, other: &State) -> bool {
        &&& self.spots == other.spots
        &&& self.nodes == other.nodes
        &&& self.edges == other.edges
        &&& self.points == other.points
        &&& self.pending == other.pending
    }

    pub proof fn lemma_le_trans(&self, b: &State, c: &State)
        requires
            self.le(b),
            b.le(c),
        ensures
            self.le(c),
    {
        self.store@.lemma_le_trans(b.store@, c.store@);
        assert forall|i: int| 0 <= i < self.spots@.len() implies #[trigger] c.spots@[i]
            == self.spots@[i] by {
            assert(b.spots@[i] == self.spots@[i]);
        }
        assert forall|i: int| 0 <= i < self.nodes@.len() implies #[trigger] c.nodes@[i]
            == self.nodes@[i] by {
            assert(b.nodes@[i] == self.nodes@[i]);
        }
        assert forall|i: int| 0 <= i < self.edges@.len() implies #[trigger] c.edges@[i]
            == self.edges@[i] by {
            assert(b.edges@[i] == self.edges@[i]);
        }
        assert forall|i: int| 0 <= i < self.points@.len() implies #[trigger] c.points@[i]
            == self.points@[i] by {
            assert(b.points@[i] == self.points@[i]);
        }
        assert forall|i: int| 0 <= i < self.pending@.len() implies #[trigger] c.pending@[i]
            == self.pending@[i] by {
            assert(b.pending@[i] == self.pending@[i]);
        }
    }

    /// A node keeps its meaning.
    pub proof fn lemma_node_grow(&self, other: &State, n: usize)
        requires
            self.tables_ok(),
            self.le(other),
            n < self.nodes@.len(),
        ensures
            n < other.nodes@.len(),
            other.proc(n) == self.proc(n),
            other.place(n) == self.place(n),
            self.proc(n) < self.store@.names.len(),
            self.place(n) < self.store@.paths.len(),
            other.store@.path(self.place(n)) == self.store@.path(self.place(n)),
    {
        self.store@.lemma_grow(other.store@);
        assert(self.node_ok(self.nodes@[n as int]));
        assert(self.spot_ok(self.spots@[self.nodes@[n as int][0] as int]));
    }

    /// Everything keeps its meaning.
    pub proof fn lemma_grow(&self, other: &State)
        requires
            self.tables_ok(),
            self.le(other),
        ensures
            self.said().le(other.said()),
            forall|i: int|
                0 <= i < self.edges@.len() ==> other.edge_of(#[trigger] self.edges@[i])
                    == self.edge_of(self.edges@[i]),
            forall|i: int|
                0 <= i < self.points@.len() ==> other.point_of(#[trigger] self.points@[i])
                    == self.point_of(self.points@[i]),
            forall|i: int|
                0 <= i < self.pending@.len() ==> other.pending_of(#[trigger] self.pending@[i])
                    == self.pending_of(self.pending@[i]),
    {
        self.store@.lemma_grow(other.store@);
        assert forall|i: int| 0 <= i < self.edges@.len() implies other.edge_of(
            #[trigger] self.edges@[i],
        ) == self.edge_of(self.edges@[i]) && other.edges@[i] == self.edges@[i] by {
            assert(self.edge_ok(self.edges@[i]));
            self.lemma_node_grow(other, self.edges@[i][0]);
            self.lemma_node_grow(other, self.edges@[i][1]);
        }
        assert forall|i: int| 0 <= i < self.points@.len() implies other.point_of(
            #[trigger] self.points@[i],
        ) == self.point_of(self.points@[i]) && other.points@[i] == self.points@[i] by {
            assert(self.point_ok(self.points@[i]));
            self.lemma_node_grow(other, self.points@[i][0]);
        }
        assert forall|i: int| 0 <= i < self.pending@.len() implies other.pending_of(
            #[trigger] self.pending@[i],
        ) == self.pending_of(self.pending@[i]) && other.pending@[i] == self.pending@[i] by {
            assert(self.pending_ok(self.pending@[i]));
        }
        assert forall|x: (Name, Path, Path)| self.said().edge.contains(x)
            implies #[trigger] other.said().edge.contains(
            x,
        ) by {
            let j = choose|j: int|
                0 <= j < self.edges@.len() && self.edge_of(#[trigger] self.edges@[j]) == x;
            assert(other.edge_of(other.edges@[j]) == x);
        }
        assert forall|x: (Name, Path, Value)| self.said().points.contains(x)
            implies #[trigger] other.said().points.contains(
            x,
        ) by {
            let j = choose|j: int|
                0 <= j < self.points@.len() && self.point_of(#[trigger] self.points@[j]) == x;
            assert(other.point_of(other.points@[j]) == x);
        }
        assert forall|x: (Name, Instance)| self.said().pending.contains(x)
            implies #[trigger] other.said().pending.contains(
            x,
        ) by {
            let j = choose|j: int|
                0 <= j < self.pending@.len() && self.pending_of(#[trigger] self.pending@[j]) == x;
            assert(other.pending_of(other.pending@[j]) == x);
        }
    }

    /// Numbering more paths and instances changes nothing of what is said.
    pub proof fn lemma_store_grow(&self, other: &State)
        requires
            self.tables_ok(),
            self.same_tables(other),
            self.store@.le(other.store@),
            other.store.wf(),
        ensures
            other.tables_ok(),
            self.wf() ==> other.wf(),
            self.le(other),
            other.said() == self.said(),
    {
        self.store@.lemma_grow(other.store@);
        self.lemma_grow(other);
        assert forall|i: int| 0 <= i < other.spots@.len() implies other.spot_ok(
            #[trigger] other.spots@[i],
        ) by {
            assert(self.spot_ok(self.spots@[i]));
        }
        assert forall|i: int| 0 <= i < other.nodes@.len() implies other.node_ok(
            #[trigger] other.nodes@[i],
        ) by {
            assert(self.node_ok(self.nodes@[i]));
        }
        assert forall|i: int| 0 <= i < other.edges@.len() implies other.edge_ok(
            #[trigger] other.edges@[i],
        ) by {
            assert(self.edge_ok(self.edges@[i]));
        }
        assert forall|i: int| 0 <= i < other.points@.len() implies other.point_ok(
            #[trigger] other.points@[i],
        ) by {
            assert(self.point_ok(self.points@[i]));
        }
        assert forall|i: int| 0 <= i < other.pending@.len() implies other.pending_ok(
            #[trigger] other.pending@[i],
        ) by {
            assert(self.pending_ok(self.pending@[i]));
        }
        if self.wf() {
            assert forall|n: usize| n < other.nodes@.len() implies #[trigger] other.occurs(n) by {
                assert(self.occurs(n));
            }
        }
        assert(other.said().edge =~= self.said().edge) by {
            assert forall|x: (Name, Path, Path)| other.said().edge.contains(x)
                implies #[trigger] self.said().edge.contains(
                x,
            ) by {
                let j = choose|j: int|
                    0 <= j < other.edges@.len() && other.edge_of(#[trigger] other.edges@[j]) == x;
                assert(self.edge_of(self.edges@[j]) == x);
            }
        }
        assert(other.said().points =~= self.said().points) by {
            assert forall|x: (Name, Path, Value)| other.said().points.contains(x)
                implies #[trigger] self.said().points.contains(
                x,
            ) by {
                let j = choose|j: int|
                    0 <= j < other.points@.len()
                        && other.point_of(#[trigger] other.points@[j]) == x;
                assert(self.point_of(self.points@[j]) == x);
            }
        }
        assert(other.said().pending =~= self.said().pending) by {
            assert forall|x: (Name, Instance)| other.said().pending.contains(x)
                implies #[trigger] self.said().pending.contains(
                x,
            ) by {
                let j = choose|j: int|
                    0 <= j < other.pending@.len() && other.pending_of(#[trigger] other.pending@[j])
                        == x;
                assert(self.pending_of(self.pending@[j]) == x);
            }
        }
    }

    // -- from tuples to rows --------------------------------------------------

/// A state without rows says nothing.
    pub proof fn lemma_empty(&self)
        requires
            self.store.wf(),
            self.spots.wf() && self.spots@.len() == 0,
            self.nodes.wf() && self.nodes@.len() == 0,
            self.edges.wf() && self.edges@.len() == 0,
            self.points.wf() && self.points@.len() == 0,
            self.pending.wf() && self.pending@.len() == 0,
        ensures
            self.wf(),
            self.said() == (Core { edge: Set::empty(), points: Set::empty(),
                pending: Set::empty() }),
    {
        assert(self.said().edge =~= Set::empty());
        assert(self.said().points =~= Set::empty());
        assert(self.said().pending =~= Set::empty());
    }

        pub proof fn lemma_edge_row(&self, x: (Name, Path, Path)) -> (j: int)
        requires
            self.tables_ok(),
            self.said().edge.contains(x),
        ensures
            0 <= j < self.edges@.len(),
            self.edge_of(self.edges@[j]) == x,
            self.edge_ok(self.edges@[j]),
    {
        choose|j: int| 0 <= j < self.edges@.len() && self.edge_of(#[trigger] self.edges@[j]) == x
    }

    pub proof fn lemma_point_row(&self, x: (Name, Path, Value)) -> (j: int)
        requires
            self.tables_ok(),
            self.said().points.contains(x),
        ensures
            0 <= j < self.points@.len(),
            self.point_of(self.points@[j]) == x,
            self.point_ok(self.points@[j]),
    {
        choose|j: int| 0 <= j < self.points@.len() && self.point_of(#[trigger] self.points@[j]) == x
    }

    pub proof fn lemma_pending_row(&self, x: (Name, Instance)) -> (j: int)
        requires
            self.tables_ok(),
            self.said().pending.contains(x),
        ensures
            0 <= j < self.pending@.len(),
            self.pending_of(self.pending@[j]) == x,
            self.pending_ok(self.pending@[j]),
    {
        choose|j: int|
            0 <= j < self.pending@.len() && self.pending_of(#[trigger] self.pending@[j]) == x
    }

    pub proof fn lemma_row_edge(&self, row: Seq<usize>)
        requires
            self.edges@.contains(row),
        ensures
            self.said().edge.contains(self.edge_of(row)),
    {
        let j = choose|j: int| 0 <= j < self.edges@.len() && self.edges@[j] == row;
        assert(self.edge_of(self.edges@[j]) == self.edge_of(row));
    }

    pub proof fn lemma_row_point(&self, row: Seq<usize>)
        requires
            self.points@.contains(row),
        ensures
            self.said().points.contains(self.point_of(row)),
    {
        let j = choose|j: int| 0 <= j < self.points@.len() && self.points@[j] == row;
        assert(self.point_of(self.points@[j]) == self.point_of(row));
    }

    pub proof fn lemma_row_pending(&self, row: Seq<usize>)
        requires
            self.pending@.contains(row),
        ensures
            self.said().pending.contains(self.pending_of(row)),
    {
        let j = choose|j: int| 0 <= j < self.pending@.len() && self.pending@[j] == row;
        assert(self.pending_of(self.pending@[j]) == self.pending_of(row));
    }

    /// A procedure and a path have one node.
    pub proof fn lemma_node_injective(&self, n: usize, m: usize)
        requires
            self.tables_ok(),
            n < self.nodes@.len(),
            m < self.nodes@.len(),
            self.store@.name(self.proc(n)) == self.store@.name(self.proc(m)),
            self.store@.path(self.place(n)) == self.store@.path(self.place(m)),
        ensures
            n == m,
    {
        let a = self.nodes@[n as int];
        let b = self.nodes@[m as int];
        assert(self.node_ok(a) && self.node_ok(b));
        let x = self.spots@[a[0] as int];
        let y = self.spots@[b[0] as int];
        assert(self.spot_ok(x) && self.spot_ok(y));
        self.store@.lemma_name_injective(x[0], y[0]);
        self.store@.lemma_path_injective(a[1], b[1]);
        self.spots.lemma_distinct();
        self.nodes.lemma_distinct();
        assert(x =~= y) by {
            assert(spot_key(x) == spot_key(y));
            assert(x[1] == spot_key(x).tag && x[2] == spot_key(x).a && x[3] == spot_key(x).b);
            assert(y[1] == spot_key(y).tag && y[2] == spot_key(y).a && y[3] == spot_key(y).b);
        }
        assert(a =~= b);
    }

    /// Two nodes of one procedure with one root share their spot.
    pub proof fn lemma_same_spot(&self, n: usize, m: usize)
        requires
            self.tables_ok(),
            n < self.nodes@.len(),
            m < self.nodes@.len(),
            self.proc(n) == self.proc(m),
            self.store@.path(self.place(n)).root == self.store@.path(self.place(m)).root,
        ensures
            self.nodes@[n as int][0] == self.nodes@[m as int][0],
            self.nodes@[n as int].len() == 2,
            self.nodes@[m as int].len() == 2,
    {
        let a = self.nodes@[n as int];
        let b = self.nodes@[m as int];
        assert(self.node_ok(a) && self.node_ok(b));
        self.store@.lemma_path(a[1]);
        self.store@.lemma_path(b[1]);
        self.store@.lemma_root_injective(self.store@.key(a[1]), self.store@.key(b[1]));
        let x = self.spots@[a[0] as int];
        assert(self.spot_ok(x));
        assert(self.spot_ok(self.spots@[b[0] as int]));
        self.lemma_spot(m, x);
        self.spots.lemma_distinct();
    }

    /// A path that is used has a node.
    pub proof fn lemma_used_node(&self, p: Name, x: Path) -> (n: usize)
        requires
            self.tables_ok(),
            self.said().path_used(p, x),
        ensures
            n < self.nodes@.len(),
            self.store@.name(self.proc(n)) == p,
            self.store@.path(self.place(n)) == x,
    {
        let m = self.said();
        if exists|b: Path| m.edge.contains((p, x, b)) {
            let b = choose|b: Path| m.edge.contains((p, x, b));
            let j = self.lemma_edge_row((p, x, b));
            self.edges@[j][0]
        } else if exists|a: Path| m.edge.contains((p, a, x)) {
            let a = choose|a: Path| m.edge.contains((p, a, x));
            let j = self.lemma_edge_row((p, a, x));
            self.edges@[j][1]
        } else {
            let v = choose|v: Value| m.points.contains((p, x, v));
            let j = self.lemma_point_row((p, x, v));
            self.points@[j][0]
        }
    }

    /// A path that has a node is used.
    pub proof fn lemma_node_used(&self, n: usize)
        requires
            self.wf(),
            n < self.nodes@.len(),
        ensures
            self.said().path_used(
                self.store@.name(self.proc(n)),
                self.store@.path(self.place(n)),
            ),
    {
        assert(self.occurs(n));
        let m = self.said();
        if exists|j: int| 0 <= j < self.edges@.len() && (#[trigger] self.edges@[j])[0] == n {
            let j = choose|j: int| 0 <= j < self.edges@.len()
                && (#[trigger] self.edges@[j])[0] == n;
            assert(self.edges@.contains(self.edges@[j]));
            self.lemma_row_edge(self.edges@[j]);
            let x = self.edge_of(self.edges@[j]);
            assert(m.edge.contains((x.0, x.1, x.2)));
        } else if exists|j: int| 0 <= j < self.edges@.len() && (#[trigger] self.edges@[j])[1] == n {
            let j = choose|j: int| 0 <= j < self.edges@.len()
                && (#[trigger] self.edges@[j])[1] == n;
            assert(self.edge_ok(self.edges@[j]));
            assert(self.edges@.contains(self.edges@[j]));
            self.lemma_row_edge(self.edges@[j]);
            let x = self.edge_of(self.edges@[j]);
            assert(m.edge.contains((x.0, x.1, x.2)));
        } else {
            let j = choose|j: int|
                0 <= j < self.points@.len() && (#[trigger] self.points@[j])[0] == n;
            assert(self.points@.contains(self.points@[j]));
            self.lemma_row_point(self.points@[j]);
            let x = self.point_of(self.points@[j]);
            assert(m.points.contains((x.0, x.1, x.2)));
        }
    }

    // -- adding -----------------------------------------------------------------

    /// The number of a node, if it has one.
    pub fn find_node(&self, p: usize, w: usize) -> (r: Option<usize>)
        requires
            self.tables_ok(),
            p < self.store@.names.len(),
            w < self.store@.paths.len(),
        ensures
            match r {
                Some(n) => n < self.nodes@.len() && self.proc(n) == p && self.place(n) == w,
                None => forall|n: usize|
                    n < self.nodes@.len() ==> !(#[trigger] self.proc(n) == p && self.place(n) == w),
            },
    {
        let key = self.store.key(w);
        let row: Vec<usize> = vec![p, key.tag, key.a, key.b];
        match self.spots.find(row.as_slice()) {
            None => {
                proof {
                    assert forall|n: usize| n < self.nodes@.len() implies !(#[trigger] self.proc(n)
                        == p && self.place(n) == w) by {
                        if self.proc(n) == p && self.place(n) == w {
                            self.lemma_spot(n, row@);
                        }
                    }
                }
                None
            },
            Some(spot) => {
                let cells: Vec<usize> = vec![spot, w];
                let r = self.nodes.find(cells.as_slice());
                proof {
                    if r is None {
                        assert forall|n: usize| n < self.nodes@.len() implies !(
                        #[trigger] self.proc(n) == p && self.place(n) == w) by {
                            if self.proc(n) == p && self.place(n) == w {
                                self.lemma_spot(n, row@);
                                self.spots.lemma_distinct();
                                assert(self.nodes@[n as int] =~= cells@);
                                assert(self.nodes@.contains(cells@));
                            }
                        }
                    }
                }
                r
            },
        }
    }

    /// The spot of a node.
    proof fn lemma_spot(&self, n: usize, row: Seq<usize>)
        requires
            self.tables_ok(),
            n < self.nodes@.len(),
            row.len() == 4,
            row[0] == self.proc(n),
            spot_key(row) == self.store@.key(self.place(n)),
        ensures
            self.spots@[self.nodes@[n as int][0] as int] == row,
            self.nodes@[n as int][0] < self.spots@.len(),
            self.spots@.contains(row),
            self.nodes@[n as int].len() == 2,
    {
        assert(self.node_ok(self.nodes@[n as int]));
        let x = self.spots@[self.nodes@[n as int][0] as int];
        assert(self.spot_ok(x));
        assert(x[1] == spot_key(x).tag && x[2] == spot_key(x).a && x[3] == spot_key(x).b);
        assert(row[1] == spot_key(row).tag && row[2] == spot_key(row).a && row[3] == spot_key(
            row,
        ).b);
        assert(x =~= row);
    }

    /// The number of a node, which is given one if it has none.
    fn node(&mut self, p: usize, w: usize) -> (r: usize)
        requires
            old(self).tables_ok(),
            p < old(self).store@.names.len(),
            w < old(self).store@.paths.len(),
        ensures
            final(self).tables_ok(),
            final(self).store == old(self).store,
            final(self).edges == old(self).edges,
            final(self).points == old(self).points,
            final(self).pending == old(self).pending,
            old(self).le(final(self)),
            r < final(self).nodes@.len(),
            final(self).proc(r) == p,
            final(self).place(r) == w,
            forall|n: usize|
                old(self).nodes@.len() <= n < final(self).nodes@.len()
                    ==> #[trigger] final(self).proc(
                    n,
                ) == p && n == r,
    {
        let ghost s0 = *self;
        let key = self.store.key(w);
        let row: Vec<usize> = vec![p, key.tag, key.a, key.b];
        let ghost srow = row@;
        let spot: usize = self.spots.insert(row);
        proof {
            assert(spot_key(srow) == key);
            assert(initial(s0.spots@, self.spots@));
            assert forall|i: int| 0 <= i < self.nodes@.len() implies self.node_ok(
                #[trigger] self.nodes@[i],
            ) by {
                assert(s0.node_ok(s0.nodes@[i]));
            }
            assert forall|i: int| 0 <= i < self.spots@.len() implies self.spot_ok(
                #[trigger] self.spots@[i],
            ) by {
                if i < s0.spots@.len() {
                    assert(s0.spot_ok(s0.spots@[i]));
                }
            }
        }
        let ghost s1 = *self;
        let cells: Vec<usize> = vec![spot, w];
        let ghost nrow = cells@;
        let r: usize = self.nodes.insert(cells);
        proof {
            assert(initial(s0.nodes@, self.nodes@));
            assert forall|i: int| 0 <= i < self.nodes@.len() implies self.node_ok(
                #[trigger] self.nodes@[i],
            ) by {
                if i < s1.nodes@.len() {
                    assert(s1.node_ok(s1.nodes@[i]));
                }
            }
            assert(s0.le(self));
            assert forall|i: int| 0 <= i < self.edges@.len() implies self.edge_ok(
                #[trigger] self.edges@[i],
            ) by {
                let row = s0.edges@[i];
                assert(s0.edge_ok(row));
                s0.lemma_node_grow(self, row[0]);
                s0.lemma_node_grow(self, row[1]);
            }
            assert forall|i: int| 0 <= i < self.points@.len() implies self.point_ok(
                #[trigger] self.points@[i],
            ) by {
                assert(s0.point_ok(s0.points@[i]));
            }
            assert forall|i: int| 0 <= i < self.pending@.len() implies self.pending_ok(
                #[trigger] self.pending@[i],
            ) by {
                assert(s0.pending_ok(s0.pending@[i]));
            }
            self.nodes.lemma_distinct();
            if !s1.nodes@.contains(nrow) {
                assert(self.nodes@[s1.nodes@.len() as int] == nrow);
            }
        }
        r
    }

    /// Nodes that occur keep occurring.
    proof fn lemma_occurs(&self, other: &State, n: usize)
        requires
            self.le(other),
            self.occurs(n),
        ensures
            other.occurs(n),
    {
        if exists|j: int| 0 <= j < self.edges@.len() && (#[trigger] self.edges@[j])[0] == n {
            let j = choose|j: int| 0 <= j < self.edges@.len()
                && (#[trigger] self.edges@[j])[0] == n;
            assert(other.edges@[j][0] == n);
        } else if exists|j: int| 0 <= j < self.edges@.len() && (#[trigger] self.edges@[j])[1] == n {
            let j = choose|j: int| 0 <= j < self.edges@.len()
                && (#[trigger] self.edges@[j])[1] == n;
            assert(other.edges@[j][1] == n);
        } else {
            let j = choose|j: int|
                0 <= j < self.points@.len() && (#[trigger] self.points@[j])[0] == n;
            assert(other.points@[j][0] == n);
        }
    }

    /// Add a constraint.
    pub fn put_edge(&mut self, p: usize, sup: usize, sub: usize)
        requires
            old(self).wf(),
            p < old(self).store@.names.len(),
            sup < old(self).store@.paths.len(),
            sub < old(self).store@.paths.len(),
        ensures
            final(self).wf(),
            old(self).le(final(self)),
            final(self).store == old(self).store,
            final(self).points == old(self).points,
            final(self).pending == old(self).pending,
            final(self).said() == (Core {
                edge: old(self).said().edge.insert(
                    (
                        old(self).store@.name(p),
                        old(self).store@.path(sup),
                        old(self).store@.path(sub),
                    ),
                ),
                ..old(self).said()
            }),
    {
        let ghost s0 = *self;
        let a: usize = self.node(p, sup);
        let ghost s1 = *self;
        let b: usize = self.node(p, sub);
        let ghost s2 = *self;
        proof {
            s1.lemma_node_grow(&s2, a);
            s0.lemma_le_trans(&s1, &s2);
        }
        let cells: Vec<usize> = vec![a, b];
        let ghost row = cells@;
        self.edges.insert(cells);
        proof {
            assert(s2.edge_ok(row));
            assert(initial(s2.edges@, self.edges@));
            assert(s2.le(self));
            s0.lemma_le_trans(&s2, self);
            assert forall|i: int| 0 <= i < self.edges@.len() implies self.edge_ok(
                #[trigger] self.edges@[i],
            ) by {
                if i < s2.edges@.len() {
                    assert(s2.edge_ok(s2.edges@[i]));
                }
            }
            assert forall|i: int| 0 <= i < self.spots@.len() implies self.spot_ok(
                #[trigger] self.spots@[i],
            ) by {
                assert(s2.spot_ok(s2.spots@[i]));
            }
            assert forall|i: int| 0 <= i < self.nodes@.len() implies self.node_ok(
                #[trigger] self.nodes@[i],
            ) by {
                assert(s2.node_ok(s2.nodes@[i]));
            }
            assert forall|i: int| 0 <= i < self.points@.len() implies self.point_ok(
                #[trigger] self.points@[i],
            ) by {
                assert(s2.point_ok(s2.points@[i]));
            }
            assert forall|i: int| 0 <= i < self.pending@.len() implies self.pending_ok(
                #[trigger] self.pending@[i],
            ) by {
                assert(s2.pending_ok(s2.pending@[i]));
            }
            assert(self.edges@.contains(row));
            let j = choose|j: int| 0 <= j < self.edges@.len() && self.edges@[j] == row;
            assert forall|n: usize| n < self.nodes@.len() implies #[trigger] self.occurs(n) by {
                if n < s0.nodes@.len() {
                    s0.lemma_occurs(self, n);
                } else if n < s1.nodes@.len() {
                    assert(s1.proc(n) == p);
                    assert(n == a);
                    assert(self.edges@[j][0] == n);
                } else {
                    assert(s2.proc(n) == p);
                    assert(n == b);
                    assert(self.edges@[j][1] == n);
                }
            }
            s0.lemma_grow(self);
            let x = (s0.store@.name(p), s0.store@.path(sup), s0.store@.path(sub));
            assert(self.edge_of(row) == x);
            let c = s0.said();
            assert forall|y: (Name, Path, Path)| #[trigger] self.said().edge.contains(y)
                <==> c.edge.insert(
                x,
            ).contains(y) by {
                if self.said().edge.contains(y) {
                    let i = choose|i: int|
                        0 <= i < self.edges@.len() && self.edge_of(#[trigger] self.edges@[i]) == y;
                    if i < s0.edges@.len() {
                        assert(s0.edge_of(s0.edges@[i]) == y);
                        assert(c.edge.contains(y));
                    } else {
                        assert(self.edges@[i] == row);
                    }
                }
                if y == x {
                    assert(self.edge_of(self.edges@[j]) == y);
                }
            }
            assert(self.said().edge =~= c.edge.insert(x));
            assert(self.said().points =~= c.points) by {
                assert forall|y: (Name, Path, Value)| #[trigger] self.said().points.contains(y)
                    implies c.points.contains(
                    y,
                ) by {
                    let i = choose|i: int|
                        0 <= i < self.points@.len()
                            && self.point_of(#[trigger] self.points@[i]) == y;
                    assert(s0.point_of(s0.points@[i]) == y);
                }
            }
            assert(self.said().pending =~= c.pending) by {
                assert forall|y: (Name, Instance)| #[trigger] self.said().pending.contains(y)
                    implies c.pending.contains(
                    y,
                ) by {
                    let i = choose|i: int|
                        0 <= i < self.pending@.len() && self.pending_of(#[trigger] self.pending@[i])
                            == y;
                    assert(s0.pending_of(s0.pending@[i]) == y);
                }
            }
        }
    }

    /// Add a points-to fact.
    pub fn put_point(&mut self, p: usize, w: usize, tag: usize, x: usize)
        requires
            old(self).wf(),
            p < old(self).store@.names.len(),
            w < old(self).store@.paths.len(),
            old(self).store@.value_ok(tag, x),
        ensures
            final(self).wf(),
            old(self).le(final(self)),
            final(self).store == old(self).store,
            final(self).edges == old(self).edges,
            final(self).pending == old(self).pending,
            final(self).said() == (Core {
                points: old(self).said().points.insert(
                    (
                        old(self).store@.name(p),
                        old(self).store@.path(w),
                        old(self).store@.value(tag, x),
                    ),
                ),
                ..old(self).said()
            }),
    {
        let ghost s0 = *self;
        let a: usize = self.node(p, w);
        let ghost s2 = *self;
        let cells: Vec<usize> = vec![a, tag, x];
        let ghost row = cells@;
        self.points.insert(cells);
        proof {
            assert(s2.point_ok(row));
            assert(initial(s2.points@, self.points@));
            assert(s2.le(self));
            s0.lemma_le_trans(&s2, self);
            assert forall|i: int| 0 <= i < self.edges@.len() implies self.edge_ok(
                #[trigger] self.edges@[i],
            ) by {
                assert(s2.edge_ok(s2.edges@[i]));
            }
            assert forall|i: int| 0 <= i < self.spots@.len() implies self.spot_ok(
                #[trigger] self.spots@[i],
            ) by {
                assert(s2.spot_ok(s2.spots@[i]));
            }
            assert forall|i: int| 0 <= i < self.nodes@.len() implies self.node_ok(
                #[trigger] self.nodes@[i],
            ) by {
                assert(s2.node_ok(s2.nodes@[i]));
            }
            assert forall|i: int| 0 <= i < self.points@.len() implies self.point_ok(
                #[trigger] self.points@[i],
            ) by {
                if i < s2.points@.len() {
                    assert(s2.point_ok(s2.points@[i]));
                }
            }
            assert forall|i: int| 0 <= i < self.pending@.len() implies self.pending_ok(
                #[trigger] self.pending@[i],
            ) by {
                assert(s2.pending_ok(s2.pending@[i]));
            }
            assert(self.points@.contains(row));
            let j = choose|j: int| 0 <= j < self.points@.len() && self.points@[j] == row;
            assert forall|n: usize| n < self.nodes@.len() implies #[trigger] self.occurs(n) by {
                if n < s0.nodes@.len() {
                    s0.lemma_occurs(self, n);
                } else {
                    assert(s2.proc(n) == p);
                    assert(n == a);
                    assert(self.points@[j][0] == n);
                }
            }
            s0.lemma_grow(self);
            let v = (s0.store@.name(p), s0.store@.path(w), s0.store@.value(tag, x));
            assert(self.point_of(row) == v);
            let c = s0.said();
            assert forall|y: (Name, Path, Value)| #[trigger] self.said().points.contains(y)
                <==> c.points.insert(
                v,
            ).contains(y) by {
                if self.said().points.contains(y) {
                    let i = choose|i: int|
                        0 <= i < self.points@.len()
                            && self.point_of(#[trigger] self.points@[i]) == y;
                    if i < s0.points@.len() {
                        assert(s0.point_of(s0.points@[i]) == y);
                        assert(c.points.contains(y));
                    } else {
                        assert(self.points@[i] == row);
                    }
                }
                if y == v {
                    assert(self.point_of(self.points@[j]) == y);
                }
            }
            assert(self.said().points =~= c.points.insert(v));
            assert(self.said().edge =~= c.edge) by {
                assert forall|y: (Name, Path, Path)| #[trigger] self.said().edge.contains(y)
                    implies c.edge.contains(
                    y,
                ) by {
                    let i = choose|i: int|
                        0 <= i < self.edges@.len() && self.edge_of(#[trigger] self.edges@[i]) == y;
                    assert(s0.edge_of(s0.edges@[i]) == y);
                }
            }
            assert(self.said().pending =~= c.pending) by {
                assert forall|y: (Name, Instance)| #[trigger] self.said().pending.contains(y)
                    implies c.pending.contains(
                    y,
                ) by {
                    let i = choose|i: int|
                        0 <= i < self.pending@.len() && self.pending_of(#[trigger] self.pending@[i])
                            == y;
                    assert(s0.pending_of(s0.pending@[i]) == y);
                }
            }
        }
    }

    /// Add a pending instance.
    pub fn put_pending(&mut self, p: usize, id: usize)
        requires
            old(self).wf(),
            p < old(self).store@.names.len(),
            id < old(self).store@.insts.len(),
        ensures
            final(self).wf(),
            old(self).le(final(self)),
            final(self).store == old(self).store,
            final(self).edges == old(self).edges,
            final(self).points == old(self).points,
            final(self).said() == (Core {
                pending: old(self).said().pending.insert(
                    (old(self).store@.name(p), old(self).store@.inst(id)),
                ),
                ..old(self).said()
            }),
    {
        let ghost s0 = *self;
        let cells: Vec<usize> = vec![p, id];
        let ghost row = cells@;
        self.pending.insert(cells);
        proof {
            assert(s0.pending_ok(row));
            assert(initial(s0.pending@, self.pending@));
            assert(s0.le(self));
            assert forall|i: int| 0 <= i < self.edges@.len() implies self.edge_ok(
                #[trigger] self.edges@[i],
            ) by {
                assert(s0.edge_ok(s0.edges@[i]));
            }
            assert forall|i: int| 0 <= i < self.spots@.len() implies self.spot_ok(
                #[trigger] self.spots@[i],
            ) by {
                assert(s0.spot_ok(s0.spots@[i]));
            }
            assert forall|i: int| 0 <= i < self.nodes@.len() implies self.node_ok(
                #[trigger] self.nodes@[i],
            ) by {
                assert(s0.node_ok(s0.nodes@[i]));
            }
            assert forall|i: int| 0 <= i < self.points@.len() implies self.point_ok(
                #[trigger] self.points@[i],
            ) by {
                assert(s0.point_ok(s0.points@[i]));
            }
            assert forall|i: int| 0 <= i < self.pending@.len() implies self.pending_ok(
                #[trigger] self.pending@[i],
            ) by {
                if i < s0.pending@.len() {
                    assert(s0.pending_ok(s0.pending@[i]));
                }
            }
            assert(self.pending@.contains(row));
            let j = choose|j: int| 0 <= j < self.pending@.len() && self.pending@[j] == row;
            assert forall|n: usize| n < self.nodes@.len() implies #[trigger] self.occurs(n) by {
                s0.lemma_occurs(self, n);
            }
            s0.lemma_grow(self);
            let v = (s0.store@.name(p), s0.store@.inst(id));
            assert(self.pending_of(row) == v);
            let c = s0.said();
            assert forall|y: (Name, Instance)| #[trigger] self.said().pending.contains(y)
                <==> c.pending.insert(
                v,
            ).contains(y) by {
                if self.said().pending.contains(y) {
                    let i = choose|i: int|
                        0 <= i < self.pending@.len() && self.pending_of(#[trigger] self.pending@[i])
                            == y;
                    if i < s0.pending@.len() {
                        assert(s0.pending_of(s0.pending@[i]) == y);
                        assert(c.pending.contains(y));
                    } else {
                        assert(self.pending@[i] == row);
                    }
                }
                if y == v {
                    assert(self.pending_of(self.pending@[j]) == y);
                }
            }
            assert(self.said().pending =~= c.pending.insert(v));
            assert(self.said().edge =~= c.edge) by {
                assert forall|y: (Name, Path, Path)| #[trigger] self.said().edge.contains(y)
                    implies c.edge.contains(
                    y,
                ) by {
                    let i = choose|i: int|
                        0 <= i < self.edges@.len() && self.edge_of(#[trigger] self.edges@[i]) == y;
                    assert(s0.edge_of(s0.edges@[i]) == y);
                }
            }
            assert(self.said().points =~= c.points) by {
                assert forall|y: (Name, Path, Value)| #[trigger] self.said().points.contains(y)
                    implies c.points.contains(
                    y,
                ) by {
                    let i = choose|i: int|
                        0 <= i < self.points@.len()
                            && self.point_of(#[trigger] self.points@[i]) == y;
                    assert(s0.point_of(s0.points@[i]) == y);
                }
            }
        }
    }
}

} // verus!
