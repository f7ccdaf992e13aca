//! Running the rules to the least model.
use vstd::prelude::*;

use crate::access_path::{Instance, Path, Value};
use crate::engine::Engine;
use crate::fire::fire_flow;
use crate::ground::grounded;
use crate::ir::Name;
use crate::rules::{Core, Setting};
use crate::state::State;

verus! {

/// A state that has not grown says what it said.
proof fn lemma_unchanged(a: State, b: State)
    requires
        a.tables_ok(),
        b.tables_ok(),
        a.le(&b),
        a.edges@.len() == b.edges@.len(),
        a.points@.len() == b.points@.len(),
        a.pending@.len() == b.pending@.len(),
    ensures
        a.said() == b.said(),
{
    a.lemma_grow(&b);
    assert(b.said().edge =~= a.said().edge) by {
        assert forall|x: (Name, Path, Path)| b.said().edge.contains(x)
            implies #[trigger] a.said().edge.contains(
            x,
        ) by {
            let j = b.lemma_edge_row(x);
            assert(b.edges@[j] == a.edges@[j]);
            assert(a.edges@.contains(a.edges@[j]));
            a.lemma_row_edge(a.edges@[j]);
        }
    }
    assert(b.said().points =~= a.said().points) by {
        assert forall|x: (Name, Path, Value)| b.said().points.contains(x)
            implies #[trigger] a.said().points.contains(
            x,
        ) by {
            let j = b.lemma_point_row(x);
            assert(b.points@[j] == a.points@[j]);
            assert(a.points@.contains(a.points@[j]));
            a.lemma_row_point(a.points@[j]);
        }
    }
    assert(b.said().pending =~= a.said().pending) by {
        assert forall|x: (Name, Instance)| b.said().pending.contains(x)
            implies #[trigger] a.said().pending.contains(
            x,
        ) by {
            let j = b.lemma_pending_row(x);
            assert(b.pending@[j] == a.pending@[j]);
            assert(a.pending@.contains(a.pending@[j]));
            a.lemma_row_pending(a.pending@[j]);
        }
    }
}

/// What is grounded stays so.
proof fn lemma_grounded_grow(w: Setting, a: Core, b: Core)
    requires
        a.le(b),
        grounded(w, a),
    ensures
        grounded(w, b),
{
}

/// Everything that the rules which are not about facts alone derive from `m` is in `n`.
spec fn advanced(w: Setting, m: Core, n: Core) -> bool {
    &&& forall|p: Name, x: Path, v: Value| #[trigger]
        w.points_by_flow(m, p, x, v) ==> n.points.contains((p, x, v))
    &&& forall|p: Name, x: Path, v: Value| #[trigger]
        w.points_by_symbol(m, p, x, v) ==> n.points.contains((p, x, v))
    &&& forall|p: Name, x: Path, y: Path| #[trigger]
        w.edge_by_extending_sup(m, p, x, y) ==> n.edge.contains((p, x, y))
    &&& forall|p: Name, x: Path, y: Path| #[trigger]
        w.edge_by_extending_sub(m, p, x, y) ==> n.edge.contains((p, x, y))
    &&& forall|p: Name, x: Path, y: Path| #[trigger]
        w.edge_by_call(m, p, x, y) ==> n.edge.contains((p, x, y))
    &&& forall|p: Name, x: Path, v: Value| #[trigger]
        w.points_by_call(m, p, x, v) ==> n.points.contains((p, x, v))
    &&& forall|p: Name, x: Path, y: Path| #[trigger]
        w.edge_by_dispatch(m, p, x, y) ==> n.edge.contains((p, x, y))
    &&& forall|p: Name, x: Path, v: Value| #[trigger]
        w.points_by_dispatch(m, p, x, v) ==> n.points.contains((p, x, v))
    &&& forall|p: Name, id: Instance| #[trigger]
        w.pending_by_call(m, p, id) ==> n.pending.contains((p, id))
    &&& forall|p: Name, id: Instance| #[trigger]
        w.pending_by_dispatch(m, p, id) ==> n.pending.contains((p, id))
    &&& forall|p: Name, x: Path, y: Path| #[trigger]
        w.edge_by_load(m, p, x, y) ==> n.edge.contains((p, x, y))
    &&& forall|p: Name, x: Path, y: Path| #[trigger]
        w.edge_by_store(m, p, x, y) ==> n.edge.contains((p, x, y))
}

proof fn lemma_closed(w: Setting, m: Core)
    requires
        grounded(w, m),
        advanced(w, m, m),
    ensures
        w.closed_under(m),
{
}

impl Engine {
    /// Every rule once.
    fn round(&self, st: &mut State, Ghost(w): Ghost<Setting>, Ghost(seed): Ghost<Core>)
        requires
            self.steady(*old(st), w, seed),
        ensures
            self.steady(*final(st), w, seed),
            old(st).le(final(st)),
            advanced(w, old(st).said(), final(st).said()),
    {
        let ghost sm = *st;
        let ghost m = st.said();
        let marks = self.mark(st, Ghost(w));
        fire_flow(st, Ghost(w), Ghost(seed), Ghost(m));
        let ghost s1 = *st;
        proof {
            self.lemma_steady(sm, s1, w, seed);
        }
        self.fire_congruence(st, Ghost(w), Ghost(seed), Ghost(m));
        let ghost s2 = *st;
        proof {
            self.lemma_steady(s1, s2, w, seed);
            sm.lemma_le_trans(&s1, &s2);
        }
        self.fire_calls(st, &marks, Ghost(sm), Ghost(w), Ghost(seed));
        let ghost s3 = *st;
        self.fire_dispatches(st, &marks, Ghost(sm), Ghost(w), Ghost(seed));
        let ghost s4 = *st;
        self.fire_propagation(st, &marks, Ghost(sm), Ghost(w), Ghost(seed));
        let ghost s5 = *st;
        self.fire_nesting(st, &marks, Ghost(sm), Ghost(w), Ghost(seed));
        let ghost s6 = *st;
        self.fire_accesses(st, &marks, Ghost(sm), Ghost(w), Ghost(seed));
        proof {
            self.lemma_ready(s2, s3, sm, marks, w, seed);
            self.lemma_ready(s3, s4, sm, marks, w, seed);
            self.lemma_ready(s4, s5, sm, marks, w, seed);
            self.lemma_ready(s5, s6, sm, marks, w, seed);
            self.lemma_ready(s6, *st, sm, marks, w, seed);
            s1.lemma_grow(&s2);
            let n = st.said();
            assert(s6.said().le(n));
            assert(s5.said().le(n));
            assert(s4.said().le(n));
            assert(s3.said().le(n));
            assert(s2.said().le(n));
            assert(s1.said().le(n));
        }
    }

    /// Run the rules until nothing more follows.
    pub fn solve(&self, start: State, Ghost(w): Ghost<Setting>, Ghost(seed): Ghost<Core>)
        -> (st: State)
        requires
            start.wf(),
            self.ok(start.store@, w),
            start.said() == seed,
        ensures
            st.wf(),
            start.le(&st),
            self.ok(st.store@, w),
            w.least(seed, st.said()),
    {
        let mut st = start;
        self.ground(&mut st, Ghost(w), Ghost(seed));
        proof {
            start.lemma_grow(&st);
        }
        let mut changed = true;
        while changed
            invariant
                self.steady(st, w, seed),
                start.wf(),
                start.le(&st),
                grounded(w, st.said()),
                seed.le(st.said()),
                !changed ==> w.closed_under(st.said()),
            decreases
                    usize::MAX - st.edges@.len() + usize::MAX - st.points@.len() + usize::MAX
                        - st.pending@.len(),
                    (if changed {
                        1int
                    } else {
                        0int
                    }),
        {
            let ghost s0 = st;
            proof {
                st.edges.lemma_distinct();
                st.points.lemma_distinct();
                st.pending.lemma_distinct();
            }
            let n1: usize = st.edges.len();
            let n2: usize = st.points.len();
            let n3: usize = st.pending.len();
            self.round(&mut st, Ghost(w), Ghost(seed));
            proof {
                start.lemma_le_trans(&s0, &st);
                s0.lemma_grow(&st);
                lemma_grounded_grow(w, s0.said(), st.said());
                st.edges.lemma_distinct();
                st.points.lemma_distinct();
                st.pending.lemma_distinct();
            }
            changed = st.edges.len() != n1 || st.points.len() != n2 || st.pending.len() != n3;
            proof {
                if !changed {
                    lemma_unchanged(s0, st);
                    lemma_closed(w, st.said());
                }
            }
        }
        st
    }
}

} // verus!
