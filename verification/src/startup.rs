//! Getting an engine and a first state ready.
use vstd::prelude::*;

use crate::access_path::{AccessPath, CritId, Instance, PtVal, Step, Suffix};
use crate::codes::{flat_ok, flat_steps, initial, Names, Store};
use crate::convert::{
    flat_of, knows_inst, knows_path, knows_steps, knows_value, known_number, learn, learn_inst,
    learn_path, learn_steps, learn_value, lemma_wider,
};
use crate::derived::{called_set, Derived};
use crate::engine::{bound_ok, will_ok};
use crate::facts::lemma_has_one;
use crate::ir::{ArgIdx, Name, Proc, Symbol, suffix_set};
use crate::rules::{Core, Setting};
use crate::state::State;
use crate::syntax::Draft;
use crate::table::Table;
use crate::tuples::{means_carried, means_fed, tuples};

verus! {

pub open spec fn knows_suffixes(ns: Seq<Name>, v: Seq<(Suffix,)>) -> bool {
    forall|i: int| 0 <= i < v.len() ==> knows_steps(ns, (#[trigger] v[i]).0@)
}

pub open spec fn knows_edges(ns: Seq<Name>, v: Seq<(Proc, AccessPath, AccessPath)>) -> bool {
    forall|i: int|
        0 <= i < v.len() ==> ns.contains((#[trigger] v[i]).0@) && knows_path(ns, v[i].1@)
            && knows_path(ns, v[i].2@)
}

pub open spec fn knows_points(ns: Seq<Name>, v: Seq<(Proc, AccessPath, PtVal)>) -> bool {
    forall|i: int|
        0 <= i < v.len() ==> ns.contains((#[trigger] v[i]).0@) && knows_path(ns, v[i].1@)
            && knows_value(ns, v[i].2@)
}

pub open spec fn knows_pending(ns: Seq<Name>, v: Seq<(Proc, CritId)>) -> bool {
    forall|i: int|
        0 <= i < v.len() ==> ns.contains((#[trigger] v[i]).0@) && knows_inst(ns, v[i].1@)
}

pub proof fn lemma_knows(
    a: Seq<Name>,
    b: Seq<Name>,
    paths: Seq<(Suffix,)>,
    edge: Seq<(Proc, AccessPath, AccessPath)>,
    points: Seq<(Proc, AccessPath, PtVal)>,
    pending: Seq<(Proc, CritId)>,
)
    requires
        initial(a, b),
    ensures
        knows_suffixes(a, paths) ==> knows_suffixes(b, paths),
        knows_edges(a, edge) ==> knows_edges(b, edge),
        knows_points(a, points) ==> knows_points(b, points),
        knows_pending(a, pending) ==> knows_pending(b, pending),
{
    lemma_wider(a, b);
}

fn learn_suffixes(ns: &mut Names, v: &Vec<(Suffix,)>)
    requires
        old(ns).wf(),
    ensures
        final(ns).wf(),
        initial(old(ns)@, final(ns)@),
        knows_suffixes(final(ns)@, v@),
{
    let mut i: usize = 0;
    while i < v.len()
        invariant
            i <= v@.len(),
            ns.wf(),
            initial(old(ns)@, ns@),
            forall|j: int| 0 <= j < i ==> knows_steps(ns@, (#[trigger] v@[j]).0@),
        decreases v@.len() - i,
    {
        let ghost n0 = ns@;
        learn_steps(ns, v[i].0.as_slice());
        proof {
            lemma_wider(n0, ns@);
        }
        i += 1;
    }
}

fn learn_edges(ns: &mut Names, v: &Vec<(Proc, AccessPath, AccessPath)>)
    requires
        old(ns).wf(),
    ensures
        final(ns).wf(),
        initial(old(ns)@, final(ns)@),
        knows_edges(final(ns)@, v@),
{
    let mut i: usize = 0;
    while i < v.len()
        invariant
            i <= v@.len(),
            ns.wf(),
            initial(old(ns)@, ns@),
            forall|j: int|
                0 <= j < i ==> ns@.contains((#[trigger] v@[j]).0@) && knows_path(ns@, v@[j].1@)
                    && knows_path(ns@, v@[j].2@),
        decreases v@.len() - i,
    {
        let ghost n0 = ns@;
        learn(ns, v[i].0.text());
        let ghost n1 = ns@;
        learn_path(ns, &v[i].1);
        let ghost n2 = ns@;
        learn_path(ns, &v[i].2);
        proof {
            lemma_wider(n0, n1);
            lemma_wider(n1, n2);
            lemma_wider(n2, ns@);
        }
        i += 1;
    }
}

fn learn_points(ns: &mut Names, v: &Vec<(Proc, AccessPath, PtVal)>)
    requires
        old(ns).wf(),
    ensures
        final(ns).wf(),
        initial(old(ns)@, final(ns)@),
        knows_points(final(ns)@, v@),
{
    let mut i: usize = 0;
    while i < v.len()
        invariant
            i <= v@.len(),
            ns.wf(),
            initial(old(ns)@, ns@),
            forall|j: int|
                0 <= j < i ==> ns@.contains((#[trigger] v@[j]).0@) && knows_path(ns@, v@[j].1@)
                    && knows_value(ns@, v@[j].2@),
        decreases v@.len() - i,
    {
        let ghost n0 = ns@;
        learn(ns, v[i].0.text());
        let ghost n1 = ns@;
        learn_path(ns, &v[i].1);
        let ghost n2 = ns@;
        learn_value(ns, &v[i].2);
        proof {
            lemma_wider(n0, n1);
            lemma_wider(n1, n2);
            lemma_wider(n2, ns@);
        }
        i += 1;
    }
}

fn learn_pending(ns: &mut Names, v: &Vec<(Proc, CritId)>)
    requires
        old(ns).wf(),
    ensures
        final(ns).wf(),
        initial(old(ns)@, final(ns)@),
        knows_pending(final(ns)@, v@),
{
    let mut i: usize = 0;
    while i < v.len()
        invariant
            i <= v@.len(),
            ns.wf(),
            initial(old(ns)@, ns@),
            forall|j: int|
                0 <= j < i ==> ns@.contains((#[trigger] v@[j]).0@) && knows_inst(ns@, v@[j].1@),
        decreases v@.len() - i,
    {
        let ghost n0 = ns@;
        learn(ns, v[i].0.text());
        let ghost n1 = ns@;
        learn_inst(ns, &v[i].1);
        proof {
            lemma_wider(n0, n1);
            lemma_wider(n1, ns@);
        }
        i += 1;
    }
}

/// Give every name of the vocabulary and of a first core a number.
pub fn learn_all(
    ns: &mut Names,
    paths: &Vec<(Suffix,)>,
    edge: &Vec<(Proc, AccessPath, AccessPath)>,
    points: &Vec<(Proc, AccessPath, PtVal)>,
    pending: &Vec<(Proc, CritId)>,
)
    requires
        old(ns).wf(),
    ensures
        final(ns).wf(),
        knows_suffixes(final(ns)@, paths@),
        knows_edges(final(ns)@, edge@),
        knows_points(final(ns)@, points@),
        knows_pending(final(ns)@, pending@),
{
    learn_suffixes(ns, paths);
    let ghost n1 = ns@;
    learn_edges(ns, edge);
    let ghost n2 = ns@;
    proof {
        lemma_knows(n1, n2, paths@, edge@, points@, pending@);
    }
    learn_points(ns, points);
    let ghost n3 = ns@;
    proof {
        lemma_knows(n2, n3, paths@, edge@, points@, pending@);
    }
    learn_pending(ns, pending);
    proof {
        lemma_knows(n3, ns@, paths@, edge@, points@, pending@);
    }
}

/// The rows of the vocabulary.
pub fn bound_table(ns: &Names, paths: &Vec<(Suffix,)>) -> (t: Table)
    requires
        ns.wf(),
        knows_suffixes(ns@, paths@),
    ensures
        t.wf(),
        bound_ok(t@, ns@, suffix_set(paths@)),
{
    let ghost set = suffix_set(paths@);
    let mut t = Table::new();
    let mut i: usize = 0;
    while i < paths.len()
        invariant
            i <= paths@.len(),
            ns.wf(),
            knows_suffixes(ns@, paths@),
            set == suffix_set(paths@),
            t.wf(),
            forall|row: Seq<usize>| #[trigger]
                t@.contains(row) ==> flat_ok(ns@, row) && set.contains(flat_steps(ns@, row)),
            forall|j: int|
                0 <= j < i ==> exists|row: Seq<usize>| #[trigger]
                    t@.contains(row) && flat_steps(ns@, row) == (#[trigger] paths@[j]).0@,
        decreases paths@.len() - i,
    {
        let ghost before = t@;
        proof {
            assert(knows_steps(ns@, paths@[i as int].0@));
            assert(set.contains(paths@[i as int].0@));
        }
        let row = flat_of(ns, paths[i].0.as_slice());
        let ghost cells = row@;
        t.insert(row);
        proof {
            assert(t@.contains(cells));
            assert forall|j: int| 0 <= j < i + 1 implies exists|row: Seq<usize>| #[trigger]
                t@.contains(row) && flat_steps(ns@, row) == (#[trigger] paths@[j]).0@ by {
                if j < i {
                    let row = choose|row: Seq<usize>| #[trigger]
                        before.contains(row) && flat_steps(ns@, row) == paths@[j].0@;
                    assert(t@.contains(row));
                } else {
                    assert(t@.contains(cells));
                }
            }
        }
        i += 1;
    }
    proof {
        assert forall|i: int| 0 <= i < t@.len() implies flat_ok(ns@, #[trigger] t@[i])
            && set.contains(
            flat_steps(ns@, t@[i]),
        ) by {
            assert(t@.contains(t@[i]));
        }
        assert forall|x: Seq<Step>| #[trigger] set.contains(x) implies exists|i: int|
            0 <= i < t@.len() && flat_steps(ns@, #[trigger] t@[i]) == x by {
            let j = choose|j: int| 0 <= j < paths@.len() && (#[trigger] paths@[j]).0@ == x;
            let row = choose|row: Seq<usize>| #[trigger]
                t@.contains(row) && flat_steps(ns@, row) == paths@[j].0@;
            let i = choose|i: int| 0 <= i < t@.len() && t@[i] == row;
            assert(flat_steps(ns@, t@[i]) == x);
        }
    }
    t
}

/// The instances that are certain to propagate.
pub fn will_table(draft: &Draft, derived: &Derived, k: usize, Ghost(w): Ghost<Setting>)
    -> (t: Table)
    requires
        draft.wf(),
        derived.ok(draft.store@.names, w.e),
        w.syn == draft.said(),
        w.k == k,
    ensures
        t.wf(),
        will_ok(t@, draft.store@, w),
{
    let ghost c = draft.store@;
    let mut t = Table::new();
    let mut i: usize = 0;
    proof {
        c.lemma_wf();
    }
    while i < draft.slots.len()
        invariant
            i <= draft.slots@.len(),
            draft.wf(),
            c == draft.store@,
            c.names.no_duplicates(),
            derived.ok(c.names, w.e),
            w.syn == draft.said(),
            w.k == k,
            t.wf(),
            forall|row: Seq<usize>| #[trigger]
                t@.contains(row) ==> row.len() == 2 && row[0] < c.names.len() && row[1]
                    < c.insts.len() && w.will_propagate(c.name(row[0]), c.inst(row[1])),
            forall|j: int|
                0 <= j < i && w.will_propagate(
                    draft.slot_of(#[trigger] draft.slots@[j]).0,
                    draft.slot_of(draft.slots@[j]).1,
                ) ==> t@.contains(draft.slots@[j].take(2)),
        decreases draft.slots@.len() - i,
    {
        proof {
            assert(draft.slot_ok(draft.slots@[i as int]));
            draft.lemma_row_slot(i as int);
        }
        let p: usize = draft.slots.at(i, 0);
        let id: usize = draft.slots.at(i, 1);
        let called: Vec<usize> = vec![p];
        proof {
            lemma_has_one(derived.called@, c.names, called_set(w.e), called@);
        }
        if draft.store.depth(id) < k && derived.called.has(called.as_slice()) {
            let cells: Vec<usize> = vec![p, id];
            proof {
                let x = draft.slot_of(draft.slots@[i as int]);
                assert(w.syn.slots.contains((x.0, x.1, x.2)));
                assert(cells@ =~= draft.slots@[i as int].take(2));
            }
            t.insert(cells);
        }
        i += 1;
    }
    proof {
        assert forall|i: int| 0 <= i < t@.len() implies (#[trigger] t@[i]).len() == 2 && t@[i][0]
            < c.names.len() && t@[i][1] < c.insts.len() && w.will_propagate(
            c.name(t@[i][0]),
            c.inst(t@[i][1]),
        ) by {
            assert(t@.contains(t@[i]));
        }
        assert forall|p: Name, id: Instance| #[trigger] w.will_propagate(p, id)
            implies exists|i: int|
            0 <= i < t@.len() && c.name((#[trigger] t@[i])[0]) == p && c.inst(t@[i][1]) == id by {
            let n = choose|n: ArgIdx| w.syn.slots.contains((p, id, n));
            let j = draft.lemma_slot_row((p, id, n));
            let row = draft.slots@[j].take(2);
            assert(t@.contains(row));
            let i = choose|i: int| 0 <= i < t@.len() && t@[i] == row;
            assert(draft.slot_ok(draft.slots@[j]));
            assert(c.name(t@[i][0]) == p && c.inst(t@[i][1]) == id);
        }
    }
    t
}

/// A state that says what three lists say.
pub fn seed_state(
    store: Store,
    edge: &Vec<(Proc, AccessPath, AccessPath)>,
    points: &Vec<(Proc, AccessPath, PtVal)>,
    pending: &Vec<(Proc, CritId)>,
) -> (st: State)
    requires
        store.wf(),
        knows_edges(store@.names, edge@),
        knows_points(store@.names, points@),
        knows_pending(store@.names, pending@),
    ensures
        st.wf(),
        store@.le(st.store@),
        st.said() == (Core {
            edge: tuples(edge@),
            points: tuples(points@),
            pending: tuples(pending@),
        }),
{
    let ghost c = store@;
    let mut st = State {
        store,
        spots: Table::new(),
        nodes: Table::new(),
        edges: Table::new(),
        points: Table::new(),
        pending: Table::new(),
    };
    proof {
        st.lemma_empty();
    }
    let mut i: usize = 0;
    while i < edge.len()
        invariant
            i <= edge@.len(),
            c.wf(),
            st.wf(),
            c.le(st.store@),
            knows_edges(c.names, edge@),
            st.said() == (Core {
                edge: tuples(edge@.take(i as int)),
                points: Set::empty(),
                pending: Set::empty(),
            }),
        decreases edge@.len() - i,
    {
        let ghost s0 = st;
        proof {
            assert(c.names == st.store@.names);
            assert(knows_path(c.names, edge@[i as int].1@));
        }
        let p: usize = known_number(&st.store.names, edge[i].0.text());
        let sup: usize = st.store.number_path(&edge[i].1);
        let ghost s1 = st;
        let sub: usize = st.store.number_path(&edge[i].2);
        proof {
            s0.store@.lemma_le_trans(s1.store@, st.store@);
            c.lemma_le_trans(s0.store@, st.store@);
            s0.lemma_store_grow(&st);
            s1.store@.lemma_grow(st.store@);
        }
        let ghost s2 = st;
        st.put_edge(p, sup, sub);
        proof {
            lemma_tuples_push(edge@, i as int);
            assert(st.said().edge =~= tuples(edge@.take(i + 1)));
        }
        i += 1;
    }
    proof {
        assert(edge@.take(i as int) =~= edge@);
    }
    i = 0;
    while i < points.len()
        invariant
            i <= points@.len(),
            c.wf(),
            st.wf(),
            c.le(st.store@),
            knows_points(c.names, points@),
            st.said() == (Core {
                edge: tuples(edge@),
                points: tuples(points@.take(i as int)),
                pending: Set::empty(),
            }),
        decreases points@.len() - i,
    {
        let ghost s0 = st;
        proof {
            assert(c.names == st.store@.names);
            assert(knows_path(c.names, points@[i as int].1@));
        }
        let p: usize = known_number(&st.store.names, points[i].0.text());
        let at: usize = st.store.number_path(&points[i].1);
        let ghost s1 = st;
        let (tag, x) = st.store.number_value(&points[i].2);
        proof {
            s0.store@.lemma_le_trans(s1.store@, st.store@);
            c.lemma_le_trans(s0.store@, st.store@);
            s0.lemma_store_grow(&st);
            s1.store@.lemma_grow(st.store@);
        }
        st.put_point(p, at, tag, x);
        proof {
            lemma_tuples_push(points@, i as int);
            assert(st.said().points =~= tuples(points@.take(i + 1)));
        }
        i += 1;
    }
    proof {
        assert(points@.take(i as int) =~= points@);
    }
    i = 0;
    while i < pending.len()
        invariant
            i <= pending@.len(),
            c.wf(),
            st.wf(),
            c.le(st.store@),
            knows_pending(c.names, pending@),
            st.said() == (Core {
                edge: tuples(edge@),
                points: tuples(points@),
                pending: tuples(pending@.take(i as int)),
            }),
        decreases pending@.len() - i,
    {
        let ghost s0 = st;
        proof {
            assert(c.names == st.store@.names);
            assert(knows_inst(c.names, pending@[i as int].1@));
        }
        let p: usize = known_number(&st.store.names, pending[i].0.text());
        let id: usize = st.store.number_inst(&pending[i].1);
        proof {
            c.lemma_le_trans(s0.store@, st.store@);
            s0.lemma_store_grow(&st);
        }
        st.put_pending(p, id);
        proof {
            lemma_tuples_push(pending@, i as int);
            assert(st.said().pending =~= tuples(pending@.take(i + 1)));
        }
        i += 1;
    }
    proof {
        assert(pending@.take(i as int) =~= pending@);
    }
    st
}

proof fn lemma_tuples_push<T: View>(v: Seq<T>, i: int)
    requires
        0 <= i < v.len(),
    ensures
        tuples(v.take(i + 1)) == tuples(v.take(i)).insert(v[i]@),
{
    let a = v.take(i);
    let b = v.take(i + 1);
    assert forall|x: T::V| #[trigger] tuples(b).contains(x)
        <==> tuples(a).insert(v[i]@).contains(x) by {
        if tuples(b).contains(x) {
            let j = choose|j: int| 0 <= j < b.len() && (#[trigger] b[j])@ == x;
            if j < i {
                assert(a[j]@ == x);
            }
        }
        if tuples(a).contains(x) {
            let j = choose|j: int| 0 <= j < a.len() && (#[trigger] a[j])@ == x;
            assert(b[j]@ == x);
        }
        if x == v[i]@ {
            assert(b[i]@ == x);
        }
    }
    assert(tuples(b) =~= tuples(a).insert(v[i]@));
}

impl Draft {
    /// The tables are the stratum.
    pub proof fn lemma_tables(&self)
        requires
            self.wf(),
        ensures
            means_carried(self.carries@, self.store@, self.said().carries),
            means_fed(self.slots@, self.store@, self.said().slots),
    {
        let c = self.store@;
        assert forall|i: int| 0 <= i < self.carries@.len() implies self.said().carries.contains(
            self.carry_of(#[trigger] self.carries@[i]),
        ) by {
            self.lemma_row_carry(i);
        }
        assert forall|i: int| 0 <= i < self.slots@.len() implies self.said().slots.contains(
            self.slot_of(#[trigger] self.slots@[i]),
        ) by {
            self.lemma_row_slot(i);
        }
        assert forall|x: (Name, Name, usize)| #[trigger] self.said().carries.contains(x)
            implies exists|
            i: int,
        |
            0 <= i < self.carries@.len() && (
                c.name((#[trigger] self.carries@[i])[0]),
                c.name(self.carries@[i][1]),
                self.carries@[i][2],
            ) == x by {
            let i = self.lemma_carry_row(x);
            assert(self.carry_of(self.carries@[i]) == x);
        }
        assert forall|x: (Name, Instance, usize)| #[trigger] self.said().slots.contains(x)
            implies exists|
            i: int,
        |
            0 <= i < self.slots@.len() && (
                c.name((#[trigger] self.slots@[i])[0]),
                c.inst(self.slots@[i][1]),
                self.slots@[i][2],
            ) == x by {
            let i = self.lemma_slot_row(x);
            assert(self.slot_of(self.slots@[i]) == x);
        }
        assert forall|i: int| 0 <= i < self.carries@.len() implies self.carry_ok(
            #[trigger] self.carries@[i],
        ) by {
        }
        assert forall|i: int| 0 <= i < self.slots@.len() implies self.slot_ok(
            #[trigger] self.slots@[i],
        ) by {
        }
    }
}

} // verus!
