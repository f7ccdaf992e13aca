//! What is said of the pending instances and of the published roots.
use vstd::prelude::*;

use crate::access_path::{Instance, Path, Root, Value};
use crate::codes::{Codes, Key};
use crate::derived::known_set;
use crate::engine::Engine;
use crate::facts::{indexed_ok, indexed_row, lemma_find_indexed, lemma_find_one, one_ok, one_row};
use crate::ir::{Edb, Name};
use crate::marks::signatures;
use crate::report::held_anywhere;
use crate::rules::{Core, Setting};
use crate::state::State;
use crate::table::Table;
use crate::tuples::{key_at, means_inst, means_maps, means_roots, means_sigs, means_slots};

verus! {

// ---------------------------------------------------------------------------
// The relations
// ---------------------------------------------------------------------------

/// The kinds of critical statements a pending instance may stand for.
#[derive(Clone, Copy)]
pub enum Sort {
    Call,
    Load,
    Store,
    Access,
}

/// `s` is a statement of that kind.
pub open spec fn is_sort(e: Edb, s: Name, kind: Sort) -> bool {
    match kind {
        Sort::Call => e.call_stmt(s),
        Sort::Load => e.load_stmt(s),
        Sort::Store => e.store_stmt(s),
        Sort::Access => e.index_stmt(s),
    }
}

/// The pending instances of one kind.
pub open spec fn sort_set(w: Setting, m: Core, kind: Sort) -> Set<(Instance,)> {
    Set::new(|x: (Instance,)| held_anywhere(m).contains(x) && is_sort(w.e, x.0.stmt, kind))
}

/// The operand positions of the pending instances.
pub open spec fn operand_set(w: Setting, m: Core) -> Set<(Instance, usize)> {
    Set::new(
        |x: (Instance, usize)| held_anywhere(m).contains((x.0,)) && w.e.operand(x.0.stmt, x.1),
    )
}

/// The positions that decide the pending instances.
pub open spec fn deciding_set(w: Setting, m: Core) -> Set<(Instance, usize)> {
    Set::new(
        |x: (Instance, usize)| held_anywhere(m).contains((x.0,)) && w.e.decisive(x.0.stmt, x.1),
    )
}

/// The signatures the pending instances dispatch.
pub open spec fn crit_sig_set(w: Setting, m: Core) -> Set<(Instance, Name)> {
    Set::new(
        |x: (Instance, Name)| held_anywhere(m).contains((x.0,)) && w.e.dispatches(x.0.stmt, x.1),
    )
}

pub open spec fn free_root_set(w: Setting, m: Core) -> Set<(Name, Root)> {
    Set::new(|x: (Name, Root)| w.free_root(m, x.0, x.1))
}

pub open spec fn pub_root_set(w: Setting, m: Core) -> Set<(Name, Root)> {
    Set::new(|x: (Name, Root)| w.pub_root(m, x.0, x.1))
}

pub open spec fn root_map_set(w: Setting, m: Core) -> Set<(Name, Root, Root)> {
    Set::new(|x: (Name, Root, Root)| w.root_map(m, x.0, x.1, x.2))
}

pub open spec fn pub_points_set(w: Setting, m: Core) -> Set<(Name, Path, Value)> {
    Set::new(|x: (Name, Path, Value)| w.pub_points(m, x.0, x.1, x.2))
}

// ---------------------------------------------------------------------------
// Rows
// ---------------------------------------------------------------------------

pub open spec fn pair_row(a: usize, b: usize) -> Seq<usize> {
    seq![a, b]
}

pub open spec fn root_row(p: usize, key: Key) -> Seq<usize> {
    seq![p, key.tag, key.a, key.b]
}

pub open spec fn map_row(s: usize, from: Key, to: Key) -> Seq<usize> {
    seq![s, from.tag, from.a, from.b, to.tag, to.a, to.b]
}

proof fn lemma_inst(t: Seq<Seq<usize>>, c: Codes, rel: Set<(Instance,)>)
    requires
        forall|row: Seq<usize>| #[trigger]
            t.contains(row) ==> row.len() == 1 && row[0] < c.insts.len() && rel.contains(
                (c.inst(row[0]),),
            ),
        forall|x: (Instance,)| #[trigger]
            rel.contains(x) ==> exists|row: Seq<usize>| #[trigger]
                t.contains(row) && (c.inst(row[0]),) == x,
    ensures
        means_inst(t, c, rel),
{
    assert forall|i: int| 0 <= i < t.len() implies t.contains(#[trigger] t[i]) by {
    }
    assert forall|x: (Instance,)| #[trigger] rel.contains(x) implies exists|i: int|
        0 <= i < t.len() && (c.inst((#[trigger] t[i])[0]),) == x by {
        let row = choose|row: Seq<usize>| #[trigger] t.contains(row) && (c.inst(row[0]),) == x;
        let i = choose|i: int| 0 <= i < t.len() && t[i] == row;
        assert((c.inst(t[i][0]),) == x);
    }
}

proof fn lemma_slots(t: Seq<Seq<usize>>, c: Codes, rel: Set<(Instance, usize)>)
    requires
        forall|row: Seq<usize>| #[trigger]
            t.contains(row) ==> row.len() == 2 && row[0] < c.insts.len() && rel.contains(
                (c.inst(row[0]), row[1]),
            ),
        forall|x: (Instance, usize)| #[trigger]
            rel.contains(x) ==> exists|row: Seq<usize>| #[trigger]
                t.contains(row) && (c.inst(row[0]), row[1]) == x,
    ensures
        means_slots(t, c, rel),
{
    assert forall|i: int| 0 <= i < t.len() implies t.contains(#[trigger] t[i]) by {
    }
    assert forall|x: (Instance, usize)| #[trigger] rel.contains(x) implies exists|i: int|
        0 <= i < t.len() && (c.inst((#[trigger] t[i])[0]), t[i][1]) == x by {
        let row = choose|row: Seq<usize>| #[trigger] t.contains(row)
            && (c.inst(row[0]), row[1]) == x;
        let i = choose|i: int| 0 <= i < t.len() && t[i] == row;
        assert((c.inst(t[i][0]), t[i][1]) == x);
    }
}

proof fn lemma_sigs(t: Seq<Seq<usize>>, c: Codes, rel: Set<(Instance, Name)>)
    requires
        forall|row: Seq<usize>| #[trigger]
            t.contains(row) ==> row.len() == 2 && row[0] < c.insts.len() && row[1] < c.names.len()
                && rel.contains(
                (c.inst(row[0]), c.name(row[1])),
            ),
        forall|x: (Instance, Name)| #[trigger]
            rel.contains(x) ==> exists|row: Seq<usize>| #[trigger]
                t.contains(row) && (c.inst(row[0]), c.name(row[1])) == x,
    ensures
        means_sigs(t, c, rel),
{
    assert forall|i: int| 0 <= i < t.len() implies t.contains(#[trigger] t[i]) by {
    }
    assert forall|x: (Instance, Name)| #[trigger] rel.contains(x) implies exists|i: int|
        0 <= i < t.len() && (c.inst((#[trigger] t[i])[0]), c.name(t[i][1])) == x by {
        let row = choose|row: Seq<usize>| #[trigger] t.contains(row)
            && (c.inst(row[0]), c.name(row[1])) == x;
        let i = choose|i: int| 0 <= i < t.len() && t[i] == row;
        assert((c.inst(t[i][0]), c.name(t[i][1])) == x);
    }
}

proof fn lemma_roots(t: Seq<Seq<usize>>, c: Codes, rel: Set<(Name, Root)>)
    requires
        forall|row: Seq<usize>| #[trigger]
            t.contains(row) ==> row.len() == 4 && row[0] < c.names.len() && c.key_ok(key_at(row, 1))
                && rel.contains(
                (c.name(row[0]), c.root(key_at(row, 1))),
            ),
        forall|x: (Name, Root)| #[trigger]
            rel.contains(x) ==> exists|row: Seq<usize>| #[trigger]
                t.contains(row) && (c.name(row[0]), c.root(key_at(row, 1))) == x,
    ensures
        means_roots(t, c, rel),
{
    assert forall|i: int| 0 <= i < t.len() implies t.contains(#[trigger] t[i]) by {
    }
    assert forall|x: (Name, Root)| #[trigger] rel.contains(x) implies exists|i: int|
        0 <= i < t.len() && (c.name((#[trigger] t[i])[0]), c.root(key_at(t[i], 1))) == x by {
        let row = choose|row: Seq<usize>| #[trigger] t.contains(row)
            && (c.name(row[0]), c.root(key_at(row, 1))) == x;
        let i = choose|i: int| 0 <= i < t.len() && t[i] == row;
        assert((c.name(t[i][0]), c.root(key_at(t[i], 1))) == x);
    }
}

pub proof fn lemma_maps(t: Seq<Seq<usize>>, c: Codes, rel: Set<(Name, Root, Root)>)
    requires
        forall|row: Seq<usize>| #[trigger]
            t.contains(row) ==> row.len() == 7 && row[0] < c.names.len() && c.key_ok(key_at(row, 1))
                && c.key_ok(key_at(row, 4)) && rel.contains(
                (c.name(row[0]), c.root(key_at(row, 1)), c.root(key_at(row, 4))),
            ),
        forall|x: (Name, Root, Root)| #[trigger]
            rel.contains(x) ==> exists|row: Seq<usize>| #[trigger]
                t.contains(row) && (c.name(row[0]), c.root(key_at(row, 1)), c.root(key_at(row, 4)))
                    == x,
    ensures
        means_maps(t, c, rel),
{
    assert forall|i: int| 0 <= i < t.len() implies t.contains(#[trigger] t[i]) by {
    }
    assert forall|x: (Name, Root, Root)| #[trigger] rel.contains(x) implies exists|i: int|
        0 <= i < t.len() && (c.name((#[trigger] t[i])[0]), c.root(key_at(t[i], 1)),
            c.root(key_at(t[i], 4))) == x by {
        let row = choose|row: Seq<usize>| #[trigger] t.contains(row)
            && (c.name(row[0]), c.root(key_at(row, 1)), c.root(key_at(row, 4))) == x;
        let i = choose|i: int| 0 <= i < t.len() && t[i] == row;
        assert((c.name(t[i][0]), c.root(key_at(t[i], 1)), c.root(key_at(t[i], 4))) == x);
    }
}

impl Engine {
    fn has_sort(&self, s: usize, kind: Sort, Ghost(c): Ghost<Codes>, Ghost(w): Ghost<Setting>)
        -> (r:
        bool)
        requires
            c.wf(),
            self.ok(c, w),
            s < c.names.len(),
        ensures
            r == is_sort(w.e, c.name(s), kind),
    {
        match kind {
            Sort::Call => self.is_call(s, Ghost(c), Ghost(w)),
            Sort::Load => self.is_load(s, Ghost(c), Ghost(w)),
            Sort::Store => self.is_store(s, Ghost(c), Ghost(w)),
            Sort::Access => self.is_index(s, Ghost(c), Ghost(w)),
        }
    }

    /// The pending instances of one kind.
    pub fn of_sort(&self, st: &State, insts: &Table, kind: Sort, Ghost(w): Ghost<Setting>) -> (t:
        Table)
        requires
            st.wf(),
            self.ok(st.store@, w),
            insts.wf(),
            means_inst(insts@, st.store@, held_anywhere(st.said())),
        ensures
            t.wf(),
            means_inst(t@, st.store@, sort_set(w, st.said(), kind)),
    {
        let ghost c = st.store@;
        let ghost rel = sort_set(w, st.said(), kind);
        let mut t = Table::new();
        let mut i: usize = 0;
        while i < insts.len()
            invariant
                i <= insts@.len(),
                st.wf(),
                c == st.store@,
                self.ok(c, w),
                means_inst(insts@, c, held_anywhere(st.said())),
                rel == sort_set(w, st.said(), kind),
                t.wf(),
                forall|row: Seq<usize>| #[trigger]
                    t@.contains(row) ==> row.len() == 1 && row[0] < c.insts.len() && rel.contains(
                        (c.inst(row[0]),),
                    ),
                forall|j: int|
                    0 <= j < i && is_sort(w.e, c.inst((#[trigger] insts@[j])[0]).stmt, kind)
                        ==> t@.contains(insts@[j]),
            decreases insts@.len() - i,
        {
            proof {
                assert(insts@[i as int].len() == 1);
            }
            let id: usize = insts.at(i, 0);
            if self.has_sort(st.store.stmt(id), kind, Ghost(c), Ghost(w)) {
                let cells: Vec<usize> = vec![id];
                proof {
                    assert(cells@ =~= insts@[i as int]);
                }
                t.insert(cells);
            }
            i += 1;
        }
        proof {
            assert forall|x: (Instance,)| #[trigger] rel.contains(x)
                implies exists|row: Seq<usize>| #[trigger]
                t@.contains(row) && (c.inst(row[0]),) == x by {
                assert(held_anywhere(st.said()).contains(x));
                let j = choose|j: int|
                    0 <= j < insts@.len() && (c.inst((#[trigger] insts@[j])[0]),) == x;
                assert(t@.contains(insts@[j]));
            }
            lemma_inst(t@, c, rel);
        }
        t
    }

    /// The operand positions of a statement.
    pub fn positions(&self, s: usize, Ghost(c): Ghost<Codes>, Ghost(w): Ghost<Setting>)
        -> (r: Vec<usize>)
        requires
            c.wf(),
            self.ok(c, w),
            s < c.names.len(),
        ensures
            forall|i: usize| #[trigger] r@.contains(i) <==> w.e.operand(c.name(s), i),
    {
        let t = &self.facts.actual_arg;
        proof {
            c.lemma_wf();
            assert forall|i: int| 0 <= i < t@.len() implies 1 < (#[trigger] t@[i]).len() by {
                assert(indexed_ok(c.names, t@[i]));
            }
        }
        let mut r = t.column(s, 1);
        let ghost r0 = r@;
        proof {
            assert forall|i: usize| #[trigger] r0.contains(i) <==> exists|a: Name|
                w.e.actual_arg.contains((c.name(s), i, a)) by {
                if r0.contains(i) {
                    let y = choose|y: int|
                        0 <= y < t@.len() && (#[trigger] t@[y])[0] == s && t@[y][1] == i;
                    assert(indexed_ok(c.names, t@[y]));
                    let x = indexed_row(c.names, t@[y]);
                    assert(w.e.actual_arg.contains((x.0, x.1, x.2)));
                }
                if exists|a: Name| w.e.actual_arg.contains((c.name(s), i, a)) {
                    let a = choose|a: Name| w.e.actual_arg.contains((c.name(s), i, a));
                    let y = lemma_find_indexed(t@, c.names, w.e.actual_arg, (c.name(s), i, a));
                    assert(t@[y][0] == s && t@[y][1] == i);
                }
            }
        }
        if self.is_index(s, Ghost(c), Ghost(w)) {
            r.push(0);
            let ghost r1 = r@;
            r.push(1);
            proof {
                assert forall|i: usize| #[trigger] r@.contains(i) <==> r0.contains(i) || i <= 1 by {
                    if r0.contains(i) {
                        let z = choose|z: int| 0 <= z < r0.len() && r0[z] == i;
                        assert(r@[z] == i);
                    }
                    if i <= 1 {
                        assert(r@[r0.len() + i] == i);
                    }
                }
            }
        }
        let ghost r2 = r@;
        if self.is_store(s, Ghost(c), Ghost(w)) {
            r.push(2);
            proof {
                assert forall|i: usize| #[trigger] r@.contains(i) <==> r2.contains(i) || i == 2 by {
                    if r2.contains(i) {
                        let z = choose|z: int| 0 <= z < r2.len() && r2[z] == i;
                        assert(r@[z] == i);
                    }
                    if i == 2 {
                        assert(r@[r2.len() as int] == i);
                    }
                }
            }
        }
        proof {
            assert forall|i: usize| #[trigger] r@.contains(i) <==> w.e.operand(c.name(s), i) by {
                assert(r0.contains(i) || !r0.contains(i));
                assert(r2.contains(i) || !r2.contains(i));
            }
        }
        r
    }

    /// The positions that decide a statement.
    fn decisions(&self, s: usize, Ghost(c): Ghost<Codes>, Ghost(w): Ghost<Setting>)
        -> (r: Vec<usize>)
        requires
            c.wf(),
            self.ok(c, w),
            s < c.names.len(),
        ensures
            forall|i: usize| #[trigger] r@.contains(i) <==> w.e.decisive(c.name(s), i),
    {
        let mut r: Vec<usize> = Vec::new();
        if self.is_call(s, Ghost(c), Ghost(w)) {
            r.push(0);
            proof {
                assert(r@[0] == 0);
            }
        }
        let ghost r0 = r@;
        if self.is_index(s, Ghost(c), Ghost(w)) {
            r.push(1);
            proof {
                assert forall|i: usize| #[trigger] r@.contains(i) <==> r0.contains(i) || i == 1 by {
                    if r0.contains(i) {
                        let z = choose|z: int| 0 <= z < r0.len() && r0[z] == i;
                        assert(r@[z] == i);
                    }
                    if i == 1 {
                        assert(r@[r0.len() as int] == i);
                    }
                }
            }
        }
        proof {
            assert forall|i: usize| #[trigger] r@.contains(i) <==> w.e.decisive(c.name(s), i) by {
                assert(r0.contains(i) || !r0.contains(i));
            }
        }
        r
    }

    /// Either the operand positions of the pending instances, or only those that
    /// decide them.
    pub fn slots(&self, st: &State, insts: &Table, deciding: bool, Ghost(w): Ghost<Setting>) -> (t:
        Table)
        requires
            st.wf(),
            self.ok(st.store@, w),
            insts.wf(),
            means_inst(insts@, st.store@, held_anywhere(st.said())),
        ensures
            t.wf(),
            deciding ==> means_slots(t@, st.store@, deciding_set(w, st.said())),
            !deciding ==> means_slots(t@, st.store@, operand_set(w, st.said())),
    {
        let ghost c = st.store@;
        let ghost rel = if deciding {
            deciding_set(w, st.said())
        } else {
            operand_set(w, st.said())
        };
        let mut t = Table::new();
        let mut i: usize = 0;
        while i < insts.len()
            invariant
                i <= insts@.len(),
                st.wf(),
                c == st.store@,
                self.ok(c, w),
                means_inst(insts@, c, held_anywhere(st.said())),
                rel == (if deciding {
                    deciding_set(w, st.said())
                } else {
                    operand_set(w, st.said())
                }),
                t.wf(),
                forall|row: Seq<usize>| #[trigger]
                    t@.contains(row) ==> row.len() == 2 && row[0] < c.insts.len() && rel.contains(
                        (c.inst(row[0]), row[1]),
                    ),
                forall|j: int, q: usize|
                    #![trigger pair_row(insts@[j][0], q)]
                    0 <= j < i && rel.contains((c.inst(insts@[j][0]), q)) ==> t@.contains(
                        pair_row(insts@[j][0], q),
                    ),
            decreases insts@.len() - i,
        {
            proof {
                assert(insts@[i as int].len() == 1);
            }
            let id: usize = insts.at(i, 0);
            let s: usize = st.store.stmt(id);
            let list = if deciding {
                self.decisions(s, Ghost(c), Ghost(w))
            } else {
                self.positions(s, Ghost(c), Ghost(w))
            };
            let ghost t0 = t@;
            let mut z: usize = 0;
            proof {
                assert forall|y: int| 0 <= y < list@.len() implies rel.contains(
                    (c.inst(id), #[trigger] list@[y]),
                ) by {
                    assert(list@.contains(list@[y]));
                    assert(held_anywhere(st.said()).contains((c.inst(id),)));
                }
            }
            while z < list.len()
                invariant
                    z <= list@.len(),
                    id < c.insts.len(),
                    t.wf(),
                    forall|y: int| 0 <= y < list@.len()
                        ==> rel.contains((c.inst(id), #[trigger] list@[y])),
                    forall|row: Seq<usize>| #[trigger]
                        t@.contains(row) ==> row.len() == 2 && row[0] < c.insts.len()
                            && rel.contains(
                            (c.inst(row[0]), row[1]),
                        ),
                    forall|row: Seq<usize>| t0.contains(row) ==> #[trigger] t@.contains(row),
                    forall|y: int| 0 <= y < z ==> t@.contains(pair_row(id, #[trigger] list@[y])),
                decreases list@.len() - z,
            {
                let cells: Vec<usize> = vec![id, list[z]];
                proof {
                    assert(cells@ =~= pair_row(id, list@[z as int]));
                }
                t.insert(cells);
                z += 1;
            }
            proof {
                assert forall|q: usize| rel.contains((c.inst(id), q)) implies t@.contains(
                    #[trigger] pair_row(id, q),
                ) by {
                    assert(list@.contains(q));
                    let y = choose|y: int| 0 <= y < list@.len() && list@[y] == q;
                    assert(t@.contains(pair_row(id, list@[y])));
                }
            }
            i += 1;
        }
        proof {
            assert forall|x: (Instance, usize)| #[trigger] rel.contains(x) implies exists|
                row: Seq<usize>,
            | #[trigger] t@.contains(row) && (c.inst(row[0]), row[1]) == x by {
                assert(held_anywhere(st.said()).contains((x.0,)));
                let j = choose|j: int|
                    0 <= j < insts@.len() && (c.inst((#[trigger] insts@[j])[0]),) == (x.0,);
                assert(t@.contains(pair_row(insts@[j][0], x.1)));
            }
            lemma_slots(t@, c, rel);
        }
        t
    }

    /// The signatures the pending instances dispatch.
    pub fn crit_sigs(&self, st: &State, insts: &Table, Ghost(w): Ghost<Setting>) -> (t: Table)
        requires
            st.wf(),
            self.ok(st.store@, w),
            insts.wf(),
            means_inst(insts@, st.store@, held_anywhere(st.said())),
        ensures
            t.wf(),
            means_sigs(t@, st.store@, crit_sig_set(w, st.said())),
    {
        let ghost c = st.store@;
        let ghost rel = crit_sig_set(w, st.said());
        let mut t = Table::new();
        let mut i: usize = 0;
        while i < insts.len()
            invariant
                i <= insts@.len(),
                st.wf(),
                c == st.store@,
                self.ok(c, w),
                means_inst(insts@, c, held_anywhere(st.said())),
                rel == crit_sig_set(w, st.said()),
                t.wf(),
                forall|row: Seq<usize>| #[trigger]
                    t@.contains(row) ==> row.len() == 2 && row[0] < c.insts.len() && row[1]
                        < c.names.len() && rel.contains((c.inst(row[0]), c.name(row[1]))),
                forall|j: int, g: Name|
                    #![trigger rel.contains((c.inst(insts@[j][0]), g))]
                    0 <= j < i && rel.contains((c.inst(insts@[j][0]), g))
                        ==> exists|n: usize| #[trigger]
                        t@.contains(pair_row(insts@[j][0], n)) && c.name(n) == g,
            decreases insts@.len() - i,
        {
            proof {
                assert(insts@[i as int].len() == 1);
            }
            let id: usize = insts.at(i, 0);
            let s: usize = st.store.stmt(id);
            let list = self.signatures_of(s, Ghost(c), Ghost(w));
            let ghost t0 = t@;
            let mut z: usize = 0;
            while z < list.len()
                invariant
                    z <= list@.len(),
                    id < c.insts.len(),
                    t.wf(),
                    forall|y: int|
                        0 <= y < list@.len() ==> #[trigger] list@[y] < c.names.len()
                            && rel.contains(
                            (c.inst(id), c.name(list@[y])),
                        ),
                    forall|row: Seq<usize>| #[trigger]
                        t@.contains(row) ==> row.len() == 2 && row[0] < c.insts.len() && row[1]
                            < c.names.len() && rel.contains((c.inst(row[0]), c.name(row[1]))),
                    forall|row: Seq<usize>| t0.contains(row) ==> #[trigger] t@.contains(row),
                    forall|y: int| 0 <= y < z ==> t@.contains(pair_row(id, #[trigger] list@[y])),
                decreases list@.len() - z,
            {
                let cells: Vec<usize> = vec![id, list[z]];
                proof {
                    assert(cells@ =~= pair_row(id, list@[z as int]));
                }
                t.insert(cells);
                z += 1;
            }
            proof {
                assert forall|j: int, g: Name|
                    #![trigger rel.contains((c.inst(insts@[j][0]), g))]
                    0 <= j < i + 1 && rel.contains((c.inst(insts@[j][0]), g))
                        implies exists|n: usize| #[trigger]
                    t@.contains(pair_row(insts@[j][0], n)) && c.name(n) == g by {
                    if j < i {
                        let n = choose|n: usize| #[trigger]
                            t0.contains(pair_row(insts@[j][0], n)) && c.name(n) == g;
                        assert(t@.contains(pair_row(insts@[j][0], n)));
                    } else {
                        assert(signatures(w, c.name(s)).contains(g));
                        let y = choose|y: int|
                            0 <= y < list@.len() && c.names[#[trigger] list@[y] as int] == g;
                        assert(t@.contains(pair_row(id, list@[y])));
                    }
                }
            }
            i += 1;
        }
        proof {
            assert forall|x: (Instance, Name)| #[trigger] rel.contains(x)
                implies exists|row: Seq<usize>| #[trigger]
                t@.contains(row) && (c.inst(row[0]), c.name(row[1])) == x by {
                assert(held_anywhere(st.said()).contains((x.0,)));
                let j = choose|j: int|
                    0 <= j < insts@.len() && (c.inst((#[trigger] insts@[j])[0]),) == (x.0,);
                assert(rel.contains((c.inst(insts@[j][0]), x.1)));
                let n = choose|n: usize| #[trigger]
                    t@.contains(pair_row(insts@[j][0], n)) && c.name(n) == x.1;
                assert(t@.contains(pair_row(insts@[j][0], n)));
            }
            lemma_sigs(t@, c, rel);
        }
        t
    }

    /// Put a root of `p` into a table.
    fn add_root(
        t: &mut Table,
        p: usize,
        key: Key,
        Ghost(c): Ghost<Codes>,
        Ghost(rel): Ghost<Set<(Name, Root)>>,
    )
        requires
            old(t).wf(),
            rows_are_roots(old(t)@, c, rel),
            p < c.names.len(),
            c.key_ok(key),
            rel.contains((c.name(p), c.root(key))),
        ensures
            final(t).wf(),
            rows_are_roots(final(t)@, c, rel),
            keeps(old(t)@, final(t)@),
            final(t)@.contains(root_row(p, key)),
    {
        let cells: Vec<usize> = vec![p, key.tag, key.a, key.b];
        proof {
            assert(cells@ =~= root_row(p, key));
            assert(key_at(root_row(p, key), 1) == key);
        }
        t.insert(cells);
    }

    /// The roots that the formals and the known procedures publish.
    fn own_roots(&self, st: &State, Ghost(w): Ghost<Setting>) -> (t: Table)
        requires
            st.wf(),
            self.ok(st.store@, w),
        ensures
            t.wf(),
            rows_are_roots(t@, st.store@, pub_root_set(w, st.said())),
            forall|p: Name, r: Root|
                (r is Param || r is Ret) && #[trigger] w.pub_root(st.said(), p, r) ==> has_root(
                    t@,
                    st.store@,
                    p,
                    r,
                ),
    {
        let ghost c = st.store@;
        let ghost m = st.said();
        let ghost rel = pub_root_set(w, m);
        let formal = &self.facts.formal;
        let known = &self.derived.known;
        let mut t = Table::new();
        let mut i: usize = 0;
        while i < formal.len()
            invariant
                i <= formal@.len(),
                formal == &self.facts.formal,
                self.ok(c, w),
                rel == pub_root_set(w, m),
                t.wf(),
                rows_are_roots(t@, c, rel),
                forall|j: int|
                    0 <= j < i ==> has_root(
                        t@,
                        c,
                        c.name((#[trigger] formal@[j])[0]),
                        Root::Param(c.name(formal@[j][0]), formal@[j][1]),
                    ),
            decreases formal@.len() - i,
        {
            let ghost t0 = t@;
            proof {
                assert(indexed_ok(c.names, formal@[i as int]));
                let x = indexed_row(c.names, formal@[i as int]);
                assert(w.e.formal.contains((x.0, x.1, x.2)));
            }
            let p: usize = formal.at(i, 0);
            let key = Key::param(p, formal.at(i, 1));
            proof {
                assert(c.key_ok(key));
            }
            Self::add_root(&mut t, p, key, Ghost(c), Ghost(rel));
            proof {
                lemma_keeps_roots(t0, t@, c);
                lemma_has_root(t@, c, p, key);
            }
            i += 1;
        }
        let ghost t1 = t@;
        i = 0;
        while i < known.len()
            invariant
                i <= known@.len(),
                known == &self.derived.known,
                self.ok(c, w),
                rel == pub_root_set(w, m),
                t.wf(),
                rows_are_roots(t@, c, rel),
                keeps(t1, t@),
                forall|j: int|
                    0 <= j < i ==> has_root(
                        t@,
                        c,
                        c.name((#[trigger] known@[j])[0]),
                        Root::Ret(c.name(known@[j][0])),
                    ),
            decreases known@.len() - i,
        {
            let ghost t0 = t@;
            proof {
                assert(one_ok(c.names, known@[i as int]));
                assert(known_set(w.e).contains(one_row(c.names, known@[i as int])));
            }
            let p: usize = known.at(i, 0);
            let key = Key::ret(p);
            proof {
                assert(c.key_ok(key));
            }
            Self::add_root(&mut t, p, key, Ghost(c), Ghost(rel));
            proof {
                lemma_keeps_roots(t0, t@, c);
                lemma_has_root(t@, c, p, key);
            }
            i += 1;
        }
        proof {
            lemma_keeps_roots(t1, t@, c);
            assert forall|p: Name, r: Root|
                (r is Param || r is Ret) && #[trigger] w.pub_root(m, p, r) implies has_root(
                t@,
                c,
                p,
                r,
            ) by {
                match r {
                    Root::Param(q, n) => {
                        let v = choose|v: Name| w.e.formal.contains((p, n, v));
                        let j = lemma_find_indexed(formal@, c.names, w.e.formal, (p, n, v));
                        assert(has_root(
                            t1,
                            c,
                            c.name(formal@[j][0]),
                            Root::Param(c.name(formal@[j][0]), formal@[j][1]),
                        ));
                    },
                    Root::Ret(q) => {
                        let j = lemma_find_one(known@, c.names, known_set(w.e), p);
                        assert(has_root(t@, c, c.name(known@[j][0]),
                            Root::Ret(c.name(known@[j][0]))));
                    },
                    _ => {},
                }
            }
        }
        t
    }

    /// The roots that the placeholder of one pending row publishes.
    fn add_placeholder(&self, t: &mut Table, st: &State, j: usize, Ghost(w): Ghost<Setting>)
        requires
            st.wf(),
            self.ok(st.store@, w),
            j < st.pending@.len(),
            old(t).wf(),
            rows_are_roots(old(t)@, st.store@, pub_root_set(w, st.said())),
        ensures
            final(t).wf(),
            rows_are_roots(final(t)@, st.store@, pub_root_set(w, st.said())),
            keeps(old(t)@, final(t)@),
            ({
                let c = st.store@;
                let x = st.pending_of(st.pending@[j as int]);
                &&& has_root(final(t)@, c, x.0, Root::Res(x.1))
                &&& forall|i: usize|
                    #[trigger] w.e.operand(x.1.stmt, i) ==> has_root(
                        final(t)@,
                        c,
                        x.0,
                        Root::Slot(x.1, i),
                    )
            }),
    {
        let ghost c = st.store@;
        let ghost m = st.said();
        let ghost rel = pub_root_set(w, m);
        let ghost start = t@;
        proof {
            let row = st.pending@[j as int];
            assert(st.pending_ok(row));
            assert(st.pending@.contains(row));
            st.lemma_row_pending(row);
        }
        let p: usize = st.pending.at(j, 0);
        let id: usize = st.pending.at(j, 1);
        let key = Key::res(id);
        proof {
            assert(c.key_ok(key));
        }
        Self::add_root(t, p, key, Ghost(c), Ghost(rel));
        proof {
            lemma_has_root(t@, c, p, key);
        }
        let ghost t1 = t@;
        let list = self.positions(st.store.stmt(id), Ghost(c), Ghost(w));
        let mut z: usize = 0;
        while z < list.len()
            invariant
                z <= list@.len(),
                p < c.names.len(),
                id < c.insts.len(),
                m.pending.contains((c.name(p), c.inst(id))),
                rel == pub_root_set(w, m),
                forall|i: usize| #[trigger] list@.contains(i) <==> w.e.operand(c.inst(id).stmt, i),
                t.wf(),
                rows_are_roots(t@, c, rel),
                keeps(start, t@),
                keeps(t1, t@),
                forall|y: int|
                    0 <= y < z ==> has_root(
                        t@,
                        c,
                        c.name(p),
                        Root::Slot(c.inst(id), #[trigger] list@[y]),
                    ),
            decreases list@.len() - z,
        {
            let ghost t0 = t@;
            let key = Key::slot(id, list[z]);
            proof {
                assert(c.key_ok(key));
                assert(list@.contains(list@[z as int]));
            }
            Self::add_root(t, p, key, Ghost(c), Ghost(rel));
            proof {
                lemma_keeps_roots(t0, t@, c);
                lemma_has_root(t@, c, p, key);
            }
            z += 1;
        }
        proof {
            lemma_keeps_roots(t1, t@, c);
            assert forall|i: usize| #[trigger] w.e.operand(c.inst(id).stmt, i) implies has_root(
                t@,
                c,
                c.name(p),
                Root::Slot(c.inst(id), i),
            ) by {
                assert(list@.contains(i));
                let y = choose|y: int| 0 <= y < list@.len() && list@[y] == i;
                assert(has_root(t@, c, c.name(p), Root::Slot(c.inst(id), list@[y])));
            }
        }
    }

    /// The published roots.
    pub fn vocabulary(&self, st: &State, Ghost(w): Ghost<Setting>) -> (t: Table)
        requires
            st.wf(),
            self.ok(st.store@, w),
        ensures
            t.wf(),
            means_roots(t@, st.store@, pub_root_set(w, st.said())),
    {
        let ghost c = st.store@;
        let ghost m = st.said();
        let ghost rel = pub_root_set(w, m);
        let mut t = self.own_roots(st, Ghost(w));
        let ghost t1 = t@;
        let mut i: usize = 0;
        while i < st.pending.len()
            invariant
                i <= st.pending@.len(),
                st.wf(),
                c == st.store@,
                m == st.said(),
                self.ok(c, w),
                rel == pub_root_set(w, m),
                t.wf(),
                rows_are_roots(t@, c, rel),
                keeps(t1, t@),
                forall|j: int|
                    0 <= j < i ==> has_root(
                        t@,
                        c,
                        st.pending_of(#[trigger] st.pending@[j]).0,
                        Root::Res(st.pending_of(st.pending@[j]).1),
                    ),
                forall|j: int, n: usize|
                    0 <= j < i && #[trigger] w.e.operand(
                        st.pending_of(#[trigger] st.pending@[j]).1.stmt,
                        n,
                    ) ==> has_root(
                        t@,
                        c,
                        st.pending_of(st.pending@[j]).0,
                        Root::Slot(st.pending_of(st.pending@[j]).1, n),
                    ),
            decreases st.pending@.len() - i,
        {
            let ghost t0 = t@;
            self.add_placeholder(&mut t, st, i, Ghost(w));
            proof {
                lemma_keeps_roots(t0, t@, c);
            }
            i += 1;
        }
        proof {
            lemma_keeps_roots(t1, t@, c);
            assert forall|x: (Name, Root)| #[trigger] rel.contains(x)
                implies exists|row: Seq<usize>| #[trigger]
                t@.contains(row) && (c.name(row[0]), c.root(key_at(row, 1))) == x by {
                assert(w.pub_root(m, x.0, x.1));
                match x.1 {
                    Root::Slot(id, n) => {
                        let j = st.lemma_pending_row((x.0, id));
                        assert(w.e.operand(st.pending_of(st.pending@[j]).1.stmt, n));
                        assert(has_root(t@, c, x.0, x.1));
                    },
                    Root::Res(id) => {
                        let j = st.lemma_pending_row((x.0, id));
                        assert(st.pending_of(st.pending@[j]).0 == x.0);
                        assert(has_root(t@, c, x.0, x.1));
                    },
                    _ => {
                        assert(has_root(t@, c, x.0, x.1));
                    },
                }
            }
            lemma_roots(t@, c, rel);
        }
        t
    }

    /// The published roots that a caller can still change.
    pub fn free_roots(&self, st: &State, published: &Table, Ghost(w): Ghost<Setting>) -> (t: Table)
        requires
            st.wf(),
            self.ok(st.store@, w),
            published.wf(),
            means_roots(published@, st.store@, pub_root_set(w, st.said())),
        ensures
            t.wf(),
            means_roots(t@, st.store@, free_root_set(w, st.said())),
    {
        let ghost c = st.store@;
        let ghost m = st.said();
        let ghost rel = free_root_set(w, m);
        let mut t = Table::new();
        let mut i: usize = 0;
        while i < published.len()
            invariant
                i <= published@.len(),
                st.wf(),
                c == st.store@,
                m == st.said(),
                self.ok(c, w),
                means_roots(published@, c, pub_root_set(w, m)),
                rel == free_root_set(w, m),
                t.wf(),
                rows_are_roots(t@, c, rel),
                forall|j: int|
                    0 <= j < i && rel.contains(
                        (c.name((#[trigger] published@[j])[0]), c.root(key_at(published@[j], 1))),
                    ) ==> t@.contains(published@[j]),
            decreases published@.len() - i,
        {
            proof {
                assert(published@[i as int].len() == 4);
            }
            let p: usize = published.at(i, 0);
            let key = Key { tag: published.at(i, 1), a: published.at(i, 2), b: published.at(i, 3) };
            proof {
                assert(key == key_at(published@[i as int], 1));
                assert(c.key_ok(key));
            }
            if self.is_free(st, p, key, Ghost(w)) {
                Self::add_root(&mut t, p, key, Ghost(c), Ghost(rel));
                proof {
                    assert(root_row(p, key) =~= published@[i as int]);
                }
            }
            i += 1;
        }
        proof {
            assert forall|x: (Name, Root)| #[trigger] rel.contains(x)
                implies exists|row: Seq<usize>| #[trigger]
                t@.contains(row) && (c.name(row[0]), c.root(key_at(row, 1))) == x by {
                assert(pub_root_set(w, m).contains(x));
                let j = choose|j: int|
                    0 <= j < published@.len() && (
                        c.name((#[trigger] published@[j])[0]),
                        c.root(key_at(published@[j], 1)),
                    ) == x;
                assert(t@.contains(published@[j]));
            }
            lemma_roots(t@, c, rel);
        }
        t
    }
}

/// Every row of `a` is one of `b`.
pub open spec fn keeps(a: Seq<Seq<usize>>, b: Seq<Seq<usize>>) -> bool {
    forall|row: Seq<usize>| a.contains(row) ==> #[trigger] b.contains(row)
}

/// Every row is a tuple of `rel`.
pub open spec fn rows_are_roots(t: Seq<Seq<usize>>, c: Codes, rel: Set<(Name, Root)>) -> bool {
    forall|row: Seq<usize>| #[trigger]
        t.contains(row) ==> row.len() == 4 && row[0] < c.names.len() && c.key_ok(key_at(row, 1))
            && rel.contains((c.name(row[0]), c.root(key_at(row, 1))))
}

/// Some row stands for the root `r` of `p`.
pub open spec fn has_root(t: Seq<Seq<usize>>, c: Codes, p: Name, r: Root) -> bool {
    exists|row: Seq<usize>| #[trigger]
        t.contains(row) && c.name(row[0]) == p && c.root(key_at(row, 1)) == r
}

proof fn lemma_has_root(t: Seq<Seq<usize>>, c: Codes, p: usize, key: Key)
    requires
        t.contains(root_row(p, key)),
    ensures
        has_root(t, c, c.name(p), c.root(key)),
{
    assert(key_at(root_row(p, key), 1) == key);
}

proof fn lemma_keeps_roots(a: Seq<Seq<usize>>, b: Seq<Seq<usize>>, c: Codes)
    requires
        keeps(a, b),
    ensures
        forall|p: Name, r: Root| has_root(a, c, p, r) ==> #[trigger] has_root(b, c, p, r),
{
    assert forall|p: Name, r: Root| has_root(a, c, p, r)
        implies #[trigger] has_root(b, c, p, r) by {
        let row = choose|row: Seq<usize>| #[trigger]
            a.contains(row) && c.name(row[0]) == p && c.root(key_at(row, 1)) == r;
        assert(b.contains(row));
    }
}

} // verus!
