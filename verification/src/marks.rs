//! What a state says of its pending instances: which are blocked, which callees
//! they reach and which accessors they are decided to.
use vstd::prelude::*;

use crate::access_path::{Instance, Path, Step, Value};
use crate::codes::{step_of, step_ok, Codes};
use crate::derived::target_set;
use crate::engine::Engine;
use crate::facts::{
    lemma_find_three, lemma_find_two, means_three, means_two, three_ok, three_row, two_ok, two_row,
};
use crate::ir::Name;
use crate::rules::{Core, Setting};
use crate::state::State;
use crate::table::Table;

verus! {

/// A list of numbers stands for exactly the names of a set.
pub open spec fn lists(list: Seq<usize>, names: Seq<Name>, set: Set<Name>) -> bool {
    &&& forall|j: int|
        0 <= j < list.len() ==> (#[trigger] list[j]) < names.len() && set.contains(
            names[list[j] as int],
        )
    &&& forall|x: Name| #[trigger]
        set.contains(x) ==> exists|j: int| 0 <= j < list.len()
            && names[#[trigger] list[j] as int] == x
}

/// Which callees a receiver of type `t` selects for statement `s`.
pub open spec fn selected(w: Setting, s: Name, t: Name) -> Set<Name> {
    Set::new(
        |callee: Name|
            exists|g: Name| #[trigger]
                w.e.dispatches(s, g) && w.e.lookup.contains((t, g, callee)),
    )
}

/// Which callees statement `s` has whatever the receiver is.
pub open spec fn every_target(w: Setting, s: Name) -> Set<Name> {
    Set::new(
        |callee: Name|
            exists|g: Name| #[trigger] w.e.dispatches(s, g) && w.e.sig_target(g, callee),
    )
}

pub open spec fn signatures(w: Setting, s: Name) -> Set<Name> {
    Set::new(|g: Name| w.e.dispatches(s, g))
}

pub open spec fn types_at(w: Setting, l: Name) -> Set<Name> {
    Set::new(|t: Name| w.e.alloc_type.contains((l, t)))
}

/// The allocations or the constants that a slot may hold.
pub open spec fn held(m: Core, p: Name, id: Instance, i: usize, tag: usize) -> Set<Name> {
    Set::new(
        |x: Name|
            m.points.contains(
                (
                    p,
                    Path::slot(id, i),
                    if tag == 1 {
                        Value::Alloc(x)
                    } else {
                        Value::Const(x)
                    },
                ),
            ),
    )
}

impl Engine {
    /// The signatures a statement dispatches.
    pub fn signatures_of(&self, s: usize, Ghost(c): Ghost<Codes>, Ghost(w): Ghost<Setting>) -> (r:
        Vec<usize>)
        requires
            c.wf(),
            self.ok(c, w),
            s < c.names.len(),
        ensures
            lists(r@, c.names, signatures(w, c.name(s))),
    {
        let t = &self.facts.virtual_call;
        let list = t.heads(s);
        let mut r: Vec<usize> = Vec::new();
        let mut j: usize = 0;
        proof {
            c.lemma_wf();
        }
        while j < list.len()
            invariant
                j <= list@.len(),
                s < c.names.len(),
                means_three(t@, c.names, w.e.virtual_call),
                r@.len() == j,
                forall|z: int|
                    0 <= z < list@.len() ==> (#[trigger] list@[z]) < t@.len()
                        && t@[list@[z] as int][0]
                        == s,
                forall|z: int| 0 <= z < j ==> #[trigger] r@[z] == t@[list@[z] as int][2],
            decreases list@.len() - j,
        {
            let x: usize = list[j];
            proof {
                assert(three_ok(c.names, t@[x as int]));
            }
            r.push(t.at(x, 2));
            j += 1;
        }
        proof {
            let set = signatures(w, c.name(s));
            assert forall|j: int| 0 <= j < r@.len() implies (#[trigger] r@[j]) < c.names.len()
                && set.contains(c.names[r@[j] as int]) by {
                let row = t@[list@[j] as int];
                assert(three_ok(c.names, row));
                let x = three_row(c.names, row);
                assert(w.e.virtual_call.contains((x.0, x.1, x.2)));
                assert(w.e.dispatches(c.name(s), x.2));
            }
            assert forall|g: Name| #[trigger] set.contains(g) implies exists|j: int|
                0 <= j < r@.len() && c.names[#[trigger] r@[j] as int] == g by {
                let v = choose|v: Name| w.e.virtual_call.contains((c.name(s), v, g));
                let i = lemma_find_three(t@, c.names, w.e.virtual_call, (c.name(s), v, g));
                t.lemma_distinct();
                assert(t@[i][0] == s);
                assert(list@.contains(i as usize));
                let z = choose|z: int| 0 <= z < list@.len() && list@[z] == i as usize;
                assert(c.names[r@[z] as int] == g);
            }
        }
        r
    }

    /// The types a site allocates.
    fn types_of(&self, l: usize, Ghost(c): Ghost<Codes>, Ghost(w): Ghost<Setting>)
        -> (r: Vec<usize>)
        requires
            c.wf(),
            self.ok(c, w),
            l < c.names.len(),
        ensures
            lists(r@, c.names, types_at(w, c.name(l))),
    {
        let t = &self.facts.alloc_type;
        let list = t.heads(l);
        let mut r: Vec<usize> = Vec::new();
        let mut j: usize = 0;
        proof {
            c.lemma_wf();
        }
        while j < list.len()
            invariant
                j <= list@.len(),
                l < c.names.len(),
                means_two(t@, c.names, w.e.alloc_type),
                r@.len() == j,
                forall|z: int|
                    0 <= z < list@.len() ==> (#[trigger] list@[z]) < t@.len()
                        && t@[list@[z] as int][0]
                        == l,
                forall|z: int| 0 <= z < j ==> #[trigger] r@[z] == t@[list@[z] as int][1],
            decreases list@.len() - j,
        {
            let x: usize = list[j];
            proof {
                assert(two_ok(c.names, t@[x as int]));
            }
            r.push(t.at(x, 1));
            j += 1;
        }
        proof {
            let set = types_at(w, c.name(l));
            assert forall|j: int| 0 <= j < r@.len() implies (#[trigger] r@[j]) < c.names.len()
                && set.contains(c.names[r@[j] as int]) by {
                let row = t@[list@[j] as int];
                assert(two_ok(c.names, row));
                let x = two_row(c.names, row);
                assert(w.e.alloc_type.contains((x.0, x.1)));
            }
            assert forall|g: Name| #[trigger] set.contains(g) implies exists|j: int|
                0 <= j < r@.len() && c.names[#[trigger] r@[j] as int] == g by {
                let i = lemma_find_two(t@, c.names, w.e.alloc_type, (c.name(l), g));
                t.lemma_distinct();
                assert(t@[i][0] == l);
                assert(list@.contains(i as usize));
                let z = choose|z: int| 0 <= z < list@.len() && list@[z] == i as usize;
                assert(c.names[r@[z] as int] == g);
            }
        }
        r
    }

    /// The targets of one signature for one receiver type, added to `out`.
    fn add_lookups(
        &self,
        out: &mut Vec<usize>,
        t: usize,
        g: usize,
        Ghost(c): Ghost<Codes>,
        Ghost(w): Ghost<Setting>,
        Ghost(set): Ghost<Set<Name>>,
    )
        requires
            c.wf(),
            self.ok(c, w),
            t < c.names.len(),
            g < c.names.len(),
            lists(old(out)@, c.names, set),
        ensures
            lists(
                final(out)@,
                c.names,
                set.union(Set::new(|x: Name| w.e.lookup.contains((c.name(t), c.name(g), x)))),
            ),
    {
        let ghost more = Set::new(|x: Name| w.e.lookup.contains((c.name(t), c.name(g), x)));
        let tab = &self.facts.lookup;
        let list = tab.heads(t);
        let ghost out0 = out@;
        let mut j: usize = 0;
        proof {
            c.lemma_wf();
        }
        while j < list.len()
            invariant
                j <= list@.len(),
                t < c.names.len(),
                g < c.names.len(),
                means_three(tab@, c.names, w.e.lookup),
                more == Set::new(|x: Name| w.e.lookup.contains((c.name(t), c.name(g), x))),
                out0.len() <= out@.len(),
                forall|z: int| 0 <= z < out0.len() ==> #[trigger] out@[z] == out0[z],
                forall|z: int|
                    out0.len() <= z < out@.len() ==> (#[trigger] out@[z]) < c.names.len()
                        && more.contains(c.names[out@[z] as int]),
                forall|z: int|
                    0 <= z < list@.len() ==> (#[trigger] list@[z]) < tab@.len()
                        && tab@[list@[z] as int][0] == t,
                forall|z: int|
                    0 <= z < j && tab@[#[trigger] list@[z] as int][1] == g ==> out@.contains(
                        tab@[list@[z] as int][2],
                    ),
            decreases list@.len() - j,
        {
            let x: usize = list[j];
            proof {
                assert(three_ok(c.names, tab@[x as int]));
            }
            if tab.at(x, 1) == g {
                let callee: usize = tab.at(x, 2);
                let ghost before = out@;
                out.push(callee);
                proof {
                    let y = three_row(c.names, tab@[x as int]);
                    assert(w.e.lookup.contains((y.0, y.1, y.2)));
                    assert(out@[before.len() as int] == callee);
                    assert forall|z: int|
                        0 <= z < j + 1 && tab@[#[trigger] list@[z] as int][1] == g
                            implies out@.contains(
                        tab@[list@[z] as int][2],
                    ) by {
                        if z < j {
                            let q = choose|q: int|
                                0 <= q < before.len() && before[q] == tab@[list@[z] as int][2];
                            assert(out@[q] == tab@[list@[z] as int][2]);
                        }
                    }
                }
            }
            j += 1;
        }
        proof {
            let all = set.union(more);
            assert forall|z: int| 0 <= z < out@.len() implies (#[trigger] out@[z]) < c.names.len()
                && all.contains(c.names[out@[z] as int]) by {
                if z < out0.len() {
                    assert(out0[z] < c.names.len());
                }
            }
            assert forall|x: Name| #[trigger] all.contains(x) implies exists|z: int|
                0 <= z < out@.len() && c.names[#[trigger] out@[z] as int] == x by {
                if set.contains(x) {
                    let z = choose|z: int|
                        0 <= z < out0.len() && c.names[#[trigger] out0[z] as int] == x;
                    assert(c.names[out@[z] as int] == x);
                } else {
                    let i = lemma_find_three(
                        tab@,
                        c.names,
                        w.e.lookup,
                        (c.name(t), c.name(g), x),
                    );
                    tab.lemma_distinct();
                    assert(tab@[i][0] == t && tab@[i][1] == g);
                    assert(list@.contains(i as usize));
                    let z = choose|z: int| 0 <= z < list@.len() && list@[z] == i as usize;
                    assert(out@.contains(tab@[list@[z] as int][2]));
                    let q = choose|q: int| 0 <= q < out@.len() && out@[q] == tab@[i][2];
                    assert(c.names[out@[q] as int] == x);
                }
            }
        }
    }

    /// Which callees a receiver of type `t` selects for statement `s`.
    fn selected_by(
        &self,
        s: usize,
        t: usize,
        Ghost(c): Ghost<Codes>,
        Ghost(w): Ghost<Setting>,
    ) -> (r: Vec<usize>)
        requires
            c.wf(),
            self.ok(c, w),
            s < c.names.len(),
            t < c.names.len(),
        ensures
            lists(r@, c.names, selected(w, c.name(s), c.name(t))),
    {
        let sigs = self.signatures_of(s, Ghost(c), Ghost(w));
        let mut r: Vec<usize> = Vec::new();
        let ghost mut set: Set<Name> = Set::empty();
        let mut j: usize = 0;
        while j < sigs.len()
            invariant
                j <= sigs@.len(),
                c.wf(),
                self.ok(c, w),
                s < c.names.len(),
                t < c.names.len(),
                lists(sigs@, c.names, signatures(w, c.name(s))),
                lists(r@, c.names, set),
                forall|x: Name| #[trigger]
                    set.contains(x) <==> exists|z: int|
                        0 <= z < j && w.e.lookup.contains(
                            (c.name(t), c.names[#[trigger] sigs@[z] as int], x),
                        ),
            decreases sigs@.len() - j,
        {
            let g: usize = sigs[j];
            self.add_lookups(&mut r, t, g, Ghost(c), Ghost(w), Ghost(set));
            proof {
                let more = Set::new(|x: Name| w.e.lookup.contains((c.name(t), c.name(g), x)));
                let next = set.union(more);
                assert forall|x: Name| #[trigger] next.contains(x) <==> exists|z: int|
                    0 <= z < j + 1 && w.e.lookup.contains(
                        (c.name(t), c.names[#[trigger] sigs@[z] as int], x),
                    ) by {
                    if set.contains(x) {
                        let z = choose|z: int|
                            0 <= z < j && w.e.lookup.contains(
                                (c.name(t), c.names[#[trigger] sigs@[z] as int], x),
                            );
                        assert(w.e.lookup.contains((c.name(t), c.names[sigs@[z] as int], x)));
                    }
                    if more.contains(x) {
                        assert(w.e.lookup.contains((c.name(t), c.names[sigs@[j as int] as int],
                            x)));
                    }
                }
                set = next;
            }
            j += 1;
        }
        proof {
            let want = selected(w, c.name(s), c.name(t));
            assert forall|x: Name| want.contains(x) <==> set.contains(x) by {
                if want.contains(x) {
                    let g = choose|g: Name| #[trigger]
                        w.e.dispatches(c.name(s), g) && w.e.lookup.contains((c.name(t), g, x));
                    assert(signatures(w, c.name(s)).contains(g));
                    let z = choose|z: int|
                        0 <= z < sigs@.len() && c.names[#[trigger] sigs@[z] as int] == g;
                    assert(w.e.lookup.contains((c.name(t), c.names[sigs@[z] as int], x)));
                }
                if set.contains(x) {
                    let z = choose|z: int|
                        0 <= z < sigs@.len() && w.e.lookup.contains(
                            (c.name(t), c.names[#[trigger] sigs@[z] as int], x),
                        );
                    assert(signatures(w, c.name(s)).contains(c.names[sigs@[z] as int]));
                    assert(w.e.dispatches(c.name(s), c.names[sigs@[z] as int]));
                }
            }
            assert(want =~= set);
        }
        r
    }

    /// Which callees statement `s` has whatever the receiver is.
    fn targets_of(&self, s: usize, Ghost(c): Ghost<Codes>, Ghost(w): Ghost<Setting>) -> (r: Vec<
        usize,
    >)
        requires
            c.wf(),
            self.ok(c, w),
            s < c.names.len(),
        ensures
            lists(r@, c.names, every_target(w, c.name(s))),
    {
        let sigs = self.signatures_of(s, Ghost(c), Ghost(w));
        let tab = &self.derived.targets;
        let ghost want = every_target(w, c.name(s));
        let mut r: Vec<usize> = Vec::new();
        let mut j: usize = 0;
        proof {
            c.lemma_wf();
        }
        while j < sigs.len()
            invariant
                j <= sigs@.len(),
                c.wf(),
                self.ok(c, w),
                tab == &self.derived.targets,
                c.names.no_duplicates(),
                want == every_target(w, c.name(s)),
                lists(sigs@, c.names, signatures(w, c.name(s))),
                forall|z: int|
                    0 <= z < r@.len() ==> (#[trigger] r@[z]) < c.names.len() && want.contains(
                        c.names[r@[z] as int],
                    ),
                forall|z: int, i: int|
                    #![trigger sigs@[z], tab@[i]]
                    0 <= z < j && 0 <= i < tab@.len() && tab@[i][0] == sigs@[z] ==> r@.contains(
                        tab@[i][1],
                    ),
            decreases sigs@.len() - j,
        {
            let g: usize = sigs[j];
            let list = tab.heads(g);
            let ghost r0 = r@;
            let mut y: usize = 0;
            while y < list.len()
                invariant
                    y <= list@.len(),
                    j < sigs@.len(),
                    g == sigs@[j as int],
                    c.wf(),
                    self.ok(c, w),
                    tab == &self.derived.targets,
                    want == every_target(w, c.name(s)),
                    lists(sigs@, c.names, signatures(w, c.name(s))),
                    r@.len() == r0.len() + y,
                    forall|z: int| 0 <= z < r0.len() ==> #[trigger] r@[z] == r0[z],
                    forall|z: int|
                        0 <= z < r@.len() ==> (#[trigger] r@[z]) < c.names.len() && want.contains(
                            c.names[r@[z] as int],
                        ),
                    forall|z: int|
                        0 <= z < list@.len() ==> (#[trigger] list@[z]) < tab@.len()
                            && tab@[list@[z] as int][0] == g,
                    forall|z: int|
                        0 <= z < y ==> r@[r0.len() + z] == tab@[#[trigger] list@[z] as int][1],
                decreases list@.len() - y,
            {
                let x: usize = list[y];
                proof {
                    assert(two_ok(c.names, tab@[x as int]));
                    let v = two_row(c.names, tab@[x as int]);
                    assert(target_set(w.e).contains(v));
                    assert(signatures(w, c.name(s)).contains(c.names[g as int]));
                    assert(w.e.dispatches(c.name(s), c.names[g as int]));
                    assert(want.contains(v.1));
                }
                r.push(tab.at(x, 1));
                y += 1;
            }
            proof {
                assert forall|z: int, i: int|
                    #![trigger sigs@[z], tab@[i]]
                    0 <= z < j + 1 && 0 <= i < tab@.len() && tab@[i][0] == sigs@[z]
                        implies r@.contains(
                    tab@[i][1],
                ) by {
                    if z < j {
                        assert(r0.contains(tab@[i][1]));
                        let q = choose|q: int| 0 <= q < r0.len() && r0[q] == tab@[i][1];
                        assert(r@[q] == tab@[i][1]);
                    } else {
                        tab.lemma_distinct();
                        assert(two_ok(c.names, tab@[i]));
                        assert(list@.contains(i as usize));
                        let q = choose|q: int| 0 <= q < list@.len() && list@[q] == i as usize;
                        assert(r@[r0.len() + q] == tab@[list@[q] as int][1]);
                    }
                }
            }
            j += 1;
        }
        proof {
            assert forall|x: Name| #[trigger] want.contains(x) implies exists|z: int|
                0 <= z < r@.len() && c.names[#[trigger] r@[z] as int] == x by {
                let g = choose|g: Name| #[trigger]
                    w.e.dispatches(c.name(s), g) && w.e.sig_target(g, x);
                assert(signatures(w, c.name(s)).contains(g));
                let z = choose|z: int| 0 <= z < sigs@.len()
                    && c.names[#[trigger] sigs@[z] as int] == g;
                assert(target_set(w.e).contains((g, x)));
                let i = lemma_find_two(tab@, c.names, target_set(w.e), (g, x));
                assert(tab@[i][0] == sigs@[z]);
                assert(r@.contains(tab@[i][1]));
                let q = choose|q: int| 0 <= q < r@.len() && r@[q] == tab@[i][1];
                assert(c.names[r@[q] as int] == x);
            }
        }
        r
    }

    /// The allocations (`tag` 1) or constants (`tag` 2) that a slot may hold.
    pub fn held_by(&self, st: &State, p: usize, id: usize, i: usize, tag: usize) -> (r: Vec<usize>)
        requires
            st.tables_ok(),
            p < st.store@.names.len(),
            id < st.store@.insts.len(),
            tag == 1 || tag == 2,
        ensures
            lists(
                r@,
                st.store@.names,
                held(st.said(), st.store@.name(p), st.store@.inst(id), i, tag),
            ),
    {
        let ghost c = st.store@;
        let ghost m = st.said();
        let ghost lhs = Path::slot(c.inst(id), i);
        let ghost want = held(m, c.name(p), c.inst(id), i, tag);
        let mut r: Vec<usize> = Vec::new();
        match self.slot_node(st, p, id, i) {
            None => {
                proof {
                    assert forall|x: Name| #[trigger] want.contains(x) implies false by {
                        let v = if tag == 1 {
                            Value::Alloc(x)
                        } else {
                            Value::Const(x)
                        };
                        let j = st.lemma_point_row((c.name(p), lhs, v));
                        let n = st.points@[j][0];
                        assert(c.name(st.proc(n)) == c.name(p));
                    }
                }
                r
            },
            Some(n) => {
                let list = st.points.heads(n);
                let mut j: usize = 0;
                while j < list.len()
                    invariant
                        j <= list@.len(),
                        st.tables_ok(),
                        c == st.store@,
                        m == st.said(),
                        tag == 1 || tag == 2,
                        p < c.names.len(),
                        n < st.nodes@.len(),
                        c.name(st.proc(n)) == c.name(p),
                        c.path(st.place(n)) == lhs,
                        lhs == Path::slot(c.inst(id), i),
                        want == held(m, c.name(p), c.inst(id), i, tag),
                        forall|z: int|
                            0 <= z < list@.len() ==> (#[trigger] list@[z]) < st.points@.len()
                                && st.points@[list@[z] as int][0] == n,
                        forall|z: int|
                            0 <= z < r@.len() ==> (#[trigger] r@[z]) < c.names.len()
                                && want.contains(c.names[r@[z] as int]),
                        forall|z: int|
                            0 <= z < j && st.points@[#[trigger] list@[z] as int][1] == tag
                                ==> r@.contains(st.points@[list@[z] as int][2]),
                    decreases list@.len() - j,
                {
                    let y: usize = list[j];
                    proof {
                        assert(st.point_ok(st.points@[y as int]));
                    }
                    if st.points.at(y, 1) == tag {
                        let x: usize = st.points.at(y, 2);
                        let ghost before = r@;
                        r.push(x);
                        proof {
                            c.lemma_value_other(tag, x);
                            assert(st.points@.contains(st.points@[y as int]));
                            st.lemma_row_point(st.points@[y as int]);
                            assert(want.contains(c.names[x as int]));
                            assert(r@[before.len() as int] == x);
                            assert forall|z: int|
                                0 <= z < j + 1 && st.points@[#[trigger] list@[z] as int][1]
                                    == tag implies r@.contains(st.points@[list@[z] as int][2]) by {
                                if z < j {
                                    let q = choose|q: int|
                                        0 <= q < before.len() && before[q]
                                            == st.points@[list@[z] as int][2];
                                    assert(r@[q] == st.points@[list@[z] as int][2]);
                                }
                            }
                        }
                    }
                    j += 1;
                }
                proof {
                    assert forall|x: Name| #[trigger] want.contains(x) implies exists|z: int|
                        0 <= z < r@.len() && c.names[#[trigger] r@[z] as int] == x by {
                        let v = if tag == 1 {
                            Value::Alloc(x)
                        } else {
                            Value::Const(x)
                        };
                        let y = st.lemma_point_row((c.name(p), lhs, v));
                        let row = st.points@[y];
                        st.lemma_node_injective(row[0], n);
                        st.points.lemma_distinct();
                        assert(list@.contains(y as usize));
                        let z = choose|z: int| 0 <= z < list@.len() && list@[z] == y as usize;
                        if row[1] == 0 {
                            c.lemma_value_path(row[2]);
                        } else {
                            c.lemma_value_other(row[1], row[2]);
                        }
                        assert(row[1] == tag);
                        assert(r@.contains(row[2]));
                        let q = choose|q: int| 0 <= q < r@.len() && r@[q] == row[2];
                        assert(c.names[r@[q] as int] == x);
                    }
                }
                r
            },
        }
    }
}

/// One list after the other.
fn append_list(
    out: &mut Vec<usize>,
    list: &Vec<usize>,
    Ghost(names): Ghost<Seq<Name>>,
    Ghost(a): Ghost<Set<Name>>,
    Ghost(b): Ghost<Set<Name>>,
)
    requires
        lists(old(out)@, names, a),
        lists(list@, names, b),
    ensures
        lists(final(out)@, names, a.union(b)),
{
    let ghost out0 = out@;
    let mut j: usize = 0;
    while j < list.len()
        invariant
            j <= list@.len(),
            out@ == out0 + list@.take(j as int),
        decreases list@.len() - j,
    {
        out.push(list[j]);
        proof {
            assert(list@.take(j + 1) =~= list@.take(j as int).push(list@[j as int]));
            assert(out@ =~= out0 + list@.take(j + 1));
        }
        j += 1;
    }
    proof {
        assert(list@.take(j as int) =~= list@);
        assert forall|z: int| 0 <= z < out@.len() implies (#[trigger] out@[z]) < names.len()
            && a.union(b).contains(names[out@[z] as int]) by {
            if z < out0.len() {
                assert(out0[z] < names.len());
            } else {
                assert(list@[z - out0.len()] < names.len());
            }
        }
        assert forall|x: Name| #[trigger] a.union(b).contains(x) implies exists|z: int|
            0 <= z < out@.len() && names[#[trigger] out@[z] as int] == x by {
            if a.contains(x) {
                let z = choose|z: int| 0 <= z < out0.len() && names[#[trigger] out0[z] as int] == x;
                assert(names[out@[z] as int] == x);
            } else {
                let z = choose|z: int| 0 <= z < list@.len()
                    && names[#[trigger] list@[z] as int] == x;
                assert(names[out@[out0.len() + z] as int] == x);
            }
        }
    }
}

/// Which callees an allocation site selects for statement `s`.
pub open spec fn selected_at(w: Setting, s: Name, l: Name) -> Set<Name> {
    Set::new(
        |callee: Name|
            exists|t: Name| #[trigger]
                w.e.alloc_type.contains((l, t)) && selected(w, s, t).contains(callee),
    )
}

pub open spec fn reached_by(w: Setting, m: Core, p: Name, id: Instance) -> Set<Name> {
    Set::new(|callee: Name| w.resolve(m, p, id, callee))
}

impl Engine {
    /// Which callees an allocation site selects for statement `s`.
    fn selected_by_site(
        &self,
        s: usize,
        l: usize,
        Ghost(c): Ghost<Codes>,
        Ghost(w): Ghost<Setting>,
    ) -> (r: Vec<usize>)
        requires
            c.wf(),
            self.ok(c, w),
            s < c.names.len(),
            l < c.names.len(),
        ensures
            lists(r@, c.names, selected_at(w, c.name(s), c.name(l))),
    {
        let types = self.types_of(l, Ghost(c), Ghost(w));
        let mut r: Vec<usize> = Vec::new();
        let ghost mut set: Set<Name> = Set::empty();
        let mut j: usize = 0;
        while j < types.len()
            invariant
                j <= types@.len(),
                c.wf(),
                self.ok(c, w),
                s < c.names.len(),
                lists(types@, c.names, types_at(w, c.name(l))),
                lists(r@, c.names, set),
                forall|x: Name| #[trigger]
                    set.contains(x) <==> exists|z: int|
                        0 <= z < j && selected(
                            w,
                            c.name(s),
                            c.names[#[trigger] types@[z] as int],
                        ).contains(x),
            decreases types@.len() - j,
        {
            let t: usize = types[j];
            let list = self.selected_by(s, t, Ghost(c), Ghost(w));
            let ghost more = selected(w, c.name(s), c.name(t));
            append_list(&mut r, &list, Ghost(c.names), Ghost(set), Ghost(more));
            proof {
                let next = set.union(more);
                assert forall|x: Name| #[trigger] next.contains(x) <==> exists|z: int|
                    0 <= z < j + 1 && selected(
                        w,
                        c.name(s),
                        c.names[#[trigger] types@[z] as int],
                    ).contains(x) by {
                    if set.contains(x) {
                        let z = choose|z: int|
                            0 <= z < j && selected(
                                w,
                                c.name(s),
                                c.names[#[trigger] types@[z] as int],
                            ).contains(x);
                        assert(selected(w, c.name(s), c.names[types@[z] as int]).contains(x));
                    }
                    if more.contains(x) {
                        assert(selected(w, c.name(s),
                            c.names[types@[j as int] as int]).contains(x));
                    }
                }
                set = next;
            }
            j += 1;
        }
        proof {
            let want = selected_at(w, c.name(s), c.name(l));
            assert forall|x: Name| want.contains(x) <==> set.contains(x) by {
                if want.contains(x) {
                    let t = choose|t: Name| #[trigger]
                        w.e.alloc_type.contains((c.name(l), t)) && selected(
                            w,
                            c.name(s),
                            t,
                        ).contains(x);
                    assert(types_at(w, c.name(l)).contains(t));
                    let z = choose|z: int|
                        0 <= z < types@.len() && c.names[#[trigger] types@[z] as int] == t;
                    assert(selected(w, c.name(s), c.names[types@[z] as int]).contains(x));
                }
                if set.contains(x) {
                    let z = choose|z: int|
                        0 <= z < types@.len() && selected(
                            w,
                            c.name(s),
                            c.names[#[trigger] types@[z] as int],
                        ).contains(x);
                    assert(types_at(w, c.name(l)).contains(c.names[types@[z] as int]));
                    assert(w.e.alloc_type.contains((c.name(l), c.names[types@[z] as int])));
                }
            }
            assert(want =~= set);
        }
        r
    }

    /// Which callees the allocations in the receiver's points-to set select.
    fn evidence(&self, st: &State, p: usize, id: usize, Ghost(w): Ghost<Setting>) -> (r: Vec<usize>)
        requires
            st.tables_ok(),
            self.ok(st.store@, w),
            p < st.store@.names.len(),
            id < st.store@.insts.len(),
        ensures
            lists(
                r@,
                st.store@.names,
                Set::new(
                    |x: Name| w.selects(st.said(), st.store@.name(p), st.store@.inst(id), x),
                ),
            ),
    {
        let ghost c = st.store@;
        let ghost m = st.said();
        let ghost pn = c.name(p);
        let ghost inst = c.inst(id);
        let s: usize = st.store.stmt(id);
        let sites = self.held_by(st, p, id, 0, 1);
        let ghost hold = held(m, pn, inst, 0, 1);
        let mut r: Vec<usize> = Vec::new();
        let ghost mut set: Set<Name> = Set::empty();
        let mut j: usize = 0;
        while j < sites.len()
            invariant
                j <= sites@.len(),
                c.wf(),
                self.ok(c, w),
                s < c.names.len(),
                lists(sites@, c.names, hold),
                lists(r@, c.names, set),
                forall|x: Name| #[trigger]
                    set.contains(x) <==> exists|z: int|
                        0 <= z < j && selected_at(
                            w,
                            c.name(s),
                            c.names[#[trigger] sites@[z] as int],
                        ).contains(x),
            decreases sites@.len() - j,
        {
            let l: usize = sites[j];
            let list = self.selected_by_site(s, l, Ghost(c), Ghost(w));
            let ghost more = selected_at(w, c.name(s), c.name(l));
            append_list(&mut r, &list, Ghost(c.names), Ghost(set), Ghost(more));
            proof {
                let next = set.union(more);
                assert forall|x: Name| #[trigger] next.contains(x) <==> exists|z: int|
                    0 <= z < j + 1 && selected_at(
                        w,
                        c.name(s),
                        c.names[#[trigger] sites@[z] as int],
                    ).contains(x) by {
                    if set.contains(x) {
                        let z = choose|z: int|
                            0 <= z < j && selected_at(
                                w,
                                c.name(s),
                                c.names[#[trigger] sites@[z] as int],
                            ).contains(x);
                        assert(selected_at(w, c.name(s), c.names[sites@[z] as int]).contains(x));
                    }
                    if more.contains(x) {
                        assert(selected_at(w, c.name(s), c.names[sites@[j as int] as int]).contains(
                            x,
                        ));
                    }
                }
                set = next;
            }
            j += 1;
        }
        proof {
            let want = Set::new(|x: Name| w.selects(m, pn, inst, x));
            assert forall|x: Name| want.contains(x) <==> set.contains(x) by {
                if want.contains(x) {
                    let (l, t, g) = choose|l: Name, t: Name, g: Name|
                        {
                            &&& #[trigger] m.points.contains(
                                (pn, Path::slot(inst, 0), Value::Alloc(l)),
                            )
                            &&& #[trigger] w.e.alloc_type.contains((l, t))
                            &&& w.e.dispatches(inst.stmt, g)
                            &&& #[trigger] w.e.lookup.contains((t, g, x))
                        };
                    assert(hold.contains(l));
                    assert(selected(w, inst.stmt, t).contains(x));
                    assert(selected_at(w, inst.stmt, l).contains(x));
                    let z = choose|z: int|
                        0 <= z < sites@.len() && c.names[#[trigger] sites@[z] as int] == l;
                    assert(selected_at(w, c.name(s), c.names[sites@[z] as int]).contains(x));
                }
                if set.contains(x) {
                    let z = choose|z: int|
                        0 <= z < sites@.len() && selected_at(
                            w,
                            c.name(s),
                            c.names[#[trigger] sites@[z] as int],
                        ).contains(x);
                    let l = c.names[sites@[z] as int];
                    assert(hold.contains(l));
                    let t = choose|t: Name| #[trigger]
                        w.e.alloc_type.contains((l, t)) && selected(w, c.name(s), t).contains(x);
                    let g = choose|g: Name| #[trigger]
                        w.e.dispatches(c.name(s), g) && w.e.lookup.contains((t, g, x));
                    assert(m.points.contains((pn, Path::slot(inst, 0), Value::Alloc(l))));
                    assert(w.selects(m, pn, inst, x));
                }
            }
            assert(want =~= set);
        }
        r
    }

    /// The callees that the instance `id` held by `p` may reach.
    pub fn callees(
        &self,
        st: &State,
        p: usize,
        id: usize,
        blocked: bool,
        Ghost(w): Ghost<Setting>,
    ) -> (r: Vec<usize>)
        requires
            st.tables_ok(),
            self.ok(st.store@, w),
            p < st.store@.names.len(),
            id < st.store@.insts.len(),
            st.said().pending.contains((st.store@.name(p), st.store@.inst(id))),
            blocked == w.blocked(st.said(), st.store@.name(p), st.store@.inst(id)),
        ensures
            lists(
                r@,
                st.store@.names,
                reached_by(w, st.said(), st.store@.name(p), st.store@.inst(id)),
            ),
    {
        let ghost c = st.store@;
        let ghost m = st.said();
        let ghost pn = c.name(p);
        let ghost inst = c.inst(id);
        let ghost a: Set<Name> = if w.will_propagate(pn, inst) {
            Set::empty()
        } else {
            Set::new(|x: Name| w.selects(m, pn, inst, x))
        };
        let ghost b: Set<Name> = if w.top(m, pn, inst) {
            every_target(w, inst.stmt)
        } else {
            Set::empty()
        };
        let mut r: Vec<usize> = Vec::new();
        if !self.will_propagate(p, id, Ghost(c), Ghost(w)) {
            r = self.evidence(st, p, id, Ghost(w));
        }
        if blocked && self.is_stuck(st, p, id, Ghost(w)) {
            let s: usize = st.store.stmt(id);
            let list = self.targets_of(s, Ghost(c), Ghost(w));
            append_list(&mut r, &list, Ghost(c.names), Ghost(a), Ghost(b));
        } else {
            proof {
                assert(a.union(b) =~= a);
            }
        }
        proof {
            assert(reached_by(w, m, pn, inst) =~= a.union(b));
        }
        r
    }
}

// ---------------------------------------------------------------------------
// The marks of a state
// ---------------------------------------------------------------------------

/// A state's decisions.
pub struct Marks {
    /// For each pending row, whether it is blocked.
    pub blocked: Vec<bool>,
    /// A callee, a holder and an instance.
    pub resolves: Table,
    /// A holder, an instance and an accessor.
    pub accs: Table,
}

pub open spec fn resolves_ok(t: Seq<Seq<usize>>, c: Codes, w: Setting, m: Core) -> bool {
    &&& forall|i: int|
        0 <= i < t.len() ==> (#[trigger] t[i]).len() == 3 && t[i][0] < c.names.len() && t[i][1]
            < c.names.len() && t[i][2] < c.insts.len() && w.resolve(
            m,
            c.name(t[i][1]),
            c.inst(t[i][2]),
            c.name(t[i][0]),
        )
    &&& forall|p: Name, id: Instance, callee: Name| #[trigger]
        w.resolve(m, p, id, callee) ==> exists|i: int|
            0 <= i < t.len() && c.name((#[trigger] t[i])[1]) == p && c.inst(t[i][2]) == id
                && c.name(
                t[i][0],
            ) == callee
}

pub open spec fn accs_ok(t: Seq<Seq<usize>>, c: Codes, w: Setting, m: Core) -> bool {
    &&& forall|i: int|
        0 <= i < t.len() ==> (#[trigger] t[i]).len() == 4 && t[i][0] < c.names.len() && t[i][1]
            < c.insts.len() && step_ok(c.names, t[i][2], t[i][3]) && w.index_acc(
            m,
            c.name(t[i][0]),
            c.inst(t[i][1]),
            step_of(c.names, t[i][2], t[i][3]),
        )
    &&& forall|p: Name, id: Instance, acc: Step| #[trigger]
        w.index_acc(m, p, id, acc) ==> exists|i: int|
            0 <= i < t.len() && c.name((#[trigger] t[i])[0]) == p && c.inst(t[i][1]) == id
                && step_of(c.names, t[i][2], t[i][3]) == acc
}

impl Marks {
    /// The marks are those of the state `s`.
    pub open spec fn ok(&self, s: State, w: Setting) -> bool {
        &&& self.blocked@.len() == s.pending@.len()
        &&& forall|j: int|
            0 <= j < s.pending@.len() ==> self.blocked@[j] == w.blocked(
                s.said(),
                s.pending_of(#[trigger] s.pending@[j]).0,
                s.pending_of(s.pending@[j]).1,
            )
        &&& self.resolves.wf() && resolves_ok(self.resolves@, s.store@, w, s.said())
        &&& self.accs.wf() && accs_ok(self.accs@, s.store@, w, s.said())
    }
}

impl Engine {
    fn mark_blocked(&self, st: &State, Ghost(w): Ghost<Setting>) -> (r: Vec<bool>)
        requires
            st.tables_ok(),
            self.ok(st.store@, w),
        ensures
            r@.len() == st.pending@.len(),
            forall|j: int|
                0 <= j < st.pending@.len() ==> r@[j] == w.blocked(
                    st.said(),
                    st.pending_of(#[trigger] st.pending@[j]).0,
                    st.pending_of(st.pending@[j]).1,
                ),
    {
        let mut r: Vec<bool> = Vec::new();
        let mut i: usize = 0;
        while i < st.pending.len()
            invariant
                i <= st.pending@.len(),
                st.tables_ok(),
                self.ok(st.store@, w),
                r@.len() == i,
                forall|j: int|
                    0 <= j < i ==> r@[j] == w.blocked(
                        st.said(),
                        st.pending_of(#[trigger] st.pending@[j]).0,
                        st.pending_of(st.pending@[j]).1,
                    ),
            decreases st.pending@.len() - i,
        {
            proof {
                assert(st.pending_ok(st.pending@[i as int]));
            }
            let p: usize = st.pending.at(i, 0);
            let id: usize = st.pending.at(i, 1);
            let b = self.is_blocked(st, p, id, Ghost(w));
            r.push(b);
            i += 1;
        }
        r
    }

    fn mark_resolves(&self, st: &State, blocked: &Vec<bool>, Ghost(w): Ghost<Setting>) -> (t: Table)
        requires
            st.tables_ok(),
            self.ok(st.store@, w),
            blocked@.len() == st.pending@.len(),
            forall|j: int|
                0 <= j < st.pending@.len() ==> blocked@[j] == w.blocked(
                    st.said(),
                    st.pending_of(#[trigger] st.pending@[j]).0,
                    st.pending_of(st.pending@[j]).1,
                ),
        ensures
            t.wf(),
            resolves_ok(t@, st.store@, w, st.said()),
    {
        let ghost c = st.store@;
        let ghost m = st.said();
        let mut t = Table::new();
        let mut i: usize = 0;
        while i < st.pending.len()
            invariant
                i <= st.pending@.len(),
                st.tables_ok(),
                self.ok(c, w),
                c == st.store@,
                m == st.said(),
                blocked@.len() == st.pending@.len(),
                forall|j: int|
                    0 <= j < st.pending@.len() ==> blocked@[j] == w.blocked(
                        st.said(),
                        st.pending_of(#[trigger] st.pending@[j]).0,
                        st.pending_of(st.pending@[j]).1,
                    ),
                t.wf(),
                forall|row: Seq<usize>| #[trigger]
                    t@.contains(row) ==> row.len() == 3 && row[0] < c.names.len() && row[1]
                        < c.names.len() && row[2] < c.insts.len() && w.resolve(
                        m,
                        c.name(row[1]),
                        c.inst(row[2]),
                        c.name(row[0]),
                    ),
                forall|j: int, callee: Name|
                    #![trigger st.pending@[j], w.resolve(
                        m,
                        st.pending_of(st.pending@[j]).0,
                        st.pending_of(st.pending@[j]).1,
                        callee,
                    )]
                    0 <= j < i && w.resolve(
                        m,
                        st.pending_of(st.pending@[j]).0,
                        st.pending_of(st.pending@[j]).1,
                        callee,
                    ) ==> exists|row: Seq<usize>| #[trigger]
                        t@.contains(row) && c.name(row[0]) == callee && row[1] == st.pending@[j][0]
                            && row[2] == st.pending@[j][1],
            decreases st.pending@.len() - i,
        {
            let ghost prow = st.pending@[i as int];
            proof {
                assert(st.pending_ok(prow));
                assert(st.pending@.contains(prow));
                st.lemma_row_pending(prow);
            }
            let p: usize = st.pending.at(i, 0);
            let id: usize = st.pending.at(i, 1);
            let list = self.callees(st, p, id, blocked[i], Ghost(w));
            let ghost want = reached_by(w, m, c.name(p), c.inst(id));
            let ghost t0 = t@;
            let mut y: usize = 0;
            while y < list.len()
                invariant
                    y <= list@.len(),
                    t.wf(),
                    p < c.names.len(),
                    id < c.insts.len(),
                    want == reached_by(w, m, c.name(p), c.inst(id)),
                    lists(list@, c.names, want),
                    forall|row: Seq<usize>| #[trigger]
                        t@.contains(row) ==> row.len() == 3 && row[0] < c.names.len() && row[1]
                            < c.names.len() && row[2] < c.insts.len() && w.resolve(
                            m,
                            c.name(row[1]),
                            c.inst(row[2]),
                            c.name(row[0]),
                        ),
                    forall|row: Seq<usize>| t0.contains(row) ==> #[trigger] t@.contains(row),
                    forall|z: int| 0 <= z < y ==> t@.contains(seq![#[trigger] list@[z], p, id]),
                decreases list@.len() - y,
            {
                let callee: usize = list[y];
                let cells: Vec<usize> = vec![callee, p, id];
                proof {
                    assert(cells@ =~= seq![callee, p, id]);
                    assert(want.contains(c.names[callee as int]));
                }
                t.insert(cells);
                y += 1;
            }
            proof {
                assert forall|j: int, callee: Name|
                    #![trigger st.pending@[j], w.resolve(
                        m,
                        st.pending_of(st.pending@[j]).0,
                        st.pending_of(st.pending@[j]).1,
                        callee,
                    )]
                    0 <= j < i + 1 && w.resolve(
                        m,
                        st.pending_of(st.pending@[j]).0,
                        st.pending_of(st.pending@[j]).1,
                        callee,
                    ) implies exists|row: Seq<usize>| #[trigger]
                    t@.contains(row) && c.name(row[0]) == callee && row[1] == st.pending@[j][0]
                        && row[2] == st.pending@[j][1] by {
                    if j < i {
                        let row = choose|row: Seq<usize>| #[trigger]
                            t0.contains(row) && c.name(row[0]) == callee && row[1]
                                == st.pending@[j][0] && row[2] == st.pending@[j][1];
                        assert(t@.contains(row));
                    } else {
                        assert(want.contains(callee));
                        let z = choose|z: int|
                            0 <= z < list@.len() && c.names[#[trigger] list@[z] as int] == callee;
                        assert(t@.contains(seq![list@[z], p, id]));
                    }
                }
            }
            i += 1;
        }
        proof {
            assert forall|j: int| 0 <= j < t@.len() implies (#[trigger] t@[j]).len() == 3
                && t@[j][0]
                < c.names.len() && t@[j][1] < c.names.len() && t@[j][2] < c.insts.len()
                && w.resolve(m, c.name(t@[j][1]), c.inst(t@[j][2]), c.name(t@[j][0])) by {
                assert(t@.contains(t@[j]));
            }
            assert forall|p: Name, id: Instance, callee: Name| #[trigger]
                w.resolve(m, p, id, callee) implies exists|i: int|
                0 <= i < t@.len() && c.name((#[trigger] t@[i])[1]) == p && c.inst(t@[i][2]) == id
                    && c.name(t@[i][0]) == callee by {
                let j = st.lemma_pending_row((p, id));
                assert(w.resolve(
                    m,
                    st.pending_of(st.pending@[j]).0,
                    st.pending_of(st.pending@[j]).1,
                    callee,
                ));
                let row = choose|row: Seq<usize>| #[trigger]
                    t@.contains(row) && c.name(row[0]) == callee && row[1] == st.pending@[j][0]
                        && row[2] == st.pending@[j][1];
                let i = choose|i: int| 0 <= i < t@.len() && t@[i] == row;
                assert(c.name(t@[i][1]) == p);
            }
        }
        t
    }

    /// The accessors of one instance, added to `t`.
    fn add_accs(
        &self,
        t: &mut Table,
        st: &State,
        p: usize,
        id: usize,
        blocked: bool,
        Ghost(w): Ghost<Setting>,
    )
        requires
            old(t).wf(),
            st.tables_ok(),
            self.ok(st.store@, w),
            p < st.store@.names.len(),
            id < st.store@.insts.len(),
            st.said().pending.contains((st.store@.name(p), st.store@.inst(id))),
            blocked == w.blocked(st.said(), st.store@.name(p), st.store@.inst(id)),
        ensures
            final(t).wf(),
            forall|row: Seq<usize>| old(t)@.contains(row) ==> #[trigger] final(t)@.contains(row),
            forall|row: Seq<usize>| #[trigger]
                final(t)@.contains(row) ==> old(t)@.contains(row) || row.len() == 4 && row[0] == p
                    && row[1] == id && step_ok(st.store@.names, row[2], row[3]) && w.index_acc(
                    st.said(),
                    st.store@.name(p),
                    st.store@.inst(id),
                    step_of(st.store@.names, row[2], row[3]),
                ),
            forall|acc: Step| #[trigger]
                w.index_acc(st.said(), st.store@.name(p), st.store@.inst(id), acc) ==> exists|
                    row: Seq<usize>,
                | #[trigger]
                    final(t)@.contains(row) && row[0] == p && row[1] == id && step_of(
                        st.store@.names,
                        row[2],
                        row[3],
                    ) == acc,
    {
        let ghost c = st.store@;
        let ghost m = st.said();
        let ghost pn = c.name(p);
        let ghost inst = c.inst(id);
        let ghost t0 = t@;
        let s: usize = st.store.stmt(id);
        if !self.is_index(s, Ghost(c), Ghost(w)) {
            return ;
        }
        let certain = self.will_propagate(p, id, Ghost(c), Ghost(w));
        let mut unknown = blocked && self.is_stuck(st, p, id, Ghost(w));
        if !certain {
            let consts = self.held_by(st, p, id, 1, 2);
            let ghost hold = held(m, pn, inst, 1, 2);
            let mut y: usize = 0;
            while y < consts.len()
                invariant
                    y <= consts@.len(),
                    t.wf(),
                    p < c.names.len(),
                    id < c.insts.len(),
                    pn == c.name(p),
                    inst == c.inst(id),
                    hold == held(m, pn, inst, 1, 2),
                    lists(consts@, c.names, hold),
                    m.pending.contains((pn, inst)),
                    !w.will_propagate(pn, inst),
                    w.e.index_stmt(inst.stmt),
                    forall|row: Seq<usize>| t0.contains(row) ==> #[trigger] t@.contains(row),
                    forall|row: Seq<usize>| #[trigger]
                        t@.contains(row) ==> t0.contains(row) || row.len() == 4 && row[0] == p
                            && row[1] == id && step_ok(c.names, row[2], row[3]) && w.index_acc(
                            m,
                            pn,
                            inst,
                            step_of(c.names, row[2], row[3]),
                        ),
                    forall|z: int|
                        0 <= z < y ==> t@.contains(seq![p, id, 1usize, #[trigger] consts@[z]]),
                decreases consts@.len() - y,
            {
                let x: usize = consts[y];
                let cells: Vec<usize> = vec![p, id, 1, x];
                proof {
                    assert(cells@ =~= seq![p, id, 1usize, x]);
                    assert(hold.contains(c.names[x as int]));
                    assert(w.index_acc(m, pn, inst, Step::Index(c.names[x as int])));
                }
                t.insert(cells);
                y += 1;
            }
            proof {
                assert forall|n: Name| #[trigger] w.index_acc(m, pn, inst, Step::Index(n))
                    implies exists|
                    row: Seq<usize>,
                | #[trigger]
                    t@.contains(row) && row[0] == p && row[1] == id
                        && step_of(c.names, row[2], row[3])
                        == Step::Index(n) by {
                    assert(hold.contains(n));
                    let z = choose|z: int|
                        0 <= z < consts@.len() && c.names[#[trigger] consts@[z] as int] == n;
                    assert(t@.contains(seq![p, id, 1usize, consts@[z]]));
                }
            }
            let allocs = self.held_by(st, p, id, 1, 1);
            proof {
                let ha = held(m, pn, inst, 1, 1);
                if allocs@.len() > 0 {
                    assert(ha.contains(c.names[allocs@[0] as int]));
                    assert(m.points.contains(
                        (pn, Path::slot(inst, 1), Value::Alloc(c.names[allocs@[0] as int])),
                    ));
                    assert(w.index_undecidable(m, pn, inst));
                }
                if w.index_undecidable(m, pn, inst) {
                    let l = choose|l: Name|
                        m.points.contains((pn, Path::slot(inst, 1), Value::Alloc(l)));
                    assert(ha.contains(l));
                }
            }
            if allocs.len() > 0 {
                unknown = true;
            }
        }
        let ghost t1 = t@;
        if unknown {
            let cells: Vec<usize> = vec![p, id, 2, 0];
            let ghost row0 = cells@;
            proof {
                assert(w.index_acc(m, pn, inst, Step::Unknown));
            }
            t.insert(cells);
            proof {
                assert(t@.contains(row0));
            }
        }
        proof {
            assert forall|acc: Step| #[trigger] w.index_acc(m, pn, inst, acc) implies exists|
                row: Seq<usize>,
            | #[trigger]
                t@.contains(row) && row[0] == p && row[1] == id && step_of(c.names, row[2], row[3])
                    == acc by {
                match acc {
                    Step::Index(n) => {
                        let row = choose|row: Seq<usize>| #[trigger]
                            t1.contains(row) && row[0] == p && row[1] == id && step_of(
                                c.names,
                                row[2],
                                row[3],
                            ) == Step::Index(n);
                        assert(t@.contains(row));
                    },
                    _ => {},
                }
            }
        }
    }

    fn mark_accs(&self, st: &State, blocked: &Vec<bool>, Ghost(w): Ghost<Setting>) -> (t: Table)
        requires
            st.tables_ok(),
            self.ok(st.store@, w),
            blocked@.len() == st.pending@.len(),
            forall|j: int|
                0 <= j < st.pending@.len() ==> blocked@[j] == w.blocked(
                    st.said(),
                    st.pending_of(#[trigger] st.pending@[j]).0,
                    st.pending_of(st.pending@[j]).1,
                ),
        ensures
            t.wf(),
            accs_ok(t@, st.store@, w, st.said()),
    {
        let ghost c = st.store@;
        let ghost m = st.said();
        let mut t = Table::new();
        let mut i: usize = 0;
        while i < st.pending.len()
            invariant
                i <= st.pending@.len(),
                st.tables_ok(),
                self.ok(c, w),
                c == st.store@,
                m == st.said(),
                blocked@.len() == st.pending@.len(),
                forall|j: int|
                    0 <= j < st.pending@.len() ==> blocked@[j] == w.blocked(
                        st.said(),
                        st.pending_of(#[trigger] st.pending@[j]).0,
                        st.pending_of(st.pending@[j]).1,
                    ),
                t.wf(),
                forall|row: Seq<usize>| #[trigger]
                    t@.contains(row) ==> row.len() == 4 && row[0] < c.names.len() && row[1]
                        < c.insts.len() && step_ok(c.names, row[2], row[3]) && w.index_acc(
                        m,
                        c.name(row[0]),
                        c.inst(row[1]),
                        step_of(c.names, row[2], row[3]),
                    ),
                forall|j: int, acc: Step|
                    #![trigger st.pending@[j], w.index_acc(
                        m,
                        st.pending_of(st.pending@[j]).0,
                        st.pending_of(st.pending@[j]).1,
                        acc,
                    )]
                    0 <= j < i && w.index_acc(
                        m,
                        st.pending_of(st.pending@[j]).0,
                        st.pending_of(st.pending@[j]).1,
                        acc,
                    ) ==> exists|row: Seq<usize>| #[trigger]
                        t@.contains(row) && row[0] == st.pending@[j][0] && row[1]
                            == st.pending@[j][1] && step_of(c.names, row[2], row[3]) == acc,
            decreases st.pending@.len() - i,
        {
            let ghost prow = st.pending@[i as int];
            proof {
                assert(st.pending_ok(prow));
                assert(st.pending@.contains(prow));
                st.lemma_row_pending(prow);
            }
            let p: usize = st.pending.at(i, 0);
            let id: usize = st.pending.at(i, 1);
            let ghost t0 = t@;
            self.add_accs(&mut t, st, p, id, blocked[i], Ghost(w));
            proof {
                assert forall|j: int, acc: Step|
                    #![trigger st.pending@[j], w.index_acc(
                        m,
                        st.pending_of(st.pending@[j]).0,
                        st.pending_of(st.pending@[j]).1,
                        acc,
                    )]
                    0 <= j < i + 1 && w.index_acc(
                        m,
                        st.pending_of(st.pending@[j]).0,
                        st.pending_of(st.pending@[j]).1,
                        acc,
                    ) implies exists|row: Seq<usize>| #[trigger]
                    t@.contains(row) && row[0] == st.pending@[j][0] && row[1] == st.pending@[j][1]
                        && step_of(c.names, row[2], row[3]) == acc by {
                    if j < i {
                        let row = choose|row: Seq<usize>| #[trigger]
                            t0.contains(row) && row[0] == st.pending@[j][0] && row[1]
                                == st.pending@[j][1] && step_of(c.names, row[2], row[3]) == acc;
                        assert(t@.contains(row));
                    } else {
                        assert(w.index_acc(m, c.name(p), c.inst(id), acc));
                    }
                }
            }
            i += 1;
        }
        proof {
            assert forall|j: int| 0 <= j < t@.len() implies (#[trigger] t@[j]).len() == 4
                && t@[j][0]
                < c.names.len() && t@[j][1] < c.insts.len() && step_ok(c.names, t@[j][2], t@[j][3])
                && w.index_acc(
                m,
                c.name(t@[j][0]),
                c.inst(t@[j][1]),
                step_of(c.names, t@[j][2], t@[j][3]),
            ) by {
                assert(t@.contains(t@[j]));
            }
            assert forall|p: Name, id: Instance, acc: Step| #[trigger]
                w.index_acc(m, p, id, acc) implies exists|i: int|
                0 <= i < t@.len() && c.name((#[trigger] t@[i])[0]) == p && c.inst(t@[i][1]) == id
                    && step_of(c.names, t@[i][2], t@[i][3]) == acc by {
                let j = st.lemma_pending_row((p, id));
                assert(w.index_acc(
                    m,
                    st.pending_of(st.pending@[j]).0,
                    st.pending_of(st.pending@[j]).1,
                    acc,
                ));
                let row = choose|row: Seq<usize>| #[trigger]
                    t@.contains(row) && row[0] == st.pending@[j][0] && row[1] == st.pending@[j][1]
                        && step_of(c.names, row[2], row[3]) == acc;
                let i = choose|i: int| 0 <= i < t@.len() && t@[i] == row;
                assert(c.name(t@[i][0]) == p);
            }
        }
        t
    }

    /// The marks of a state.
    pub fn mark(&self, st: &State, Ghost(w): Ghost<Setting>) -> (r: Marks)
        requires
            st.tables_ok(),
            self.ok(st.store@, w),
        ensures
            r.ok(*st, w),
    {
        let blocked = self.mark_blocked(st, Ghost(w));
        let resolves = self.mark_resolves(st, &blocked, Ghost(w));
        let accs = self.mark_accs(st, &blocked, Ghost(w));
        Marks { blocked, resolves, accs }
    }
}

} // verus!
