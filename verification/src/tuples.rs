//! Relations as lists of tuples: what a list says, and making one from rows.
use vstd::prelude::*;

use crate::access_path::{Base, CritId, Instance, Root};
use crate::codes::{Codes, Key, Store};
use crate::facts::{means_one, means_two, one_ok, one_row, two_ok, two_row};
use crate::ir::{ArgIdx, Name, Proc, Stmt, Symbol};
use crate::table::Table;

verus! {

/// The tuples of a list, by their models.
pub open spec fn tuples<T: View>(v: Seq<T>) -> Set<T::V> {
    Set::new(|x: T::V| exists|i: int| 0 <= i < v.len() && (#[trigger] v[i])@ == x)
}

/// No two entries of a list have the same model.
pub open spec fn distinct<T: View>(v: Seq<T>) -> bool {
    forall|i: int, j: int| 0 <= i < j < v.len() ==> (#[trigger] v[i])@ != (#[trigger] v[j])@
}

/// A list holds exactly the tuples of a relation, each once.
pub open spec fn exact<T: View>(v: Seq<T>, rel: Set<T::V>) -> bool {
    tuples(v) == rel && distinct(v)
}

/// The list of what `f` makes of `0`, ..., `n - 1`.
pub fn collect<T: View, F: Fn(usize) -> T>(
    n: usize,
    f: F,
    Ghost(dec): Ghost<spec_fn(int) -> T::V>,
    Ghost(rel): Ghost<Set<T::V>>,
) -> (r: Vec<T>)
    requires
        forall|i: usize| i < n ==> #[trigger] call_requires(f, (i,)),
        forall|i: usize, x: T| i < n && #[trigger] call_ensures(f, (i,), x) ==> x@ == dec(i as int),
        forall|i: int| 0 <= i < n ==> rel.contains(#[trigger] dec(i)),
        forall|x: T::V| #[trigger] rel.contains(x) ==> exists|i: int| 0 <= i < n
            && #[trigger] dec(i) == x,
        forall|i: int, j: int| 0 <= i < j < n ==> #[trigger] dec(i) != #[trigger] dec(j),
    ensures
        exact(r@, rel),
{
    let mut r: Vec<T> = Vec::new();
    let mut i: usize = 0;
    while i < n
        invariant
            i <= n,
            r@.len() == i,
            forall|i: usize| i < n ==> #[trigger] call_requires(f, (i,)),
            forall|i: usize, x: T|
                i < n && #[trigger] call_ensures(f, (i,), x) ==> x@ == dec(i as int),
            forall|j: int| 0 <= j < i ==> (#[trigger] r@[j])@ == dec(j),
        decreases n - i,
    {
        let x = f(i);
        r.push(x);
        i += 1;
    }
    proof {
        assert(tuples(r@) =~= rel) by {
            assert forall|x: T::V| rel.contains(x) implies #[trigger] tuples(r@).contains(x) by {
                let i = choose|i: int| 0 <= i < n && #[trigger] dec(i) == x;
                assert(r@[i]@ == x);
            }
        }
    }
    r
}

/// A relation over one symbol, as a set of tuples.
pub open spec fn single(rel: Set<Name>) -> Set<(Name,)> {
    Set::new(|x: (Name,)| rel.contains(x.0))
}

/// The rows `[p, id]` stand for a relation between holders and instances.
pub open spec fn means_held(t: Seq<Seq<usize>>, c: Codes, rel: Set<(Name, Instance)>) -> bool {
    &&& forall|i: int|
        0 <= i < t.len() ==> (#[trigger] t[i]).len() == 2 && t[i][0] < c.names.len() && t[i][1]
            < c.insts.len() && rel.contains((c.name(t[i][0]), c.inst(t[i][1])))
    &&& forall|x: (Name, Instance)| #[trigger]
        rel.contains(x) ==> exists|i: int|
            0 <= i < t.len() && (c.name((#[trigger] t[i])[0]), c.inst(t[i][1])) == x
}

/// The rows `[p, id, i]`.
pub open spec fn means_fed(t: Seq<Seq<usize>>, c: Codes, rel: Set<(Name, Instance, usize)>)
    -> bool {
    &&& forall|i: int|
        0 <= i < t.len() ==> (#[trigger] t[i]).len() == 3 && t[i][0] < c.names.len() && t[i][1]
            < c.insts.len() && rel.contains((c.name(t[i][0]), c.inst(t[i][1]), t[i][2]))
    &&& forall|x: (Name, Instance, usize)| #[trigger]
        rel.contains(x) ==> exists|i: int|
            0 <= i < t.len() && (c.name((#[trigger] t[i])[0]), c.inst(t[i][1]), t[i][2]) == x
}

/// The rows `[p, v, i]`.
pub open spec fn means_carried(
    t: Seq<Seq<usize>>,
    c: Codes,
    rel: Set<(Name, Name, usize)>,
) -> bool {
    &&& forall|i: int|
        0 <= i < t.len() ==> (#[trigger] t[i]).len() == 3 && t[i][0] < c.names.len() && t[i][1]
            < c.names.len() && rel.contains((c.name(t[i][0]), c.name(t[i][1]), t[i][2]))
    &&& forall|x: (Name, Name, usize)| #[trigger]
        rel.contains(x) ==> exists|i: int|
            0 <= i < t.len() && (c.name((#[trigger] t[i])[0]), c.name(t[i][1]), t[i][2]) == x
}

/// The rows `[id]`.
pub open spec fn means_inst(t: Seq<Seq<usize>>, c: Codes, rel: Set<(Instance,)>) -> bool {
    &&& forall|i: int|
        0 <= i < t.len() ==> (#[trigger] t[i]).len() == 1 && t[i][0] < c.insts.len()
            && rel.contains((c.inst(t[i][0]),))
    &&& forall|x: (Instance,)| #[trigger]
        rel.contains(x) ==> exists|i: int| 0 <= i < t.len() && (c.inst((#[trigger] t[i])[0]),) == x
}

/// The rows `[id, i]`.
pub open spec fn means_slots(t: Seq<Seq<usize>>, c: Codes, rel: Set<(Instance, usize)>) -> bool {
    &&& forall|i: int|
        0 <= i < t.len() ==> (#[trigger] t[i]).len() == 2 && t[i][0] < c.insts.len()
            && rel.contains((c.inst(t[i][0]), t[i][1]))
    &&& forall|x: (Instance, usize)| #[trigger]
        rel.contains(x) ==> exists|i: int|
            0 <= i < t.len() && (c.inst((#[trigger] t[i])[0]), t[i][1]) == x
}

/// The rows `[id, g]`.
pub open spec fn means_sigs(t: Seq<Seq<usize>>, c: Codes, rel: Set<(Instance, Name)>) -> bool {
    &&& forall|i: int|
        0 <= i < t.len() ==> (#[trigger] t[i]).len() == 2 && t[i][0] < c.insts.len() && t[i][1]
            < c.names.len() && rel.contains((c.inst(t[i][0]), c.name(t[i][1])))
    &&& forall|x: (Instance, Name)| #[trigger]
        rel.contains(x) ==> exists|i: int|
            0 <= i < t.len() && (c.inst((#[trigger] t[i])[0]), c.name(t[i][1])) == x
}

pub open spec fn key_at(row: Seq<usize>, j: int) -> Key {
    Key { tag: row[j], a: row[j + 1], b: row[j + 2] }
}

/// The rows of a procedure and a root.
pub open spec fn means_roots(t: Seq<Seq<usize>>, c: Codes, rel: Set<(Name, Root)>) -> bool {
    &&& forall|i: int|
        0 <= i < t.len() ==> (#[trigger] t[i]).len() == 4 && t[i][0] < c.names.len() && c.key_ok(
            key_at(t[i], 1),
        ) && rel.contains((c.name(t[i][0]), c.root(key_at(t[i], 1))))
    &&& forall|x: (Name, Root)| #[trigger]
        rel.contains(x) ==> exists|i: int|
            0 <= i < t.len() && (c.name((#[trigger] t[i])[0]), c.root(key_at(t[i], 1))) == x
}

/// The rows of a statement and two roots.
pub open spec fn means_maps(t: Seq<Seq<usize>>, c: Codes, rel: Set<(Name, Root, Root)>) -> bool {
    &&& forall|i: int|
        0 <= i < t.len() ==> (#[trigger] t[i]).len() == 7 && t[i][0] < c.names.len() && c.key_ok(
            key_at(t[i], 1),
        ) && c.key_ok(key_at(t[i], 4)) && rel.contains(
            (c.name(t[i][0]), c.root(key_at(t[i], 1)), c.root(key_at(t[i], 4))),
        )
    &&& forall|x: (Name, Root, Root)| #[trigger]
        rel.contains(x) ==> exists|i: int|
            0 <= i < t.len() && (
                c.name((#[trigger] t[i])[0]),
                c.root(key_at(t[i], 1)),
                c.root(key_at(t[i], 4)),
            ) == x
}

impl Store {
    pub fn list_one<A: Symbol>(&self, t: &Table, Ghost(rel): Ghost<Set<Name>>) -> (r: Vec<(A,)>)
        requires
            self.wf(),
            t.wf(),
            means_one(t@, self@.names, rel),
        ensures
            exact(r@, single(rel)),
    {
        let ghost c = self@;
        let n: usize = t.len();
        let ghost dec = |i: int| (c.name(t@[i][0]),);
        let f = |i: usize| -> (x: (A,))
            requires
                i < n,
            ensures
                x@ == dec(i as int),
        {
            proof {
                let i = i as int;
                assert(one_ok(self@.names, t@[i]));
            }
            let a: A = self.symbol(t.at(i, 0));
            (a,)
        };
        proof {
            t.lemma_distinct();
            assert forall|i: int| 0 <= i < n implies single(rel).contains(#[trigger] dec(i)) by {
                assert(one_ok(c.names, t@[i]));
            }
            assert forall|i: int, j: int| 0 <= i < j < n
                implies #[trigger] dec(i) != #[trigger] dec(j) by {
                assert(one_ok(c.names, t@[i]));
                assert(one_ok(c.names, t@[j]));
                if dec(i) == dec(j) {
                    c.lemma_name_injective(t@[i][0], t@[j][0]);
                    assert(t@[i] =~= t@[j]);
                }
            }
            assert forall|x: (Name,)| #[trigger] single(rel).contains(x) implies exists|i: int|
                0 <= i < n && #[trigger] dec(i) == x by {
                let i = choose|i: int| 0 <= i < t@.len()
                    && one_row(c.names, #[trigger] t@[i]) == x.0;
                assert(dec(i) == x);
            }
        }
        collect(n, f, Ghost(dec), Ghost(single(rel)))
    }

    pub fn list_two<A: Symbol,
        B: Symbol>(&self, t: &Table, Ghost(rel): Ghost<Set<(Name, Name)>>) -> (r: Vec<(A, B)>)
        requires
            self.wf(),
            t.wf(),
            means_two(t@, self@.names, rel),
        ensures
            exact(r@, rel),
    {
        let ghost c = self@;
        let n: usize = t.len();
        let ghost dec = |i: int| (c.name(t@[i][0]), c.name(t@[i][1]));
        let f = |i: usize| -> (x: (A, B))
            requires
                i < n,
            ensures
                x@ == dec(i as int),
        {
            proof {
                let i = i as int;
                assert(two_ok(self@.names, t@[i]));
            }
            let a: A = self.symbol(t.at(i, 0));
            let b: B = self.symbol(t.at(i, 1));
            (a, b)
        };
        proof {
            t.lemma_distinct();
            assert forall|i: int| 0 <= i < n implies rel.contains(#[trigger] dec(i)) by {
                assert(two_ok(c.names, t@[i]));
            }
            assert forall|i: int, j: int| 0 <= i < j < n
                implies #[trigger] dec(i) != #[trigger] dec(j) by {
                assert(two_ok(c.names, t@[i]));
                assert(two_ok(c.names, t@[j]));
                if dec(i) == dec(j) {
                    c.lemma_name_injective(t@[i][0], t@[j][0]);
                    c.lemma_name_injective(t@[i][1], t@[j][1]);
                    assert(t@[i] =~= t@[j]);
                }
            }
            assert forall|x: (Name, Name)| #[trigger] rel.contains(x) implies exists|i: int|
                0 <= i < n && #[trigger] dec(i) == x by {
                let i = choose|i: int| 0 <= i < t@.len() && two_row(c.names, #[trigger] t@[i]) == x;
                assert(dec(i) == x);
            }
        }
        collect(n, f, Ghost(dec), Ghost(rel))
    }

    pub fn list_held(&self, t: &Table, Ghost(rel): Ghost<Set<(Name, Instance)>>)
        -> (r: Vec<(Proc, CritId)>)
        requires
            self.wf(),
            t.wf(),
            means_held(t@, self@, rel),
        ensures
            exact(r@, rel),
    {
        let ghost c = self@;
        let n: usize = t.len();
        let ghost dec = |i: int| (c.name(t@[i][0]), c.inst(t@[i][1]));
        let f = |i: usize| -> (x: (Proc, CritId))
            requires
                i < n,
            ensures
                x@ == dec(i as int),
        {
            proof {
                let i = i as int;
                assert(t@[i].len() == 2 && t@[i][0] < self@.names.len()
                    && t@[i][1] < self@.insts.len());
            }
            let a: Proc = self.symbol(t.at(i, 0));
            let b = self.crit_id(t.at(i, 1));
            (a, b)
        };
        proof {
            t.lemma_distinct();
            assert forall|i: int| 0 <= i < n implies rel.contains(#[trigger] dec(i)) by {
                assert(t@[i].len() == 2 && t@[i][0] < c.names.len() && t@[i][1] < c.insts.len());
            }
            assert forall|i: int, j: int| 0 <= i < j < n
                implies #[trigger] dec(i) != #[trigger] dec(j) by {
                assert(t@[i].len() == 2 && t@[i][0] < c.names.len() && t@[i][1] < c.insts.len());
                assert(t@[j].len() == 2 && t@[j][0] < c.names.len() && t@[j][1] < c.insts.len());
                if dec(i) == dec(j) {
                    c.lemma_name_injective(t@[i][0], t@[j][0]);
                    c.lemma_inst_injective(t@[i][1], t@[j][1]);
                    assert(t@[i] =~= t@[j]);
                }
            }
            assert forall|x: (Name, Instance)| #[trigger] rel.contains(x) implies exists|i: int|
                0 <= i < n && #[trigger] dec(i) == x by {
                let i = choose|i: int| 0 <= i < t@.len()
                    && (c.name((#[trigger] t@[i])[0]), c.inst(t@[i][1])) == x;
                assert(dec(i) == x);
            }
        }
        collect(n, f, Ghost(dec), Ghost(rel))
    }

    pub fn list_fed(&self, t: &Table, Ghost(rel): Ghost<Set<(Name, Instance, usize)>>)
        -> (r: Vec<(Proc, CritId, ArgIdx)>)
        requires
            self.wf(),
            t.wf(),
            means_fed(t@, self@, rel),
        ensures
            exact(r@, rel),
    {
        let ghost c = self@;
        let n: usize = t.len();
        let ghost dec = |i: int| (c.name(t@[i][0]), c.inst(t@[i][1]), t@[i][2]);
        let f = |i: usize| -> (x: (Proc, CritId, ArgIdx))
            requires
                i < n,
            ensures
                x@ == dec(i as int),
        {
            proof {
                let i = i as int;
                assert(t@[i].len() == 3 && t@[i][0] < self@.names.len()
                    && t@[i][1] < self@.insts.len());
            }
            let a: Proc = self.symbol(t.at(i, 0));
            let b = self.crit_id(t.at(i, 1));
            let d: usize = t.at(i, 2);
            (a, b, d)
        };
        proof {
            t.lemma_distinct();
            assert forall|i: int| 0 <= i < n implies rel.contains(#[trigger] dec(i)) by {
                assert(t@[i].len() == 3 && t@[i][0] < c.names.len() && t@[i][1] < c.insts.len());
            }
            assert forall|i: int, j: int| 0 <= i < j < n
                implies #[trigger] dec(i) != #[trigger] dec(j) by {
                assert(t@[i].len() == 3 && t@[i][0] < c.names.len() && t@[i][1] < c.insts.len());
                assert(t@[j].len() == 3 && t@[j][0] < c.names.len() && t@[j][1] < c.insts.len());
                if dec(i) == dec(j) {
                    c.lemma_name_injective(t@[i][0], t@[j][0]);
                    c.lemma_inst_injective(t@[i][1], t@[j][1]);
                    assert(t@[i] =~= t@[j]);
                }
            }
            assert forall|x: (Name, Instance, usize)| #[trigger] rel.contains(x)
                implies exists|i: int|
                0 <= i < n && #[trigger] dec(i) == x by {
                let i = choose|i: int| 0 <= i < t@.len()
                    && (c.name((#[trigger] t@[i])[0]), c.inst(t@[i][1]), t@[i][2]) == x;
                assert(dec(i) == x);
            }
        }
        collect(n, f, Ghost(dec), Ghost(rel))
    }

    pub fn list_carried<B: Symbol>(&self, t: &Table, Ghost(rel): Ghost<Set<(Name, Name, usize)>>)
        -> (r: Vec<(Proc, B, ArgIdx)>)
        requires
            self.wf(),
            t.wf(),
            means_carried(t@, self@, rel),
        ensures
            exact(r@, rel),
    {
        let ghost c = self@;
        let n: usize = t.len();
        let ghost dec = |i: int| (c.name(t@[i][0]), c.name(t@[i][1]), t@[i][2]);
        let f = |i: usize| -> (x: (Proc, B, ArgIdx))
            requires
                i < n,
            ensures
                x@ == dec(i as int),
        {
            proof {
                let i = i as int;
                assert(t@[i].len() == 3 && t@[i][0] < self@.names.len()
                    && t@[i][1] < self@.names.len());
            }
            let a: Proc = self.symbol(t.at(i, 0));
            let b: B = self.symbol(t.at(i, 1));
            let d: usize = t.at(i, 2);
            (a, b, d)
        };
        proof {
            t.lemma_distinct();
            assert forall|i: int| 0 <= i < n implies rel.contains(#[trigger] dec(i)) by {
                assert(t@[i].len() == 3 && t@[i][0] < c.names.len() && t@[i][1] < c.names.len());
            }
            assert forall|i: int, j: int| 0 <= i < j < n
                implies #[trigger] dec(i) != #[trigger] dec(j) by {
                assert(t@[i].len() == 3 && t@[i][0] < c.names.len() && t@[i][1] < c.names.len());
                assert(t@[j].len() == 3 && t@[j][0] < c.names.len() && t@[j][1] < c.names.len());
                if dec(i) == dec(j) {
                    c.lemma_name_injective(t@[i][0], t@[j][0]);
                    c.lemma_name_injective(t@[i][1], t@[j][1]);
                    assert(t@[i] =~= t@[j]);
                }
            }
            assert forall|x: (Name, Name, usize)| #[trigger] rel.contains(x) implies exists|i: int|
                0 <= i < n && #[trigger] dec(i) == x by {
                let i = choose|i: int| 0 <= i < t@.len()
                    && (c.name((#[trigger] t@[i])[0]), c.name(t@[i][1]), t@[i][2]) == x;
                assert(dec(i) == x);
            }
        }
        collect(n, f, Ghost(dec), Ghost(rel))
    }

    pub fn list_inst(&self, t: &Table, Ghost(rel): Ghost<Set<(Instance,)>>) -> (r: Vec<(CritId,)>)
        requires
            self.wf(),
            t.wf(),
            means_inst(t@, self@, rel),
        ensures
            exact(r@, rel),
    {
        let ghost c = self@;
        let n: usize = t.len();
        let ghost dec = |i: int| (c.inst(t@[i][0]),);
        let f = |i: usize| -> (x: (CritId,))
            requires
                i < n,
            ensures
                x@ == dec(i as int),
        {
            proof {
                let i = i as int;
                assert(t@[i].len() == 1 && t@[i][0] < self@.insts.len());
            }
            let a = self.crit_id(t.at(i, 0));
            (a,)
        };
        proof {
            t.lemma_distinct();
            assert forall|i: int| 0 <= i < n implies rel.contains(#[trigger] dec(i)) by {
                assert(t@[i].len() == 1 && t@[i][0] < c.insts.len());
            }
            assert forall|i: int, j: int| 0 <= i < j < n
                implies #[trigger] dec(i) != #[trigger] dec(j) by {
                assert(t@[i].len() == 1 && t@[i][0] < c.insts.len());
                assert(t@[j].len() == 1 && t@[j][0] < c.insts.len());
                if dec(i) == dec(j) {
                    c.lemma_inst_injective(t@[i][0], t@[j][0]);
                    assert(t@[i] =~= t@[j]);
                }
            }
            assert forall|x: (Instance,)| #[trigger] rel.contains(x) implies exists|i: int|
                0 <= i < n && #[trigger] dec(i) == x by {
                let i = choose|i: int| 0 <= i < t@.len() && (c.inst((#[trigger] t@[i])[0]),) == x;
                assert(dec(i) == x);
            }
        }
        collect(n, f, Ghost(dec), Ghost(rel))
    }

    pub fn list_slots(&self, t: &Table, Ghost(rel): Ghost<Set<(Instance, usize)>>)
        -> (r: Vec<(CritId, ArgIdx)>)
        requires
            self.wf(),
            t.wf(),
            means_slots(t@, self@, rel),
        ensures
            exact(r@, rel),
    {
        let ghost c = self@;
        let n: usize = t.len();
        let ghost dec = |i: int| (c.inst(t@[i][0]), t@[i][1]);
        let f = |i: usize| -> (x: (CritId, ArgIdx))
            requires
                i < n,
            ensures
                x@ == dec(i as int),
        {
            proof {
                let i = i as int;
                assert(t@[i].len() == 2 && t@[i][0] < self@.insts.len());
            }
            let a = self.crit_id(t.at(i, 0));
            let b: usize = t.at(i, 1);
            (a, b)
        };
        proof {
            t.lemma_distinct();
            assert forall|i: int| 0 <= i < n implies rel.contains(#[trigger] dec(i)) by {
                assert(t@[i].len() == 2 && t@[i][0] < c.insts.len());
            }
            assert forall|i: int, j: int| 0 <= i < j < n
                implies #[trigger] dec(i) != #[trigger] dec(j) by {
                assert(t@[i].len() == 2 && t@[i][0] < c.insts.len());
                assert(t@[j].len() == 2 && t@[j][0] < c.insts.len());
                if dec(i) == dec(j) {
                    c.lemma_inst_injective(t@[i][0], t@[j][0]);
                    assert(t@[i] =~= t@[j]);
                }
            }
            assert forall|x: (Instance, usize)| #[trigger] rel.contains(x) implies exists|i: int|
                0 <= i < n && #[trigger] dec(i) == x by {
                let i = choose|i: int| 0 <= i < t@.len()
                    && (c.inst((#[trigger] t@[i])[0]), t@[i][1]) == x;
                assert(dec(i) == x);
            }
        }
        collect(n, f, Ghost(dec), Ghost(rel))
    }

    pub fn list_sigs<B: Symbol>(&self, t: &Table, Ghost(rel): Ghost<Set<(Instance, Name)>>)
        -> (r: Vec<(CritId, B)>)
        requires
            self.wf(),
            t.wf(),
            means_sigs(t@, self@, rel),
        ensures
            exact(r@, rel),
    {
        let ghost c = self@;
        let n: usize = t.len();
        let ghost dec = |i: int| (c.inst(t@[i][0]), c.name(t@[i][1]));
        let f = |i: usize| -> (x: (CritId, B))
            requires
                i < n,
            ensures
                x@ == dec(i as int),
        {
            proof {
                let i = i as int;
                assert(t@[i].len() == 2 && t@[i][0] < self@.insts.len()
                    && t@[i][1] < self@.names.len());
            }
            let a = self.crit_id(t.at(i, 0));
            let b: B = self.symbol(t.at(i, 1));
            (a, b)
        };
        proof {
            t.lemma_distinct();
            assert forall|i: int| 0 <= i < n implies rel.contains(#[trigger] dec(i)) by {
                assert(t@[i].len() == 2 && t@[i][0] < c.insts.len() && t@[i][1] < c.names.len());
            }
            assert forall|i: int, j: int| 0 <= i < j < n
                implies #[trigger] dec(i) != #[trigger] dec(j) by {
                assert(t@[i].len() == 2 && t@[i][0] < c.insts.len() && t@[i][1] < c.names.len());
                assert(t@[j].len() == 2 && t@[j][0] < c.insts.len() && t@[j][1] < c.names.len());
                if dec(i) == dec(j) {
                    c.lemma_inst_injective(t@[i][0], t@[j][0]);
                    c.lemma_name_injective(t@[i][1], t@[j][1]);
                    assert(t@[i] =~= t@[j]);
                }
            }
            assert forall|x: (Instance, Name)| #[trigger] rel.contains(x) implies exists|i: int|
                0 <= i < n && #[trigger] dec(i) == x by {
                let i = choose|i: int| 0 <= i < t@.len()
                    && (c.inst((#[trigger] t@[i])[0]), c.name(t@[i][1])) == x;
                assert(dec(i) == x);
            }
        }
        collect(n, f, Ghost(dec), Ghost(rel))
    }

    pub fn list_roots(&self, t: &Table, Ghost(rel): Ghost<Set<(Name, Root)>>)
        -> (r: Vec<(Proc, Base)>)
        requires
            self.wf(),
            t.wf(),
            means_roots(t@, self@, rel),
        ensures
            exact(r@, rel),
    {
        let ghost c = self@;
        let n: usize = t.len();
        let ghost dec = |i: int| (c.name(t@[i][0]), c.root(key_at(t@[i], 1)));
        let f = |i: usize| -> (x: (Proc, Base))
            requires
                i < n,
            ensures
                x@ == dec(i as int),
        {
            proof {
                let i = i as int;
                assert(t@[i].len() == 4 && t@[i][0] < self@.names.len()
                    && self@.key_ok(key_at(t@[i], 1)));
            }
            let a: Proc = self.symbol(t.at(i, 0));
            let b = self.base(Key { tag: t.at(i, 1), a: t.at(i, 2), b: t.at(i, 3) });
            (a, b)
        };
        proof {
            t.lemma_distinct();
            assert forall|i: int| 0 <= i < n implies rel.contains(#[trigger] dec(i)) by {
                assert(t@[i].len() == 4 && t@[i][0] < c.names.len() && c.key_ok(key_at(t@[i], 1)));
            }
            assert forall|i: int, j: int| 0 <= i < j < n
                implies #[trigger] dec(i) != #[trigger] dec(j) by {
                assert(t@[i].len() == 4 && t@[i][0] < c.names.len() && c.key_ok(key_at(t@[i], 1)));
                assert(t@[j].len() == 4 && t@[j][0] < c.names.len() && c.key_ok(key_at(t@[j], 1)));
                if dec(i) == dec(j) {
                    c.lemma_name_injective(t@[i][0], t@[j][0]);
                    c.lemma_root_injective(key_at(t@[i], 1), key_at(t@[j], 1));
                    assert(t@[i] =~= t@[j]);
                }
            }
            assert forall|x: (Name, Root)| #[trigger] rel.contains(x) implies exists|i: int|
                0 <= i < n && #[trigger] dec(i) == x by {
                let i = choose|i: int| 0 <= i < t@.len()
                    && (c.name((#[trigger] t@[i])[0]), c.root(key_at(t@[i], 1))) == x;
                assert(dec(i) == x);
            }
        }
        collect(n, f, Ghost(dec), Ghost(rel))
    }

    pub fn list_maps(&self, t: &Table, Ghost(rel): Ghost<Set<(Name, Root, Root)>>)
        -> (r: Vec<(Stmt, Base, Base)>)
        requires
            self.wf(),
            t.wf(),
            means_maps(t@, self@, rel),
        ensures
            exact(r@, rel),
    {
        let ghost c = self@;
        let n: usize = t.len();
        let ghost dec = |i: int| (c.name(t@[i][0]), c.root(key_at(t@[i], 1)),
            c.root(key_at(t@[i], 4)));
        let f = |i: usize| -> (x: (Stmt, Base, Base))
            requires
                i < n,
            ensures
                x@ == dec(i as int),
        {
            proof {
                let i = i as int;
                assert(t@[i].len() == 7 && t@[i][0] < self@.names.len()
                    && self@.key_ok(key_at(t@[i], 1)) && self@.key_ok(key_at(t@[i], 4)));
            }
            let a: Stmt = self.symbol(t.at(i, 0));
            let b = self.base(Key { tag: t.at(i, 1), a: t.at(i, 2), b: t.at(i, 3) });
            let d = self.base(Key { tag: t.at(i, 4), a: t.at(i, 5), b: t.at(i, 6) });
            (a, b, d)
        };
        proof {
            t.lemma_distinct();
            assert forall|i: int| 0 <= i < n implies rel.contains(#[trigger] dec(i)) by {
                assert(t@[i].len() == 7 && t@[i][0] < c.names.len() && c.key_ok(key_at(t@[i], 1))
                    && c.key_ok(key_at(t@[i], 4)));
            }
            assert forall|i: int, j: int| 0 <= i < j < n
                implies #[trigger] dec(i) != #[trigger] dec(j) by {
                assert(t@[i].len() == 7 && t@[i][0] < c.names.len() && c.key_ok(key_at(t@[i], 1))
                    && c.key_ok(key_at(t@[i], 4)));
                assert(t@[j].len() == 7 && t@[j][0] < c.names.len() && c.key_ok(key_at(t@[j], 1))
                    && c.key_ok(key_at(t@[j], 4)));
                if dec(i) == dec(j) {
                    c.lemma_name_injective(t@[i][0], t@[j][0]);
                    c.lemma_root_injective(key_at(t@[i], 1), key_at(t@[j], 1));
                    c.lemma_root_injective(key_at(t@[i], 4), key_at(t@[j], 4));
                    assert(t@[i] =~= t@[j]);
                }
            }
            assert forall|x: (Name, Root, Root)| #[trigger] rel.contains(x) implies exists|i: int|
                0 <= i < n && #[trigger] dec(i) == x by {
                let i = choose|i: int| 0 <= i < t@.len()
                    && (c.name((#[trigger] t@[i])[0]), c.root(key_at(t@[i], 1)),
                    c.root(key_at(t@[i], 4))) == x;
                assert(dec(i) == x);
            }
        }
        collect(n, f, Ghost(dec), Ghost(rel))
    }

}

} // verus!
