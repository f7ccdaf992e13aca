//! The syntactic stratum, computed to its least model: which locals definitely
//! carry a formal's value, and which deciding operands are fed from one.
use vstd::prelude::*;

use crate::access_path::Instance;
use crate::codes::{initial, Store};
use crate::derived::{critical_set, site_set, Derived};
use crate::facts::{
    four_ok, four_row, homes, indexed_ok, indexed_row, lemma_find_four, lemma_find_indexed,
    lemma_find_one, lemma_find_three, lemma_find_two, one_ok, one_row, three_ok, three_row, two_ok,
    two_row, Facts,
};
use crate::ir::{ArgIdx, Edb, Name};
use crate::rules::{lemma_syn_monotone, Syn};
use crate::table::Table;

verus! {

/// The stratum so far.
pub struct Draft {
    pub store: Store,
    /// A procedure, a local and a position.
    pub carries: Table,
    /// A procedure, an instance and a position.
    pub slots: Table,
}

impl Draft {
    pub open spec fn carry_ok(&self, row: Seq<usize>) -> bool {
        row.len() == 3 && row[0] < self.store@.names.len() && row[1] < self.store@.names.len()
    }

    pub open spec fn slot_ok(&self, row: Seq<usize>) -> bool {
        row.len() == 3 && row[0] < self.store@.names.len() && row[1] < self.store@.insts.len()
    }

    pub open spec fn wf(&self) -> bool {
        &&& self.store.wf()
        &&& self.carries.wf()
        &&& self.slots.wf()
        &&& forall|i: int|
            0 <= i < self.carries@.len() ==> self.carry_ok(#[trigger] self.carries@[i])
        &&& forall|i: int| 0 <= i < self.slots@.len() ==> self.slot_ok(#[trigger] self.slots@[i])
    }

    pub open spec fn carry_of(&self, row: Seq<usize>) -> (Name, Name, ArgIdx) {
        (self.store@.name(row[0]), self.store@.name(row[1]), row[2])
    }

    pub open spec fn slot_of(&self, row: Seq<usize>) -> (Name, Instance, ArgIdx) {
        (self.store@.name(row[0]), self.store@.inst(row[1]), row[2])
    }

    pub closed spec fn said(&self) -> Syn {
        Syn {
            carries: Set::new(
                |x: (Name, Name, ArgIdx)|
                    exists|j: int|
                        0 <= j < self.carries@.len() && self.carry_of(#[trigger] self.carries@[j])
                            == x,
            ),
            slots: Set::new(
                |x: (Name, Instance, ArgIdx)|
                    exists|j: int|
                        0 <= j < self.slots@.len() && self.slot_of(#[trigger] self.slots@[j]) == x,
            ),
        }
    }

    pub open spec fn le(&self, other: &Draft) -> bool {
        &&& self.store@.le(other.store@)
        &&& initial(self.carries@, other.carries@)
        &&& initial(self.slots@, other.slots@)
    }

    pub proof fn lemma_le_trans(&self, b: &Draft, c: &Draft)
        requires
            self.le(b),
            b.le(c),
        ensures
            self.le(c),
    {
        self.store@.lemma_le_trans(b.store@, c.store@);
        assert forall|i: int| 0 <= i < self.carries@.len() implies #[trigger] c.carries@[i]
            == self.carries@[i] by {
            assert(b.carries@[i] == self.carries@[i]);
        }
        assert forall|i: int| 0 <= i < self.slots@.len() implies #[trigger] c.slots@[i]
            == self.slots@[i] by {
            assert(b.slots@[i] == self.slots@[i]);
        }
    }

    pub proof fn lemma_grow(&self, other: &Draft)
        requires
            self.wf(),
            self.le(other),
        ensures
            self.said().le(other.said()),
            forall|i: int|
                0 <= i < self.slots@.len() ==> other.slot_of(#[trigger] self.slots@[i])
                    == self.slot_of(self.slots@[i]),
    {
        self.store@.lemma_grow(other.store@);
        assert forall|i: int| 0 <= i < self.slots@.len() implies other.slot_of(
            #[trigger] self.slots@[i],
        ) == self.slot_of(self.slots@[i]) by {
            assert(self.slot_ok(self.slots@[i]));
        }
        assert forall|x: (Name, Name, ArgIdx)| self.said().carries.contains(x)
            implies #[trigger] other.said().carries.contains(
            x,
        ) by {
            let j = choose|j: int|
                0 <= j < self.carries@.len() && self.carry_of(#[trigger] self.carries@[j]) == x;
            assert(other.carry_of(other.carries@[j]) == x);
        }
        assert forall|x: (Name, Instance, ArgIdx)| self.said().slots.contains(x)
            implies #[trigger] other.said().slots.contains(
            x,
        ) by {
            let j = choose|j: int|
                0 <= j < self.slots@.len() && self.slot_of(#[trigger] self.slots@[j]) == x;
            assert(other.slot_of(other.slots@[j]) == x);
        }
    }

    pub proof fn lemma_carry_row(&self, x: (Name, Name, ArgIdx)) -> (j: int)
        requires
            self.wf(),
            self.said().carries.contains(x),
        ensures
            0 <= j < self.carries@.len(),
            self.carry_of(self.carries@[j]) == x,
            self.carry_ok(self.carries@[j]),
    {
        choose|j: int|
            0 <= j < self.carries@.len() && self.carry_of(#[trigger] self.carries@[j]) == x
    }

    pub proof fn lemma_slot_row(&self, x: (Name, Instance, ArgIdx)) -> (j: int)
        requires
            self.wf(),
            self.said().slots.contains(x),
        ensures
            0 <= j < self.slots@.len(),
            self.slot_of(self.slots@[j]) == x,
            self.slot_ok(self.slots@[j]),
    {
        choose|j: int| 0 <= j < self.slots@.len() && self.slot_of(#[trigger] self.slots@[j]) == x
    }

    pub proof fn lemma_row_carry(&self, j: int)
        requires
            0 <= j < self.carries@.len(),
        ensures
            self.said().carries.contains(self.carry_of(self.carries@[j])),
    {
        assert(self.carry_of(self.carries@[j]) == self.carry_of(self.carries@[j]));
    }

    pub proof fn lemma_row_slot(&self, j: int)
        requires
            0 <= j < self.slots@.len(),
        ensures
            self.said().slots.contains(self.slot_of(self.slots@[j])),
    {
        assert(self.slot_of(self.slots@[j]) == self.slot_of(self.slots@[j]));
    }

    /// Everything in `m` is in every stratum closed under the rules.
    pub open spec fn follows(e: Edb, k: nat, m: Syn) -> bool {
        forall|other: Syn| #[trigger] other.closed_under(e, k) ==> m.le(other)
    }

    pub open spec fn sound(e: Edb, k: nat, a: Draft, b: Draft) -> bool {
        b.wf() && a.le(&b) && Self::follows(e, k, b.said())
    }

    /// Add a carried value.
    fn derive_carry(
        &mut self,
        p: usize,
        v: usize,
        i: usize,
        Ghost(e): Ghost<Edb>,
        Ghost(k): Ghost<nat>,
    )
        requires
            old(self).wf(),
            Self::follows(e, k, old(self).said()),
            p < old(self).store@.names.len(),
            v < old(self).store@.names.len(),
            Syn::by_formal(e, old(self).store@.name(p), old(self).store@.name(v), i) || old(
                self,
            ).said().by_move(e, old(self).store@.name(p), old(self).store@.name(v), i),
        ensures
            Self::sound(e, k, *old(self), *final(self)),
            final(self).store == old(self).store,
            final(self).slots == old(self).slots,
            final(self).said().carries.contains(
                (old(self).store@.name(p), old(self).store@.name(v), i),
            ),
            old(self).said().le(final(self).said()),
    {
        let ghost s0 = *self;
        let ghost c = self.store@;
        let cells: Vec<usize> = vec![p, v, i];
        let ghost row = cells@;
        self.carries.insert(cells);
        proof {
            let x = (c.name(p), c.name(v), i);
            assert(self.carries@.contains(row));
            let j = choose|j: int| 0 <= j < self.carries@.len() && self.carries@[j] == row;
            assert(self.carry_of(self.carries@[j]) == x);
            assert(s0.le(self));
            assert forall|i: int| 0 <= i < self.carries@.len() implies self.carry_ok(
                #[trigger] self.carries@[i],
            ) by {
                if i < s0.carries@.len() {
                    assert(s0.carry_ok(s0.carries@[i]));
                }
            }
            assert forall|i: int| 0 <= i < self.slots@.len() implies self.slot_ok(
                #[trigger] self.slots@[i],
            ) by {
                assert(s0.slot_ok(s0.slots@[i]));
            }
            s0.lemma_grow(self);
            assert forall|other: Syn| #[trigger] other.closed_under(e, k) implies self.said().le(
                other,
            ) by {
                assert(s0.said().le(other));
                lemma_syn_monotone(e, k, s0.said(), other);
                assert(other.by_move(e, x.0, x.1, i) || Syn::by_formal(e, x.0, x.1, i));
                assert(other.by_move(e, x.0, x.1, i) ==> other.carries.contains((x.0, x.1, i)));
                assert(Syn::by_formal(e, x.0, x.1, i) ==> other.carries.contains((x.0, x.1, i)));
                assert(other.carries.contains((x.0, x.1, i)));
                assert forall|y: (Name, Name, ArgIdx)| self.said().carries.contains(y)
                    implies #[trigger] other.carries.contains(
                    y,
                ) by {
                    let z = choose|z: int|
                        0 <= z < self.carries@.len() && self.carry_of(#[trigger] self.carries@[z])
                            == y;
                    if z < s0.carries@.len() {
                        assert(s0.carry_of(s0.carries@[z]) == y);
                        assert(s0.said().carries.contains(y));
                    } else {
                        assert(self.carries@[z] == row);
                    }
                }
                assert forall|y: (Name, Instance, ArgIdx)| self.said().slots.contains(y)
                    implies #[trigger] other.slots.contains(
                    y,
                ) by {
                    let z = choose|z: int|
                        0 <= z < self.slots@.len() && self.slot_of(#[trigger] self.slots@[z]) == y;
                    assert(s0.slot_of(s0.slots@[z]) == y);
                    assert(s0.said().slots.contains(y));
                }
            }
        }
    }

    /// Add a slot that is fed from a formal.
    fn derive_slot(
        &mut self,
        p: usize,
        id: usize,
        i: usize,
        Ghost(e): Ghost<Edb>,
        Ghost(k): Ghost<nat>,
    )
        requires
            old(self).wf(),
            Self::follows(e, k, old(self).said()),
            p < old(self).store@.names.len(),
            id < old(self).store@.insts.len(),
            old(self).said().by_operand(e, old(self).store@.name(p), old(self).store@.inst(id), i)
                || old(self).said().by_argument(
                e,
                k,
                old(self).store@.name(p),
                old(self).store@.inst(id),
                i,
            ),
        ensures
            Self::sound(e, k, *old(self), *final(self)),
            final(self).store == old(self).store,
            final(self).carries == old(self).carries,
            final(self).said().carries == old(self).said().carries,
            final(self).said().slots.contains(
                (old(self).store@.name(p), old(self).store@.inst(id), i),
            ),
            old(self).said().le(final(self).said()),
    {
        let ghost s0 = *self;
        let ghost c = self.store@;
        let cells: Vec<usize> = vec![p, id, i];
        let ghost row = cells@;
        self.slots.insert(cells);
        proof {
            let x = (c.name(p), c.inst(id), i);
            assert(self.slots@.contains(row));
            let j = choose|j: int| 0 <= j < self.slots@.len() && self.slots@[j] == row;
            assert(self.slot_of(self.slots@[j]) == x);
            assert(s0.le(self));
            assert forall|i: int| 0 <= i < self.carries@.len() implies self.carry_ok(
                #[trigger] self.carries@[i],
            ) by {
                assert(s0.carry_ok(s0.carries@[i]));
            }
            assert forall|i: int| 0 <= i < self.slots@.len() implies self.slot_ok(
                #[trigger] self.slots@[i],
            ) by {
                if i < s0.slots@.len() {
                    assert(s0.slot_ok(s0.slots@[i]));
                }
            }
            s0.lemma_grow(self);
            assert(self.said().carries =~= s0.said().carries) by {
                assert forall|y: (Name, Name, ArgIdx)| self.said().carries.contains(y)
                    implies #[trigger] s0.said().carries.contains(
                    y,
                ) by {
                    let z = choose|z: int|
                        0 <= z < self.carries@.len() && self.carry_of(#[trigger] self.carries@[z])
                            == y;
                    assert(s0.carry_of(s0.carries@[z]) == y);
                }
            }
            assert forall|other: Syn| #[trigger] other.closed_under(e, k) implies self.said().le(
                other,
            ) by {
                assert(s0.said().le(other));
                lemma_syn_monotone(e, k, s0.said(), other);
                assert(other.by_operand(e, x.0, x.1, i) || other.by_argument(e, k, x.0, x.1, i));
                assert(other.by_operand(e, x.0, x.1, i) ==> other.slots.contains((x.0, x.1, i)));
                assert(other.by_argument(e, k, x.0, x.1, i) ==> other.slots.contains(
                    (x.0, x.1, i),
                ));
                assert(other.slots.contains((x.0, x.1, i)));
                assert forall|y: (Name, Instance, ArgIdx)| self.said().slots.contains(y)
                    implies #[trigger] other.slots.contains(
                    y,
                ) by {
                    let z = choose|z: int|
                        0 <= z < self.slots@.len() && self.slot_of(#[trigger] self.slots@[z]) == y;
                    if z < s0.slots@.len() {
                        assert(s0.slot_of(s0.slots@[z]) == y);
                        assert(s0.said().slots.contains(y));
                    } else {
                        assert(self.slots@[z] == row);
                    }
                }
            }
        }
    }

    /// Numbering more instances changes nothing of what is said.
    proof fn lemma_store_grow(&self, other: &Draft)
        requires
            self.wf(),
            self.carries == other.carries,
            self.slots == other.slots,
            self.store@.le(other.store@),
            other.store.wf(),
        ensures
            other.wf(),
            self.le(other),
            other.said() == self.said(),
    {
        self.store@.lemma_grow(other.store@);
        self.lemma_grow(other);
        assert forall|i: int| 0 <= i < other.slots@.len() implies other.slot_ok(
            #[trigger] other.slots@[i],
        ) by {
            assert(self.slot_ok(self.slots@[i]));
        }
        assert forall|i: int| 0 <= i < other.carries@.len() implies other.carry_ok(
            #[trigger] other.carries@[i],
        ) by {
            assert(self.carry_ok(self.carries@[i]));
        }
        assert(other.said().carries =~= self.said().carries) by {
            assert forall|y: (Name, Name, ArgIdx)| other.said().carries.contains(y)
                implies #[trigger] self.said().carries.contains(
                y,
            ) by {
                let z = choose|z: int|
                    0 <= z < other.carries@.len() && other.carry_of(#[trigger] other.carries@[z])
                        == y;
                assert(self.carry_of(self.carries@[z]) == y);
            }
        }
        assert(other.said().slots =~= self.said().slots) by {
            assert forall|y: (Name, Instance, ArgIdx)| other.said().slots.contains(y)
                implies #[trigger] self.said().slots.contains(
                y,
            ) by {
                let z = choose|z: int|
                    0 <= z < other.slots@.len() && other.slot_of(#[trigger] other.slots@[z]) == y;
                assert(self.slot_of(self.slots@[z]) == y);
            }
        }
    }

    /// The positions whose value a local carries.
    fn carried(&self, p: usize, v: usize) -> (r: Vec<usize>)
        requires
            self.wf(),
            p < self.store@.names.len(),
            v < self.store@.names.len(),
        ensures
            forall|i: usize| #[trigger]
                r@.contains(i) <==> self.said().carries.contains(
                    (self.store@.name(p), self.store@.name(v), i),
                ),
    {
        let ghost c = self.store@;
        let list = self.carries.heads(p);
        let mut r: Vec<usize> = Vec::new();
        let mut j: usize = 0;
        while j < list.len()
            invariant
                j <= list@.len(),
                self.wf(),
                c == self.store@,
                p < c.names.len(),
                v < c.names.len(),
                forall|z: int|
                    0 <= z < list@.len() ==> (#[trigger] list@[z]) < self.carries@.len()
                        && self.carries@[list@[z] as int][0] == p,
                forall|i: usize| #[trigger]
                    r@.contains(i) ==> self.said().carries.contains((c.name(p), c.name(v), i)),
                forall|z: int|
                    0 <= z < j && self.carries@[#[trigger] list@[z] as int][1] == v ==> r@.contains(
                        self.carries@[list@[z] as int][2],
                    ),
            decreases list@.len() - j,
        {
            let y: usize = list[j];
            proof {
                assert(self.carry_ok(self.carries@[y as int]));
            }
            if self.carries.at(y, 1) == v {
                let ghost before = r@;
                let x: usize = self.carries.at(y, 2);
                r.push(x);
                proof {
                    self.lemma_row_carry(y as int);
                    assert forall|i: usize| #[trigger] r@.contains(i) <==> before.contains(i) || i
                        == x by {
                        if before.contains(i) {
                            let q = choose|q: int| 0 <= q < before.len() && before[q] == i;
                            assert(r@[q] == i);
                        }
                        if i == x {
                            assert(r@[before.len() as int] == x);
                        }
                    }
                }
            }
            j += 1;
        }
        proof {
            assert forall|i: usize| self.said().carries.contains((c.name(p), c.name(v), i))
                implies #[trigger] r@.contains(
                i,
            ) by {
                let y = self.lemma_carry_row((c.name(p), c.name(v), i));
                let row = self.carries@[y];
                c.lemma_name_injective(row[0], p);
                c.lemma_name_injective(row[1], v);
                self.carries.lemma_distinct();
                assert(list@.contains(y as usize));
                let z = choose|z: int| 0 <= z < list@.len() && list@[z] == y as usize;
                assert(self.carries@[list@[z] as int][1] == v);
            }
        }
        r
    }

    // -- the rules ----------------------------------------------------------------

    fn fire_formals(&mut self, facts: &Facts, Ghost(e): Ghost<Edb>, Ghost(k): Ghost<nat>)
        requires
            old(self).wf(),
            Self::follows(e, k, old(self).said()),
            facts.ok(old(self).store@.names, e),
        ensures
            Self::sound(e, k, *old(self), *final(self)),
            forall|p: Name, v: Name, i: ArgIdx| #[trigger]
                Syn::by_formal(e, p, v, i) ==> final(self).said().carries.contains((p, v, i)),
    {
        let ghost s0 = *self;
        let ghost names = self.store@.names;
        let t = &facts.formal;
        let mut j: usize = 0;
        while j < t.len()
            invariant
                j <= t@.len(),
                t == &facts.formal,
                facts.ok(names, e),
                s0.wf(),
                Self::sound(e, k, s0, *self),
                self.store == s0.store,
                names == s0.store@.names,
                forall|z: int|
                    0 <= z < j ==> self.said().carries.contains(
                        (
                            names[(#[trigger] t@[z])[0] as int],
                            names[t@[z][2] as int],
                            t@[z][1],
                        ),
                    ),
            decreases t@.len() - j,
        {
            let ghost s1 = *self;
            proof {
                assert(indexed_ok(names, t@[j as int]));
                let x = indexed_row(names, t@[j as int]);
                assert(e.formal.contains((x.0, x.1, x.2)));
                assert(Syn::by_formal(e, x.0, x.2, x.1));
            }
            let p: usize = t.at(j, 0);
            let i: usize = t.at(j, 1);
            let v: usize = t.at(j, 2);
            self.derive_carry(p, v, i, Ghost(e), Ghost(k));
            proof {
                s0.lemma_le_trans(&s1, self);
            }
            j += 1;
        }
        proof {
            assert forall|p: Name, v: Name, i: ArgIdx| #[trigger]
                Syn::by_formal(e, p, v, i) implies self.said().carries.contains((p, v, i)) by {
                let z = lemma_find_indexed(t@, names, e.formal, (p, i, v));
                assert(self.said().carries.contains(
                    (names[t@[z][0] as int], names[t@[z][2] as int], t@[z][1]),
                ));
            }
        }
    }

    /// One move in one body.
    fn move_one(
        &mut self,
        s: usize,
        to: usize,
        from: usize,
        p: usize,
        Ghost(e): Ghost<Edb>,
        Ghost(k): Ghost<nat>,
    )
        requires
            old(self).wf(),
            Self::follows(e, k, old(self).said()),
            s < old(self).store@.names.len(),
            to < old(self).store@.names.len(),
            from < old(self).store@.names.len(),
            p < old(self).store@.names.len(),
            e.mov.contains(
                (
                    old(self).store@.name(s),
                    old(self).store@.name(to),
                    old(self).store@.name(from),
                ),
            ),
            e.stands_in(old(self).store@.name(s), old(self).store@.name(p)),
        ensures
            Self::sound(e, k, *old(self), *final(self)),
            final(self).store == old(self).store,
            old(self).said().le(final(self).said()),
            forall|i: ArgIdx| #[trigger]
                old(self).said().carries.contains(
                    (old(self).store@.name(p), old(self).store@.name(from), i),
                ) ==> final(self).said().carries.contains(
                    (old(self).store@.name(p), old(self).store@.name(to), i),
                ),
    {
        let ghost s0 = *self;
        let ghost c = self.store@;
        let list = self.carried(p, from);
        let mut j: usize = 0;
        while j < list.len()
            invariant
                j <= list@.len(),
                s0.wf(),
                Self::sound(e, k, s0, *self),
                s0.said().le(self.said()),
                self.store == s0.store,
                c == s0.store@,
                to < c.names.len(),
                p < c.names.len(),
                e.mov.contains((c.name(s), c.name(to), c.name(from))),
                e.stands_in(c.name(s), c.name(p)),
                forall|i: usize| #[trigger]
                    list@.contains(i) <==> s0.said().carries.contains((c.name(p), c.name(from), i)),
                forall|z: int|
                    0 <= z < j ==> self.said().carries.contains(
                        (c.name(p), c.name(to), #[trigger] list@[z]),
                    ),
            decreases list@.len() - j,
        {
            let i: usize = list[j];
            let ghost s1 = *self;
            proof {
                assert(list@.contains(i));
                assert(self.said().carries.contains((c.name(p), c.name(from), i)));
                assert(self.said().by_move(e, c.name(p), c.name(to), i));
            }
            self.derive_carry(p, to, i, Ghost(e), Ghost(k));
            proof {
                s0.lemma_le_trans(&s1, self);
            }
            j += 1;
        }
        proof {
            assert forall|i: ArgIdx| #[trigger]
                s0.said().carries.contains((c.name(p), c.name(from), i))
                    implies self.said().carries.contains(
            (c.name(p), c.name(to), i)) by {
                assert(list@.contains(i));
                let z = choose|z: int| 0 <= z < list@.len() && list@[z] == i;
                assert(self.said().carries.contains((c.name(p), c.name(to), list@[z])));
            }
        }
    }

    fn fire_moves(&mut self, facts: &Facts, Ghost(e): Ghost<Edb>, Ghost(k): Ghost<nat>)
        requires
            old(self).wf(),
            Self::follows(e, k, old(self).said()),
            facts.ok(old(self).store@.names, e),
        ensures
            Self::sound(e, k, *old(self), *final(self)),
            forall|p: Name, v: Name, i: ArgIdx| #[trigger]
                old(self).said().by_move(e, p, v, i) ==> final(self).said().carries.contains(
                    (p, v, i),
                ),
    {
        let ghost s0 = *self;
        let ghost names = self.store@.names;
        let t = &facts.mov;
        let places = &facts.homes;
        let mut j: usize = 0;
        while j < t.len()
            invariant
                j <= t@.len(),
                t == &facts.mov,
                places == &facts.homes,
                facts.ok(names, e),
                s0.wf(),
                Self::sound(e, k, s0, *self),
                s0.said().le(self.said()),
                self.store == s0.store,
                names == s0.store@.names,
                forall|z: int, h: int, i: ArgIdx|
                    #![trigger t@[z], places@[h],
                        s0.said().carries.contains((names[places@[h][1] as int],
                        names[t@[z][2] as int], i))]
                    0 <= z < j && 0 <= h < places@.len() && places@[h][0] == t@[z][0]
                        && s0.said().carries.contains(
                        (names[places@[h][1] as int], names[t@[z][2] as int], i),
                    ) ==> self.said().carries.contains(
                        (names[places@[h][1] as int], names[t@[z][1] as int], i),
                    ),
            decreases t@.len() - j,
        {
            proof {
                assert(three_ok(names, t@[j as int]));
                assert(e.mov.contains(three_row(names, t@[j as int])));
            }
            let s: usize = t.at(j, 0);
            let to: usize = t.at(j, 1);
            let from: usize = t.at(j, 2);
            let list = places.heads(s);
            let ghost sj = *self;
            let mut y: usize = 0;
            while y < list.len()
                invariant
                    y <= list@.len(),
                    j < t@.len(),
                    t == &facts.mov,
                    places == &facts.homes,
                    facts.ok(names, e),
                    s0.wf(),
                    Self::sound(e, k, s0, *self),
                    s0.said().le(self.said()),
                    sj.said().le(self.said()),
                    self.store == s0.store,
                    names == s0.store@.names,
                    s == t@[j as int][0],
                    to == t@[j as int][1],
                    from == t@[j as int][2],
                    three_ok(names, t@[j as int]),
                    e.mov.contains((names[s as int], names[to as int], names[from as int])),
                    forall|z: int|
                        0 <= z < list@.len() ==> (#[trigger] list@[z]) < places@.len()
                            && places@[list@[z] as int][0] == s,
                    forall|z: int, i: ArgIdx|
                        #![trigger list@[z], s0.said().carries.contains(
                            (names[places@[list@[z] as int][1] as int], names[from as int], i))]
                        0 <= z < y && s0.said().carries.contains(
                            (names[places@[list@[z] as int][1] as int], names[from as int], i),
                        ) ==> self.said().carries.contains(
                            (names[places@[list@[z] as int][1] as int], names[to as int], i),
                        ),
                decreases list@.len() - y,
            {
                let h: usize = list[y];
                let ghost s1 = *self;
                proof {
                    assert(two_ok(names, places@[h as int]));
                    assert(homes(e).contains(two_row(names, places@[h as int])));
                }
                let p: usize = places.at(h, 1);
                self.move_one(s, to, from, p, Ghost(e), Ghost(k));
                proof {
                    s0.lemma_le_trans(&s1, self);
                    assert forall|i: ArgIdx| #[trigger]
                        s0.said().carries.contains((names[p as int], names[from as int], i))
                            implies self.said().carries.contains(
                    (names[p as int], names[to as int], i)) by {
                        let c = s1.store@;
                        assert(s1.said().carries.contains((names[p as int], names[from as int],
                            i)));
                        assert(s1.said().carries.contains((c.name(p), c.name(from), i)));
                        assert(self.said().carries.contains((c.name(p), c.name(to), i)));
                    }
                }
                y += 1;
            }
            proof {
                assert forall|h: int, i: ArgIdx|
                    #![trigger places@[h], s0.said().carries.contains((names[places@[h][1] as int],
                        names[from as int], i))]
                    0 <= h < places@.len() && places@[h][0] == s && s0.said().carries.contains(
                        (names[places@[h][1] as int], names[from as int], i),
                    ) implies self.said().carries.contains(
                    (names[places@[h][1] as int], names[to as int], i),
                ) by {
                    places.lemma_distinct();
                    assert(two_ok(names, places@[h]));
                    assert(list@.contains(h as usize));
                    let z = choose|z: int| 0 <= z < list@.len() && list@[z] == h as usize;
                    assert(s0.said().carries.contains(
                        (names[places@[list@[z] as int][1] as int], names[from as int], i),
                    ));
                }
            }
            j += 1;
        }
        proof {
            self.store@.lemma_wf();
            assert forall|p: Name, v: Name, i: ArgIdx| #[trigger]
                s0.said().by_move(e, p, v, i) implies self.said().carries.contains((p, v, i)) by {
                let (s, from) = choose|s: Name, from: Name| #[trigger]
                    e.mov.contains((s, v, from)) && e.stands_in(s, p)
                        && s0.said().carries.contains((p, from, i));
                let z = lemma_find_three(t@, names, e.mov, (s, v, from));
                assert(homes(e).contains((s, p)));
                let h = lemma_find_two(places@, names, homes(e), (s, p));
                assert(places@[h][0] == t@[z][0]);
                assert(s0.said().carries.contains(
                    (names[places@[h][1] as int], names[t@[z][2] as int], i),
                ));
            }
        }
    }
}

/// The deciding operands of a statement.
fn decisive_vars(facts: &Facts, s: usize, Ghost(names): Ghost<Seq<Name>>, Ghost(e): Ghost<Edb>)
    -> (r:
    Vec<usize>)
    requires
        facts.ok(names, e),
        names.no_duplicates(),
        s < names.len(),
    ensures
        forall|v: usize| #[trigger]
            r@.contains(v) ==> v < names.len() && e.decisive_var(names[s as int], names[v as int]),
        forall|v: Name| #[trigger]
            e.decisive_var(names[s as int], v) ==> exists|x: usize|
                r@.contains(x) && #[trigger] names[x as int] == v,
{
    let calls = &facts.virtual_call;
    let loads = &facts.load_index_var;
    let stores = &facts.store_index_var;
    proof {
        assert forall|i: int| 0 <= i < calls@.len() implies 1 < (#[trigger] calls@[i]).len() by {
            assert(three_ok(names, calls@[i]));
        }
        assert forall|i: int| 0 <= i < loads@.len() implies 3 < (#[trigger] loads@[i]).len() by {
            assert(four_ok(names, loads@[i]));
        }
        assert forall|i: int| 0 <= i < stores@.len() implies 2 < (#[trigger] stores@[i]).len() by {
            assert(four_ok(names, stores@[i]));
        }
    }
    let a = calls.column(s, 1);
    let b = loads.column(s, 3);
    let d = stores.column(s, 2);
    let mut r: Vec<usize> = Vec::new();
    push_all(&mut r, &a);
    push_all(&mut r, &b);
    push_all(&mut r, &d);
    proof {
        let sn = names[s as int];
        assert forall|v: usize| #[trigger] r@.contains(v) implies v < names.len() && e.decisive_var(
            sn,
            names[v as int],
        ) by {
            if a@.contains(v) {
                let i = choose|i: int|
                    0 <= i < calls@.len() && (#[trigger] calls@[i])[0] == s && calls@[i][1] == v;
                assert(three_ok(names, calls@[i]));
                let x = three_row(names, calls@[i]);
                assert(e.virtual_call.contains((x.0, x.1, x.2)));
            } else if b@.contains(v) {
                let i = choose|i: int|
                    0 <= i < loads@.len() && (#[trigger] loads@[i])[0] == s && loads@[i][3] == v;
                assert(four_ok(names, loads@[i]));
                let x = four_row(names, loads@[i]);
                assert(e.load_index_var.contains((x.0, x.1, x.2, x.3)));
            } else {
                let i = choose|i: int|
                    0 <= i < stores@.len() && (#[trigger] stores@[i])[0] == s && stores@[i][2] == v;
                assert(four_ok(names, stores@[i]));
                let x = four_row(names, stores@[i]);
                assert(e.store_index_var.contains((x.0, x.1, x.2, x.3)));
            }
        }
        assert forall|v: Name| #[trigger] e.decisive_var(sn, v) implies exists|x: usize|
            r@.contains(x) && #[trigger] names[x as int] == v by {
            if exists|g: Name| e.virtual_call.contains((sn, v, g)) {
                let g = choose|g: Name| e.virtual_call.contains((sn, v, g));
                let i = lemma_find_three(calls@, names, e.virtual_call, (sn, v, g));
                assert(calls@[i][0] == s);
                assert(a@.contains(calls@[i][1]));
                assert(r@.contains(calls@[i][1]));
            } else if exists|to: Name, base: Name| e.load_index_var.contains((sn, to, base, v)) {
                let (to, base) = choose|to: Name, base: Name|
                    e.load_index_var.contains((sn, to, base, v));
                let i = lemma_find_four(loads@, names, e.load_index_var, (sn, to, base, v));
                assert(loads@[i][0] == s);
                assert(b@.contains(loads@[i][3]));
                assert(r@.contains(loads@[i][3]));
            } else {
                let (base, from) = choose|base: Name, from: Name|
                    e.store_index_var.contains((sn, base, v, from));
                let i = lemma_find_four(stores@, names, e.store_index_var, (sn, base, v, from));
                assert(stores@[i][0] == s);
                assert(d@.contains(stores@[i][2]));
                assert(r@.contains(stores@[i][2]));
            }
        }
    }
    r
}

/// The numbers of `list`, after those of `out`.
fn push_all(out: &mut Vec<usize>, list: &Vec<usize>)
    ensures
        forall|x: usize| #[trigger]
            final(out)@.contains(x) <==> old(out)@.contains(x) || list@.contains(x),
{
    let ghost out0 = out@;
    let mut j: usize = 0;
    while j < list.len()
        invariant
            j <= list@.len(),
            out@ == out0 + list@.take(j as int),
        decreases list@.len() - j,
    {
        out.push(list[j]);
        proof {
            assert(list@.take(j + 1) =~= list@.take(j as int).push(list@[j as int]));
            assert(out@ =~= out0 + list@.take(j + 1));
        }
        j += 1;
    }
    proof {
        assert(list@.take(j as int) =~= list@);
        assert forall|x: usize| #[trigger] out@.contains(x) <==> out0.contains(x) || list@.contains(
            x,
        ) by {
            if out0.contains(x) {
                let z = choose|z: int| 0 <= z < out0.len() && out0[z] == x;
                assert(out@[z] == x);
            }
            if list@.contains(x) {
                let z = choose|z: int| 0 <= z < list@.len() && list@[z] == x;
                assert(out@[out0.len() + z] == x);
            }
            if out@.contains(x) {
                let z = choose|z: int| 0 <= z < out@.len() && out@[z] == x;
                if z < out0.len() {
                    assert(out0[z] == x);
                } else {
                    assert(list@[z - out0.len()] == x);
                }
            }
        }
    }
}

impl Draft {
    /// The origin of statement `s` in `p`, where the local `v` decides it.
    fn operand_one(
        &mut self,
        p: usize,
        s: usize,
        v: usize,
        Ghost(e): Ghost<Edb>,
        Ghost(k): Ghost<nat>,
    )
        requires
            old(self).wf(),
            Self::follows(e, k, old(self).said()),
            p < old(self).store@.names.len(),
            s < old(self).store@.names.len(),
            v < old(self).store@.names.len(),
            e.critical(old(self).store@.name(s)),
            e.stands_in(old(self).store@.name(s), old(self).store@.name(p)),
            e.decisive_var(old(self).store@.name(s), old(self).store@.name(v)),
        ensures
            Self::sound(e, k, *old(self), *final(self)),
            old(self).said().le(final(self).said()),
            forall|i: ArgIdx| #[trigger]
                old(self).said().carries.contains(
                    (old(self).store@.name(p), old(self).store@.name(v), i),
                ) ==> final(self).said().slots.contains(
                    (
                        old(self).store@.name(p),
                        Instance::origin(old(self).store@.name(s)),
                        i,
                    ),
                ),
    {
        let ghost s0 = *self;
        let ghost c = self.store@;
        let ghost pn = c.name(p);
        let ghost inst = Instance::origin(c.name(s));
        let list = self.carried(p, v);
        let id: usize = self.store.origin(s);
        proof {
            s0.lemma_store_grow(self);
        }
        let ghost s1 = *self;
        let mut j: usize = 0;
        while j < list.len()
            invariant
                j <= list@.len(),
                s0.wf(),
                s1.wf(),
                Self::sound(e, k, s0, *self),
                s1.le(self),
                self.store == s1.store,
                s1.said() == s0.said(),
                s0.said().le(self.said()),
                c == s0.store@,
                c.names == s1.store@.names,
                p < c.names.len(),
                pn == c.name(p),
                id < s1.store@.insts.len(),
                s1.store@.inst(id) == inst,
                inst == Instance::origin(c.name(s)),
                e.critical(c.name(s)),
                e.stands_in(c.name(s), pn),
                e.decisive_var(c.name(s), c.name(v)),
                forall|i: usize| #[trigger]
                    list@.contains(i) <==> s0.said().carries.contains((pn, c.name(v), i)),
                forall|z: int|
                    0 <= z < j ==> self.said().slots.contains((pn, inst, #[trigger] list@[z])),
            decreases list@.len() - j,
        {
            let i: usize = list[j];
            let ghost s2 = *self;
            proof {
                assert(list@.contains(i));
                assert(self.said().carries.contains((pn, c.name(v), i)));
                assert(e.crit_origin(pn, inst.stmt, inst));
                assert(self.said().by_operand(e, pn, inst, i));
            }
            self.derive_slot(p, id, i, Ghost(e), Ghost(k));
            proof {
                s0.lemma_le_trans(&s2, self);
                s1.lemma_le_trans(&s2, self);
            }
            j += 1;
        }
        proof {
            assert forall|i: ArgIdx| #[trigger]
                s0.said().carries.contains((pn, c.name(v), i)) implies self.said().slots.contains(
                (pn, inst, i),
            ) by {
                assert(list@.contains(i));
                let z = choose|z: int| 0 <= z < list@.len() && list@[z] == i;
                assert(self.said().slots.contains((pn, inst, list@[z])));
            }
        }
    }

    /// The origin of statement `s` in `p`.
    fn operands_at(
        &mut self,
        facts: &Facts,
        p: usize,
        s: usize,
        Ghost(e): Ghost<Edb>,
        Ghost(k): Ghost<nat>,
    )
        requires
            old(self).wf(),
            Self::follows(e, k, old(self).said()),
            facts.ok(old(self).store@.names, e),
            p < old(self).store@.names.len(),
            s < old(self).store@.names.len(),
            e.critical(old(self).store@.name(s)),
            e.stands_in(old(self).store@.name(s), old(self).store@.name(p)),
        ensures
            Self::sound(e, k, *old(self), *final(self)),
            old(self).said().le(final(self).said()),
            forall|i: ArgIdx| #[trigger]
                old(self).said().by_operand(
                    e,
                    old(self).store@.name(p),
                    Instance::origin(old(self).store@.name(s)),
                    i,
                ) ==> final(self).said().slots.contains(
                    (
                        old(self).store@.name(p),
                        Instance::origin(old(self).store@.name(s)),
                        i,
                    ),
                ),
    {
        let ghost s0 = *self;
        let ghost c = self.store@;
        let ghost pn = c.name(p);
        let ghost inst = Instance::origin(c.name(s));
        proof {
            c.lemma_wf();
        }
        let list = decisive_vars(facts, s, Ghost(c.names), Ghost(e));
        let mut j: usize = 0;
        while j < list.len()
            invariant
                j <= list@.len(),
                s0.wf(),
                Self::sound(e, k, s0, *self),
                s0.said().le(self.said()),
                c == s0.store@,
                p < c.names.len(),
                s < c.names.len(),
                pn == c.name(p),
                inst == Instance::origin(c.name(s)),
                e.critical(c.name(s)),
                e.stands_in(c.name(s), pn),
                forall|v: usize| #[trigger]
                    list@.contains(v) ==> v < c.names.len() && e.decisive_var(
                        c.names[s as int],
                        c.names[v as int],
                    ),
                forall|z: int, i: ArgIdx|
                    #![trigger list@[z], s0.said().carries.contains((pn, c.names[list@[z] as int],
                        i))]
                    0 <= z < j && s0.said().carries.contains((pn, c.names[list@[z] as int], i))
                        ==> self.said().slots.contains((pn, inst, i)),
            decreases list@.len() - j,
        {
            let v: usize = list[j];
            let ghost s1 = *self;
            proof {
                assert(list@.contains(v));
                assert(e.decisive_var(c.names[s as int], c.names[v as int]));
            }
            self.operand_one(p, s, v, Ghost(e), Ghost(k));
            proof {
                s0.lemma_le_trans(&s1, self);
                assert forall|i: ArgIdx| #[trigger]
                    s0.said().carries.contains((pn, c.names[v as int], i))
                        implies self.said().slots.contains(
                (pn, inst, i)) by {
                    let d = s1.store@;
                    assert(s1.said().carries.contains((pn, c.names[v as int], i)));
                    assert(s1.said().carries.contains((d.name(p), d.name(v), i)));
                }
            }
            j += 1;
        }
        proof {
            assert forall|i: ArgIdx| #[trigger] s0.said().by_operand(e, pn, inst, i)
                implies self.said().slots.contains(
                (pn, inst, i),
            ) by {
                let v = choose|v: Name| #[trigger]
                    e.decisive_var(inst.stmt, v) && s0.said().carries.contains((pn, v, i));
                assert(e.decisive_var(c.names[s as int], v));
                let x = choose|x: usize| list@.contains(x) && #[trigger] c.names[x as int] == v;
                let z = choose|z: int| 0 <= z < list@.len() && list@[z] == x;
                assert(s0.said().carries.contains((pn, c.names[list@[z] as int], i)));
            }
        }
    }

    fn fire_operands(
        &mut self,
        facts: &Facts,
        derived: &Derived,
        Ghost(e): Ghost<Edb>,
        Ghost(k): Ghost<nat>,
    )
        requires
            old(self).wf(),
            Self::follows(e, k, old(self).said()),
            facts.ok(old(self).store@.names, e),
            derived.ok(old(self).store@.names, e),
        ensures
            Self::sound(e, k, *old(self), *final(self)),
            forall|p: Name, id: Instance, i: ArgIdx| #[trigger]
                old(self).said().by_operand(e, p, id, i) ==> final(self).said().slots.contains(
                    (p, id, i),
                ),
    {
        let ghost s0 = *self;
        let ghost names = self.store@.names;
        let t = &derived.critical;
        let places = &facts.homes;
        let mut j: usize = 0;
        while j < t.len()
            invariant
                j <= t@.len(),
                t == &derived.critical,
                places == &facts.homes,
                facts.ok(names, e),
                derived.ok(names, e),
                s0.wf(),
                Self::sound(e, k, s0, *self),
                s0.said().le(self.said()),
                names == s0.store@.names,
                forall|z: int, h: int, i: ArgIdx|
                    #![trigger t@[z], places@[h],
                        s0.said().by_operand(e, names[places@[h][1] as int],
                        Instance::origin(names[t@[z][0] as int]), i)]
                    0 <= z < j && 0 <= h < places@.len() && places@[h][0] == t@[z][0]
                        && s0.said().by_operand(
                        e,
                        names[places@[h][1] as int],
                        Instance::origin(names[t@[z][0] as int]),
                        i,
                    ) ==> self.said().slots.contains(
                        (
                            names[places@[h][1] as int],
                            Instance::origin(names[t@[z][0] as int]),
                            i,
                        ),
                    ),
            decreases t@.len() - j,
        {
            proof {
                assert(one_ok(names, t@[j as int]));
                assert(critical_set(e).contains(one_row(names, t@[j as int])));
            }
            let s: usize = t.at(j, 0);
            let ghost inst = Instance::origin(names[s as int]);
            let list = places.heads(s);
            let ghost sj = *self;
            let mut y: usize = 0;
            while y < list.len()
                invariant
                    y <= list@.len(),
                    places == &facts.homes,
                    facts.ok(names, e),
                    s0.wf(),
                    Self::sound(e, k, s0, *self),
                    s0.said().le(self.said()),
                    sj.said().le(self.said()),
                    names == s0.store@.names,
                    s < names.len(),
                    inst == Instance::origin(names[s as int]),
                    e.critical(names[s as int]),
                    forall|z: int|
                        0 <= z < list@.len() ==> (#[trigger] list@[z]) < places@.len()
                            && places@[list@[z] as int][0] == s,
                    forall|z: int, i: ArgIdx|
                        #![trigger list@[z], s0.said().by_operand(e,
                            names[places@[list@[z] as int][1] as int], inst, i)]
                        0 <= z < y && s0.said().by_operand(
                            e,
                            names[places@[list@[z] as int][1] as int],
                            inst,
                            i,
                        ) ==> self.said().slots.contains(
                            (names[places@[list@[z] as int][1] as int], inst, i),
                        ),
                decreases list@.len() - y,
            {
                let h: usize = list[y];
                let ghost s1 = *self;
                proof {
                    assert(two_ok(names, places@[h as int]));
                    assert(homes(e).contains(two_row(names, places@[h as int])));
                }
                let p: usize = places.at(h, 1);
                self.operands_at(facts, p, s, Ghost(e), Ghost(k));
                proof {
                    s0.lemma_le_trans(&s1, self);
                    lemma_syn_monotone(e, k, s0.said(), s1.said());
                    assert forall|i: ArgIdx| #[trigger]
                        s0.said().by_operand(e, names[p as int], inst, i)
                            implies self.said().slots.contains(
                    (names[p as int], inst, i)) by {
                        let d = s1.store@;
                        assert(s1.said().by_operand(e, names[p as int], inst, i));
                        assert(s1.said().by_operand(
                            e,
                            d.name(p),
                            Instance::origin(d.name(s)),
                            i,
                        ));
                    }
                }
                y += 1;
            }
            proof {
                assert forall|h: int, i: ArgIdx|
                    #![trigger places@[h], s0.said().by_operand(e, names[places@[h][1] as int],
                        inst,
                        i)]
                    0 <= h < places@.len() && places@[h][0] == s && s0.said().by_operand(
                        e,
                        names[places@[h][1] as int],
                        inst,
                        i,
                    ) implies self.said().slots.contains((names[places@[h][1] as int], inst,
                        i)) by {
                    places.lemma_distinct();
                    assert(two_ok(names, places@[h]));
                    assert(list@.contains(h as usize));
                    let z = choose|z: int| 0 <= z < list@.len() && list@[z] == h as usize;
                    assert(s0.said().by_operand(
                        e,
                        names[places@[list@[z] as int][1] as int],
                        inst,
                        i,
                    ));
                }
            }
            j += 1;
        }
        proof {
            self.store@.lemma_wf();
            assert forall|p: Name, id: Instance, i: ArgIdx| #[trigger]
                s0.said().by_operand(e, p, id, i)
                    implies self.said().slots.contains((p, id, i)) by {
                let s = id.stmt;
                assert(critical_set(e).contains(s));
                let z = lemma_find_one(t@, names, critical_set(e), s);
                assert(homes(e).contains((s, p)));
                let h = lemma_find_two(places@, names, homes(e), (s, p));
                assert(places@[h][0] == t@[z][0]);
                assert(s0.said().by_operand(
                    e,
                    names[places@[h][1] as int],
                    Instance::origin(names[t@[z][0] as int]),
                    i,
                ));
            }
        }
    }

    /// One fed slot of a callee at one callsite, where the argument `a` is bound to
    /// the formal that feeds it.
    fn argument_one(
        &mut self,
        q: usize,
        id2: usize,
        a: usize,
        Ghost(e): Ghost<Edb>,
        Ghost(k): Ghost<nat>,
        Ghost(site): Ghost<(Name, Name, Instance, ArgIdx)>,
    )
        requires
            old(self).wf(),
            Self::follows(e, k, old(self).said()),
            q < old(self).store@.names.len(),
            a < old(self).store@.names.len(),
            id2 < old(self).store@.insts.len(),
            e.eff_direct(site.1, site.0),
            e.stands_in(site.1, old(self).store@.name(q)),
            e.actual_arg.contains((site.1, site.3, old(self).store@.name(a))),
            old(self).said().slots.contains((site.0, site.2, site.3)),
            site.2.depth() < k,
            old(self).store@.inst(id2) == site.2.push(site.1),
        ensures
            Self::sound(e, k, *old(self), *final(self)),
            final(self).store == old(self).store,
            old(self).said().le(final(self).said()),
            forall|i: ArgIdx| #[trigger]
                old(self).said().carries.contains(
                    (old(self).store@.name(q), old(self).store@.name(a), i),
                ) ==> final(self).said().slots.contains(
                    (old(self).store@.name(q), old(self).store@.inst(id2), i),
                ),
    {
        let ghost s0 = *self;
        let ghost c = self.store@;
        let ghost qn = c.name(q);
        let list = self.carried(q, a);
        let mut j: usize = 0;
        while j < list.len()
            invariant
                j <= list@.len(),
                s0.wf(),
                Self::sound(e, k, s0, *self),
                s0.said().le(self.said()),
                self.store == s0.store,
                c == s0.store@,
                qn == c.name(q),
                q < c.names.len(),
                a < c.names.len(),
                id2 < c.insts.len(),
                e.eff_direct(site.1, site.0),
                e.stands_in(site.1, qn),
                e.actual_arg.contains((site.1, site.3, c.name(a))),
                s0.said().slots.contains((site.0, site.2, site.3)),
                site.2.depth() < k,
                c.inst(id2) == site.2.push(site.1),
                forall|i: usize| #[trigger]
                    list@.contains(i) <==> s0.said().carries.contains((qn, c.name(a), i)),
                forall|z: int|
                    0 <= z < j ==> self.said().slots.contains((qn, c.inst(id2),
                        #[trigger] list@[z])),
            decreases list@.len() - j,
        {
            let i: usize = list[j];
            let ghost s1 = *self;
            proof {
                assert(list@.contains(i));
                assert(self.said().carries.contains((qn, c.name(a), i)));
                assert(self.said().slots.contains((site.0, site.2, site.3)));
                assert(self.said().by_argument(e, k, qn, c.inst(id2), i));
            }
            self.derive_slot(q, id2, i, Ghost(e), Ghost(k));
            proof {
                s0.lemma_le_trans(&s1, self);
            }
            j += 1;
        }
        proof {
            assert forall|i: ArgIdx| #[trigger]
                s0.said().carries.contains((qn, c.name(a), i)) implies self.said().slots.contains(
                (qn, c.inst(id2), i),
            ) by {
                assert(list@.contains(i));
                let z = choose|z: int| 0 <= z < list@.len() && list@[z] == i;
                assert(self.said().slots.contains((qn, c.inst(id2), list@[z])));
            }
        }
    }

    /// One fed slot of a callee at one callsite.
    fn argument_at(
        &mut self,
        facts: &Facts,
        j: usize,
        s: usize,
        q: usize,
        Ghost(e): Ghost<Edb>,
        Ghost(k): Ghost<nat>,
    )
        requires
            old(self).wf(),
            Self::follows(e, k, old(self).said()),
            facts.ok(old(self).store@.names, e),
            j < old(self).slots@.len(),
            s < old(self).store@.names.len(),
            q < old(self).store@.names.len(),
            e.eff_direct(
                old(self).store@.name(s),
                old(self).slot_of(old(self).slots@[j as int]).0,
            ),
            e.stands_in(old(self).store@.name(s), old(self).store@.name(q)),
            old(self).slot_of(old(self).slots@[j as int]).1.depth() < k,
        ensures
            Self::sound(e, k, *old(self), *final(self)),
            old(self).said().le(final(self).said()),
            ({
                let c = old(self).store@;
                let x = old(self).slot_of(old(self).slots@[j as int]);
                forall|a: Name, i: ArgIdx|
                    #![trigger e.actual_arg.contains((c.name(s), x.2, a)), old(
                        self,
                    ).said().carries.contains((c.name(q), a, i))]
                    e.actual_arg.contains((c.name(s), x.2, a)) && old(
                        self,
                    ).said().carries.contains((c.name(q), a, i))
                        ==> final(self).said().slots.contains((c.name(q), x.1.push(c.name(s)), i))
            }),
    {
        let ghost s0 = *self;
        let ghost c = self.store@;
        let ghost row = self.slots@[j as int];
        let ghost x = self.slot_of(row);
        proof {
            assert(self.slot_ok(row));
            self.lemma_row_slot(j as int);
            c.lemma_wf();
        }
        let id: usize = self.slots.at(j, 1);
        let i0: usize = self.slots.at(j, 2);
        let id2: usize = self.store.push(id, s);
        let ghost s1 = *self;
        proof {
            s0.lemma_store_grow(&s1);
        }
        let t = &facts.actual_arg;
        let list = t.heads(s);
        let mut y: usize = 0;
        while y < list.len()
            invariant
                y <= list@.len(),
                t == &facts.actual_arg,
                facts.ok(c.names, e),
                s0.wf(),
                s1.wf(),
                Self::sound(e, k, s0, *self),
                s1.le(self),
                self.store == s1.store,
                s0.said().le(self.said()),
                s1.said() == s0.said(),
                c == s0.store@,
                c.names == s1.store@.names,
                s < c.names.len(),
                q < c.names.len(),
                id2 < s1.store@.insts.len(),
                s1.store@.inst(id2) == x.1.push(c.name(s)),
                i0 == x.2,
                e.eff_direct(c.name(s), x.0),
                e.stands_in(c.name(s), c.name(q)),
                s0.said().slots.contains(x),
                x.1.depth() < k,
                forall|z: int|
                    0 <= z < list@.len() ==> (#[trigger] list@[z]) < t@.len()
                        && t@[list@[z] as int][0]
                        == s,
                forall|z: int, i: ArgIdx|
                    #![trigger list@[z], s0.said().carries.contains((c.name(q),
                        c.names[t@[list@[z] as int][2] as int], i))]
                    0 <= z < y && t@[list@[z] as int][1] == i0 && s0.said().carries.contains(
                        (c.name(q), c.names[t@[list@[z] as int][2] as int], i),
                    ) ==> self.said().slots.contains((c.name(q), x.1.push(c.name(s)), i)),
            decreases list@.len() - y,
        {
            let h: usize = list[y];
            proof {
                assert(indexed_ok(c.names, t@[h as int]));
                let r = indexed_row(c.names, t@[h as int]);
                assert(e.actual_arg.contains((r.0, r.1, r.2)));
            }
            let ghost s2 = *self;
            if t.at(h, 1) == i0 {
                let a: usize = t.at(h, 2);
                proof {
                    assert(self.said().slots.contains((x.0, x.1, i0)));
                }
                self.argument_one(
                    q,
                    id2,
                    a,
                    Ghost(e),
                    Ghost(k),
                    Ghost((x.0, c.name(s), x.1, i0)),
                );
                proof {
                    s0.lemma_le_trans(&s2, self);
                    s1.lemma_le_trans(&s2, self);
                    assert forall|i: ArgIdx| #[trigger]
                        s0.said().carries.contains((c.name(q), c.names[a as int], i))
                            implies self.said().slots.contains(
                    (c.name(q), x.1.push(c.name(s)), i)) by {
                        let d = s2.store@;
                        assert(s2.said().carries.contains((c.name(q), c.names[a as int], i)));
                        assert(s2.said().carries.contains((d.name(q), d.name(a), i)));
                    }
                }
            }
            y += 1;
        }
        proof {
            assert forall|a: Name, i: ArgIdx|
                #![trigger e.actual_arg.contains((c.name(s), x.2, a)),
                    s0.said().carries.contains((c.name(q), a, i))]
                e.actual_arg.contains((c.name(s), x.2, a)) && s0.said().carries.contains(
                    (c.name(q), a, i),
                ) implies self.said().slots.contains((c.name(q), x.1.push(c.name(s)), i)) by {
                let h = lemma_find_indexed(t@, c.names, e.actual_arg, (c.name(s), x.2, a));
                t.lemma_distinct();
                assert(t@[h][0] == s);
                assert(list@.contains(h as usize));
                let z = choose|z: int| 0 <= z < list@.len() && list@[z] == h as usize;
                assert(s0.said().carries.contains(
                    (c.name(q), c.names[t@[list@[z] as int][2] as int], i),
                ));
            }
        }
    }

    fn fire_arguments(
        &mut self,
        facts: &Facts,
        derived: &Derived,
        k: usize,
        Ghost(e): Ghost<Edb>,
    )
        requires
            old(self).wf(),
            Self::follows(e, k as nat, old(self).said()),
            facts.ok(old(self).store@.names, e),
            derived.ok(old(self).store@.names, e),
        ensures
            Self::sound(e, k as nat, *old(self), *final(self)),
            forall|p: Name, id: Instance, i: ArgIdx| #[trigger]
                old(self).said().by_argument(e, k as nat, p, id, i)
                    ==> final(self).said().slots.contains((p, id, i)),
    {
        let ghost s0 = *self;
        let ghost c = self.store@;
        let t = &derived.sites;
        let n: usize = self.slots.len();
        let mut j: usize = 0;
        while j < n
            invariant
                j <= n,
                n == s0.slots@.len(),
                t == &derived.sites,
                facts.ok(c.names, e),
                derived.ok(c.names, e),
                s0.wf(),
                Self::sound(e, k as nat, s0, *self),
                s0.said().le(self.said()),
                c == s0.store@,
                forall|z: int, h: int, a: Name, i: ArgIdx|
                    #![trigger s0.slots@[z], t@[h],
                        s0.said().carries.contains((c.names[t@[h][2] as int], a, i))]
                    0 <= z < j && 0 <= h < t@.len() && t@[h][0] == s0.slots@[z][0] && s0.slot_of(
                        s0.slots@[z],
                    ).1.depth() < k && e.actual_arg.contains(
                        (c.names[t@[h][1] as int], s0.slots@[z][2], a),
                    ) && s0.said().carries.contains((c.names[t@[h][2] as int], a, i))
                        ==> self.said().slots.contains(
                        (
                            c.names[t@[h][2] as int],
                            s0.slot_of(s0.slots@[z]).1.push(c.names[t@[h][1] as int]),
                            i,
                        ),
                    ),
            decreases n - j,
        {
            let ghost row = s0.slots@[j as int];
            let ghost x = s0.slot_of(row);
            let ghost sj = *self;
            proof {
                assert(s0.slot_ok(row));
                assert(self.slots@[j as int] == row);
                c.lemma_grow(self.store@);
                c.lemma_wf();
            }
            let p: usize = self.slots.at(j, 0);
            let id: usize = self.slots.at(j, 1);
            if self.store.depth(id) < k {
                let list = t.heads(p);
                let mut y: usize = 0;
                while y < list.len()
                    invariant
                        y <= list@.len(),
                        j < n,
                        n == s0.slots@.len(),
                        t == &derived.sites,
                        facts.ok(c.names, e),
                        derived.ok(c.names, e),
                        s0.wf(),
                        Self::sound(e, k as nat, s0, *self),
                        s0.said().le(self.said()),
                        sj.said().le(self.said()),
                        c == s0.store@,
                        row == s0.slots@[j as int],
                        s0.slot_ok(row),
                        x == s0.slot_of(row),
                        p == row[0],
                        x.1.depth() < k,
                        forall|z: int|
                            0 <= z < list@.len() ==> (#[trigger] list@[z]) < t@.len()
                                && t@[list@[z] as int][0] == p,
                        forall|z: int, a: Name, i: ArgIdx|
                            #![trigger list@[z], s0.said().carries.contains(
                                (c.names[t@[list@[z] as int][2] as int], a, i))]
                            0 <= z < y && e.actual_arg.contains(
                                (c.names[t@[list@[z] as int][1] as int], row[2], a),
                            ) && s0.said().carries.contains(
                                (c.names[t@[list@[z] as int][2] as int], a, i),
                            ) ==> self.said().slots.contains(
                                (
                                    c.names[t@[list@[z] as int][2] as int],
                                    x.1.push(c.names[t@[list@[z] as int][1] as int]),
                                    i,
                                ),
                            ),
                    decreases list@.len() - y,
                {
                    let h: usize = list[y];
                    let ghost s1 = *self;
                    proof {
                        assert(three_ok(c.names, t@[h as int]));
                        assert(site_set(e).contains(three_row(c.names, t@[h as int])));
                        s0.lemma_grow(self);
                        assert(self.slots@[j as int] == row);
                        assert(self.slot_of(row) == x);
                    }
                    let s: usize = t.at(h, 1);
                    let q: usize = t.at(h, 2);
                    self.argument_at(facts, j, s, q, Ghost(e), Ghost(k as nat));
                    proof {
                        s0.lemma_le_trans(&s1, self);
                        assert forall|a: Name, i: ArgIdx|
                            e.actual_arg.contains((c.names[s as int], row[2], a))
                                && #[trigger] s0.said().carries.contains(
                                (c.names[q as int], a, i),
                            ) implies self.said().slots.contains(
                            (c.names[q as int], x.1.push(c.names[s as int]), i),
                        ) by {
                            let d = s1.store@;
                            assert(s1.said().carries.contains((d.name(q), a, i)));
                            assert(e.actual_arg.contains((d.name(s), x.2, a)));
                        }
                    }
                    y += 1;
                }
                proof {
                    assert forall|h: int, a: Name, i: ArgIdx|
                        #![trigger t@[h], s0.said().carries.contains((c.names[t@[h][2] as int], a,
                            i))]
                        0 <= h < t@.len() && t@[h][0] == p && e.actual_arg.contains(
                            (c.names[t@[h][1] as int], row[2], a),
                        ) && s0.said().carries.contains((c.names[t@[h][2] as int], a, i))
                            implies self.said().slots.contains(
                    (c.names[t@[h][2] as int], x.1.push(c.names[t@[h][1] as int]), i)) by {
                        t.lemma_distinct();
                        assert(three_ok(c.names, t@[h]));
                        assert(list@.contains(h as usize));
                        let z = choose|z: int| 0 <= z < list@.len() && list@[z] == h as usize;
                        assert(s0.said().carries.contains(
                            (c.names[t@[list@[z] as int][2] as int], a, i),
                        ));
                    }
                }
            }
            j += 1;
        }
        proof {
            c.lemma_wf();
            assert forall|p: Name, id: Instance, i: ArgIdx| #[trigger]
                s0.said().by_argument(e, k as nat, p, id, i) implies self.said().slots.contains(
                (p, id, i),
            ) by {
                let (callee, id0, i0, s, a) = choose|
                    callee: Name,
                    id0: Instance,
                    i0: ArgIdx,
                    s: Name,
                    a: Name,
                |
                    {
                        &&& #[trigger] s0.said().slots.contains((callee, id0, i0))
                        &&& e.eff_direct(s, callee)
                        &&& e.stands_in(s, p)
                        &&& #[trigger] e.actual_arg.contains((s, i0, a))
                        &&& s0.said().carries.contains((p, a, i))
                        &&& id0.depth() < k
                        &&& id == id0.push(s)
                    };
                let z = s0.lemma_slot_row((callee, id0, i0));
                assert(site_set(e).contains((callee, s, p)));
                let h = lemma_find_three(t@, c.names, site_set(e), (callee, s, p));
                c.lemma_name_injective(t@[h][0], s0.slots@[z][0]);
                assert(s0.said().carries.contains((c.names[t@[h][2] as int], a, i)));
            }
        }
    }

    /// Compute the syntactic stratum.
    pub fn compute(store: Store, facts: &Facts, derived: &Derived, k: usize, Ghost(e): Ghost<Edb>)
        -> (r:
        Self)
        requires
            store.wf(),
            facts.ok(store@.names, e),
            derived.ok(store@.names, e),
        ensures
            r.wf(),
            store@.le(r.store@),
            r.said().least(e, k as nat),
    {
        let mut d = Draft { store, carries: Table::new(), slots: Table::new() };
        let ghost c = store@;
        proof {
            assert(d.said().carries =~= Set::<(Name, Name, ArgIdx)>::empty());
            assert(d.said().slots =~= Set::<(Name, Instance, ArgIdx)>::empty());
        }
        let mut changed = true;
        while changed
            invariant
                d.wf(),
                c.le(d.store@),
                c.wf(),
                facts.ok(c.names, e),
                derived.ok(c.names, e),
                Self::follows(e, k as nat, d.said()),
                !changed ==> d.said().closed_under(e, k as nat),
            decreases usize::MAX - d.carries@.len() + usize::MAX - d.slots@.len(), (if changed {
                1int
            } else {
                0int
            }),
        {
            let ghost s0 = d;
            proof {
                d.carries.lemma_distinct();
                d.slots.lemma_distinct();
            }
            let n1: usize = d.carries.len();
            let n2: usize = d.slots.len();
            d.fire_formals(facts, Ghost(e), Ghost(k as nat));
            let ghost s1 = d;
            d.fire_moves(facts, Ghost(e), Ghost(k as nat));
            let ghost s2 = d;
            d.fire_operands(facts, derived, Ghost(e), Ghost(k as nat));
            let ghost s3 = d;
            d.fire_arguments(facts, derived, k, Ghost(e));
            proof {
                s0.lemma_le_trans(&s1, &s2);
                s0.lemma_le_trans(&s2, &s3);
                s0.lemma_le_trans(&s3, &d);
                s1.lemma_le_trans(&s2, &s3);
                s1.lemma_le_trans(&s3, &d);
                s2.lemma_le_trans(&s3, &d);
                c.lemma_le_trans(s0.store@, d.store@);
                s1.lemma_grow(&d);
                s2.lemma_grow(&d);
                s3.lemma_grow(&d);
                s0.lemma_grow(&s1);
                s0.lemma_grow(&s2);
                s0.lemma_grow(&s3);
                d.carries.lemma_distinct();
                d.slots.lemma_distinct();
            }
            changed = d.carries.len() != n1 || d.slots.len() != n2;
            proof {
                if !changed {
                    let m = d.said();
                    assert(d.carries@ =~= s0.carries@);
                    assert(d.slots@ =~= s0.slots@);
                    s0.lemma_grow(&d);
                    assert(s0.said().carries =~= m.carries) by {
                        assert forall|x: (Name, Name, ArgIdx)| m.carries.contains(x)
                            implies #[trigger] s0.said().carries.contains(
                            x,
                        ) by {
                            let j = d.lemma_carry_row(x);
                            s0.lemma_row_carry(j);
                            assert(s0.carry_of(s0.carries@[j]) == x);
                        }
                    }
                    assert(s0.said().slots =~= m.slots) by {
                        assert forall|x: (Name, Instance, ArgIdx)| m.slots.contains(x)
                            implies #[trigger] s0.said().slots.contains(
                            x,
                        ) by {
                            let j = d.lemma_slot_row(x);
                            s0.lemma_row_slot(j);
                            assert(d.slot_of(s0.slots@[j]) == s0.slot_of(s0.slots@[j]));
                        }
                    }
                    assert(s0.said() == m);
                    lemma_syn_monotone(e, k as nat, s0.said(), s1.said());
                    lemma_syn_monotone(e, k as nat, s0.said(), s2.said());
                    lemma_syn_monotone(e, k as nat, s0.said(), s3.said());
                    assert forall|p: Name, v: Name, i: ArgIdx|
                        Syn::by_formal(e, p, v, i) || #[trigger] m.by_move(e, p, v, i)
                            implies m.carries.contains(
                    (p, v, i)) by {
                        if Syn::by_formal(e, p, v, i) {
                            assert(s1.said().carries.contains((p, v, i)));
                        } else {
                            assert(s1.said().by_move(e, p, v, i));
                            assert(s2.said().carries.contains((p, v, i)));
                        }
                    }
                    assert forall|p: Name, id: Instance, i: ArgIdx|
                        #[trigger] m.by_operand(e, p, id, i) || m.by_argument(
                            e,
                            k as nat,
                            p,
                            id,
                            i,
                        ) implies m.slots.contains((p, id, i)) by {
                        if m.by_operand(e, p, id, i) {
                            assert(s2.said().by_operand(e, p, id, i));
                            assert(s3.said().slots.contains((p, id, i)));
                        } else {
                            assert(s3.said().by_argument(e, k as nat, p, id, i));
                        }
                    }
                }
            }
        }
        d
    }
}

} // verus!
