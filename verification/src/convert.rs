//! Between numbers and the values they stand for.
use vstd::prelude::*;

use crate::access_path::{
    names, steps, AccessPath, Accessor, Base, CritId, Instance, Path, PtVal, Root, Step, Value,
};
use crate::codes::{flat_ok, flat_steps, initial, step_of, step_ok, Key, Kind, Names, Store};
use crate::ir::{Alloc, Const, Field, Name, Stmt, Symbol, Var};

verus! {

// ---------------------------------------------------------------------------
// Names that have numbers
// ---------------------------------------------------------------------------

pub open spec fn knows_inst(ns: Seq<Name>, id: Instance) -> bool {
    ns.contains(id.stmt) && forall|j: int|
        0 <= j < id.chain.len() ==> ns.contains(#[trigger] id.chain[j])
}

pub open spec fn knows_root(ns: Seq<Name>, r: Root) -> bool {
    match r {
        Root::Var(v) => ns.contains(v),
        Root::Param(p, _) => ns.contains(p),
        Root::Ret(p) => ns.contains(p),
        Root::Slot(id, _) => knows_inst(ns, id),
        Root::Res(id) => knows_inst(ns, id),
    }
}

pub open spec fn knows_step(ns: Seq<Name>, a: Step) -> bool {
    match a {
        Step::Field(f) => ns.contains(f),
        Step::Index(c) => ns.contains(c),
        Step::Unknown => true,
    }
}

pub open spec fn knows_steps(ns: Seq<Name>, s: Seq<Step>) -> bool {
    forall|j: int| 0 <= j < s.len() ==> knows_step(ns, #[trigger] s[j])
}

pub open spec fn knows_path(ns: Seq<Name>, w: Path) -> bool {
    knows_root(ns, w.root) && knows_steps(ns, w.steps)
}

pub open spec fn knows_value(ns: Seq<Name>, v: Value) -> bool {
    match v {
        Value::Path(w) => knows_path(ns, w),
        Value::Alloc(l) => ns.contains(l),
        Value::Const(c) => ns.contains(c),
    }
}

/// Every name that had a number keeps it.
pub open spec fn wider(a: Seq<Name>, b: Seq<Name>) -> bool {
    forall|x: Name| a.contains(x) ==> #[trigger] b.contains(x)
}

pub proof fn lemma_wider(a: Seq<Name>, b: Seq<Name>)
    requires
        initial(a, b),
    ensures
        wider(a, b),
{
    assert forall|x: Name| a.contains(x) implies #[trigger] b.contains(x) by {
        let i = choose|i: int| 0 <= i < a.len() && a[i] == x;
        assert(b[i] == x);
    }
}

/// Give a name a number.
pub fn learn(ns: &mut Names, s: &String)
    requires
        old(ns).wf(),
    ensures
        final(ns).wf(),
        initial(old(ns)@, final(ns)@),
        final(ns)@.contains(s@),
{
    let i: usize = ns.number(s);
    proof {
        assert(ns@[i as int] == s@);
    }
}

proof fn lemma_initial(a: Seq<Name>, b: Seq<Name>, c: Seq<Name>)
    requires
        initial(a, b),
        initial(b, c),
    ensures
        initial(a, c),
{
    assert forall|i: int| 0 <= i < a.len() implies #[trigger] c[i] == a[i] by {
        assert(b[i] == a[i]);
    }
}

/// Give the names of an instance numbers.
pub fn learn_inst(ns: &mut Names, id: &CritId)
    requires
        old(ns).wf(),
    ensures
        final(ns).wf(),
        initial(old(ns)@, final(ns)@),
        knows_inst(final(ns)@, id@),
{
    learn(ns, id.stmt.text());
    let mut j: usize = 0;
    while j < id.chain.len()
        invariant
            j <= id.chain@.len(),
            ns.wf(),
            initial(old(ns)@, ns@),
            ns@.contains(id@.stmt),
            forall|z: int| 0 <= z < j ==> ns@.contains(#[trigger] id@.chain[z]),
        decreases id.chain@.len() - j,
    {
        let ghost n0 = ns@;
        learn(ns, id.chain[j].text());
        proof {
            lemma_initial(old(ns)@, n0, ns@);
            lemma_wider(n0, ns@);
            assert(id@.chain[j as int] == id.chain@[j as int]@);
        }
        j += 1;
    }
}

/// Give the names of accessors numbers.
pub fn learn_steps(ns: &mut Names, v: &[Accessor])
    requires
        old(ns).wf(),
    ensures
        final(ns).wf(),
        initial(old(ns)@, final(ns)@),
        knows_steps(final(ns)@, steps(v@)),
{
    let mut j: usize = 0;
    while j < v.len()
        invariant
            j <= v@.len(),
            ns.wf(),
            initial(old(ns)@, ns@),
            forall|z: int| 0 <= z < j ==> knows_step(ns@, #[trigger] steps(v@)[z]),
        decreases v@.len() - j,
    {
        let ghost n0 = ns@;
        match &v[j] {
            Accessor::Field(f) => {
                learn(ns, f.text());
            },
            Accessor::Index(c) => {
                learn(ns, c.text());
            },
            Accessor::IndexUnknown => {},
        }
        proof {
            lemma_initial(old(ns)@, n0, ns@);
            lemma_wider(n0, ns@);
            assert(steps(v@)[j as int] == v@[j as int]@);
        }
        j += 1;
    }
}

/// Give the names of a path numbers.
pub fn learn_path(ns: &mut Names, w: &AccessPath)
    requires
        old(ns).wf(),
    ensures
        final(ns).wf(),
        initial(old(ns)@, final(ns)@),
        knows_path(final(ns)@, w@),
{
    match &w.base {
        Base::Var(v) => {
            learn(ns, v.text());
        },
        Base::Param(p, _) => {
            learn(ns, p.text());
        },
        Base::Ret(p) => {
            learn(ns, p.text());
        },
        Base::CritSlot(id, _) => {
            learn_inst(ns, id);
        },
        Base::CritRet(id) => {
            learn_inst(ns, id);
        },
    }
    let ghost n1 = ns@;
    learn_steps(ns, w.accessors.as_slice());
    proof {
        lemma_initial(old(ns)@, n1, ns@);
        lemma_wider(n1, ns@);
    }
}

/// Give the names of a value numbers.
pub fn learn_value(ns: &mut Names, v: &PtVal)
    requires
        old(ns).wf(),
    ensures
        final(ns).wf(),
        initial(old(ns)@, final(ns)@),
        knows_value(final(ns)@, v@),
{
    match v {
        PtVal::Path(w) => {
            learn_path(ns, w);
        },
        PtVal::Alloc(l) => {
            learn(ns, l.text());
        },
        PtVal::Const(c) => {
            learn(ns, c.text());
        },
    }
}

// ---------------------------------------------------------------------------
// From values to numbers
// ---------------------------------------------------------------------------

/// The numbers of accessors whose names have numbers.
pub fn flat_of(ns: &Names, v: &[Accessor]) -> (r: Vec<usize>)
    requires
        ns.wf(),
        knows_steps(ns@, steps(v@)),
    ensures
        flat_ok(ns@, r@),
        flat_steps(ns@, r@) == steps(v@),
{
    let mut r: Vec<usize> = Vec::new();
    let mut j: usize = 0;
    while j < v.len()
        invariant
            j <= v@.len(),
            ns.wf(),
            knows_steps(ns@, steps(v@)),
            r@.len() == 2 * j,
            forall|z: int|
                0 <= z < j ==> step_ok(ns@, #[trigger] r@[2 * z], r@[2 * z + 1]) && step_of(
                    ns@,
                    r@[2 * z],
                    r@[2 * z + 1],
                ) == steps(v@)[z],
        decreases v@.len() - j,
    {
        let ghost before = r@;
        proof {
            assert(knows_step(ns@, steps(v@)[j as int]));
        }
        match &v[j] {
            Accessor::Field(f) => {
                let n: usize = known_number(ns, f.text());
                r.push(0);
                r.push(n);
            },
            Accessor::Index(c) => {
                let n: usize = known_number(ns, c.text());
                r.push(1);
                r.push(n);
            },
            Accessor::IndexUnknown => {
                r.push(2);
                r.push(0);
            },
        }
        proof {
            assert forall|z: int| 0 <= z < j + 1 implies step_ok(
                ns@,
                #[trigger] r@[2 * z],
                r@[2 * z + 1],
            ) && step_of(ns@, r@[2 * z], r@[2 * z + 1]) == steps(v@)[z] by {
                if z < j {
                    assert(r@[2 * z] == before[2 * z]);
                    assert(r@[2 * z + 1] == before[2 * z + 1]);
                }
            }
        }
        j += 1;
    }
    proof {
        assert forall|z: int| 0 <= 2 * z < r@.len() implies #[trigger] step_ok(
            ns@,
            r@[2 * z],
            r@[2 * z + 1],
        ) by {
            assert(z < j);
        }
        assert(flat_steps(ns@, r@) =~= steps(v@));
    }
    r
}

/// The number of a name that has one.
pub fn known_number(ns: &Names, s: &String) -> (r: usize)
    requires
        ns.wf(),
        ns@.contains(s@),
    ensures
        r < ns@.len(),
        ns@[r as int] == s@,
{
    match ns.find(s) {
        Some(i) => i,
        None => 0,
    }
}

impl Store {
    /// The number of an instance.
    pub fn number_inst(&mut self, id: &CritId) -> (r: usize)
        requires
            old(self).wf(),
            knows_inst(old(self)@.names, id@),
        ensures
            final(self).wf(),
            old(self)@.le(final(self)@),
            final(self)@.paths == old(self)@.paths,
            r < final(self)@.insts.len(),
            final(self)@.inst(r) == id@,
    {
        let mut row: Vec<usize> = Vec::new();
        row.push(known_number(&self.names, id.stmt.text()));
        let mut j: usize = 0;
        while j < id.chain.len()
            invariant
                j <= id.chain@.len(),
                self.wf(),
                knows_inst(self@.names, id@),
                row@.len() == j + 1,
                row@[0] < self@.names.len(),
                self@.names[row@[0] as int] == id@.stmt,
                forall|z: int|
                    0 <= z < j ==> (#[trigger] row@[z + 1]) < self@.names.len()
                        && self@.names[row@[z + 1] as int] == id@.chain[z],
            decreases id.chain@.len() - j,
        {
            let ghost before = row@;
            proof {
                assert(id@.chain[j as int] == id.chain@[j as int]@);
            }
            row.push(known_number(&self.names, id.chain[j].text()));
            proof {
                assert forall|z: int| 0 <= z < j + 1 implies (#[trigger] row@[z + 1])
                    < self@.names.len() && self@.names[row@[z + 1] as int] == id@.chain[z] by {
                    if z < j {
                        assert(row@[z + 1] == before[z + 1]);
                    }
                }
            }
            j += 1;
        }
        proof {
            assert forall|z: int| 0 <= z < row@.len() implies (#[trigger] row@[z])
                < self@.names.len() by {
                if z > 0 {
                    assert(row@[(z - 1) + 1] < self@.names.len());
                }
            }
            assert(self@.inst_of(row@).chain =~= id@.chain);
        }
        self.add_inst(row)
    }

    /// The numbers of a root.
    pub fn number_base(&mut self, b: &Base) -> (r: Key)
        requires
            old(self).wf(),
            knows_root(old(self)@.names, b@),
        ensures
            final(self).wf(),
            old(self)@.le(final(self)@),
            final(self)@.paths == old(self)@.paths,
            final(self)@.key_ok(r),
            final(self)@.root(r) == b@,
    {
        match b {
            Base::Var(v) => {
                let r = Key::var(known_number(&self.names, v.text()));
                proof {
                    assert(self@.key_ok(r));
                }
                r
            },
            Base::Param(p, i) => {
                let r = Key::param(known_number(&self.names, p.text()), *i);
                proof {
                    assert(self@.key_ok(r));
                }
                r
            },
            Base::Ret(p) => {
                let r = Key::ret(known_number(&self.names, p.text()));
                proof {
                    assert(self@.key_ok(r));
                }
                r
            },
            Base::CritSlot(id, i) => {
                let n: usize = self.number_inst(id);
                let r = Key::slot(n, *i);
                proof {
                    assert(self@.key_ok(r));
                }
                r
            },
            Base::CritRet(id) => {
                let n: usize = self.number_inst(id);
                let r = Key::res(n);
                proof {
                    assert(self@.key_ok(r));
                }
                r
            },
        }
    }

    /// The number of a path.
    pub fn number_path(&mut self, w: &AccessPath) -> (r: usize)
        requires
            old(self).wf(),
            knows_path(old(self)@.names, w@),
        ensures
            final(self).wf(),
            old(self)@.le(final(self)@),
            r < final(self)@.paths.len(),
            final(self)@.path(r) == w@,
    {
        let ghost c0 = self@;
        let key = self.number_base(&w.base);
        let ghost c1 = self@;
        let x: usize = self.bare(key);
        let ghost c2 = self@;
        proof {
            c0.lemma_le_trans(c1, c2);
        }
        let f = flat_of(&self.names, w.accessors.as_slice());
        let r: usize = self.append(x, f.as_slice());
        proof {
            c0.lemma_le_trans(c2, self@);
            assert(Seq::<Step>::empty() + steps(w.accessors@) =~= steps(w.accessors@));
        }
        r
    }

    /// The numbers of a value.
    pub fn number_value(&mut self, v: &PtVal) -> (r: (usize, usize))
        requires
            old(self).wf(),
            knows_value(old(self)@.names, v@),
        ensures
            final(self).wf(),
            old(self)@.le(final(self)@),
            final(self)@.value_ok(r.0, r.1),
            final(self)@.value(r.0, r.1) == v@,
    {
        match v {
            PtVal::Path(w) => {
                let x: usize = self.number_path(w);
                proof {
                    self@.lemma_value_path(x);
                }
                (0, x)
            },
            PtVal::Alloc(l) => {
                let x: usize = known_number(&self.names, l.text());
                proof {
                    self@.lemma_value_name(x);
                }
                (1, x)
            },
            PtVal::Const(c) => {
                let x: usize = known_number(&self.names, c.text());
                proof {
                    self@.lemma_value_name(x);
                }
                (2, x)
            },
        }
    }

    // -- from numbers to values -----------------------------------------------------

    /// The symbol with number `i`.
    pub fn symbol<S: Symbol>(&self, i: usize) -> (r: S)
        requires
            i < self@.names.len(),
        ensures
            r@ == self@.name(i),
    {
        S::of(self.names.text(i).clone())
    }

    pub fn crit_id(&self, id: usize) -> (r: CritId)
        requires
            self.wf(),
            id < self@.insts.len(),
        ensures
            r@ == self@.inst(id),
    {
        let n: usize = self.depth(id);
        let mut chain: Vec<Stmt> = Vec::new();
        let mut j: usize = 0;
        while j < n
            invariant
                j <= n,
                self.wf(),
                id < self@.insts.len(),
                n == self@.inst(id).depth(),
                chain@.len() == j,
                forall|z: int| 0 <= z < j ==> (#[trigger] chain@[z])@ == self@.inst(id).chain[z],
            decreases n - j,
        {
            let s: usize = self.site(id, j);
            let x: Stmt = self.symbol(s);
            chain.push(x);
            j += 1;
        }
        let stmt: Stmt = self.symbol(self.stmt(id));
        let r = CritId { stmt, chain };
        proof {
            assert(r@.chain =~= self@.inst(id).chain);
        }
        r
    }

    pub fn base(&self, key: Key) -> (r: Base)
        requires
            self.wf(),
            self@.key_ok(key),
        ensures
            r@ == self@.root(key),
    {
        match key.kind() {
            Kind::Var(v) => Base::Var(self.symbol(v)),
            Kind::Param(p, i) => Base::Param(self.symbol(p), i),
            Kind::Ret(p) => Base::Ret(self.symbol(p)),
            Kind::Slot(id, i) => Base::CritSlot(self.crit_id(id), i),
            Kind::Res(id) => Base::CritRet(self.crit_id(id)),
        }
    }

    pub fn accessor(&self, tag: usize, n: usize) -> (r: Accessor)
        requires
            step_ok(self@.names, tag, n),
        ensures
            r@ == step_of(self@.names, tag, n),
    {
        if tag == 0 {
            Accessor::Field(self.symbol(n))
        } else if tag == 1 {
            Accessor::Index(self.symbol(n))
        } else {
            Accessor::IndexUnknown
        }
    }

    pub fn access_path(&self, w: usize) -> (r: AccessPath)
        requires
            self.wf(),
            w < self@.paths.len(),
        ensures
            r@ == self@.path(w),
    {
        let base = self.base(self.key(w));
        let n: usize = self.steps(w);
        let mut accessors: Vec<Accessor> = Vec::new();
        let mut j: usize = 0;
        while j < n
            invariant
                j <= n,
                self.wf(),
                w < self@.paths.len(),
                n == self@.path(w).steps.len(),
                accessors@.len() == j,
                forall|z: int| 0 <= z < j ==> (#[trigger] accessors@[z])@ == self@.path(w).steps[z],
            decreases n - j,
        {
            let (tag, x) = self.step(w, j);
            let a = self.accessor(tag, x);
            accessors.push(a);
            j += 1;
        }
        let r = AccessPath { base, accessors };
        proof {
            assert(r@.steps =~= self@.path(w).steps);
        }
        r
    }

    pub fn pt_val(&self, tag: usize, x: usize) -> (r: PtVal)
        requires
            self.wf(),
            self@.value_ok(tag, x),
        ensures
            r@ == self@.value(tag, x),
    {
        if tag == 0 {
            proof {
                self@.lemma_value_path(x);
            }
            PtVal::Path(self.access_path(x))
        } else {
            proof {
                self@.lemma_value_other(tag, x);
            }
            if tag == 1 {
                PtVal::Alloc(self.symbol(x))
            } else {
                PtVal::Const(self.symbol(x))
            }
        }
    }
}

} // verus!
