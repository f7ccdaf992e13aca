//! Numbers for names, pending instances and access paths.
//!
//! The fixpoint is computed over numbers. A name's number is its place in a list
//! of distinct names; an instance is the row of its statement and call string; an
//! access path is the row of its root, three numbers wide, and of its accessors,
//! two numbers each. Equal things have equal numbers and rows, so the engine
//! compares and joins numbers only.
use vstd::hash_map::StringHashMap;
use vstd::prelude::*;

use crate::access_path::{Instance, Path, Root, Step, Value};
use crate::ir::Name;
use crate::table::{copy_row, same_row, Table};

verus! {

// ---------------------------------------------------------------------------
// Names
// ---------------------------------------------------------------------------

/// `a` is an initial part of `b`.
pub open spec fn initial<T>(a: Seq<T>, b: Seq<T>) -> bool {
    &&& a.len() <= b.len()
    &&& forall|i: int| 0 <= i < a.len() ==> #[trigger] b[i] == a[i]
}

/// Distinct names, numbered in the order they came.
pub struct Names {
    list: Vec<String>,
    index: StringHashMap<usize>,
}

impl View for Names {
    type V = Seq<Name>;

    closed spec fn view(&self) -> Seq<Name> {
        Seq::new(self.list@.len(), |i: int| self.list@[i]@)
    }
}

impl Names {
    pub closed spec fn wf(&self) -> bool {
        &&& self@.no_duplicates()
        &&& forall|i: int|
            0 <= i < self@.len() ==> self.index@.contains_key(#[trigger] self@[i])
                && self.index@[self@[i]] == i
        &&& forall|s: Name| #[trigger]
            self.index@.contains_key(s) ==> self.index@[s] < self@.len()
                && self@[self.index@[s] as int]
                == s
    }

    pub proof fn lemma_distinct(&self)
        requires
            self.wf(),
        ensures
            self@.no_duplicates(),
            self@.len() <= usize::MAX,
    {
        assert(self.list.len() == self.list@.len());
    }

    pub fn new() -> (r: Self)
        ensures
            r.wf(),
            r@ == Seq::<Name>::empty(),
    {
        let r = Names { list: Vec::new(), index: StringHashMap::new() };
        proof {
            assert(r@ =~= Seq::<Name>::empty());
        }
        r
    }

    pub fn len(&self) -> (r: usize)
        ensures
            r == self@.len(),
    {
        self.list.len()
    }

    /// The name with number `i`.
    pub fn text(&self, i: usize) -> (r: &String)
        requires
            i < self@.len(),
        ensures
            r@ == self@[i as int],
    {
        &self.list[i]
    }

    /// The number of a name, if it has one.
    pub fn find(&self, s: &String) -> (r: Option<usize>)
        requires
            self.wf(),
        ensures
            match r {
                Some(i) => i < self@.len() && self@[i as int] == s@,
                None => !self@.contains(s@),
            },
    {
        match self.index.get(s.as_str()) {
            Some(i) => Some(*i),
            None => None,
        }
    }

    /// The number of a name, which is given one if it has none.
    pub fn number(&mut self, s: &String) -> (r: usize)
        requires
            old(self).wf(),
        ensures
            final(self).wf(),
            initial(old(self)@, final(self)@),
            r < final(self)@.len(),
            final(self)@[r as int] == s@,
            final(self)@ == (if old(self)@.contains(s@) {
                old(self)@
            } else {
                old(self)@.push(s@)
            }),
    {
        match self.find(s) {
            Some(i) => i,
            None => {
                let i: usize = self.list.len();
                let ghost before = *old(self);
                self.list.push(s.clone());
                self.index.insert(s.clone(), i);
                proof {
                    assert(self@ =~= before@.push(s@));
                }
                i
            },
        }
    }
}

// ---------------------------------------------------------------------------
// The meaning of rows
// ---------------------------------------------------------------------------

/// A root in three numbers: its kind, what it names, and a position.
#[derive(Clone, Copy, PartialEq, Eq, Structural)]
pub struct Key {
    pub tag: usize,
    pub a: usize,
    pub b: usize,
}

/// The accessor that two numbers stand for.
pub open spec fn step_of(names: Seq<Name>, tag: usize, n: usize) -> Step {
    if tag == 0 {
        Step::Field(names[n as int])
    } else if tag == 1 {
        Step::Index(names[n as int])
    } else {
        Step::Unknown
    }
}

pub open spec fn step_ok(names: Seq<Name>, tag: usize, n: usize) -> bool {
    if tag <= 1 {
        n < names.len()
    } else {
        tag == 2 && n == 0
    }
}

/// A row of accessors, two numbers each.
pub open spec fn flat_ok(names: Seq<Name>, f: Seq<usize>) -> bool {
    &&& f.len() % 2 == 0
    &&& forall|j: int| 0 <= 2 * j < f.len() ==> #[trigger] step_ok(names, f[2 * j], f[2 * j + 1])
}

/// The accessors that a row stands for.
pub open spec fn flat_steps(names: Seq<Name>, f: Seq<usize>) -> Seq<Step> {
    Seq::new((f.len() / 2) as nat, |j: int| step_of(names, f[2 * j], f[2 * j + 1]))
}

/// The numbers behind a state of the engine.
#[verifier::ext_equal]
pub struct Codes {
    pub names: Seq<Name>,
    pub insts: Seq<Seq<usize>>,
    pub paths: Seq<Seq<usize>>,
}

impl Codes {
    pub open spec fn name(self, i: usize) -> Name {
        self.names[i as int]
    }

    pub open spec fn inst_row_ok(self, row: Seq<usize>) -> bool {
        &&& row.len() > 0
        &&& forall|j: int| 0 <= j < row.len() ==> (#[trigger] row[j]) < self.names.len()
    }

    pub open spec fn inst_of(self, row: Seq<usize>) -> Instance {
        Instance {
            stmt: self.names[row[0] as int],
            chain: Seq::new((row.len() - 1) as nat, |j: int| self.names[row[j + 1] as int]),
        }
    }

    pub closed spec fn inst(self, i: usize) -> Instance {
        self.inst_of(self.insts[i as int])
    }

    pub closed spec fn key_ok(self, key: Key) -> bool {
        if key.tag == 0 || key.tag == 2 {
            key.a < self.names.len() && key.b == 0
        } else if key.tag == 1 {
            key.a < self.names.len()
        } else if key.tag == 3 {
            key.a < self.insts.len()
        } else {
            key.tag == 4 && key.a < self.insts.len() && key.b == 0
        }
    }

    pub closed spec fn root(self, key: Key) -> Root {
        if key.tag == 0 {
            Root::Var(self.name(key.a))
        } else if key.tag == 1 {
            Root::Param(self.name(key.a), key.b)
        } else if key.tag == 2 {
            Root::Ret(self.name(key.a))
        } else if key.tag == 3 {
            Root::Slot(self.inst(key.a), key.b)
        } else {
            Root::Res(self.inst(key.a))
        }
    }

    pub open spec fn row_key(row: Seq<usize>) -> Key {
        Key { tag: row[0], a: row[1], b: row[2] }
    }

    pub closed spec fn path_row_ok(self, row: Seq<usize>) -> bool {
        &&& row.len() >= 3
        &&& self.key_ok(Self::row_key(row))
        &&& flat_ok(self.names, row.skip(3))
    }

    pub closed spec fn path_of(self, row: Seq<usize>) -> Path {
        Path { root: self.root(Self::row_key(row)), steps: flat_steps(self.names, row.skip(3)) }
    }

    pub closed spec fn path(self, i: usize) -> Path {
        self.path_of(self.paths[i as int])
    }

    /// The root of path number `i`.
    pub closed spec fn key(self, i: usize) -> Key {
        Self::row_key(self.paths[i as int])
    }

    /// The accessors of path number `i`.
    pub closed spec fn flat(self, i: usize) -> Seq<usize> {
        self.paths[i as int].skip(3)
    }

    /// The two numbers of a value name something.
    pub closed spec fn value_ok(self, tag: usize, x: usize) -> bool {
        if tag == 0 {
            x < self.paths.len()
        } else {
            tag <= 2 && x < self.names.len()
        }
    }

    pub closed spec fn value(self, tag: usize, x: usize) -> Value {
        if tag == 0 {
            Value::Path(self.path(x))
        } else if tag == 1 {
            Value::Alloc(self.name(x))
        } else {
            Value::Const(self.name(x))
        }
    }

    pub closed spec fn wf(self) -> bool {
        &&& self.names.len() <= usize::MAX
        &&& self.insts.len() <= usize::MAX
        &&& self.paths.len() <= usize::MAX
        &&& self.names.no_duplicates()
        &&& self.insts.no_duplicates()
        &&& self.paths.no_duplicates()
        &&& forall|i: int| 0 <= i < self.insts.len() ==> self.inst_row_ok(#[trigger] self.insts[i])
        &&& forall|i: int| 0 <= i < self.paths.len() ==> self.path_row_ok(#[trigger] self.paths[i])
    }

    /// Everything that has a number in `self` has the same one in `other`, and the
    /// names are the same.
    pub open spec fn le(self, other: Codes) -> bool {
        &&& other.names == self.names
        &&& initial(self.insts, other.insts)
        &&& initial(self.paths, other.paths)
    }
}

// ---------------------------------------------------------------------------
// Facts about rows
// ---------------------------------------------------------------------------

/// Different rows of accessors stand for different accessors.
pub proof fn lemma_flat_injective(names: Seq<Name>, f: Seq<usize>, g: Seq<usize>)
    requires
        names.no_duplicates(),
        flat_ok(names, f),
        flat_ok(names, g),
        flat_steps(names, f) == flat_steps(names, g),
    ensures
        f == g,
{
    let sf = flat_steps(names, f);
    let sg = flat_steps(names, g);
    assert(sf.len() == sg.len());
    assert forall|x: int| 0 <= x < f.len() implies f[x] == g[x] by {
        let j = x / 2;
        assert(sf[j] == step_of(names, f[2 * j], f[2 * j + 1]));
        assert(sg[j] == step_of(names, g[2 * j], g[2 * j + 1]));
        assert(step_ok(names, f[2 * j], f[2 * j + 1]));
        assert(step_ok(names, g[2 * j], g[2 * j + 1]));
        assert(f[2 * j] == g[2 * j] && f[2 * j + 1] == g[2 * j + 1]);
        assert(x == 2 * j || x == 2 * j + 1);
    }
    assert(f =~= g);
}

/// Accessors one after the other.
pub proof fn lemma_flat_append(names: Seq<Name>, f: Seq<usize>, g: Seq<usize>)
    requires
        flat_ok(names, f),
        flat_ok(names, g),
    ensures
        flat_ok(names, f + g),
        flat_steps(names, f + g) == flat_steps(names, f) + flat_steps(names, g),
{
    let h = f + g;
    assert forall|j: int| 0 <= 2 * j < h.len() implies #[trigger] step_ok(
        names,
        h[2 * j],
        h[2 * j + 1],
    ) by {
        if 2 * j < f.len() {
            assert(step_ok(names, f[2 * j], f[2 * j + 1]));
        } else {
            let x = j - f.len() / 2;
            assert(2 * x == 2 * j - f.len());
            assert(step_ok(names, g[2 * x], g[2 * x + 1]));
        }
    }
    assert forall|j: int|
        0 <= j < flat_steps(names, h).len() implies #[trigger] flat_steps(names, h)[j] == (
    flat_steps(names, f) + flat_steps(names, g))[j] by {
        if 2 * j >= f.len() {
            let x = j - f.len() / 2;
            assert(2 * x == 2 * j - f.len());
        }
    }
    assert(flat_steps(names, h) =~= flat_steps(names, f) + flat_steps(names, g));
}

/// Accessors cut in two.
pub proof fn lemma_flat_cut(names: Seq<Name>, f: Seq<usize>, n: int)
    requires
        flat_ok(names, f),
        0 <= 2 * n <= f.len(),
    ensures
        flat_ok(names, f.take(2 * n)),
        flat_ok(names, f.skip(2 * n)),
        flat_steps(names, f.take(2 * n)) == flat_steps(names, f).take(n),
        flat_steps(names, f.skip(2 * n)) == flat_steps(names, f).skip(n),
{
    let a = f.take(2 * n);
    let b = f.skip(2 * n);
    assert forall|j: int| 0 <= 2 * j < a.len() implies #[trigger] step_ok(
        names,
        a[2 * j],
        a[2 * j + 1],
    ) by {
        assert(step_ok(names, f[2 * j], f[2 * j + 1]));
    }
    assert forall|j: int| 0 <= 2 * j < b.len() implies #[trigger] step_ok(
        names,
        b[2 * j],
        b[2 * j + 1],
    ) by {
        let x = j + n;
        assert(step_ok(names, f[2 * x], f[2 * x + 1]));
    }
    assert(flat_steps(names, a) =~= flat_steps(names, f).take(n));
    assert forall|j: int| 0 <= j < flat_steps(names, b).len() implies #[trigger] flat_steps(
        names,
        b,
    )[j] == flat_steps(names, f).skip(n)[j] by {
        assert(2 * (j + n) == 2 * j + 2 * n);
    }
    assert(flat_steps(names, b) =~= flat_steps(names, f).skip(n));
}

impl Codes {
    /// Things keep their meaning as more of them get numbers.
    pub proof fn lemma_grow(self, d: Codes)
        requires
            self.wf(),
            self.le(d),
        ensures
            forall|i: usize|
                i < self.insts.len() ==> #[trigger] d.inst(i) == self.inst(i) && i < d.insts.len(),
            forall|key: Key|
                self.key_ok(key) ==> #[trigger] d.key_ok(key) && d.root(key) == self.root(key),
            forall|key: Key| self.key_ok(key) ==> #[trigger] d.root(key) == self.root(key),
            forall|i: usize|
                i < self.paths.len() ==> #[trigger] d.path(i) == self.path(i) && i < d.paths.len(),
            forall|i: usize| i < self.paths.len() ==> #[trigger] d.key(i) == self.key(i),
            forall|i: usize| i < self.paths.len() ==> #[trigger] d.flat(i) == self.flat(i),
            forall|tag: usize, x: usize|
                self.value_ok(tag, x) ==> #[trigger] d.value_ok(tag, x) && d.value(tag, x)
                    == self.value(tag, x),
            forall|tag: usize, x: usize|
                self.value_ok(tag, x) ==> #[trigger] d.value(tag, x) == self.value(tag, x),
    {
        assert forall|i: usize| i < self.paths.len() implies #[trigger] d.path(i) == self.path(i)
            by {
            assert(self.path_row_ok(self.paths[i as int]));
            assert(d.paths[i as int] == self.paths[i as int]);
        }
    }

    pub proof fn lemma_name_injective(self, i: usize, j: usize)
        requires
            self.wf(),
            i < self.names.len(),
            j < self.names.len(),
            self.name(i) == self.name(j),
        ensures
            i == j,
    {
    }

    pub proof fn lemma_inst_injective(self, i: usize, j: usize)
        requires
            self.wf(),
            i < self.insts.len(),
            j < self.insts.len(),
            self.inst(i) == self.inst(j),
        ensures
            i == j,
    {
        let a = self.insts[i as int];
        let b = self.insts[j as int];
        assert(self.inst_row_ok(a) && self.inst_row_ok(b));
        assert(self.inst_of(a).chain.len() == self.inst_of(b).chain.len());
        assert forall|x: int| 0 <= x < a.len() implies a[x] == b[x] by {
            if x > 0 {
                assert(self.inst_of(a).chain[x - 1] == self.inst_of(b).chain[x - 1]);
            }
            assert(self.names[a[x] as int] == self.names[b[x] as int]);
        }
        assert(a =~= b);
    }

    pub proof fn lemma_root_injective(self, x: Key, y: Key)
        requires
            self.wf(),
            self.key_ok(x),
            self.key_ok(y),
            self.root(x) == self.root(y),
        ensures
            x == y,
    {
        if x.tag >= 3 {
            self.lemma_inst_injective(x.a, y.a);
        } else {
            self.lemma_name_injective(x.a, y.a);
        }
    }

    pub proof fn lemma_path_injective(self, i: usize, j: usize)
        requires
            self.wf(),
            i < self.paths.len(),
            j < self.paths.len(),
            self.path(i) == self.path(j),
        ensures
            i == j,
    {
        let a = self.paths[i as int];
        let b = self.paths[j as int];
        assert(self.path_row_ok(a) && self.path_row_ok(b));
        self.lemma_root_injective(Self::row_key(a), Self::row_key(b));
        lemma_flat_injective(self.names, a.skip(3), b.skip(3));
        assert(a =~= seq![a[0], a[1], a[2]] + a.skip(3));
        assert(b =~= seq![b[0], b[1], b[2]] + b.skip(3));
    }

    /// A path is its root and its accessors.
    pub proof fn lemma_path(self, i: usize)
        requires
            self.wf(),
            i < self.paths.len(),
        ensures
            self.key_ok(self.key(i)),
            self.path(i).root == self.root(self.key(i)),
            flat_ok(self.names, self.flat(i)),
            self.path(i).steps == flat_steps(self.names, self.flat(i)),
            self.path(i).steps.len() == self.flat(i).len() / 2,
    {
        assert(self.path_row_ok(self.paths[i as int]));
    }

    pub proof fn lemma_value_path(self, x: usize)
        ensures
            self.value(0, x) == Value::Path(self.path(x)),
            self.value_ok(0, x) <==> x < self.paths.len(),
    {
    }

    pub proof fn lemma_value_other(self, tag: usize, x: usize)
        requires
            self.value_ok(tag, x),
            tag != 0,
        ensures
            tag == 1 || tag == 2,
            self.value(tag, x) == (if tag == 1 {
                Value::Alloc(self.name(x))
            } else {
                Value::Const(self.name(x))
            }),
            x < self.names.len(),
    {
    }

    pub proof fn lemma_value_injective(self, s: usize, x: usize, t: usize, y: usize)
        requires
            self.wf(),
            self.value_ok(s, x),
            self.value_ok(t, y),
            self.value(s, x) == self.value(t, y),
        ensures
            s == t,
            x == y,
    {
        if s == 0 {
            self.lemma_path_injective(x, y);
        } else {
            self.lemma_name_injective(x, y);
        }
    }

    pub proof fn lemma_value_name(self, x: usize)
        requires
            x < self.names.len(),
        ensures
            self.value_ok(1, x),
            self.value(1, x) == Value::Alloc(self.name(x)),
            self.value_ok(2, x),
            self.value(2, x) == Value::Const(self.name(x)),
    {
    }

    pub proof fn lemma_wf(self)
        requires
            self.wf(),
        ensures
            self.names.no_duplicates(),
            self.names.len() <= usize::MAX,
            self.insts.len() <= usize::MAX,
            self.paths.len() <= usize::MAX,
    {
    }

    pub proof fn lemma_le_trans(self, d: Codes, f: Codes)
        requires
            self.le(d),
            d.le(f),
        ensures
            self.le(f),
    {
        assert forall|i: int| 0 <= i < self.insts.len() implies #[trigger] f.insts[i]
            == self.insts[i] by {
            assert(d.insts[i] == self.insts[i]);
        }
        assert forall|i: int| 0 <= i < self.paths.len() implies #[trigger] f.paths[i]
            == self.paths[i] by {
            assert(d.paths[i] == self.paths[i]);
        }
    }
}

// ---------------------------------------------------------------------------
// Giving numbers
// ---------------------------------------------------------------------------

/// What a root's three numbers say.
pub enum Kind {
    Var(usize),
    Param(usize, usize),
    Ret(usize),
    Slot(usize, usize),
    Res(usize),
}

/// The rows behind the numbers.
pub struct Store {
    pub names: Names,
    pub insts: Table,
    pub paths: Table,
}

impl View for Store {
    type V = Codes;

    open spec fn view(&self) -> Codes {
        Codes { names: self.names@, insts: self.insts@, paths: self.paths@ }
    }
}

impl Key {
    /// What the three numbers say.
    pub fn kind(&self) -> (r: Kind)
        ensures
            forall|c: Codes| #[trigger]
                c.key_ok(*self) ==> match r {
                    Kind::Var(v) => v < c.names.len() && c.root(*self) == Root::Var(c.name(v)),
                    Kind::Param(p, i) => p < c.names.len() && c.root(*self) == Root::Param(
                        c.name(p),
                        i,
                    ),
                    Kind::Ret(p) => p < c.names.len() && c.root(*self) == Root::Ret(c.name(p)),
                    Kind::Slot(id, i) => id < c.insts.len() && c.root(*self) == Root::Slot(
                        c.inst(id),
                        i,
                    ),
                    Kind::Res(id) => id < c.insts.len() && c.root(*self) == Root::Res(c.inst(id)),
                },
    {
        if self.tag == 0 {
            Kind::Var(self.a)
        } else if self.tag == 1 {
            Kind::Param(self.a, self.b)
        } else if self.tag == 2 {
            Kind::Ret(self.a)
        } else if self.tag == 3 {
            Kind::Slot(self.a, self.b)
        } else {
            Kind::Res(self.a)
        }
    }

    pub fn var(v: usize) -> (r: Key)
        ensures
            forall|c: Codes|
                v < c.names.len() ==> #[trigger] c.key_ok(r) && c.root(r) == Root::Var(c.name(v)),
    {
        Key { tag: 0, a: v, b: 0 }
    }

    pub fn param(p: usize, i: usize) -> (r: Key)
        ensures
            forall|c: Codes|
                p < c.names.len() ==> #[trigger] c.key_ok(r) && c.root(r) == Root::Param(
                    c.name(p),
                    i,
                ),
    {
        Key { tag: 1, a: p, b: i }
    }

    pub fn ret(p: usize) -> (r: Key)
        ensures
            forall|c: Codes|
                p < c.names.len() ==> #[trigger] c.key_ok(r) && c.root(r) == Root::Ret(c.name(p)),
    {
        Key { tag: 2, a: p, b: 0 }
    }

    pub fn slot(id: usize, i: usize) -> (r: Key)
        ensures
            forall|c: Codes|
                id < c.insts.len() ==> #[trigger] c.key_ok(r) && c.root(r) == Root::Slot(
                    c.inst(id),
                    i,
                ),
    {
        Key { tag: 3, a: id, b: i }
    }

    pub fn res(id: usize) -> (r: Key)
        ensures
            forall|c: Codes|
                id < c.insts.len() ==> #[trigger] c.key_ok(r) && c.root(r) == Root::Res(c.inst(id)),
    {
        Key { tag: 4, a: id, b: 0 }
    }
}

impl Store {
    pub open spec fn wf(&self) -> bool {
        &&& self.names.wf()
        &&& self.insts.wf()
        &&& self.paths.wf()
        &&& self@.wf()
    }

    /// No instance and no path has a number yet.
    pub fn new(names: Names) -> (r: Self)
        requires
            names.wf(),
        ensures
            r.wf(),
            r@.names == names@,
            r@.insts.len() == 0,
            r@.paths.len() == 0,
    {
        proof {
            names.lemma_distinct();
        }
        Store { names, insts: Table::new(), paths: Table::new() }
    }

    pub fn add_inst(&mut self, row: Vec<usize>) -> (r: usize)
        requires
            old(self).wf(),
            old(self)@.inst_row_ok(row@),
        ensures
            final(self).wf(),
            old(self)@.le(final(self)@),
            final(self)@.paths == old(self)@.paths,
            r < final(self)@.insts.len(),
            final(self)@.inst(r) == old(self)@.inst_of(row@),
    {
        let ghost c = self@;
        let r: usize = self.insts.insert(row);
        proof {
            self.insts.lemma_distinct();
            assert(self@.paths == c.paths);
            assert forall|i: int| 0 <= i < self@.paths.len() implies self@.path_row_ok(
                #[trigger] self@.paths[i],
            ) by {
                assert(c.path_row_ok(c.paths[i]));
            }
            assert forall|i: int| 0 <= i < self@.insts.len() implies self@.inst_row_ok(
                #[trigger] self@.insts[i],
            ) by {
                if i < c.insts.len() {
                    assert(c.inst_row_ok(c.insts[i]));
                }
            }
        }
        r
    }

    fn add_path(&mut self, row: Vec<usize>) -> (r: usize)
        requires
            old(self).wf(),
            old(self)@.path_row_ok(row@),
        ensures
            final(self).wf(),
            old(self)@.le(final(self)@),
            final(self)@.insts == old(self)@.insts,
            r < final(self)@.paths.len(),
            final(self)@.path(r) == old(self)@.path_of(row@),
            final(self)@.key(r) == Codes::row_key(row@),
            final(self)@.flat(r) == row@.skip(3),
    {
        let ghost c = self@;
        let r: usize = self.paths.insert(row);
        proof {
            self.paths.lemma_distinct();
            assert forall|i: int| 0 <= i < self@.paths.len() implies self@.path_row_ok(
                #[trigger] self@.paths[i],
            ) by {
                if i < c.paths.len() {
                    assert(c.path_row_ok(c.paths[i]));
                }
            }
        }
        r
    }

    /// The instance of a statement where it occurs.
    pub fn origin(&mut self, s: usize) -> (r: usize)
        requires
            old(self).wf(),
            s < old(self)@.names.len(),
        ensures
            final(self).wf(),
            old(self)@.le(final(self)@),
            final(self)@.paths == old(self)@.paths,
            r < final(self)@.insts.len(),
            final(self)@.inst(r) == Instance::origin(old(self)@.name(s)),
    {
        let mut row: Vec<usize> = Vec::new();
        row.push(s);
        proof {
            assert(self@.inst_of(row@).chain =~= Seq::<Name>::empty());
        }
        self.add_inst(row)
    }

    /// An instance one callsite further out.
    pub fn push(&mut self, id: usize, s: usize) -> (r: usize)
        requires
            old(self).wf(),
            id < old(self)@.insts.len(),
            s < old(self)@.names.len(),
        ensures
            final(self).wf(),
            old(self)@.le(final(self)@),
            final(self)@.paths == old(self)@.paths,
            r < final(self)@.insts.len(),
            final(self)@.inst(r) == old(self)@.inst(id).push(old(self)@.name(s)),
    {
        let mut row = copy_row(self.insts.row(id).as_slice());
        proof {
            assert(self@.inst_row_ok(self@.insts[id as int]));
        }
        let ghost before = row@;
        row.push(s);
        proof {
            assert(self@.inst_of(row@).chain =~= self@.inst_of(before).chain.push(self@.name(s)));
        }
        self.add_inst(row)
    }

    /// The instance `id` renamed into the holder of `outer`.
    pub fn nest(&mut self, id: usize, outer: usize) -> (r: usize)
        requires
            old(self).wf(),
            id < old(self)@.insts.len(),
            outer < old(self)@.insts.len(),
        ensures
            final(self).wf(),
            old(self)@.le(final(self)@),
            final(self)@.paths == old(self)@.paths,
            r < final(self)@.insts.len(),
            final(self)@.inst(r) == old(self)@.inst(id).nest(old(self)@.inst(outer)),
    {
        let mut row = copy_row(self.insts.row(id).as_slice());
        let ghost a = row@;
        let ghost b = self@.insts[outer as int];
        proof {
            assert(self@.inst_row_ok(a));
            assert(self@.inst_row_ok(b));
        }
        let tail = self.insts.row(outer);
        let mut j: usize = 0;
        while j < tail.len()
            invariant
                j <= tail@.len(),
                tail@ == b,
                row@ == a + b.take(j as int),
            decreases tail@.len() - j,
        {
            row.push(tail[j]);
            proof {
                assert(b.take(j + 1) =~= b.take(j as int).push(b[j as int]));
                assert(row@ =~= a + b.take(j + 1));
            }
            j += 1;
        }
        proof {
            assert(b.take(j as int) =~= b);
            assert(self@.inst_row_ok(row@));
            let x = self@.inst_of(row@);
            let y = self@.inst_of(a).nest(self@.inst_of(b));
            assert forall|i: int| 0 <= i < x.chain.len() implies x.chain[i] == y.chain[i] by {
                if i >= a.len() {
                    assert(row@[i + 1] == b[i + 1 - a.len()]);
                }
            }
            assert(x.chain =~= y.chain);
        }
        self.add_inst(row)
    }

    /// How many callsites an instance has been propagated through.
    pub fn depth(&self, id: usize) -> (r: usize)
        requires
            self.wf(),
            id < self@.insts.len(),
        ensures
            r == self@.inst(id).depth(),
    {
        proof {
            assert(self@.inst_row_ok(self@.insts[id as int]));
        }
        self.insts.row(id).len() - 1
    }

    /// The statement an instance stands for.
    pub fn stmt(&self, id: usize) -> (r: usize)
        requires
            self.wf(),
            id < self@.insts.len(),
        ensures
            r < self@.names.len(),
            self@.name(r) == self@.inst(id).stmt,
    {
        proof {
            assert(self@.inst_row_ok(self@.insts[id as int]));
        }
        self.insts.at(id, 0)
    }

    /// The number of an instance's call string entry.
    pub fn site(&self, id: usize, j: usize) -> (r: usize)
        requires
            self.wf(),
            id < self@.insts.len(),
            j < self@.inst(id).depth(),
        ensures
            r < self@.names.len(),
            self@.name(r) == self@.inst(id).chain[j as int],
    {
        proof {
            assert(self@.inst_row_ok(self@.insts[id as int]));
        }
        let row = self.insts.row(id);
        let n: usize = row.len();
        proof {
            assert(j + 1 < n);
        }
        row[j + 1]
    }

    /// The root of a path.
    pub fn key(&self, w: usize) -> (r: Key)
        requires
            self.wf(),
            w < self@.paths.len(),
        ensures
            r == self@.key(w),
            self@.key_ok(r),
            self@.root(r) == self@.path(w).root,
    {
        proof {
            assert(self@.path_row_ok(self@.paths[w as int]));
        }
        let row = self.paths.row(w);
        Key { tag: row[0], a: row[1], b: row[2] }
    }

    /// How many accessors a path has.
    pub fn steps(&self, w: usize) -> (r: usize)
        requires
            self.wf(),
            w < self@.paths.len(),
        ensures
            r == self@.path(w).steps.len(),
    {
        proof {
            assert(self@.path_row_ok(self@.paths[w as int]));
        }
        (self.paths.row(w).len() - 3) / 2
    }

    /// The two numbers of a path's accessor.
    pub fn step(&self, w: usize, j: usize) -> (r: (usize, usize))
        requires
            self.wf(),
            w < self@.paths.len(),
            j < self@.path(w).steps.len(),
        ensures
            step_ok(self@.names, r.0, r.1),
            step_of(self@.names, r.0, r.1) == self@.path(w).steps[j as int],
    {
        proof {
            assert(self@.path_row_ok(self@.paths[w as int]));
            let f = self@.flat(w);
            assert(step_ok(self@.names, f[2 * j as int], f[2 * j as int + 1]));
        }
        let row = self.paths.row(w);
        let n: usize = row.len();
        proof {
            assert(3 + 2 * j + 1 < n);
        }
        (row[3 + 2 * j], row[4 + 2 * j])
    }

    /// The bare path of a root.
    pub fn bare(&mut self, key: Key) -> (r: usize)
        requires
            old(self).wf(),
            old(self)@.key_ok(key),
        ensures
            final(self).wf(),
            old(self)@.le(final(self)@),
            final(self)@.insts == old(self)@.insts,
            r < final(self)@.paths.len(),
            final(self)@.path(r) == Path::bare(old(self)@.root(key)),
    {
        let row: Vec<usize> = vec![key.tag, key.a, key.b];
        proof {
            assert(Codes::row_key(row@) == key);
            assert(row@.skip(3) =~= Seq::<usize>::empty());
            assert(flat_steps(self@.names, row@.skip(3)) =~= Seq::<Step>::empty());
        }
        self.add_path(row)
    }

    /// The number of the bare path of a root, if it has one.
    pub fn find_bare(&self, key: Key) -> (r: Option<usize>)
        requires
            self.wf(),
            self@.key_ok(key),
        ensures
            match r {
                Some(w) => w < self@.paths.len() && self@.path(w) == Path::bare(self@.root(key))
                    && self@.key(w) == key,
                None => forall|w: usize|
                    w < self@.paths.len() ==> #[trigger] self@.path(w) != Path::bare(
                        self@.root(key),
                    ),
            },
    {
        let row: Vec<usize> = vec![key.tag, key.a, key.b];
        let r = self.paths.find(row.as_slice());
        proof {
            assert(Codes::row_key(row@) == key);
            assert(row@.skip(3) =~= Seq::<usize>::empty());
            assert(flat_steps(self@.names, row@.skip(3)) =~= Seq::<Step>::empty());
            if r is None {
                assert forall|w: usize| w < self@.paths.len() implies #[trigger] self@.path(w)
                    != Path::bare(self@.root(key)) by {
                    if self@.path(w) == Path::bare(self@.root(key)) {
                        self@.lemma_path_row(w, row@);
                    }
                }
            }
        }
        r
    }

    /// The same accessors off another root.
    pub fn rebase(&mut self, w: usize, key: Key) -> (r: usize)
        requires
            old(self).wf(),
            w < old(self)@.paths.len(),
            old(self)@.key_ok(key),
        ensures
            final(self).wf(),
            old(self)@.le(final(self)@),
            final(self)@.insts == old(self)@.insts,
            r < final(self)@.paths.len(),
            final(self)@.path(r) == old(self)@.path(w).rebase(old(self)@.root(key)),
    {
        let mut row = copy_row(self.paths.row(w).as_slice());
        proof {
            assert(self@.path_row_ok(row@));
        }
        let ghost before = row@;
        row.set(0, key.tag);
        row.set(1, key.a);
        row.set(2, key.b);
        proof {
            assert(Codes::row_key(row@) == key);
            assert(row@.skip(3) =~= before.skip(3));
        }
        self.add_path(row)
    }

    /// A path with a row of accessors appended.
    pub fn append(&mut self, w: usize, f: &[usize]) -> (r: usize)
        requires
            old(self).wf(),
            w < old(self)@.paths.len(),
            flat_ok(old(self)@.names, f@),
        ensures
            final(self).wf(),
            old(self)@.le(final(self)@),
            final(self)@.insts == old(self)@.insts,
            r < final(self)@.paths.len(),
            final(self)@.key(r) == old(self)@.key(w),
            final(self)@.path(r) == old(self)@.path(w).with_steps(
                old(self)@.path(w).steps + flat_steps(old(self)@.names, f@),
            ),
    {
        let mut row = copy_row(self.paths.row(w).as_slice());
        let ghost a = row@;
        let mut j: usize = 0;
        while j < f.len()
            invariant
                j <= f@.len(),
                row@ == a + f@.take(j as int),
            decreases f@.len() - j,
        {
            row.push(f[j]);
            proof {
                assert(f@.take(j + 1) =~= f@.take(j as int).push(f@[j as int]));
                assert(row@ =~= a + f@.take(j + 1));
            }
            j += 1;
        }
        proof {
            assert(f@.take(j as int) =~= f@);
            assert(self@.path_row_ok(a));
            assert(row@.skip(3) =~= a.skip(3) + f@);
            lemma_flat_append(self@.names, a.skip(3), f@);
            assert(Codes::row_key(row@) == Codes::row_key(a));
        }
        self.add_path(row)
    }

    /// A copy of a path's accessors.
    pub fn flat(&self, w: usize) -> (r: Vec<usize>)
        requires
            self.wf(),
            w < self@.paths.len(),
        ensures
            r@ == self@.flat(w),
            flat_ok(self@.names, r@),
            flat_steps(self@.names, r@) == self@.path(w).steps,
    {
        proof {
            self@.lemma_path(w);
        }
        let (_, tail) = self.paths.row(w).as_slice().split_at(3);
        copy_row(tail)
    }

    /// If `long` is `short` followed by at least one more accessor, those that
    /// follow.
    pub fn rest(&self, long: usize, short: usize) -> (r: Option<Vec<usize>>)
        requires
            self.wf(),
            long < self@.paths.len(),
            short < self@.paths.len(),
        ensures
            ({
                let a = self@.path(long);
                let b = self@.path(short);
                match r {
                    Some(f) => a.extends(b) && a.steps.len() > b.steps.len() && flat_ok(
                        self@.names,
                        f@,
                    ) && flat_steps(self@.names, f@) == a.steps.skip(b.steps.len() as int),
                    None => !(a.extends(b) && a.steps.len() > b.steps.len()),
                }
            }),
    {
        let ghost c = self@;
        let ghost a = self@.path(long);
        let ghost b = self@.path(short);
        let ghost fa = self@.flat(long);
        let ghost fb = self@.flat(short);
        proof {
            c.lemma_path(long);
            c.lemma_path(short);
            c.lemma_wf();
            assert(c.path_row_ok(c.paths[long as int]));
            assert(c.path_row_ok(c.paths[short as int]));
        }
        let x = self.paths.row(long);
        let y = self.paths.row(short);
        if x.len() <= y.len() {
            return None;
        }
        let (head, tail) = x.as_slice().split_at(y.len());
        let ghost n = fb.len() as int / 2;
        proof {
            assert(2 * n == fb.len());
            lemma_flat_cut(c.names, fa, n);
            assert(fa.skip(fb.len() as int) =~= tail@);
            assert(head@.skip(3) =~= fa.take(fb.len() as int));
        }
        if same_row(head, y.as_slice()) {
            proof {
                assert(Codes::row_key(head@) == Codes::row_key(x@));
                assert(a.steps.take(n) == b.steps);
                assert(b.steps =~= a.steps.subrange(0, b.steps.len() as int));
                assert(b.steps.is_prefix_of(a.steps));
            }
            Some(copy_row(tail))
        } else {
            proof {
                if a.extends(b) {
                    c.lemma_root_injective(c.key(long), c.key(short));
                    assert(a.steps.take(n) =~= b.steps);
                    lemma_flat_injective(c.names, fa.take(2 * n), fb);
                    assert(head@ =~= y@) by {
                        assert forall|i: int| 0 <= i < y@.len() implies head@[i] == y@[i] by {
                            if i >= 3 {
                                assert(head@[i] == head@.skip(3)[i - 3]);
                                assert(y@[i] == fb[i - 3]);
                            }
                        }
                    }
                }
            }
            None
        }
    }
}

impl Codes {
    /// The row behind a path.
    proof fn lemma_path_row(self, w: usize, row: Seq<usize>)
        requires
            self.wf(),
            w < self.paths.len(),
            self.path_row_ok(row),
            self.path(w) == self.path_of(row),
        ensures
            self.paths[w as int] == row,
            self.paths.contains(row),
    {
        let a = self.paths[w as int];
        assert(self.path_row_ok(a));
        self.lemma_root_injective(Self::row_key(a), Self::row_key(row));
        lemma_flat_injective(self.names, a.skip(3), row.skip(3));
        assert(a =~= seq![a[0], a[1], a[2]] + a.skip(3));
        assert(row =~= seq![row[0], row[1], row[2]] + row.skip(3));
    }
}

} // verus!
