//! Rules as data, and their least model over any facts whatever.
//!
//! A rule is a head and a body. The body is read from left to right: a relation binds
//! the variables that are free so far and tests the others, a computation binds or tests
//! its result, and a negated or counted relation is read in the facts that the earlier
//! groups of rules have settled.
use vstd::prelude::*;

use crate::cells::{copy_row, same_rows, things, Cell, Thing};
use crate::ops::{apply, compute, seen, Op};

verus! {

// ---------------------------------------------------------------------------
// Rules
// ---------------------------------------------------------------------------

/// A column of a relation in a rule: a variable, anything at all, or no column.
#[derive(Clone, Copy, PartialEq, Eq, Structural)]
pub enum Arg {
    V(usize),
    Any,
    Nil,
}

/// One part of a body.
#[derive(Clone, Copy, PartialEq, Eq, Structural)]
pub enum Lit {
    /// The relation holds of the columns.
    Has(usize, Arg, Arg, Arg, Arg),
    /// The relation holds of no such columns.
    Lacks(usize, Arg, Arg, Arg, Arg),
    /// The variable is how many tuples of the relation have such columns.
    Count(Arg, usize, Arg, Arg, Arg, Arg),
    /// The variable is what the computation gives.
    Let(Arg, Op, Arg, Arg, Arg, Arg),
}

/// A rule in specifications.
#[verifier::ext_equal]
pub struct Clause {
    pub head: usize,
    pub cols: (Arg, Arg, Arg, Arg),
    pub body: Seq<Lit>,
}

pub struct Rule {
    pub head: usize,
    pub cols: (Arg, Arg, Arg, Arg),
    pub body: Vec<Lit>,
}

impl View for Rule {
    type V = Clause;

    open spec fn view(&self) -> Clause {
        Clause { head: self.head, cols: self.cols, body: self.body@ }
    }
}

pub open spec fn clauses(v: Seq<Rule>) -> Seq<Clause> {
    Seq::new(v.len(), |i: int| v[i]@)
}

/// A tuple of a relation.
#[verifier::ext_equal]
pub struct Truth {
    pub rel: usize,
    pub cells: Seq<Thing>,
}

// ---------------------------------------------------------------------------
// What a rule yields
// ---------------------------------------------------------------------------

/// The value of a column.
pub open spec fn value(env: Seq<Option<Thing>>, a: Arg) -> Option<Thing> {
    match a {
        Arg::V(x) => if x < env.len() {
            env[x as int]
        } else {
            None
        },
        _ => None,
    }
}

/// Bind one column, or test it.
pub open spec fn bind_one(env: Seq<Option<Thing>>, a: Arg, c: Option<Thing>) -> Option<
    Seq<Option<Thing>>,
> {
    match a {
        Arg::Nil => if c is None {
            Some(env)
        } else {
            None
        },
        Arg::Any => if c is Some {
            Some(env)
        } else {
            None
        },
        Arg::V(x) => if c is None || x >= env.len() {
            None
        } else if env[x as int] is None {
            Some(env.update(x as int, c))
        } else if env[x as int] == c {
            Some(env)
        } else {
            None
        },
    }
}

pub open spec fn bind_next(env: Option<Seq<Option<Thing>>>, a: Arg, c: Option<Thing>) -> Option<
    Seq<Option<Thing>>,
> {
    match env {
        Some(e) => bind_one(e, a, c),
        None => None,
    }
}

pub open spec fn cell_at(cells: Seq<Thing>, k: int) -> Option<Thing> {
    if 0 <= k < cells.len() {
        Some(cells[k])
    } else {
        None
    }
}

/// Bind the columns of a tuple, one after the other.
pub open spec fn bind(
    env: Seq<Option<Thing>>,
    cols: (Arg, Arg, Arg, Arg),
    cells: Seq<Thing>,
) -> Option<Seq<Option<Thing>>> {
    if cells.len() > 4 {
        None
    } else {
        bind_next(
            bind_next(
                bind_next(bind_one(env, cols.0, cell_at(cells, 0)), cols.1, cell_at(cells, 1)),
                cols.2,
                cell_at(cells, 2),
            ),
            cols.3,
            cell_at(cells, 3),
        )
    }
}

pub open spec fn add_cell(row: Option<Seq<Thing>>, env: Seq<Option<Thing>>, a: Arg) -> Option<
    Seq<Thing>,
> {
    match row {
        None => None,
        Some(s) => match a {
            Arg::Nil => Some(s),
            _ => match value(env, a) {
                Some(t) => Some(s.push(t)),
                None => None,
            },
        },
    }
}

/// The tuple that the head stands for.
pub open spec fn head_row(env: Seq<Option<Thing>>, cols: (Arg, Arg, Arg, Arg)) -> Option<
    Seq<Thing>,
> {
    add_cell(
        add_cell(add_cell(add_cell(Some(Seq::empty()), env, cols.0), env, cols.1), env, cols.2),
        env,
        cols.3,
    )
}

/// The tuples of a relation that fit the columns.
pub open spec fn fitting(
    low: Set<Truth>,
    rel: usize,
    env: Seq<Option<Thing>>,
    cols: (Arg, Arg, Arg, Arg),
) -> Set<Seq<Thing>> {
    Set::new(|cells: Seq<Thing>| low.contains(Truth { rel, cells })
        && bind(env, cols, cells) is Some)
}

/// The rest of the body, from part `i` on, yields the tuple.
pub open spec fn yields(
    r: Clause,
    i: nat,
    env: Seq<Option<Thing>>,
    db: Set<Truth>,
    low: Set<Truth>,
    row: Seq<Thing>,
) -> bool
    decreases r.body.len() - i,
{
    if i >= r.body.len() {
        head_row(env, r.cols) == Some(row)
    } else {
        match r.body[i as int] {
            Lit::Has(rel, a, b, c, d) => exists|cells: Seq<Thing>|
                {
                    &&& #[trigger] db.contains(Truth { rel, cells })
                    &&& bind(env, (a, b, c, d), cells) matches Some(next) && yields(
                        r,
                        i + 1,
                        next,
                        db,
                        low,
                        row,
                    )
                },
            Lit::Lacks(rel, a, b, c, d) => {
                &&& fitting(low, rel, env, (a, b, c, d)) == Set::<Seq<Thing>>::empty()
                &&& yields(r, i + 1, env, db, low, row)
            },
            Lit::Count(x, rel, a, b, c, d) => {
                let n = fitting(low, rel, env, (a, b, c, d)).len() as usize;
                bind_one(env, x, Some(Thing::Num(n))) matches Some(next) && yields(
                    r,
                    i + 1,
                    next,
                    db,
                    low,
                    row,
                )
            },
            Lit::Let(x, op, a, b, c, d) => {
                let out = apply(op, value(env, a), value(env, b), value(env, c), value(env, d));
                out is Some && (if x is Nil {
                    yields(r, i + 1, env, db, low, row)
                } else {
                    bind_one(env, x, out) matches Some(next) && yields(
                        r,
                        i + 1,
                        next,
                        db,
                        low,
                        row,
                    )
                })
            },
        }
    }
}

/// How many variables a rule may have.
pub const WIDTH: usize = 20;

/// No variable bound.
pub open spec fn unbound() -> Seq<Option<Thing>> {
    Seq::new(WIDTH as nat, |i: int| None)
}

pub open spec fn derives(r: Clause, db: Set<Truth>, low: Set<Truth>, t: Truth) -> bool {
    t.rel == r.head && yields(r, 0, unbound(), db, low, t.cells)
}

// ---------------------------------------------------------------------------
// Models
// ---------------------------------------------------------------------------

/// Nothing more follows from `m` by these rules over `low`.
pub open spec fn closed(rules: Seq<Clause>, low: Set<Truth>, m: Set<Truth>) -> bool {
    forall|k: int, t: Truth|
        0 <= k < rules.len() && #[trigger] derives(rules[k], m, low, t) ==> m.contains(t)
}

/// `m` is the least set that holds `low` and is closed under the rules.
pub open spec fn least(rules: Seq<Clause>, low: Set<Truth>, m: Set<Truth>) -> bool {
    &&& low.subset_of(m)
    &&& closed(rules, low, m)
    &&& forall|other: Set<Truth>|
        low.subset_of(other) && #[trigger] closed(rules, low, other) ==> m.subset_of(other)
}

/// `m` is what the groups of rules make of `given`, one after the other.
pub open spec fn settles(groups: Seq<Seq<Clause>>, given: Set<Truth>, m: Set<Truth>) -> bool
    decreases groups.len(),
{
    if groups.len() == 0 {
        m == given
    } else {
        exists|low: Set<Truth>|
            settles(groups.drop_last(), given, low) && #[trigger] least(groups.last(), low, m)
    }
}

/// What the groups make of the facts is one thing.
pub proof fn law_model_is_settled(
    groups: Seq<Seq<Clause>>,
    given: Set<Truth>,
    a: Set<Truth>,
    b: Set<Truth>,
)
    requires
        settles(groups, given, a),
        settles(groups, given, b),
    ensures
        a == b,
    decreases groups.len(),
{
    if groups.len() > 0 {
        let x = choose|x: Set<Truth>|
            settles(groups.drop_last(), given, x) && #[trigger] least(groups.last(), x, a);
        let y = choose|y: Set<Truth>|
            settles(groups.drop_last(), given, y) && #[trigger] least(groups.last(), y, b);
        law_model_is_settled(groups.drop_last(), given, x, y);
        assert(closed(groups.last(), x, a) && closed(groups.last(), x, b));
        assert(a =~= b);
    }
}

/// The facts given stay.
pub proof fn law_given_tuples_stay(groups: Seq<Seq<Clause>>, given: Set<Truth>, m: Set<Truth>)
    requires
        settles(groups, given, m),
    ensures
        given.subset_of(m),
    decreases groups.len(),
{
    if groups.len() > 0 {
        let x = choose|x: Set<Truth>|
            settles(groups.drop_last(), given, x) && #[trigger] least(groups.last(), x, m);
        law_given_tuples_stay(groups.drop_last(), given, x);
    }
}

/// A rule yields no less from more.
proof fn lemma_monotone(
    r: Clause,
    i: nat,
    env: Seq<Option<Thing>>,
    a: Set<Truth>,
    b: Set<Truth>,
    low: Set<Truth>,
    row: Seq<Thing>,
)
    requires
        a.subset_of(b),
        yields(r, i, env, a, low, row),
    ensures
        yields(r, i, env, b, low, row),
    decreases r.body.len() - i,
{
    if i < r.body.len() {
        match r.body[i as int] {
            Lit::Has(rel, x, y, z, w) => {
                let cols = (x, y, z, w);
                let cells = choose|cells: Seq<Thing>|
                    {
                        &&& #[trigger] a.contains(Truth { rel, cells })
                        &&& bind(env, cols, cells) matches Some(next) && yields(
                            r,
                            i + 1,
                            next,
                            a,
                            low,
                            row,
                        )
                    };
                let next = bind(env, cols, cells)->Some_0;
                lemma_monotone(r, i + 1, next, a, b, low, row);
                assert(b.contains(Truth { rel, cells }));
            },
            Lit::Lacks(rel, x, y, z, w) => {
                lemma_monotone(r, i + 1, env, a, b, low, row);
            },
            Lit::Count(v, rel, x, y, z, w) => {
                let n = fitting(low, rel, env, (x, y, z, w)).len() as usize;
                let next = bind_one(env, v, Some(Thing::Num(n)))->Some_0;
                lemma_monotone(r, i + 1, next, a, b, low, row);
            },
            Lit::Let(v, op, x, y, z, w) => {
                let out = apply(op, value(env, x), value(env, y), value(env, z), value(env, w));
                if v is Nil {
                    lemma_monotone(r, i + 1, env, a, b, low, row);
                } else {
                    let next = bind_one(env, v, out)->Some_0;
                    lemma_monotone(r, i + 1, next, a, b, low, row);
                }
            },
        }
    }
}

// ---------------------------------------------------------------------------
// Tuples in store
// ---------------------------------------------------------------------------

/// How many relations there can be.
pub const RELS: usize = 72;

pub open spec fn row_in(v: Seq<Vec<Cell>>, cells: Seq<Thing>) -> bool {
    exists|i: int| 0 <= i < v.len() && things((#[trigger] v[i])@) == cells
}

/// The tuples of every relation, each once.
pub struct Stock {
    pub rows: Vec<Vec<Vec<Cell>>>,
}

impl View for Stock {
    type V = Set<Truth>;

    open spec fn view(&self) -> Set<Truth> {
        Set::new(
            |t: Truth| t.rel < self.rows@.len() && row_in(self.rows@[t.rel as int]@, t.cells),
        )
    }
}

pub open spec fn distinct_rows(v: Seq<Vec<Cell>>) -> bool {
    forall|i: int, j: int|
        0 <= i < j < v.len() ==> things((#[trigger] v[i])@) != things((#[trigger] v[j])@)
}

/// How many tuples there are in all.
pub open spec fn total_rows(v: Seq<Vec<Vec<Cell>>>) -> nat
    decreases v.len(),
{
    if v.len() == 0 {
        0
    } else {
        total_rows(v.drop_last()) + v.last()@.len()
    }
}

proof fn lemma_total_bounded(v: Seq<Vec<Vec<Cell>>>)
    ensures
        total_rows(v) <= v.len() * usize::MAX,
    decreases v.len(),
{
    if v.len() > 0 {
        lemma_total_bounded(v.drop_last());
        assert(v.last()@.len() == v.last().len());
        assert((v.len() - 1) * usize::MAX + usize::MAX == v.len() * usize::MAX)
            by (nonlinear_arith)
            requires
                v.len() > 0,
        ;
    }
}

proof fn lemma_total_grows(a: Seq<Vec<Vec<Cell>>>, b: Seq<Vec<Vec<Cell>>>, k: int)
    requires
        0 <= k < a.len(),
        a.len() == b.len(),
        b[k]@.len() == a[k]@.len() + 1,
        forall|j: int| 0 <= j < a.len() && j != k ==> a[j] == #[trigger] b[j],
    ensures
        total_rows(b) == total_rows(a) + 1,
    decreases a.len(),
{
    if k == a.len() - 1 {
        assert(a.drop_last() =~= b.drop_last());
    } else {
        lemma_total_grows(a.drop_last(), b.drop_last(), k);
        assert(a.last() == b[b.len() - 1]);
    }
}

impl Stock {
    pub open spec fn wf(&self) -> bool {
        &&& self.rows@.len() == RELS
        &&& forall|k: int| 0 <= k < RELS ==> distinct_rows((#[trigger] self.rows@[k])@)
    }

    pub open spec fn size(&self) -> nat {
        total_rows(self.rows@)
    }

    pub fn new() -> (r: Stock)
        ensures
            r.wf(),
            r@ == Set::<Truth>::empty(),
    {
        let mut rows: Vec<Vec<Vec<Cell>>> = Vec::new();
        let mut i: usize = 0;
        while i < RELS
            invariant
                i <= RELS,
                rows@.len() == i,
                forall|k: int| 0 <= k < i ==> (#[trigger] rows@[k])@.len() == 0,
            decreases RELS - i,
        {
            rows.push(Vec::new());
            i += 1;
        }
        let r = Stock { rows };
        proof {
            assert(r@ =~= Set::<Truth>::empty());
        }
        r
    }

    fn has(&self, rel: usize, cells: &Vec<Cell>) -> (r: bool)
        requires
            self.wf(),
            rel < RELS,
        ensures
            r == self@.contains(Truth { rel, cells: things(cells@) }),
    {
        let v = &self.rows[rel];
        let mut i: usize = 0;
        while i < v.len()
            invariant
                i <= v@.len(),
                self.wf(),
                rel < RELS,
                v@ == self.rows@[rel as int]@,
                forall|j: int| 0 <= j < i ==> things((#[trigger] v@[j])@) != things(cells@),
            decreases v@.len() - i,
        {
            if same_rows(&v[i], cells) {
                proof {
                    assert(things(v@[i as int]@) == things(cells@));
                    assert(row_in(v@, things(cells@)));
                }
                return true;
            }
            i += 1;
        }
        false
    }

    /// Put a tuple in; tells whether it is new.
    pub fn put(&mut self, rel: usize, cells: Vec<Cell>) -> (r: bool)
        requires
            old(self).wf(),
            rel < RELS,
        ensures
            final(self).wf(),
            final(self)@ == old(self)@.insert(Truth { rel, cells: things(cells@) }),
            r == !old(self)@.contains(Truth { rel, cells: things(cells@) }),
            final(self).size() == old(self).size() + (if r {
                1nat
            } else {
                0
            }),
            !r ==> final(self)@ == old(self)@,
    {
        if self.has(rel, &cells) {
            proof {
                assert(self@ =~= self@.insert(Truth { rel, cells: things(cells@) }));
            }
            return false;
        }
        let ghost was = self.rows@;
        let ghost row = things(cells@);
        let mut list: Vec<Vec<Cell>> = Vec::new();
        self.rows.set_and_swap(rel, &mut list);
        let ghost before = list@;
        list.push(cells);
        self.rows.set_and_swap(rel, &mut list);
        proof {
            let now = self.rows@;
            assert(before == was[rel as int]@);
            assert(now[rel as int]@ == before.push(cells));
            lemma_total_grows(was, now, rel as int);
            assert forall|t: Truth| #[trigger] self@.contains(t) <==> old(self)@.insert(
                Truth { rel, cells: row },
            ).contains(t) by {
                if t.rel == rel {
                    if row_in(before, t.cells) {
                        let i = choose|i: int|
                            0 <= i < before.len() && things((#[trigger] before[i])@) == t.cells;
                        assert(things(now[rel as int]@[i]@) == t.cells);
                    }
                    if t.cells == row {
                        assert(things(now[rel as int]@[before.len() as int]@) == row);
                        assert(t =~= (Truth { rel, cells: row }));
                    }
                    if row_in(now[rel as int]@, t.cells) {
                        let i = choose|i: int|
                            0 <= i < now[rel as int]@.len() && things(
                                (#[trigger] now[rel as int]@[i])@,
                            ) == t.cells;
                        if i < before.len() {
                            assert(things(before[i]@) == t.cells);
                        }
                    }
                } else {
                    assert(t.rel < now.len() ==> now[t.rel as int] == was[t.rel as int]);
                }
            }
            assert(self@ =~= old(self)@.insert(Truth { rel, cells: row }));
            assert forall|k: int| 0 <= k < RELS implies distinct_rows(
                (#[trigger] self.rows@[k])@,
            ) by {
                assert(distinct_rows(was[k]@));
                if k == rel {
                    assert forall|i: int, j: int| 0 <= i < j < now[k]@.len() implies things(
                        (#[trigger] now[k]@[i])@,
                    ) != things((#[trigger] now[k]@[j])@) by {
                        assert(things(before[i]@) == things(now[k]@[i]@));
                        if j < before.len() {
                            assert(things(before[j]@) == things(now[k]@[j]@));
                        } else if things(before[i]@) == row {
                            assert(row_in(before, row));
                            assert(old(self)@.contains(Truth { rel, cells: row }));
                        }
                    }
                }
            }
        }
        true
    }
}

// ---------------------------------------------------------------------------
// Reading a body
// ---------------------------------------------------------------------------

pub open spec fn env_of(v: Seq<Option<Cell>>) -> Seq<Option<Thing>> {
    Seq::new(
        v.len(),
        |i: int|
            match v[i] {
                Some(c) => Some(c@),
                None => None,
            },
    )
}

fn copy_env(v: &Vec<Option<Cell>>) -> (r: Vec<Option<Cell>>)
    ensures
        env_of(r@) == env_of(v@),
{
    let mut r: Vec<Option<Cell>> = Vec::new();
    let mut i: usize = 0;
    while i < v.len()
        invariant
            i <= v@.len(),
            r@.len() == i,
            forall|j: int| 0 <= j < i ==> env_of(r@)[j] == #[trigger] env_of(v@)[j],
        decreases v@.len() - i,
    {
        let ghost before = r@;
        match &v[i] {
            Some(c) => {
                r.push(Some(c.copied()));
            },
            None => {
                r.push(None);
            },
        }
        proof {
            assert forall|j: int| 0 <= j < i + 1 implies env_of(r@)[j] == #[trigger] env_of(
                v@,
            )[j] by {
                if j < i {
                    assert(r@[j] == before[j]);
                    assert(env_of(before)[j] == env_of(v@)[j]);
                }
            }
        }
        i += 1;
    }
    proof {
        assert(env_of(r@) =~= env_of(v@));
    }
    r
}

fn value_of<'a>(env: &'a Vec<Option<Cell>>, a: Arg) -> (r: Option<&'a Cell>)
    ensures
        seen(r) == value(env_of(env@), a),
{
    match a {
        Arg::V(x) => if x < env.len() {
            match &env[x] {
                Some(c) => Some(c),
                None => None,
            }
        } else {
            None
        },
        _ => None,
    }
}

fn bind_cell(env: &mut Vec<Option<Cell>>, a: Arg, c: Option<&Cell>) -> (r: bool)
    ensures
        match bind_one(env_of(old(env)@), a, seen(c)) {
            Some(next) => r && env_of(final(env)@) == next,
            None => !r,
        },
{
    match a {
        Arg::Nil => c.is_none(),
        Arg::Any => c.is_some(),
        Arg::V(x) => {
            if x >= env.len() {
                return false;
            }
            match c {
                None => false,
                Some(c) => {
                    let ghost was = env@;
                    proof {
                        assert(env_of(was)[x as int] == (match was[x as int] {
                            Some(c) => Some(c@),
                            None => None,
                        }));
                    }
                    match &env[x] {
                        Some(y) => {
                            return y.same(c);
                        },
                        None => {},
                    }
                    env.set(x, Some(c.copied()));
                    proof {
                        assert(env_of(env@) =~= env_of(was).update(x as int, Some(c@)));
                    }
                    true
                },
            }
        },
    }
}

fn cell_of<'a>(row: &'a Vec<Cell>, k: usize) -> (r: Option<&'a Cell>)
    ensures
        seen(r) == cell_at(things(row@), k as int),
{
    if k < row.len() {
        Some(&row[k])
    } else {
        None
    }
}

/// A bound variable keeps its value.
proof fn lemma_bind_keeps(env: Seq<Option<Thing>>, a: Arg, c: Option<Thing>, x: int)
    requires
        bind_one(env, a, c) is Some,
        0 <= x < env.len(),
        env[x] is Some,
    ensures
        bind_one(env, a, c)->Some_0.len() == env.len(),
        bind_one(env, a, c)->Some_0[x] == env[x],
{
}

/// Whether the column contradicts what is bound already.
fn clashes(env: &Vec<Option<Cell>>, a: Arg, c: Option<&Cell>) -> (r: bool)
    ensures
        r ==> ({
            let (e, t) = (env_of(env@), seen(c));
            a matches Arg::V(x) && x < e.len() && e[x as int] is Some && e[x as int] != t
        }),
{
    match (value_of(env, a), c) {
        (Some(y), Some(c)) => !y.same(c),
        _ => false,
    }
}

proof fn lemma_clash(
    env: Seq<Option<Thing>>,
    cols: (Arg, Arg, Arg, Arg),
    cells: Seq<Thing>,
    k: int,
)
    requires
        0 <= k < 4,
        ({
            let a = if k == 0 {
                cols.0
            } else if k == 1 {
                cols.1
            } else if k == 2 {
                cols.2
            } else {
                cols.3
            };
            a matches Arg::V(x) && x < env.len() && env[x as int] is Some && env[x as int]
                != cell_at(cells, k)
        }),
    ensures
        bind(env, cols, cells) is None,
{
    let a = if k == 0 {
        cols.0
    } else if k == 1 {
        cols.1
    } else if k == 2 {
        cols.2
    } else {
        cols.3
    };
    let x = a->V_0 as int;
    if bind(env, cols, cells) is Some {
        let e1 = bind_one(env, cols.0, cell_at(cells, 0));
        lemma_bind_keeps(env, cols.0, cell_at(cells, 0), x);
        let e2 = bind_one(e1->Some_0, cols.1, cell_at(cells, 1));
        lemma_bind_keeps(e1->Some_0, cols.1, cell_at(cells, 1), x);
        let e3 = bind_one(e2->Some_0, cols.2, cell_at(cells, 2));
        lemma_bind_keeps(e2->Some_0, cols.2, cell_at(cells, 2), x);
    }
}

fn bind_row(env: &Vec<Option<Cell>>, cols: (Arg, Arg, Arg, Arg), row: &Vec<Cell>) -> (r: Option<
    Vec<Option<Cell>>,
>)
    ensures
        match r {
            Some(next) => bind(env_of(env@), cols, things(row@)) == Some(env_of(next@)),
            None => bind(env_of(env@), cols, things(row@)) is None,
        },
{
    if row.len() > 4 {
        return None;
    }
    let (c0, c1, c2, c3) = (cell_of(row, 0), cell_of(row, 1), cell_of(row, 2), cell_of(row, 3));
    if clashes(env, cols.0, c0) {
        proof {
            lemma_clash(env_of(env@), cols, things(row@), 0);
        }
        return None;
    }
    if clashes(env, cols.1, c1) {
        proof {
            lemma_clash(env_of(env@), cols, things(row@), 1);
        }
        return None;
    }
    if clashes(env, cols.2, c2) {
        proof {
            lemma_clash(env_of(env@), cols, things(row@), 2);
        }
        return None;
    }
    if clashes(env, cols.3, c3) {
        proof {
            lemma_clash(env_of(env@), cols, things(row@), 3);
        }
        return None;
    }
    let mut next = copy_env(env);
    if !bind_cell(&mut next, cols.0, c0) {
        return None;
    }
    if !bind_cell(&mut next, cols.1, c1) {
        return None;
    }
    if !bind_cell(&mut next, cols.2, c2) {
        return None;
    }
    if !bind_cell(&mut next, cols.3, c3) {
        return None;
    }
    Some(next)
}

fn add_value(row: &mut Vec<Cell>, env: &Vec<Option<Cell>>, a: Arg) -> (r: bool)
    ensures
        match add_cell(Some(things(old(row)@)), env_of(env@), a) {
            Some(next) => r && things(final(row)@) == next,
            None => !r,
        },
{
    match a {
        Arg::Nil => true,
        _ => match value_of(env, a) {
            Some(c) => {
                let ghost was = row@;
                row.push(c.copied());
                proof {
                    assert(things(row@) =~= things(was).push(c@));
                }
                true
            },
            None => false,
        },
    }
}

fn head_of(env: &Vec<Option<Cell>>, cols: (Arg, Arg, Arg, Arg)) -> (r: Option<Vec<Cell>>)
    ensures
        match r {
            Some(row) => head_row(env_of(env@), cols) == Some(things(row@)),
            None => head_row(env_of(env@), cols) is None,
        },
{
    let mut row: Vec<Cell> = Vec::new();
    proof {
        assert(things(row@) =~= Seq::<Thing>::empty());
    }
    if !add_value(&mut row, env, cols.0) {
        return None;
    }
    if !add_value(&mut row, env, cols.1) {
        return None;
    }
    if !add_value(&mut row, env, cols.2) {
        return None;
    }
    if !add_value(&mut row, env, cols.3) {
        return None;
    }
    Some(row)
}

/// How many tuples of the relation fit the columns.
fn count_fitting(low: &Stock, rel: usize, env: &Vec<Option<Cell>>, cols: (Arg, Arg, Arg, Arg))
    -> (r:
    usize)
    requires
        low.wf(),
    ensures
        fitting(low@, rel, env_of(env@), cols).finite(),
        r == fitting(low@, rel, env_of(env@), cols).len(),
{
    if rel >= RELS {
        proof {
            assert(fitting(low@, rel, env_of(env@), cols) =~= Set::<Seq<Thing>>::empty());
        }
        return 0;
    }
    let v = &low.rows[rel];
    let ghost e = env_of(env@);
    let ghost mut found: Set<Seq<Thing>> = Set::empty();
    let mut n: usize = 0;
    let mut i: usize = 0;
    while i < v.len()
        invariant
            i <= v@.len(),
            n <= i,
            e == env_of(env@),
            found.finite(),
            found.len() == n,
            distinct_rows(v@),
            forall|cells: Seq<Thing>| #[trigger]
                found.contains(cells) <==> bind(e, cols, cells) is Some && exists|j: int|
                    0 <= j < i && things((#[trigger] v@[j])@) == cells,
        decreases v@.len() - i,
    {
        let ghost row = things(v@[i as int]@);
        let ghost was = found;
        proof {
            if was.contains(row) {
                let j = choose|j: int| 0 <= j < i && things((#[trigger] v@[j])@) == row;
                assert(things(v@[j]@) != things(v@[i as int]@));
            }
        }
        match bind_row(env, cols, &v[i]) {
            Some(next) => {
                n += 1;
                proof {
                    found = was.insert(row);
                }
            },
            None => {},
        }
        proof {
            assert forall|cells: Seq<Thing>| #[trigger] found.contains(cells) <==> bind(
                e,
                cols,
                cells,
            ) is Some && exists|j: int|
                0 <= j < i + 1 && things((#[trigger] v@[j])@) == cells by {
                if was.contains(cells) {
                    let j = choose|j: int| 0 <= j < i && things((#[trigger] v@[j])@) == cells;
                    assert(things(v@[j]@) == cells);
                }
                if exists|j: int| 0 <= j < i + 1 && things((#[trigger] v@[j])@) == cells {
                    let j = choose|j: int| 0 <= j < i + 1 && things((#[trigger] v@[j])@) == cells;
                    if j < i {
                        assert(things(v@[j]@) == cells);
                    }
                }
            }
        }
        i += 1;
    }
    proof {
        let all = fitting(low@, rel, e, cols);
        assert forall|cells: Seq<Thing>| found.contains(cells) <==> #[trigger] all.contains(
            cells,
        ) by {
            assert(low@.contains(Truth { rel, cells }) <==> row_in(v@, cells));
        }
        assert(found =~= all);
    }
    n
}

/// The rows of `out` are those of `was` and what the rest of the body yields.
spec fn extended(
    out: Seq<Vec<Cell>>,
    was: Seq<Vec<Cell>>,
    r: Clause,
    i: nat,
    env: Seq<Option<Thing>>,
    db: Set<Truth>,
    low: Set<Truth>,
) -> bool {
    forall|cells: Seq<Thing>| #[trigger]
        row_in(out, cells) <==> row_in(was, cells) || yields(r, i, env, db, low, cells)
}

/// The rule speaks for a relation that there can be.
pub open spec fn known(r: Clause) -> bool {
    r.head < RELS
}

fn search(
    r: &Rule,
    i: usize,
    env: &Vec<Option<Cell>>,
    db: &Stock,
    low: &Stock,
    out: &mut Vec<Vec<Cell>>,
)
    requires
        db.wf(),
        low.wf(),
        i <= r.body@.len(),
    ensures
        extended(final(out)@, old(out)@, r@, i as nat, env_of(env@), db@, low@),
    decreases r.body@.len() - i,
{
    let ghost e = env_of(env@);
    let ghost start = out@;
    if i == r.body.len() {
        match head_of(env, r.cols) {
            Some(row) => {
                out.push(row);
                proof {
                    lemma_row_push(start, out@, row);
                }
            },
            None => {},
        }
        return;
    }
    match r.body[i] {
        Lit::Has(rel, a, b, c, d) => {
            let cols = (a, b, c, d);
            if rel >= RELS {
                return;
            }
            let v = &db.rows[rel];
            let mut j: usize = 0;
            while j < v.len()
                invariant
                    j <= v@.len(),
                    db.wf(),
                    low.wf(),
                    rel < RELS,
                    v@ == db.rows@[rel as int]@,
                    i < r.body.len(),
                    e == env_of(env@),
                    cols == (a, b, c, d),
                    forall|cells: Seq<Thing>| #[trigger]
                        row_in(out@, cells) <==> row_in(start, cells) || found_before(
                            v@,
                            j as int,
                            r@,
                            i as nat,
                            e,
                            cols,
                            db@,
                            low@,
                            cells,
                        ),
                decreases v@.len() - j, 0int,
            {
                let ghost was = out@;
                match bind_row(env, cols, &v[j]) {
                    Some(next) => {
                        search(r, i + 1, &next, db, low, out);
                    },
                    None => {},
                }
                proof {
                    assert forall|cells: Seq<Thing>| #[trigger] row_in(out@, cells) <==> row_in(
                        start,
                        cells,
                    ) || found_before(
                        v@,
                        j + 1,
                        r@,
                        i as nat,
                        e,
                        cols,
                        db@,
                        low@,
                        cells,
                    ) by {
                        lemma_found_next(v@, j as int, r@, i as nat, e, cols, db@, low@, cells);
                        assert(row_in(was, cells) || !row_in(was, cells));
                    }
                }
                j += 1;
            }
            proof {
                assert forall|cells: Seq<Thing>| #[trigger] row_in(out@, cells) <==> row_in(
                    start,
                    cells,
                ) || yields(r@, i as nat, e, db@, low@, cells) by {
                    lemma_found_all(db, rel, r@, i as nat, e, cols, low@, cells);
                }
            }
        },
        Lit::Lacks(rel, a, b, c, d) => {
            let n: usize = count_fitting(low, rel, env, (a, b, c, d));
            let ghost set = fitting(low@, rel, e, (a, b, c, d));
            if n == 0 {
                proof {
                    assert(set =~= Set::<Seq<Thing>>::empty());
                }
                search(r, i + 1, env, db, low, out);
            } else {
                proof {
                    assert(set != Set::<Seq<Thing>>::empty());
                }
            }
        },
        Lit::Count(x, rel, a, b, c, d) => {
            let n: usize = count_fitting(low, rel, env, (a, b, c, d));
            let mut next = copy_env(env);
            let cell = Cell::Num(n);
            if bind_cell(&mut next, x, Some(&cell)) {
                search(r, i + 1, &next, db, low, out);
            }
        },
        Lit::Let(x, op, a, b, c, d) => {
            match compute(
                op,
                value_of(env, a),
                value_of(env, b),
                value_of(env, c),
                value_of(env, d),
            ) {
                None => {},
                Some(cell) => {
                    match x {
                        Arg::Nil => {
                            search(r, i + 1, env, db, low, out);
                        },
                        _ => {
                            let mut next = copy_env(env);
                            if bind_cell(&mut next, x, Some(&cell)) {
                                search(r, i + 1, &next, db, low, out);
                            }
                        },
                    }
                },
            }
        },
    }
}

proof fn lemma_row_push(was: Seq<Vec<Cell>>, now: Seq<Vec<Cell>>, row: Vec<Cell>)
    requires
        now == was.push(row),
    ensures
        forall|cells: Seq<Thing>| #[trigger]
            row_in(now, cells) <==> row_in(was, cells) || cells == things(row@),
{
    assert forall|cells: Seq<Thing>| #[trigger] row_in(now, cells) <==> row_in(was, cells) || cells
        == things(row@) by {
        if row_in(was, cells) {
            let i = choose|i: int| 0 <= i < was.len() && things((#[trigger] was[i])@) == cells;
            assert(things(now[i]@) == cells);
        }
        assert(things(now[was.len() as int]@) == things(row@));
        if row_in(now, cells) {
            let i = choose|i: int| 0 <= i < now.len() && things((#[trigger] now[i])@) == cells;
            if i < was.len() {
                assert(things(was[i]@) == cells);
            }
        }
    }
}

/// One of the first `n` tuples fits, and the rest of the body yields the row with it.
spec fn found_before(
    v: Seq<Vec<Cell>>,
    n: int,
    r: Clause,
    i: nat,
    env: Seq<Option<Thing>>,
    cols: (Arg, Arg, Arg, Arg),
    db: Set<Truth>,
    low: Set<Truth>,
    row: Seq<Thing>,
) -> bool {
    exists|j: int|
        0 <= j < n && (bind(env, cols, things((#[trigger] v[j])@)) matches Some(next) && yields(
            r,
            i + 1,
            next,
            db,
            low,
            row,
        ))
}

proof fn lemma_found_next(
    v: Seq<Vec<Cell>>,
    n: int,
    r: Clause,
    i: nat,
    env: Seq<Option<Thing>>,
    cols: (Arg, Arg, Arg, Arg),
    db: Set<Truth>,
    low: Set<Truth>,
    row: Seq<Thing>,
)
    requires
        0 <= n < v.len(),
    ensures
        found_before(v, n + 1, r, i, env, cols, db, low, row) <==> found_before(
            v,
            n,
            r,
            i,
            env,
            cols,
            db,
            low,
            row,
        ) || (bind(env, cols, things(v[n]@)) matches Some(next) && yields(
            r,
            i + 1,
            next,
            db,
            low,
            row,
        )),
{
}

proof fn lemma_has_yields(
    r: Clause,
    i: nat,
    env: Seq<Option<Thing>>,
    db: Set<Truth>,
    low: Set<Truth>,
    row: Seq<Thing>,
    cells: Seq<Thing>,
)
    requires
        i < r.body.len(),
        r.body[i as int] matches Lit::Has(rel, a, b, c, d) && db.contains(Truth { rel, cells })
            && bind(env, (a, b, c, d), cells) is Some && yields(
            r,
            i + 1,
            bind(env, (a, b, c, d), cells)->Some_0,
            db,
            low,
            row,
        ),
    ensures
        yields(r, i, env, db, low, row),
{
}

proof fn lemma_found_all(
    stock: &Stock,
    rel: usize,
    r: Clause,
    i: nat,
    env: Seq<Option<Thing>>,
    cols: (Arg, Arg, Arg, Arg),
    low: Set<Truth>,
    row: Seq<Thing>,
)
    requires
        stock.wf(),
        rel < RELS,
        i < r.body.len(),
        r.body[i as int] == Lit::Has(rel, cols.0, cols.1, cols.2, cols.3),
    ensures
        yields(r, i, env, stock@, low, row) <==> found_before(
            stock.rows@[rel as int]@,
            stock.rows@[rel as int]@.len() as int,
            r,
            i,
            env,
            cols,
            stock@,
            low,
            row,
        ),
{
    let v = stock.rows@[rel as int]@;
    let db = stock@;
    assert(cols == (cols.0, cols.1, cols.2, cols.3));
    if yields(r, i, env, db, low, row) {
        let cells = choose|cells: Seq<Thing>|
            {
                &&& #[trigger] db.contains(Truth { rel, cells })
                &&& bind(env, (cols.0, cols.1, cols.2, cols.3), cells) matches Some(next) && yields(
                    r,
                    i + 1,
                    next,
                    db,
                    low,
                    row,
                )
            };
        assert(row_in(v, cells));
        let j = choose|j: int| 0 <= j < v.len() && things((#[trigger] v[j])@) == cells;
        assert(things(v[j]@) == cells);
        let next = bind(env, (cols.0, cols.1, cols.2, cols.3), cells)->Some_0;
        assert(bind(env, cols, things(v[j]@)) == Some(next));
        assert(yields(r, i + 1, next, db, low, row));
        assert(found_before(v, v.len() as int, r, i, env, cols, db, low, row));
    }
    if found_before(v, v.len() as int, r, i, env, cols, db, low, row) {
        let j = choose|j: int|
            0 <= j < v.len() && (bind(env, cols, things((#[trigger] v[j])@)) matches Some(next)
                && yields(r, i + 1, next, db, low, row));
        let cells = things(v[j]@);
        assert(row_in(v, cells));
        assert(db.contains(Truth { rel, cells }));
        lemma_has_yields(r, i, env, db, low, row, cells);
    }
}

// ---------------------------------------------------------------------------
// Closing
// ---------------------------------------------------------------------------

fn no_bindings() -> (r: Vec<Option<Cell>>)
    ensures
        env_of(r@) == unbound(),
{
    let mut r: Vec<Option<Cell>> = Vec::new();
    let mut i: usize = 0;
    while i < WIDTH
        invariant
            i <= WIDTH,
            r@.len() == i,
            forall|j: int| 0 <= j < i ==> (#[trigger] r@[j]) is None,
        decreases WIDTH - i,
    {
        r.push(None);
        i += 1;
    }
    proof {
        assert(env_of(r@) =~= unbound());
    }
    r
}

/// Everything in `m` follows from `low`.
spec fn follows(rules: Seq<Clause>, low: Set<Truth>, m: Set<Truth>) -> bool {
    forall|other: Set<Truth>|
        low.subset_of(other) && #[trigger] closed(rules, low, other) ==> m.subset_of(other)
}

proof fn lemma_follows(
    rules: Seq<Clause>,
    low: Set<Truth>,
    m: Set<Truth>,
    k: int,
    t: Truth,
)
    requires
        follows(rules, low, m),
        0 <= k < rules.len(),
        derives(rules[k], m, low, t),
    ensures
        follows(rules, low, m.insert(t)),
{
    assert forall|other: Set<Truth>|
        low.subset_of(other) && #[trigger] closed(rules, low, other) implies m.insert(
        t,
    ).subset_of(other) by {
        assert(m.subset_of(other));
        lemma_monotone(rules[k], 0, unbound(), m, other, low, t.cells);
        assert(derives(rules[k], other, low, t));
    }
}

/// Fire one rule; tells whether it found anything new.
fn fire(
    rules: &Vec<Rule>,
    k: usize,
    db: &mut Stock,
    low: &Stock,
) -> (r: bool)
    requires
        old(db).wf(),
        low.wf(),
        k < rules@.len(),
        known(rules@[k as int]@),
        follows(clauses(rules@), low@, old(db)@),
        low@.subset_of(old(db)@),
    ensures
        final(db).wf(),
        follows(clauses(rules@), low@, final(db)@),
        old(db)@.subset_of(final(db)@),
        r ==> final(db).size() > old(db).size(),
        !r ==> final(db)@ == old(db)@ && final(db).size() == old(db).size() && forall|t: Truth|
            #[trigger] derives(rules@[k as int]@, old(db)@, low@, t) ==> old(db)@.contains(t),
{
    let ghost all = clauses(rules@);
    let ghost m = db@;
    let ghost clause = rules@[k as int]@;
    let mut out: Vec<Vec<Cell>> = Vec::new();
    let env = no_bindings();
    search(&rules[k], 0, &env, db, low, &mut out);
    proof {
        assert forall|cells: Seq<Thing>| #[trigger] row_in(out@, cells) <==> yields(
            clause,
            0,
            unbound(),
            m,
            low@,
            cells,
        ) by {
            assert(!row_in(Seq::<Vec<Cell>>::empty(), cells));
        }
        assert(all[k as int] == clause);
    }
    let head = rules[k].head;
    let mut fresh = false;
    let mut i: usize = 0;
    while i < out.len()
        invariant
            i <= out@.len(),
            db.wf(),
            head < RELS,
            k < rules@.len(),
            clause == rules@[k as int]@,
            head == clause.head,
            all == clauses(rules@),
            all[k as int] == clause,
            m == old(db)@,
            m.subset_of(db@),
            follows(all, low@, db@),
            follows(all, low@, m),
            forall|cells: Seq<Thing>| #[trigger]
                row_in(out@, cells) <==> yields(clause, 0, unbound(), m, low@, cells),
            fresh ==> db.size() > old(db).size(),
            !fresh ==> db@ == m && db.size() == old(db).size() && forall|j: int|
                0 <= j < i ==> m.contains(Truth { rel: head,
                    cells: things((#[trigger] out@[j])@) }),
        decreases out@.len() - i,
    {
        let row = copy_row(&out[i]);
        let ghost before = db@;
        let ghost t = Truth { rel: head, cells: things(row@) };
        proof {
            assert(things(out@[i as int]@) == t.cells);
            assert(row_in(out@, t.cells));
            lemma_monotone(clause, 0, unbound(), m, before, low@, t.cells);
            assert(derives(all[k as int], before, low@, t));
            lemma_follows(all, low@, before, k as int, t);
        }
        if db.put(head, row) {
            fresh = true;
        } else {
            proof {
                assert(before.contains(t));
            }
        }
        i += 1;
    }
    proof {
        if !fresh {
            assert forall|t: Truth| #[trigger] derives(clause, m, low@, t)
                implies m.contains(t) by {
                assert(row_in(out@, t.cells));
                let j = choose|j: int| 0 <= j < out@.len()
                    && things((#[trigger] out@[j])@) == t.cells;
                assert(m.contains(Truth { rel: head, cells: things(out@[j]@) }));
                assert(t =~= (Truth { rel: head, cells: t.cells }));
            }
        }
    }
    fresh
}

pub open spec fn all_known(rules: Seq<Clause>) -> bool {
    forall|k: int| 0 <= k < rules.len() ==> known(#[trigger] rules[k])
}

/// The least set that holds `low` and is closed under the rules.
pub fn close(rules: &Vec<Rule>, low: &Stock) -> (db: Stock)
    requires
        low.wf(),
        all_known(clauses(rules@)),
    ensures
        db.wf(),
        least(clauses(rules@), low@, db@),
{
    let ghost all = clauses(rules@);
    let mut db = copy_stock(low);
    let mut again = true;
    while again
        invariant
            db.wf(),
            low.wf(),
            all == clauses(rules@),
            all_known(all),
            low@.subset_of(db@),
            follows(all, low@, db@),
            !again ==> closed(all, low@, db@),
        decreases RELS * usize::MAX - db.size() + (if again { 1int } else { 0int }),
    {
        let ghost start = db@;
        let ghost size = db.size();
        let mut k: usize = 0;
        let mut fresh = false;
        while k < rules.len()
            invariant
                k <= rules@.len(),
                db.wf(),
                low.wf(),
                all == clauses(rules@),
                all_known(all),
                low@.subset_of(db@),
                follows(all, low@, db@),
                fresh ==> db.size() > size,
                !fresh ==> db@ == start && db.size() == size && forall|j: int, t: Truth|
                    0 <= j < k && #[trigger] derives(all[j], start, low@, t) ==> start.contains(t),
            decreases rules@.len() - k,
        {
            proof {
                assert(known(all[k as int]));
                assert(all[k as int] == rules@[k as int]@);
            }
            let ghost before = db.size();
            let r = fire(rules, k, &mut db, low);
            if r {
                fresh = true;
            }
            k += 1;
        }
        proof {
            lemma_total_bounded(db.rows@);
        }
        again = fresh;
    }
    db
}

fn copy_stock(s: &Stock) -> (r: Stock)
    requires
        s.wf(),
    ensures
        r.wf(),
        r@ == s@,
{
    let mut rows: Vec<Vec<Vec<Cell>>> = Vec::new();
    let mut i: usize = 0;
    while i < RELS
        invariant
            i <= RELS,
            s.wf(),
            rows@.len() == i,
            forall|k: int| 0 <= k < i ==> same_lists((#[trigger] rows@[k])@, s.rows@[k]@),
        decreases RELS - i,
    {
        rows.push(copy_list(&s.rows[i]));
        i += 1;
    }
    let r = Stock { rows };
    proof {
        assert forall|k: int| 0 <= k < RELS implies distinct_rows((#[trigger] r.rows@[k])@) by {
            assert(same_lists(r.rows@[k]@, s.rows@[k]@));
            assert(distinct_rows(s.rows@[k]@));
            let (a, b) = (r.rows@[k]@, s.rows@[k]@);
            assert forall|i: int, j: int| 0 <= i < j < a.len() implies things(
                (#[trigger] a[i])@,
            ) != things((#[trigger] a[j])@) by {
                assert(things(b[i]@) != things(b[j]@));
            }
        }
        assert forall|t: Truth| #[trigger] r@.contains(t) <==> s@.contains(t) by {
            if t.rel < RELS {
                let (a, b) = (r.rows@[t.rel as int]@, s.rows@[t.rel as int]@);
                assert(same_lists(a, b));
                if row_in(a, t.cells) {
                    let i = choose|i: int|
                        0 <= i < a.len() && things((#[trigger] a[i])@) == t.cells;
                    assert(things(b[i]@) == t.cells);
                }
                if row_in(b, t.cells) {
                    let i = choose|i: int|
                        0 <= i < b.len() && things((#[trigger] b[i])@) == t.cells;
                    assert(things(a[i]@) == t.cells);
                }
            }
        }
        assert(r@ =~= s@);
    }
    r
}

spec fn same_lists(a: Seq<Vec<Cell>>, b: Seq<Vec<Cell>>) -> bool {
    &&& a.len() == b.len()
    &&& forall|i: int| 0 <= i < a.len() ==> things((#[trigger] a[i])@) == things(b[i]@)
}

fn copy_list(v: &Vec<Vec<Cell>>) -> (r: Vec<Vec<Cell>>)
    ensures
        same_lists(r@, v@),
{
    let mut r: Vec<Vec<Cell>> = Vec::new();
    let mut i: usize = 0;
    while i < v.len()
        invariant
            i <= v@.len(),
            r@.len() == i,
            forall|j: int| 0 <= j < i ==> things((#[trigger] r@[j])@) == things(v@[j]@),
        decreases v@.len() - i,
    {
        r.push(copy_row(&v[i]));
        i += 1;
    }
    r
}

} // verus!
