//! Facts before they have a type: rows of text and numbers under the relation they
//! belong to, and the typed relations made from them.
use vstd::prelude::*;

use crate::ir::{Name, Symbol};
use crate::order::{self, Ranked};
use crate::tuples::tuples;

verus! {

/// One column of a row.
pub enum Datum {
    Text(Name),
    Num(usize),
}

impl Datum {
    pub open spec fn is_text(self) -> bool {
        self is Text
    }

    pub open spec fn text(self) -> Name {
        self->Text_0
    }

    pub open spec fn num(self) -> usize {
        self->Num_0
    }
}

/// One column of a row.
pub enum Cell {
    Text(String),
    Num(usize),
}

impl View for Cell {
    type V = Datum;

    open spec fn view(&self) -> Datum {
        match *self {
            Cell::Text(s) => Datum::Text(s@),
            Cell::Num(n) => Datum::Num(n),
        }
    }
}

/// A row of columns.
pub struct Row(pub Vec<Cell>);

impl View for Row {
    type V = Seq<Datum>;

    open spec fn view(&self) -> Seq<Datum> {
        Seq::new(self.0@.len(), |i: int| self.0@[i]@)
    }
}

/// The rows of a list by their columns.
pub open spec fn views(v: Seq<Row>) -> Seq<Seq<Datum>> {
    Seq::new(v.len(), |i: int| v[i]@)
}

impl Row {
    /// The text in column `i`.
    pub fn text(&self, i: usize) -> (r: &String)
        requires
            i < self@.len(),
            self@[i as int].is_text(),
        ensures
            r@ == self@[i as int].text(),
    {
        match &self.0[i] {
            Cell::Text(s) => s,
            Cell::Num(_) => {
                proof {
                    assert(!self@[i as int].is_text());
                }
                vstd::pervasive::unreached()
            },
        }
    }

    /// The number in column `i`.
    pub fn num(&self, i: usize) -> (r: usize)
        requires
            i < self@.len(),
            !self@[i as int].is_text(),
        ensures
            r == self@[i as int].num(),
    {
        match &self.0[i] {
            Cell::Num(n) => *n,
            Cell::Text(_) => {
                proof {
                    assert(self@[i as int].is_text());
                }
                vstd::pervasive::unreached()
            },
        }
    }
}

// ---------------------------------------------------------------------------
// The order of rows
// ---------------------------------------------------------------------------

pub open spec fn datum_rank(d: Datum) -> Seq<usize> {
    match d {
        Datum::Text(s) => seq![0usize] + order::name_rank(s),
        Datum::Num(n) => seq![1usize] + seq![n],
    }
}

/// A row: each column announced, then an end. Rows of one shape are ordered column by
/// column.
pub open spec fn row_rank(row: Seq<Datum>) -> Seq<usize>
    decreases row.len(),
{
    if row.len() == 0 {
        seq![0usize]
    } else {
        seq![1usize] + datum_rank(row[0]) + row_rank(row.drop_first())
    }
}

proof fn lemma_datum_rank(a: Datum, b: Datum, x: Seq<usize>, y: Seq<usize>)
    requires
        datum_rank(a) + x == datum_rank(b) + y,
    ensures
        a == b,
        x == y,
{
    let l = datum_rank(a) + x;
    let r = datum_rank(b) + y;
    let tag = datum_rank(a)[0];
    assert(l[0] == tag);
    assert(r[0] == datum_rank(b)[0]);
    match (a, b) {
        (Datum::Text(s), Datum::Text(t)) => {
            assert(l =~= seq![tag] + (order::name_rank(s) + x));
            assert(r =~= seq![tag] + (order::name_rank(t) + y));
            order::lemma_skip(seq![tag], order::name_rank(s) + x, order::name_rank(t) + y);
            order::lemma_name_rank(s, t, x, y);
        },
        (Datum::Num(m), Datum::Num(n)) => {
            assert(l[1] == m && r[1] == n);
            order::lemma_skip(datum_rank(a), x, y);
        },
        _ => {},
    }
}

proof fn lemma_row_rank(a: Seq<Datum>, b: Seq<Datum>, x: Seq<usize>, y: Seq<usize>)
    requires
        row_rank(a) + x == row_rank(b) + y,
    ensures
        a == b,
        x == y,
    decreases a.len(),
{
    let l = row_rank(a) + x;
    let r = row_rank(b) + y;
    assert(l[0] == (if a.len() == 0 {
        0usize
    } else {
        1usize
    }));
    assert(r[0] == (if b.len() == 0 {
        0usize
    } else {
        1usize
    }));
    if a.len() == 0 {
        assert(a =~= b);
        order::lemma_skip(row_rank(a), x, y);
    } else {
        let xa = row_rank(a.drop_first()) + x;
        let yb = row_rank(b.drop_first()) + y;
        assert(l =~= seq![1usize] + (datum_rank(a[0]) + xa));
        assert(r =~= seq![1usize] + (datum_rank(b[0]) + yb));
        order::lemma_skip(seq![1usize], datum_rank(a[0]) + xa, datum_rank(b[0]) + yb);
        lemma_datum_rank(a[0], b[0], xa, yb);
        lemma_row_rank(a.drop_first(), b.drop_first(), x, y);
        assert(a =~= seq![a[0]] + a.drop_first());
        assert(b =~= seq![b[0]] + b.drop_first());
    }
}

fn put_cell(out: &mut Vec<usize>, c: &Cell)
    ensures
        final(out)@ == old(out)@ + datum_rank(c@),
{
    let ghost start = out@;
    match c {
        Cell::Text(s) => {
            order::put(out, 0);
            order::put_name(out, s);
        },
        Cell::Num(n) => {
            order::put(out, 1);
            order::put(out, *n);
        },
    }
    proof {
        assert(out@ =~= start + datum_rank(c@));
    }
}

impl Ranked for Row {
    open spec fn rank(x: Seq<Datum>) -> Seq<usize> {
        row_rank(x)
    }

    proof fn lemma_rank(x: Seq<Datum>, y: Seq<Datum>) {
        lemma_row_rank(x, y, Seq::empty(), Seq::empty());
    }

    fn key(&self) -> (r: Vec<usize>) {
        let mut out: Vec<usize> = Vec::new();
        let ghost all = self@;
        let mut i: usize = 0;
        proof {
            assert(all.skip(0) =~= all);
            assert(out@ + row_rank(all.skip(0)) =~= row_rank(all));
        }
        while i < self.0.len()
            invariant
                i <= self.0@.len(),
                all == self@,
                out@ + row_rank(all.skip(i as int)) == row_rank(all),
            decreases self.0@.len() - i,
        {
            let ghost o0 = out@;
            order::put(&mut out, 1);
            put_cell(&mut out, &self.0[i]);
            proof {
                let rest = all.skip(i as int);
                assert(rest[0] == all[i as int]);
                assert(rest.drop_first() =~= all.skip(i + 1));
                assert(out@ + row_rank(all.skip(i + 1)) =~= o0 + row_rank(rest));
            }
            i += 1;
        }
        order::put(&mut out, 0);
        proof {
            assert(all.skip(i as int).len() == 0);
            assert(row_rank(all.skip(i as int)) =~= seq![0usize]);
        }
        out
    }

    fn twin(&self) -> (r: Self) {
        let mut cells: Vec<Cell> = Vec::new();
        let mut i: usize = 0;
        while i < self.0.len()
            invariant
                i <= self.0@.len(),
                cells@.len() == i,
                forall|j: int| 0 <= j < i ==> (#[trigger] cells@[j])@ == self.0@[j]@,
            decreases self.0@.len() - i,
        {
            let c = match &self.0[i] {
                Cell::Text(s) => Cell::Text(s.clone()),
                Cell::Num(n) => Cell::Num(*n),
            };
            cells.push(c);
            i += 1;
        }
        let r = Row(cells);
        proof {
            assert(r@ =~= self@);
        }
        r
    }
}

/// Rows in order, none twice.
pub open spec fn climbing(rows: Seq<Seq<Datum>>) -> bool {
    forall|i: int, j: int|
        0 <= i < j < rows.len() ==> order::before(
            row_rank(#[trigger] rows[i]),
            row_rank(#[trigger] rows[j]),
        )
}

/// The rows are those of the relation, in order.
pub open spec fn lists(rows: Seq<Seq<Datum>>, rel: Set<Seq<Datum>>) -> bool {
    &&& climbing(rows)
    &&& forall|x: Seq<Datum>| rel.contains(x) <==> #[trigger] rows.contains(x)
}

/// The rows of a list in order, each once.
pub fn arranged(v: &Vec<Row>, Ghost(rel): Ghost<Set<Seq<Datum>>>) -> (r: Vec<Row>)
    requires
        forall|x: Seq<Datum>| rel.contains(x) <==> #[trigger] views(v@).contains(x),
    ensures
        lists(views(r@), rel),
{
    let r = order::ordered(v);
    proof {
        assert forall|x: Seq<Datum>| rel.contains(x) <==> #[trigger] views(r@).contains(x) by {
            assert(tuples(r@).contains(x) <==> tuples(v@).contains(x));
            lemma_views(v@, x);
            lemma_views(r@, x);
        }
        assert forall|i: int, j: int| 0 <= i < j < views(r@).len() implies order::before(
            row_rank(#[trigger] views(r@)[i]),
            row_rank(#[trigger] views(r@)[j]),
        ) by {
            assert(order::before(Row::rank(r@[i]@), Row::rank(r@[j]@)));
        }
    }
    r
}

proof fn lemma_views(v: Seq<Row>, x: Seq<Datum>)
    ensures
        views(v).contains(x) <==> tuples(v).contains(x),
{
    if views(v).contains(x) {
        let i = choose|i: int| 0 <= i < views(v).len() && views(v)[i] == x;
        assert(v[i]@ == x);
    }
    if tuples(v).contains(x) {
        let i = choose|i: int| 0 <= i < v.len() && (#[trigger] v[i])@ == x;
        assert(views(v)[i] == x);
    }
}

// ---------------------------------------------------------------------------
// Typed relations
// ---------------------------------------------------------------------------

/// A row has as many columns as `shape`, text where `shape` says so and numbers
/// elsewhere.
pub open spec fn fits(row: Seq<Datum>, shape: Seq<bool>) -> bool {
    &&& row.len() == shape.len()
    &&& forall|i: int| 0 <= i < shape.len() ==> (#[trigger] row[i]).is_text() == shape[i]
}

pub open spec fn all_fit(rows: Seq<Seq<Datum>>, shape: Seq<bool>) -> bool {
    forall|i: int| 0 <= i < rows.len() ==> fits(#[trigger] rows[i], shape)
}

pub open spec fn one_row(a: Name) -> Seq<Datum> {
    seq![Datum::Text(a)]
}

pub open spec fn one_shape() -> Seq<bool> {
    seq![true]
}

/// The tuples of a relation as rows.
pub open spec fn one_rows<A: Symbol>(v: Seq<(A,)>) -> Seq<Seq<Datum>> {
    Seq::new(v.len(), |i: int| one_row(v[i].0@))
}

/// The typed relation that the rows spell.
pub fn one_relation<A: Symbol>(rows: &Vec<Row>) -> (r: Vec<(A,)>)
    requires
        all_fit(views(rows@), one_shape()),
    ensures
        one_rows(r@) == views(rows@),
{
    let mut r: Vec<(A,)> = Vec::new();
    let mut i: usize = 0;
    while i < rows.len()
        invariant
            i <= rows@.len(),
            all_fit(views(rows@), one_shape()),
            one_rows(r@) == views(rows@).take(i as int),
        decreases rows@.len() - i,
    {
        let ghost row = rows@[i as int]@;
        proof {
            assert(row == views(rows@)[i as int]);
            assert(fits(row, one_shape()));
            assert(row[0].is_text() == one_shape()[0]);
        }
        let x = (A::of(rows[i].text(0).clone()),);
        let ghost r0 = r@;
        r.push(x);
        proof {
            assert(one_rows(r@).last() =~= row);
            assert(one_rows(r@) =~= one_rows(r0).push(row));
            assert(views(rows@).take(i + 1) =~= views(rows@).take(i as int).push(row));
        }
        i += 1;
    }
    proof {
        assert(views(rows@).take(i as int) =~= views(rows@));
    }
    r
}

pub open spec fn two_row(a: Name, b: Name) -> Seq<Datum> {
    seq![Datum::Text(a), Datum::Text(b)]
}

pub open spec fn two_shape() -> Seq<bool> {
    seq![true, true]
}

/// The tuples of a relation as rows.
pub open spec fn two_rows<A: Symbol, B: Symbol>(v: Seq<(A, B)>) -> Seq<Seq<Datum>> {
    Seq::new(v.len(), |i: int| two_row(v[i].0@, v[i].1@))
}

/// The typed relation that the rows spell.
pub fn two_relation<A: Symbol, B: Symbol>(rows: &Vec<Row>) -> (r: Vec<(A, B)>)
    requires
        all_fit(views(rows@), two_shape()),
    ensures
        two_rows(r@) == views(rows@),
{
    let mut r: Vec<(A, B)> = Vec::new();
    let mut i: usize = 0;
    while i < rows.len()
        invariant
            i <= rows@.len(),
            all_fit(views(rows@), two_shape()),
            two_rows(r@) == views(rows@).take(i as int),
        decreases rows@.len() - i,
    {
        let ghost row = rows@[i as int]@;
        proof {
            assert(row == views(rows@)[i as int]);
            assert(fits(row, two_shape()));
            assert(row[0].is_text() == two_shape()[0] && row[1].is_text() == two_shape()[1]);
        }
        let x = (A::of(rows[i].text(0).clone()), B::of(rows[i].text(1).clone()));
        let ghost r0 = r@;
        r.push(x);
        proof {
            assert(two_rows(r@).last() =~= row);
            assert(two_rows(r@) =~= two_rows(r0).push(row));
            assert(views(rows@).take(i + 1) =~= views(rows@).take(i as int).push(row));
        }
        i += 1;
    }
    proof {
        assert(views(rows@).take(i as int) =~= views(rows@));
    }
    r
}

pub open spec fn three_row(a: Name, b: Name, c: Name) -> Seq<Datum> {
    seq![Datum::Text(a), Datum::Text(b), Datum::Text(c)]
}

pub open spec fn three_shape() -> Seq<bool> {
    seq![true, true, true]
}

/// The tuples of a relation as rows.
pub open spec fn three_rows<A: Symbol, B: Symbol, C: Symbol>(v: Seq<(A, B, C)>) -> Seq<Seq<Datum>> {
    Seq::new(v.len(), |i: int| three_row(v[i].0@, v[i].1@, v[i].2@))
}

/// The typed relation that the rows spell.
pub fn three_relation<A: Symbol, B: Symbol, C: Symbol>(rows: &Vec<Row>) -> (r: Vec<(A, B, C)>)
    requires
        all_fit(views(rows@), three_shape()),
    ensures
        three_rows(r@) == views(rows@),
{
    let mut r: Vec<(A, B, C)> = Vec::new();
    let mut i: usize = 0;
    while i < rows.len()
        invariant
            i <= rows@.len(),
            all_fit(views(rows@), three_shape()),
            three_rows(r@) == views(rows@).take(i as int),
        decreases rows@.len() - i,
    {
        let ghost row = rows@[i as int]@;
        proof {
            assert(row == views(rows@)[i as int]);
            assert(fits(row, three_shape()));
            assert(row[0].is_text() == three_shape()[0] && row[1].is_text() == three_shape()[1]
                && row[2].is_text() == three_shape()[2]);
        }
        let x = (A::of(rows[i].text(0).clone()), B::of(rows[i].text(1).clone()),
            C::of(rows[i].text(2).clone()));
        let ghost r0 = r@;
        r.push(x);
        proof {
            assert(three_rows(r@).last() =~= row);
            assert(three_rows(r@) =~= three_rows(r0).push(row));
            assert(views(rows@).take(i + 1) =~= views(rows@).take(i as int).push(row));
        }
        i += 1;
    }
    proof {
        assert(views(rows@).take(i as int) =~= views(rows@));
    }
    r
}

pub open spec fn four_row(a: Name, b: Name, c: Name, d: Name) -> Seq<Datum> {
    seq![Datum::Text(a), Datum::Text(b), Datum::Text(c), Datum::Text(d)]
}

pub open spec fn four_shape() -> Seq<bool> {
    seq![true, true, true, true]
}

/// The tuples of a relation as rows.
pub open spec fn four_rows<A: Symbol, B: Symbol, C: Symbol,
    D: Symbol>(v: Seq<(A, B, C, D)>) -> Seq<Seq<Datum>> {
    Seq::new(v.len(), |i: int| four_row(v[i].0@, v[i].1@, v[i].2@, v[i].3@))
}

/// The typed relation that the rows spell.
pub fn four_relation<A: Symbol, B: Symbol, C: Symbol,
    D: Symbol>(rows: &Vec<Row>) -> (r: Vec<(A, B, C, D)>)
    requires
        all_fit(views(rows@), four_shape()),
    ensures
        four_rows(r@) == views(rows@),
{
    let mut r: Vec<(A, B, C, D)> = Vec::new();
    let mut i: usize = 0;
    while i < rows.len()
        invariant
            i <= rows@.len(),
            all_fit(views(rows@), four_shape()),
            four_rows(r@) == views(rows@).take(i as int),
        decreases rows@.len() - i,
    {
        let ghost row = rows@[i as int]@;
        proof {
            assert(row == views(rows@)[i as int]);
            assert(fits(row, four_shape()));
            assert(row[0].is_text() == four_shape()[0] && row[1].is_text() == four_shape()[1]
                && row[2].is_text() == four_shape()[2] && row[3].is_text() == four_shape()[3]);
        }
        let x = (A::of(rows[i].text(0).clone()), B::of(rows[i].text(1).clone()),
            C::of(rows[i].text(2).clone()), D::of(rows[i].text(3).clone()));
        let ghost r0 = r@;
        r.push(x);
        proof {
            assert(four_rows(r@).last() =~= row);
            assert(four_rows(r@) =~= four_rows(r0).push(row));
            assert(views(rows@).take(i + 1) =~= views(rows@).take(i as int).push(row));
        }
        i += 1;
    }
    proof {
        assert(views(rows@).take(i as int) =~= views(rows@));
    }
    r
}

pub open spec fn indexed_row(a: Name, b: usize, c: Name) -> Seq<Datum> {
    seq![Datum::Text(a), Datum::Num(b), Datum::Text(c)]
}

pub open spec fn indexed_shape() -> Seq<bool> {
    seq![true, false, true]
}

/// The tuples of a relation as rows.
pub open spec fn indexed_rows<A: Symbol, C: Symbol>(v: Seq<(A, usize, C)>) -> Seq<Seq<Datum>> {
    Seq::new(v.len(), |i: int| indexed_row(v[i].0@, v[i].1, v[i].2@))
}

/// The typed relation that the rows spell.
pub fn indexed_relation<A: Symbol, C: Symbol>(rows: &Vec<Row>) -> (r: Vec<(A, usize, C)>)
    requires
        all_fit(views(rows@), indexed_shape()),
    ensures
        indexed_rows(r@) == views(rows@),
{
    let mut r: Vec<(A, usize, C)> = Vec::new();
    let mut i: usize = 0;
    while i < rows.len()
        invariant
            i <= rows@.len(),
            all_fit(views(rows@), indexed_shape()),
            indexed_rows(r@) == views(rows@).take(i as int),
        decreases rows@.len() - i,
    {
        let ghost row = rows@[i as int]@;
        proof {
            assert(row == views(rows@)[i as int]);
            assert(fits(row, indexed_shape()));
            assert(row[0].is_text() == indexed_shape()[0] && row[1].is_text() == indexed_shape()[1]
                && row[2].is_text() == indexed_shape()[2]);
        }
        let x = (A::of(rows[i].text(0).clone()), rows[i].num(1), C::of(rows[i].text(2).clone()));
        let ghost r0 = r@;
        r.push(x);
        proof {
            assert(indexed_rows(r@).last() =~= row);
            assert(indexed_rows(r@) =~= indexed_rows(r0).push(row));
            assert(views(rows@).take(i + 1) =~= views(rows@).take(i as int).push(row));
        }
        i += 1;
    }
    proof {
        assert(views(rows@).take(i as int) =~= views(rows@));
    }
    r
}

pub open spec fn placed_row(a: Name, b: Name, c: usize) -> Seq<Datum> {
    seq![Datum::Text(a), Datum::Text(b), Datum::Num(c)]
}

pub open spec fn placed_shape() -> Seq<bool> {
    seq![true, true, false]
}

/// The tuples of a relation as rows.
pub open spec fn placed_rows<A: Symbol, B: Symbol>(v: Seq<(A, B, usize)>) -> Seq<Seq<Datum>> {
    Seq::new(v.len(), |i: int| placed_row(v[i].0@, v[i].1@, v[i].2))
}

/// The typed relation that the rows spell.
pub fn placed_relation<A: Symbol, B: Symbol>(rows: &Vec<Row>) -> (r: Vec<(A, B, usize)>)
    requires
        all_fit(views(rows@), placed_shape()),
    ensures
        placed_rows(r@) == views(rows@),
{
    let mut r: Vec<(A, B, usize)> = Vec::new();
    let mut i: usize = 0;
    while i < rows.len()
        invariant
            i <= rows@.len(),
            all_fit(views(rows@), placed_shape()),
            placed_rows(r@) == views(rows@).take(i as int),
        decreases rows@.len() - i,
    {
        let ghost row = rows@[i as int]@;
        proof {
            assert(row == views(rows@)[i as int]);
            assert(fits(row, placed_shape()));
            assert(row[0].is_text() == placed_shape()[0] && row[1].is_text() == placed_shape()[1]
                && row[2].is_text() == placed_shape()[2]);
        }
        let x = (A::of(rows[i].text(0).clone()), B::of(rows[i].text(1).clone()), rows[i].num(2));
        let ghost r0 = r@;
        r.push(x);
        proof {
            assert(placed_rows(r@).last() =~= row);
            assert(placed_rows(r@) =~= placed_rows(r0).push(row));
            assert(views(rows@).take(i + 1) =~= views(rows@).take(i as int).push(row));
        }
        i += 1;
    }
    proof {
        assert(views(rows@).take(i as int) =~= views(rows@));
    }
    r
}

} // verus!
