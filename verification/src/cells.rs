//! The values that tuples are made of, as one type, and tuples as rows of them.
use vstd::prelude::*;

use crate::access_path::{
    AccessPath, Accessor, Base, CritId, Instance, Path, PtVal, Root, Step, Suffix, Value,
};
use crate::ir::{Alloc, Const, Field, Name, Proc, Sig, Stmt, Symbol, Type, Var};

verus! {

// ---------------------------------------------------------------------------
// Values
// ---------------------------------------------------------------------------

/// A value of any column.
pub enum Thing {
    Name(Name),
    Num(usize),
    Inst(Instance),
    Root(Root),
    Path(Path),
    Value(Value),
    Step(Step),
    Steps(Seq<Step>),
}

/// A value of any column.
pub enum Cell {
    Name(String),
    Num(usize),
    Inst(CritId),
    Root(Base),
    Path(AccessPath),
    Value(PtVal),
    Step(Accessor),
    Steps(Suffix),
}

impl View for Cell {
    type V = Thing;

    open spec fn view(&self) -> Thing {
        match self {
            Cell::Name(x) => Thing::Name(x@),
            Cell::Num(x) => Thing::Num(*x),
            Cell::Inst(x) => Thing::Inst(x@),
            Cell::Root(x) => Thing::Root(x@),
            Cell::Path(x) => Thing::Path(x@),
            Cell::Value(x) => Thing::Value(x@),
            Cell::Step(x) => Thing::Step(x@),
            Cell::Steps(x) => Thing::Steps(x@),
        }
    }
}

impl Cell {
    pub fn copied(&self) -> (r: Cell)
        ensures
            r@ == self@,
    {
        match self {
            Cell::Name(x) => Cell::Name(x.clone()),
            Cell::Num(x) => Cell::Num(*x),
            Cell::Inst(x) => Cell::Inst(x.clone()),
            Cell::Root(x) => Cell::Root(x.clone()),
            Cell::Path(x) => Cell::Path(x.clone()),
            Cell::Value(x) => Cell::Value(x.clone()),
            Cell::Step(x) => Cell::Step(x.clone()),
            Cell::Steps(x) => Cell::Steps(x.clone()),
        }
    }

    pub fn same(&self, other: &Cell) -> (r: bool)
        ensures
            r == (self@ == other@),
    {
        match (self, other) {
            (Cell::Name(a), Cell::Name(b)) => *a == *b,
            (Cell::Num(a), Cell::Num(b)) => *a == *b,
            (Cell::Inst(a), Cell::Inst(b)) => *a == *b,
            (Cell::Root(a), Cell::Root(b)) => *a == *b,
            (Cell::Path(a), Cell::Path(b)) => *a == *b,
            (Cell::Value(a), Cell::Value(b)) => *a == *b,
            (Cell::Step(a), Cell::Step(b)) => *a == *b,
            (Cell::Steps(a), Cell::Steps(b)) => *a == *b,
            _ => false,
        }
    }
}

pub open spec fn things(v: Seq<Cell>) -> Seq<Thing> {
    Seq::new(v.len(), |i: int| v[i]@)
}

/// Whether two rows hold the same.
pub fn same_rows(a: &Vec<Cell>, b: &Vec<Cell>) -> (r: bool)
    ensures
        r == (things(a@) == things(b@)),
{
    if a.len() != b.len() {
        proof {
            assert(things(a@).len() != things(b@).len());
        }
        return false;
    }
    let mut i: usize = 0;
    while i < a.len()
        invariant
            i <= a@.len() == b@.len(),
            forall|j: int| 0 <= j < i ==> a@[j]@ == b@[j]@,
        decreases a@.len() - i,
    {
        if !a[i].same(&b[i]) {
            proof {
                assert(things(a@)[i as int] != things(b@)[i as int]);
            }
            return false;
        }
        i += 1;
    }
    proof {
        assert(things(a@) =~= things(b@));
    }
    true
}

pub fn copy_row(v: &Vec<Cell>) -> (r: Vec<Cell>)
    ensures
        things(r@) == things(v@),
{
    let mut r: Vec<Cell> = Vec::new();
    let mut i: usize = 0;
    while i < v.len()
        invariant
            i <= v@.len(),
            r@.len() == i,
            forall|j: int| 0 <= j < i ==> (#[trigger] r@[j])@ == v@[j]@,
        decreases v@.len() - i,
    {
        r.push(v[i].copied());
        i += 1;
    }
    proof {
        assert(things(r@) =~= things(v@));
    }
    r
}

// ---------------------------------------------------------------------------
// Columns
// ---------------------------------------------------------------------------

/// What a column can hold.
pub trait Item: View + Sized {
    spec fn thing(x: Self::V) -> Thing;

    /// Different values stay different.
    proof fn lemma_thing(x: Self::V, y: Self::V)
        requires
            Self::thing(x) == Self::thing(y),
        ensures
            x == y,
    ;

    fn cell(&self) -> (r: Cell)
        ensures
            r@ == Self::thing(self@),
    ;

    fn take(c: &Cell) -> (r: Option<Self>)
        ensures
            match r {
                Some(x) => c@ == Self::thing(x@),
                None => forall|x: Self::V| c@ != #[trigger] Self::thing(x),
            },
    ;
}

impl Item for Proc {
    open spec fn thing(x: Self::V) -> Thing {
        Thing::Name(x)
    }

    proof fn lemma_thing(x: Self::V, y: Self::V) {
    }

    fn cell(&self) -> Cell {
        Cell::Name(self.text().clone())
    }

    fn take(c: &Cell) -> Option<Self> {
        match c {
            Cell::Name(x) => Some(Proc::of(x.clone())),
            _ => None,
        }
    }
}

impl Item for Stmt {
    open spec fn thing(x: Self::V) -> Thing {
        Thing::Name(x)
    }

    proof fn lemma_thing(x: Self::V, y: Self::V) {
    }

    fn cell(&self) -> Cell {
        Cell::Name(self.text().clone())
    }

    fn take(c: &Cell) -> Option<Self> {
        match c {
            Cell::Name(x) => Some(Stmt::of(x.clone())),
            _ => None,
        }
    }
}

impl Item for Var {
    open spec fn thing(x: Self::V) -> Thing {
        Thing::Name(x)
    }

    proof fn lemma_thing(x: Self::V, y: Self::V) {
    }

    fn cell(&self) -> Cell {
        Cell::Name(self.text().clone())
    }

    fn take(c: &Cell) -> Option<Self> {
        match c {
            Cell::Name(x) => Some(Var::of(x.clone())),
            _ => None,
        }
    }
}

impl Item for Field {
    open spec fn thing(x: Self::V) -> Thing {
        Thing::Name(x)
    }

    proof fn lemma_thing(x: Self::V, y: Self::V) {
    }

    fn cell(&self) -> Cell {
        Cell::Name(self.text().clone())
    }

    fn take(c: &Cell) -> Option<Self> {
        match c {
            Cell::Name(x) => Some(Field::of(x.clone())),
            _ => None,
        }
    }
}

impl Item for Const {
    open spec fn thing(x: Self::V) -> Thing {
        Thing::Name(x)
    }

    proof fn lemma_thing(x: Self::V, y: Self::V) {
    }

    fn cell(&self) -> Cell {
        Cell::Name(self.text().clone())
    }

    fn take(c: &Cell) -> Option<Self> {
        match c {
            Cell::Name(x) => Some(Const::of(x.clone())),
            _ => None,
        }
    }
}

impl Item for Alloc {
    open spec fn thing(x: Self::V) -> Thing {
        Thing::Name(x)
    }

    proof fn lemma_thing(x: Self::V, y: Self::V) {
    }

    fn cell(&self) -> Cell {
        Cell::Name(self.text().clone())
    }

    fn take(c: &Cell) -> Option<Self> {
        match c {
            Cell::Name(x) => Some(Alloc::of(x.clone())),
            _ => None,
        }
    }
}

impl Item for Type {
    open spec fn thing(x: Self::V) -> Thing {
        Thing::Name(x)
    }

    proof fn lemma_thing(x: Self::V, y: Self::V) {
    }

    fn cell(&self) -> Cell {
        Cell::Name(self.text().clone())
    }

    fn take(c: &Cell) -> Option<Self> {
        match c {
            Cell::Name(x) => Some(Type::of(x.clone())),
            _ => None,
        }
    }
}

impl Item for Sig {
    open spec fn thing(x: Self::V) -> Thing {
        Thing::Name(x)
    }

    proof fn lemma_thing(x: Self::V, y: Self::V) {
    }

    fn cell(&self) -> Cell {
        Cell::Name(self.text().clone())
    }

    fn take(c: &Cell) -> Option<Self> {
        match c {
            Cell::Name(x) => Some(Sig::of(x.clone())),
            _ => None,
        }
    }
}

impl Item for usize {
    open spec fn thing(x: Self::V) -> Thing {
        Thing::Num(x)
    }

    proof fn lemma_thing(x: Self::V, y: Self::V) {
    }

    fn cell(&self) -> Cell {
        Cell::Num(*self)
    }

    fn take(c: &Cell) -> Option<Self> {
        match c {
            Cell::Num(x) => Some(*x),
            _ => None,
        }
    }
}

impl Item for CritId {
    open spec fn thing(x: Self::V) -> Thing {
        Thing::Inst(x)
    }

    proof fn lemma_thing(x: Self::V, y: Self::V) {
    }

    fn cell(&self) -> Cell {
        Cell::Inst(self.clone())
    }

    fn take(c: &Cell) -> Option<Self> {
        match c {
            Cell::Inst(x) => Some(x.clone()),
            _ => None,
        }
    }
}

impl Item for Base {
    open spec fn thing(x: Self::V) -> Thing {
        Thing::Root(x)
    }

    proof fn lemma_thing(x: Self::V, y: Self::V) {
    }

    fn cell(&self) -> Cell {
        Cell::Root(self.clone())
    }

    fn take(c: &Cell) -> Option<Self> {
        match c {
            Cell::Root(x) => Some(x.clone()),
            _ => None,
        }
    }
}

impl Item for AccessPath {
    open spec fn thing(x: Self::V) -> Thing {
        Thing::Path(x)
    }

    proof fn lemma_thing(x: Self::V, y: Self::V) {
    }

    fn cell(&self) -> Cell {
        Cell::Path(self.clone())
    }

    fn take(c: &Cell) -> Option<Self> {
        match c {
            Cell::Path(x) => Some(x.clone()),
            _ => None,
        }
    }
}

impl Item for PtVal {
    open spec fn thing(x: Self::V) -> Thing {
        Thing::Value(x)
    }

    proof fn lemma_thing(x: Self::V, y: Self::V) {
    }

    fn cell(&self) -> Cell {
        Cell::Value(self.clone())
    }

    fn take(c: &Cell) -> Option<Self> {
        match c {
            Cell::Value(x) => Some(x.clone()),
            _ => None,
        }
    }
}

impl Item for Accessor {
    open spec fn thing(x: Self::V) -> Thing {
        Thing::Step(x)
    }

    proof fn lemma_thing(x: Self::V, y: Self::V) {
    }

    fn cell(&self) -> Cell {
        Cell::Step(self.clone())
    }

    fn take(c: &Cell) -> Option<Self> {
        match c {
            Cell::Step(x) => Some(x.clone()),
            _ => None,
        }
    }
}

impl Item for Suffix {
    open spec fn thing(x: Self::V) -> Thing {
        Thing::Steps(x)
    }

    proof fn lemma_thing(x: Self::V, y: Self::V) {
    }

    fn cell(&self) -> Cell {
        Cell::Steps(self.clone())
    }

    fn take(c: &Cell) -> Option<Self> {
        match c {
            Cell::Steps(x) => Some(x.clone()),
            _ => None,
        }
    }
}

// ---------------------------------------------------------------------------
// Tuples
// ---------------------------------------------------------------------------

/// A tuple as a row.
pub trait Record: View + Sized {
    spec fn row(x: Self::V) -> Seq<Thing>;

    /// Different tuples have different rows.
    proof fn lemma_row(x: Self::V, y: Self::V)
        requires
            Self::row(x) == Self::row(y),
        ensures
            x == y,
    ;

    fn cells(&self) -> (r: Vec<Cell>)
        ensures
            things(r@) == Self::row(self@),
    ;

    fn read(v: &Vec<Cell>) -> (r: Option<Self>)
        ensures
            match r {
                Some(x) => things(v@) == Self::row(x@),
                None => forall|x: Self::V| things(v@) != #[trigger] Self::row(x),
            },
    ;
}

impl<A: Item> Record for (A,) {
    open spec fn row(x: Self::V) -> Seq<Thing> {
        seq![A::thing(x.0)]
    }

    proof fn lemma_row(x: Self::V, y: Self::V) {
        let (a, b) = (Self::row(x), Self::row(y));
        assert(a[0] == b[0]);
        A::lemma_thing(x.0, y.0);
    }

    fn cells(&self) -> Vec<Cell> {
        let r: Vec<Cell> = vec![self.0.cell()];
        proof {
            assert(things(r@) =~= Self::row(self@));
        }
        r
    }

    fn read(v: &Vec<Cell>) -> Option<Self> {
        if v.len() != 1 {
            proof {
                assert forall|x: Self::V| things(v@) != #[trigger] Self::row(x) by {
                    assert(Self::row(x).len() == 1);
                }
            }
            return None;
        }
        match A::take(&v[0]) {
            Some(a) => {
                let r = (a,);
                proof {
                    assert(things(v@) =~= Self::row(r@));
                }
                Some(r)
            },
            None => {
                proof {
                    assert forall|x: Self::V| things(v@) != #[trigger] Self::row(x) by {
                        if things(v@) == Self::row(x) {
                            assert(things(v@)[0] == Self::row(x)[0]);
                            assert(v@[0]@ == A::thing(x.0));
                        }
                    }
                }
                None
            },
        }
    }
}

impl<A: Item, B: Item> Record for (A, B) {
    open spec fn row(x: Self::V) -> Seq<Thing> {
        seq![A::thing(x.0), B::thing(x.1)]
    }

    proof fn lemma_row(x: Self::V, y: Self::V) {
        let (a, b) = (Self::row(x), Self::row(y));
        assert(a[0] == b[0]);
        assert(a[1] == b[1]);
        A::lemma_thing(x.0, y.0);
        B::lemma_thing(x.1, y.1);
    }

    fn cells(&self) -> Vec<Cell> {
        let r: Vec<Cell> = vec![self.0.cell(), self.1.cell()];
        proof {
            assert(things(r@) =~= Self::row(self@));
        }
        r
    }

    fn read(v: &Vec<Cell>) -> Option<Self> {
        if v.len() != 2 {
            proof {
                assert forall|x: Self::V| things(v@) != #[trigger] Self::row(x) by {
                    assert(Self::row(x).len() == 2);
                }
            }
            return None;
        }
        match (A::take(&v[0]), B::take(&v[1])) {
            (Some(a), Some(b)) => {
                let r = (a, b);
                proof {
                    assert(things(v@) =~= Self::row(r@));
                }
                Some(r)
            },
            _ => {
                proof {
                    assert forall|x: Self::V| things(v@) != #[trigger] Self::row(x) by {
                        if things(v@) == Self::row(x) {
                            assert(things(v@)[0] == Self::row(x)[0]);
                            assert(v@[0]@ == A::thing(x.0));
                            assert(things(v@)[1] == Self::row(x)[1]);
                            assert(v@[1]@ == B::thing(x.1));
                        }
                    }
                }
                None
            },
        }
    }
}

impl<A: Item, B: Item, C: Item> Record for (A, B, C) {
    open spec fn row(x: Self::V) -> Seq<Thing> {
        seq![A::thing(x.0), B::thing(x.1), C::thing(x.2)]
    }

    proof fn lemma_row(x: Self::V, y: Self::V) {
        let (a, b) = (Self::row(x), Self::row(y));
        assert(a[0] == b[0]);
        assert(a[1] == b[1]);
        assert(a[2] == b[2]);
        A::lemma_thing(x.0, y.0);
        B::lemma_thing(x.1, y.1);
        C::lemma_thing(x.2, y.2);
    }

    fn cells(&self) -> Vec<Cell> {
        let r: Vec<Cell> = vec![self.0.cell(), self.1.cell(), self.2.cell()];
        proof {
            assert(things(r@) =~= Self::row(self@));
        }
        r
    }

    fn read(v: &Vec<Cell>) -> Option<Self> {
        if v.len() != 3 {
            proof {
                assert forall|x: Self::V| things(v@) != #[trigger] Self::row(x) by {
                    assert(Self::row(x).len() == 3);
                }
            }
            return None;
        }
        match (A::take(&v[0]), B::take(&v[1]), C::take(&v[2])) {
            (Some(a), Some(b), Some(c)) => {
                let r = (a, b, c);
                proof {
                    assert(things(v@) =~= Self::row(r@));
                }
                Some(r)
            },
            _ => {
                proof {
                    assert forall|x: Self::V| things(v@) != #[trigger] Self::row(x) by {
                        if things(v@) == Self::row(x) {
                            assert(things(v@)[0] == Self::row(x)[0]);
                            assert(v@[0]@ == A::thing(x.0));
                            assert(things(v@)[1] == Self::row(x)[1]);
                            assert(v@[1]@ == B::thing(x.1));
                            assert(things(v@)[2] == Self::row(x)[2]);
                            assert(v@[2]@ == C::thing(x.2));
                        }
                    }
                }
                None
            },
        }
    }
}

impl<A: Item, B: Item, C: Item, D: Item> Record for (A, B, C, D) {
    open spec fn row(x: Self::V) -> Seq<Thing> {
        seq![A::thing(x.0), B::thing(x.1), C::thing(x.2), D::thing(x.3)]
    }

    proof fn lemma_row(x: Self::V, y: Self::V) {
        let (a, b) = (Self::row(x), Self::row(y));
        assert(a[0] == b[0]);
        assert(a[1] == b[1]);
        assert(a[2] == b[2]);
        assert(a[3] == b[3]);
        A::lemma_thing(x.0, y.0);
        B::lemma_thing(x.1, y.1);
        C::lemma_thing(x.2, y.2);
        D::lemma_thing(x.3, y.3);
    }

    fn cells(&self) -> Vec<Cell> {
        let r: Vec<Cell> = vec![self.0.cell(), self.1.cell(), self.2.cell(), self.3.cell()];
        proof {
            assert(things(r@) =~= Self::row(self@));
        }
        r
    }

    fn read(v: &Vec<Cell>) -> Option<Self> {
        if v.len() != 4 {
            proof {
                assert forall|x: Self::V| things(v@) != #[trigger] Self::row(x) by {
                    assert(Self::row(x).len() == 4);
                }
            }
            return None;
        }
        match (A::take(&v[0]), B::take(&v[1]), C::take(&v[2]), D::take(&v[3])) {
            (Some(a), Some(b), Some(c), Some(d)) => {
                let r = (a, b, c, d);
                proof {
                    assert(things(v@) =~= Self::row(r@));
                }
                Some(r)
            },
            _ => {
                proof {
                    assert forall|x: Self::V| things(v@) != #[trigger] Self::row(x) by {
                        if things(v@) == Self::row(x) {
                            assert(things(v@)[0] == Self::row(x)[0]);
                            assert(v@[0]@ == A::thing(x.0));
                            assert(things(v@)[1] == Self::row(x)[1]);
                            assert(v@[1]@ == B::thing(x.1));
                            assert(things(v@)[2] == Self::row(x)[2]);
                            assert(v@[2]@ == C::thing(x.2));
                            assert(things(v@)[3] == Self::row(x)[3]);
                            assert(v@[3]@ == D::thing(x.3));
                        }
                    }
                }
                None
            },
        }
    }
}

} // verus!
