//! What the front end has noted so far: facts under the relation they belong to, in
//! the order they were met.
use vstd::prelude::*;

use crate::rows::{self, Cell, Datum, Row};

verus! {

/// The relation a note belongs to: those of the program's facts, and what the front end
/// keeps to work out dispatch.
#[derive(Clone, Copy, PartialEq, Eq, Structural)]
pub enum Kind {
    Procedure,
    ProcType,
    InProc,
    Alloc,
    AllocType,
    ConstAssign,
    Mov,
    LoadField,
    StoreField,
    LoadStatic,
    StoreStatic,
    LoadIndexConst,
    StoreIndexConst,
    DirectCall,
    VirtualCall,
    ActualArg,
    BindRet,
    Formal,
    Ret,
    /// A class, a name, a descriptor, and the implementation the class declares.
    Declares,
    /// A class and one that it directly extends.
    Extends,
    /// A dispatch key of a call on a declared class.
    ClassSite,
    /// A dispatch key of a call by name alone.
    LuaSite,
    /// A dispatch key of a call through a pointer.
    PointerSite,
    /// A function whose address is taken.
    Taken,
}

impl Kind {
    /// What the rows of the relation look like.
    pub open spec fn shape(self) -> Seq<bool> {
        match self {
            Kind::Procedure
            | Kind::LuaSite
            | Kind::PointerSite
            | Kind::Taken => rows::one_shape(),
            Kind::ProcType
            | Kind::AllocType
            | Kind::DirectCall
            | Kind::BindRet
            | Kind::Ret
            | Kind::Extends => rows::two_shape(),
            Kind::Alloc
            | Kind::ConstAssign
            | Kind::Mov
            | Kind::VirtualCall
            | Kind::ClassSite => rows::three_shape(),
            Kind::LoadField
            | Kind::StoreField
            | Kind::LoadStatic
            | Kind::StoreStatic
            | Kind::LoadIndexConst
            | Kind::StoreIndexConst
            | Kind::Declares => rows::four_shape(),
            Kind::ActualArg
            | Kind::Formal => rows::indexed_shape(),
            Kind::InProc => rows::placed_shape(),
        }
    }
}

/// One note.
pub struct Entry {
    pub kind: Kind,
    pub row: Seq<Datum>,
}

/// The rows noted for one relation, in order.
pub open spec fn noted(log: Seq<Entry>, kind: Kind) -> Seq<Seq<Datum>>
    decreases log.len(),
{
    if log.len() == 0 {
        Seq::empty()
    } else {
        let rest = noted(log.drop_last(), kind);
        if log.last().kind == kind {
            rest.push(log.last().row)
        } else {
            rest
        }
    }
}

/// The rows noted for one relation.
pub open spec fn relation(log: Seq<Entry>, kind: Kind) -> Set<Seq<Datum>> {
    Set::new(|row: Seq<Datum>| log.contains(Entry { kind, row }))
}

pub proof fn lemma_noted(log: Seq<Entry>, kind: Kind, row: Seq<Datum>)
    ensures
        relation(log, kind).contains(row) <==> noted(log, kind).contains(row),
    decreases log.len(),
{
    let x = Entry { kind, row };
    if log.len() > 0 {
        let rest = log.drop_last();
        lemma_noted(rest, kind, row);
        let last = log.last();
        let n = noted(rest, kind);
        if log.contains(x) {
            let i = choose|i: int| 0 <= i < log.len() && log[i] == x;
            if i < rest.len() {
                assert(rest[i] == x);
                let j = choose|j: int| 0 <= j < n.len() && n[j] == row;
                assert(noted(log, kind)[j] == row);
            } else {
                assert(noted(log, kind)[n.len() as int] == row);
            }
        }
        if noted(log, kind).contains(row) {
            let j = choose|j: int| 0 <= j < noted(log, kind).len() && noted(log, kind)[j] == row;
            if j < n.len() {
                assert(n[j] == row);
                let i = choose|i: int| 0 <= i < rest.len() && rest[i] == x;
                assert(log[i] == x);
            } else {
                assert(log[log.len() - 1] == x);
            }
        }
    }
}

struct Fact {
    kind: Kind,
    row: Row,
}

/// The notes, in order.
pub struct Ledger {
    facts: Vec<Fact>,
}

impl View for Ledger {
    type V = Seq<Entry>;

    closed spec fn view(&self) -> Seq<Entry> {
        Seq::new(
            self.facts@.len(),
            |i: int| Entry { kind: self.facts@[i].kind, row: self.facts@[i].row@ },
        )
    }
}

/// Every note has the shape of its relation.
pub open spec fn shapely(log: Seq<Entry>) -> bool {
    forall|i: int| 0 <= i < log.len() ==> rows::fits((#[trigger] log[i]).row, log[i].kind.shape())
}

impl Ledger {
    pub fn new() -> (r: Self)
        ensures
            r@ == Seq::<Entry>::empty(),
    {
        let r = Ledger { facts: Vec::new() };
        proof {
            assert(r@ =~= Seq::<Entry>::empty());
        }
        r
    }

    pub proof fn lemma_len(&self)
        ensures
            self@.len() <= usize::MAX,
    {
        assert(self.facts.len() == self.facts@.len());
    }

    fn note(&mut self, kind: Kind, cells: Vec<Cell>, Ghost(row): Ghost<Seq<Datum>>)
        requires
            shapely(old(self)@),
            Row(cells)@ == row,
            rows::fits(row, kind.shape()),
        ensures
            final(self)@ == old(self)@.push(Entry { kind, row }),
            shapely(final(self)@),
    {
        let ghost before = self@;
        self.facts.push(Fact { kind, row: Row(cells) });
        proof {
            assert(self@ =~= before.push(Entry { kind, row }));
        }
    }

    pub fn note_one(&mut self, kind: Kind, a: &str)
        requires
            shapely(old(self)@),
            kind.shape() == rows::one_shape(),
        ensures
            final(self)@ == old(self)@.push(Entry { kind, row: rows::one_row(a@) }),
            shapely(final(self)@),
    {
        let cells = vec![Cell::Text(a.to_owned())];
        let ghost row = rows::one_row(a@);
        proof {
            assert(Row(cells)@ =~= row);
        }
        self.note(kind, cells, Ghost(row));
    }

    pub fn note_two(&mut self, kind: Kind, a: &str, b: &str)
        requires
            shapely(old(self)@),
            kind.shape() == rows::two_shape(),
        ensures
            final(self)@ == old(self)@.push(Entry { kind, row: rows::two_row(a@, b@) }),
            shapely(final(self)@),
    {
        let cells = vec![Cell::Text(a.to_owned()), Cell::Text(b.to_owned())];
        let ghost row = rows::two_row(a@, b@);
        proof {
            assert(Row(cells)@ =~= row);
        }
        self.note(kind, cells, Ghost(row));
    }

    pub fn note_three(&mut self, kind: Kind, a: &str, b: &str, c: &str)
        requires
            shapely(old(self)@),
            kind.shape() == rows::three_shape(),
        ensures
            final(self)@ == old(self)@.push(Entry { kind, row: rows::three_row(a@, b@, c@) }),
            shapely(final(self)@),
    {
        let cells = vec![Cell::Text(a.to_owned()), Cell::Text(b.to_owned()),
            Cell::Text(c.to_owned())];
        let ghost row = rows::three_row(a@, b@, c@);
        proof {
            assert(Row(cells)@ =~= row);
        }
        self.note(kind, cells, Ghost(row));
    }

    pub fn note_four(&mut self, kind: Kind, a: &str, b: &str, c: &str, d: &str)
        requires
            shapely(old(self)@),
            kind.shape() == rows::four_shape(),
        ensures
            final(self)@ == old(self)@.push(Entry { kind, row: rows::four_row(a@, b@, c@, d@) }),
            shapely(final(self)@),
    {
        let cells = vec![Cell::Text(a.to_owned()), Cell::Text(b.to_owned()),
            Cell::Text(c.to_owned()), Cell::Text(d.to_owned())];
        let ghost row = rows::four_row(a@, b@, c@, d@);
        proof {
            assert(Row(cells)@ =~= row);
        }
        self.note(kind, cells, Ghost(row));
    }

    pub fn note_indexed(&mut self, kind: Kind, a: &str, b: usize, c: &str)
        requires
            shapely(old(self)@),
            kind.shape() == rows::indexed_shape(),
        ensures
            final(self)@ == old(self)@.push(Entry { kind, row: rows::indexed_row(a@, b, c@) }),
            shapely(final(self)@),
    {
        let cells = vec![Cell::Text(a.to_owned()), Cell::Num(b), Cell::Text(c.to_owned())];
        let ghost row = rows::indexed_row(a@, b, c@);
        proof {
            assert(Row(cells)@ =~= row);
        }
        self.note(kind, cells, Ghost(row));
    }

    pub fn note_placed(&mut self, kind: Kind, a: &str, b: &str, c: usize)
        requires
            shapely(old(self)@),
            kind.shape() == rows::placed_shape(),
        ensures
            final(self)@ == old(self)@.push(Entry { kind, row: rows::placed_row(a@, b@, c) }),
            shapely(final(self)@),
    {
        let cells = vec![Cell::Text(a.to_owned()), Cell::Text(b.to_owned()), Cell::Num(c)];
        let ghost row = rows::placed_row(a@, b@, c);
        proof {
            assert(Row(cells)@ =~= row);
        }
        self.note(kind, cells, Ghost(row));
    }

    /// The rows noted for one relation, in order.
    pub fn rows(&self, kind: Kind) -> (r: Vec<Row>)
        requires
            shapely(self@),
        ensures
            rows::views(r@) == noted(self@, kind),
            rows::all_fit(rows::views(r@), kind.shape()),
    {
        let mut r: Vec<Row> = Vec::new();
        let mut i: usize = 0;
        proof {
            assert(rows::views(r@) =~= noted(self@.take(0), kind));
        }
        while i < self.facts.len()
            invariant
                i <= self.facts@.len(),
                shapely(self@),
                rows::views(r@) == noted(self@.take(i as int), kind),
                rows::all_fit(rows::views(r@), kind.shape()),
            decreases self.facts@.len() - i,
        {
            proof {
                assert(self@.take(i + 1).drop_last() =~= self@.take(i as int));
                assert(self@.take(i + 1).last() == self@[i as int]);
                assert(rows::fits(self@[i as int].row, self@[i as int].kind.shape()));
            }
            if self.facts[i].kind == kind {
                let ghost r0 = r@;
                let row = crate::order::Ranked::twin(&self.facts[i].row);
                r.push(row);
                proof {
                    assert(rows::views(r@) =~= rows::views(r0).push(row@));
                }
            }
            i += 1;
        }
        proof {
            assert(self@.take(i as int) =~= self@);
        }
        r
    }

    /// The rows noted for one relation, sorted, each once.
    pub fn relation(&self, kind: Kind) -> (r: Vec<Row>)
        requires
            shapely(self@),
        ensures
            rows::lists(rows::views(r@), relation(self@, kind)),
            rows::all_fit(rows::views(r@), kind.shape()),
    {
        let all = self.rows(kind);
        let ghost rel = relation(self@, kind);
        proof {
            assert forall|x: Seq<Datum>|
                rel.contains(x) <==> #[trigger] rows::views(all@).contains(x) by {
                lemma_noted(self@, kind, x);
            }
        }
        let r = rows::arranged(&all, Ghost(rel));
        proof {
            let v = rows::views(r@);
            assert forall|i: int| 0 <= i < v.len() implies rows::fits(
                #[trigger] v[i],
                kind.shape(),
            ) by {
                assert(v.contains(v[i]));
                assert(rel.contains(v[i]));
                let x = Entry { kind, row: v[i] };
                let j = choose|j: int| 0 <= j < self@.len() && self@[j] == x;
                assert(rows::fits(self@[j].row, self@[j].kind.shape()));
            }
        }
        r
    }
}

} // verus!
